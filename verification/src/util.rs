//! Small utilities that depend on the machine.
use std::time::{Duration, SystemTime};

use vstd::prelude::*;

verus! {

/// A reading of the system clock.
#[verifier::external_type_specification]
#[verifier::external_body]
pub struct ExSystemTime(std::time::SystemTime);

/// `SystemTime::now`: the current reading of the system clock. It depends
/// on the machine, so nothing is stated of it.
#[verifier::external_body]
fn system_now() -> SystemTime {
    SystemTime::now()
}

/// `SystemTime::duration_since` with the Unix epoch: the time elapsed since
/// the epoch, `None` when the reading lies before it. Nothing is stated of
/// the duration, which depends on the reading.
#[verifier::external_body]
fn since_unix_epoch(t: &SystemTime) -> Option<Duration> {
    match t.duration_since(std::time::UNIX_EPOCH) {
        Ok(d) => Some(d),
        Err(_) => None,
    }
}

/// `Duration::as_millis`: the number of whole milliseconds in `d`. The
/// duration is opaque here, so nothing is stated of the number.
#[verifier::external_body]
fn whole_millis(d: &Duration) -> u128 {
    d.as_millis()
}

/// The time in milliseconds since the Unix epoch given the whole
/// milliseconds elapsed since it (`None` when the clock reads a time before
/// the epoch): the elapsed milliseconds cut to 64 bits, or 0.
pub fn unix_ms_from_elapsed(elapsed_ms: Option<u128>) -> (r: u64)
    ensures
        r == match elapsed_ms {
            Some(ms) => ms as u64,
            None => 0,
        },
{
    match elapsed_ms {
        Some(ms) => {
            #[verifier::truncate]
            (ms as u64)
        },
        None => 0,
    }
}

/// The current time in milliseconds since the Unix epoch (0 when the clock
/// is set before the epoch), cut to 64 bits: [`unix_ms_from_elapsed`] of
/// what the clock gives. The reading itself depends on the machine, so
/// nothing more is stated of the result.
pub fn now_unix_ms() -> u64 {
    let now = system_now();
    let elapsed_ms = match since_unix_epoch(&now) {
        Some(d) => Some(whole_millis(&d)),
        None => None,
    };
    unix_ms_from_elapsed(elapsed_ms)
}

} // verus!
