//! The decisions of the loop that watches the repository for changes.
use vstd::prelude::*;
use vstd::string::*;

use crate::text::owned;

verus! {

/// How long the watcher waits for further changes after one, in
/// milliseconds, before it reads the status again.
pub const DEBOUNCE_MS: u64 = 75;

/// What the watcher hears from the file system.
pub enum WatchEvent {
    /// Something in the repository changed.
    Changed,
    /// The watcher reported an error, with its text.
    Failed(String),
    /// The watcher is gone.
    Closed,
}

/// What the watcher does next.
pub enum WatchAction {
    /// Wait out the quiet period, read the status and send it to every
    /// client.
    Refresh,
    /// Report the message and go on watching.
    Log(String),
    /// Stop watching.
    Stop,
}

/// The next step of the watcher after an event.
pub fn watcher_step(event: WatchEvent) -> (a: WatchAction)
    ensures
        match event {
            WatchEvent::Changed => a is Refresh,
            WatchEvent::Failed(e) => a matches WatchAction::Log(m) && m@ == "watch error: "@ + e@,
            WatchEvent::Closed => a is Stop,
        },
{
    match event {
        WatchEvent::Changed => WatchAction::Refresh,
        WatchEvent::Failed(e) => {
            let mut m = owned("watch error: ");
            m.append(e.as_str());
            WatchAction::Log(m)
        },
        WatchEvent::Closed => WatchAction::Stop,
    }
}

} // verus!
