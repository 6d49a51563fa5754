use visual_git::util::{now_unix_ms, unix_ms_from_elapsed};

#[test]
fn the_clock_reads_a_time_after_2020() {
    let a = now_unix_ms();
    let b = now_unix_ms();
    assert!(a > 1_577_836_800_000);
    assert!(b >= a);
}

#[test]
fn elapsed_milliseconds_are_cut_to_64_bits() {
    assert_eq!(unix_ms_from_elapsed(Some(1_700_000_000_123)), 1_700_000_000_123);
    assert_eq!(unix_ms_from_elapsed(Some((1u128 << 64) + 7)), 7);
    assert_eq!(unix_ms_from_elapsed(None), 0);
}
