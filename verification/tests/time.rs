use dyndo::time::Time;

#[test]
fn milliseconds_truncates_fractional_milliseconds() {
    assert_eq!(Time::milliseconds(1, 90_000), 0);
}

#[test]
fn milliseconds_converts_using_the_timescale() {
    assert_eq!(Time::milliseconds(90_000, 90_000), 1_000);
}

#[test]
fn milliseconds_saturates_when_the_result_does_not_fit() {
    assert_eq!(Time::milliseconds(u64::MAX, 1), u64::MAX);
}

#[test]
fn milliseconds_keeps_large_times_that_still_fit() {
    assert_eq!(Time::milliseconds(u64::MAX, 1_000), u64::MAX);
    assert_eq!(Time::milliseconds(u64::MAX / 1_000, 1), u64::MAX / 1_000 * 1_000);
}
