use bastard_minesweeper::chance::seconds_within;
use bastard_minesweeper::collapse::SAMPLING_SECONDS;

#[test]
fn a_span_lies_within_a_longer_limit_only() {
    assert!(seconds_within(0, 2));
    assert!(seconds_within(1, 2));
    assert!(!seconds_within(2, 2));
    assert!(!seconds_within(3, 2));
    assert!(seconds_within(u64::MAX - 1, u64::MAX));
    assert!(!seconds_within(u64::MAX, u64::MAX));
}

#[test]
fn no_span_lies_within_the_limit_zero() {
    assert!(!seconds_within(0, 0));
    assert!(!seconds_within(7, 0));
}

#[test]
fn sampling_stops_once_two_whole_seconds_have_passed() {
    assert_eq!(SAMPLING_SECONDS, 2);
    assert!(seconds_within(1, SAMPLING_SECONDS));
    assert!(!seconds_within(2, SAMPLING_SECONDS));
}
