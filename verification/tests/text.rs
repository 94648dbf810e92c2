use eventchains::clock::{
    clamp_to_u64, elapsed_nanos, nanos_since, seconds_of, start_clock, unix_seconds,
};
use std::time::{Duration, UNIX_EPOCH};
use eventchains::text::{decimal, decimal_of, joined, text};

#[test]
fn numbers_are_written_in_decimal() {
    assert_eq!(decimal(0), "0");
    assert_eq!(decimal(7), "7");
    assert_eq!(decimal(10), "10");
    assert_eq!(decimal(1234567890), "1234567890");
    assert_eq!(decimal(u128::MAX), u128::MAX.to_string());
    assert_eq!(decimal_of(90210), "90210");
}

#[test]
fn strings_are_copied_and_joined() {
    assert_eq!(text("abc"), "abc");
    assert_eq!(joined("ab", "cd"), "abcd");
    assert_eq!(joined("", "x"), "x");
}

#[test]
fn clocks_can_be_read() {
    let origin = start_clock();
    let first = elapsed_nanos(&origin);
    let second = elapsed_nanos(&origin);
    assert!(second >= first);
    let _ = nanos_since(&origin);
    assert!(unix_seconds() > 1_600_000_000);
}

#[test]
fn seconds_of_a_reading_are_its_whole_seconds() {
    assert_eq!(seconds_of(Ok(Duration::from_secs(90))), 90);
    assert_eq!(seconds_of(Ok(Duration::from_millis(2500))), 2);
    assert_eq!(seconds_of(Ok(Duration::from_millis(999))), 0);
    let later = UNIX_EPOCH + Duration::from_secs(5);
    assert_eq!(seconds_of(later.duration_since(UNIX_EPOCH)), 5);
    assert_eq!(seconds_of(UNIX_EPOCH.duration_since(later)), 0);
}

#[test]
fn wide_numbers_are_held_at_the_largest_u64() {
    assert_eq!(clamp_to_u64(7), 7);
    assert_eq!(clamp_to_u64(u64::MAX as u128), u64::MAX);
    assert_eq!(clamp_to_u64(u64::MAX as u128 + 1), u64::MAX);
    assert_eq!(clamp_to_u64(u128::MAX), u64::MAX);
}
