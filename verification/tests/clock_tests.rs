use chainstate::clock::{get_time, time_of_reading};

#[test]
fn get_time_counts_milliseconds_since_1970() {
    let now = get_time();
    assert!(now > 1_600_000_000_000);
    let later = get_time();
    assert!(later + 60_000 > now);
}

#[test]
fn reading_stands_for_its_milliseconds_or_zero() {
    assert_eq!(time_of_reading(Some(1_700_000_000_123)), 1_700_000_000_123);
    assert_eq!(time_of_reading(Some(0)), 0);
    assert_eq!(time_of_reading(Some(u128::MAX)), u128::MAX);
    assert_eq!(time_of_reading(None), 0);
}
