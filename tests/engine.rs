use ulid_core::{ulid_random, ulid_timestamp, UlidError, UlidState, RANDOM_MAX};

#[test]
fn strict_same_millisecond_increments_by_one() {
    let mut state = UlidState::with_last(1000, 5);
    let a = state.advance(1000, true, 0).unwrap();
    let b = state.advance(1000, true, 0).unwrap();
    assert_eq!(a.timestamp_ms(), 1000);
    assert_eq!(a.random(), 6);
    assert_eq!(b.random(), a.random() + 1);
    assert_eq!(a.to_string(), "00000000Z80000000000000006");
    assert_eq!(b.to_string(), "00000000Z80000000000000007");
    assert!(b.to_string() > a.to_string());
    assert_eq!(state.last_timestamp_ms(), 1000);
    assert_eq!(state.last_random(), 7);
}

#[test]
fn strict_overflow_fails_and_keeps_state() {
    let mut state = UlidState::with_last(1000, RANDOM_MAX);
    assert_eq!(state.advance(1000, true, 99), Err(UlidError::RandomOverflow));
    assert_eq!(state.last_timestamp_ms(), 1000);
    assert_eq!(state.last_random(), RANDOM_MAX);
}

#[test]
fn permissive_overflow_resamples() {
    let mut state = UlidState::with_last(1000, RANDOM_MAX);
    let u = state.advance(1000, false, 42).unwrap();
    assert_eq!(u.timestamp_ms(), 1000);
    assert_eq!(u.random(), 42);
    assert_eq!(state.last_random(), 42);
}

#[test]
fn strict_clock_regression_fails() {
    let mut state = UlidState::with_last(1000, 5);
    assert_eq!(state.advance(999, true, 0), Err(UlidError::ClockRegression));
    assert_eq!(state.last_timestamp_ms(), 1000);
    assert_eq!(state.last_random(), 5);
}

#[test]
fn permissive_clock_regression_counts_as_same_millisecond() {
    let mut state = UlidState::with_last(1000, 5);
    let u = state.advance(999, false, 0).unwrap();
    assert_eq!(u.timestamp_ms(), 1000);
    assert_eq!(u.random(), 6);
}

#[test]
fn later_clock_opens_new_window() {
    let mut state = UlidState::with_last(1000, 5);
    let u = state.advance(1001, true, 12345).unwrap();
    assert_eq!(u.timestamp_ms(), 1001);
    assert_eq!(u.random(), 12345);
    // Only the low 80 bits of the drawn value are kept.
    let v = state.advance(1002, true, u128::MAX).unwrap();
    assert_eq!(v.random(), RANDOM_MAX);
}

#[test]
fn seeded_payload_is_cut_to_80_bits() {
    let state = UlidState::with_last(7, u128::MAX);
    assert_eq!(state.last_random(), RANDOM_MAX);
}

#[test]
fn generate_renders_the_new_identifier() {
    let mut state = UlidState::new(5000);
    assert_eq!(state.last_timestamp_ms(), 5000);
    assert!(state.last_random() <= RANDOM_MAX);
    let a = state.generate(5001, true).unwrap();
    let b = state.generate(5001, true).unwrap();
    assert_eq!(ulid_timestamp(&a), Ok(5001));
    assert_eq!(ulid_timestamp(&b), Ok(5001));
    assert_eq!(ulid_random(&b).unwrap(), ulid_random(&a).unwrap() + 1);
    assert!(a < b);
    assert_eq!(state.generate(4000, true), Err(UlidError::ClockRegression));
}

#[test]
fn later_generation_sorts_later() {
    let mut state = UlidState::new(10);
    let a = state.generate(11, false).unwrap();
    let b = state.generate(12, false).unwrap();
    assert!(a < b);
}
