use ulid_core::{
    ulid_from_str, ulid_is_valid, ulid_random, ulid_timestamp, ulid_with_timestamp, Ulid,
    UlidError, RANDOM_MAX,
};

#[test]
fn timestamp_of_canonical_example() {
    assert_eq!(ulid_timestamp("01ARZ3NDEKTSV4RRFFQ69G5FAV"), Ok(1469922850259));
    assert_eq!(ulid_timestamp("01ARYZ6S410000000000000000"), Ok(1469918176385));
}

#[test]
fn random_of_canonical_example() {
    assert_eq!(ulid_random("01ARZ3NDEKTSV4RRFFQ69G5FAV"), Ok(1012768647078601740696923));
}

#[test]
fn accessors_reject_wrong_length_and_characters() {
    assert_eq!(ulid_timestamp("01ARZ3NDEK"), Err(UlidError::LengthMismatch));
    assert_eq!(ulid_random(""), Err(UlidError::LengthMismatch));
    assert_eq!(
        ulid_timestamp("01ARZ3NDEKTSV4RRFFQ69G5FAU"),
        Err(UlidError::InvalidCharacter('U'))
    );
}

#[test]
fn from_parts_and_accessors() {
    let u = Ulid::from_parts(1469918176385, 42);
    assert_eq!(u.timestamp_ms(), 1469918176385);
    assert_eq!(u.random(), 42);
    assert_eq!(u.to_string(), "01ARYZ6S41000000000000001A");
    assert_eq!(u.value(), (1469918176385u128 << 80) | 42);
}

#[test]
fn from_parts_truncates_oversized_fields() {
    let u = Ulid::from_parts(u64::MAX, u128::MAX);
    assert_eq!(u.timestamp_ms(), (1u64 << 48) - 1);
    assert_eq!(u.random(), RANDOM_MAX);
    assert_eq!(u.value(), u128::MAX);
}

#[test]
fn parse_reads_text() {
    let u = Ulid::parse("01aryz6s41000000000000001a").unwrap();
    assert_eq!(u.timestamp_ms(), 1469918176385);
    assert_eq!(u.random(), 42);
    assert_eq!(Ulid::parse("01"), Err(UlidError::LengthMismatch));
}

#[test]
fn later_timestamp_sorts_later() {
    let a = Ulid::from_parts(1000, RANDOM_MAX).to_string();
    let b = Ulid::from_parts(1001, 0).to_string();
    assert!(a < b);
    let c = Ulid::from_parts((1 << 48) - 2, u128::MAX).to_string();
    let d = Ulid::from_parts((1 << 48) - 1, 0).to_string();
    assert!(c < d);
}

#[test]
fn validity_checks_length_and_alphabet() {
    assert!(ulid_is_valid("01ARZ3NDEKTSV4RRFFQ69G5FAV"));
    assert!(ulid_is_valid("01arz3ndektsv4rrffq69g5fav"));
    assert!(!ulid_is_valid("01ARZ3NDEKTSV4RRFFQ69G5FA"));
    assert!(!ulid_is_valid("01ARZ3NDEKTSV4RRFFQ69G5FAVV"));
    assert!(!ulid_is_valid(""));
    for bad in ['I', 'L', 'O', 'U', 'i', 'l', 'o', 'u'] {
        let mut s = String::from("01ARZ3NDEKTSV4RRFFQ69G5FA");
        s.push(bad);
        assert!(!ulid_is_valid(&s));
    }
    // 26 bytes, but one character takes two of them.
    assert!(!ulid_is_valid("01ARZ3NDEKTSV4RRFFQ69G5Fé"));
}

#[test]
fn from_str_normalises_case() {
    assert_eq!(
        ulid_from_str("01arz3ndektsv4rrffq69g5fav"),
        Ok(String::from("01ARZ3NDEKTSV4RRFFQ69G5FAV"))
    );
    assert_eq!(ulid_from_str("01ARZ"), Err(UlidError::LengthMismatch));
    assert_eq!(
        ulid_from_str("01ARZ3NDEKTSV4RRFFQ69G5FAO"),
        Err(UlidError::FormatError)
    );
}

#[test]
fn with_timestamp_keeps_the_timestamp() {
    let s = ulid_with_timestamp(1469918176385);
    assert_eq!(s.len(), 26);
    assert!(s.starts_with("01ARYZ6S41"));
    assert_eq!(ulid_timestamp(&s), Ok(1469918176385));
}
