use ulid_core::{ulid_from_str, ulid_to_uuid, uuid_to_ulid, UlidError};

#[test]
fn ulid_to_uuid_of_canonical_example() {
    assert_eq!(
        ulid_to_uuid("01ARZ3NDEKTSV4RRFFQ69G5FAV"),
        Ok(String::from("01563e3a-b5d3-d676-4c61-efb99302bd5b"))
    );
}

#[test]
fn uuid_to_ulid_with_and_without_hyphens() {
    let expected = Ok(String::from("01ARZ3NDEKTSV4RRFFQ69G5FAV"));
    assert_eq!(uuid_to_ulid("01563e3a-b5d3-d676-4c61-efb99302bd5b"), expected);
    assert_eq!(uuid_to_ulid("01563e3ab5d3d6764c61efb99302bd5b"), expected);
    assert_eq!(uuid_to_ulid("01563E3A-B5D3-D676-4C61-EFB99302BD5B"), expected);
    assert_eq!(
        uuid_to_ulid("0123456789abcdef0123456789abcdef"),
        Ok(String::from("014D2PF2DBSQQG28T5CY4TQKFF"))
    );
}

#[test]
fn uuid_round_trip_normalises_case() {
    for x in ["01arz3ndektsv4rrffq69g5fav", "00000000000000000000000000", "7ZZZZZZZZZZZZZZZZZZZZZZZZZ"] {
        let uuid = ulid_to_uuid(x).unwrap();
        assert_eq!(uuid_to_ulid(&uuid), ulid_from_str(x));
    }
}

#[test]
fn uuid_errors() {
    assert_eq!(uuid_to_ulid("abc"), Err(UlidError::FormatError));
    assert_eq!(uuid_to_ulid(""), Err(UlidError::FormatError));
    assert_eq!(
        uuid_to_ulid("01563e3a-b5d3-d676-4c61-efb99302bd5g"),
        Err(UlidError::InvalidHex)
    );
    assert_eq!(
        uuid_to_ulid("+1563e3ab5d3d6764c61efb99302bd5b"),
        Err(UlidError::InvalidHex)
    );
    assert_eq!(ulid_to_uuid("01ARZ"), Err(UlidError::LengthMismatch));
    assert_eq!(
        ulid_to_uuid("01ARZ3NDEKTSV4RRFFQ69G5FAL"),
        Err(UlidError::InvalidCharacter('L'))
    );
}
