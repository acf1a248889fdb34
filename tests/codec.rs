use ulid_core::{decode_base32, encode_base32, UlidError};

#[test]
fn encode_zero_is_fixed_width() {
    let s = encode_base32(0);
    assert_eq!(s.len(), 26);
    assert_eq!(s, "00000000000000000000000000");
}

#[test]
fn encode_small_values_are_zero_padded() {
    assert_eq!(encode_base32(1), "00000000000000000000000001");
    assert_eq!(encode_base32(32), "00000000000000000000000010");
    assert_eq!(encode_base32(1234567890123456789), "0000000000000128GGYHYYK08N");
}

#[test]
fn encode_largest_value_uses_all_26_symbols() {
    assert_eq!(encode_base32(u128::MAX), "7ZZZZZZZZZZZZZZZZZZZZZZZZZ");
}

#[test]
fn round_trip_over_a_sample() {
    let mut v: u128 = 1;
    let mut samples: Vec<u128> = vec![0, 1, 31, 32, u128::MAX, u128::MAX - 1, 1 << 125, (1 << 125) - 1];
    for _ in 0..200 {
        v = v.wrapping_mul(6364136223846793005).wrapping_add(1442695040888963407);
        samples.push(v ^ (v << 64));
    }
    for s in samples {
        assert_eq!(decode_base32(&encode_base32(s)), Ok(s));
    }
}

#[test]
fn decode_is_case_insensitive() {
    let s = "01ARZ3NDEKTSV4RRFFQ69G5FAV";
    assert_eq!(decode_base32(s), decode_base32(&s.to_lowercase()));
    assert_eq!(decode_base32("zz"), Ok(1023));
    assert_eq!(decode_base32("ZZ"), Ok(1023));
}

#[test]
fn decode_empty_is_zero() {
    assert_eq!(decode_base32(""), Ok(0));
}

#[test]
fn decode_reports_first_invalid_character() {
    assert_eq!(decode_base32("01I"), Err(UlidError::InvalidCharacter('I')));
    assert_eq!(decode_base32("0uL"), Err(UlidError::InvalidCharacter('u')));
    assert_eq!(decode_base32("ab-c"), Err(UlidError::InvalidCharacter('-')));
}

#[test]
fn decode_wraps_past_128_bits() {
    // 27 symbols: the top bits fall off the 128-bit accumulator.
    assert_eq!(decode_base32("100000000000000000000000000"), Ok(0));
}
