//! The ULID value: a 48-bit millisecond timestamp over an 80-bit random
//! payload, in one 128-bit integer.
use vstd::arithmetic::div_mod::{lemma_fundamental_div_mod_converse, lemma_small_mod};
use vstd::prelude::*;
use vstd::string::StringSliceAdditionalSpecFns;

use crate::codec::{
    all_symbols, base32_value, decode_base32, decodes_as, digit_from_byte, digit_of, encode_base32,
    encoded, lemma_digit_symbol, lemma_encoding_order, lex_less, to_upper, u128_modulus,
};
use crate::entropy::random_u128;
use crate::text::{ascii_text, is_ascii_bytes, string_from_ascii};
use crate::UlidError;

verus! {

/// 2^80: the number of random payloads.
pub open spec fn random_modulus() -> nat {
    0x1_0000_0000_0000_0000_0000nat
}

/// 2^48: the number of timestamps.
pub open spec fn timestamp_modulus() -> nat {
    0x1_0000_0000_0000nat
}

/// The largest random payload, 2^80 - 1.
pub const RANDOM_MAX: u128 = 0xFFFF_FFFF_FFFF_FFFF_FFFF;

/// The largest timestamp, 2^48 - 1.
pub const TIMESTAMP_MAX: u128 = 0xFFFF_FFFF_FFFF;

/// The value made of a timestamp and a random payload, each cut to its width.
pub open spec fn compose(timestamp_ms: nat, random: nat) -> nat {
    (timestamp_ms % timestamp_modulus()) * random_modulus() + random % random_modulus()
}

/// The timestamp field of a 128-bit value: its high 48 bits.
pub open spec fn timestamp_of(v: nat) -> nat {
    v / random_modulus()
}

/// The random field of a 128-bit value: its low 80 bits.
pub open spec fn random_of(v: nat) -> nat {
    v % random_modulus()
}

/// A text is a well-formed ULID: 26 bytes, each a symbol of the alphabet.
pub open spec fn is_ulid_text(s: Seq<u8>) -> bool {
    s.len() == 26 && all_symbols(s)
}

/// A 128-bit identifier. Every 128-bit value is one: its high 48 bits are
/// the timestamp and its low 80 bits the random payload. Equality and order
/// are those of the integer.
#[derive(Debug, Clone, Copy, PartialEq, Eq, Structural)]
pub struct Ulid(u128);

impl View for Ulid {
    type V = nat;

    closed spec fn view(&self) -> nat {
        self.0 as nat
    }
}

impl Ulid {
    /// The identifier of a timestamp and a random payload; bits beyond 48 and
    /// 80 are dropped.
    pub fn from_parts(timestamp_ms: u64, random: u128) -> (r: Ulid)
        ensures
            r@ == compose(timestamp_ms as nat, random as nat),
    {
        let t = timestamp_ms as u128;
        let time_part = t & TIMESTAMP_MAX;
        let rand_part = random & RANDOM_MAX;
        assert(t & 0xFFFF_FFFF_FFFF == t % 0x1_0000_0000_0000) by (bit_vector);
        assert(random & 0xFFFF_FFFF_FFFF_FFFF_FFFF == random % 0x1_0000_0000_0000_0000_0000)
            by (bit_vector);
        assert((time_part << 80) | rand_part == time_part * 0x1_0000_0000_0000_0000_0000
            + rand_part) by (bit_vector)
            requires
                time_part < 0x1_0000_0000_0000,
                rand_part < 0x1_0000_0000_0000_0000_0000,
        ;
        Ulid((time_part << 80) | rand_part)
    }

    /// The identifier whose 128 bits are `value`.
    pub fn from_value(value: u128) -> (r: Ulid)
        ensures
            r@ == value as nat,
    {
        Ulid(value)
    }

    /// The 128 bits of the identifier.
    pub fn value(&self) -> (r: u128)
        ensures
            r as nat == self@,
    {
        self.0
    }

    /// The millisecond timestamp: the high 48 bits.
    pub fn timestamp_ms(&self) -> (r: u64)
        ensures
            r as nat == timestamp_of(self@),
    {
        let v = self.0;
        assert(v >> 80 == v / 0x1_0000_0000_0000_0000_0000) by (bit_vector);
        assert(v / 0x1_0000_0000_0000_0000_0000 < 0x1_0000_0000_0000);
        (v >> 80) as u64
    }

    /// The random payload: the low 80 bits.
    pub fn random(&self) -> (r: u128)
        ensures
            r as nat == random_of(self@),
    {
        let v = self.0;
        assert(v & 0xFFFF_FFFF_FFFF_FFFF_FFFF == v % 0x1_0000_0000_0000_0000_0000) by (bit_vector);
        v & RANDOM_MAX
    }

    /// The 26-symbol text of the identifier.
    pub fn to_string(&self) -> (r: String)
        ensures
            r@ == ascii_text(encoded(self@)),
    {
        encode_base32(self.0)
    }

    /// Reads an identifier from its text: exactly 26 bytes, each a symbol of
    /// the alphabet in either case.
    pub fn parse(text: &str) -> (r: Result<Ulid, UlidError>)
        ensures
            text.spec_bytes().len() != 26 ==> r == Err::<Ulid, UlidError>(
                UlidError::LengthMismatch,
            ),
            text.spec_bytes().len() == 26 ==> match r {
                Ok(u) => decodes_as(text.spec_bytes(), Ok(u@ as u128)),
                Err(e) => decodes_as(text.spec_bytes(), Err(e)),
            },
    {
        if text.as_bytes().len() != 26 {
            return Err(UlidError::LengthMismatch);
        }
        match decode_base32(text) {
            Ok(v) => Ok(Ulid(v)),
            Err(e) => Err(e),
        }
    }
}


/// Byte-wise ASCII upper case.
pub open spec fn upper_bytes(s: Seq<u8>) -> Seq<u8> {
    s.map_values(|b: u8| to_upper(b))
}

/// The millisecond timestamp of a ULID's text.
pub fn ulid_timestamp(ulid_str: &str) -> (r: Result<u64, UlidError>)
    ensures
        ({
            let s = ulid_str.spec_bytes();
            match r {
                Ok(t) => is_ulid_text(s) && t as nat == timestamp_of(
                    base32_value(s) % u128_modulus(),
                ),
                Err(e) => (s.len() != 26 && e == UlidError::LengthMismatch) || (s.len() == 26
                    && decodes_as(s, Err(e))),
            }
        }),
{
    match Ulid::parse(ulid_str) {
        Ok(u) => Ok(u.timestamp_ms()),
        Err(e) => Err(e),
    }
}

/// The random payload of a ULID's text.
pub fn ulid_random(ulid_str: &str) -> (r: Result<u128, UlidError>)
    ensures
        ({
            let s = ulid_str.spec_bytes();
            match r {
                Ok(x) => is_ulid_text(s) && x as nat == random_of(base32_value(s) % u128_modulus()),
                Err(e) => (s.len() != 26 && e == UlidError::LengthMismatch) || (s.len() == 26
                    && decodes_as(s, Err(e))),
            }
        }),
{
    match Ulid::parse(ulid_str) {
        Ok(u) => Ok(u.random()),
        Err(e) => Err(e),
    }
}

/// Whether a text is a well-formed ULID: 26 bytes, each a symbol of the
/// alphabet in either case. Nothing is decoded.
pub fn ulid_is_valid(ulid_str: &str) -> (r: bool)
    ensures
        r == is_ulid_text(ulid_str.spec_bytes()),
{
    let bytes = ulid_str.as_bytes();
    if bytes.len() != 26 {
        return false;
    }
    let mut i: usize = 0;
    while i < 26
        invariant
            i <= 26,
            bytes@.len() == 26,
            bytes@ == ulid_str.spec_bytes(),
            forall|j: int| 0 <= j < i ==> (#[trigger] digit_of(bytes@[j])) is Some,
        decreases 26 - i,
    {
        if digit_from_byte(bytes[i]).is_none() {
            return false;
        }
        i += 1;
    }
    true
}

/// The upper-case form of a well-formed ULID's text.
pub fn ulid_from_str(ulid_str: &str) -> (r: Result<String, UlidError>)
    ensures
        ({
            let s = ulid_str.spec_bytes();
            &&& s.len() != 26 ==> r == Err::<String, UlidError>(UlidError::LengthMismatch)
            &&& s.len() == 26 && !all_symbols(s) ==> r == Err::<String, UlidError>(
                UlidError::FormatError,
            )
            &&& is_ulid_text(s) ==> r is Ok && r->Ok_0@ == ascii_text(upper_bytes(s))
        }),
{
    let bytes = ulid_str.as_bytes();
    if bytes.len() != 26 {
        return Err(UlidError::LengthMismatch);
    }
    if !ulid_is_valid(ulid_str) {
        return Err(UlidError::FormatError);
    }
    let mut out: Vec<u8> = Vec::new();
    let mut i: usize = 0;
    while i < 26
        invariant
            i <= 26,
            bytes@.len() == 26,
            all_symbols(bytes@),
            out@ == upper_bytes(bytes@.subrange(0, i as int)),
            is_ascii_bytes(out@),
        decreases 26 - i,
    {
        let b = bytes[i];
        proof {
            assert(digit_of(bytes@[i as int]) is Some);
            lemma_digit_symbol(b);
        }
        let u = if 97 <= b && b <= 122 { b - 32 } else { b };
        out.push(u);
        i += 1;
        assert(out@ =~= upper_bytes(bytes@.subrange(0, i as int)));
    }
    assert(bytes@.subrange(0, 26) =~= bytes@);
    Ok(string_from_ascii(out))
}

/// A ULID's text for an explicit timestamp and a freshly drawn random
/// payload, apart from the shared generator and its ordering.
pub fn ulid_with_timestamp(timestamp_ms: u64) -> (r: String)
    ensures
        exists|x: nat|
            x < random_modulus() && r@ == ascii_text(
                encoded(compose(timestamp_ms as nat, x)),
            ),
{
    let ulid = Ulid::from_parts(timestamp_ms, random_u128());
    let r = ulid.to_string();
    let ghost x = ulid@ % random_modulus();
    assert(compose(timestamp_ms as nat, x) == ulid@);
    r
}

/// An identifier's value is below 2^128.
pub proof fn lemma_compose_bound(timestamp_ms: nat, random: nat)
    ensures
        compose(timestamp_ms, random) < u128_modulus(),
        timestamp_of(compose(timestamp_ms, random)) == timestamp_ms % timestamp_modulus(),
        random_of(compose(timestamp_ms, random)) == random % random_modulus(),
{
    let t = timestamp_ms % timestamp_modulus();
    let x = random % random_modulus();
    assert(t * random_modulus() + x < u128_modulus()) by (nonlinear_arith)
        requires
            t < timestamp_modulus(),
            x < random_modulus(),
    ;
    lemma_fundamental_div_mod_converse(
        compose(timestamp_ms, random) as int,
        random_modulus() as int,
        t as int,
        x as int,
    );
}

/// Sort order follows time: for timestamps `t1 < t2` (within 48 bits), the
/// text of any identifier of `t1` sorts before that of any identifier of
/// `t2`, whatever their random payloads.
pub proof fn lemma_time_order(t1: u64, r1: u128, t2: u64, r2: u128)
    requires
        t1 < t2 < timestamp_modulus(),
    ensures
        lex_less(encoded(compose(t1 as nat, r1 as nat)), encoded(compose(t2 as nat, r2 as nat))),
{
    let v1 = compose(t1 as nat, r1 as nat);
    let v2 = compose(t2 as nat, r2 as nat);
    lemma_compose_bound(t1 as nat, r1 as nat);
    lemma_compose_bound(t2 as nat, r2 as nat);
    lemma_small_mod(t1 as nat, timestamp_modulus());
    lemma_small_mod(t2 as nat, timestamp_modulus());
    let x1 = r1 as nat % random_modulus();
    assert(v1 < v2) by (nonlinear_arith)
        requires
            v1 == t1 * random_modulus() + x1,
            x1 < random_modulus(),
            v2 >= t2 * random_modulus(),
            t1 < t2,
    ;
    lemma_encoding_order(v1, v2);
}

/// A text of any length but 26 is no ULID, nor is one that holds `I`, `L`,
/// `O` or `U` in either case.
pub proof fn lemma_validity_rejects(s: Seq<u8>, i: int)
    ensures
        s.len() != 26 ==> !is_ulid_text(s),
        0 <= i < s.len() && (s[i] == 73 || s[i] == 76 || s[i] == 79 || s[i] == 85 || s[i] == 105
            || s[i] == 108 || s[i] == 111 || s[i] == 117) ==> !is_ulid_text(s),
{
    if 0 <= i < s.len() {
        assert(digit_of(s[i]) is Some ==> !(s[i] == 73 || s[i] == 76 || s[i] == 79 || s[i] == 85
            || s[i] == 105 || s[i] == 108 || s[i] == 111 || s[i] == 117));
    }
}

} // verus!
