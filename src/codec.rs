//! Crockford Base32: 128-bit integers to and from fixed-width text.
use vstd::prelude::*;
use vstd::arithmetic::div_mod::{
    lemma_breakdown, lemma_div_denominator, lemma_fundamental_div_mod, lemma_mod_multiples_vanish,
    lemma_small_mod,
};
use vstd::arithmetic::power::{lemma_pow_positive, pow};

use vstd::string::StringSliceAdditionalSpecFns;
use vstd::utf8::encode_utf8;

use crate::text::{ascii_text, lemma_ascii_text_bytes, string_from_ascii};
use crate::UlidError;

verus! {

/// The symbol of a 5-bit digit in the alphabet `0123456789ABCDEFGHJKMNPQRSTVWXYZ`.
pub open spec fn symbol(d: int) -> u8 {
    if d < 10 {
        (48 + d) as u8  // '0'..='9'
    } else if d < 18 {
        (65 + d - 10) as u8  // 'A'..='H'
    } else if d < 20 {
        (74 + d - 18) as u8  // 'J', 'K'
    } else if d < 22 {
        (77 + d - 20) as u8  // 'M', 'N'
    } else if d < 27 {
        (80 + d - 22) as u8  // 'P'..='T'
    } else {
        (86 + d - 27) as u8  // 'V'..='Z'
    }
}

/// ASCII upper case of a byte; other bytes are left as they are.
pub open spec fn to_upper(b: u8) -> u8 {
    if 97 <= b <= 122 {
        (b - 32) as u8
    } else {
        b
    }
}

/// ASCII lower case of a byte; other bytes are left as they are.
pub open spec fn to_lower(b: u8) -> u8 {
    if 65 <= b <= 90 {
        (b + 32) as u8
    } else {
        b
    }
}

/// The digit that a byte stands for, in either case, or `None` for a byte
/// outside the alphabet.
pub open spec fn digit_of(b: u8) -> Option<u8> {
    let c = to_upper(b);
    if 48 <= c <= 57 {
        Some((c - 48) as u8)
    } else if 65 <= c <= 72 {
        Some((c - 65 + 10) as u8)
    } else if c == 74 || c == 75 {
        Some((c - 74 + 18) as u8)
    } else if c == 77 || c == 78 {
        Some((c - 77 + 20) as u8)
    } else if 80 <= c <= 84 {
        Some((c - 80 + 22) as u8)
    } else if 86 <= c <= 90 {
        Some((c - 86 + 27) as u8)
    } else {
        None
    }
}

/// Each symbol reads back as its digit.
pub proof fn lemma_symbol_digit(d: int)
    requires
        0 <= d < 32,
    ensures
        digit_of(symbol(d)) == Some(d as u8),
        symbol(d) < 128,
        to_upper(symbol(d)) == symbol(d),
{
}

/// A byte that reads as a digit is, in upper case, that digit's symbol.
pub proof fn lemma_digit_symbol(b: u8)
    requires
        digit_of(b) is Some,
    ensures
        digit_of(b).unwrap() < 32,
        symbol(digit_of(b).unwrap() as int) == to_upper(b),
        b < 128,
{
}

/// The alphabet is in ascending byte order.
pub proof fn lemma_symbol_ascending(d1: int, d2: int)
    requires
        0 <= d1 < d2 < 32,
    ensures
        symbol(d1) < symbol(d2),
{
}

/// The symbol of a digit below 32.
fn symbol_of(d: u8) -> (r: u8)
    requires
        d < 32,
    ensures
        r == symbol(d as int),
{
    if d < 10 {
        48 + d
    } else if d < 18 {
        65 + d - 10
    } else if d < 20 {
        74 + d - 18
    } else if d < 22 {
        77 + d - 20
    } else if d < 27 {
        80 + d - 22
    } else {
        86 + d - 27
    }
}

/// The digit of a byte, in either case, by a constant number of comparisons.
pub(crate) fn digit_from_byte(b: u8) -> (r: Option<u8>)
    ensures
        r == digit_of(b),
{
    let c = if 97 <= b && b <= 122 { b - 32 } else { b };
    if 48 <= c && c <= 57 {
        Some(c - 48)
    } else if 65 <= c && c <= 72 {
        Some(c - 65 + 10)
    } else if c == 74 || c == 75 {
        Some(c - 74 + 18)
    } else if c == 77 || c == 78 {
        Some(c - 77 + 20)
    } else if 80 <= c && c <= 84 {
        Some(c - 80 + 22)
    } else if 86 <= c && c <= 90 {
        Some(c - 86 + 27)
    } else {
        None
    }
}


/// 2^128: one more than the largest `u128`.
pub open spec fn u128_modulus() -> nat {
    0x1_0000_0000_0000_0000_0000_0000_0000_0000nat
}

/// The `n` lowest base-32 digits of `v` as symbols, most significant first.
pub open spec fn base32_digits(v: nat, n: nat) -> Seq<u8>
    decreases n,
{
    if n == 0 {
        Seq::empty()
    } else {
        base32_digits(v / 32, (n - 1) as nat).push(symbol((v % 32) as int))
    }
}

/// The text of a 128-bit value: 26 symbols, zero-padded on the left.
pub open spec fn encoded(v: nat) -> Seq<u8> {
    base32_digits(v, 26)
}

/// Every byte is a symbol of the alphabet, in either case.
pub open spec fn all_symbols(s: Seq<u8>) -> bool {
    forall|i: int| 0 <= i < s.len() ==> (#[trigger] digit_of(s[i])) is Some
}

/// The number that a string of symbols stands for, most significant first.
pub open spec fn base32_value(s: Seq<u8>) -> nat
    decreases s.len(),
{
    if s.len() == 0 {
        0
    } else {
        let d: nat = match digit_of(s.last()) {
            Some(d) => d as nat,
            None => 0,
        };
        base32_value(s.drop_last()) * 32 + d
    }
}

/// `i` is the position of the first byte outside the alphabet.
pub open spec fn is_first_invalid(s: Seq<u8>, i: int) -> bool {
    &&& 0 <= i < s.len()
    &&& digit_of(s[i]) is None
    &&& all_symbols(s.subrange(0, i))
}

/// What decoding `s` gives: its value modulo 2^128 when every byte is a
/// symbol, else the first byte that is not, as a character.
pub open spec fn decodes_as(s: Seq<u8>, r: Result<u128, UlidError>) -> bool {
    match r {
        Ok(v) => all_symbols(s) && v as nat == base32_value(s) % u128_modulus(),
        Err(e) => exists|i: int|
            is_first_invalid(s, i) && e == UlidError::InvalidCharacter(s[i] as char),
    }
}

/// The digits of `v` split into the high `n` and the low `m`.
pub proof fn lemma_digits_split(v: nat, n: nat, m: nat)
    ensures
        base32_digits(v, n + m) == base32_digits(v / (pow(32, m) as nat), n) + base32_digits(v, m),
    decreases m,
{
    reveal(pow);
    if m == 0 {
        assert(pow(32, 0) == 1);
        assert(v / 1 == v);
        assert(base32_digits(v, n) =~= base32_digits(v, n) + Seq::<u8>::empty());
    } else {
        let m1 = (m - 1) as nat;
        lemma_digits_split(v / 32, n, m1);
        lemma_pow_positive(32, m1);
        lemma_div_denominator(v as int, 32, pow(32, m1));
        assert(pow(32, m) == 32 * pow(32, m1));
        assert(v / 32 / (pow(32, m1) as nat) == v / (pow(32, m) as nat));
        assert(base32_digits(v, n + m) == base32_digits(v / 32, (n + m1) as nat).push(
            symbol((v % 32) as int),
        ));
        assert(base32_digits(v, n + m) =~= base32_digits(v / (pow(32, m) as nat), n)
            + base32_digits(v, m));
    }
}

/// Below `32^n`, the `n` digits read back as the value; in any case they are
/// all symbols of the alphabet, in upper case.
pub proof fn lemma_digits_value(v: nat, n: nat)
    ensures
        base32_digits(v, n).len() == n,
        all_symbols(base32_digits(v, n)),
        base32_value(base32_digits(v, n)) == v % (pow(32, n) as nat),
        forall|i: int|
            0 <= i < n ==> {
                let b = #[trigger] base32_digits(v, n)[i];
                to_upper(b) == b && b < 128
            },
    decreases n,
{
    reveal(pow);
    let s = base32_digits(v, n);
    if n == 0 {
        assert(v % 1 == 0);
    } else {
        let n1 = (n - 1) as nat;
        lemma_digits_value(v / 32, n1);
        lemma_symbol_digit((v % 32) as int);
        assert(s.drop_last() =~= base32_digits(v / 32, n1));
        lemma_pow_positive(32, n1);
        assert(pow(32, n) == 32 * pow(32, n1));
        // v % 32^n == (v / 32 % 32^(n-1)) * 32 + v % 32
        lemma_breakdown(v as int, 32, pow(32, n1));
        assert(base32_value(s) == base32_value(s.drop_last()) * 32 + (v % 32));
    }
}


/// The `n` lowest base-32 digits of `v` as symbols, written from the least
/// significant position backward.
pub(crate) fn digits_of(v: u128, n: usize) -> (r: Vec<u8>)
    requires
        n <= 26,
    ensures
        r@ == base32_digits(v as nat, n as nat),
{
    let mut buf: Vec<u8> = Vec::new();
    let mut k: usize = 0;
    while k < n
        invariant
            k <= n,
            buf@.len() == k,
        decreases n - k,
    {
        buf.push(48u8);
        k += 1;
    }
    let mut number: u128 = v;
    let mut pos: usize = n;
    proof {
        reveal(pow);
        assert(v / 1 == v);
        assert(buf@.subrange(n as int, n as int) =~= base32_digits(v as nat, 0));
    }
    while pos > 0
        invariant
            pos <= n <= 26,
            buf@.len() == n,
            number as nat == v as nat / (pow(32, (n - pos) as nat) as nat),
            buf@.subrange(pos as int, n as int) == base32_digits(v as nat, (n - pos) as nat),
        decreases pos,
    {
        let ghost k = (n - pos) as nat;
        let d = (number & 0x1f) as u8;
        assert(number & 0x1f == number % 32) by (bit_vector);
        let old_buf = Ghost(buf@);
        buf.set(pos - 1, symbol_of(d));
        assert(number >> 5 == number / 32) by (bit_vector);
        number = number >> 5;
        pos -= 1;
        proof {
            reveal(pow);
            lemma_digits_split(v as nat, 1, k);
            let x = v as nat / (pow(32, k) as nat);
            assert(base32_digits(x, 1) =~= seq![symbol((x % 32) as int)]) by {
                assert(base32_digits(x / 32, 0) =~= Seq::<u8>::empty());
            }
            lemma_pow_positive(32, k);
            lemma_div_denominator(v as int, pow(32, k), 32);
            assert(pow(32, k + 1) == 32 * pow(32, k));
            assert(pow(32, k) * 32 == 32 * pow(32, k));
            assert(buf@.subrange(pos as int, n as int) =~= seq![symbol((x % 32) as int)]
                + old_buf@.subrange(pos + 1, n as int));
        }
    }
    assert(buf@ =~= buf@.subrange(0, n as int));
    buf
}

/// The fixed-width, zero-padded, upper-case Base32 text of `number`: always
/// 26 symbols, so that text order follows numeric order.
pub fn encode_base32(number: u128) -> (r: String)
    ensures
        r@ == ascii_text(encoded(number as nat)),
        r@.len() == 26,
{
    let digits = digits_of(number, 26);
    proof {
        lemma_digits_value(number as nat, 26);
    }
    string_from_ascii(digits)
}

/// One more step of reading symbols: the 128-bit accumulator after a digit.
proof fn lemma_accumulate(s: Seq<u8>, acc: u128, d: u8)
    requires
        s.len() > 0,
        digit_of(s.last()) == Some(d),
        d < 32,
        acc as nat == base32_value(s.drop_last()) % u128_modulus(),
    ensures
        (((acc << 5) | (d as u128)) as nat) == base32_value(s) % u128_modulus(),
{
    let m = u128_modulus() as int;
    let a = base32_value(s.drop_last()) as int;
    assert(((acc << 5) | (d as u128)) as int == (acc as int * 32 + d as int)
        % 0x1_0000_0000_0000_0000_0000_0000_0000_0000int) by (bit_vector)
        requires
            d < 32,
    ;
    lemma_fundamental_div_mod(a, m);
    assert(a * 32 + d == m * ((a / m) * 32) + ((a % m) * 32 + d)) by (nonlinear_arith)
        requires
            a == m * (a / m) + a % m,
    ;
    lemma_mod_multiples_vanish((a / m) * 32, (a % m) * 32 + d, m);
}

/// The number written by `encoded`, read byte by byte in either case. A byte
/// outside the alphabet stops the reading and is reported. There is no limit
/// on the length: past 26 symbols the value wraps modulo 2^128.
pub fn decode_base32(encoded: &str) -> (r: Result<u128, UlidError>)
    ensures
        decodes_as(encoded.spec_bytes(), r),
        r is Ok <==> all_symbols(encoded.spec_bytes()),
{
    let bytes = encoded.as_bytes();
    let mut result: u128 = 0;
    let mut i: usize = 0;
    assert(bytes@.subrange(0, 0) =~= Seq::<u8>::empty());
    while i < bytes.len()
        invariant
            i <= bytes@.len(),
            bytes@ == encoded.spec_bytes(),
            all_symbols(bytes@.subrange(0, i as int)),
            result as nat == base32_value(bytes@.subrange(0, i as int)) % u128_modulus(),
        decreases bytes@.len() - i,
    {
        let b = bytes[i];
        match digit_from_byte(b) {
            None => {
                assert(is_first_invalid(bytes@, i as int));
                return Err(UlidError::InvalidCharacter(b as char));
            },
            Some(d) => {
                proof {
                    lemma_digit_symbol(b);
                    let s = bytes@.subrange(0, i + 1);
                    assert(s.drop_last() =~= bytes@.subrange(0, i as int));
                    lemma_accumulate(s, result, d);
                    assert forall|j: int| 0 <= j < s.len() implies (#[trigger] digit_of(
                        s[j],
                    )) is Some by {
                        if j < i {
                            assert(s[j] == bytes@.subrange(0, i as int)[j]);
                        }
                    }
                }
                result = (result << 5) | (d as u128);
            },
        }
        i += 1;
    }
    assert(bytes@.subrange(0, i as int) =~= bytes@);
    Ok(result)
}


/// Byte-wise ASCII lower case.
pub open spec fn lower_bytes(s: Seq<u8>) -> Seq<u8> {
    s.map_values(|b: u8| to_lower(b))
}

/// `a` comes before `b` in byte order: at the first position where they
/// differ, `a` holds the smaller byte.
pub open spec fn lex_less(a: Seq<u8>, b: Seq<u8>) -> bool {
    exists|i: int|
        0 <= i < a.len() && i < b.len() && a.subrange(0, i) == b.subrange(0, i) && a[i] < b[i]
}

/// 32^26 is beyond every `u128`.
pub proof fn lemma_width_covers_u128()
    ensures
        pow(32, 26) > u128::MAX,
{
    reveal_with_fuel(pow, 27);
    assert(pow(32, 26) == 0x4_0000_0000_0000_0000_0000_0000_0000_0000int);
}

/// Decoding the text of any 128-bit value gives the value back: the text is
/// 26 upper-case symbols whose value is exactly the number encoded.
pub proof fn lemma_round_trip(v: u128)
    ensures
        ({
            let b = encode_utf8(ascii_text(encoded(v as nat)));
            &&& b == encoded(v as nat)
            &&& b.len() == 26
            &&& all_symbols(b)
            &&& base32_value(b) % u128_modulus() == v
        }),
{
    let e = encoded(v as nat);
    lemma_digits_value(v as nat, 26);
    assert forall|i: int| 0 <= i < e.len() implies e[i] < 128 by {
        assert(e[i] == base32_digits(v as nat, 26)[i]);
    }
    lemma_ascii_text_bytes(e);
    lemma_width_covers_u128();
    lemma_small_mod(v as nat, pow(32, 26) as nat);
}

/// Case does not matter to decoding: lower-casing the text keeps the same
/// bytes in the alphabet and the same value.
pub proof fn lemma_decode_ignores_case(s: Seq<u8>)
    ensures
        all_symbols(lower_bytes(s)) == all_symbols(s),
        base32_value(lower_bytes(s)) == base32_value(s),
        lower_bytes(s).len() == s.len(),
    decreases s.len(),
{
    let l = lower_bytes(s);
    assert forall|i: int| 0 <= i < s.len() implies #[trigger] digit_of(l[i]) == digit_of(s[i]) by {
        assert(to_upper(to_lower(s[i])) == to_upper(s[i]));
    }
    if all_symbols(s) {
        assert forall|i: int| 0 <= i < l.len() implies (#[trigger] digit_of(l[i])) is Some by {
            assert(digit_of(l[i]) == digit_of(s[i]));
        }
    }
    if all_symbols(l) {
        assert forall|i: int| 0 <= i < s.len() implies (#[trigger] digit_of(s[i])) is Some by {
            assert(digit_of(l[i]) == digit_of(s[i]));
        }
    }
    if s.len() > 0 {
        lemma_decode_ignores_case(s.drop_last());
        assert(lower_bytes(s.drop_last()) =~= l.drop_last());
        assert(digit_of(l.last()) == digit_of(s.last()));
    }
}

/// Below `32^n`, a smaller number has text that sorts first.
pub proof fn lemma_digits_order(v1: nat, v2: nat, n: nat)
    requires
        v1 < v2 < pow(32, n),
    ensures
        lex_less(base32_digits(v1, n), base32_digits(v2, n)),
    decreases n,
{
    reveal(pow);
    if n == 0 {
        assert(pow(32, 0) == 1);
    } else {
        let n1 = (n - 1) as nat;
        let a = base32_digits(v1, n);
        let b = base32_digits(v2, n);
        let q1 = v1 / 32;
        let q2 = v2 / 32;
        lemma_digits_value(q1, n1);
        lemma_digits_value(q2, n1);
        lemma_pow_positive(32, n1);
        assert(pow(32, n) == 32 * pow(32, n1));
        assert(q2 < pow(32, n1));
        if q1 < q2 {
            lemma_digits_order(q1, q2, n1);
            let pa = base32_digits(q1, n1);
            let pb = base32_digits(q2, n1);
            let i = choose|i: int|
                0 <= i < pa.len() && i < pb.len() && pa.subrange(0, i) == pb.subrange(0, i)
                    && pa[i] < pb[i];
            assert(a.subrange(0, i) =~= pa.subrange(0, i));
            assert(b.subrange(0, i) =~= pb.subrange(0, i));
            assert(a[i] == pa[i] && b[i] == pb[i]);
        } else {
            assert(q1 == q2);
            assert(v1 % 32 < v2 % 32);
            lemma_symbol_ascending((v1 % 32) as int, (v2 % 32) as int);
            let i = n1 as int;
            assert(a.subrange(0, i) =~= base32_digits(q1, n1));
            assert(b.subrange(0, i) =~= base32_digits(q2, n1));
            assert(a[i] < b[i]);
        }
    }
}

/// Text order follows numeric order: of two 128-bit values, the smaller one
/// has the text that sorts first.
pub proof fn lemma_encoding_order(v1: nat, v2: nat)
    requires
        v1 < v2 < u128_modulus(),
    ensures
        lex_less(encoded(v1), encoded(v2)),
{
    lemma_width_covers_u128();
    lemma_digits_order(v1, v2, 26);
}

} // verus!
