//! UUID text: the same 128 bits as a ULID, written as hyphenated hexadecimal.
use vstd::arithmetic::power::{lemma_pow_increases, lemma_pow_positive, pow};
use vstd::prelude::*;
use vstd::string::StringSliceAdditionalSpecFns;
use vstd::utf8::encode_utf8;

use crate::codec::{
    all_symbols, base32_digits, base32_value, decodes_as, digit_of, encode_base32, encoded,
    lemma_digit_symbol, to_upper, u128_modulus,
};
use crate::text::{ascii_text, is_ascii_bytes, string_from_ascii};
use crate::ulid::{is_ulid_text, upper_bytes, Ulid};
use crate::UlidError;

verus! {

/// The lower-case hexadecimal digit of a value below 16.
pub open spec fn hex_symbol(d: int) -> u8 {
    if d < 10 {
        (48 + d) as u8
    } else {
        (97 + d - 10) as u8
    }
}

/// The value of a hexadecimal digit in either case, or `None`.
pub open spec fn hex_digit_of(b: u8) -> Option<u8> {
    if 48 <= b <= 57 {
        Some((b - 48) as u8)
    } else if 97 <= b <= 102 {
        Some((b - 97 + 10) as u8)
    } else if 65 <= b <= 70 {
        Some((b - 65 + 10) as u8)
    } else {
        None
    }
}

/// The `n` lowest hexadecimal digits of `v`, most significant first.
pub open spec fn hex_digits(v: nat, n: nat) -> Seq<u8>
    decreases n,
{
    if n == 0 {
        Seq::empty()
    } else {
        hex_digits(v / 16, (n - 1) as nat).push(hex_symbol((v % 16) as int))
    }
}

/// The canonical UUID text of a 128-bit value: 32 lower-case hexadecimal
/// digits grouped 8-4-4-4-12 by hyphens.
pub open spec fn uuid_text(v: nat) -> Seq<u8> {
    let h = hex_digits(v, 32);
    h.subrange(0, 8) + seq![45u8] + h.subrange(8, 12) + seq![45u8] + h.subrange(12, 16) + seq![
        45u8,
    ] + h.subrange(16, 20) + seq![45u8] + h.subrange(20, 32)
}

/// The bytes of `s` other than hyphens, in order.
pub open spec fn strip_hyphens(s: Seq<u8>) -> Seq<u8>
    decreases s.len(),
{
    if s.len() == 0 {
        Seq::empty()
    } else if s.last() == 45 {
        strip_hyphens(s.drop_last())
    } else {
        strip_hyphens(s.drop_last()).push(s.last())
    }
}

/// Every byte is a hexadecimal digit.
pub open spec fn all_hex(s: Seq<u8>) -> bool {
    forall|i: int| 0 <= i < s.len() ==> (#[trigger] hex_digit_of(s[i])) is Some
}

/// The number that a string of hexadecimal digits stands for.
pub open spec fn hex_number(s: Seq<u8>) -> nat
    decreases s.len(),
{
    if s.len() == 0 {
        0
    } else {
        let d: nat = match hex_digit_of(s.last()) {
            Some(d) => d as nat,
            None => 0,
        };
        hex_number(s.drop_last()) * 16 + d
    }
}

/// The `n` lowest hexadecimal digits of `v`, by recursion on `n`.
fn hex_digits_of(v: u128, n: usize) -> (r: Vec<u8>)
    ensures
        r@ == hex_digits(v as nat, n as nat),
    decreases n,
{
    if n == 0 {
        return Vec::new();
    }
    assert(v >> 4 == v / 16) by (bit_vector);
    assert(v & 0xf == v % 16) by (bit_vector);
    let mut r = hex_digits_of(v >> 4, n - 1);
    let d = (v & 0xf) as u8;
    r.push(if d < 10 { 48 + d } else { 97 + d - 10 });
    r
}

/// Appends `src[from..to]` to `out`.
fn append_range(out: &mut Vec<u8>, src: &Vec<u8>, from: usize, to: usize)
    requires
        from <= to <= src@.len(),
    ensures
        final(out)@ == old(out)@ + src@.subrange(from as int, to as int),
{
    let mut i = from;
    while i < to
        invariant
            from <= i <= to <= src@.len(),
            out@ == old(out)@ + src@.subrange(from as int, i as int),
        decreases to - i,
    {
        out.push(src[i]);
        i += 1;
        assert(out@ =~= old(out)@ + src@.subrange(from as int, i as int));
    }
}

/// Hexadecimal digits are ASCII.
proof fn lemma_hex_digits_ascii(v: nat, n: nat)
    ensures
        hex_digits(v, n).len() == n,
        is_ascii_bytes(hex_digits(v, n)),
        all_hex(hex_digits(v, n)),
        hex_number(hex_digits(v, n)) == v % (pow(16, n) as nat),
    decreases n,
{
    reveal(pow);
    if n == 0 {
        assert(v % 1 == 0);
    } else {
        let n1 = (n - 1) as nat;
        let s = hex_digits(v, n);
        lemma_hex_digits_ascii(v / 16, n1);
        assert(s.drop_last() =~= hex_digits(v / 16, n1));
        lemma_pow_positive(16, n1);
        assert(pow(16, n) == 16 * pow(16, n1));
        vstd::arithmetic::div_mod::lemma_breakdown(v as int, 16, pow(16, n1));
        assert(hex_digit_of(s.last()) == Some((v % 16) as u8));
        assert forall|i: int| 0 <= i < s.len() implies (#[trigger] hex_digit_of(s[i])) is Some by {
            if i < n1 {
                assert(s[i] == hex_digits(v / 16, n1)[i]);
            }
        }
    }
}

/// The UUID text of a ULID's text: its 128-bit value as hyphenated
/// lower-case hexadecimal.
pub fn ulid_to_uuid(ulid_str: &str) -> (r: Result<String, UlidError>)
    ensures
        ({
            let s = ulid_str.spec_bytes();
            &&& s.len() != 26 ==> r == Err::<String, UlidError>(UlidError::LengthMismatch)
            &&& s.len() == 26 ==> match r {
                Ok(t) => all_symbols(s) && t@ == ascii_text(
                    uuid_text(base32_value(s) % u128_modulus()),
                ),
                Err(e) => decodes_as(s, Err(e)),
            }
        }),
{
    let ulid = match Ulid::parse(ulid_str) {
        Ok(u) => u,
        Err(e) => return Err(e),
    };
    let v = ulid.value();
    let h = hex_digits_of(v, 32);
    proof {
        lemma_hex_digits_ascii(v as nat, 32);
    }
    let mut out: Vec<u8> = Vec::new();
    append_range(&mut out, &h, 0, 8);
    out.push(45u8);
    append_range(&mut out, &h, 8, 12);
    out.push(45u8);
    append_range(&mut out, &h, 12, 16);
    out.push(45u8);
    append_range(&mut out, &h, 16, 20);
    out.push(45u8);
    append_range(&mut out, &h, 20, 32);
    assert(out@ =~= uuid_text(v as nat));
    assert forall|i: int| 0 <= i < out@.len() implies out@[i] < 128 by {
        let t = uuid_text(v as nat);
        if i < 8 {
            assert(t[i] == h@[i]);
        } else if 8 < i < 13 {
            assert(t[i] == h@[i - 1]);
        } else if 13 < i < 18 {
            assert(t[i] == h@[i - 2]);
        } else if 18 < i < 23 {
            assert(t[i] == h@[i - 3]);
        } else if 23 < i {
            assert(t[i] == h@[i - 4]);
        }
    }
    Ok(string_from_ascii(out))
}


/// A string of hexadecimal digits stands for less than 16 to its length.
proof fn lemma_hex_number_bound(s: Seq<u8>)
    ensures
        hex_number(s) < pow(16, s.len()),
    decreases s.len(),
{
    reveal(pow);
    if s.len() > 0 {
        let n1 = (s.len() - 1) as nat;
        lemma_hex_number_bound(s.drop_last());
        let d: nat = match hex_digit_of(s.last()) {
            Some(d) => d as nat,
            None => 0,
        };
        assert(d < 16);
        assert(hex_number(s.drop_last()) * 16 + d < pow(16, n1) * 16) by (nonlinear_arith)
            requires
                hex_number(s.drop_last()) < pow(16, n1),
                d < 16,
        ;
    }
}

/// 16^32 is 2^128.
proof fn lemma_hex_width()
    ensures
        pow(16, 32) == u128_modulus(),
{
    reveal_with_fuel(pow, 33);
}

/// The 26-symbol text of the 128 bits written as UUID text: 32 hexadecimal
/// digits in either case, hyphens anywhere.
pub fn uuid_to_ulid(uuid_str: &str) -> (r: Result<String, UlidError>)
    ensures
        ({
            let h = strip_hyphens(uuid_str.spec_bytes());
            &&& h.len() != 32 ==> r == Err::<String, UlidError>(UlidError::FormatError)
            &&& h.len() == 32 && !all_hex(h) ==> r == Err::<String, UlidError>(
                UlidError::InvalidHex,
            )
            &&& h.len() == 32 && all_hex(h) ==> r is Ok && r->Ok_0@ == ascii_text(
                encoded(hex_number(h)),
            )
        }),
{
    let bytes = uuid_str.as_bytes();
    let mut hex: Vec<u8> = Vec::new();
    let mut i: usize = 0;
    assert(bytes@.subrange(0, 0) =~= Seq::<u8>::empty());
    while i < bytes.len()
        invariant
            i <= bytes@.len(),
            bytes@ == uuid_str.spec_bytes(),
            hex@ == strip_hyphens(bytes@.subrange(0, i as int)),
        decreases bytes@.len() - i,
    {
        let b = bytes[i];
        if b != 45 {
            hex.push(b);
        }
        i += 1;
        assert(bytes@.subrange(0, i as int).drop_last() =~= bytes@.subrange(0, i - 1));
    }
    assert(bytes@.subrange(0, i as int) =~= bytes@);
    if hex.len() != 32 {
        return Err(UlidError::FormatError);
    }
    let mut value: u128 = 0;
    let mut j: usize = 0;
    assert(hex@.subrange(0, 0) =~= Seq::<u8>::empty());
    while j < 32
        invariant
            j <= 32,
            hex@.len() == 32,
            hex@ == strip_hyphens(uuid_str.spec_bytes()),
            all_hex(hex@.subrange(0, j as int)),
            value as nat == hex_number(hex@.subrange(0, j as int)),
        decreases 32 - j,
    {
        let b = hex[j];
        let d: u8 = if 48 <= b && b <= 57 {
            b - 48
        } else if 97 <= b && b <= 102 {
            b - 97 + 10
        } else if 65 <= b && b <= 70 {
            b - 65 + 10
        } else {
            assert(!all_hex(hex@)) by {
                assert(hex_digit_of(hex@[j as int]) is None);
            }
            return Err(UlidError::InvalidHex);
        };
        proof {
            let p = hex@.subrange(0, j as int);
            let q = hex@.subrange(0, j + 1);
            assert(q.drop_last() =~= p);
            lemma_hex_number_bound(p);
            lemma_pow_increases(16, j as nat, 31);
            lemma_hex_width();
            reveal(pow);
            assert(pow(16, 32) == 16 * pow(16, 31));
            assert(value * 16 + d < u128_modulus()) by (nonlinear_arith)
                requires
                    value < pow(16, 31),
                    d < 16,
                    pow(16, 32) == 16 * pow(16, 31),
                    pow(16, 32) == u128_modulus(),
            ;
            assert forall|k: int| 0 <= k < q.len() implies (#[trigger] hex_digit_of(
                q[k],
            )) is Some by {
                if k < j {
                    assert(q[k] == p[k]);
                }
            }
        }
        value = value * 16 + d as u128;
        j += 1;
    }
    assert(hex@.subrange(0, 32) =~= hex@);
    Ok(encode_base32(value))
}


/// Removing hyphens distributes over concatenation.
proof fn lemma_strip_concat(a: Seq<u8>, b: Seq<u8>)
    ensures
        strip_hyphens(a + b) == strip_hyphens(a) + strip_hyphens(b),
    decreases b.len(),
{
    if b.len() == 0 {
        assert(a + b =~= a);
        assert(strip_hyphens(a) + strip_hyphens(b) =~= strip_hyphens(a));
    } else {
        lemma_strip_concat(a, b.drop_last());
        assert((a + b).drop_last() =~= a + b.drop_last());
        assert((a + b).last() == b.last());
        if b.last() == 45 {
        } else {
            assert(strip_hyphens(a) + strip_hyphens(b.drop_last()).push(b.last()) =~= (
            strip_hyphens(a) + strip_hyphens(b.drop_last())).push(b.last()));
        }
    }
}

/// Hexadecimal digits hold no hyphen, so removing hyphens keeps them.
proof fn lemma_strip_hex(s: Seq<u8>)
    requires
        all_hex(s),
    ensures
        strip_hyphens(s) == s,
    decreases s.len(),
{
    if s.len() > 0 {
        assert(all_hex(s.drop_last())) by {
            assert forall|i: int| 0 <= i < s.len() - 1 implies (#[trigger] hex_digit_of(
                s.drop_last()[i],
            )) is Some by {
                assert(s.drop_last()[i] == s[i]);
            }
        }
        lemma_strip_hex(s.drop_last());
        assert(hex_digit_of(s[s.len() - 1]) is Some);
        assert(s.drop_last().push(s.last()) =~= s);
    }
}

/// The `n` digits of the value of `n` symbols are those symbols in upper case.
proof fn lemma_value_digits(x: Seq<u8>)
    requires
        all_symbols(x),
    ensures
        base32_digits(base32_value(x), x.len()) == upper_bytes(x),
    decreases x.len(),
{
    if x.len() == 0 {
        assert(upper_bytes(x) =~= Seq::<u8>::empty());
    } else {
        let p = x.drop_last();
        assert(all_symbols(p)) by {
            assert forall|i: int| 0 <= i < p.len() implies (#[trigger] digit_of(p[i])) is Some by {
                assert(p[i] == x[i]);
            }
        }
        lemma_value_digits(p);
        assert(digit_of(x[x.len() - 1]) is Some);
        lemma_digit_symbol(x.last());
        let d = digit_of(x.last()).unwrap() as nat;
        let v = base32_value(x);
        assert(v == base32_value(p) * 32 + d);
        assert(v / 32 == base32_value(p) && v % 32 == d);
        assert(upper_bytes(x) =~= upper_bytes(p).push(to_upper(x.last())));
    }
}

/// Converting a ULID's text to UUID text and back gives the ULID's text in
/// upper case, for every well-formed text whose value fits in 128 bits (26
/// symbols can write up to 2^130 - 1: a first symbol above `7` does not fit).
pub proof fn lemma_uuid_round_trip(x: Seq<u8>)
    requires
        is_ulid_text(x),
        base32_value(x) < u128_modulus(),
    ensures
        ({
            let v = base32_value(x) % u128_modulus();
            let h = strip_hyphens(encode_utf8(ascii_text(uuid_text(v))));
            &&& h.len() == 32
            &&& all_hex(h)
            &&& encoded(hex_number(h)) == upper_bytes(x)
        }),
{
    let v = base32_value(x) % u128_modulus();
    vstd::arithmetic::div_mod::lemma_small_mod(base32_value(x), u128_modulus());
    let hd = hex_digits(v, 32);
    lemma_hex_digits_ascii(v, 32);
    lemma_hex_width();
    vstd::arithmetic::div_mod::lemma_small_mod(v, u128_modulus());
    let t = uuid_text(v);
    let dash = seq![45u8];
    assert(is_ascii_bytes(t)) by {
        assert forall|i: int| 0 <= i < t.len() implies t[i] < 128 by {
            if i < 8 {
                assert(t[i] == hd[i]);
            } else if 8 < i < 13 {
                assert(t[i] == hd[i - 1]);
            } else if 13 < i < 18 {
                assert(t[i] == hd[i - 2]);
            } else if 18 < i < 23 {
                assert(t[i] == hd[i - 3]);
            } else if 23 < i {
                assert(t[i] == hd[i - 4]);
            }
        }
    }
    crate::text::lemma_ascii_text_bytes(t);
    assert(strip_hyphens(dash) =~= Seq::<u8>::empty()) by {
        assert(dash.len() == 1 && dash.last() == 45);
        assert(dash.drop_last() =~= Seq::<u8>::empty());
        assert(strip_hyphens(dash) == strip_hyphens(dash.drop_last()));
    }
    let a = hd.subrange(0, 8);
    let b = hd.subrange(8, 12);
    let c = hd.subrange(12, 16);
    let d = hd.subrange(16, 20);
    let e = hd.subrange(20, 32);
    assert forall|lo: int, hi: int| 0 <= lo <= hi <= 32 implies all_hex(
        #[trigger] hd.subrange(lo, hi),
    ) by {
        assert forall|i: int| 0 <= i < hi - lo implies (#[trigger] hex_digit_of(
            hd.subrange(lo, hi)[i],
        )) is Some by {
            assert(hd.subrange(lo, hi)[i] == hd[lo + i]);
        }
    }
    lemma_strip_hex(a);
    lemma_strip_hex(b);
    lemma_strip_hex(c);
    lemma_strip_hex(d);
    lemma_strip_hex(e);
    lemma_strip_concat(a, dash);
    lemma_strip_concat(a + dash, b);
    lemma_strip_concat(a + dash + b, dash);
    lemma_strip_concat(a + dash + b + dash, c);
    lemma_strip_concat(a + dash + b + dash + c, dash);
    lemma_strip_concat(a + dash + b + dash + c + dash, d);
    lemma_strip_concat(a + dash + b + dash + c + dash + d, dash);
    lemma_strip_concat(a + dash + b + dash + c + dash + d + dash, e);
    assert(strip_hyphens(t) =~= hd);
    lemma_value_digits(x);
}

} // verus!
