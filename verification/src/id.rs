//! Base-62 puzzle identifiers.
//!
//! An identifier of five ASCII letters and digits fits in a 32-bit number, with
//! the highest bit free; longer or irregular identifiers are kept as text
//! elsewhere and marked by that bit.

use vstd::prelude::*;

use crate::text::utf8;

verus! {

/// The value of a base-62 digit: `0`-`9`, then `a`-`z`, then `A`-`Z`. Any other
/// byte counts as zero.
pub open spec fn base62_value(c: u8) -> nat {
    if '0' as u8 <= c <= '9' as u8 {
        (c - '0' as u8) as nat
    } else if 'a' as u8 <= c <= 'z' as u8 {
        (c - 'a' as u8 + 10) as nat
    } else if 'A' as u8 <= c <= 'Z' as u8 {
        (c - 'A' as u8 + 36) as nat
    } else {
        0
    }
}

/// The base-62 digit with a value; `0` where there is none.
pub open spec fn base62_digit(v: nat) -> u8 {
    if v < 10 {
        ('0' as u8 + v) as u8
    } else if v < 36 {
        ('a' as u8 + (v - 10)) as u8
    } else if v < 62 {
        ('A' as u8 + (v - 36)) as u8
    } else {
        '0' as u8
    }
}

/// An ASCII letter or digit.
pub open spec fn is_alphanumeric(c: u8) -> bool {
    ||| '0' as u8 <= c <= '9' as u8
    ||| 'a' as u8 <= c <= 'z' as u8
    ||| 'A' as u8 <= c <= 'Z' as u8
}

/// The number that base-62 digits write, the highest digit first.
pub open spec fn base62_number(b: Seq<u8>) -> nat
    decreases b.len(),
{
    if b.len() == 0 {
        0
    } else {
        base62_number(b.drop_last()) * 62 + base62_value(b.last())
    }
}

/// The bytes of an identifier that count: the first five.
pub open spec fn id_bytes(id: Seq<char>) -> Seq<u8> {
    if utf8(id).len() <= 5 {
        utf8(id)
    } else {
        utf8(id).take(5)
    }
}

/// The number of an identifier.
pub open spec fn id_number(id: Seq<char>) -> nat {
    base62_number(id_bytes(id))
}

/// Five ASCII letters and digits.
pub open spec fn standard_id(id: Seq<char>) -> bool {
    let b = utf8(id);
    b.len() == 5 && forall|i: int| 0 <= i < 5 ==> is_alphanumeric(#[trigger] b[i])
}

/// The five base-62 digits of a number, the highest first.
pub open spec fn id_text(v: nat) -> Seq<char> {
    seq![
        base62_digit((v / 14776336) % 62) as char,
        base62_digit((v / 238328) % 62) as char,
        base62_digit((v / 3844) % 62) as char,
        base62_digit((v / 62) % 62) as char,
        base62_digit(v % 62) as char,
    ]
}

/// The value of a base-62 digit.
pub fn base62_char_to_val(c: u8) -> (r: u32)
    ensures
        r == base62_value(c),
{
    if '0' as u8 <= c && c <= '9' as u8 {
        (c - '0' as u8) as u32
    } else if 'a' as u8 <= c && c <= 'z' as u8 {
        (c - 'a' as u8) as u32 + 10
    } else if 'A' as u8 <= c && c <= 'Z' as u8 {
        (c - 'A' as u8) as u32 + 36
    } else {
        0
    }
}

/// The base-62 digit with a value.
pub fn val_to_base62_char(v: u32) -> (r: u8)
    ensures
        r == base62_digit(v as nat),
{
    if v < 10 {
        '0' as u8 + v as u8
    } else if v < 36 {
        'a' as u8 + (v - 10) as u8
    } else if v < 62 {
        'A' as u8 + (v - 36) as u8
    } else {
        '0' as u8
    }
}

/// Whether a text is five ASCII letters and digits.
pub fn is_standard_base62_5char(s: &str) -> (r: bool)
    ensures
        r == standard_id(s@),
{
    let b = s.as_bytes();
    if b.len() != 5 {
        return false;
    }
    for i in 0..b.len()
        invariant
            b@ == utf8(s@),
            b@.len() == 5,
            forall|j: int| 0 <= j < i ==> is_alphanumeric(#[trigger] b@[j]),
    {
        let c: u8 = b[i];
        if !(('0' as u8 <= c && c <= '9' as u8) || ('a' as u8 <= c && c <= 'z' as u8) || ('A' as u8
            <= c && c <= 'Z' as u8)) {
            assert(!is_alphanumeric(b@[i as int]));
            return false;
        }
    }
    true
}

/// Base-62 digits, and how large a number they can write.
pub open spec fn id_limit(n: nat) -> nat
    decreases n,
{
    if n == 0 {
        1
    } else {
        62 * id_limit((n - 1) as nat)
    }
}

/// Base-62 digits write a number below the limit for their count.
pub proof fn lemma_base62_bound(b: Seq<u8>)
    ensures
        base62_number(b) < id_limit(b.len()),
    decreases b.len(),
{
    if b.len() > 0 {
        lemma_base62_bound(b.drop_last());
    }
}

/// The number of an identifier leaves the highest bit of 32 free.
pub proof fn lemma_id_number_bound(id: Seq<char>)
    ensures
        id_number(id) < 916132832,
        id_number(id) < 0x8000_0000,
{
    let b = id_bytes(id);
    lemma_base62_bound(b);
    reveal_with_fuel(id_limit, 6);
}

/// The number of an identifier, from its first five bytes.
pub fn encode_base62_id(id_str: &str) -> (r: u32)
    ensures
        r == id_number(id_str@),
{
    let bytes = id_str.as_bytes();
    let n: usize = if bytes.len() < 5 {
        bytes.len()
    } else {
        5
    };
    let mut val: u32 = 0;
    let ghost b = id_bytes(id_str@);
    assert(b =~= bytes@.take(n as int));
    assert(b.take(0) =~= Seq::empty());
    for i in 0..n
        invariant
            n <= 5,
            n <= bytes@.len(),
            b == bytes@.take(n as int),
            val == base62_number(b.take(i as int)),
    {
        proof {
            lemma_base62_bound(b.take(i as int));
            reveal_with_fuel(id_limit, 6);
            assert(b.take(i + 1).drop_last() =~= b.take(i as int));
            assert(b.take(i + 1).last() == bytes@[i as int]);
        }
        val = val * 62 + base62_char_to_val(bytes[i]);
    }
    assert(b.take(n as int) =~= b);
    val
}

/// The identifier with a number.
pub fn decode_base62_id(val: u32) -> (r: String)
    ensures
        r@ == id_text(val as nat),
{
    let mut out = String::new();
    out.push(val_to_base62_char((val / 14776336) % 62) as char);
    out.push(val_to_base62_char((val / 238328) % 62) as char);
    out.push(val_to_base62_char((val / 3844) % 62) as char);
    out.push(val_to_base62_char((val / 62) % 62) as char);
    out.push(val_to_base62_char(val % 62) as char);
    assert(out@ =~= id_text(val as nat));
    out
}

/// A letter or digit is the base-62 digit of its value.
pub proof fn lemma_digit_of_value(c: u8)
    requires
        is_alphanumeric(c),
    ensures
        base62_digit(base62_value(c)) == c,
        base62_value(c) < 62,
{
}

/// A value below 62 is the value of its digit, which is a letter or a digit.
pub proof fn lemma_value_of_digit(v: nat)
    requires
        v < 62,
    ensures
        base62_value(base62_digit(v)) == v,
        is_alphanumeric(base62_digit(v)),
{
}

/// A standard identifier comes back from its number: decoding what was encoded
/// loses nothing.
pub proof fn law_id_round_trip(id: Seq<char>)
    requires
        standard_id(id),
    ensures
        id_text(id_number(id)) == id,
        id_number(id) < 0x8000_0000,
{
    let b = utf8(id);
    assert forall|i: int| 0 <= i < b.len() implies #[trigger] b[i] < 128 by {
        assert(is_alphanumeric(b[i]));
    }
    crate::text::lemma_ascii_utf8(id);
    lemma_id_number_bound(id);
    assert(is_alphanumeric(b[0]) && is_alphanumeric(b[1]) && is_alphanumeric(b[2])
        && is_alphanumeric(b[3]) && is_alphanumeric(b[4]));
    lemma_base62_five(b);
    lemma_digit_of_value(b[0]);
    lemma_digit_of_value(b[1]);
    lemma_digit_of_value(b[2]);
    lemma_digit_of_value(b[3]);
    lemma_digit_of_value(b[4]);
    let (d0, d1, d2, d3, d4) = (
        base62_value(b[0]),
        base62_value(b[1]),
        base62_value(b[2]),
        base62_value(b[3]),
        base62_value(b[4]),
    );
    lemma_five_digits(d0, d1, d2, d3, d4);
    assert(id_text(id_number(id)) =~= id);
}

/// Five base-62 digits of a number, and the number again.
pub proof fn lemma_five_digits(d0: nat, d1: nat, d2: nat, d3: nat, d4: nat)
    requires
        d0 < 62,
        d1 < 62,
        d2 < 62,
        d3 < 62,
        d4 < 62,
    ensures
        ({
            let v = d0 * 14776336 + d1 * 238328 + d2 * 3844 + d3 * 62 + d4;
            &&& (v / 14776336) % 62 == d0
            &&& (v / 238328) % 62 == d1
            &&& (v / 3844) % 62 == d2
            &&& (v / 62) % 62 == d3
            &&& v % 62 == d4
        }),
{
    let v = d0 * 14776336 + d1 * 238328 + d2 * 3844 + d3 * 62 + d4;
    let v1 = d0 * 238328 + d1 * 3844 + d2 * 62 + d3;
    let v2 = d0 * 3844 + d1 * 62 + d2;
    let v3 = d0 * 62 + d1;
    lemma_divisions(v);
    assert(v == v1 * 62 + d4 && v1 == v2 * 62 + d3 && v2 == v3 * 62 + d2);
    lemma_last_digit(v1, d4);
    lemma_last_digit(v2, d3);
    lemma_last_digit(v3, d2);
    lemma_last_digit(d0, d1);
}

/// The last base-62 digit of a number, and the digits before it.
pub proof fn lemma_last_digit(q: nat, d: nat)
    requires
        d < 62,
    ensures
        (q * 62 + d) / 62 == q,
        (q * 62 + d) % 62 == d,
{
}

/// Dividing by 62 again and again.
pub proof fn lemma_divisions(v: nat)
    ensures
        v / 3844 == v / 62 / 62,
        v / 238328 == v / 62 / 62 / 62,
        v / 14776336 == v / 62 / 62 / 62 / 62,
{
    let x = v as int;
    vstd::arithmetic::div_mod::lemma_div_denominator(x, 62, 62);
    vstd::arithmetic::div_mod::lemma_div_denominator(x, 3844, 62);
    vstd::arithmetic::div_mod::lemma_div_denominator(x, 238328, 62);
}

/// The number that five base-62 digits write.
pub proof fn lemma_base62_five(b: Seq<u8>)
    requires
        b.len() == 5,
    ensures
        base62_number(b) == base62_value(b[0]) * 14776336 + base62_value(b[1]) * 238328
            + base62_value(b[2]) * 3844 + base62_value(b[3]) * 62 + base62_value(b[4]),
{
    reveal_with_fuel(base62_number, 6);
    let b4 = b.drop_last();
    let b3 = b4.drop_last();
    let b2 = b3.drop_last();
    let b1 = b2.drop_last();
}

/// A number below 62 to the fifth comes back from its identifier, which is a
/// standard one.
pub proof fn law_number_round_trip(v: nat)
    requires
        v < 916132832,
    ensures
        standard_id(id_text(v)),
        id_number(id_text(v)) == v,
{
    let t = id_text(v);
    lemma_value_of_digit((v / 14776336) % 62);
    lemma_value_of_digit((v / 238328) % 62);
    lemma_value_of_digit((v / 3844) % 62);
    lemma_value_of_digit((v / 62) % 62);
    lemma_value_of_digit(v % 62);
    crate::text::lemma_utf8_ascii(t);
    let b = utf8(t);
    assert(b[0] == t[0] as u8 && b[1] == t[1] as u8 && b[2] == t[2] as u8 && b[3] == t[3] as u8
        && b[4] == t[4] as u8);
    lemma_base62_five(b);
    lemma_divisions(v);
    let v1 = v / 62;
    let v2 = v1 / 62;
    let v3 = v2 / 62;
    let v4 = v3 / 62;
    assert(v == v1 * 62 + v % 62 && v1 == v2 * 62 + v1 % 62 && v2 == v3 * 62 + v2 % 62 && v3 == v4
        * 62 + v3 % 62);
    assert(v4 < 62);
}

} // verus!
