//! Small text helpers: comparing strings, reading decimal numbers.
use vstd::prelude::*;
use vstd::utf8::{encode_utf8, encode_utf8_decode_utf8};
use crate::natural::is_digit;
use crate::paths::bytes_equal;

verus! {

/// Whether two strings are the same text.
pub fn str_eq(a: &str, b: &str) -> (r: bool)
    ensures
        r == (a@ == b@),
{
    let same = bytes_equal(a.as_bytes(), b.as_bytes());
    proof {
        encode_utf8_decode_utf8(a@);
        encode_utf8_decode_utf8(b@);
    }
    same
}

/// Whether `s` begins with the character `c`.
pub fn starts_with_char(s: &str, c: char) -> (r: bool)
    ensures
        r == (s@.len() > 0 && s@[0] == c),
{
    if s.is_empty() {
        false
    } else {
        s.get_char(0) == c
    }
}

pub open spec fn all_digits(s: Seq<u8>) -> bool {
    forall|i: int| 0 <= i < s.len() ==> is_digit(#[trigger] s[i])
}

/// The value of a string of decimal digits.
pub open spec fn decimal_value(s: Seq<u8>) -> nat
    decreases s.len(),
{
    if s.len() == 0 {
        0
    } else {
        10 * decimal_value(s.drop_last()) + (s.last() - 48) as nat
    }
}

/// The digits of an unsigned number: an optional leading `+` is dropped.
pub open spec fn unsigned_digits(s: Seq<u8>) -> Seq<u8> {
    if s.len() > 0 && s[0] == 43 {
        s.drop_first()
    } else {
        s
    }
}

/// What `str::parse` gives for an unsigned integer type whose largest value
/// is `max`: the value of one or more decimal digits after an optional `+`,
/// when it is at most `max`.
pub open spec fn parse_unsigned(s: Seq<u8>, max: nat) -> Option<nat> {
    let d = unsigned_digits(s);
    if d.len() > 0 && all_digits(d) && decimal_value(d) <= max {
        Some(decimal_value(d))
    } else {
        None
    }
}

proof fn lemma_decimal_value_grows(s: Seq<u8>, k: int)
    requires
        0 <= k <= s.len(),
        all_digits(s),
    ensures
        decimal_value(s.take(k)) <= decimal_value(s),
    decreases s.len(),
{
    if k < s.len() {
        assert(all_digits(s.drop_last()));
        assert(s.drop_last().take(k) =~= s.take(k));
        lemma_decimal_value_grows(s.drop_last(), k);
    } else {
        assert(s.take(k) =~= s);
    }
}

/// Reads an unsigned decimal number no larger than `max` from `s`.
pub fn parse_unsigned_bytes(s: &[u8], max: u64) -> (r: Option<u64>)
    ensures
        match r {
            Some(v) => parse_unsigned(s@, max as nat) == Some(v as nat),
            None => parse_unsigned(s@, max as nat) is None,
        },
{
    let ghost d = unsigned_digits(s@);
    let start: usize = if s.len() > 0 && s[0] == 43 {
        1
    } else {
        0
    };
    assert(d =~= s@.skip(start as int));
    if start >= s.len() {
        return None;
    }
    let mut value: u64 = 0;
    let mut i = start;
    while i < s.len()
        invariant
            start <= i <= s.len(),
            d == s@.skip(start as int),
            d == unsigned_digits(s@),
            all_digits(d.take(i - start)),
            value as nat == decimal_value(d.take(i - start)),
            value <= max,
        decreases s.len() - i,
    {
        let b = s[i];
        assert(d[i - start] == b);
        if !(48 <= b && b <= 57) {
            assert(!is_digit(d[i - start]));
            return None;
        }
        let next = (value as u128) * 10 + ((b - 48) as u128);
        assert(d.take(i + 1 - start).drop_last() =~= d.take(i - start));
        assert(all_digits(d.take(i + 1 - start)));
        if next > max as u128 {
            proof {
                if all_digits(d) {
                    lemma_decimal_value_grows(d, i + 1 - start);
                }
            }
            return None;
        }
        value = next as u64;
        i += 1;
    }
    assert(d.take(i - start) =~= d);
    Some(value)
}


/// Appends `c` to `s`: `String::push`, which appends the character.
#[verifier::external_body]
pub(crate) fn push_char(s: &mut String, c: char)
    ensures
        final(s)@ == old(s)@.push(c),
{
    s.push(c);
}

/// The decimal digit `d` as a character.
pub open spec fn digit_char(d: nat) -> char {
    if d == 0 {
        '0'
    } else if d == 1 {
        '1'
    } else if d == 2 {
        '2'
    } else if d == 3 {
        '3'
    } else if d == 4 {
        '4'
    } else if d == 5 {
        '5'
    } else if d == 6 {
        '6'
    } else if d == 7 {
        '7'
    } else if d == 8 {
        '8'
    } else {
        '9'
    }
}

/// The decimal representation of `n`, without leading zeros.
pub open spec fn decimal_chars(n: nat) -> Seq<char>
    decreases n,
{
    if n < 10 {
        seq![digit_char(n)]
    } else {
        decimal_chars(n / 10).push(digit_char(n % 10))
    }
}

fn digit(d: u64) -> (c: char)
    requires
        d < 10,
    ensures
        c == digit_char(d as nat),
{
    if d == 0 {
        '0'
    } else if d == 1 {
        '1'
    } else if d == 2 {
        '2'
    } else if d == 3 {
        '3'
    } else if d == 4 {
        '4'
    } else if d == 5 {
        '5'
    } else if d == 6 {
        '6'
    } else if d == 7 {
        '7'
    } else if d == 8 {
        '8'
    } else {
        '9'
    }
}

/// Appends the decimal representation of `n` to `s`.
pub fn push_decimal(s: &mut String, n: u64)
    ensures
        final(s)@ == old(s)@ + decimal_chars(n as nat),
    decreases n,
{
    if n < 10 {
        push_char(s, digit(n));
        assert(old(s)@.push(digit_char(n as nat)) =~= old(s)@ + decimal_chars(n as nat));
    } else {
        push_decimal(s, n / 10);
        push_char(s, digit(n % 10));
        assert(old(s)@ + decimal_chars((n / 10) as nat) + seq![digit_char((n % 10) as nat)] =~= old(
            s,
        )@ + decimal_chars(n as nat));
    }
}

} // verus!
