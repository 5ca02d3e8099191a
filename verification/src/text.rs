//! Conversions between `str`/`String` and character vectors, plus a few
//! character classes shared by the parser and the printer.

use vstd::prelude::*;

verus! {

/// The characters of `s`, in order.
#[verifier::external_body]
pub(crate) fn chars_of(s: &str) -> (v: Vec<char>)
    ensures
        v@ == s@,
{
    s.chars().collect()
}

/// A `String` made of the characters of `v`, in order.
#[verifier::external_body]
pub(crate) fn string_of(v: &Vec<char>) -> (s: String)
    ensures
        s@ == v@,
{
    v.iter().collect()
}

/// `'0'..='9'`
pub open spec fn is_ascii_digit(c: char) -> bool {
    '0' <= c && c <= '9'
}

pub fn is_ascii_digit_exec(c: char) -> (r: bool)
    ensures
        r == is_ascii_digit(c),
{
    '0' <= c && c <= '9'
}

/// The character of a decimal digit.
pub open spec fn digit_char(d: u8) -> char
    recommends
        d <= 9,
{
    (d + 48) as char
}

pub fn digit_char_exec(d: u8) -> (c: char)
    requires
        d <= 9,
    ensures
        c == digit_char(d),
{
    let b: u8 = d + 48;
    b as char
}

/// The characters of a sequence of decimal digits.
pub open spec fn digits_to_chars(s: Seq<u8>) -> Seq<char> {
    s.map_values(|d: u8| digit_char(d))
}

/// Decimal representation of a natural number, without leading zeroes ("0" for zero).
pub open spec fn nat_to_decimal(n: nat) -> Seq<char>
    decreases n,
{
    if n < 10 {
        seq![digit_char(n as u8)]
    } else {
        nat_to_decimal(n / 10).push(digit_char((n % 10) as u8))
    }
}

/// Decimal representation of an integer, with a leading `-` when negative.
pub open spec fn int_to_decimal(i: int) -> Seq<char> {
    if i < 0 {
        seq!['-'] + nat_to_decimal((-i) as nat)
    } else {
        nat_to_decimal(i as nat)
    }
}

/// Appends the decimal representation of `n` to `out`.
pub fn push_nat_decimal(out: &mut Vec<char>, n: u64)
    ensures
        final(out)@ == old(out)@ + nat_to_decimal(n as nat),
    decreases n,
{
    if n < 10 {
        out.push(digit_char_exec(n as u8));
    } else {
        push_nat_decimal(out, n / 10);
        out.push(digit_char_exec((n % 10) as u8));
    }
}

/// Appends the decimal representation of `i` to `out`, as `format!("{}", i)` writes it.
pub fn push_int_decimal(out: &mut Vec<char>, i: i64)
    ensures
        final(out)@ == old(out)@ + int_to_decimal(i as int),
{
    if i < 0 {
        out.push('-');
        let m: u64 = if i == i64::MIN { 9223372036854775808u64 } else { (-i) as u64 };
        push_nat_decimal(out, m);
        assert(final(out)@ == old(out)@ + int_to_decimal(i as int));
    } else {
        push_nat_decimal(out, i as u64);
    }
}


/// The digit values of a sequence of digit characters.
pub open spec fn chars_to_digits(s: Seq<char>) -> Seq<u8> {
    s.map_values(|c: char| (c as u32 - 48) as u8)
}

/// Appends the characters of `s`.
pub fn push_str(out: &mut Vec<char>, s: &str)
    ensures
        final(out)@ == old(out)@ + s@,
{
    let cs = chars_of(s);
    let mut i: usize = 0;
    while i < cs.len()
        invariant
            i <= cs@.len(),
            out@ == old(out)@ + cs@.take(i as int),
            cs@ == s@,
        decreases cs.len() - i,
    {
        out.push(cs[i]);
        proof {
            assert(cs@.take(i + 1) =~= cs@.take(i as int).push(cs@[i as int]));
        }
        i = i + 1;
    }
    assert(cs@.take(i as int) =~= cs@);
}

} // verus!
