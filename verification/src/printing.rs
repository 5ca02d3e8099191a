//! Number formatting: significant-digit rounding, scientific and regular notation,
//! thousands separators.

use vstd::prelude::*;
use crate::text::{chars_of, chars_to_digits, digit_char, is_ascii_digit, is_ascii_digit_exec, digit_char_exec, digits_to_chars, int_to_decimal, nat_to_decimal, push_int_decimal, string_of};

verus! {

/// Options for formatting numbers to strings
/// * `round_to_decimals`: Number of significant digits to round to
/// * `non_scientific_decimals`: Maximum exponent (positive or negative) to print in non-scientific format
/// * `thousands_separator`: Whether to include thousand separators in non-scientific format
#[derive(Debug, Clone, Copy)]
pub struct FormattingOptions {
    pub round_to_decimals: usize,
    pub non_scientific_decimals: usize,
    pub thousands_separator: bool,
}

impl FormattingOptions {
    /// The options used when nothing else is asked for: 9 significant digits,
    /// regular notation up to an exponent of 12, thousands separators on.
    pub fn default_options() -> (o: Self)
        ensures
            o.round_to_decimals == 9,
            o.non_scientific_decimals == 12,
            o.thousands_separator,
    {
        FormattingOptions { round_to_decimals: 9, non_scientific_decimals: 12, thousands_separator: true }
    }

    pub fn with_rounding(self, decimals: usize) -> (o: Self)
        ensures
            o == (FormattingOptions { round_to_decimals: decimals, ..self }),
    {
        let mut s = self;
        s.round_to_decimals = decimals;
        s
    }

    pub fn with_non_scientific_decimals(self, decimals: usize) -> (o: Self)
        ensures
            o == (FormattingOptions { non_scientific_decimals: decimals, ..self }),
    {
        let mut s = self;
        s.non_scientific_decimals = decimals;
        s
    }

    pub fn with_thousands_separator(self, b: bool) -> (o: Self)
        ensures
            o == (FormattingOptions { thousands_separator: b, ..self }),
    {
        let mut s = self;
        s.thousands_separator = b;
        s
    }
}

impl Default for FormattingOptions {
    fn default() -> (o: Self)
        ensures
            o.round_to_decimals == 9,
            o.non_scientific_decimals == 12,
            o.thousands_separator,
    {
        Self::default_options()
    }
}

// ---------------------------------------------------------------------------
// Digit sequences
// ---------------------------------------------------------------------------

/// All entries are decimal digits.
pub open spec fn all_digits(s: Seq<u8>) -> bool {
    forall|i: int| 0 <= i < s.len() ==> #[trigger] s[i] <= 9
}

/// Number of zeroes at the start of `s`.
pub open spec fn leading_zeros(s: Seq<u8>) -> nat
    decreases s.len(),
{
    if s.len() > 0 && s[0] == 0 {
        1 + leading_zeros(s.drop_first())
    } else {
        0
    }
}

/// Number of zeroes at the end of `s`.
pub open spec fn trailing_zeros(s: Seq<u8>) -> nat
    decreases s.len(),
{
    if s.len() > 0 && s.last() == 0 {
        1 + trailing_zeros(s.drop_last())
    } else {
        0
    }
}

/// Number of nines at the end of `s`.
pub open spec fn trailing_nines(s: Seq<u8>) -> nat
    decreases s.len(),
{
    if s.len() > 0 && s.last() == 9 {
        1 + trailing_nines(s.drop_last())
    } else {
        0
    }
}

pub open spec fn zeros(n: nat) -> Seq<u8> {
    Seq::new(n, |i: int| 0u8)
}

/// `s` without its leading zeroes.
pub open spec fn trim_leading(s: Seq<u8>) -> Seq<u8> {
    s.skip(leading_zeros(s) as int)
}

/// `s` without its trailing zeroes.
pub open spec fn trim_trailing(s: Seq<u8>) -> Seq<u8> {
    s.take(s.len() - trailing_zeros(s))
}

/// The digit sequence `s` read as a decimal integer (most significant digit first).
pub open spec fn digits_value(s: Seq<u8>) -> nat
    decreases s.len(),
{
    if s.len() == 0 {
        0
    } else {
        digits_value(s.drop_last()) * 10 + s.last() as nat
    }
}

pub open spec fn pow10(n: nat) -> nat
    decreases n,
{
    if n == 0 {
        1
    } else {
        10 * pow10((n - 1) as nat)
    }
}

/// `s` incremented by one in its last place, with carries; a sequence of nines
/// turns into zeroes.
pub open spec fn increment_digits(s: Seq<u8>) -> Seq<u8> {
    let k = trailing_nines(s);
    if k == s.len() {
        zeros(s.len())
    } else {
        s.take(s.len() - k - 1).push((s[s.len() - k - 1] + 1) as u8) + zeros(k)
    }
}

/// Rounding of the (trimmed) significant digits `t` to `r` digits, half up.
/// Returns the new digits and by how much the exponent grows (0 or 1).
pub open spec fn rounded_digits(t: Seq<u8>, r: nat) -> (Seq<u8>, int) {
    if r >= t.len() {
        (t, 0)
    } else {
        let head = t.take(r as int);
        if t[r as int] >= 5 {
            if r > 0 && trailing_nines(head) == r {
                (seq![1u8], 1)
            } else {
                (trim_trailing(increment_digits(head)), 0)
            }
        } else {
            (trim_trailing(head), 0)
        }
    }
}

pub proof fn lemma_trailing_zeros_bound(s: Seq<u8>)
    ensures
        trailing_zeros(s) <= s.len(),
        forall|i: int| s.len() - trailing_zeros(s) <= i < s.len() ==> s[i] == 0,
        trailing_zeros(s) < s.len() ==> s[s.len() - trailing_zeros(s) - 1] != 0,
    decreases s.len(),
{
    if s.len() > 0 && s.last() == 0 {
        lemma_trailing_zeros_bound(s.drop_last());
        assert forall|i: int| s.len() - trailing_zeros(s) <= i < s.len() implies s[i] == 0 by {
            if i < s.len() - 1 {
                assert(s[i] == s.drop_last()[i]);
            }
        }
        if trailing_zeros(s) < s.len() {
            assert(s[s.len() - trailing_zeros(s) - 1] == s.drop_last()[s.drop_last().len() - trailing_zeros(s.drop_last()) - 1]);
        }
    }
}

proof fn lemma_trailing_nines_bound(s: Seq<u8>)
    ensures
        trailing_nines(s) <= s.len(),
        forall|i: int| s.len() - trailing_nines(s) <= i < s.len() ==> s[i] == 9,
        trailing_nines(s) < s.len() ==> s[s.len() - trailing_nines(s) - 1] != 9,
    decreases s.len(),
{
    if s.len() > 0 && s.last() == 9 {
        lemma_trailing_nines_bound(s.drop_last());
        assert forall|i: int| s.len() - trailing_nines(s) <= i < s.len() implies s[i] == 9 by {
            if i < s.len() - 1 {
                assert(s[i] == s.drop_last()[i]);
            }
        }
        if trailing_nines(s) < s.len() {
            assert(s[s.len() - trailing_nines(s) - 1] == s.drop_last()[s.drop_last().len() - trailing_nines(s.drop_last()) - 1]);
        }
    }
}

/// Without its leading zeroes, a sequence is empty or starts with a non-zero digit.
pub proof fn lemma_trim_leading_first(s: Seq<u8>)
    ensures
        trim_leading(s).len() == 0 || trim_leading(s)[0] != 0,
        all_digits(s) ==> all_digits(trim_leading(s)),
{
    lemma_leading_zeros_bound(s);
}

/// A sequence starting with a non-zero digit keeps it when trailing zeroes are dropped.
pub proof fn lemma_trim_trailing_first(s: Seq<u8>)
    requires
        s.len() > 0,
        s[0] != 0,
    ensures
        trim_trailing(s).len() > 0,
        trim_trailing(s)[0] == s[0],
{
    lemma_trailing_zeros_bound(s);
    if trailing_zeros(s) == s.len() {
        assert(s[0] == 0);
    }
}

/// Rounding digits that start with a non-zero digit gives digits without leading zeroes.
pub proof fn lemma_rounded_no_leading_zero(t: Seq<u8>, r: nat)
    requires
        all_digits(t),
        t.len() == 0 || t[0] != 0,
    ensures
        leading_zeros(rounded_digits(t, r).0) == 0,
{
    if r < t.len() {
        let head = t.take(r as int);
        if t[r as int] >= 5 {
            if r > 0 && trailing_nines(head) == r {
            } else if r == 0 {
                assert(increment_digits(head) =~= Seq::<u8>::empty());
                assert(trim_trailing(increment_digits(head)) =~= Seq::<u8>::empty());
            } else {
                lemma_trailing_nines_bound(head);
                let k = trailing_nines(head);
                let inc = increment_digits(head);
                assert(head[0] == t[0]);
                assert(inc[0] != 0) by {
                    if r - k - 1 > 0 {
                        assert(inc[0] == head[0]);
                    } else {
                        assert(head[r - k - 1] <= 9);
                        assert(inc[0] == (head[r - k - 1] + 1) as u8);
                    }
                }
                lemma_trim_trailing_first(inc);
            }
        } else if r > 0 {
            assert(head[0] == t[0]);
            lemma_trim_trailing_first(head);
        } else {
            assert(head.len() == 0);
            lemma_trailing_zeros_bound(head);
            assert(trim_trailing(head).len() == 0);
        }
    }
}

pub proof fn lemma_leading_zeros_bound(s: Seq<u8>)
    ensures
        leading_zeros(s) <= s.len(),
        forall|i: int| 0 <= i < leading_zeros(s) ==> s[i] == 0,
        leading_zeros(s) < s.len() ==> s[leading_zeros(s) as int] != 0,
    decreases s.len(),
{
    if s.len() > 0 && s[0] == 0 {
        lemma_leading_zeros_bound(s.drop_first());
        assert forall|i: int| 0 <= i < leading_zeros(s) implies s[i] == 0 by {
            if i > 0 {
                assert(s[i] == s.drop_first()[i - 1]);
            }
        }
        if leading_zeros(s) < s.len() {
            assert(s[leading_zeros(s) as int] == s.drop_first()[leading_zeros(s.drop_first()) as int]);
        }
    }
}

/// The trailing-zero count is determined by the zeroes at the end and the first non-zero before them.
proof fn lemma_trailing_zeros_char(s: Seq<u8>, k: nat)
    requires
        k <= s.len(),
        forall|i: int| s.len() - k <= i < s.len() ==> s[i] == 0,
        k == s.len() || s[s.len() - k - 1] != 0,
    ensures
        trailing_zeros(s) == k,
    decreases s.len(),
{
    if k > 0 {
        lemma_trailing_zeros_char(s.drop_last(), (k - 1) as nat);
    }
}

proof fn lemma_leading_zeros_char(s: Seq<u8>, k: nat)
    requires
        k <= s.len(),
        forall|i: int| 0 <= i < k ==> s[i] == 0,
        k == s.len() || s[k as int] != 0,
    ensures
        leading_zeros(s) == k,
    decreases s.len(),
{
    if k > 0 {
        assert forall|i: int| 0 <= i < k - 1 implies s.drop_first()[i] == 0 by {
            assert(s.drop_first()[i] == s[i + 1]);
        }
        if k < s.len() {
            assert(s.drop_first()[k - 1] == s[k as int]);
        }
        lemma_leading_zeros_char(s.drop_first(), (k - 1) as nat);
    }
}

proof fn lemma_trailing_nines_char(s: Seq<u8>, k: nat)
    requires
        k <= s.len(),
        forall|i: int| s.len() - k <= i < s.len() ==> s[i] == 9,
        k == s.len() || s[s.len() - k - 1] != 9,
    ensures
        trailing_nines(s) == k,
    decreases s.len(),
{
    if k > 0 {
        lemma_trailing_nines_char(s.drop_last(), (k - 1) as nat);
    }
}

/// Rounding never lengthens the digits, and keeps at most `r` of them (one, for `r` zero).
pub proof fn lemma_rounded_len(t: Seq<u8>, r: nat)
    ensures
        rounded_digits(t, r).0.len() <= t.len(),
        rounded_digits(t, r).0.len() <= r || rounded_digits(t, r).0.len() <= 1,
{
    if r < t.len() {
        let head = t.take(r as int);
        lemma_trailing_zeros_bound(head);
        lemma_trailing_nines_bound(head);
        lemma_trailing_zeros_bound(increment_digits(head));
    }
}

// ---------------------------------------------------------------------------
// Vector helpers
// ---------------------------------------------------------------------------

/// Removes the zeroes at the end of `v`.
fn pop_trailing_zeros(v: &mut Vec<u8>)
    ensures
        final(v)@ == trim_trailing(old(v)@),
{
    proof {
        lemma_trailing_zeros_bound(old(v)@);
    }
    while v.len() > 0 && v[v.len() - 1] == 0
        invariant
            v@ == old(v)@.take(v@.len() as int),
            old(v)@.len() - trailing_zeros(old(v)@) <= v@.len() <= old(v)@.len(),
            trailing_zeros(old(v)@) <= old(v)@.len(),
            forall|i: int| old(v)@.len() - trailing_zeros(old(v)@) <= i < old(v)@.len() ==> old(v)@[i] == 0,
            trailing_zeros(old(v)@) < old(v)@.len() ==> old(v)@[old(v)@.len() - trailing_zeros(old(v)@) - 1] != 0,
        decreases v.len(),
    {
        v.pop();
    }
    assert(v@ =~= trim_trailing(old(v)@));
}

/// Removes the zeroes at the start of `v`; returns how many were removed.
fn remove_leading_zeros(v: &mut Vec<u8>) -> (n: usize)
    ensures
        n == leading_zeros(old(v)@),
        final(v)@ == trim_leading(old(v)@),
{
    proof {
        lemma_leading_zeros_bound(old(v)@);
    }
    let mut n: usize = 0;
    let total = v.len();
    while v.len() > 0 && v[0] == 0
        invariant
            n <= leading_zeros(old(v)@),
            n + v@.len() == old(v)@.len(),
            total == old(v)@.len(),
            v@ == old(v)@.skip(n as int),
            leading_zeros(old(v)@) <= old(v)@.len(),
            forall|i: int| 0 <= i < leading_zeros(old(v)@) ==> old(v)@[i] == 0,
            leading_zeros(old(v)@) < old(v)@.len() ==> old(v)@[leading_zeros(old(v)@) as int] != 0,
        decreases v.len(),
    {
        v.remove(0);
        n = n + 1;
        assert(v@ =~= old(v)@.skip(n as int));
    }
    n
}

// ---------------------------------------------------------------------------
// Scientific numbers
// ---------------------------------------------------------------------------

/// A number `±0.d₁d₂…dₙ · 10^(exponent+1)`, i.e. `d₁.d₂…dₙ · 10^exponent`.
#[derive(Debug, PartialEq)]
pub struct ScientificNumber {
    pub negative: bool,
    /// Can be empty, in which case the number is 0
    pub base: Vec<u8>,
    pub exponent: i64,
}

impl ScientificNumber {
    /// Well-formed: only decimal digits.
    pub open spec fn wf(&self) -> bool {
        all_digits(self.base@)
    }

    /// Creates a new scientific number from its components; leading zeroes of `base`
    /// are dropped and the exponent lowered accordingly.
    /// * `negative` - Whether the number is negative
    /// * `base` - The significant digits of the number (e.g., \[1234\] for 1.234)
    /// * `exponent` - The exponent of the number (e.g., 0 for 1.234, 1 for 12.34, -1 for 0.1234)
    pub fn new(negative: bool, base: Vec<u8>, exponent: i64) -> (r: Self)
        requires
            exponent - leading_zeros(base@) >= i64::MIN,
        ensures
            r.negative == negative,
            r.base@ == trim_leading(base@),
            r.exponent == exponent - leading_zeros(base@),
            all_digits(base@) ==> r.wf(),
    {
        let mut base_vec = base;
        proof {
            lemma_leading_zeros_bound(base_vec@);
        }
        let n = remove_leading_zeros(&mut base_vec);
        let e: i64 = (exponent as i128 - n as i128) as i64;
        ScientificNumber { negative, base: base_vec, exponent: e }
    }

    /// Parses the format `[-]d[.ddd]e<exponent>` (as produced by float-to-string
    /// conversions); see `scientific_parts`.
    pub fn from_scientific_string(s: &str) -> (r: Option<Self>)
        requires
            scientific_text_defined(s@),
        ensures
            match scientific_parts(s@) {
                None => r is None,
                Some((negative, digits, b)) => r matches Some(x) && x.negative == negative
                    && x.base@ == trim_leading(digits) && x.exponent == b - leading_zeros(digits) && x.wf(),
            },
    {
        let chars = chars_of(s);
        let mut e_pos: usize = 0;
        while e_pos < chars.len() && chars[e_pos] != 'e'
            invariant
                e_pos <= chars.len(),
                chars@ == s@,
                first_position(s@, 'e', e_pos as int) == first_position(s@, 'e', 0),
            decreases chars.len() - e_pos,
        {
            e_pos = e_pos + 1;
        }
        if e_pos == chars.len() {
            return None;
        }
        let b = match parse_i64(&chars, e_pos + 1) {
            Some(b) => b,
            None => { return None; },
        };
        let mut a: Vec<char> = Vec::new();
        let mut i: usize = 0;
        while i < e_pos
            invariant
                i <= e_pos <= chars.len(),
                a@ == chars@.take(i as int),
            decreases e_pos - i,
        {
            a.push(chars[i]);
            i = i + 1;
        }
        let ghost a0 = a@;
        let first_char = if a.len() > 0 { Some(a[0]) } else { None };
        let negative = a.len() > 0 && a[0] == '-';
        if negative {
            a.remove(0);
        }
        assert(a@ == (if negative { a0.skip(1) } else { a0 }));
        if a.len() == 0 {
            return None;
        }
        if a.len() == 1 {
            let c = match first_char {
                Some(c) => c,
                None => { return None; },
            };
            if is_ascii_digit_exec(c) {
                let d: u8 = (c as u32 - 48) as u8;
                let mut v: Vec<u8> = Vec::new();
                v.push(d);
                assert(v@ =~= seq![(a0[0] as u32 - 48) as u8]);
                return Some(Self::new(negative, v, b));
            } else {
                return None;
            }
        }
        if a[1] == '.' {
            a.remove(1);
        } else {
            return None;
        }
        let ghost ra = if negative { a0.skip(1) } else { a0 };
        assert(a@ =~= ra.take(1) + ra.skip(2));
        assert(first_position(s@, 'e', 0) == e_pos);
        assert(a0 == s@.take(e_pos as int));
        let mut numbers: Vec<u8> = Vec::new();
        let mut j: usize = 0;
        while j < a.len()
            invariant
                j <= a.len(),
                first_position(s@, 'e', 0) == e_pos,
                i64_text(s@.skip(e_pos + 1)) == Some(b as int),
                a0 == s@.take(e_pos as int),
                negative == (a0.len() > 0 && a0[0] == '-'),
                ra == (if negative { a0.skip(1) } else { a0 }),
                ra.len() >= 2,
                ra[1] == '.',
                a@ == ra.take(1) + ra.skip(2),
                numbers@ == chars_to_digits(a@.take(j as int)),
                all_decimal_digits(a@.take(j as int)),
                all_digits(numbers@),
            decreases a.len() - j,
        {
            let c = a[j];
            if !is_ascii_digit_exec(c) {
                assert(!all_decimal_digits(a@)) by {
                    assert(!is_ascii_digit(a@[j as int]));
                }
                return None;
            }
            numbers.push((c as u32 - 48) as u8);
            assert(numbers@ =~= chars_to_digits(a@.take(j + 1)));
            assert(all_decimal_digits(a@.take(j + 1))) by {
                assert forall|k: int| 0 <= k < j + 1 implies #[trigger] is_ascii_digit(a@.take(j + 1)[k]) by {
                    if k < j {
                        assert(a@.take(j + 1)[k] == a@.take(j as int)[k]);
                    }
                }
            }
            j = j + 1;
        }
        assert(a@.take(j as int) =~= a@);
        Some(Self::new(negative, numbers, b))
    }
}

/// The position of the first `c` from `i` on, or -1.
pub open spec fn first_position(s: Seq<char>, c: char, i: int) -> int
    decreases s.len() - i,
{
    if i < 0 || i >= s.len() {
        -1
    } else if s[i] == c {
        i
    } else {
        first_position(s, c, i + 1)
    }
}

/// The parts of a text `[-]d[.ddd]e<exponent>`: the sign, the digits and the exponent.
/// Only the sign before a single digit is checked on the text with its sign, so `-5e3`
/// has no parts.
pub open spec fn scientific_parts(s: Seq<char>) -> Option<(bool, Seq<u8>, int)> {
    let k = first_position(s, 'e', 0);
    if k < 0 {
        None
    } else {
        match i64_text(s.skip(k + 1)) {
            None => None,
            Some(b) => {
                let a = s.take(k);
                let negative = a.len() > 0 && a[0] == '-';
                let ra = if negative { a.skip(1) } else { a };
                if ra.len() == 0 {
                    None
                } else if ra.len() == 1 {
                    if is_ascii_digit(a[0]) { Some((negative, seq![(a[0] as u32 - 48) as u8], b)) } else { None }
                } else if ra[1] != '.' {
                    None
                } else {
                    let ds = ra.take(1) + ra.skip(2);
                    if all_decimal_digits(ds) { Some((negative, chars_to_digits(ds), b)) } else { None }
                }
            },
        }
    }
}

/// The texts on which the parsing does not panic: no character of more than one byte
/// before the dot, and an exponent that stays in range once the leading zeroes are dropped.
pub open spec fn scientific_text_defined(s: Seq<char>) -> bool {
    let k = first_position(s, 'e', 0);
    let a = s.take(k);
    let negative = a.len() > 0 && a[0] == '-';
    let ra = if negative { a.skip(1) } else { a };
    &&& (k >= 0 && ra.len() >= 2 && ra[1] == '.' ==> (ra[0] as u32) < 0x80)
    &&& (scientific_parts(s) matches Some((_, digits, b)) ==> b - leading_zeros(digits) >= i64::MIN)
}

/// The value of a sequence of decimal digit characters.
pub open spec fn decimal_value(s: Seq<char>) -> int
    decreases s.len(),
{
    if s.len() == 0 {
        0
    } else {
        decimal_value(s.drop_last()) * 10 + (s.last() as int - 48)
    }
}

/// The text without a leading sign.
pub open spec fn unsigned_part(s: Seq<char>) -> Seq<char> {
    if s.len() > 0 && (s[0] == '-' || s[0] == '+') { s.skip(1) } else { s }
}

pub open spec fn all_decimal_digits(t: Seq<char>) -> bool {
    forall|i: int| 0 <= i < t.len() ==> #[trigger] is_ascii_digit(t[i])
}

/// What `str::parse::<i64>` gives for a text: an optional sign, at least one decimal digit
/// and nothing else, within the range of `i64`.
pub open spec fn i64_text(s: Seq<char>) -> Option<int> {
    let negative = s.len() > 0 && s[0] == '-';
    let body = unsigned_part(s);
    if body.len() == 0 || !all_decimal_digits(body) {
        None
    } else {
        let v = if negative { -decimal_value(body) } else { decimal_value(body) };
        if i64::MIN <= v <= i64::MAX { Some(v) } else { None }
    }
}

proof fn lemma_decimal_value_prefix(s: Seq<char>, k: int)
    requires
        0 <= k <= s.len(),
        forall|i: int| 0 <= i < s.len() ==> #[trigger] is_ascii_digit(s[i]),
    ensures
        decimal_value(s.take(k)) <= decimal_value(s),
        decimal_value(s) >= 0,
    decreases s.len(),
{
    if s.len() > 0 {
        let t = s.drop_last();
        assert forall|i: int| 0 <= i < t.len() implies #[trigger] is_ascii_digit(t[i]) by {
            assert(t[i] == s[i]);
        }
        if k == s.len() {
            assert(s.take(k) =~= s);
            lemma_decimal_value_prefix(t, 0);
        } else {
            assert(t.take(k) =~= s.take(k));
            lemma_decimal_value_prefix(t, k);
        }
        assert(is_ascii_digit(s.last()));
    } else {
        assert(s.take(k) =~= s);
    }
}

proof fn lemma_i64_text_none(s: Seq<char>, body: Seq<char>, k: int)
    requires
        body == unsigned_part(s),
        (0 <= k < body.len() && !is_ascii_digit(body[k]))
            || ((forall|j: int| 0 <= j < body.len() ==> #[trigger] is_ascii_digit(body[j])) && decimal_value(body) > 9223372036854775808),
    ensures
        i64_text(s) is None,
{
    let negative = s.len() > 0 && s[0] == '-';
    if 0 <= k < body.len() && !is_ascii_digit(body[k]) {
        assert(!(forall|j: int| 0 <= j < body.len() ==> #[trigger] is_ascii_digit(body[j])));
    } else {
        let v = if negative { -decimal_value(body) } else { decimal_value(body) };
        assert(!(i64::MIN <= v <= i64::MAX));
    }
}

/// Parses an optionally signed decimal integer from `chars[start..]`, as `str::parse::<i64>` does.
pub fn parse_i64(chars: &Vec<char>, start: usize) -> (r: Option<i64>)
    requires
        start <= chars.len(),
    ensures
        match r {
            Some(v) => i64_text(chars@.skip(start as int)) == Some(v as int),
            None => i64_text(chars@.skip(start as int)) is None,
        },
{
    let ghost s = chars@.skip(start as int);
    if start >= chars.len() {
        return None;
    }
    let mut i = start;
    let mut negative = false;
    if chars[i] == '-' {
        negative = true;
        i = i + 1;
    } else if chars[i] == '+' {
        i = i + 1;
    }
    let ghost b0 = i;
    let ghost body = chars@.skip(b0 as int);
    assert(body =~= unsigned_part(s));
    if i >= chars.len() {
        return None;
    }
    let mut value: i128 = 0;
    while i < chars.len()
        invariant
            b0 <= i <= chars.len(),
            start <= b0,
            b0 < chars.len(),
            s == chars@.skip(start as int),
            body == chars@.skip(b0 as int),
            body == unsigned_part(s),
            negative == (s.len() > 0 && s[0] == '-'),
            0 <= value <= 9223372036854775808,
            value == decimal_value(body.take(i - b0)),
            forall|j: int| 0 <= j < i - b0 ==> #[trigger] is_ascii_digit(body[j]),
        decreases chars.len() - i,
    {
        let c = chars[i];
        assert(body[i - b0] == c);
        if !is_ascii_digit_exec(c) {
            assert(!is_ascii_digit(body[i - b0]));
            assert(body.len() == chars@.len() - b0);
            proof { lemma_i64_text_none(s, body, i - b0); }
            return None;
        }
        let d = (c as u32 - 48) as i128;
        assert(body.take(i - b0 + 1).drop_last() =~= body.take(i - b0));
        assert(body.take(i - b0 + 1).last() == c);
        value = value * 10 + d;
        assert(value == decimal_value(body.take(i - b0 + 1)));
        if value > 9223372036854775808 {
            proof {
                if forall|j: int| 0 <= j < body.len() ==> #[trigger] is_ascii_digit(body[j]) {
                    lemma_decimal_value_prefix(body, i - b0 + 1);
                    assert(decimal_value(body) > 9223372036854775808);
                    lemma_i64_text_none(s, body, 0);
                } else {
                    let k = choose|j: int| 0 <= j < body.len() && !is_ascii_digit(#[trigger] body[j]);
                    lemma_i64_text_none(s, body, k);
                }
            }
            return None;
        }
        i = i + 1;
    }
    assert(body.take(i - b0) =~= body);
    if negative {
        Some((-value) as i64)
    } else if value > 9223372036854775807 {
        None
    } else {
        Some(value as i64)
    }
}

/// Copies `v[from..to]`.
fn copy_range(v: &Vec<u8>, from: usize, to: usize) -> (r: Vec<u8>)
    requires
        from <= to <= v@.len(),
    ensures
        r@ == v@.subrange(from as int, to as int),
{
    let mut r: Vec<u8> = Vec::new();
    let mut i = from;
    while i < to
        invariant
            from <= i <= to <= v@.len(),
            r@ == v@.subrange(from as int, i as int),
        decreases to - i,
    {
        r.push(v[i]);
        i = i + 1;
    }
    r
}

/// Rounds the given vector of digits to the specified number of significant digits (half up)
/// and removes leading and trailing zeroes; the exponent follows the leading digit.
/// Returns the digits and whether digits were cut off.
pub fn round_decimals_vec(round_to_decimals: usize, exponent: &mut i64, vec: &Vec<u8>) -> (res: (Vec<u8>, bool))
    requires
        all_digits(vec@),
        *old(exponent) - leading_zeros(trim_trailing(vec@)) >= i64::MIN,
        *old(exponent) < i64::MAX,
    ensures
        ({
            let t = trim_leading(trim_trailing(vec@));
            let e1 = *old(exponent) - leading_zeros(trim_trailing(vec@));
            let rd = rounded_digits(t, round_to_decimals as nat);
            &&& res.0@ == rd.0
            &&& *final(exponent) == e1 + rd.1
            &&& res.1 == (round_to_decimals < t.len())
        }),
        all_digits(res.0@),
{
    let ghost old_exp = *exponent;
    let mut v = vec.clone();
    assert(v@ == vec@);
    pop_trailing_zeros(&mut v);
    let ghost tt = v@;
    proof {
        lemma_trailing_zeros_bound(vec@);
        lemma_leading_zeros_bound(tt);
    }
    let n = remove_leading_zeros(&mut v);
    let ghost t = v@;
    assert(all_digits(t)) by {
        assert forall|j: int| 0 <= j < t.len() implies #[trigger] t[j] <= 9 by {
            assert(t[j] == vec@[j + n]);
        }
    }
    *exponent = (*exponent as i128 - n as i128) as i64;
    if round_to_decimals >= v.len() {
        return (v, false);
    }
    let r = round_to_decimals;
    let ghost head = t.take(r as int);
    let mut numbers = copy_range(&v, 0, r + 1);
    assert(numbers@ =~= head.push(t[r as int]));
    if numbers[r] >= 5 {
        let mut i = r;
        let mut done = false;
        while i > 0 && !done
            invariant
                0 <= i <= r < t.len(),
                head == t.take(r as int),
                all_digits(t),
                numbers@.len() == r + 1,
                numbers@[r as int] == t[r as int],
                !done ==> forall|j: int| 0 <= j < i ==> #[trigger] numbers@[j] == head[j],
                !done ==> forall|j: int| i <= j < r ==> #[trigger] numbers@[j] == 0 && head[j] == 9,
                done ==> numbers@.take(r as int) == increment_digits(head),
                done ==> trailing_nines(head) < r,
            decreases i,
        {
            i = i - 1;
            let ghost prev = numbers@;
            assert(head[i as int] == t[i as int]);
            assert(prev[i as int] == head[i as int]);
            if numbers[i] == 9 {
                numbers.set(i, 0);
                assert(head[i as int] == 9);
                assert(numbers@[i as int] == 0);
                assert forall|j: int| i < j < r implies numbers@[j] == 0 && head[j] == 9 by {
                    assert(numbers@[j] == prev[j]);
                    assert(prev[j] == 0);
                }
            } else {
                let d = numbers[i];
                numbers.set(i, d + 1);
                done = true;
                proof {
                    let k = (r - i - 1) as nat;
                    assert forall|j: int| head.len() - k <= j < head.len() implies head[j] == 9 by {
                        assert(prev[j] == 0);
                    }
                    lemma_trailing_nines_char(head, k);
                    let inc = head.take(r - k - 1).push((head[r - k - 1] + 1) as u8) + zeros(k);
                    let first = head.take(r - k - 1).push((head[r - k - 1] + 1) as u8);
                    assert(first.len() == i + 1);
                    assert forall|j: int| 0 <= j < r implies numbers@.take(r as int)[j] == inc[j] by {
                        if j < i {
                            assert(numbers@[j] == prev[j]);
                            assert(inc[j] == first[j]);
                            assert(first[j] == head[j]);
                        } else if j > i {
                            assert(numbers@[j] == prev[j]);
                            assert(inc[j] == zeros(k)[j - i - 1]);
                        } else {
                            assert(inc[j] == first[j]);
                        }
                    }
                    assert(numbers@.take(r as int) =~= inc);
                }
            }
        }
        if !done && r > 0 {
            proof {
                assert forall|j: int| head.len() - r <= j < head.len() implies head[j] == 9 by {
                    assert(numbers@[j] == 0);
                }
                lemma_trailing_nines_char(head, r as nat);
            }
            let ghost before_insert = numbers@;
            numbers.insert(0, 1);
            *exponent = *exponent + 1;
            numbers.pop();
            assert forall|j: int| 0 <= j < r + 1 implies numbers@[j] == (seq![1u8] + zeros(r as nat))[j] by {
                if j > 0 {
                    assert(numbers@[j] == before_insert[j - 1]);
                    assert((seq![1u8] + zeros(r as nat))[j] == zeros(r as nat)[j - 1]);
                }
            }
            assert(numbers@ =~= seq![1u8] + zeros(r as nat));
            pop_trailing_zeros(&mut numbers);
            proof {
                lemma_trailing_zeros_char(seq![1u8] + zeros(r as nat), r as nat);
                assert(numbers@ =~= seq![1u8]);
                assert(all_digits(numbers@));
            }
            return (numbers, true);
        }
        proof {
            if !done {
                assert(r == 0);
            }
        }
        numbers.pop();
        assert(numbers@ =~= increment_digits(head));
        proof {
            lemma_trailing_nines_bound(head);
            let k = trailing_nines(head);
            assert(all_digits(increment_digits(head))) by {
                assert forall|j: int| 0 <= j < increment_digits(head).len() implies #[trigger] increment_digits(head)[j] <= 9 by {
                    if j < head.len() - k - 1 {
                        assert(increment_digits(head)[j] == head[j]);
                    }
                }
            }
        }
    } else {
        numbers.pop();
        assert(numbers@ =~= head);
    }
    let ghost before = numbers@;
    pop_trailing_zeros(&mut numbers);
    proof {
        lemma_trailing_zeros_bound(before);
        assert forall|j: int| 0 <= j < numbers@.len() implies #[trigger] numbers@[j] <= 9 by {
            assert(numbers@[j] == before[j]);
        }
    }
    (numbers, true)
}

/// `"-"` for negative numbers, nothing otherwise.
pub open spec fn sign_prefix(negative: bool) -> Seq<char> {
    if negative { seq!['-'] } else { Seq::<char>::empty() }
}

/// `s` with a `'.'` inserted before position `pos`.
pub open spec fn insert_dot(s: Seq<char>, pos: int) -> Seq<char> {
    s.take(pos) + seq!['.'] + s.skip(pos)
}

/// Inserts `,` between groups of three characters, counted from the right.
pub open spec fn group_thousands(a: Seq<char>) -> Seq<char>
    decreases a.len(),
{
    if a.len() <= 3 {
        a
    } else {
        group_thousands(a.take(a.len() - 3)) + seq![','] + a.skip(a.len() - 3)
    }
}

/// Scientific notation `[-]d[.ddd]e<exponent>`.
pub open spec fn scientific_string(rounded: Seq<u8>, e: int, negative: bool) -> Seq<char> {
    let d = digits_to_chars(rounded);
    let body = if d.len() > 1 { insert_dot(d, 1) } else { d };
    sign_prefix(negative) + body + seq!['e'] + int_to_decimal(e)
}

/// Regular notation, padded with zeroes where the exponent asks for them.
pub open spec fn regular_string(rounded: Seq<u8>, e: int, negative: bool, thousands_separator: bool) -> Seq<char> {
    if e < 0 {
        let z = digits_to_chars(zeros((-e) as nat) + rounded);
        sign_prefix(negative) + insert_dot(z, 1)
    } else if e == 0 {
        let d = digits_to_chars(rounded);
        sign_prefix(negative) + (if d.len() > 1 { insert_dot(d, 1) } else { d })
    } else {
        let add = e - rounded.len() + 1;
        let digits = if add > 0 { rounded + zeros(add as nat) } else { rounded };
        let s0 = digits_to_chars(digits);
        let s1 = if s0.len() > 1 && add < 0 { insert_dot(s0, e + 1) } else { s0 };
        let s2 = if thousands_separator {
            let full = if e + 1 < digits.len() { e + 1 } else { digits.len() as int };
            group_thousands(s1.take(full)) + s1.skip(full)
        } else {
            s1
        };
        sign_prefix(negative) + s2
    }
}

/// Whether a number is printed in scientific notation: the exponent is beyond the
/// non-scientific range, unless it is positive and all digits stand before the point.
pub open spec fn prints_scientific(rounded_len: nat, e: int, non_scientific_decimals: usize) -> bool {
    let abs = if e < 0 { -e } else { e };
    abs > non_scientific_decimals && !(e > 0 && rounded_len > e)
}

/// The full text of a scientific number under the given options.
pub open spec fn scientific_number_text(base: Seq<u8>, exponent: int, negative: bool, options: FormattingOptions) -> Seq<char> {
    let r: nat = if options.round_to_decimals >= 1 { options.round_to_decimals as nat } else { 1 };
    let t = trim_leading(trim_trailing(base));
    let e1 = exponent - leading_zeros(trim_trailing(base));
    let rd = rounded_digits(t, r);
    let e = e1 + rd.1;
    if rd.0.len() == 0 {
        seq!['0']
    } else if prints_scientific(rd.0.len(), e, options.non_scientific_decimals) {
        scientific_string(rd.0, e, negative)
    } else {
        regular_string(rd.0, e, negative, options.thousands_separator)
    }
}

fn push_digits(out: &mut Vec<char>, digits: &Vec<u8>)
    requires
        all_digits(digits@),
    ensures
        final(out)@ == old(out)@ + digits_to_chars(digits@),
{
    let mut i: usize = 0;
    while i < digits.len()
        invariant
            i <= digits@.len(),
            all_digits(digits@),
            out@ == old(out)@ + digits_to_chars(digits@.take(i as int)),
        decreases digits.len() - i,
    {
        let d = digits[i];
        out.push(digit_char_exec(d));
        i = i + 1;
        assert(digits_to_chars(digits@.take(i as int)) =~= digits_to_chars(digits@.take((i - 1) as int)).push(digit_char(d)));
    }
    assert(digits@.take(i as int) =~= digits@);
}

fn insert_dot_exec(s: &Vec<char>, pos: usize) -> (r: Vec<char>)
    requires
        pos <= s@.len(),
    ensures
        r@ == insert_dot(s@, pos as int),
{
    let mut r: Vec<char> = Vec::new();
    let mut i: usize = 0;
    while i < s.len()
        invariant
            i <= s@.len(),
            pos <= s@.len(),
            r@ == (if i <= pos { s@.take(i as int) } else { s@.take(pos as int) + seq!['.'] + s@.subrange(pos as int, i as int) }),
        decreases s.len() - i,
    {
        if i == pos {
            r.push('.');
        }
        r.push(s[i]);
        i = i + 1;
        proof {
            if i <= pos {
                assert(r@ =~= s@.take(i as int));
            } else {
                assert(r@ =~= s@.take(pos as int) + seq!['.'] + s@.subrange(pos as int, i as int));
            }
        }
    }
    if pos == s.len() {
        r.push('.');
    }
    assert(r@ =~= insert_dot(s@, pos as int));
    r
}

fn group_thousands_exec(a: &Vec<char>) -> (r: Vec<char>)
    ensures
        r@ == group_thousands(a@),
    decreases a@.len(),
{
    if a.len() <= 3 {
        return a.clone();
    }
    let cut = a.len() - 3;
    let mut left: Vec<char> = Vec::new();
    let mut i: usize = 0;
    while i < cut
        invariant
            i <= cut < a@.len(),
            left@ == a@.take(i as int),
        decreases cut - i,
    {
        left.push(a[i]);
        i = i + 1;
    }
    let mut r = group_thousands_exec(&left);
    r.push(',');
    let mut j = cut;
    while j < a.len()
        invariant
            cut <= j <= a@.len(),
            cut == a@.len() - 3,
            r@ == group_thousands(a@.take(cut as int)) + seq![','] + a@.subrange(cut as int, j as int),
        decreases a.len() - j,
    {
        r.push(a[j]);
        j = j + 1;
        assert(r@ =~= group_thousands(a@.take(cut as int)) + seq![','] + a@.subrange(cut as int, j as int));
    }
    assert(a@.subrange(cut as int, a@.len() as int) =~= a@.skip(cut as int));
    r
}

fn push_all(out: &mut Vec<char>, s: &Vec<char>)
    ensures
        final(out)@ == old(out)@ + s@,
{
    let mut i: usize = 0;
    while i < s.len()
        invariant
            i <= s@.len(),
            out@ == old(out)@ + s@.take(i as int),
        decreases s.len() - i,
    {
        out.push(s[i]);
        i = i + 1;
        assert(s@.take(i as int) =~= s@.take((i - 1) as int).push(s@[i - 1]));
    }
    assert(s@.take(i as int) =~= s@);
}

impl ScientificNumber {
    /// `[-]d[.ddd]e<exponent>`
    pub fn create_scientific_string(rounded: &Vec<u8>, modified_exponent: i64, negative: bool) -> (r: Vec<char>)
        requires
            all_digits(rounded@),
        ensures
            r@ == scientific_string(rounded@, modified_exponent as int, negative),
    {
        let mut d: Vec<char> = Vec::new();
        push_digits(&mut d, rounded);
        assert(d@ == digits_to_chars(rounded@));
        let body = if d.len() > 1 { insert_dot_exec(&d, 1) } else { d };
        let mut out: Vec<char> = Vec::new();
        if negative {
            out.push('-');
        }
        assert(out@ == sign_prefix(negative));
        push_all(&mut out, &body);
        out.push('e');
        push_int_decimal(&mut out, modified_exponent);
        out
    }

    /// Regular (non-scientific) notation, with thousands separators when the options ask for them.
    pub fn create_regular_string(rounded: Vec<u8>, modified_exponent: i64, negative: bool, formatting: FormattingOptions) -> (r: Vec<char>)
        requires
            all_digits(rounded@),
            modified_exponent > i64::MIN,
            modified_exponent < 0x4000_0000,
            rounded@.len() < 0x4000_0000,
        ensures
            r@ == regular_string(rounded@, modified_exponent as int, negative, formatting.thousands_separator),
    {
        let mut out: Vec<char> = Vec::new();
        if negative {
            out.push('-');
        }
        assert(out@ == sign_prefix(negative));
        if modified_exponent < 0 {
            let n = (-modified_exponent) as u64;
            let mut z: Vec<u8> = Vec::new();
            let mut i: u64 = 0;
            while i < n
                invariant
                    i <= n,
                    z@ == zeros(i as nat),
                decreases n - i,
            {
                z.push(0);
                i = i + 1;
                assert(z@ =~= zeros(i as nat));
            }
            let mut k: usize = 0;
            while k < rounded.len()
                invariant
                    k <= rounded@.len(),
                    z@ == zeros(n as nat) + rounded@.take(k as int),
                decreases rounded.len() - k,
            {
                z.push(rounded[k]);
                k = k + 1;
                assert(z@ =~= zeros(n as nat) + rounded@.take(k as int));
            }
            assert(rounded@.take(k as int) =~= rounded@);
            assert(all_digits(z@)) by {
                assert forall|j: int| 0 <= j < z@.len() implies #[trigger] z@[j] <= 9 by {
                    if j >= n {
                        assert(z@[j] == rounded@[j - n]);
                    }
                }
            }
            let mut zc: Vec<char> = Vec::new();
            push_digits(&mut zc, &z);
            assert(zc@ == digits_to_chars(z@));
            let dotted = insert_dot_exec(&zc, 1);
            push_all(&mut out, &dotted);
            out
        } else if modified_exponent == 0 {
            let mut d: Vec<char> = Vec::new();
            push_digits(&mut d, &rounded);
            assert(d@ == digits_to_chars(rounded@));
            let body = if d.len() > 1 { insert_dot_exec(&d, 1) } else { d };
            push_all(&mut out, &body);
            out
        } else {
            let add: i64 = modified_exponent - rounded.len() as i64 + 1;
            let mut digits = rounded;
            if add > 0 {
                let mut i: i64 = 0;
                let ghost r0 = digits@;
                while i < add
                    invariant
                        0 <= i <= add,
                        digits@ == r0 + zeros(i as nat),
                    decreases add - i,
                {
                    digits.push(0);
                    i = i + 1;
                    assert(digits@ =~= r0 + zeros(i as nat));
                }
                assert(all_digits(digits@)) by {
                    assert forall|j: int| 0 <= j < digits@.len() implies #[trigger] digits@[j] <= 9 by {
                        if j < r0.len() {
                            assert(digits@[j] == r0[j]);
                        }
                    }
                }
            }
            let mut s0: Vec<char> = Vec::new();
            push_digits(&mut s0, &digits);
            assert(s0@ == digits_to_chars(digits@));
            let s1 = if s0.len() > 1 && add < 0 {
                insert_dot_exec(&s0, (modified_exponent + 1) as usize)
            } else {
                s0
            };
            if formatting.thousands_separator {
                let e1: usize = (modified_exponent + 1) as usize;
                let full = if e1 < digits.len() { e1 } else { digits.len() };
                let mut a: Vec<char> = Vec::new();
                let mut i: usize = 0;
                while i < full
                    invariant
                        i <= full <= s1@.len(),
                        a@ == s1@.take(i as int),
                    decreases full - i,
                {
                    a.push(s1[i]);
                    i = i + 1;
                }
                let grouped = group_thousands_exec(&a);
                push_all(&mut out, &grouped);
                let mut j = full;
                let ghost before = out@;
                while j < s1.len()
                    invariant
                        full <= j <= s1@.len(),
                        out@ == before + s1@.subrange(full as int, j as int),
                    decreases s1.len() - j,
                {
                    out.push(s1[j]);
                    j = j + 1;
                    assert(out@ =~= before + s1@.subrange(full as int, j as int));
                }
                assert(s1@.subrange(full as int, s1@.len() as int) =~= s1@.skip(full as int));
            } else {
                push_all(&mut out, &s1);
            }
            out
        }
    }

    pub open spec fn text(&self, options: FormattingOptions) -> Seq<char> {
        scientific_number_text(self.base@, self.exponent as int, self.negative, options)
    }

    /// Whether the rounded digits are printed in scientific notation.
    pub fn should_print_scientific(rounded: &Vec<u8>, exponent: i64, options: FormattingOptions) -> (b: bool)
        requires
            exponent > i64::MIN,
        ensures
            b == prints_scientific(rounded@.len(), exponent as int, options.non_scientific_decimals),
    {
        let abs: u64 = if exponent < 0 { (-exponent) as u64 } else { exponent as u64 };
        (abs as u128) > (options.non_scientific_decimals as u128)
            && !(exponent > 0 && (rounded.len() as u128) > (exponent as u128))
    }

    /// Converts the scientific number to a string with the given formatting options.
    pub fn to_string(&self, options: FormattingOptions) -> (s: String)
        requires
            self.wf(),
            self.exponent - self.base@.len() > i64::MIN,
            self.exponent < i64::MAX,
            self.base@.len() < 0x4000_0000,
            options.non_scientific_decimals < 0x4000_0000,
        ensures
            s@ == self.text(options),
    {
        let round_to_decimals = if options.round_to_decimals >= 1 { options.round_to_decimals } else { 1 };
        let mut modified_exponent = self.exponent;
        proof {
            lemma_trailing_zeros_bound(self.base@);
            lemma_leading_zeros_bound(trim_trailing(self.base@));
            lemma_rounded_len(trim_leading(trim_trailing(self.base@)), round_to_decimals as nat);
        }
        let (rounded, _has_rounded) = round_decimals_vec(round_to_decimals, &mut modified_exponent, &self.base);
        if rounded.len() == 0 {
            let mut v: Vec<char> = Vec::new();
            v.push('0');
            return string_of(&v);
        }
        let v = if Self::should_print_scientific(&rounded, modified_exponent, options) {
            Self::create_scientific_string(&rounded, modified_exponent, self.negative)
        } else {
            Self::create_regular_string(rounded, modified_exponent, self.negative, options)
        };
        string_of(&v)
    }
}
/// Digits with at least one non-zero digit round to at least one digit.
proof fn lemma_rounded_not_empty(b: Seq<u8>, r: nat, j: int)
    requires
        all_digits(b),
        0 <= j < b.len(),
        b[j] != 0,
        r >= 1,
    ensures
        rounded_digits(trim_leading(trim_trailing(b)), r).0.len() > 0,
{
    lemma_trailing_zeros_bound(b);
    let tt = trim_trailing(b);
    assert(trailing_zeros(b) < b.len()) by {
        if trailing_zeros(b) == b.len() {
            assert(b[j] == 0);
        }
    }
    let last = b.len() - trailing_zeros(b) - 1;
    assert(tt[last] != 0);
    lemma_leading_zeros_bound(tt);
    assert(leading_zeros(tt) < tt.len()) by {
        if leading_zeros(tt) == tt.len() {
            assert(tt[last] == 0);
        }
    }
    let t = trim_leading(tt);
    lemma_trim_leading_first(tt);
    assert(t.len() > 0);
    assert(all_digits(tt));
    assert(all_digits(t));
    if r < t.len() {
        let head = t.take(r as int);
        assert(head[0] == t[0]);
        if t[r as int] >= 5 {
            if trailing_nines(head) != r {
                lemma_trailing_nines_bound(head);
                let k = trailing_nines(head);
                let inc = increment_digits(head);
                assert(head[r - k - 1] != 9);
                assert(head[r - k - 1] <= 9);
                if r - k - 1 == 0 {
                    assert(inc[0] == (head[0] + 1) as u8);
                } else {
                    assert(inc[0] == head[0]);
                }
                assert(inc.len() > 0);
                lemma_trim_trailing_first(inc);
            }
        } else {
            lemma_trim_trailing_first(head);
        }
    }
}

/// The text of a negative number is `-` followed by the text of its absolute value,
/// wherever the number has a digit other than zero (zero prints as `0` either way).
pub proof fn law_negative_text_is_minus_and_positive(base: Seq<u8>, exponent: int, options: FormattingOptions)
    requires
        all_digits(base),
        exists|j: int| 0 <= j < base.len() && base[j] != 0,
    ensures
        scientific_number_text(base, exponent, true, options) == seq!['-'] + scientific_number_text(base, exponent, false, options),
{
    let j = choose|j: int| 0 <= j < base.len() && base[j] != 0;
    let r: nat = if options.round_to_decimals >= 1 { options.round_to_decimals as nat } else { 1 };
    lemma_rounded_not_empty(base, r, j);
    let t = trim_leading(trim_trailing(base));
    let e1 = exponent - leading_zeros(trim_trailing(base));
    let rd = rounded_digits(t, r);
    let e = e1 + rd.1;
    if prints_scientific(rd.0.len(), e, options.non_scientific_decimals) {
        let d = digits_to_chars(rd.0);
        let body = if d.len() > 1 { insert_dot(d, 1) } else { d };
        assert(scientific_string(rd.0, e, true) =~= seq!['-'] + scientific_string(rd.0, e, false));
    } else {
        assert(regular_string(rd.0, e, true, options.thousands_separator) =~= seq!['-'] + regular_string(rd.0, e, false, options.thousands_separator));
    }
}

proof fn lemma_digit_char_value(d: u8)
    requires
        d <= 9,
    ensures
        is_ascii_digit(digit_char(d)),
        digit_char(d) as int - 48 == d,
        (digit_char(d) as u32 - 48) as u8 == d,
        digit_char(d) != '-' && digit_char(d) != '+' && digit_char(d) != 'e' && digit_char(d) != '.',
{
}

/// The decimal text of `n` is digits only and reads back as `n`.
proof fn lemma_nat_to_decimal_value(n: nat)
    ensures
        nat_to_decimal(n).len() > 0,
        all_decimal_digits(nat_to_decimal(n)),
        decimal_value(nat_to_decimal(n)) == n,
    decreases n,
{
    if n < 10 {
        lemma_digit_char_value(n as u8);
        assert(nat_to_decimal(n).drop_last() =~= Seq::<char>::empty());
        assert(decimal_value(nat_to_decimal(n)) == decimal_value(Seq::<char>::empty()) * 10 + (nat_to_decimal(n).last() as int - 48));
    } else {
        lemma_nat_to_decimal_value(n / 10);
        lemma_digit_char_value((n % 10) as u8);
        let s = nat_to_decimal(n);
        assert(s.drop_last() =~= nat_to_decimal(n / 10));
        assert(n == (n / 10) * 10 + n % 10) by (nonlinear_arith);
        assert(decimal_value(s) == decimal_value(s.drop_last()) * 10 + (s.last() as int - 48));
        assert forall|i: int| 0 <= i < s.len() implies #[trigger] is_ascii_digit(s[i]) by {
            if i < s.len() - 1 {
                assert(s[i] == nat_to_decimal(n / 10)[i]);
            }
        }
    }
}

/// The decimal text of an integer in the range of `i64` reads back as that integer.
proof fn lemma_int_to_decimal_reads_back(i: int)
    requires
        i64::MIN <= i <= i64::MAX,
    ensures
        i64_text(int_to_decimal(i)) == Some(i),
        forall|j: int| 0 <= j < int_to_decimal(i).len() ==> #[trigger] int_to_decimal(i)[j] != 'e',
{
    let s = int_to_decimal(i);
    if i < 0 {
        lemma_nat_to_decimal_value((-i) as nat);
        let t = nat_to_decimal((-i) as nat);
        assert(s.skip(1) =~= t);
        assert(unsigned_part(s) == t);
        assert forall|j: int| 0 <= j < s.len() implies #[trigger] s[j] != 'e' by {
            if j > 0 {
                assert(s[j] == t[j - 1]);
                assert(is_ascii_digit(t[j - 1]));
            }
        }
    } else {
        lemma_nat_to_decimal_value(i as nat);
        assert(is_ascii_digit(s[0]));
        assert(unsigned_part(s) == s);
        assert forall|j: int| 0 <= j < s.len() implies #[trigger] s[j] != 'e' by {
            assert(is_ascii_digit(s[j]));
        }
    }
}

proof fn lemma_first_position_at(s: Seq<char>, c: char, i: int, k: int)
    requires
        0 <= i <= k < s.len(),
        s[k] == c,
        forall|j: int| i <= j < k ==> s[j] != c,
    ensures
        first_position(s, c, i) == k,
    decreases k - i,
{
    if i < k {
        lemma_first_position_at(s, c, i + 1, k);
    }
}

/// Reading a printed scientific text gives back its sign, its digits and its exponent;
/// a negative number of a single digit is the exception, as `-5e3` has no parts.
pub proof fn law_scientific_text_reads_back(digits: Seq<u8>, exponent: int, negative: bool)
    requires
        all_digits(digits),
        digits.len() >= 1,
        !(negative && digits.len() == 1),
        i64::MIN <= exponent <= i64::MAX,
    ensures
        scientific_parts(scientific_string(digits, exponent, negative)) == Some((negative, digits, exponent)),
        exponent - leading_zeros(digits) >= i64::MIN ==> scientific_text_defined(scientific_string(digits, exponent, negative)),
{
    let d = digits_to_chars(digits);
    assert forall|j: int| 0 <= j < d.len() implies #[trigger] is_ascii_digit(d[j]) && d[j] != 'e' && d[j] != '-' && (d[j] as u32) < 0x80 by {
        lemma_digit_char_value(digits[j]);
    }
    let body = if d.len() > 1 { insert_dot(d, 1) } else { d };
    let s = scientific_string(digits, exponent, negative);
    let pre = sign_prefix(negative) + body;
    lemma_int_to_decimal_reads_back(exponent);
    assert(s =~= pre + seq!['e'] + int_to_decimal(exponent));
    let k = pre.len() as int;
    assert forall|j: int| 0 <= j < k implies s[j] != 'e' by {
        assert(s[j] == pre[j]);
        if negative && j == 0 {
        } else {
            let bj = if negative { j - 1 } else { j };
            assert(pre[j] == body[bj]);
            if d.len() > 1 {
                if bj == 1 {
                } else if bj == 0 {
                    assert(body[bj] == d[0]);
                } else {
                    assert(body[bj] == d[bj - 1]);
                }
            } else {
                assert(body[bj] == d[bj]);
            }
        }
    }
    lemma_first_position_at(s, 'e', 0, k);
    assert(s.skip(k + 1) =~= int_to_decimal(exponent));
    let a = s.take(k);
    assert(a =~= pre);
    assert(d[0] != '-');
    assert(body[0] == d[0]);
    let ra = if negative { a.skip(1) } else { a };
    assert(ra =~= body);
    if d.len() > 1 {
        let ds = ra.take(1) + ra.skip(2);
        assert(ds =~= d);
        assert(chars_to_digits(d) =~= digits) by {
            assert forall|j: int| 0 <= j < digits.len() implies chars_to_digits(d)[j] == digits[j] by {
                lemma_digit_char_value(digits[j]);
            }
        }
    } else {
        lemma_digit_char_value(digits[0]);
        assert(seq![(a[0] as u32 - 48) as u8] =~= digits);
    }
}

} // verus!
