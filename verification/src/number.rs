//! Numbers of the calculator: exact rationals, or arbitrary-precision binary floats
//! (held as their raw parts: mantissa words, significant bits, sign, exponent, inexact flag).

use vstd::prelude::*;
use crate::rational::{
    Rational, rational_from_str, rational_from_i64, rational_pow, rational_div, rational_equal,
    is_signed_digit_string, signed_digit_string_value, int_pow, lowest_terms, lemma_lowest_terms,
};
use crate::text::{chars_of, is_ascii_digit, is_ascii_digit_exec};

verus! {

/// Error attached to a float NaN.
#[derive(Debug, Clone, Copy, PartialEq, Eq)]
pub enum FloatError {
    /// The exponent went beyond its range; `true` for the negative side.
    ExponentOverflow(bool),
    DivisionByZero,
    InvalidArgument,
    MemoryAllocation,
}

/// An arbitrary-precision binary float by its raw parts.
#[derive(Debug, Clone)]
pub enum FloatValue {
    /// `(-1)^negative * 0.mantissa * 2^exponent`; the mantissa words are least significant first.
    Finite { mantissa: Vec<u64>, bits: usize, negative: bool, exponent: i32, inexact: bool },
    Infinite { negative: bool },
    NaN(Option<FloatError>),
}

/// A number: exact when rational, otherwise a float.
#[derive(Debug, Clone)]
pub enum Number {
    Rational(Rational),
    Float(FloatValue),
}

pub open spec fn float_error_eq(a: Option<FloatError>, b: Option<FloatError>) -> bool {
    a == b
}

impl FloatValue {
    pub open spec fn is_nan_spec(&self) -> bool {
        self is NaN
    }

    pub open spec fn inexact_spec(&self) -> bool {
        match self {
            FloatValue::Finite { inexact, .. } => *inexact,
            _ => false,
        }
    }
}

impl Number {
    /// A rational is in lowest terms; a float is kept only for a value that is not exact
    /// (an inexact value, an infinity or NaN): exact values are held as rationals.
    pub open spec fn wf(&self) -> bool {
        match self {
            Number::Rational(r) => r.wf(),
            Number::Float(FloatValue::Finite { inexact, .. }) => *inexact,
            Number::Float(_) => true,
        }
    }

    pub open spec fn is_nan_spec(&self) -> bool {
        self matches Number::Float(FloatValue::NaN(_))
    }

    /// Not a number, with an optional error (not marked as inexact).
    pub fn nan(error: Option<FloatError>) -> (r: Self)
        ensures
            r == Number::Float(FloatValue::NaN(error)),
            r.wf(),
    {
        Number::Float(FloatValue::NaN(error))
    }

    pub fn is_nan(&self) -> (b: bool)
        ensures
            b == self.is_nan_spec(),
    {
        match self {
            Number::Float(FloatValue::NaN(_)) => true,
            _ => false,
        }
    }

    /// Exact numbers: rationals, and floats not marked as inexact.
    pub fn is_exact(&self) -> (b: bool)
        ensures
            b == match self {
                Number::Rational(_) => true,
                Number::Float(f) => !f.inexact_spec(),
            },
    {
        match self {
            Number::Rational(_) => true,
            Number::Float(FloatValue::Finite { inexact, .. }) => !*inexact,
            Number::Float(_) => true,
        }
    }

    /// The integer `i` as an exact number.
    pub fn from_i64(i: i64) -> (r: Self)
        ensures
            r.wf(),
            r matches Number::Rational(q) && q.n() == i && q.d() == 1,
    {
        Number::Rational(rational_from_i64(i))
    }
}

// ---------------------------------------------------------------------------
// Reading numbers from text
// ---------------------------------------------------------------------------

/// Removes `_` between two digits, scanning left to right without overlaps
/// (a digit consumed by one removal does not start another): `1_000_000` becomes `1000000`,
/// `1_2_3` becomes `12_3`.
pub open spec fn remove_digit_underscores(s: Seq<char>) -> Seq<char>
    decreases s.len(),
{
    if s.len() >= 3 && is_ascii_digit(s[0]) && s[1] == '_' && is_ascii_digit(s[2]) {
        seq![s[0], s[2]] + remove_digit_underscores(s.skip(3))
    } else if s.len() == 0 {
        s
    } else {
        seq![s[0]] + remove_digit_underscores(s.skip(1))
    }
}

pub open spec fn is_number_char(c: char) -> bool {
    is_ascii_digit(c) || c == '.' || c == '-'
}

pub open spec fn count_char(s: Seq<char>, c: char) -> nat
    decreases s.len(),
{
    if s.len() == 0 {
        0
    } else {
        (if s.last() == c { 1nat } else { 0nat }) + count_char(s.drop_last(), c)
    }
}

/// `s` without any `c`.
pub open spec fn remove_char(s: Seq<char>, c: char) -> Seq<char> {
    s.filter(|x: char| x != c)
}

/// Index of the first `c` in `s`.
pub open spec fn first_index_of(s: Seq<char>, c: char) -> int {
    choose|i: int| 0 <= i < s.len() && s[i] == c && forall|j: int| 0 <= j < i ==> s[j] != c
}

/// Whether `Number::from_string` accepts the text, and the fraction `(numerator, denominator)` it reads.
pub open spec fn number_text(s: Seq<char>) -> Option<(int, int)> {
    let t = remove_digit_underscores(s);
    if !(forall|i: int| 0 <= i < t.len() ==> is_number_char(#[trigger] t[i])) {
        None
    } else if count_char(t, '.') > 1 {
        None
    } else {
        let digits = remove_char(t, '.');
        if !is_signed_digit_string(digits) {
            None
        } else {
            let decimals: nat = if count_char(t, '.') == 1 { (t.len() - 1 - first_index_of(t, '.')) as nat } else { 0 };
            Some((signed_digit_string_value(digits), int_pow(10, decimals)))
        }
    }
}

fn remove_digit_underscores_exec(s: &Vec<char>) -> (r: Vec<char>)
    ensures
        r@ == remove_digit_underscores(s@),
{
    let mut out: Vec<char> = Vec::new();
    let mut i: usize = 0;
    assert(s@.skip(0) =~= s@);
    while i < s.len()
        invariant
            i <= s@.len(),
            out@ + remove_digit_underscores(s@.skip(i as int)) == remove_digit_underscores(s@),
        decreases s.len() - i,
    {
        let ghost rest = s@.skip(i as int);
        if s.len() >= 3 && i < s.len() - 2 && is_ascii_digit_exec(s[i]) && s[i + 1] == '_' && is_ascii_digit_exec(s[i + 2]) {
            out.push(s[i]);
            out.push(s[i + 2]);
            proof {
                assert(rest[0] == s@[i as int] && rest[1] == s@[i + 1] && rest[2] == s@[i + 2]);
                assert(rest.skip(3) =~= s@.skip(i + 3));
            }
            i = i + 3;
        } else {
            out.push(s[i]);
            proof {
                assert(rest[0] == s@[i as int]);
                if rest.len() >= 3 {
                    assert(rest[1] == s@[i + 1] && rest[2] == s@[i + 2]);
                }
                assert(rest.skip(1) =~= s@.skip(i + 1));
            }
            i = i + 1;
        }
    }
    assert(s@.skip(i as int).len() == 0);
    out
}

impl Number {
    /// Reads a decimal number: digits, at most one `.`, an optional leading `-`,
    /// and `_` between digits (`1_000`). The result is an exact rational.
    pub fn from_string(s: &str) -> (r: Option<Self>)
        requires
            s@.len() < 0x7fff_ffff,
        ensures
            r is Some <==> number_text(s@) is Some,
            r matches Some(n) ==> (n.wf() && (n matches Number::Rational(q)
                && (number_text(s@) matches Some((num, den)) && q.is_ratio(num, den)
                    && lowest_terms(num, den) == (q.n(), q.d())))),
    {
        let chars = chars_of(s);
        let t = remove_digit_underscores_exec(&chars);
        proof {
            lemma_remove_underscores_len(chars@);
        }
        let mut dots: usize = 0;
        let mut dot_pos: usize = 0;
        let mut just_numbers: Vec<char> = Vec::new();
        let mut i: usize = 0;
        while i < t.len()
            invariant
                i <= t@.len(),
                t@.len() <= chars@.len(),
                chars@ == s@,
                t@ == remove_digit_underscores(s@),
                forall|j: int| 0 <= j < i ==> is_number_char(#[trigger] t@[j]),
                dots == count_char(t@.take(i as int), '.'),
                dots <= i,
                just_numbers@ == remove_char(t@.take(i as int), '.'),
                forall|j: int| 0 <= j < just_numbers@.len() ==> is_ascii_digit(#[trigger] just_numbers@[j]) || just_numbers@[j] == '-',
                dots == 0 ==> forall|j: int| 0 <= j < i ==> t@[j] != '.',
                dots >= 1 ==> 0 <= dot_pos < i && t@[dot_pos as int] == '.'
                    && forall|j: int| 0 <= j < dot_pos ==> t@[j] != '.',
            decreases t.len() - i,
        {
            let c = t[i];
            if !(is_ascii_digit_exec(c) || c == '.' || c == '-') {
                return None;
            }
            proof {
                assert(t@.take(i + 1).drop_last() =~= t@.take(i as int));
                assert(t@.take(i + 1) =~= t@.take(i as int).push(c));
                lemma_filter_push(t@.take(i as int), c, '.');
                if dots == 0 && c == '.' {
                    lemma_count_zero(t@.take(i as int), '.');
                }
            }
            if c == '.' {
                if dots == 0 {
                    dot_pos = i;
                }
                dots = dots + 1;
            } else {
                just_numbers.push(c);
            }
            i = i + 1;
        }
        assert(t@.take(i as int) =~= t@);
        if dots > 1 {
            return None;
        }
        let rational = match rational_from_str(&just_numbers) {
            Some(q) => q,
            None => { return None; },
        };
        if dots == 1 {
            let dot_index = t.len() - 1 - dot_pos;
            proof {
                assert(first_index_of(t@, '.') == dot_pos) by {
                    let k = first_index_of(t@, '.');
                    assert(0 <= k < t@.len() && t@[k] == '.' && forall|j: int| 0 <= j < k ==> t@[j] != '.') by {
                        assert(0 <= dot_pos < t@.len() && t@[dot_pos as int] == '.' && forall|j: int| 0 <= j < dot_pos ==> t@[j] != '.');
                    }
                    if k < dot_pos {
                    } else if k > dot_pos {
                    }
                }
            }
            let ten = rational_from_i64(10);
            let factor = rational_pow(&ten, dot_index as i32);
            proof {
                lemma_int_pow_pos(10, dot_index as nat);
                lemma_int_pow_one(dot_index as nat);
                assert(factor.is_ratio(int_pow(10, dot_index as nat), 1));
                assert(factor.n() == int_pow(10, dot_index as nat) * factor.d());
                assert(factor.n() != 0) by (nonlinear_arith)
                    requires factor.n() == int_pow(10, dot_index as nat) * factor.d(), factor.d() > 0, int_pow(10, dot_index as nat) > 0;
            }
            let q = rational_div(&rational, &factor);
            proof {
                lemma_ratio_chain(q, rational, factor, signed_digit_string_value(just_numbers@), int_pow(10, dot_index as nat));
                lemma_lowest_terms(q, signed_digit_string_value(just_numbers@), int_pow(10, dot_index as nat));
            }
            Some(Number::Rational(q))
        } else {
            proof {
                assert(int_pow(10, 0) == 1);
                lemma_lowest_terms(rational, signed_digit_string_value(just_numbers@), 1);
            }
            Some(Number::Rational(rational))
        }
    }
}

proof fn lemma_int_pow_pos(b: int, e: nat)
    requires
        b > 0,
    ensures
        int_pow(b, e) > 0,
    decreases e,
{
    if e > 0 {
        lemma_int_pow_pos(b, (e - 1) as nat);
        assert(b * int_pow(b, (e - 1) as nat) > 0) by (nonlinear_arith)
            requires b > 0, int_pow(b, (e - 1) as nat) > 0;
    }
}

/// `q = a / f` with `a = n/1` and `f = p/1` gives `q = n/p`.
proof fn lemma_ratio_chain(q: Rational, a: Rational, f: Rational, n: int, p: int)
    requires
        a.is_ratio(n, 1),
        f.is_ratio(p, 1),
        q.is_ratio(a.n() * f.d(), a.d() * f.n()),
        a.d() > 0,
        f.d() > 0,
        p > 0,
        q.d() > 0,
    ensures
        q.is_ratio(n, p),
{
    let an = a.n();
    let ad = a.d();
    let fnn = f.n();
    let fd = f.d();
    let qn = q.n();
    let qd = q.d();
    assert(an == n * ad);
    assert(fnn == p * fd);
    assert(qn * (ad * fnn) == (an * fd) * qd);
    assert(qn * (ad * fnn) == (qn * p) * (ad * fd)) by (nonlinear_arith)
        requires fnn == p * fd;
    assert((an * fd) * qd == (n * qd) * (ad * fd)) by (nonlinear_arith)
        requires an == n * ad;
    let x = qn * p;
    let y = n * qd;
    let dd = ad * fd;
    assert(dd > 0) by (nonlinear_arith)
        requires ad > 0, fd > 0, dd == ad * fd;
    assert(x * dd == y * dd);
    assert(x == y) by (nonlinear_arith)
        requires x * dd == y * dd, dd > 0;
}

proof fn lemma_filter_push(s: Seq<char>, c: char, x: char)
    ensures
        remove_char(s.push(c), x) == remove_char(s, x) + (if c != x { seq![c] } else { Seq::<char>::empty() }),
{
    reveal(Seq::filter);
    assert(s.push(c).drop_last() =~= s);
    if c != x {
        assert(remove_char(s, x).push(c) =~= remove_char(s, x) + seq![c]);
    } else {
        assert(remove_char(s, x) =~= remove_char(s, x) + Seq::<char>::empty());
    }
}

proof fn lemma_count_zero(s: Seq<char>, c: char)
    requires
        count_char(s, c) == 0,
    ensures
        forall|j: int| 0 <= j < s.len() ==> s[j] != c,
    decreases s.len(),
{
    if s.len() > 0 {
        lemma_count_zero(s.drop_last(), c);
        assert forall|j: int| 0 <= j < s.len() implies s[j] != c by {
            if j < s.len() - 1 {
                assert(s[j] == s.drop_last()[j]);
            }
        }
    }
}

proof fn lemma_int_pow_one(e: nat)
    ensures
        int_pow(1, e) == 1,
    decreases e,
{
    if e > 0 {
        lemma_int_pow_one((e - 1) as nat);
    }
}

proof fn lemma_remove_underscores_len(s: Seq<char>)
    ensures
        remove_digit_underscores(s).len() <= s.len(),
    decreases s.len(),
{
    if s.len() >= 3 && is_ascii_digit(s[0]) && s[1] == '_' && is_ascii_digit(s[2]) {
        lemma_remove_underscores_len(s.skip(3));
    } else if s.len() > 0 {
        lemma_remove_underscores_len(s.skip(1));
    }
}

} // verus!
