//! Arithmetic on numbers. Two exact numbers give an exact result; otherwise both are
//! taken as floats (`astro_float`, at a given precision, rounding to nearest even), a NaN
//! operand is passed on, an inexact operand makes the result inexact, and a float result
//! that is exact becomes a rational again.

use vstd::prelude::*;
use crate::element::{FloatView, NumberView, float_view, number_view};
use crate::number::{Number, FloatValue, FloatError};
use crate::rational::{
    Rational, BigInteger, abs, int_pow, lowest_terms, lemma_lowest_terms, lemma_gcd_one, lemma_reduced_unique,
    integer_from_u64, rational_from_i64, rational_mul, rational_div, rational_add, rational_neg, rational_pow,
};
use crate::optimization::{
    big_float_of, Ratio, rat_add, rat_mul, rat_rem, float_negated, float_abs, num_negated, num_abs, num_is_zero,
    float_equal, number_negated, number_abs, number_is_zero, float_values_equal,
};
use crate::rational::{
    floor_div, trunc_rem, rational_sub, rational_rem, rational_floor, rational_ceil, rational_round, rational_cmp,
    rational_is_zero, rational_is_negative, rational_abs,
};

verus! {

// ---------------------------------------------------------------------------
// Floats from `astro_float`
// ---------------------------------------------------------------------------

#[verifier::external_type_specification]
#[verifier::external_body]
pub struct ExFloatFailure(astro_float::Error);

/// The library's form of an `astro_float::Error`, variant for variant.
#[verifier::external_body]
fn float_error_of(e: astro_float::Error) -> FloatError {
    match e {
        astro_float::Error::ExponentOverflow(s) => FloatError::ExponentOverflow(s.is_negative()),
        astro_float::Error::DivisionByZero => FloatError::DivisionByZero,
        astro_float::Error::InvalidArgument => FloatError::InvalidArgument,
        astro_float::Error::MemoryAllocation => FloatError::MemoryAllocation,
    }
}

/// The parts of an `astro_float::BigFloat`: `BigFloat::as_raw_parts` for a finite value,
/// else whether it is NaN (with `BigFloat::err`) or which infinity.
#[verifier::external_body]
pub(crate) fn float_value_of(x: astro_float::BigFloat) -> FloatValue {
    match x.as_raw_parts() {
        Some((m, b, s, e, i)) => FloatValue::Finite { mantissa: m.to_vec(), bits: b, negative: s.is_negative(), exponent: e, inexact: i },
        None if x.is_nan() => FloatValue::NaN(x.err().map(float_error_of)),
        None => FloatValue::Infinite { negative: x.is_inf_neg() },
    }
}

// ---------------------------------------------------------------------------
// The exact value of a float
// ---------------------------------------------------------------------------

/// The integer of the mantissa words, least significant word first.
pub open spec fn words_value(m: Seq<u64>) -> nat
    decreases m.len(),
{
    if m.len() == 0 { 0 } else { (m[0] + 0x1_0000_0000_0000_0000 * words_value(m.skip(1))) as nat }
}

pub open spec fn pow2(k: nat) -> nat
    decreases k,
{
    if k == 0 { 1 } else { 2 * pow2((k - 1) as nat) }
}

/// The fraction, in lowest terms, of a finite float with mantissa words `m`, sign and
/// exponent `e`: the mantissa as an integer times `2^(e - 64 * m.len())`.
pub open spec fn float_ratio(m: Seq<u64>, negative: bool, e: int) -> (int, int) {
    let v: int = if negative { -words_value(m) } else { words_value(m) as int };
    let k: int = e - 64 * m.len();
    if k >= 0 { (v * pow2(k as nat), 1) } else { lowest_terms(v, pow2((-k) as nat) as int) }
}

/// The number of a float result: an exact finite float becomes its fraction.
pub open spec fn number_of_float(f: FloatView) -> NumberView {
    match f {
        FloatView::Finite(m, _, negative, e, inexact) => if inexact { NumberView::Float(f) } else {
            let (n, d) = float_ratio(m, negative, e as int);
            NumberView::Rational(n, d)
        },
        _ => NumberView::Float(f),
    }
}

proof fn lemma_integer_ratio(q: Rational, x: int)
    requires
        q.wf(),
        q.is_ratio(x, 1),
    ensures
        q.n() == x,
        q.d() == 1,
{
    lemma_gcd_one(abs(x));
    lemma_reduced_unique(q.n(), q.d(), x, 1);
}

proof fn lemma_pow2_pos(k: nat)
    ensures
        pow2(k) >= 1,
    decreases k,
{
    if k > 0 {
        lemma_pow2_pos((k - 1) as nat);
    }
}

proof fn lemma_pow2_add(a: nat, b: nat)
    ensures
        pow2(a + b) == pow2(a) * pow2(b),
    decreases b,
{
    if b == 0 {
        assert(a + b == a);
        assert(pow2(0) == 1);
    } else {
        lemma_pow2_add(a, (b - 1) as nat);
        assert((a + b - 1) as nat == a + (b - 1) as nat);
        assert(pow2(a + b) == 2 * pow2((a + b - 1) as nat));
        assert(pow2(a) * pow2(b) == pow2(a) * (2 * pow2((b - 1) as nat)));
        assert(pow2(a) * (2 * pow2((b - 1) as nat)) == 2 * (pow2(a) * pow2((b - 1) as nat))) by (nonlinear_arith);
    }
}

proof fn lemma_pow2_64()
    ensures
        pow2(64) == 0x1_0000_0000_0000_0000,
{
    reveal_with_fuel(pow2, 65);
}

proof fn lemma_int_pow_two(k: nat)
    ensures
        int_pow(2, k) == pow2(k),
        int_pow(1, k) == 1,
    decreases k,
{
    if k > 0 {
        lemma_int_pow_two((k - 1) as nat);
    }
}

/// The integer `n` as a rational.
fn rational_from_u64(n: u64) -> (r: Rational)
    ensures
        r.wf(),
        r.n() == n,
        r.d() == 1,
{
    let r = Rational { numer: integer_from_u64(n), denom: integer_from_u64(1) };
    proof {
        lemma_gcd_one(n as nat);
    }
    r
}

/// `2^k` as a rational, built from powers of at most `2^30` at a time.
fn rational_pow2(k: u128) -> (r: Rational)
    ensures
        r.wf(),
        r.n() == pow2(k as nat),
        r.d() == 1,
{
    let two = rational_from_i64(2);
    let mut acc = rational_from_i64(1);
    let mut done: u128 = 0;
    assert(pow2(0) == 1);
    while done < k
        invariant
            done <= k,
            two.wf(),
            two.n() == 2,
            two.d() == 1,
            acc.wf(),
            acc.n() == pow2(done as nat),
            acc.d() == 1,
        decreases k - done,
    {
        let step: u128 = if k - done > 0x4000_0000 { 0x4000_0000 } else { k - done };
        let p = rational_pow(&two, step as i32);
        proof {
            lemma_int_pow_two(step as nat);
            lemma_integer_ratio(p, pow2(step as nat) as int);
        }
        let next = rational_mul(&acc, &p);
        proof {
            lemma_pow2_add(done as nat, step as nat);
            lemma_integer_ratio(next, pow2((done + step) as nat) as int);
        }
        acc = next;
        done = done + step;
    }
    acc
}

proof fn lemma_words_value_skip(m: Seq<u64>, i: int)
    requires
        0 <= i < m.len(),
    ensures
        words_value(m.skip(i)) == m[i] + 0x1_0000_0000_0000_0000 * words_value(m.skip(i + 1)),
{
    let s = m.skip(i);
    assert(s.len() > 0);
    assert(s[0] == m[i]);
    assert(s.skip(1) =~= m.skip(i + 1));
}

/// The fraction of a finite float's parts (see `float_ratio`).
fn rational_from_float_parts(m: &Vec<u64>, negative: bool, exponent: i32) -> (r: Rational)
    ensures
        r.wf(),
        (r.n(), r.d()) == float_ratio(m@, negative, exponent as int),
{
    let two64 = rational_pow2(64);
    let mut acc = rational_from_i64(0);
    let mut i: usize = m.len();
    assert(m@.skip(m@.len() as int) =~= Seq::<u64>::empty());
    while i > 0
        invariant
            i <= m@.len(),
            two64.wf(),
            two64.n() == pow2(64),
            two64.d() == 1,
            acc.wf(),
            acc.n() == words_value(m@.skip(i as int)),
            acc.d() == 1,
        decreases i,
    {
        i = i - 1;
        let shifted = rational_mul(&acc, &two64);
        let word = rational_from_u64(m[i]);
        let next = rational_add(&shifted, &word);
        proof {
            lemma_pow2_64();
            lemma_integer_ratio(shifted, acc.n() * 0x1_0000_0000_0000_0000);
            assert(shifted.n() * word.d() + word.n() * shifted.d() == shifted.n() + word.n()
                && shifted.d() * word.d() == 1) by (nonlinear_arith)
                requires word.d() == 1, shifted.d() == 1;
            lemma_integer_ratio(next, acc.n() * 0x1_0000_0000_0000_0000 + m@[i as int]);
            lemma_words_value_skip(m@, i as int);
        }
        acc = next;
    }
    assert(m@.skip(0) =~= m@);
    let signed = if negative { rational_neg(&acc) } else { acc };
    let len: i128 = m.len() as i128;
    let k: i128 = exponent as i128 - 64 * len;
    let r = if k >= 0 {
        let p = rational_pow2(k as u128);
        let r = rational_mul(&signed, &p);
        proof {
            lemma_integer_ratio(r, signed.n() * pow2(k as nat));
        }
        r
    } else {
        let p = rational_pow2((-k) as u128);
        proof { lemma_pow2_pos((-k) as nat); }
        let r = rational_div(&signed, &p);
        proof {
            lemma_lowest_terms(r, signed.n(), pow2((-k) as nat) as int);
        }
        r
    };
    r
}


// ---------------------------------------------------------------------------
// Named float operations
// ---------------------------------------------------------------------------
//
// Each name gives what one `astro_float` operation returns for its arguments, rounding to
// nearest even at the given precision. `astro_float` reports a failed allocation as a NaN
// with `Error::MemoryAllocation`; the names do not cover that case.

/// An integer as a float (`BigFloat::from_str` of its decimal text, which keeps every
/// digit's value); NaN where the text cannot be read as a float.
pub uninterp spec fn float_of_int(v: int) -> FloatView;
/// `BigFloat::add`.
pub uninterp spec fn float_sum(a: FloatView, b: FloatView, p: nat) -> FloatView;
/// `BigFloat::sub`.
pub uninterp spec fn float_difference(a: FloatView, b: FloatView, p: nat) -> FloatView;
/// `BigFloat::mul`.
pub uninterp spec fn float_product(a: FloatView, b: FloatView, p: nat) -> FloatView;
/// `BigFloat::div`.
pub uninterp spec fn float_quotient(a: FloatView, b: FloatView, p: nat) -> FloatView;
/// `BigFloat::rem`: the remainder of `|a| / |b|` with the sign of `a`.
pub uninterp spec fn float_remainder(a: FloatView, b: FloatView) -> FloatView;
/// `BigFloat::pow`.
pub uninterp spec fn float_power(a: FloatView, b: FloatView, p: nat) -> FloatView;
/// `BigFloat::sqrt`.
pub uninterp spec fn float_root(a: FloatView, p: nat) -> FloatView;
/// `BigFloat::floor`.
pub uninterp spec fn float_floor(a: FloatView) -> FloatView;
/// `BigFloat::ceil`.
pub uninterp spec fn float_ceil(a: FloatView) -> FloatView;
/// `BigFloat::round` to `k` binary places after the point.
pub uninterp spec fn float_rounded(a: FloatView, k: nat) -> FloatView;
/// `BigFloat::cmp`: negative, zero or positive as `a` is below, equal to or above `b`;
/// none with a NaN.
pub uninterp spec fn float_order(a: FloatView, b: FloatView) -> Option<i128>;
/// `BigFloat::is_zero`.
pub uninterp spec fn float_zero(a: FloatView) -> bool;

/// The integer as a float (see `float_of_int`).
#[verifier::external_body]
pub(crate) fn float_from_integer(x: &BigInteger) -> (r: FloatValue)
    requires
        x.wf(),
    ensures
        float_view(r) == float_of_int(x.value()),
{
    let sign = if x.negative { num_bigint::Sign::Minus } else { num_bigint::Sign::Plus };
    let n = num_bigint::BigInt::from_radix_be(sign, &x.digits, 10).unwrap();
    float_value_of(<astro_float::BigFloat as std::str::FromStr>::from_str(&n.to_string()).unwrap_or(astro_float::NAN))
}

/// `BigFloat::add` (see `float_sum`).
#[verifier::external_body]
fn float_add(a: &FloatValue, b: &FloatValue, precision: usize) -> (r: FloatValue)
    ensures
        float_view(r) == float_sum(float_view(*a), float_view(*b), precision as nat),
{
    float_value_of(big_float_of(a).add(&big_float_of(b), precision, astro_float::RoundingMode::ToEven))
}

/// `BigFloat::sub` (see `float_difference`).
#[verifier::external_body]
fn float_sub(a: &FloatValue, b: &FloatValue, precision: usize) -> (r: FloatValue)
    ensures
        float_view(r) == float_difference(float_view(*a), float_view(*b), precision as nat),
{
    float_value_of(big_float_of(a).sub(&big_float_of(b), precision, astro_float::RoundingMode::ToEven))
}

/// `BigFloat::mul` (see `float_product`).
#[verifier::external_body]
pub(crate) fn float_mul(a: &FloatValue, b: &FloatValue, precision: usize) -> (r: FloatValue)
    ensures
        float_view(r) == float_product(float_view(*a), float_view(*b), precision as nat),
{
    float_value_of(big_float_of(a).mul(&big_float_of(b), precision, astro_float::RoundingMode::ToEven))
}

/// `BigFloat::div` (see `float_quotient`).
#[verifier::external_body]
pub(crate) fn float_div(a: &FloatValue, b: &FloatValue, precision: usize) -> (r: FloatValue)
    ensures
        float_view(r) == float_quotient(float_view(*a), float_view(*b), precision as nat),
{
    float_value_of(big_float_of(a).div(&big_float_of(b), precision, astro_float::RoundingMode::ToEven))
}

/// `BigFloat::rem` (see `float_remainder`).
#[verifier::external_body]
fn float_rem(a: &FloatValue, b: &FloatValue) -> (r: FloatValue)
    ensures
        float_view(r) == float_remainder(float_view(*a), float_view(*b)),
{
    float_value_of(big_float_of(a).rem(&big_float_of(b)))
}

/// `BigFloat::pow` with a fresh constants cache (see `float_power`).
#[verifier::external_body]
fn float_pow(a: &FloatValue, b: &FloatValue, precision: usize) -> (r: FloatValue)
    ensures
        float_view(r) == float_power(float_view(*a), float_view(*b), precision as nat),
{
    let mut cc = astro_float::Consts::new().expect("Constants cache initialized");
    float_value_of(big_float_of(a).pow(&big_float_of(b), precision, astro_float::RoundingMode::ToEven, &mut cc))
}

/// `BigFloat::sqrt` (see `float_root`).
#[verifier::external_body]
pub(crate) fn float_sqrt(a: &FloatValue, precision: usize) -> (r: FloatValue)
    ensures
        float_view(r) == float_root(float_view(*a), precision as nat),
{
    float_value_of(big_float_of(a).sqrt(precision, astro_float::RoundingMode::ToEven))
}

/// `BigFloat::floor` (see `float_floor`).
#[verifier::external_body]
fn float_floor_of(a: &FloatValue) -> (r: FloatValue)
    ensures
        float_view(r) == float_floor(float_view(*a)),
{
    float_value_of(big_float_of(a).floor())
}

/// `BigFloat::ceil` (see `float_ceil`).
#[verifier::external_body]
fn float_ceil_of(a: &FloatValue) -> (r: FloatValue)
    ensures
        float_view(r) == float_ceil(float_view(*a)),
{
    float_value_of(big_float_of(a).ceil())
}

/// `BigFloat::round` to `places` binary places (see `float_rounded`).
#[verifier::external_body]
pub(crate) fn float_round_to(a: &FloatValue, places: usize) -> (r: FloatValue)
    ensures
        float_view(r) == float_rounded(float_view(*a), places as nat),
{
    float_value_of(big_float_of(a).round(places, astro_float::RoundingMode::ToEven))
}

/// `BigFloat::cmp` (see `float_order`). Its source compares the two operands the same way
/// in both orders, so swapping them turns the sign around, and a NaN gives none either way.
#[verifier::external_body]
fn float_compare(a: &FloatValue, b: &FloatValue) -> (r: Option<i128>)
    ensures
        r == float_order(float_view(*a), float_view(*b)),
        r is None ==> float_order(float_view(*b), float_view(*a)) is None,
        r matches Some(v) ==> (float_order(float_view(*b), float_view(*a)) matches Some(w)
            && (v < 0 <==> w > 0) && (v == 0 <==> w == 0)),
{
    big_float_of(a).cmp(&big_float_of(b))
}

/// `BigFloat::is_zero` (see `float_zero`).
#[verifier::external_body]
fn float_is_zero(a: &FloatValue) -> (r: bool)
    ensures
        r == float_zero(float_view(*a)),
{
    big_float_of(a).is_zero()
}

// ---------------------------------------------------------------------------
// Flags and NaN
// ---------------------------------------------------------------------------

pub open spec fn float_inexact(f: FloatView) -> bool {
    f matches FloatView::Finite(_, _, _, _, i) && i
}

pub open spec fn marked_inexact(f: FloatView) -> FloatView {
    match f {
        FloatView::Finite(m, b, n, e, _) => FloatView::Finite(m, b, n, e, true),
        _ => f,
    }
}

/// The result of an operation on one float: inexact if the operand was.
pub open spec fn carried(a: FloatView, r: FloatView) -> FloatView {
    if float_inexact(a) { marked_inexact(r) } else { r }
}

/// The result of an operation on two floats: a NaN operand (the first one first) is the
/// result; else it is inexact if an operand was.
pub open spec fn combined(a: FloatView, b: FloatView, r: FloatView) -> FloatView {
    if a is NaN {
        a
    } else if b is NaN {
        b
    } else if float_inexact(a) || float_inexact(b) {
        marked_inexact(r)
    } else {
        r
    }
}

pub(crate) fn is_inexact(f: &FloatValue) -> (b: bool)
    ensures
        b == float_inexact(float_view(*f)),
{
    match f {
        FloatValue::Finite { inexact, .. } => *inexact,
        _ => false,
    }
}

pub(crate) fn mark_inexact(f: FloatValue) -> (r: FloatValue)
    ensures
        float_view(r) == marked_inexact(float_view(f)),
{
    match f {
        FloatValue::Finite { mantissa, bits, negative, exponent, .. } => FloatValue::Finite { mantissa, bits, negative, exponent, inexact: true },
        _ => f,
    }
}

pub(crate) fn carry_inexact(a: &FloatValue, r: FloatValue) -> (out: FloatValue)
    ensures
        float_view(out) == carried(float_view(*a), float_view(r)),
{
    if is_inexact(a) { mark_inexact(r) } else { r }
}

fn is_nan_value(f: &FloatValue) -> (b: bool)
    ensures
        b == (*f is NaN),
{
    match f {
        FloatValue::NaN(_) => true,
        _ => false,
    }
}

fn combine(a: &FloatValue, b: &FloatValue, r: FloatValue) -> (out: FloatValue)
    ensures
        float_view(out) == combined(float_view(*a), float_view(*b), float_view(r)),
{
    if is_nan_value(a) {
        a.duplicate()
    } else if is_nan_value(b) {
        b.duplicate()
    } else if is_inexact(a) || is_inexact(b) {
        mark_inexact(r)
    } else {
        r
    }
}

// ---------------------------------------------------------------------------
// Numbers and floats
// ---------------------------------------------------------------------------

/// A number as a float: a rational divides its numerator by its denominator.
pub open spec fn float_of(n: NumberView, p: usize) -> FloatView {
    match n {
        NumberView::Rational(a, b) => float_quotient(float_of_int(a), float_of_int(b), p as nat),
        NumberView::Float(f) => f,
    }
}

/// The fraction of a finite float, whether exact or not (see `float_ratio`); `None` for an
/// infinity or NaN.
pub fn rational_from_float(f: &FloatValue) -> (r: Option<Rational>)
    ensures
        r matches Some(q) ==> (*f matches FloatValue::Finite { mantissa, negative, exponent, .. }
            && q.wf() && (q.n(), q.d()) == float_ratio(mantissa@, negative, exponent as int)),
        r is None <==> !(*f is Finite),
{
    match f {
        FloatValue::Finite { mantissa, negative, exponent, .. } => Some(rational_from_float_parts(mantissa, *negative, *exponent)),
        _ => None,
    }
}

/// The exact fraction of a float that is not marked inexact; `None` otherwise.
pub fn float_to_exact_rational(f: &FloatValue) -> (r: Option<Rational>)
    ensures
        r matches Some(q) ==> (*f matches FloatValue::Finite { mantissa, negative, exponent, .. }
            && q.wf() && (q.n(), q.d()) == float_ratio(mantissa@, negative, exponent as int)),
        r is None <==> !(*f matches FloatValue::Finite { inexact: false, .. }),
{
    match f {
        FloatValue::Finite { inexact: false, .. } => rational_from_float(f),
        _ => None,
    }
}

impl Number {
    /// The number from a float result (`From<BigFloat>`): an exact finite float becomes
    /// its fraction (see `number_of_float`).
    pub fn from_float(f: FloatValue) -> (r: Number)
        ensures
            r.wf(),
            number_view(r) == number_of_float(float_view(f)),
    {
        match f {
            FloatValue::Finite { mantissa, negative, exponent, inexact: false, .. } => {
                Number::Rational(rational_from_float_parts(&mantissa, negative, exponent))
            },
            _ => Number::Float(f),
        }
    }

    /// The number as a float at `precision` bits (see `float_of`).
    pub fn get_float(&self, precision: usize) -> (r: FloatValue)
        requires
            self.wf(),
        ensures
            float_view(r) == float_of(number_view(*self), precision),
    {
        match self {
            Number::Rational(q) => {
                let a = float_from_integer(&q.numer);
                let b = float_from_integer(&q.denom);
                float_div(&a, &b, precision)
            },
            Number::Float(f) => f.duplicate(),
        }
    }

    /// The exact value: a rational's own; a float is never exact (see `Number::wf`).
    pub fn get_exact_rational(&self) -> (r: Option<Rational>)
        requires
            self.wf(),
        ensures
            r matches Some(q) ==> q.wf() && number_view(*self) == NumberView::Rational(q.n(), q.d()),
            r is None <==> self is Float,
    {
        match self {
            Number::Rational(q) => Some(q.duplicate()),
            Number::Float(_) => None,
        }
    }
}


// ---------------------------------------------------------------------------
// Operations on numbers
// ---------------------------------------------------------------------------

pub open spec fn nan_number() -> NumberView {
    NumberView::Float(FloatView::NaN(None))
}

pub open spec fn rational_view(r: Ratio) -> NumberView {
    NumberView::Rational(r.0, r.1)
}

/// `a / b` for `b` not zero, in lowest terms.
pub open spec fn rat_div(a: Ratio, b: Ratio) -> Ratio {
    if b.0 < 0 { lowest_terms(-(a.0 * b.1), -(a.1 * b.0)) } else { lowest_terms(a.0 * b.1, a.1 * b.0) }
}

/// The sign of `a - b` as -1, 0 or 1.
pub open spec fn rat_order(a: Ratio, b: Ratio) -> int {
    if a.0 * b.1 < b.0 * a.1 { -1 } else if a.0 * b.1 == b.0 * a.1 { 0 } else { 1 }
}

pub open spec fn sign_of(v: i128) -> int {
    if v < 0 { -1 } else if v == 0 { 0 } else { 1 }
}

/// The two numbers as floats, and the float result of `op` made into a number.
pub open spec fn via_floats(a: NumberView, b: NumberView, p: usize, r: FloatView) -> NumberView {
    number_of_float(combined(float_of(a, p), float_of(b, p), r))
}

/// `a + b`.
pub open spec fn num_plus(a: NumberView, b: NumberView, p: usize) -> NumberView {
    match (a, b) {
        (NumberView::Rational(x1, y1), NumberView::Rational(x2, y2)) => rational_view(rat_add((x1, y1), (x2, y2))),
        _ => via_floats(a, b, p, float_sum(float_of(a, p), float_of(b, p), p as nat)),
    }
}

/// `a * b`.
pub open spec fn num_mul(a: NumberView, b: NumberView, p: usize) -> NumberView {
    match (a, b) {
        (NumberView::Rational(x1, y1), NumberView::Rational(x2, y2)) => rational_view(rat_mul((x1, y1), (x2, y2))),
        _ => via_floats(a, b, p, float_product(float_of(a, p), float_of(b, p), p as nat)),
    }
}

/// `a / b`; NaN when dividing by zero.
pub open spec fn num_div(a: NumberView, b: NumberView, p: usize) -> NumberView {
    match (a, b) {
        (NumberView::Rational(x1, y1), NumberView::Rational(x2, y2)) =>
            if x2 == 0 { nan_number() } else { rational_view(rat_div((x1, y1), (x2, y2))) },
        _ => if float_zero(float_of(b, p)) { nan_number() } else {
            via_floats(a, b, p, float_quotient(float_of(a, p), float_of(b, p), p as nat))
        },
    }
}

/// The remainder of `a / b`: for exact numbers made non-negative by adding `b` (NaN for
/// `b` zero); for floats that of `BigFloat::rem`.
pub open spec fn num_rem(a: NumberView, b: NumberView, p: usize) -> NumberView {
    match (a, b) {
        (NumberView::Rational(x1, y1), NumberView::Rational(x2, y2)) =>
            if x2 == 0 { nan_number() } else {
                let r = rat_rem((x1, y1), (x2, y2));
                rational_view(if r.0 < 0 { rat_add(r, (x2, y2)) } else { r })
            },
        _ => via_floats(a, b, p, float_remainder(float_of(a, p), float_of(b, p))),
    }
}

/// How `a` compares to `b`: -1, 0 or 1; none with a NaN.
pub open spec fn num_order(a: NumberView, b: NumberView, p: usize) -> Option<int> {
    match (a, b) {
        (NumberView::Rational(x1, y1), NumberView::Rational(x2, y2)) => Some(rat_order((x1, y1), (x2, y2))),
        _ => match float_order(float_of(a, p), float_of(b, p)) {
            Some(v) => Some(sign_of(v)),
            None => None,
        },
    }
}

/// An order as the `i8` that `Number::cmp` gives.
pub open spec fn order_result(o: Option<int>) -> Option<i8> {
    match o {
        Some(c) => Some(c as i8),
        None => None,
    }
}

/// The order of the swapped pair.
pub open spec fn reversed_order(o: Option<i8>) -> Option<i8> {
    match o {
        Some(c) => Some((-c) as i8),
        None => None,
    }
}

/// The larger of the two (`a` when equal); NaN when they cannot be compared.
pub open spec fn num_max(a: NumberView, b: NumberView, p: usize) -> NumberView {
    match num_order(a, b, p) {
        Some(c) => if c >= 0 { a } else { b },
        None => nan_number(),
    }
}

/// The smaller of the two (`a` when equal); NaN when they cannot be compared.
pub open spec fn num_min(a: NumberView, b: NumberView, p: usize) -> NumberView {
    match num_order(a, b, p) {
        Some(c) => if c <= 0 { a } else { b },
        None => nan_number(),
    }
}

/// The largest integer not above the number.
pub open spec fn num_floor(a: NumberView) -> NumberView {
    match a {
        NumberView::Rational(x, y) => NumberView::Rational(floor_div(x, y), 1),
        NumberView::Float(f) => number_of_float(carried(f, float_floor(f))),
    }
}

/// The smallest integer not below the number.
pub open spec fn num_ceil(a: NumberView) -> NumberView {
    match a {
        NumberView::Rational(x, y) => NumberView::Rational(-floor_div(-x, y), 1),
        NumberView::Float(f) => number_of_float(carried(f, float_ceil(f))),
    }
}

/// One half as a float (`BigFloat::from(0.5)`): `0.1b * 2^0` in one word.
pub open spec fn half_float() -> FloatView {
    FloatView::Finite(seq![0x8000_0000_0000_0000u64], 64, false, 0, false)
}

/// The nearest integer: for exact numbers half-way cases away from zero; for a float its
/// ceiling when that is at most one half away, else its floor (NaN where the distance
/// cannot be compared).
pub open spec fn num_round(a: NumberView, p: usize) -> NumberView {
    match a {
        NumberView::Rational(x, y) => NumberView::Rational(
            if x >= 0 { floor_div(2 * x + y, 2 * y) } else { -floor_div(-2 * x + y, 2 * y) }, 1),
        NumberView::Float(f) => {
            let c = float_ceil(f);
            match float_order(float_abs(float_difference(f, c, p as nat)), half_float()) {
                None => nan_number(),
                Some(v) => if v <= 0 { number_of_float(carried(f, c)) } else { number_of_float(carried(f, float_floor(f))) },
            }
        },
    }
}

pub open spec fn factorial(n: nat) -> nat
    decreases n,
{
    if n == 0 { 1 } else { n * factorial((n - 1) as nat) }
}

/// `n!` for an exact integer `n` from 0 to 10000; NaN otherwise.
pub open spec fn num_fac(a: NumberView) -> NumberView {
    match a {
        NumberView::Rational(x, y) =>
            if y == 1 && 0 <= x <= 10000 { NumberView::Rational(factorial(x as nat) as int, 1) } else { nan_number() },
        NumberView::Float(_) => nan_number(),
    }
}

/// The float with its sign cleared (see `float_abs`).
fn absolute(f: FloatValue) -> (r: FloatValue)
    ensures
        float_view(r) == float_abs(float_view(f)),
{
    match f {
        FloatValue::Finite { mantissa, bits, exponent, inexact, .. } => FloatValue::Finite { mantissa, bits, negative: false, exponent, inexact },
        FloatValue::Infinite { .. } => FloatValue::Infinite { negative: false },
        FloatValue::NaN(e) => FloatValue::NaN(e),
    }
}

/// One half (see `half_float`).
fn half() -> (r: FloatValue)
    ensures
        float_view(r) == half_float(),
{
    let mut m: Vec<u64> = Vec::new();
    m.push(0x8000_0000_0000_0000u64);
    assert(m@ =~= seq![0x8000_0000_0000_0000u64]);
    FloatValue::Finite { mantissa: m, bits: 64, negative: false, exponent: 0, inexact: false }
}

proof fn lemma_ratio_negated(q: Rational, n: int, d: int)
    requires
        q.is_ratio(n, d),
    ensures
        q.is_ratio(-n, -d),
{
    assert(q.n() * (-d) == (-n) * q.d()) by (nonlinear_arith)
        requires q.n() * d == n * q.d();
}

impl Number {
    /// `self + other` (see `num_plus`), floats at `precision` bits.
    pub fn plus(&self, other: &Self, precision: usize) -> (r: Self)
        requires
            self.wf(),
            other.wf(),
        ensures
            r.wf(),
            number_view(r) == num_plus(number_view(*self), number_view(*other), precision),
    {
        match (self, other) {
            (Number::Rational(a), Number::Rational(b)) => {
                let r = rational_add(a, b);
                proof {
                    assert(a.d() * b.d() > 0) by (nonlinear_arith) requires a.d() > 0, b.d() > 0;
                    lemma_lowest_terms(r, a.n() * b.d() + b.n() * a.d(), a.d() * b.d());
                }
                Number::Rational(r)
            },
            _ => {
                let fa = self.get_float(precision);
                let fb = other.get_float(precision);
                let s = float_add(&fa, &fb, precision);
                Number::from_float(combine(&fa, &fb, s))
            },
        }
    }

    /// `self * other` (see `num_mul`).
    pub fn mul(&self, other: &Self, precision: usize) -> (r: Self)
        requires
            self.wf(),
            other.wf(),
        ensures
            r.wf(),
            number_view(r) == num_mul(number_view(*self), number_view(*other), precision),
    {
        match (self, other) {
            (Number::Rational(a), Number::Rational(b)) => {
                let r = rational_mul(a, b);
                proof {
                    assert(a.d() * b.d() > 0) by (nonlinear_arith) requires a.d() > 0, b.d() > 0;
                    lemma_lowest_terms(r, a.n() * b.n(), a.d() * b.d());
                }
                Number::Rational(r)
            },
            _ => {
                let fa = self.get_float(precision);
                let fb = other.get_float(precision);
                let s = float_mul(&fa, &fb, precision);
                Number::from_float(combine(&fa, &fb, s))
            },
        }
    }

    /// `self / other` (see `num_div`).
    pub fn div(&self, other: &Self, precision: usize) -> (r: Self)
        requires
            self.wf(),
            other.wf(),
        ensures
            r.wf(),
            number_view(r) == num_div(number_view(*self), number_view(*other), precision),
    {
        match (self, other) {
            (Number::Rational(a), Number::Rational(b)) => {
                if rational_is_zero(b) {
                    return Number::nan(None);
                }
                let r = rational_div(a, b);
                proof {
                    if b.n() < 0 {
                        lemma_ratio_negated(r, a.n() * b.d(), a.d() * b.n());
                        assert(-(a.d() * b.n()) > 0) by (nonlinear_arith) requires a.d() > 0, b.n() < 0;
                        lemma_lowest_terms(r, -(a.n() * b.d()), -(a.d() * b.n()));
                    } else {
                        assert(a.d() * b.n() > 0) by (nonlinear_arith) requires a.d() > 0, b.n() > 0;
                        lemma_lowest_terms(r, a.n() * b.d(), a.d() * b.n());
                    }
                }
                Number::Rational(r)
            },
            _ => {
                let fa = self.get_float(precision);
                let fb = other.get_float(precision);
                if float_is_zero(&fb) {
                    return Number::nan(None);
                }
                let s = float_div(&fa, &fb, precision);
                Number::from_float(combine(&fa, &fb, s))
            },
        }
    }

    /// The remainder of `self / other` (see `num_rem`).
    pub fn rem(&self, other: &Self, precision: usize) -> (r: Self)
        requires
            self.wf(),
            other.wf(),
        ensures
            r.wf(),
            number_view(r) == num_rem(number_view(*self), number_view(*other), precision),
    {
        match (self, other) {
            (Number::Rational(a), Number::Rational(b)) => {
                if rational_is_zero(b) {
                    return Number::nan(None);
                }
                let r = rational_rem(a, b);
                proof {
                    assert(a.d() * b.d() > 0) by (nonlinear_arith) requires a.d() > 0, b.d() > 0;
                    lemma_lowest_terms(r, trunc_rem(a.n() * b.d(), b.n() * a.d()), a.d() * b.d());
                }
                if rational_is_negative(&r) {
                    let s = rational_add(&r, b);
                    proof {
                        assert(r.d() * b.d() > 0) by (nonlinear_arith) requires r.d() > 0, b.d() > 0;
                        lemma_lowest_terms(s, r.n() * b.d() + b.n() * r.d(), r.d() * b.d());
                    }
                    Number::Rational(s)
                } else {
                    Number::Rational(r)
                }
            },
            _ => {
                let fa = self.get_float(precision);
                let fb = other.get_float(precision);
                let s = float_rem(&fa, &fb);
                Number::from_float(combine(&fa, &fb, s))
            },
        }
    }

    /// How `self` compares to `other` (see `num_order`): -1, 0 or 1; `None` with a NaN.
    pub fn cmp(&self, other: &Self, precision: usize) -> (r: Option<i8>)
        requires
            self.wf(),
            other.wf(),
        ensures
            r == order_result(num_order(number_view(*self), number_view(*other), precision)),
            order_result(num_order(number_view(*other), number_view(*self), precision)) == reversed_order(r),
    {
        match (self, other) {
            (Number::Rational(a), Number::Rational(b)) => Some(rational_cmp(a, b)),
            _ => {
                let fa = self.get_float(precision);
                let fb = other.get_float(precision);
                match float_compare(&fa, &fb) {
                    Some(v) => Some(if v < 0 { -1i8 } else if v == 0 { 0i8 } else { 1i8 }),
                    None => None,
                }
            },
        }
    }

    /// The larger of the two (see `num_max`).
    pub fn max(&self, other: &Self, precision: usize) -> (r: Self)
        requires
            self.wf(),
            other.wf(),
        ensures
            r.wf(),
            number_view(r) == num_max(number_view(*self), number_view(*other), precision),
    {
        match self.cmp(other, precision) {
            Some(c) => if c >= 0 { self.duplicate() } else { other.duplicate() },
            None => Number::nan(None),
        }
    }

    /// The smaller of the two (see `num_min`).
    pub fn min(&self, other: &Self, precision: usize) -> (r: Self)
        requires
            self.wf(),
            other.wf(),
        ensures
            r.wf(),
            number_view(r) == num_min(number_view(*self), number_view(*other), precision),
    {
        match self.cmp(other, precision) {
            Some(c) => if c <= 0 { self.duplicate() } else { other.duplicate() },
            None => Number::nan(None),
        }
    }

    /// `-self`.
    pub fn neg(&self) -> (r: Self)
        requires
            self.wf(),
        ensures
            r.wf(),
            number_view(r) == num_negated(number_view(*self)),
    {
        number_negated(self)
    }

    /// `|self|`.
    pub fn abs(&self) -> (r: Self)
        requires
            self.wf(),
        ensures
            r.wf(),
            number_view(r) == num_abs(number_view(*self)),
    {
        number_abs(self)
    }

    /// The largest integer not above the number (see `num_floor`).
    pub fn floor(&self) -> (r: Self)
        requires
            self.wf(),
        ensures
            r.wf(),
            number_view(r) == num_floor(number_view(*self)),
    {
        match self {
            Number::Rational(q) => Number::Rational(rational_floor(q)),
            Number::Float(f) => Number::from_float(carry_inexact(f, float_floor_of(f))),
        }
    }

    /// The smallest integer not below the number (see `num_ceil`).
    pub fn ceil(&self) -> (r: Self)
        requires
            self.wf(),
        ensures
            r.wf(),
            number_view(r) == num_ceil(number_view(*self)),
    {
        match self {
            Number::Rational(q) => Number::Rational(rational_ceil(q)),
            Number::Float(f) => Number::from_float(carry_inexact(f, float_ceil_of(f))),
        }
    }

    /// The nearest integer (see `num_round`).
    pub fn round(&self, precision: usize) -> (r: Self)
        requires
            self.wf(),
        ensures
            r.wf(),
            number_view(r) == num_round(number_view(*self), precision),
    {
        match self {
            Number::Rational(q) => Number::Rational(rational_round(q)),
            Number::Float(f) => {
                let c = float_ceil_of(f);
                let distance = absolute(float_sub(f, &c, precision));
                match float_compare(&distance, &half()) {
                    None => Number::nan(None),
                    Some(v) => if v <= 0 {
                        Number::from_float(carry_inexact(f, c))
                    } else {
                        Number::from_float(carry_inexact(f, float_floor_of(f)))
                    },
                }
            },
        }
    }

    /// `n!` of an exact integer from 0 to 10000; NaN otherwise (see `num_fac`).
    pub fn fac(&self) -> (r: Self)
        requires
            self.wf(),
        ensures
            r.wf(),
            number_view(r) == num_fac(number_view(*self)),
    {
        match self {
            Number::Rational(q) => {
                match crate::rational::rational_to_i32(q) {
                    Some(n) => {
                        if n < 0 || n > 10000 {
                            return Number::nan(None);
                        }
                        let mut acc = rational_from_i64(1);
                        let mut i: i32 = 1;
                        assert(factorial(0) == 1);
                        while i <= n
                            invariant
                                1 <= i <= n + 1,
                                n <= 10000,
                                acc.wf(),
                                acc.d() == 1,
                                acc.n() == factorial((i - 1) as nat),
                            decreases n + 1 - i,
                        {
                            let k = rational_from_i64(i as i64);
                            let next = rational_mul(&acc, &k);
                            proof {
                                lemma_integer_ratio(next, acc.n() * i);
                                assert(factorial(i as nat) == i * factorial((i - 1) as nat));
                            }
                            acc = next;
                            i = i + 1;
                        }
                        Number::Rational(acc)
                    },
                    None => {
                        proof {
                            if q.d() == 1 && 0 <= q.n() <= 10000 {
                                assert(i32::MIN <= q.n() <= i32::MAX);
                            }
                        }
                        Number::nan(None)
                    },
                }
            },
            Number::Float(_) => Number::nan(None),
        }
    }
}

// ---------------------------------------------------------------------------
// Powers
// ---------------------------------------------------------------------------

/// `q^e` for an integer `e` (`q` not zero when `e` is negative), in lowest terms.
pub open spec fn rat_pow(q: Ratio, e: int) -> Ratio {
    if e >= 0 {
        lowest_terms(int_pow(q.0, e as nat), int_pow(q.1, e as nat))
    } else {
        let (n, d) = (int_pow(q.1, (-e) as nat), int_pow(q.0, (-e) as nat));
        if d < 0 { lowest_terms(-n, -d) } else { lowest_terms(n, d) }
    }
}

pub open spec fn fits_i32(v: int) -> bool {
    i32::MIN <= v <= i32::MAX
}

/// `a^b` computed on floats from the two exact numbers.
pub open spec fn power_by_floats(a: Ratio, b: Ratio, p: usize) -> NumberView {
    let (fa, fb) = (float_of(rational_view(a), p), float_of(rational_view(b), p));
    number_of_float(combined(fa, fb, float_power(fa, fb, p as nat)))
}

/// The `b`-th root of the integer `a` (`b` at least one): on floats (a square root for
/// `b` two, else a power of `1/b`); at 164 bits of precision or more the root is rounded to
/// `min(p - 100, p * 8 / 10)` binary places, and where that rounded value is finite and
/// its `b`-th power gives back `a` exactly, the rounded value is the result, exact.
pub open spec fn int_root(a: int, b: int, p: usize) -> NumberView {
    let (fa, fb) = (float_of_int(a), float_of_int(b));
    let result = if b == 2 { float_root(fa, p as nat) } else {
        float_power(fa, float_quotient(float_of_int(1), fb, p as nat), p as nat)
    };
    if p < 164 {
        number_of_float(result)
    } else {
        let places: nat = if p - 100 <= p * 8 / 10 { (p - 100) as nat } else { (p * 8 / 10) as nat };
        let rounded = float_rounded(result, places);
        match rounded {
            FloatView::Finite(m, bits, negative, e, _) => {
                let r = float_ratio(m, negative, e as int);
                if fits_i32(b) {
                    let back = rat_pow(r, b);
                    if back.1 == 1 && back.0 == a { rational_view(r) } else { number_of_float(result) }
                } else if float_equal(float_power(rounded, fb, p as nat), fa) {
                    rational_view(r)
                } else {
                    number_of_float(result)
                }
            },
            _ => number_of_float(result),
        }
    }
}

/// `base^e` for two exact numbers: `base` for `e` one, one for `e` zero, NaN (division by
/// zero) for a negative `e` and `base` zero; an integer `e` in `i32` exactly; else
/// `(base^n)^(1/d)` for `e = n/d`, the roots of numerator and denominator taken apart
/// (see `int_root`); where `n` or an integer `e` is beyond `i32`, on floats.
pub open spec fn rat_power(base: Ratio, e: Ratio, p: usize) -> NumberView {
    if e.0 == e.1 {
        rational_view(base)
    } else if e.0 == 0 {
        NumberView::Rational(1, 1)
    } else if e.0 < 0 && base.0 == 0 {
        NumberView::Float(FloatView::NaN(Some(FloatError::DivisionByZero)))
    } else if e.1 == 1 {
        if fits_i32(e.0) { rational_view(rat_pow(base, e.0)) } else { power_by_floats(base, e, p) }
    } else if e.0 != 1 && !fits_i32(e.0) {
        power_by_floats(base, e, p)
    } else {
        let inter = if e.0 == 1 { base } else { rat_pow(base, e.0) };
        num_div(int_root(inter.0, e.1, p), int_root(inter.1, e.1, p), p)
    }
}

/// `a^b`: exact for two exact numbers (see `rat_power`), else on floats.
pub open spec fn num_pow(a: NumberView, b: NumberView, p: usize) -> NumberView {
    match (a, b) {
        (NumberView::Rational(x1, y1), NumberView::Rational(x2, y2)) => rat_power((x1, y1), (x2, y2), p),
        _ => via_floats(a, b, p, float_power(float_of(a, p), float_of(b, p), p as nat)),
    }
}

proof fn lemma_int_pow_sign(b: int, e: nat)
    ensures
        b > 0 ==> int_pow(b, e) > 0,
        b != 0 ==> int_pow(b, e) != 0,
    decreases e,
{
    if e > 0 {
        lemma_int_pow_sign(b, (e - 1) as nat);
        assert(b > 0 ==> b * int_pow(b, (e - 1) as nat) > 0) by (nonlinear_arith)
            requires b > 0 ==> int_pow(b, (e - 1) as nat) > 0;
        assert(b != 0 ==> b * int_pow(b, (e - 1) as nat) != 0) by (nonlinear_arith)
            requires b != 0 ==> int_pow(b, (e - 1) as nat) != 0;
    }
}

/// `Ratio::pow` as a fraction in lowest terms (see `rat_pow`).
fn power_of(q: &Rational, e: i32) -> (r: Rational)
    requires
        q.wf(),
        !(q.n() == 0 && e < 0),
    ensures
        r.wf(),
        (r.n(), r.d()) == rat_pow((q.n(), q.d()), e as int),
{
    let r = rational_pow(q, e);
    proof {
        if e >= 0 {
            lemma_int_pow_sign(q.d(), e as nat);
            lemma_lowest_terms(r, int_pow(q.n(), e as nat), int_pow(q.d(), e as nat));
        } else {
            let n = int_pow(q.d(), (-e) as nat);
            let d = int_pow(q.n(), (-e) as nat);
            lemma_int_pow_sign(q.n(), (-e) as nat);
            if d < 0 {
                lemma_ratio_negated(r, n, d);
                lemma_lowest_terms(r, -n, -d);
            } else {
                lemma_lowest_terms(r, n, d);
            }
        }
    }
    r
}

/// The integer as a rational.
fn rational_of_integer(x: &BigInteger) -> (r: Rational)
    requires
        x.wf(),
    ensures
        r.wf(),
        r.n() == x.value(),
        r.d() == 1,
{
    let r = Rational { numer: x.duplicate(), denom: integer_from_u64(1) };
    proof {
        lemma_gcd_one(abs(x.value()));
    }
    r
}

/// `a^(1/b)` for integers `a` and `b`, `b` at least one (see `int_root`).
pub fn big_int_to_power_of_inv_of_big_int(a: &BigInteger, b: &BigInteger, precision: usize) -> (r: Number)
    requires
        a.wf(),
        b.wf(),
        b.value() >= 1,
    ensures
        r.wf(),
        number_view(r) == int_root(a.value(), b.value(), precision),
{
    root_of_integer(&rational_of_integer(a), &rational_of_integer(b), precision)
}

/// `a^b` on floats from two exact numbers (see `power_by_floats`).
fn power_by_floats_of(a: &Rational, b: &Rational, precision: usize) -> (r: Number)
    requires
        a.wf(),
        b.wf(),
    ensures
        r.wf(),
        number_view(r) == power_by_floats((a.n(), a.d()), (b.n(), b.d()), precision),
{
    let fa = Number::Rational(a.duplicate()).get_float(precision);
    let fb = Number::Rational(b.duplicate()).get_float(precision);
    let s = float_pow(&fa, &fb, precision);
    Number::from_float(combine(&fa, &fb, s))
}

/// The binary places that a root is rounded to: `min(p - 100, p * 8 / 10)`.
fn rounding_places(precision: usize) -> (r: usize)
    requires
        precision >= 164,
    ensures
        r == (if precision - 100 <= precision * 8 / 10 { (precision - 100) as nat } else { (precision * 8 / 10) as nat }),
{
    let eighty_percent: usize = ((precision as u128) * 8 / 10) as usize;
    if precision - 100 <= eighty_percent { precision - 100 } else { eighty_percent }
}

/// The `b`-th root of the integer `a` (see `int_root`).
fn root_of_integer(a: &Rational, b: &Rational, precision: usize) -> (r: Number)
    requires
        a.wf(),
        b.wf(),
        a.d() == 1,
        b.d() == 1,
        b.n() >= 1,
    ensures
        r.wf(),
        number_view(r) == int_root(a.n(), b.n(), precision),
{
    let fa = float_from_integer(&a.numer);
    let fb = float_from_integer(&b.numer);
    let two = rational_from_i64(2);
    let result = if rational_cmp(b, &two) == 0 {
        float_sqrt(&fa, precision)
    } else {
        let one = float_from_integer(&crate::rational::integer_from_i64(1));
        let inverse = float_div(&one, &fb, precision);
        float_pow(&fa, &inverse, precision)
    };
    if precision < 164 {
        return Number::from_float(result);
    }
    let rounded = float_round_to(&result, rounding_places(precision));
    match &rounded {
        FloatValue::Finite { mantissa, negative, exponent, .. } => {
            let r = rational_from_float_parts(mantissa, *negative, *exponent);
            match crate::rational::rational_to_i32(b) {
                Some(k) => {
                    let back = power_of(&r, k);
                    let a_value = rational_of_integer(&a.numer);
                    if crate::rational::rational_is_integer(&back) && rational_cmp(&back, &a_value) == 0 {
                        Number::Rational(r)
                    } else {
                        Number::from_float(result)
                    }
                },
                None => {
                    let check = float_pow(&rounded, &fb, precision);
                    if float_values_equal(&check, &fa) {
                        Number::Rational(r)
                    } else {
                        Number::from_float(result)
                    }
                },
            }
        },
        _ => Number::from_float(result),
    }
}

/// `base^e` for two exact numbers (see `rat_power`).
pub fn power_rational_and_rational(base: &Rational, e: &Rational, precision: usize) -> (r: Number)
    requires
        base.wf(),
        e.wf(),
    ensures
        r.wf(),
        number_view(r) == rat_power((base.n(), base.d()), (e.n(), e.d()), precision),
{
    if crate::rational::rational_is_one(e) {
        return Number::Rational(base.duplicate());
    }
    if rational_is_zero(e) {
        return Number::Rational(rational_from_i64(1));
    }
    if rational_is_negative(e) && rational_is_zero(base) {
        return Number::nan(Some(FloatError::DivisionByZero));
    }
    if crate::rational::rational_is_integer(e) {
        return match crate::rational::rational_to_i32(e) {
            Some(k) => Number::Rational(power_of(base, k)),
            None => power_by_floats_of(base, e, precision),
        };
    }
    let one = rational_from_i64(1);
    let numerator = rational_of_integer(&e.numer);
    let inter = if rational_cmp(&numerator, &one) == 0 {
        base.duplicate()
    } else {
        match crate::rational::rational_to_i32(&numerator) {
            Some(k) => power_of(base, k),
            None => return power_by_floats_of(base, e, precision),
        }
    };
    let root = rational_of_integer(&e.denom);
    let n = root_of_integer(&rational_of_integer(&inter.numer), &root, precision);
    let d = root_of_integer(&rational_of_integer(&inter.denom), &root, precision);
    n.div(&d, precision)
}

impl Number {
    /// `self^other` (see `num_pow`).
    pub fn pow(&self, other: &Self, precision: usize) -> (r: Self)
        requires
            self.wf(),
            other.wf(),
        ensures
            r.wf(),
            number_view(r) == num_pow(number_view(*self), number_view(*other), precision),
    {
        match (self, other) {
            (Number::Rational(a), Number::Rational(b)) => power_rational_and_rational(a, b, precision),
            _ => {
                let fa = self.get_float(precision);
                let fb = other.get_float(precision);
                let s = float_pow(&fa, &fb, precision);
                Number::from_float(combine(&fa, &fb, s))
            },
        }
    }
}

// ---------------------------------------------------------------------------
// Lists of numbers
// ---------------------------------------------------------------------------

pub open spec fn number_views(s: Seq<Number>) -> Seq<NumberView> {
    s.map_values(|n: Number| number_view(n))
}

pub open spec fn option_view(r: Option<Number>) -> Option<NumberView> {
    match r {
        Some(n) => Some(number_view(n)),
        None => None,
    }
}

pub open spec fn all_wf(s: Seq<Number>) -> bool {
    forall|i: int| 0 <= i < s.len() ==> (#[trigger] s[i]).wf()
}

/// The sum, added from the left starting at zero.
pub open spec fn num_sum(s: Seq<NumberView>, p: usize) -> NumberView
    decreases s.len(),
{
    if s.len() == 0 { NumberView::Rational(0, 1) } else { num_plus(num_sum(s.drop_last(), p), s.last(), p) }
}

/// The mean: `None` for no numbers, the number itself for one, else the sum divided by
/// the count.
pub open spec fn num_average(s: Seq<NumberView>, p: usize) -> Option<NumberView> {
    if s.len() == 0 {
        None
    } else if s.len() == 1 {
        Some(s[0])
    } else {
        Some(num_div(num_sum(s, p), NumberView::Rational(s.len() as int, 1), p))
    }
}

pub open spec fn any_nan(s: Seq<NumberView>) -> bool {
    exists|i: int| 0 <= i < s.len() && #[trigger] s[i] matches NumberView::Float(FloatView::NaN(_))
}

/// The largest number as `max_by` finds it: going from the left, a later number replaces
/// the one kept unless the kept one is greater; `None` where two cannot be compared.
pub open spec fn max_fold(s: Seq<NumberView>, p: usize) -> Option<NumberView>
    decreases s.len(),
{
    if s.len() <= 1 {
        if s.len() == 1 { Some(s[0]) } else { None }
    } else {
        match max_fold(s.drop_last(), p) {
            Some(acc) => match num_order(acc, s.last(), p) {
                Some(c) => Some(if c > 0 { acc } else { s.last() }),
                None => None,
            },
            None => None,
        }
    }
}

/// The smallest number as `min_by` finds it: going from the left, a later number replaces
/// the one kept only if the kept one is greater; `None` where two cannot be compared.
pub open spec fn min_fold(s: Seq<NumberView>, p: usize) -> Option<NumberView>
    decreases s.len(),
{
    if s.len() <= 1 {
        if s.len() == 1 { Some(s[0]) } else { None }
    } else {
        match min_fold(s.drop_last(), p) {
            Some(acc) => match num_order(acc, s.last(), p) {
                Some(c) => Some(if c > 0 { s.last() } else { acc }),
                None => None,
            },
            None => None,
        }
    }
}

/// The maximum of several numbers: `None` for none, the number for one, NaN if one is
/// NaN (or two cannot be compared), else `max_fold`.
pub open spec fn num_max_of_several(s: Seq<NumberView>, p: usize) -> Option<NumberView> {
    if s.len() == 0 {
        None
    } else if s.len() == 1 {
        Some(s[0])
    } else if any_nan(s) {
        Some(nan_number())
    } else {
        match max_fold(s, p) {
            Some(m) => Some(m),
            None => Some(nan_number()),
        }
    }
}

/// The minimum of several numbers, as `num_max_of_several` with `min_fold`.
pub open spec fn num_min_of_several(s: Seq<NumberView>, p: usize) -> Option<NumberView> {
    if s.len() == 0 {
        None
    } else if s.len() == 1 {
        Some(s[0])
    } else if any_nan(s) {
        Some(nan_number())
    } else {
        match min_fold(s, p) {
            Some(m) => Some(m),
            None => Some(nan_number()),
        }
    }
}

/// The order is known and at most `k`.
pub open spec fn order_at_most(o: Option<int>, k: int) -> bool {
    o matches Some(c) && c <= k
}

/// Each number is at most the next.
pub open spec fn sorted_numbers(s: Seq<NumberView>, p: usize) -> bool {
    forall|i: int| 0 <= i < s.len() - 1 ==> order_at_most(#[trigger] num_order(s[i], s[i + 1], p), 0)
}

/// Some two of the numbers cannot be compared.
pub open spec fn incomparable_pair(s: Seq<NumberView>, p: usize) -> bool {
    exists|i: int, j: int| 0 <= i < s.len() && 0 <= j < s.len() && #[trigger] num_order(s[i], s[j], p) is None
}

/// The middle of sorted numbers: the middle one for an odd count, else the mean of the
/// two in the middle.
pub open spec fn middle_of(t: Seq<NumberView>, p: usize) -> NumberView {
    let m: int = (t.len() / 2) as int;
    if t.len() % 2 == 1 { t[m] } else { num_div(num_plus(t[m - 1], t[m], p), NumberView::Rational(2, 1), p) }
}

/// What the median may be: `None` for no numbers, the number for one, NaN if one is NaN;
/// else the middle of the numbers sorted (see `middle_of`), or NaN where two of them cannot
/// be compared.
pub open spec fn median_is(s: Seq<NumberView>, p: usize, r: Option<NumberView>) -> bool {
    if s.len() == 0 {
        r is None
    } else if s.len() == 1 {
        r == Some(s[0])
    } else if any_nan(s) {
        r == Some(nan_number())
    } else {
        ||| exists|t: Seq<NumberView>| t.to_multiset() == s.to_multiset() && sorted_numbers(t, p) && r == Some(middle_of(t, p))
        ||| incomparable_pair(s, p) && r == Some(nan_number())
    }
}

pub(crate) proof fn lemma_number_views_push(s: Seq<Number>, n: Number)
    ensures
        number_views(s.push(n)) == number_views(s).push(number_view(n)),
{
    assert(number_views(s.push(n)) =~= number_views(s).push(number_view(n)));
}

/// Whether one of the numbers is NaN.
fn has_nan(v: &Vec<Number>) -> (b: bool)
    ensures
        b == any_nan(number_views(v@)),
{
    let mut i: usize = 0;
    while i < v.len()
        invariant
            i <= v@.len(),
            forall|j: int| 0 <= j < i ==> !(#[trigger] number_views(v@)[j] matches NumberView::Float(FloatView::NaN(_))),
        decreases v.len() - i,
    {
        if v[i].is_nan() {
            assert(number_views(v@)[i as int] matches NumberView::Float(FloatView::NaN(_)));
            return true;
        }
        i = i + 1;
    }
    false
}

impl Number {
    /// The sum of the numbers (see `num_sum`).
    pub fn sum(numbers: &Vec<Number>, precision: usize) -> (r: Number)
        requires
            all_wf(numbers@),
        ensures
            r.wf(),
            number_view(r) == num_sum(number_views(numbers@), precision),
    {
        let mut acc = Number::Rational(rational_from_i64(0));
        let mut i: usize = 0;
        while i < numbers.len()
            invariant
                i <= numbers@.len(),
                all_wf(numbers@),
                acc.wf(),
                number_view(acc) == num_sum(number_views(numbers@.take(i as int)), precision),
            decreases numbers.len() - i,
        {
            proof {
                assert(numbers@.take(i + 1) =~= numbers@.take(i as int).push(numbers@[i as int]));
                lemma_number_views_push(numbers@.take(i as int), numbers@[i as int]);
                let vs = number_views(numbers@.take(i + 1));
                assert(vs.drop_last() =~= number_views(numbers@.take(i as int)));
                assert(vs.last() == number_view(numbers@[i as int]));
            }
            acc = acc.plus(&numbers[i], precision);
            i = i + 1;
        }
        assert(numbers@.take(numbers@.len() as int) =~= numbers@);
        acc
    }

    /// The mean of the numbers (see `num_average`).
    pub fn average(numbers: &Vec<Number>, precision: usize) -> (r: Option<Number>)
        requires
            all_wf(numbers@),
        ensures
            r matches Some(n) ==> n.wf(),
            option_view(r) == num_average(number_views(numbers@), precision),
    {
        if numbers.len() == 0 {
            return None;
        }
        if numbers.len() == 1 {
            return Some(numbers[0].duplicate());
        }
        let count = Number::Rational(rational_from_u64(numbers.len() as u64));
        Some(Number::sum(numbers, precision).div(&count, precision))
    }
}

/// How `a` compares to `b` (see `Number::cmp`).
fn compare_numbers(a: &Number, b: &Number, precision: usize) -> (r: Option<i8>)
    requires
        a.wf(),
        b.wf(),
    ensures
        r == order_result(num_order(number_view(*a), number_view(*b), precision)),
        order_result(num_order(number_view(*b), number_view(*a), precision)) == reversed_order(r),
{
    a.cmp(b, precision)
}

proof fn lemma_max_fold_none(s: Seq<NumberView>, k: int, p: usize)
    requires
        2 <= k <= s.len(),
        max_fold(s.take(k), p) is None,
    ensures
        max_fold(s, p) is None,
    decreases s.len() - k,
{
    if k < s.len() {
        let t = s.take(k + 1);
        assert(t.drop_last() =~= s.take(k));
        lemma_max_fold_none(s, k + 1, p);
    } else {
        assert(s.take(k) =~= s);
    }
}

proof fn lemma_min_fold_none(s: Seq<NumberView>, k: int, p: usize)
    requires
        2 <= k <= s.len(),
        min_fold(s.take(k), p) is None,
    ensures
        min_fold(s, p) is None,
    decreases s.len() - k,
{
    if k < s.len() {
        let t = s.take(k + 1);
        assert(t.drop_last() =~= s.take(k));
        lemma_min_fold_none(s, k + 1, p);
    } else {
        assert(s.take(k) =~= s);
    }
}

impl Number {
    /// The largest of several numbers (see `num_max_of_several`).
    pub fn max_of_several(numbers: &Vec<Number>, precision: usize) -> (r: Option<Number>)
        requires
            all_wf(numbers@),
        ensures
            r matches Some(n) ==> n.wf(),
            option_view(r) == num_max_of_several(number_views(numbers@), precision),
    {
        let ghost views = number_views(numbers@);
        if numbers.len() == 0 {
            return None;
        }
        if numbers.len() == 1 {
            return Some(numbers[0].duplicate());
        }
        if has_nan(numbers) {
            return Some(Number::nan(None));
        }
        let mut acc = numbers[0].duplicate();
        let mut i: usize = 1;
        assert(views.take(1).len() == 1);
        while i < numbers.len()
            invariant
                1 <= i <= numbers@.len(),
                views == number_views(numbers@),
                all_wf(numbers@),
                acc.wf(),
                max_fold(views.take(i as int), precision) == Some(number_view(acc)),
            decreases numbers.len() - i,
        {
            proof {
                let t = views.take(i + 1);
                assert(t.drop_last() =~= views.take(i as int));
                assert(t.last() == number_view(numbers@[i as int]));
            }
            match compare_numbers(&acc, &numbers[i], precision) {
                None => {
                    proof { lemma_max_fold_none(views, i + 1, precision); }
                    return Some(Number::nan(None));
                },
                Some(c) => {
                    if c <= 0 {
                        acc = numbers[i].duplicate();
                    }
                },
            }
            i = i + 1;
        }
        assert(views.take(numbers@.len() as int) =~= views);
        Some(acc)
    }

    /// The smallest of several numbers (see `num_min_of_several`).
    pub fn min_of_several(numbers: &Vec<Number>, precision: usize) -> (r: Option<Number>)
        requires
            all_wf(numbers@),
        ensures
            r matches Some(n) ==> n.wf(),
            option_view(r) == num_min_of_several(number_views(numbers@), precision),
    {
        let ghost views = number_views(numbers@);
        if numbers.len() == 0 {
            return None;
        }
        if numbers.len() == 1 {
            return Some(numbers[0].duplicate());
        }
        if has_nan(numbers) {
            return Some(Number::nan(None));
        }
        let mut acc = numbers[0].duplicate();
        let mut i: usize = 1;
        assert(views.take(1).len() == 1);
        while i < numbers.len()
            invariant
                1 <= i <= numbers@.len(),
                views == number_views(numbers@),
                all_wf(numbers@),
                acc.wf(),
                min_fold(views.take(i as int), precision) == Some(number_view(acc)),
            decreases numbers.len() - i,
        {
            proof {
                let t = views.take(i + 1);
                assert(t.drop_last() =~= views.take(i as int));
                assert(t.last() == number_view(numbers@[i as int]));
            }
            match compare_numbers(&acc, &numbers[i], precision) {
                None => {
                    proof { lemma_min_fold_none(views, i + 1, precision); }
                    return Some(Number::nan(None));
                },
                Some(c) => {
                    if c > 0 {
                        acc = numbers[i].duplicate();
                    }
                },
            }
            i = i + 1;
        }
        assert(views.take(numbers@.len() as int) =~= views);
        Some(acc)
    }
}

/// `x` inserted into `t` before the first number it is below (after all it is not below);
/// `None` where `x` cannot be compared with one it meets.
pub open spec fn insert_sorted(t: Seq<NumberView>, x: NumberView, p: usize) -> Option<Seq<NumberView>>
    decreases t.len(),
{
    if t.len() == 0 {
        Some(seq![x])
    } else {
        match num_order(x, t[0], p) {
            None => None,
            Some(c) => if c < 0 {
                Some(seq![x] + t)
            } else {
                match insert_sorted(t.skip(1), x, p) {
                    Some(u) => Some(seq![t[0]] + u),
                    None => None,
                }
            },
        }
    }
}

/// The numbers sorted by inserting them one after another (see `insert_sorted`).
pub open spec fn insertion_sorted(s: Seq<NumberView>, p: usize) -> Option<Seq<NumberView>>
    decreases s.len(),
{
    if s.len() == 0 {
        Some(Seq::empty())
    } else {
        match insertion_sorted(s.drop_last(), p) {
            Some(t) => insert_sorted(t, s.last(), p),
            None => None,
        }
    }
}

/// The median: `None` for no numbers, the number for one, NaN if one is NaN; else the
/// middle of the numbers sorted by insertion (see `middle_of`), NaN where two of them
/// cannot be compared.
pub open spec fn num_median(s: Seq<NumberView>, p: usize) -> Option<NumberView> {
    if s.len() == 0 {
        None
    } else if s.len() == 1 {
        Some(s[0])
    } else if any_nan(s) {
        Some(nan_number())
    } else {
        match insertion_sorted(s, p) {
            Some(t) => Some(middle_of(t, p)),
            None => Some(nan_number()),
        }
    }
}

pub open spec fn order_below(o: Option<int>, k: int) -> bool {
    o matches Some(c) && c < k
}

pub open spec fn order_at_least(o: Option<int>, k: int) -> bool {
    o matches Some(c) && c >= k
}

proof fn lemma_insert_sorted_at(t: Seq<NumberView>, x: NumberView, j: int, p: usize)
    requires
        0 <= j <= t.len(),
        forall|k: int| 0 <= k < j ==> order_at_least(#[trigger] num_order(x, t[k], p), 0),
    ensures
        j < t.len() && order_below(num_order(x, t[j], p), 0) ==> insert_sorted(t, x, p) == Some(t.insert(j, x)),
        j == t.len() ==> insert_sorted(t, x, p) == Some(t.insert(j, x)),
        j < t.len() && num_order(x, t[j], p) is None ==> insert_sorted(t, x, p) is None,
    decreases j,
{
    if j > 0 {
        let u = t.skip(1);
        assert forall|k: int| 0 <= k < j - 1 implies order_at_least(#[trigger] num_order(x, u[k], p), 0) by {
            assert(u[k] == t[k + 1]);
            assert(order_at_least(num_order(x, t[k + 1], p), 0));
        }
        lemma_insert_sorted_at(u, x, j - 1, p);
        assert(order_at_least(num_order(x, t[0], p), 0));
        if j < t.len() {
            assert(u[j - 1] == t[j]);
        }
        assert(seq![t[0]] + u.insert(j - 1, x) =~= t.insert(j, x));
    } else {
        assert(seq![x] + t =~= t.insert(0, x));
        if t.len() == 0 {
            assert(seq![x] =~= t.insert(0, x));
        }
    }
}

proof fn lemma_insertion_sorted_none(s: Seq<NumberView>, k: int, p: usize)
    requires
        0 <= k <= s.len(),
        insertion_sorted(s.take(k), p) is None,
    ensures
        insertion_sorted(s, p) is None,
    decreases s.len() - k,
{
    if k < s.len() {
        assert(s.take(k + 1).drop_last() =~= s.take(k));
        lemma_insertion_sorted_none(s, k + 1, p);
    } else {
        assert(s.take(k) =~= s);
    }
}

proof fn lemma_number_views_insert(s: Seq<Number>, j: int, n: Number)
    requires
        0 <= j <= s.len(),
    ensures
        number_views(s.insert(j, n)) == number_views(s).insert(j, number_view(n)),
{
    assert(number_views(s.insert(j, n)) =~= number_views(s).insert(j, number_view(n)));
}

/// Inserting `x` at `j` keeps numbers sorted when the number before is at most `x` and `x`
/// is at most the number after.
proof fn lemma_sorted_insert(t: Seq<NumberView>, j: int, x: NumberView, p: usize)
    requires
        0 <= j <= t.len(),
        sorted_numbers(t, p),
        j > 0 ==> order_at_most(num_order(t[j - 1], x, p), 0),
        j < t.len() ==> order_at_most(num_order(x, t[j], p), 0),
    ensures
        sorted_numbers(t.insert(j, x), p),
{
    let u = t.insert(j, x);
    assert forall|i: int| 0 <= i < u.len() - 1 implies order_at_most(#[trigger] num_order(u[i], u[i + 1], p), 0) by {
        if i + 1 < j {
            assert(u[i] == t[i] && u[i + 1] == t[i + 1]);
            assert(order_at_most(num_order(t[i], t[i + 1], p), 0));
        } else if i + 1 == j {
            assert(u[i] == t[j - 1] && u[i + 1] == x);
        } else if i == j {
            assert(u[i] == x && u[i + 1] == t[j]);
        } else {
            let k = i - 1;
            assert(u[i] == t[k] && u[i + 1] == t[k + 1]);
            assert(order_at_most(num_order(t[k], t[k + 1], p), 0));
        }
    }
}

impl Number {
    /// The median of the numbers (see `median_is`): sorted by `Number::cmp`, the middle
    /// number, or the mean of the two in the middle.
    pub fn median(numbers: &Vec<Number>, precision: usize) -> (r: Option<Number>)
        requires
            all_wf(numbers@),
        ensures
            r matches Some(n) ==> n.wf(),
            option_view(r) == num_median(number_views(numbers@), precision),
            median_is(number_views(numbers@), precision, option_view(r)),
    {
        let ghost views = number_views(numbers@);
        if numbers.len() == 0 {
            return None;
        }
        if numbers.len() == 1 {
            return Some(numbers[0].duplicate());
        }
        if has_nan(numbers) {
            return Some(Number::nan(None));
        }
        let mut sorted: Vec<Number> = Vec::new();
        let mut i: usize = 0;
        assert(number_views(sorted@) =~= views.take(0));
        while i < numbers.len()
            invariant
                i <= numbers@.len(),
                views == number_views(numbers@),
                all_wf(numbers@),
                all_wf(sorted@),
                !any_nan(views),
                numbers@.len() >= 2,
                number_views(sorted@).to_multiset() == views.take(i as int).to_multiset(),
                sorted_numbers(number_views(sorted@), precision),
                insertion_sorted(views.take(i as int), precision) == Some(number_views(sorted@)),
            decreases numbers.len() - i,
        {
            let x = numbers[i].duplicate();
            let ghost t = number_views(sorted@);
            let mut j: usize = 0;
            while j < sorted.len()
                invariant
                    j <= sorted@.len(),
                    t == number_views(sorted@),
                    all_wf(sorted@),
                    x.wf(),
                    i < numbers@.len(),
                    views == number_views(numbers@),
                    number_view(x) == views[i as int],
                    t.to_multiset() == views.take(i as int).to_multiset(),
                    forall|k: int| 0 <= k < j ==> order_at_least(#[trigger] num_order(number_view(x), t[k], precision), 0),
                    insertion_sorted(views.take(i as int), precision) == Some(t),
                    j > 0 ==> order_at_most(num_order(t[j - 1], number_view(x), precision), 0),
                ensures
                    j > 0 ==> order_at_most(num_order(t[j - 1], number_view(x), precision), 0),
                    j < sorted@.len() ==> order_at_most(num_order(number_view(x), t[j as int], precision), 0),
                    j <= sorted@.len(),
                    forall|k: int| 0 <= k < j ==> order_at_least(#[trigger] num_order(number_view(x), t[k], precision), 0),
                    j < sorted@.len() ==> order_below(num_order(number_view(x), t[j as int], precision), 0),
                decreases sorted.len() - j,
            {
                match compare_numbers(&x, &sorted[j], precision) {
                    None => {
                        proof {
                            assert(t.contains(t[j as int]));
                            vstd::seq_lib::to_multiset_contains(t, t[j as int]);
                            vstd::seq_lib::to_multiset_contains(views.take(i as int), t[j as int]);
                            let k = choose|k: int| 0 <= k < views.take(i as int).len() && views.take(i as int)[k] == t[j as int];
                            assert(views[k] == t[j as int]);
                            assert(views[i as int] == number_view(x));
                            assert(num_order(views[i as int], views[k], precision) is None);
                            lemma_insert_sorted_at(t, number_view(x), j as int, precision);
                            assert(views.take(i + 1).drop_last() =~= views.take(i as int));
                            assert(views.take(i + 1).last() == number_view(x));
                            lemma_insertion_sorted_none(views, i + 1, precision);
                        }
                        return Some(Number::nan(None));
                    },
                    Some(c) => {
                        if c < 0 {
                            break;
                        }
                    },
                }
                j = j + 1;
            }
            proof {
                lemma_insert_sorted_at(t, number_view(x), j as int, precision);
                assert(views.take(i + 1).drop_last() =~= views.take(i as int));
                assert(views.take(i + 1).last() == number_view(x));
                lemma_sorted_insert(t, j as int, number_view(x), precision);
                lemma_number_views_insert(sorted@, j as int, x);
                vstd::seq_lib::to_multiset_insert(t, j as int, number_view(x));
                assert(views.take(i + 1) =~= views.take(i as int).push(views[i as int]));
                vstd::seq_lib::to_multiset_build(views.take(i as int), views[i as int]);
            }
            let ghost before = sorted@;
            let ghost xv = x;
            sorted.insert(j, x);
            proof {
                assert(sorted@ == before.insert(j as int, xv));
                assert forall|k: int| 0 <= k < sorted@.len() implies (#[trigger] sorted@[k]).wf() by {
                    if k < j {
                        assert(sorted@[k] == before[k]);
                    } else if k == j {
                        assert(sorted@[k] == xv);
                    } else {
                        assert(sorted@[k] == before[k - 1]);
                    }
                }
            }
            i = i + 1;
        }
        assert(views.take(numbers@.len() as int) =~= views);
        proof {
            vstd::seq_lib::to_multiset_len(number_views(sorted@));
            vstd::seq_lib::to_multiset_len(views);
        }
        let m = sorted.len() / 2;
        let middle = if sorted.len() % 2 == 1 {
            sorted[m].duplicate()
        } else {
            let two = Number::Rational(rational_from_i64(2));
            sorted[m - 1].plus(&sorted[m], precision).div(&two, precision)
        };
        proof {
            let t = number_views(sorted@);
            vstd::seq_lib::to_multiset_len(t);
            vstd::seq_lib::to_multiset_len(views);
            assert(t.len() == sorted@.len());
            assert(t.to_multiset() == views.to_multiset() && sorted_numbers(t, precision) && Some(number_view(middle)) == Some(middle_of(t, precision)));
        }
        Some(middle)
    }
}

// ---------------------------------------------------------------------------
// Functions computed on floats
// ---------------------------------------------------------------------------

/// `BigFloat::sin`: the sine.
pub uninterp spec fn float_sine(a: FloatView, p: nat) -> FloatView;
/// `BigFloat::asin`: the arcsine.
pub uninterp spec fn float_arcsine(a: FloatView, p: nat) -> FloatView;
/// `BigFloat::cos`: the cosine.
pub uninterp spec fn float_cosine(a: FloatView, p: nat) -> FloatView;
/// `BigFloat::acos`: the arccosine.
pub uninterp spec fn float_arccosine(a: FloatView, p: nat) -> FloatView;
/// `BigFloat::tan`: the tangent.
pub uninterp spec fn float_tangent(a: FloatView, p: nat) -> FloatView;
/// `BigFloat::atan`: the arctangent.
pub uninterp spec fn float_arctangent(a: FloatView, p: nat) -> FloatView;
/// `BigFloat::log2`: the logarithm to base two.
pub uninterp spec fn float_log2(a: FloatView, p: nat) -> FloatView;
/// `BigFloat::log10`: the logarithm to base ten.
pub uninterp spec fn float_log10(a: FloatView, p: nat) -> FloatView;
/// `BigFloat::ln`: the natural logarithm.
pub uninterp spec fn float_ln(a: FloatView, p: nat) -> FloatView;

/// The number of a float function's result `r` on `a` taken as a float: inexact if the
/// operand was, and exact floats made rationals.
pub open spec fn on_float(a: NumberView, p: usize, r: FloatView) -> NumberView {
    number_of_float(carried(float_of(a, p), r))
}

/// `BigFloat::sin` with a fresh constants cache (see `float_sine`).
#[verifier::external_body]
pub(crate) fn float_sine_of(a: &FloatValue, precision: usize) -> (r: FloatValue)
    ensures
        float_view(r) == float_sine(float_view(*a), precision as nat),
{
    let mut cc = astro_float::Consts::new().expect("Constants cache initialized");
    float_value_of(big_float_of(a).sin(precision, astro_float::RoundingMode::ToEven, &mut cc))
}

/// `BigFloat::asin` with a fresh constants cache (see `float_arcsine`).
#[verifier::external_body]
fn float_arcsine_of(a: &FloatValue, precision: usize) -> (r: FloatValue)
    ensures
        float_view(r) == float_arcsine(float_view(*a), precision as nat),
{
    let mut cc = astro_float::Consts::new().expect("Constants cache initialized");
    float_value_of(big_float_of(a).asin(precision, astro_float::RoundingMode::ToEven, &mut cc))
}

/// `BigFloat::cos` with a fresh constants cache (see `float_cosine`).
#[verifier::external_body]
fn float_cosine_of(a: &FloatValue, precision: usize) -> (r: FloatValue)
    ensures
        float_view(r) == float_cosine(float_view(*a), precision as nat),
{
    let mut cc = astro_float::Consts::new().expect("Constants cache initialized");
    float_value_of(big_float_of(a).cos(precision, astro_float::RoundingMode::ToEven, &mut cc))
}

/// `BigFloat::acos` with a fresh constants cache (see `float_arccosine`).
#[verifier::external_body]
fn float_arccosine_of(a: &FloatValue, precision: usize) -> (r: FloatValue)
    ensures
        float_view(r) == float_arccosine(float_view(*a), precision as nat),
{
    let mut cc = astro_float::Consts::new().expect("Constants cache initialized");
    float_value_of(big_float_of(a).acos(precision, astro_float::RoundingMode::ToEven, &mut cc))
}

/// `BigFloat::tan` with a fresh constants cache (see `float_tangent`).
#[verifier::external_body]
fn float_tangent_of(a: &FloatValue, precision: usize) -> (r: FloatValue)
    ensures
        float_view(r) == float_tangent(float_view(*a), precision as nat),
{
    let mut cc = astro_float::Consts::new().expect("Constants cache initialized");
    float_value_of(big_float_of(a).tan(precision, astro_float::RoundingMode::ToEven, &mut cc))
}

/// `BigFloat::atan` with a fresh constants cache (see `float_arctangent`).
#[verifier::external_body]
fn float_arctangent_of(a: &FloatValue, precision: usize) -> (r: FloatValue)
    ensures
        float_view(r) == float_arctangent(float_view(*a), precision as nat),
{
    let mut cc = astro_float::Consts::new().expect("Constants cache initialized");
    float_value_of(big_float_of(a).atan(precision, astro_float::RoundingMode::ToEven, &mut cc))
}

/// `BigFloat::log2` with a fresh constants cache (see `float_log2`).
#[verifier::external_body]
fn float_log2_of(a: &FloatValue, precision: usize) -> (r: FloatValue)
    ensures
        float_view(r) == float_log2(float_view(*a), precision as nat),
{
    let mut cc = astro_float::Consts::new().expect("Constants cache initialized");
    float_value_of(big_float_of(a).log2(precision, astro_float::RoundingMode::ToEven, &mut cc))
}

/// `BigFloat::log10` with a fresh constants cache (see `float_log10`).
#[verifier::external_body]
fn float_log10_of(a: &FloatValue, precision: usize) -> (r: FloatValue)
    ensures
        float_view(r) == float_log10(float_view(*a), precision as nat),
{
    let mut cc = astro_float::Consts::new().expect("Constants cache initialized");
    float_value_of(big_float_of(a).log10(precision, astro_float::RoundingMode::ToEven, &mut cc))
}

/// `BigFloat::ln` with a fresh constants cache (see `float_ln`).
#[verifier::external_body]
fn float_ln_of(a: &FloatValue, precision: usize) -> (r: FloatValue)
    ensures
        float_view(r) == float_ln(float_view(*a), precision as nat),
{
    let mut cc = astro_float::Consts::new().expect("Constants cache initialized");
    float_value_of(big_float_of(a).ln(precision, astro_float::RoundingMode::ToEven, &mut cc))
}

impl Number {
    /// The sine, on the number as a float (see `float_sine`).
    pub fn sin(&self, precision: usize) -> (r: Self)
        requires
            self.wf(),
        ensures
            r.wf(),
            number_view(r) == on_float(number_view(*self), precision, float_sine(float_of(number_view(*self), precision), precision as nat)),
    {
        let f = self.get_float(precision);
        let v = float_sine_of(&f, precision);
        Number::from_float(carry_inexact(&f, v))
    }

    /// The arcsine, on the number as a float (see `float_arcsine`).
    pub fn asin(&self, precision: usize) -> (r: Self)
        requires
            self.wf(),
        ensures
            r.wf(),
            number_view(r) == on_float(number_view(*self), precision, float_arcsine(float_of(number_view(*self), precision), precision as nat)),
    {
        let f = self.get_float(precision);
        let v = float_arcsine_of(&f, precision);
        Number::from_float(carry_inexact(&f, v))
    }

    /// The cosine, on the number as a float (see `float_cosine`).
    pub fn cos(&self, precision: usize) -> (r: Self)
        requires
            self.wf(),
        ensures
            r.wf(),
            number_view(r) == on_float(number_view(*self), precision, float_cosine(float_of(number_view(*self), precision), precision as nat)),
    {
        let f = self.get_float(precision);
        let v = float_cosine_of(&f, precision);
        Number::from_float(carry_inexact(&f, v))
    }

    /// The arccosine, on the number as a float (see `float_arccosine`).
    pub fn acos(&self, precision: usize) -> (r: Self)
        requires
            self.wf(),
        ensures
            r.wf(),
            number_view(r) == on_float(number_view(*self), precision, float_arccosine(float_of(number_view(*self), precision), precision as nat)),
    {
        let f = self.get_float(precision);
        let v = float_arccosine_of(&f, precision);
        Number::from_float(carry_inexact(&f, v))
    }

    /// The tangent, on the number as a float (see `float_tangent`).
    pub fn tan(&self, precision: usize) -> (r: Self)
        requires
            self.wf(),
        ensures
            r.wf(),
            number_view(r) == on_float(number_view(*self), precision, float_tangent(float_of(number_view(*self), precision), precision as nat)),
    {
        let f = self.get_float(precision);
        let v = float_tangent_of(&f, precision);
        Number::from_float(carry_inexact(&f, v))
    }

    /// The arctangent, on the number as a float (see `float_arctangent`).
    pub fn atan(&self, precision: usize) -> (r: Self)
        requires
            self.wf(),
        ensures
            r.wf(),
            number_view(r) == on_float(number_view(*self), precision, float_arctangent(float_of(number_view(*self), precision), precision as nat)),
    {
        let f = self.get_float(precision);
        let v = float_arctangent_of(&f, precision);
        Number::from_float(carry_inexact(&f, v))
    }

    /// The logarithm to base two, on the number as a float (see `float_log2`).
    pub fn log2(&self, precision: usize) -> (r: Self)
        requires
            self.wf(),
        ensures
            r.wf(),
            number_view(r) == on_float(number_view(*self), precision, float_log2(float_of(number_view(*self), precision), precision as nat)),
    {
        let f = self.get_float(precision);
        let v = float_log2_of(&f, precision);
        Number::from_float(carry_inexact(&f, v))
    }

    /// The logarithm to base ten, on the number as a float (see `float_log10`).
    pub fn log10(&self, precision: usize) -> (r: Self)
        requires
            self.wf(),
        ensures
            r.wf(),
            number_view(r) == on_float(number_view(*self), precision, float_log10(float_of(number_view(*self), precision), precision as nat)),
    {
        let f = self.get_float(precision);
        let v = float_log10_of(&f, precision);
        Number::from_float(carry_inexact(&f, v))
    }

    /// The natural logarithm, on the number as a float (see `float_ln`).
    pub fn ln(&self, precision: usize) -> (r: Self)
        requires
            self.wf(),
        ensures
            r.wf(),
            number_view(r) == on_float(number_view(*self), precision, float_ln(float_of(number_view(*self), precision), precision as nat)),
    {
        let f = self.get_float(precision);
        let v = float_ln_of(&f, precision);
        Number::from_float(carry_inexact(&f, v))
    }
}

} // verus!

verus! {

// ---------------------------------------------------------------------------
// Laws
// ---------------------------------------------------------------------------

/// Exact numbers stay exact: the sum, product and power of two exact numbers are exact
/// where no float is asked for, and their quotient is exact unless the divisor is zero.
pub proof fn law_exact_operations_stay_exact(x1: int, y1: int, x2: int, y2: int, p: usize)
    ensures
        num_plus(NumberView::Rational(x1, y1), NumberView::Rational(x2, y2), p) is Rational,
        num_mul(NumberView::Rational(x1, y1), NumberView::Rational(x2, y2), p) is Rational,
        (num_div(NumberView::Rational(x1, y1), NumberView::Rational(x2, y2), p) is Rational) <==> x2 != 0,
        y2 == 1 && fits_i32(x2) && !(x1 == 0 && x2 < 0) ==> num_pow(NumberView::Rational(x1, y1), NumberView::Rational(x2, y2), p) is Rational,
{
}

/// Adding and multiplying exact numbers does not depend on the order of the operands.
pub proof fn law_exact_sum_and_product_commute(x1: int, y1: int, x2: int, y2: int, p: usize)
    ensures
        num_plus(NumberView::Rational(x1, y1), NumberView::Rational(x2, y2), p)
            == num_plus(NumberView::Rational(x2, y2), NumberView::Rational(x1, y1), p),
        num_mul(NumberView::Rational(x1, y1), NumberView::Rational(x2, y2), p)
            == num_mul(NumberView::Rational(x2, y2), NumberView::Rational(x1, y1), p),
{
    assert(y1 * y2 == y2 * y1) by (nonlinear_arith);
    assert(x1 * x2 == x2 * x1) by (nonlinear_arith);
    assert(x1 * y2 + x2 * y1 == x2 * y1 + x1 * y2);
}

/// Negating a number twice gives it back.
pub proof fn law_double_negation(a: NumberView)
    ensures
        num_negated(num_negated(a)) == a,
{
    match a {
        NumberView::Float(FloatView::Finite(m, b, n, e, i)) => {},
        _ => {},
    }
}

/// The larger and the smaller of two numbers are one of the two, or NaN where they
/// cannot be compared; comparing in the other order gives the opposite answer.
pub proof fn law_max_min_pick_an_operand(a: NumberView, b: NumberView, p: usize)
    ensures
        num_max(a, b, p) == a || num_max(a, b, p) == b || (num_max(a, b, p) == nan_number() && num_order(a, b, p) is None),
        num_min(a, b, p) == a || num_min(a, b, p) == b || (num_min(a, b, p) == nan_number() && num_order(a, b, p) is None),
        (a is Rational && b is Rational) ==> (num_order(a, b, p) matches Some(c) && num_order(b, a, p) == Some(-c)),
{
}

} // verus!
