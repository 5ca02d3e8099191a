//! Evaluation of expanded formulas to numbers: the calculator's own functions and
//! constants, the sine of multiples of π taken exactly where it can be, and evaluation
//! with a precision that grows until the result is stable.

use vstd::prelude::*;
use crate::element::{Element, ExpressionFunType, ExpressionNumType, FloatView, NumberView, number_view, float_view};
use crate::number::{Number, FloatValue};
use crate::outcomes::FormulaEvaluationError;
use crate::rational::{
    Rational, abs, rational_from_i64, rational_rem, rational_add, rational_sub, rational_div, rational_cmp,
    rational_is_negative, rational_is_zero, rational_abs, lemma_lowest_terms, trunc_rem,
};
use crate::optimization::{Ratio, rat_add, rat_rem, num_negated, num_abs, num_eq_int, number_equals_int, float_equal, float_values_equal};
use crate::arithmetic::{
    float_of_int, float_product, float_quotient, float_root, float_sine, float_of, number_of_float, carried,
    rational_view, rat_div, rat_order, num_rem, num_floor, num_ceil, num_round, num_fac, num_sum, num_average,
    num_max_of_several, num_min_of_several, median_is, on_float, float_arcsine, float_cosine, float_arccosine,
    float_tangent, float_arctangent, float_log2, float_log10, float_ln, float_mul, float_div, float_sqrt,
    float_from_integer, float_sine_of, carry_inexact, nan_number, number_views, all_wf, option_view, num_plus,
    num_mul, num_pow,
};

verus! {

// ---------------------------------------------------------------------------
// Constants
// ---------------------------------------------------------------------------

/// `Consts::pi` at `p` bits, rounding to nearest even.
pub uninterp spec fn float_pi(p: nat) -> FloatView;
/// `Consts::e` at `p` bits, rounding to nearest even.
pub uninterp spec fn float_e(p: nat) -> FloatView;

/// π from a fresh `astro_float` constants cache (see `float_pi`).
#[verifier::external_body]
fn pi_float(precision: usize) -> (r: FloatValue)
    ensures
        float_view(r) == float_pi(precision as nat),
{
    let mut cc = astro_float::Consts::new().expect("Constants cache initialized");
    crate::arithmetic::float_value_of(cc.pi(precision, astro_float::RoundingMode::ToEven))
}

/// Euler's number from a fresh `astro_float` constants cache (see `float_e`).
#[verifier::external_body]
fn e_float(precision: usize) -> (r: FloatValue)
    ensures
        float_view(r) == float_e(precision as nat),
{
    let mut cc = astro_float::Consts::new().expect("Constants cache initialized");
    crate::arithmetic::float_value_of(cc.e(precision, astro_float::RoundingMode::ToEven))
}

/// The number of a constant at `p` bits.
pub open spec fn constant_value(t: ExpressionNumType, p: usize) -> NumberView {
    number_of_float(match t {
        ExpressionNumType::Pi => float_pi(p as nat),
        ExpressionNumType::E => float_e(p as nat),
    })
}

impl ExpressionNumType {
    /// The constant's value at `precision` bits (see `constant_value`).
    pub fn value(&self, precision: usize) -> (r: Number)
        ensures
            r.wf(),
            number_view(r) == constant_value(*self, precision),
    {
        match self {
            ExpressionNumType::Pi => Number::from_float(pi_float(precision)),
            ExpressionNumType::E => Number::from_float(e_float(precision)),
        }
    }
}

// ---------------------------------------------------------------------------
// The sine of multiples of a quarter turn
// ---------------------------------------------------------------------------

pub open spec fn rat_sub(a: Ratio, b: Ratio) -> Ratio {
    crate::rational::lowest_terms(a.0 * b.1 - b.0 * a.1, a.1 * b.1)
}

/// `q` taken modulo four, in `[0, 4)`.
pub open spec fn modulo_four(q: Ratio) -> Ratio {
    let r = rat_rem(q, (4, 1));
    if r.0 < 0 { rat_add(r, (4, 1)) } else { r }
}

/// A number of quarter turns folded into `(-1, 1]`, where the sine takes the same value:
/// below one as it is, below three reflected about two, else shifted down by four.
pub open spec fn folded_quarter_turns(q: Ratio) -> Ratio {
    let r = modulo_four(q);
    if rat_order(r, (1, 1)) < 0 { r } else if rat_order(r, (3, 1)) < 0 { rat_sub((2, 1), r) } else { rat_sub(r, (4, 1)) }
}

/// The sine of `q` quarter turns (`q · π/2` radians): exact at the multiples of a third of
/// a quarter turn where it is rational (0, ±1/2, ±1), `√3/2` at two thirds and its negation
/// at minus two thirds (which is what multiplying by -1 gives), else the float sine of
/// `q/2 · π`.
pub open spec fn quarter_turn_sine(q: Ratio, p: usize) -> NumberView {
    let m = folded_quarter_turns(q);
    let sign: int = if m.0 < 0 { -1 } else { 1 };
    if m.0 == 0 {
        NumberView::Rational(0, 1)
    } else if abs(m.0) == m.1 {
        NumberView::Rational(sign, 1)
    } else if 3 * abs(m.0) == m.1 {
        NumberView::Rational(sign, 2)
    } else if 3 * abs(m.0) == 2 * m.1 {
        let v = number_of_float(float_quotient(
            float_product(float_of_int(1), float_root(float_of_int(3), p as nat), p as nat), float_of_int(2), p as nat));
        if m.0 < 0 { num_negated(v) } else { v }
    } else {
        number_of_float(float_sine(float_product(float_of(rational_view(rat_div(m, (2, 1))), p), float_pi(p as nat), p as nat), p as nat))
    }
}

/// The folding of `n / d` quarter turns into `[-1, 1]` (see `folded_quarter_turns`),
/// as a numerator over `d`.
pub open spec fn folded_numerator(n: int, d: int) -> int {
    let r = trunc_rem(n, 4 * d);
    let m = if r < 0 { r + 4 * d } else { r };
    if m < d { m } else if m < 3 * d { 2 * d - m } else { m - 4 * d }
}

/// The remainder of a truncating division by a positive number is below it in size, and
/// negating the dividend negates the remainder.
proof fn lemma_trunc_rem_bounds(n: int, b: int)
    requires
        b > 0,
    ensures
        -b < trunc_rem(n, b) < b,
        trunc_rem(-n, b) == -trunc_rem(n, b),
        trunc_rem(n, b) == n - crate::rational::trunc_div(n, b) * b,
{
    let a = abs(n) as int;
    let q = (abs(n) / abs(b)) as int;
    assert(abs(b) == b);
    assert(abs(-n) == abs(n));
    assert(q == a / b);
    vstd::arithmetic::div_mod::lemma_fundamental_div_mod(a, b);
    vstd::arithmetic::div_mod::lemma_mod_bound(a, b);
    assert(a == b * q + a % b);
    assert(crate::rational::trunc_div(n, b) == (if n < 0 { -q } else { q }));
    assert(crate::rational::trunc_div(-n, b) == (if -n < 0 { -q } else { q }));
    assert(b * q == q * b) by (nonlinear_arith);
    assert((-q) * b == -(q * b)) by (nonlinear_arith);
    if n > 0 {
        assert(trunc_rem(n, b) == n - q * b);
        assert(trunc_rem(-n, b) == -n + q * b);
    } else if n < 0 {
        assert(trunc_rem(n, b) == n + q * b);
        assert(trunc_rem(-n, b) == -n - q * b);
    } else {
        assert(q == 0);
    }
}

/// Folding negated quarter turns gives the negated fold, which lies within `[-d, d]`.
proof fn lemma_folded_numerator_odd(n: int, d: int)
    requires
        d > 0,
    ensures
        folded_numerator(-n, d) == -folded_numerator(n, d),
        -d <= folded_numerator(n, d) <= d,
{
    lemma_trunc_rem_bounds(n, 4 * d);
}

/// `y = s · x + k` carried over from the fraction `x0 / x1` of value `a / d` to `y0 / y1`.
proof fn lemma_scaled_value(x0: int, x1: int, y0: int, y1: int, a: int, d: int, s: int, k: int)
    requires
        x1 > 0,
        d > 0,
        x0 * d == a * x1,
        y0 * x1 == (s * x0 + k * x1) * y1,
    ensures
        y0 * d == (s * a + k * d) * y1,
{
    broadcast use vstd::arithmetic::mul::group_mul_properties;
    let pp = s * x0 + k * x1;
    let qq = s * a + k * d;
    assert(pp * d == (s * x0) * d + (k * x1) * d);
    assert((s * x0) * d == s * (x0 * d));
    assert(s * (x0 * d) == s * (a * x1));
    assert(s * (a * x1) == (s * a) * x1);
    assert((k * x1) * d == (k * d) * x1);
    assert(pp * d == qq * x1);
    assert((y0 * x1) * d == (pp * y1) * d);
    assert((pp * y1) * d == (pp * d) * y1);
    assert((qq * x1) * y1 == x1 * (qq * y1));
    assert((y0 * x1) * d == x1 * (y0 * d));
    assert(x1 * (y0 * d) == x1 * (qq * y1));
    assert(y0 * d == qq * y1) by (nonlinear_arith)
        requires x1 * (y0 * d) == x1 * (qq * y1), x1 > 0;
}

/// A fraction `x0 / x1` of value `a / d` compares with `c` as `a` with `c · d`.
proof fn lemma_value_compare(x0: int, x1: int, a: int, d: int, c: int)
    requires
        x1 > 0,
        d > 0,
        x0 * d == a * x1,
    ensures
        (x0 < c * x1) == (a < c * d),
        (x0 == c * x1) == (a == c * d),
{
    assert(d * (x0 - c * x1) == x1 * (a - c * d)) by (nonlinear_arith) requires x0 * d == a * x1;
    assert((x0 - c * x1 < 0) == (a - c * d < 0)) by (nonlinear_arith)
        requires d * (x0 - c * x1) == x1 * (a - c * d), x1 > 0, d > 0;
    assert((x0 - c * x1 == 0) == (a - c * d == 0)) by (nonlinear_arith)
        requires d * (x0 - c * x1) == x1 * (a - c * d), x1 > 0, d > 0;
}

/// The folded quarter turns are the fraction `folded_numerator(n, d) / d` in lowest terms.
proof fn lemma_folded_value(n: int, d: int)
    requires
        d > 0,
    ensures
        folded_quarter_turns((n, d)).1 > 0,
        crate::rational::gcd(abs(folded_quarter_turns((n, d)).0), folded_quarter_turns((n, d)).1 as nat) == 1,
        folded_quarter_turns((n, d)).0 * d == folded_numerator(n, d) * folded_quarter_turns((n, d)).1,
{
    let rr = trunc_rem(n, 4 * d);
    assert(n * 1 == n && 4 * d == 4 * d && d * 1 == d);
    let r0 = rat_rem((n, d), (4, 1));
    assert(r0 == crate::rational::lowest_terms(rr, d));
    crate::rational::lemma_lowest_terms_exist(rr, d);
    lemma_value_compare(r0.0, r0.1, rr, d, 0);
    let mm = if rr < 0 { rr + 4 * d } else { rr };
    let r = modulo_four((n, d));
    if r0.0 < 0 {
        assert(r == crate::rational::lowest_terms(r0.0 * 1 + 4 * r0.1, r0.1 * 1));
        crate::rational::lemma_lowest_terms_exist(r0.0 + 4 * r0.1, r0.1);
        lemma_scaled_value(r0.0, r0.1, r.0, r.1, rr, d, 1, 4);
    }
    assert(r.1 > 0 && crate::rational::gcd(abs(r.0), r.1 as nat) == 1 && r.0 * d == mm * r.1);
    lemma_value_compare(r.0, r.1, mm, d, 1);
    lemma_value_compare(r.0, r.1, mm, d, 3);
    let m = folded_quarter_turns((n, d));
    if mm < d {
        assert(m == r);
    } else if mm < 3 * d {
        assert(m == crate::rational::lowest_terms(2 * r.1 - r.0 * 1, 1 * r.1));
        crate::rational::lemma_lowest_terms_exist(2 * r.1 - r.0, r.1);
        lemma_scaled_value(r.0, r.1, m.0, m.1, mm, d, -1, 2);
    } else {
        assert(m == crate::rational::lowest_terms(r.0 * 1 - 4 * r.1, r.1 * 1));
        crate::rational::lemma_lowest_terms_exist(r.0 - 4 * r.1, r.1);
        lemma_scaled_value(r.0, r.1, m.0, m.1, mm, d, 1, -4);
    }
}

/// Folding `-q` quarter turns gives exactly the negated fold of `q`.
pub proof fn law_folding_negated_turns_negates_the_fold(n: int, d: int)
    requires
        d > 0,
    ensures
        folded_quarter_turns((-n, d)) == (-folded_quarter_turns((n, d)).0, folded_quarter_turns((n, d)).1),
{
    lemma_folded_value(n, d);
    lemma_folded_value(-n, d);
    lemma_folded_numerator_odd(n, d);
    let m = folded_quarter_turns((n, d));
    let m2 = folded_quarter_turns((-n, d));
    let f = folded_numerator(n, d);
    assert(d * (m2.0 * m.1) == d * ((-m.0) * m2.1)) by (nonlinear_arith)
        requires m.0 * d == f * m.1, m2.0 * d == (-f) * m2.1;
    assert(m2.0 * m.1 == (-m.0) * m2.1) by (nonlinear_arith)
        requires d * (m2.0 * m.1) == d * ((-m.0) * m2.1), d > 0;
    assert(abs(-m.0) == abs(m.0));
    crate::rational::lemma_reduced_unique(m2.0, m2.1, -m.0, m.1);
}

proof fn lemma_negation_twice(v: NumberView)
    ensures
        num_negated(num_negated(v)) == v,
{
    match v {
        NumberView::Rational(p, q) => {},
        NumberView::Float(f) => {
            match f {
                FloatView::Finite(m, b, n, e, i) => {},
                FloatView::Infinite(n) => {},
                FloatView::NaN(e) => {},
            }
        },
    }
}

/// The sine is odd: the sine of `-q` quarter turns is the negation of the sine of `q`
/// quarter turns, for every `q = n / d` that is a whole number `k` of thirds of a quarter
/// turn (where it is 0, ±1/2, ±√3/2 or ±1); so `sin(-60°) = -√3/2`.
pub proof fn law_sine_of_thirds_is_odd(n: int, d: int, k: int, p: usize)
    requires
        d > 0,
        3 * n == k * d,
    ensures
        quarter_turn_sine((-n, d), p) == num_negated(quarter_turn_sine((n, d), p)),
{
    law_folding_negated_turns_negates_the_fold(n, d);
    lemma_folded_value(n, d);
    lemma_folded_numerator_odd(n, d);
    lemma_trunc_rem_bounds(n, 4 * d);
    let m = folded_quarter_turns((n, d));
    let f = folded_numerator(n, d);
    let t = crate::rational::trunc_div(n, 4 * d);
    let rr = trunc_rem(n, 4 * d);
    let j0 = k - 12 * t;
    assert(3 * rr == j0 * d) by (nonlinear_arith) requires rr == n - t * (4 * d), 3 * n == k * d, j0 == k - 12 * t;
    let mm = if rr < 0 { rr + 4 * d } else { rr };
    let jm = if rr < 0 { j0 + 12 } else { j0 };
    assert(3 * mm == jm * d) by (nonlinear_arith)
        requires 3 * rr == j0 * d, mm == (if rr < 0 { rr + 4 * d } else { rr }), jm == (if rr < 0 { j0 + 12 } else { j0 });
    let j = if mm < d { jm } else if mm < 3 * d { 6 - jm } else { jm - 12 };
    assert(3 * f == j * d) by (nonlinear_arith)
        requires 3 * mm == jm * d,
            f == (if mm < d { mm } else if mm < 3 * d { 2 * d - mm } else { mm - 4 * d }),
            j == (if mm < d { jm } else if mm < 3 * d { 6 - jm } else { jm - 12 });
    assert(-3 <= j <= 3) by (nonlinear_arith) requires 3 * f == j * d, -d <= f <= d, d > 0;
    assert(3 * m.0 == j * m.1) by (nonlinear_arith)
        requires m.0 * d == f * m.1, 3 * f == j * d, d > 0;
    let v = number_of_float(float_quotient(
        float_product(float_of_int(1), float_root(float_of_int(3), p as nat), p as nat), float_of_int(2), p as nat));
    lemma_negation_twice(v);
    let m2 = folded_quarter_turns((-n, d));
    assert(m2 == (-m.0, m.1));
    assert(abs(-m.0) == abs(m.0));
    let qs = quarter_turn_sine((n, d), p);
    let qs2 = quarter_turn_sine((-n, d), p);
    if j == 0 {
        assert(3 * m.0 == 0) by (nonlinear_arith) requires 3 * m.0 == j * m.1, j == 0;
        assert(m.0 == 0);
        assert(qs == NumberView::Rational(0, 1));
        assert(qs2 == NumberView::Rational(0, 1));
    } else if j == 3 || j == -3 {
        assert(3 * m.0 == 3 * m.1 || 3 * m.0 == -3 * m.1) by (nonlinear_arith) requires 3 * m.0 == j * m.1, j == 3 || j == -3;
        assert(abs(m.0) == m.1);
        assert(m.0 != 0);
    } else if j == 1 || j == -1 {
        assert(3 * m.0 == m.1 || 3 * m.0 == -m.1) by (nonlinear_arith) requires 3 * m.0 == j * m.1, j == 1 || j == -1;
        assert(3 * abs(m.0) == m.1);
        assert(m.0 != 0 && abs(m.0) != m.1);
    } else {
        assert(j == 2 || j == -2);
        assert(m.1 > 0);
        if j == 2 {
            assert(3 * m.0 == 2 * m.1) by (nonlinear_arith) requires 3 * m.0 == j * m.1, j == 2;
            assert(m.0 > 0);
            assert(abs(m.0) == m.0);
            assert(3 * abs(m.0) == 2 * m.1);
        } else {
            assert(j == -2);
            assert(3 * m.0 == -2 * m.1 && m.0 < 0) by (nonlinear_arith) requires 3 * m.0 == j * m.1, j == -2, m.1 > 0;
            assert(abs(m.0) == -m.0);
            assert(3 * (-m.0) == 2 * m.1) by (nonlinear_arith) requires 3 * m.0 == -2 * m.1;
            assert(3 * (abs(m.0) as int) == 2 * m.1);
            assert(3 * abs(m.0) == 2 * m.1);
        }
        assert(m.0 != 0 && abs(m.0) != m.1 && 3 * abs(m.0) != m.1);
        if m.0 < 0 {
            assert(qs == num_negated(v));
            assert(qs2 == v);
        } else {
            assert(qs == v);
            assert(qs2 == num_negated(v));
        }
    }
}

proof fn lemma_same_value(a: Rational, c: Rational, n: int, d: int)
    requires
        a.wf(),
        c.wf(),
        n > 0,
        d > 0,
        c.n() * d == n * c.d(),
    ensures
        (a.n() * c.d() == c.n() * a.d()) <==> (a.n() * d == n * a.d()),
{
    let (an, ad, cn, cd) = (a.n(), a.d(), c.n(), c.d());
    assert(cd > 0 && ad > 0);
    assert((an * cd == cn * ad) ==> (an * d == n * ad)) by (nonlinear_arith)
        requires cn * d == n * cd, cd > 0, d > 0;
    assert((an * d == n * ad) ==> (an * cd == cn * ad)) by (nonlinear_arith)
        requires cn * d == n * cd, cd > 0, d > 0;
}

/// The fraction `n / d` (both positive) in lowest terms.
fn fraction(n: i64, d: i64) -> (r: Rational)
    requires
        d > 0,
    ensures
        r.wf(),
        r.n() * d == n * r.d(),
{
    rational_div(&rational_from_i64(n), &rational_from_i64(d))
}

/// One half, negated if asked.
fn signed_half(negative: bool) -> (r: Rational)
    ensures
        r.wf(),
        r.n() == (if negative { -1int } else { 1int }),
        r.d() == 2,
{
    let n: i64 = if negative { -1 } else { 1 };
    let r = fraction(n, 2);
    proof {
        lemma_lowest_terms(r, n as int, 2);
        crate::rational::lemma_gcd_one(2);
        assert(crate::rational::gcd(1, 2) == 1) by {
            assert(crate::rational::gcd(2, 1) == 1);
            assert(1nat % 2 == 1);
        }
        crate::rational::lemma_reduced_unique(r.n(), r.d(), n as int, 2);
    }
    r
}

/// The sine of `q` quarter turns (see `quarter_turn_sine`).
pub fn sin_radians(q: &Rational, precision: usize) -> (r: Number)
    requires
        q.wf(),
    ensures
        r.wf(),
        number_view(r) == quarter_turn_sine((q.n(), q.d()), precision),
{
    let one = rational_from_i64(1);
    let two = rational_from_i64(2);
    let three = rational_from_i64(3);
    let four = rational_from_i64(4);
    let m0 = rational_rem(q, &four);
    proof {
        lemma_lowest_terms(m0, trunc_rem(q.n() * 1, 4 * q.d()), q.d() * 1);
    }
    let m = if rational_is_negative(&m0) {
        let s = rational_add(&m0, &four);
        proof { lemma_lowest_terms(s, m0.n() * 1 + 4 * m0.d(), m0.d() * 1); }
        s
    } else {
        m0
    };
    let mapped = if rational_cmp(&m, &one) < 0 {
        m
    } else if rational_cmp(&m, &three) < 0 {
        let s = rational_sub(&two, &m);
        proof { lemma_lowest_terms(s, 2 * m.d() - m.n() * 1, 1 * m.d()); }
        s
    } else {
        let s = rational_sub(&m, &four);
        proof { lemma_lowest_terms(s, m.n() * 1 - 4 * m.d(), m.d() * 1); }
        s
    };
    let negative = rational_is_negative(&mapped);
    let sign: i64 = if negative { -1 } else { 1 };
    if rational_is_zero(&mapped) {
        return Number::Rational(rational_from_i64(0));
    }
    let size = rational_abs(&mapped);
    let third = fraction(1, 3);
    let two_thirds = fraction(2, 3);
    proof {
        lemma_same_value(size, one, 1, 1);
        lemma_same_value(size, third, 1, 3);
        lemma_same_value(size, two_thirds, 2, 3);
    }
    if rational_cmp(&size, &one) == 0 {
        return Number::Rational(rational_from_i64(sign));
    }
    if rational_cmp(&size, &third) == 0 {
        return Number::Rational(signed_half(negative));
    }
    if rational_cmp(&size, &two_thirds) == 0 {
        let root = float_sqrt(&float_from_integer(&crate::rational::integer_from_i64(3)), precision);
        let scaled = float_mul(&float_from_integer(&crate::rational::integer_from_i64(1)), &root, precision);
        let v = Number::from_float(float_div(&scaled, &float_from_integer(&crate::rational::integer_from_i64(2)), precision));
        if negative {
            return v.neg();
        }
        return v;
    }
    let half_turns = rational_div(&mapped, &two);
    proof { lemma_lowest_terms(half_turns, mapped.n() * 1, mapped.d() * 2); }
    let x = Number::Rational(half_turns).get_float(precision);
    let angle = float_mul(&x, &pi_float(precision), precision);
    Number::from_float(float_sine_of(&angle, precision))
}

/// The sine of a number of quarter turns: exact numbers as `quarter_turn_sine`, a float as
/// the sine of `f · π / 2`, inexact if `f` was.
pub open spec fn sine_of_quarter_turns(a: NumberView, p: usize) -> NumberView {
    match a {
        NumberView::Rational(n, d) => quarter_turn_sine((n, d), p),
        NumberView::Float(f) => number_of_float(carried(f, float_sine(
            float_quotient(float_product(f, float_pi(p as nat), p as nat), float_of_int(2), p as nat), p as nat))),
    }
}

/// The sine of a number of quarter turns (see `sine_of_quarter_turns`).
pub fn sin_with_radians(n: &Number, precision: usize) -> (r: Number)
    requires
        n.wf(),
    ensures
        r.wf(),
        number_view(r) == sine_of_quarter_turns(number_view(*n), precision),
{
    match n {
        Number::Rational(q) => sin_radians(q, precision),
        Number::Float(f) => {
            let scaled = float_mul(f, &pi_float(precision), precision);
            let halved = float_div(&scaled, &float_from_integer(&crate::rational::integer_from_i64(2)), precision);
            Number::from_float(carry_inexact(f, float_sine_of(&halved, precision)))
        },
    }
}

// ---------------------------------------------------------------------------
// The calculator's functions
// ---------------------------------------------------------------------------

/// The functions that take their single argument on its own; the others take the list.
pub open spec fn single_argument(t: ExpressionFunType) -> bool {
    !(t is Rem || t is Avg || t is Median || t is Max || t is Min || t is Sum)
}

/// A function of one argument applied to `a`.
pub open spec fn apply_single(t: ExpressionFunType, a: NumberView, p: usize) -> NumberView {
    let f = float_of(a, p);
    match t {
        ExpressionFunType::Sin => on_float(a, p, float_sine(f, p as nat)),
        ExpressionFunType::SinWithRadians => sine_of_quarter_turns(a, p),
        ExpressionFunType::Asin => on_float(a, p, float_arcsine(f, p as nat)),
        ExpressionFunType::Cos => on_float(a, p, float_cosine(f, p as nat)),
        ExpressionFunType::Acos => on_float(a, p, float_arccosine(f, p as nat)),
        ExpressionFunType::Tan => on_float(a, p, float_tangent(f, p as nat)),
        ExpressionFunType::Atan => on_float(a, p, float_arctangent(f, p as nat)),
        ExpressionFunType::Log2 => on_float(a, p, float_log2(f, p as nat)),
        ExpressionFunType::Log10 => on_float(a, p, float_log10(f, p as nat)),
        ExpressionFunType::Ln => on_float(a, p, float_ln(f, p as nat)),
        ExpressionFunType::Floor => num_floor(a),
        ExpressionFunType::Ceil => num_ceil(a),
        ExpressionFunType::Round => num_round(a, p),
        ExpressionFunType::Abs => num_abs(a),
        ExpressionFunType::Fac => num_fac(a),
        _ => nan_number(),
    }
}

pub open spec fn or_nan(r: Option<NumberView>) -> NumberView {
    match r {
        Some(v) => v,
        None => nan_number(),
    }
}

/// A function of a list of arguments applied to `s`: `rem` of exactly two, the mean,
/// median, maximum or minimum of at least one (NaN for none), the sum of any.
pub open spec fn apply_multiple(t: ExpressionFunType, s: Seq<NumberView>, p: usize) -> NumberView {
    match t {
        ExpressionFunType::Rem => if s.len() == 2 { num_rem(s[0], s[1], p) } else { nan_number() },
        ExpressionFunType::Avg => or_nan(num_average(s, p)),
        ExpressionFunType::Median => or_nan(crate::arithmetic::num_median(s, p)),
        ExpressionFunType::Max => or_nan(num_max_of_several(s, p)),
        ExpressionFunType::Min => or_nan(num_min_of_several(s, p)),
        ExpressionFunType::Sum => num_sum(s, p),
        _ => nan_number(),
    }
}

fn or_nan_of(r: Option<Number>) -> (n: Number)
    requires
        r matches Some(x) ==> x.wf(),
    ensures
        n.wf(),
        number_view(n) == or_nan(option_view(r)),
{
    match r {
        Some(x) => x,
        None => Number::nan(None),
    }
}

impl ExpressionFunType {
    /// The function applied to one argument (see `apply_single`); value range checks are
    /// left out, their check is not written yet.
    pub fn call_single(&self, a: &Number, precision: usize) -> (r: Number)
        requires
            single_argument(*self),
            !(*self is AssertValueRange),
            a.wf(),
        ensures
            r.wf(),
            number_view(r) == apply_single(*self, number_view(*a), precision),
    {
        match self {
            ExpressionFunType::Sin => a.sin(precision),
            ExpressionFunType::SinWithRadians => sin_with_radians(a, precision),
            ExpressionFunType::Asin => a.asin(precision),
            ExpressionFunType::Cos => a.cos(precision),
            ExpressionFunType::Acos => a.acos(precision),
            ExpressionFunType::Tan => a.tan(precision),
            ExpressionFunType::Atan => a.atan(precision),
            ExpressionFunType::Log2 => a.log2(precision),
            ExpressionFunType::Log10 => a.log10(precision),
            ExpressionFunType::Ln => a.ln(precision),
            ExpressionFunType::Floor => a.floor(),
            ExpressionFunType::Ceil => a.ceil(),
            ExpressionFunType::Round => a.round(precision),
            ExpressionFunType::Abs => a.abs(),
            ExpressionFunType::Fac => a.fac(),
            _ => Number::nan(None),
        }
    }

    /// The function applied to a list of arguments (see `apply_multiple`).
    pub fn call_multiple(&self, args: &Vec<Number>, precision: usize) -> (r: Number)
        requires
            !single_argument(*self),
            all_wf(args@),
        ensures
            r.wf(),
            number_view(r) == apply_multiple(*self, number_views(args@), precision),
    {
        match self {
            ExpressionFunType::Rem => {
                if args.len() != 2 {
                    return Number::nan(None);
                }
                args[0].rem(&args[1], precision)
            },
            ExpressionFunType::Avg => or_nan_of(Number::average(args, precision)),
            ExpressionFunType::Median => or_nan_of(Number::median(args, precision)),
            ExpressionFunType::Max => or_nan_of(Number::max_of_several(args, precision)),
            ExpressionFunType::Min => or_nan_of(Number::min_of_several(args, precision)),
            ExpressionFunType::Sum => Number::sum(args, precision),
            _ => Number::nan(None),
        }
    }
}

// ---------------------------------------------------------------------------
// Evaluation of elements
// ---------------------------------------------------------------------------

/// The first NaN of the numbers, if any.
pub open spec fn first_nan(s: Seq<NumberView>) -> Option<NumberView>
    decreases s.len(),
{
    if s.len() == 0 {
        None
    } else if s[0] matches NumberView::Float(FloatView::NaN(_)) {
        Some(s[0])
    } else {
        first_nan(s.skip(1))
    }
}

/// The product, multiplied from the left starting at one.
pub open spec fn num_product(s: Seq<NumberView>, p: usize) -> NumberView
    decreases s.len(),
{
    if s.len() == 0 { NumberView::Rational(1, 1) } else { num_mul(num_product(s.drop_last(), p), s.last(), p) }
}

/// No value range check anywhere in the element.
pub open spec fn no_range_checks(e: Element) -> bool
    decreases e,
{
    match e {
        Element::Brackets(v) => forall|i: int| 0 <= i < v@.len() ==> no_range_checks(#[trigger] v@[i]),
        Element::Plus(v) => forall|i: int| 0 <= i < v@.len() ==> no_range_checks(#[trigger] v@[i]),
        Element::Multiply(v) => forall|i: int| 0 <= i < v@.len() ==> no_range_checks(#[trigger] v@[i]),
        Element::Function { arguments: v, .. } => forall|i: int| 0 <= i < v@.len() ==> no_range_checks(#[trigger] v@[i]),
        Element::FunctionWithExpression { arguments: v, expr_value } => !(expr_value is AssertValueRange)
            && forall|i: int| 0 <= i < v@.len() ==> no_range_checks(#[trigger] v@[i]),
        Element::Pow(a, b) => no_range_checks(*a) && no_range_checks(*b),
        Element::Negate(a) => no_range_checks(*a),
        _ => true,
    }
}

/// The value of an element at `p` bits: unparsed parts and names that are not expanded
/// are errors; sums and products give their first NaN if they hold one (a product a zero
/// if a factor is zero), else they are added or multiplied from the left; a call checks
/// its argument count first; the first error met, from left to right, is the result.
pub open spec fn eval_of(e: Element, p: usize) -> Result<NumberView, FormulaEvaluationError>
    decreases e, 0nat,
{
    match e {
        Element::Brackets(_) | Element::String(_) => Err(FormulaEvaluationError::UnparsedElements),
        Element::Variable(_) | Element::Function { .. } | Element::VariableOrFunction(_) =>
            Err(FormulaEvaluationError::UnexpandedElements),
        Element::Plus(v) => match eval_list(v@, v@.len(), p) {
            Err(x) => Err(x),
            Ok(s) => match first_nan(s) {
                Some(n) => Ok(n),
                None => Ok(num_sum(s, p)),
            },
        },
        Element::Multiply(v) => match eval_list(v@, v@.len(), p) {
            Err(x) => Err(x),
            Ok(s) => match first_nan(s) {
                Some(n) => Ok(n),
                None => if exists|i: int| 0 <= i < s.len() && #[trigger] num_eq_int(s[i], 0) {
                    Ok(NumberView::Rational(0, 1))
                } else {
                    Ok(num_product(s, p))
                },
            },
        },
        Element::Negate(a) => match eval_of(*a, p) {
            Ok(n) => Ok(num_negated(n)),
            Err(x) => Err(x),
        },
        Element::Number(n) => Ok(number_view(n)),
        Element::Pow(b, x) => match eval_of(*b, p) {
            Err(err) => Err(err),
            Ok(bv) => match eval_of(*x, p) {
                Err(err) => Err(err),
                Ok(xv) => Ok(num_pow(bv, xv, p)),
            },
        },
        Element::NumberWithExpression { expr_value } => Ok(constant_value(expr_value, p)),
        Element::FunctionWithExpression { arguments: v, expr_value: t } =>
            if !t.param_count_spec().accepts(v@.len()) {
                Err(FormulaEvaluationError::FunctionCallWithInvalidArgumentCount)
            } else if single_argument(t) {
                if v@.len() > 0 {
                    match eval_of(v@[0], p) {
                        Ok(a) => Ok(apply_single(t, a, p)),
                        Err(x) => Err(x),
                    }
                } else {
                    Ok(nan_number())
                }
            } else {
                match eval_list(v@, v@.len(), p) {
                    Ok(s) => Ok(apply_multiple(t, s, p)),
                    Err(x) => Err(x),
                }
            },
    }
}

/// The values of the first `n` elements, or the first error among them.
pub open spec fn eval_list(v: Seq<Element>, n: nat, p: usize) -> Result<Seq<NumberView>, FormulaEvaluationError>
    decreases v, n,
{
    if n == 0 || n > v.len() {
        Ok(Seq::empty())
    } else {
        match eval_list(v, (n - 1) as nat, p) {
            Err(x) => Err(x),
            Ok(s) => match eval_of(v[n - 1], p) {
                Err(x) => Err(x),
                Ok(a) => Ok(s.push(a)),
            },
        }
    }
}

pub open spec fn result_view(r: Result<Number, FormulaEvaluationError>) -> Result<NumberView, FormulaEvaluationError> {
    match r {
        Ok(n) => Ok(number_view(n)),
        Err(x) => Err(x),
    }
}

pub open spec fn list_view(r: Result<Vec<Number>, FormulaEvaluationError>) -> Result<Seq<NumberView>, FormulaEvaluationError> {
    match r {
        Ok(v) => Ok(number_views(v@)),
        Err(x) => Err(x),
    }
}

/// The first NaN of the numbers (see `first_nan`).
fn find_nan(v: &Vec<Number>) -> (r: Option<usize>)
    ensures
        match r {
            Some(i) => i < v@.len() && first_nan(number_views(v@)) == Some(number_views(v@)[i as int]),
            None => first_nan(number_views(v@)) is None,
        },
{
    let mut i: usize = 0;
    assert(number_views(v@).skip(0) =~= number_views(v@));
    while i < v.len()
        invariant
            i <= v@.len(),
            first_nan(number_views(v@)) == first_nan(number_views(v@).skip(i as int)),
        decreases v.len() - i,
    {
        let ghost rest = number_views(v@).skip(i as int);
        assert(rest[0] == number_views(v@)[i as int]);
        if v[i].is_nan() {
            return Some(i);
        }
        assert(rest.skip(1) =~= number_views(v@).skip(i + 1));
        i = i + 1;
    }
    assert(number_views(v@).skip(i as int).len() == 0);
    None
}

/// Whether one of the numbers equals zero (see `num_eq_int`).
fn has_zero(v: &Vec<Number>) -> (b: bool)
    requires
        all_wf(v@),
    ensures
        b == exists|i: int| 0 <= i < v@.len() && #[trigger] num_eq_int(number_views(v@)[i], 0),
{
    let mut i: usize = 0;
    while i < v.len()
        invariant
            i <= v@.len(),
            all_wf(v@),
            forall|j: int| 0 <= j < i ==> !(#[trigger] num_eq_int(number_views(v@)[j], 0)),
        decreases v.len() - i,
    {
        if number_equals_int(&v[i], 0) {
            assert(num_eq_int(number_views(v@)[i as int], 0));
            return true;
        }
        i = i + 1;
    }
    false
}

/// The product of the numbers (see `num_product`).
fn product_of(numbers: &Vec<Number>, precision: usize) -> (r: Number)
    requires
        all_wf(numbers@),
    ensures
        r.wf(),
        number_view(r) == num_product(number_views(numbers@), precision),
{
    let mut acc = Number::Rational(rational_from_i64(1));
    let mut i: usize = 0;
    while i < numbers.len()
        invariant
            i <= numbers@.len(),
            all_wf(numbers@),
            acc.wf(),
            number_view(acc) == num_product(number_views(numbers@.take(i as int)), precision),
        decreases numbers.len() - i,
    {
        proof {
            let vs = number_views(numbers@.take(i + 1));
            assert(vs.drop_last() =~= number_views(numbers@.take(i as int)));
            assert(vs.last() == number_view(numbers@[i as int]));
        }
        acc = acc.mul(&numbers[i], precision);
        i = i + 1;
    }
    assert(numbers@.take(numbers@.len() as int) =~= numbers@);
    acc
}

/// The values of the elements in order, or the first error (see `eval_list`).
fn eval_elements(v: &Vec<Element>, precision: usize) -> (r: Result<Vec<Number>, FormulaEvaluationError>)
    requires
        forall|i: int| 0 <= i < v@.len() ==> (#[trigger] v@[i]).wf(),
        forall|i: int| 0 <= i < v@.len() ==> no_range_checks(#[trigger] v@[i]),
    ensures
        list_view(r) == eval_list(v@, v@.len(), precision),
        r matches Ok(values) ==> all_wf(values@),
    decreases v,
{
    let mut out: Vec<Number> = Vec::new();
    let mut i: usize = 0;
    assert(number_views(out@) =~= Seq::<NumberView>::empty());
    while i < v.len()
        invariant
            i <= v@.len(),
            forall|j: int| 0 <= j < v@.len() ==> (#[trigger] v@[j]).wf(),
            forall|j: int| 0 <= j < v@.len() ==> no_range_checks(#[trigger] v@[j]),
            all_wf(out@),
            eval_list(v@, i as nat, precision) == Ok::<Seq<NumberView>, FormulaEvaluationError>(number_views(out@)),
        decreases v.len() - i,
    {
        match v[i].eval(precision) {
            Err(x) => {
                proof { lemma_eval_list_error(v@, (i + 1) as nat, precision); }
                return Err(x);
            },
            Ok(n) => {
                proof { crate::arithmetic::lemma_number_views_push(out@, n); }
                out.push(n);
            },
        }
        i = i + 1;
    }
    Ok(out)
}

proof fn lemma_eval_list_error(v: Seq<Element>, n: nat, p: usize)
    requires
        1 <= n <= v.len(),
        eval_list(v, n, p) is Err,
    ensures
        eval_list(v, v.len(), p) == eval_list(v, n, p),
    decreases v.len() - n,
{
    if n < v.len() {
        lemma_eval_list_error(v, n + 1, p);
    }
}

impl Element {
    /// The value of the element at `precision` bits (see `eval_of`).
    pub fn eval(&self, precision: usize) -> (r: Result<Number, FormulaEvaluationError>)
        requires
            self.wf(),
            no_range_checks(*self),
        ensures
            result_view(r) == eval_of(*self, precision),
            r matches Ok(n) ==> n.wf(),
        decreases self,
    {
        match self {
            Element::Brackets(_) | Element::String(_) => Err(FormulaEvaluationError::UnparsedElements),
            Element::Variable(_) | Element::Function { .. } | Element::VariableOrFunction(_) => {
                Err(FormulaEvaluationError::UnexpandedElements)
            },
            Element::Plus(elements) => {
                let values = eval_elements(elements, precision)?;
                if let Some(i) = find_nan(&values) {
                    return Ok(values[i].duplicate());
                }
                Ok(Number::sum(&values, precision))
            },
            Element::Multiply(elements) => {
                let values = eval_elements(elements, precision)?;
                if let Some(i) = find_nan(&values) {
                    return Ok(values[i].duplicate());
                }
                if has_zero(&values) {
                    return Ok(Number::Rational(rational_from_i64(0)));
                }
                Ok(product_of(&values, precision))
            },
            Element::Negate(e) => {
                let n = e.eval(precision)?;
                Ok(n.neg())
            },
            Element::Number(n) => Ok(n.duplicate()),
            Element::Pow(b, e) => {
                let base = b.eval(precision)?;
                let exponent = e.eval(precision)?;
                Ok(base.pow(&exponent, precision))
            },
            Element::NumberWithExpression { expr_value } => Ok(expr_value.value(precision)),
            Element::FunctionWithExpression { arguments, expr_value } => {
                let count = expr_value.get_param_count();
                if !count.number_would_be_valid(arguments.len()) {
                    return Err(FormulaEvaluationError::FunctionCallWithInvalidArgumentCount);
                }
                if is_single_argument(expr_value) {
                    if arguments.len() == 0 {
                        return Ok(Number::nan(None));
                    }
                    let a = arguments[0].eval(precision)?;
                    Ok(expr_value.call_single(&a, precision))
                } else {
                    let args = eval_elements(arguments, precision)?;
                    Ok(expr_value.call_multiple(&args, precision))
                }
            },
        }
    }
}

fn is_single_argument(t: &ExpressionFunType) -> (b: bool)
    ensures
        b == single_argument(*t),
{
    match t {
        ExpressionFunType::Rem | ExpressionFunType::Avg | ExpressionFunType::Median | ExpressionFunType::Max
        | ExpressionFunType::Min | ExpressionFunType::Sum => false,
        _ => true,
    }
}

// ---------------------------------------------------------------------------
// Evaluation with a growing precision
// ---------------------------------------------------------------------------

/// The outcome of an evaluation with a growing precision: an exact number; a float that
/// stayed the same at two precisions in a row (or a NaN), with the precision reached; or
/// the last float when the precision ran past its limit.
#[derive(Debug)]
pub enum DynamicResult {
    Exact(Rational),
    Checked { num: FloatValue, precision: usize },
    ReachedLimit(FloatValue),
}

pub enum DynamicValue {
    Exact(int, int),
    Checked(FloatView, nat),
    ReachedLimit(FloatView),
}

pub open spec fn dynamic_view(r: DynamicResult) -> DynamicValue {
    match r {
        DynamicResult::Exact(q) => DynamicValue::Exact(q.n(), q.d()),
        DynamicResult::Checked { num, precision } => DynamicValue::Checked(float_view(num), precision as nat),
        DynamicResult::ReachedLimit(f) => DynamicValue::ReachedLimit(float_view(f)),
    }
}

/// How far `p` is below `max + 1`; zero above `max`.
pub open spec fn room(max: nat, p: nat) -> nat {
    if p > max { 0 } else { (max + 1 - p) as nat }
}

/// Evaluation from `precision` on, `last` the rounded float of the step before: an exact
/// value ends it, so does a NaN; else the float rounded to `min` binary places and marked
/// inexact is compared with the last one, and an equal one ends it; else the precision is
/// doubled, until it passes `max` after the first step.
pub open spec fn dynamic_eval(e: Element, min: nat, max: nat, precision: nat, last: Option<FloatView>)
    -> Result<DynamicValue, FormulaEvaluationError>
    decreases (if last is None { 1nat } else { 0nat }), room(max, precision) when precision >= 1
{
    if !(last is None || precision <= max) {
        Ok(DynamicValue::ReachedLimit(last->0))
    } else {
        match eval_of(e, precision as usize) {
            Err(x) => Err(x),
            Ok(NumberView::Rational(n, d)) => Ok(DynamicValue::Exact(n, d)),
            Ok(NumberView::Float(f)) => if f is NaN {
                Ok(DynamicValue::Checked(f, precision))
            } else {
                let r = crate::arithmetic::marked_inexact(crate::arithmetic::float_rounded(f, min));
                if last matches Some(l) && float_equal(l, r) {
                    Ok(DynamicValue::Checked(r, precision))
                } else {
                    dynamic_eval(e, min, max, 2 * precision, Some(r))
                }
            },
        }
    }
}

impl DynamicResult {
    /// The exact integer result, if it fits an `i32`.
    pub fn as_i32(&self) -> (r: Option<i32>)
        ensures
            r matches Some(v) ==> dynamic_view(*self) == DynamicValue::Exact(v as int, 1),
            (*self matches DynamicResult::Exact(q) && q.wf() && q.d() == 1 && i32::MIN <= q.n() <= i32::MAX) ==> r is Some,
    {
        match self {
            DynamicResult::Exact(q) => {
                if crate::rational::rational_is_wf(q) {
                    crate::rational::rational_to_i32(q)
                } else {
                    None
                }
            },
            _ => None,
        }
    }

    pub fn is_exact(&self) -> (b: bool)
        ensures
            b == (*self is Exact),
    {
        match self {
            DynamicResult::Exact(_) => true,
            _ => false,
        }
    }
}

impl Element {
    /// Evaluates at `min_precision` bits, then at twice as many and so on, until the value is
    /// exact, NaN, or the same (rounded to `min_precision` places) at two precisions in a
    /// row, or the precision passes `max_precision` (see `dynamic_eval`).
    #[verifier::rlimit(50)]
    pub fn eval_dynamic_precision(&self, min_precision: usize, max_precision: usize)
        -> (r: Result<DynamicResult, FormulaEvaluationError>)
        requires
            self.wf(),
            no_range_checks(*self),
            1 <= min_precision < 0x4000_0000,
            max_precision < 0x4000_0000,
        ensures
            match r {
                Ok(d) => Ok::<DynamicValue, FormulaEvaluationError>(dynamic_view(d)) == dynamic_eval(*self, min_precision as nat, max_precision as nat, min_precision as nat, None),
                Err(x) => Err::<DynamicValue, FormulaEvaluationError>(x) == dynamic_eval(*self, min_precision as nat, max_precision as nat, min_precision as nat, None),
            },
    {
        let mut precision: usize = min_precision;
        let mut last: Option<FloatValue> = None;
        while last.is_none() || precision <= max_precision
            invariant
                self.wf(),
                no_range_checks(*self),
                1 <= min_precision < 0x4000_0000,
                max_precision < 0x4000_0000,
                1 <= precision < 0x8000_0000,
                last is None ==> precision == min_precision,
                last is Some ==> (precision <= 2 * max_precision || precision == 2 * min_precision),
                dynamic_eval(*self, min_precision as nat, max_precision as nat, min_precision as nat, None)
                    == dynamic_eval(*self, min_precision as nat, max_precision as nat, precision as nat,
                        match last { Some(l) => Some(float_view(l)), None => None }),
            decreases (if last is None { 1nat } else { 0nat }), room(max_precision as nat, precision as nat),
        {
            let result = self.eval(precision)?;
            let rounded = match result {
                Number::Float(f) => f,
                Number::Rational(q) => {
                    return Ok(DynamicResult::Exact(q));
                },
            };
            if let FloatValue::NaN(_) = rounded {
                return Ok(DynamicResult::Checked { num: rounded, precision });
            }
            let rounded = crate::arithmetic::mark_inexact(crate::arithmetic::float_round_to(&rounded, min_precision));
            if let Some(l) = &last {
                if float_values_equal(l, &rounded) {
                    return Ok(DynamicResult::Checked { num: rounded, precision });
                }
            }
            last = Some(rounded);
            precision = precision * 2;
        }
        match last {
            Some(l) => Ok(DynamicResult::ReachedLimit(l)),
            None => Ok(DynamicResult::ReachedLimit(FloatValue::NaN(None))),
        }
    }
}

impl Element {
    /// Whether no value range check is anywhere in the element (see `no_range_checks`).
    pub fn has_no_range_checks(&self) -> (b: bool)
        ensures
            b == no_range_checks(*self),
        decreases self,
    {
        match self {
            Element::Brackets(v) => all_without_range_checks(v),
            Element::Plus(v) => all_without_range_checks(v),
            Element::Multiply(v) => all_without_range_checks(v),
            Element::Function { arguments, .. } => all_without_range_checks(arguments),
            Element::FunctionWithExpression { arguments, expr_value } => match expr_value {
                ExpressionFunType::AssertValueRange(_) => false,
                _ => all_without_range_checks(arguments),
            },
            Element::Pow(a, b) => a.has_no_range_checks() && b.has_no_range_checks(),
            Element::Negate(a) => a.has_no_range_checks(),
            _ => true,
        }
    }
}

/// Whether no element holds a value range check.
pub fn all_without_range_checks(v: &Vec<Element>) -> (b: bool)
    ensures
        b == (forall|i: int| 0 <= i < v@.len() ==> no_range_checks(#[trigger] v@[i])),
    decreases v,
{
    let mut i: usize = 0;
    while i < v.len()
        invariant
            i <= v@.len(),
            forall|j: int| 0 <= j < i ==> no_range_checks(#[trigger] v@[j]),
        decreases v.len() - i,
    {
        if !v[i].has_no_range_checks() {
            return false;
        }
        i = i + 1;
    }
    true
}

} // verus!

