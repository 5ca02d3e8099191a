//! Simplification of expression trees: constant folding of sums and products, removal
//! of neutral and inverse elements, and the rules of powers, negations and the
//! expression functions `sin` and `rem`.

use vstd::prelude::*;
use crate::element::{
    Element, ElementView, NumberView, FloatView, ExpressionFunType, ExpressionNumType, view_seq,
    lemma_view_seq_len, lemma_view_seq_index, lemma_view_seq_push, float_view, number_view,
};
use crate::number::{Number, FloatValue, FloatError};
use crate::rational::{Rational, abs, gcd, trunc_rem, lowest_terms, lemma_lowest_terms};

verus! {

/// A fraction by numerator and denominator.
pub type Ratio = (int, int);

// ---------------------------------------------------------------------------
// Numbers
// ---------------------------------------------------------------------------

/// A float with its sign flipped (NaN stays as it is).
pub open spec fn float_negated(f: FloatView) -> FloatView {
    match f {
        FloatView::Finite(m, b, n, e, i) => FloatView::Finite(m, b, !n, e, i),
        FloatView::Infinite(n) => FloatView::Infinite(!n),
        FloatView::NaN(e) => FloatView::NaN(e),
    }
}

/// A float with its sign cleared (NaN stays as it is).
pub open spec fn float_abs(f: FloatView) -> FloatView {
    match f {
        FloatView::Finite(m, b, _, e, i) => FloatView::Finite(m, b, false, e, i),
        FloatView::Infinite(_) => FloatView::Infinite(false),
        FloatView::NaN(e) => FloatView::NaN(e),
    }
}

/// The exact value of a number: its fraction for a rational. A float is never exact
/// (see `Number::wf`).
pub open spec fn num_exact(n: NumberView) -> Option<Ratio> {
    match n {
        NumberView::Rational(p, q) => Some((p, q)),
        NumberView::Float(_) => None,
    }
}

pub open spec fn num_is_nan(n: NumberView) -> bool {
    n matches NumberView::Float(FloatView::NaN(_))
}

pub open spec fn num_is_zero(n: NumberView) -> bool {
    match n {
        NumberView::Rational(p, _) => p == 0,
        NumberView::Float(FloatView::Finite(_, bits, _, _, _)) => bits == 0,
        _ => false,
    }
}

/// Positive: a rational above zero, a float with a positive sign (zero included), not NaN.
pub open spec fn num_is_positive(n: NumberView) -> bool {
    match n {
        NumberView::Rational(p, _) => p > 0,
        NumberView::Float(FloatView::Finite(_, _, neg, _, _)) => !neg,
        NumberView::Float(FloatView::Infinite(neg)) => !neg,
        _ => false,
    }
}

/// Negative: a rational below zero, a float with a negative sign, not NaN.
pub open spec fn num_is_negative(n: NumberView) -> bool {
    match n {
        NumberView::Rational(p, _) => p < 0,
        NumberView::Float(FloatView::Finite(_, _, neg, _, _)) => neg,
        NumberView::Float(FloatView::Infinite(neg)) => neg,
        _ => false,
    }
}

pub open spec fn num_negated(n: NumberView) -> NumberView {
    match n {
        NumberView::Rational(p, q) => NumberView::Rational(-p, q),
        NumberView::Float(f) => NumberView::Float(float_negated(f)),
    }
}

pub open spec fn num_abs(n: NumberView) -> NumberView {
    match n {
        NumberView::Rational(p, q) => NumberView::Rational(abs(p) as int, q),
        NumberView::Float(f) => NumberView::Float(float_abs(f)),
    }
}

/// Whether two floats compare equal as `astro_float` numbers.
pub uninterp spec fn float_equal(a: FloatView, b: FloatView) -> bool;

/// Whether a float is an integer (`BigFloat::is_int`).
pub uninterp spec fn float_is_integer(f: FloatView) -> bool;

/// The integer `k` as a float of 64 bits.
pub uninterp spec fn float_of_i32(k: i32) -> FloatView;

#[verifier::external_type_specification]
#[verifier::external_body]
pub struct ExBigFloat(astro_float::BigFloat);

/// `astro_float::BigFloat::from_raw_parts` (or the infinity or NaN constant) for the parts
/// of a float. Nothing is stated of the value: it only goes on to the comparisons below.
#[verifier::external_body]
pub(crate) fn big_float_of(f: &FloatValue) -> astro_float::BigFloat {
    match f {
        FloatValue::Finite { mantissa, bits, negative, exponent, inexact } => astro_float::BigFloat::from_raw_parts(
            mantissa, *bits, if *negative { astro_float::Sign::Neg } else { astro_float::Sign::Pos }, *exponent, *inexact),
        FloatValue::Infinite { negative } => if *negative { astro_float::INF_NEG } else { astro_float::INF_POS },
        FloatValue::NaN(e) => astro_float::BigFloat::nan(e.map(|x| match x {
            FloatError::ExponentOverflow(n) => astro_float::Error::ExponentOverflow(if n { astro_float::Sign::Neg } else { astro_float::Sign::Pos }),
            FloatError::DivisionByZero => astro_float::Error::DivisionByZero,
            FloatError::InvalidArgument => astro_float::Error::InvalidArgument,
            FloatError::MemoryAllocation => astro_float::Error::MemoryAllocation,
        })),
    }
}

/// `astro_float::BigFloat::from_i32` with 64 bits of precision, which hold any `i32`
/// (see `float_of_i32`).
#[verifier::external_body]
fn float_from_i32(k: i32) -> (r: FloatValue)
    ensures
        float_view(r) == float_of_i32(k),
{
    crate::arithmetic::float_value_of(astro_float::BigFloat::from_i32(k, 64))
}

/// `==` of `astro_float::BigFloat` (equal by value; NaN equals nothing). The contract names
/// the result only: it is a function of the two floats.
#[verifier::external_body]
pub(crate) fn float_values_equal(a: &FloatValue, b: &FloatValue) -> (r: bool)
    ensures
        r == float_equal(float_view(*a), float_view(*b)),
{
    big_float_of(a) == big_float_of(b)
}

/// `BigFloat::is_int` (see `float_is_integer`).
#[verifier::external_body]
fn float_is_int(f: &FloatValue) -> (r: bool)
    ensures
        r == float_is_integer(float_view(*f)),
{
    big_float_of(f).is_int()
}

/// Whether a float is an integer equal to `k` (`Number == i32` on a float).
pub open spec fn float_equals_int(f: FloatView, k: i32) -> bool {
    float_is_integer(f) && float_equal(f, float_of_i32(k))
}

fn float_value_equals_int(f: &FloatValue, k: i32) -> (r: bool)
    ensures
        r == float_equals_int(float_view(*f), k),
{
    float_is_int(f) && float_values_equal(f, &float_from_i32(k))
}

/// Equality of numbers: rationals by value, floats by value or as NaN with the same error.
pub open spec fn num_eq(a: NumberView, b: NumberView) -> bool {
    match (a, b) {
        (NumberView::Rational(p1, q1), NumberView::Rational(p2, q2)) => p1 == p2 && q1 == q2,
        (NumberView::Float(x), NumberView::Float(y)) => float_equal(x, y) || (match (x, y) {
            (FloatView::NaN(e1), FloatView::NaN(e2)) => e1 == e2,
            _ => false,
        }),
        _ => false,
    }
}

/// Whether a number is the integer `k`.
pub open spec fn num_eq_int(n: NumberView, k: i32) -> bool {
    match n {
        NumberView::Rational(p, q) => q == 1 && p == k,
        NumberView::Float(f) => float_equals_int(f, k),
    }
}

/// The element of an integer.
pub open spec fn int_view(k: int) -> ElementView {
    ElementView::Number(NumberView::Rational(k, 1))
}

pub open spec fn rat_add(a: Ratio, b: Ratio) -> Ratio {
    lowest_terms(a.0 * b.1 + b.0 * a.1, a.1 * b.1)
}

pub open spec fn rat_mul(a: Ratio, b: Ratio) -> Ratio {
    lowest_terms(a.0 * b.0, a.1 * b.1)
}

/// The remainder of a truncating division, with the sign of `a`.
pub open spec fn rat_rem(a: Ratio, b: Ratio) -> Ratio {
    lowest_terms(trunc_rem(a.0 * b.1, b.0 * a.1), a.1 * b.1)
}

/// The reciprocal of a fraction in lowest terms.
pub open spec fn rat_recip(a: Ratio) -> Ratio {
    if a.0 < 0 { (-a.1, -a.0) } else { (a.1, a.0) }
}

// ---------------------------------------------------------------------------
// Equality of elements
// ---------------------------------------------------------------------------

/// Equality of elements: the same structure, names and expression types, and equal
/// numbers (`num_eq`).
pub open spec fn elem_eq(a: ElementView, b: ElementView) -> bool
    decreases a,
{
    match (a, b) {
        (ElementView::Brackets(x), ElementView::Brackets(y)) => elems_eq(x, y),
        (ElementView::String(x), ElementView::String(y)) => x == y,
        (ElementView::Function(n1, x), ElementView::Function(n2, y)) => n1 == n2 && elems_eq(x, y),
        (ElementView::Variable(x), ElementView::Variable(y)) => x == y,
        (ElementView::VariableOrFunction(x), ElementView::VariableOrFunction(y)) => x == y,
        (ElementView::FunctionWithExpression(x, t1), ElementView::FunctionWithExpression(y, t2)) => elems_eq(x, y) && t1 == t2,
        (ElementView::NumberWithExpression(t1), ElementView::NumberWithExpression(t2)) => t1 == t2,
        (ElementView::Plus(x), ElementView::Plus(y)) => elems_eq(x, y),
        (ElementView::Multiply(x), ElementView::Multiply(y)) => elems_eq(x, y),
        (ElementView::Pow(a1, b1), ElementView::Pow(a2, b2)) => elem_eq(*a1, *a2) && elem_eq(*b1, *b2),
        (ElementView::Negate(x), ElementView::Negate(y)) => elem_eq(*x, *y),
        (ElementView::Number(x), ElementView::Number(y)) => num_eq(x, y),
        _ => false,
    }
}

/// Equality of lists of elements, element by element.
pub open spec fn elems_eq(x: Seq<ElementView>, y: Seq<ElementView>) -> bool
    decreases x,
{
    x.len() == y.len() && (x.len() == 0 || (elems_eq(x.drop_last(), y.drop_last()) && elem_eq(x.last(), y.last())))
}

// ---------------------------------------------------------------------------
// Sums and products
// ---------------------------------------------------------------------------

pub open spec fn is_exact_number(e: ElementView) -> bool {
    e matches ElementView::Number(n) && num_exact(n) is Some
}

pub open spec fn exact_of(e: ElementView) -> Ratio {
    match e {
        ElementView::Number(NumberView::Rational(p, q)) => (p, q),
        _ => (0, 1),
    }
}

pub open spec fn combine(a: Ratio, b: Ratio, is_plus: bool) -> Ratio {
    if is_plus { rat_add(a, b) } else { rat_mul(a, b) }
}

/// The exact numbers of the list combined from left to right (summed or multiplied);
/// `None` where there is none.
pub open spec fn combined_numbers(s: Seq<ElementView>, is_plus: bool) -> Option<Ratio>
    decreases s.len(),
{
    if s.len() == 0 {
        None
    } else {
        let prev = combined_numbers(s.drop_last(), is_plus);
        if is_exact_number(s.last()) {
            match prev {
                None => Some(exact_of(s.last())),
                Some(c) => Some(combine(c, exact_of(s.last()), is_plus)),
            }
        } else {
            prev
        }
    }
}

/// The elements that are not exact numbers, in order.
pub open spec fn others(s: Seq<ElementView>) -> Seq<ElementView>
    decreases s.len(),
{
    if s.len() == 0 {
        s
    } else if is_exact_number(s.last()) {
        others(s.drop_last())
    } else {
        others(s.drop_last()).push(s.last())
    }
}

/// The factors with their negations taken off, and whether an odd number of them was
/// negated.
pub open spec fn negations_stripped(s: Seq<ElementView>) -> (Seq<ElementView>, bool)
    decreases s.len(),
{
    if s.len() == 0 {
        (s, false)
    } else {
        let (r, n) = negations_stripped(s.drop_last());
        match s.last() {
            ElementView::Negate(x) => (r.push(*x), !n),
            e => (r.push(e), n),
        }
    }
}

/// Nested sums in a sum (nested products in a product) replaced by their elements.
pub open spec fn flattened(s: Seq<ElementView>, is_plus: bool) -> Seq<ElementView>
    decreases s.len(),
{
    if s.len() == 0 {
        s
    } else {
        let r = flattened(s.drop_last(), is_plus);
        match s.last() {
            ElementView::Plus(inner) => if is_plus { r + inner } else { r.push(s.last()) },
            ElementView::Multiply(inner) => if !is_plus { r + inner } else { r.push(s.last()) },
            e => r.push(e),
        }
    }
}

/// The first NaN number of the list, if any.
pub open spec fn first_nan(s: Seq<ElementView>) -> Option<ElementView>
    decreases s.len(),
{
    if s.len() == 0 {
        None
    } else if s[0] matches ElementView::Number(n) && num_is_nan(n) {
        Some(s[0])
    } else {
        first_nan(s.skip(1))
    }
}

/// `a` is the negation of `b`.
pub open spec fn negation_of(a: ElementView, b: ElementView) -> bool {
    a matches ElementView::Negate(x) && elem_eq(*x, b)
}

/// `a` is `b` to the power of -1.
pub open spec fn reciprocal_of(a: ElementView, b: ElementView) -> bool {
    a matches ElementView::Pow(x, e) && elem_eq(*x, b) && (*e matches ElementView::Number(n) && num_eq_int(n, -1i32))
}

/// Whether two terms of a sum (factors of a product) cancel each other.
pub open spec fn cancel(a: ElementView, b: ElementView, is_plus: bool) -> bool {
    if is_plus {
        negation_of(a, b) || negation_of(b, a)
    } else {
        reciprocal_of(a, b) || reciprocal_of(b, a)
    }
}

/// The marks after looking for a partner of element `i` from `j` on: the first unmarked
/// `j` that cancels with `i` marks both.
pub open spec fn partner_marked(s: Seq<ElementView>, is_plus: bool, i: int, j: int, marks: Seq<bool>) -> Seq<bool>
    decreases s.len() - j,
{
    if j >= s.len() || j < 0 {
        marks
    } else if marks[j] {
        partner_marked(s, is_plus, i, j + 1, marks)
    } else if cancel(s[i], s[j], is_plus) {
        marks.update(i, true).update(j, true)
    } else {
        partner_marked(s, is_plus, i, j + 1, marks)
    }
}

/// The marks after looking for partners of the elements from `i` on (all but the last).
pub open spec fn cancel_marks(s: Seq<ElementView>, is_plus: bool, i: int, marks: Seq<bool>) -> Seq<bool>
    decreases s.len() - i,
{
    if i < 0 || i + 1 >= s.len() {
        marks
    } else {
        cancel_marks(s, is_plus, i + 1, partner_marked(s, is_plus, i, i + 1, marks))
    }
}

/// The elements that are not marked, in order.
pub open spec fn unmarked(s: Seq<ElementView>, marks: Seq<bool>) -> Seq<ElementView>
    decreases s.len(),
{
    if s.len() == 0 {
        s
    } else {
        let r = unmarked(s.drop_last(), marks);
        if marks[s.len() - 1] { r } else { r.push(s.last()) }
    }
}

/// The list with the pairs that cancel each other taken out.
pub open spec fn inverses_removed(s: Seq<ElementView>, is_plus: bool) -> Seq<ElementView> {
    unmarked(s, cancel_marks(s, is_plus, 0, Seq::new(s.len(), |k: int| false)))
}

/// A sum (product) of already simplified elements reduced: a NaN takes over the whole list;
/// the exact numbers are combined into one that leads the list unless it is neutral; for a
/// product, negations are taken off the factors and their sign goes into the number, or,
/// where there is none, out of the product (the flag); a zero number takes over a product;
/// nested lists are flattened and cancelling pairs removed.
pub open spec fn list_reduced(s: Seq<ElementView>, is_plus: bool) -> (Seq<ElementView>, bool) {
    match first_nan(s) {
        Some(n) => (seq![n], false),
        None => {
            let c = match combined_numbers(s, is_plus) {
                Some(c) => if (is_plus && c.0 == 0) || (!is_plus && c.0 == c.1) { None } else { Some(c) },
                None => None,
            };
            let (o, neg) = if is_plus { (others(s), false) } else { negations_stripped(others(s)) };
            match c {
                Some(c) => {
                    let c2 = if neg { (-c.0, c.1) } else { c };
                    let lead = ElementView::Number(NumberView::Rational(c2.0, c2.1));
                    if !is_plus && c2.0 == 0 {
                        (seq![lead], false)
                    } else {
                        (inverses_removed(seq![lead] + flattened(o, is_plus), is_plus), false)
                    }
                },
                None => (inverses_removed(flattened(o, is_plus), is_plus), neg),
            }
        },
    }
}

/// A reduced list as an element: the neutral number when empty, the element itself when
/// alone, else the sum (product).
pub open spec fn collapsed(s: Seq<ElementView>, is_plus: bool) -> ElementView {
    if s.len() == 0 {
        int_view(if is_plus { 0 } else { 1 })
    } else if s.len() == 1 {
        s[0]
    } else if is_plus {
        ElementView::Plus(s)
    } else {
        ElementView::Multiply(s)
    }
}

// ---------------------------------------------------------------------------
// The simplification
// ---------------------------------------------------------------------------

/// `x^-1`, as the parser writes it.
pub open spec fn inverse_view(x: ElementView) -> ElementView {
    ElementView::Pow(Box::new(x), Box::new(ElementView::Negate(Box::new(int_view(1)))))
}

/// The simplified element; `None` where the step panics (a remainder by zero, the
/// reciprocal of zero) or goes deeper than `fuel`.
pub open spec fn optimized(e: ElementView, fuel: nat) -> Option<ElementView>
    decreases fuel, 0nat, 0nat,
{
    if fuel == 0 {
        None
    } else {
        let f = (fuel - 1) as nat;
        match e {
            ElementView::Function(name, args) => match optimized_all(args, f) {
                Some(a) => Some(ElementView::Function(name, a)),
                None => None,
            },
            ElementView::FunctionWithExpression(args, t) => match optimized_all(args, f) {
                Some(a) => expression_function_optimized(a, t, f),
                None => None,
            },
            ElementView::Plus(s) => match optimized_all(s, f) {
                Some(s1) => Some(collapsed(list_reduced(s1, true).0, true)),
                None => None,
            },
            ElementView::Multiply(s) => match optimized_all(s, f) {
                Some(s1) => {
                    let (s2, neg) = list_reduced(s1, false);
                    if neg {
                        optimized(ElementView::Negate(Box::new(collapsed(s2, false))), f)
                    } else {
                        Some(collapsed(s2, false))
                    }
                },
                None => None,
            },
            ElementView::Pow(b, x) => match optimized(*b, f) {
                Some(b2) => match optimized(*x, f) {
                    Some(x2) => pow_optimized(b2, x2, f),
                    None => None,
                },
                None => None,
            },
            ElementView::Negate(x) => match optimized(*x, f) {
                Some(x2) => Some(match x2 {
                    ElementView::Number(n) => ElementView::Number(num_negated(n)),
                    ElementView::Negate(inner) => *inner,
                    _ => ElementView::Negate(Box::new(x2)),
                }),
                None => None,
            },
            _ => Some(e),
        }
    }
}

/// Each element simplified.
pub open spec fn optimized_all(s: Seq<ElementView>, fuel: nat) -> Option<Seq<ElementView>>
    decreases fuel, 1nat, s.len(),
{
    if s.len() == 0 {
        Some(s)
    } else {
        match optimized_all(s.drop_last(), fuel) {
            Some(r) => match optimized(s.last(), fuel) {
                Some(x) => Some(r.push(x)),
                None => None,
            },
            None => None,
        }
    }
}

/// A power of a simplified base and exponent: `1^x = 1`; `0^x` is 0, NaN or 1 for a
/// positive, negative or zero number `x`; a negative number to an even integer loses its
/// sign; an exact number to the power of -1 is its reciprocal; `x^1 = x`, `x^0 = 1`; a power
/// of a power multiplies the exponents where the inner base is a positive number or both
/// exponents are integers; a power of a product is the product of the powers.
pub open spec fn pow_optimized(b2: ElementView, x2: ElementView, fuel: nat) -> Option<ElementView>
    decreases fuel, 1nat, 0nat,
{
    let keep = ElementView::Pow(Box::new(b2), Box::new(x2));
    let base_step: Option<Option<ElementView>> = match b2 {
        ElementView::Number(bn) => {
            if num_exact(bn) matches Some(r) && r.0 == r.1 {
                Some(Some(int_view(1)))
            } else if num_is_zero(bn) && (x2 matches ElementView::Number(xn) && (num_is_positive(xn) || num_is_negative(xn) || num_is_zero(xn))) {
                match x2 {
                    ElementView::Number(xn) => Some(Some(
                        if num_is_positive(xn) {
                            int_view(0)
                        } else if num_is_negative(xn) {
                            ElementView::Number(NumberView::Float(FloatView::NaN(Some(FloatError::DivisionByZero))))
                        } else {
                            int_view(1)
                        })),
                    _ => None,
                }
            } else if !num_is_zero(bn) && num_is_negative(bn) && (x2 matches ElementView::Number(xn) && num_exact(xn) matches Some(r) && r.1 == 1 && r.0 % 2 == 0) {
                Some(Some(ElementView::Pow(Box::new(ElementView::Number(num_abs(bn))), Box::new(x2))))
            } else if (x2 matches ElementView::Number(xn) && num_eq_int(xn, -1i32)) && num_exact(bn) is Some {
                let r = num_exact(bn)->Some_0;
                if r.0 == 0 {
                    Some(None)
                } else {
                    let q = rat_recip(r);
                    Some(Some(ElementView::Number(NumberView::Rational(q.0, q.1))))
                }
            } else {
                None
            }
        },
        _ => None,
    };
    match base_step {
        Some(r) => r,
        None => {
            if x2 matches ElementView::Number(xn) && num_exact(xn) matches Some(r) && r.0 == r.1 {
                Some(b2)
            } else if x2 matches ElementView::Number(xn) && num_is_zero(xn) {
                Some(int_view(1))
            } else {
                match b2 {
                    ElementView::Pow(ib, ip) => {
                        let base_positive = *ib matches ElementView::Number(n) && num_is_positive(n);
                        let inner_int = *ip matches ElementView::Number(n) && num_exact(n) matches Some(r) && r.1 == 1;
                        let outer_int = x2 matches ElementView::Number(n) && num_exact(n) matches Some(r) && r.1 == 1;
                        if base_positive || (inner_int && outer_int) {
                            optimized(ElementView::Pow(ib, Box::new(ElementView::Multiply(seq![*ip, x2]))), fuel)
                        } else {
                            Some(keep)
                        }
                    },
                    ElementView::Multiply(inner) => optimized(
                        ElementView::Multiply(inner.map_values(|el: ElementView| ElementView::Pow(Box::new(el), Box::new(x2)))),
                        fuel,
                    ),
                    _ => Some(keep),
                }
            }
        },
    }
}

/// The expression functions after their arguments are simplified: `sin` of a multiple of
/// pi (found through `rem(x / pi, 2) * 2`) is 0, 1 or -1, else the sine of that multiple in
/// radians; `rem` of two exact numbers is their remainder, made non-negative by adding the
/// divisor where it is negative; the rest stay as they are.
pub open spec fn expression_function_optimized(a: Seq<ElementView>, t: ExpressionFunType, fuel: nat) -> Option<ElementView>
    decreases fuel, 1nat, 0nat,
{
    let keep = ElementView::FunctionWithExpression(a, t);
    match t {
        ExpressionFunType::Sin => if a.len() != 1 {
            Some(keep)
        } else {
            let divided = ElementView::Multiply(seq![a[0], inverse_view(ElementView::NumberWithExpression(ExpressionNumType::Pi))]);
            let rem = ElementView::FunctionWithExpression(seq![divided, int_view(2)], ExpressionFunType::Rem);
            match optimized(ElementView::Multiply(seq![rem, int_view(2)]), fuel) {
                None => None,
                Some(m) => match m {
                    ElementView::Number(x) => if num_eq_int(x, 0i32) || num_eq_int(num_abs(x), 2i32) {
                        Some(int_view(0))
                    } else if num_eq_int(num_abs(x), 1i32) {
                        Some(int_view(if num_eq_int(x, 1i32) { 1 } else { -1 }))
                    } else {
                        Some(ElementView::FunctionWithExpression(seq![m], ExpressionFunType::SinWithRadians))
                    },
                    _ => Some(ElementView::FunctionWithExpression(seq![m], ExpressionFunType::SinWithRadians)),
                },
            }
        },
        ExpressionFunType::Rem => if a.len() != 2 {
            Some(keep)
        } else {
            match (a[0], a[1]) {
                (ElementView::Number(n1), ElementView::Number(n2)) => match (num_exact(n1), num_exact(n2)) {
                    (Some(r1), Some(r2)) => if r2.0 == 0 {
                        None
                    } else {
                        let r = rat_rem(r1, r2);
                        let r3 = if r.0 < 0 { rat_add(r, r2) } else { r };
                        Some(ElementView::Number(NumberView::Rational(r3.0, r3.1)))
                    },
                    _ => Some(keep),
                },
                _ => Some(keep),
            }
        },
        _ => Some(keep),
    }
}


// ---------------------------------------------------------------------------
// Numbers, executable
// ---------------------------------------------------------------------------

/// The element of the integer `k`.
fn int_element(k: i64) -> (e: Element)
    ensures
        e@ == int_view(k as int),
        e.wf(),
{
    crate::element::num_int(k)
}

/// The element of a well-formed rational.
fn rational_element(q: Rational) -> (e: Element)
    requires
        q.wf(),
    ensures
        e@ == ElementView::Number(NumberView::Rational(q.n(), q.d())),
        e.wf(),
{
    Element::Number(Number::Rational(q))
}

pub(crate) fn number_is_zero(n: &Number) -> (b: bool)
    requires
        n.wf(),
    ensures
        b == num_is_zero(number_view(*n)),
{
    match n {
        Number::Rational(q) => crate::rational::rational_is_zero(q),
        Number::Float(FloatValue::Finite { bits, .. }) => *bits == 0,
        Number::Float(_) => false,
    }
}

fn number_is_negative(n: &Number) -> (b: bool)
    requires
        n.wf(),
    ensures
        b == num_is_negative(number_view(*n)),
{
    match n {
        Number::Rational(q) => crate::rational::rational_is_negative(q),
        Number::Float(FloatValue::Finite { negative, .. }) => *negative,
        Number::Float(FloatValue::Infinite { negative }) => *negative,
        Number::Float(FloatValue::NaN(_)) => false,
    }
}

fn number_is_positive(n: &Number) -> (b: bool)
    requires
        n.wf(),
    ensures
        b == num_is_positive(number_view(*n)),
{
    match n {
        Number::Rational(q) => !crate::rational::rational_is_negative(q) && !crate::rational::rational_is_zero(q),
        Number::Float(FloatValue::Finite { negative, .. }) => !*negative,
        Number::Float(FloatValue::Infinite { negative }) => !*negative,
        Number::Float(FloatValue::NaN(_)) => false,
    }
}

pub(crate) fn number_negated(n: &Number) -> (r: Number)
    requires
        n.wf(),
    ensures
        r.wf(),
        number_view(r) == num_negated(number_view(*n)),
{
    match n {
        Number::Rational(q) => Number::Rational(crate::rational::rational_neg(q)),
        Number::Float(FloatValue::Finite { mantissa, bits, negative, exponent, inexact }) => Number::Float(FloatValue::Finite {
            mantissa: mantissa.clone(), bits: *bits, negative: !*negative, exponent: *exponent, inexact: *inexact,
        }),
        Number::Float(FloatValue::Infinite { negative }) => Number::Float(FloatValue::Infinite { negative: !*negative }),
        Number::Float(FloatValue::NaN(e)) => Number::Float(FloatValue::NaN(*e)),
    }
}

pub(crate) fn number_abs(n: &Number) -> (r: Number)
    requires
        n.wf(),
    ensures
        r.wf(),
        number_view(r) == num_abs(number_view(*n)),
{
    match n {
        Number::Rational(q) => Number::Rational(crate::rational::rational_abs(q)),
        Number::Float(FloatValue::Finite { mantissa, bits, exponent, inexact, .. }) => Number::Float(FloatValue::Finite {
            mantissa: mantissa.clone(), bits: *bits, negative: false, exponent: *exponent, inexact: *inexact,
        }),
        Number::Float(FloatValue::Infinite { .. }) => Number::Float(FloatValue::Infinite { negative: false }),
        Number::Float(FloatValue::NaN(e)) => Number::Float(FloatValue::NaN(*e)),
    }
}

fn same_float_error(a: Option<FloatError>, b: Option<FloatError>) -> (r: bool)
    ensures
        r == (a == b),
{
    match (a, b) {
        (None, None) => true,
        (Some(FloatError::ExponentOverflow(x)), Some(FloatError::ExponentOverflow(y))) => x == y,
        (Some(FloatError::DivisionByZero), Some(FloatError::DivisionByZero)) => true,
        (Some(FloatError::InvalidArgument), Some(FloatError::InvalidArgument)) => true,
        (Some(FloatError::MemoryAllocation), Some(FloatError::MemoryAllocation)) => true,
        _ => false,
    }
}

/// Two well-formed rationals are equal exactly when their values are.
fn rationals_equal(a: &Rational, b: &Rational) -> (r: bool)
    requires
        a.wf(),
        b.wf(),
    ensures
        r == (a.n() == b.n() && a.d() == b.d()),
{
    let c = crate::rational::rational_cmp(a, b);
    if c == 0 {
        proof {
            crate::rational::lemma_reduced_unique(a.n(), a.d(), b.n(), b.d());
        }
        true
    } else {
        false
    }
}

fn numbers_equal(a: &Number, b: &Number) -> (r: bool)
    requires
        a.wf(),
        b.wf(),
    ensures
        r == num_eq(number_view(*a), number_view(*b)),
{
    match (a, b) {
        (Number::Rational(x), Number::Rational(y)) => rationals_equal(x, y),
        (Number::Float(x), Number::Float(y)) => {
            if float_values_equal(x, y) {
                true
            } else {
                match (x, y) {
                    (FloatValue::NaN(e1), FloatValue::NaN(e2)) => same_float_error(*e1, *e2),
                    _ => false,
                }
            }
        },
        _ => false,
    }
}

pub(crate) fn number_equals_int(n: &Number, k: i32) -> (r: bool)
    requires
        n.wf(),
    ensures
        r == num_eq_int(number_view(*n), k),
{
    match n {
        Number::Rational(q) => match crate::rational::rational_to_i32(q) {
            Some(v) => v == k,
            None => false,
        },
        Number::Float(f) => float_value_equals_int(f, k),
    }
}

// ---------------------------------------------------------------------------
// Equality of elements, executable
// ---------------------------------------------------------------------------

/// `elems_eq` element by element.
pub proof fn lemma_elems_eq(x: Seq<ElementView>, y: Seq<ElementView>)
    ensures
        elems_eq(x, y) == (x.len() == y.len() && forall|i: int| 0 <= i < x.len() ==> #[trigger] elem_eq(x[i], y[i])),
    decreases x.len(),
{
    if x.len() > 0 && x.len() == y.len() {
        lemma_elems_eq(x.drop_last(), y.drop_last());
        if elems_eq(x, y) {
            assert forall|i: int| 0 <= i < x.len() implies #[trigger] elem_eq(x[i], y[i]) by {
                if i < x.len() - 1 {
                    assert(x.drop_last()[i] == x[i]);
                    assert(y.drop_last()[i] == y[i]);
                }
            }
        }
        if forall|i: int| 0 <= i < x.len() ==> #[trigger] elem_eq(x[i], y[i]) {
            assert forall|i: int| 0 <= i < x.len() - 1 implies #[trigger] elem_eq(x.drop_last()[i], y.drop_last()[i]) by {
                assert(elem_eq(x[i], y[i]));
            }
            assert(elem_eq(x[x.len() - 1], y[y.len() - 1]));
        }
    }
}

fn texts_equal(a: &String, b: &String) -> (r: bool)
    ensures
        r == (a@ == b@),
{
    crate::matching::same_text(a.as_str(), b.as_str())
}

/// Whether two elements are equal (see `elem_eq`).
pub fn elements_equal(a: &Element, b: &Element) -> (r: bool)
    requires
        a.wf(),
        b.wf(),
    ensures
        r == elem_eq(a@, b@),
    decreases a,
{
    match (a, b) {
        (Element::Brackets(x), Element::Brackets(y)) => element_lists_equal(x, y),
        (Element::String(x), Element::String(y)) => texts_equal(x, y),
        (Element::Function { name: n1, arguments: x }, Element::Function { name: n2, arguments: y }) =>
            texts_equal(n1, n2) && element_lists_equal(x, y),
        (Element::Variable(x), Element::Variable(y)) => texts_equal(x, y),
        (Element::VariableOrFunction(x), Element::VariableOrFunction(y)) => texts_equal(x, y),
        (Element::FunctionWithExpression { arguments: x, expr_value: t1 }, Element::FunctionWithExpression { arguments: y, expr_value: t2 }) =>
            element_lists_equal(x, y) && *t1 == *t2,
        (Element::NumberWithExpression { expr_value: t1 }, Element::NumberWithExpression { expr_value: t2 }) => *t1 == *t2,
        (Element::Plus(x), Element::Plus(y)) => element_lists_equal(x, y),
        (Element::Multiply(x), Element::Multiply(y)) => element_lists_equal(x, y),
        (Element::Pow(a1, b1), Element::Pow(a2, b2)) => elements_equal(a1, a2) && elements_equal(b1, b2),
        (Element::Negate(x), Element::Negate(y)) => elements_equal(x, y),
        (Element::Number(x), Element::Number(y)) => numbers_equal(x, y),
        _ => false,
    }
}

/// Whether two lists of elements are equal, element by element.
pub fn element_lists_equal(x: &Vec<Element>, y: &Vec<Element>) -> (r: bool)
    requires
        forall|i: int| 0 <= i < x@.len() ==> (#[trigger] x@[i]).wf(),
        forall|i: int| 0 <= i < y@.len() ==> (#[trigger] y@[i]).wf(),
    ensures
        r == elems_eq(view_seq(x@), view_seq(y@)),
    decreases x,
{
    proof {
        lemma_elems_eq(view_seq(x@), view_seq(y@));
        lemma_view_seq_len(x@);
        lemma_view_seq_len(y@);
    }
    if x.len() != y.len() {
        return false;
    }
    let mut i: usize = 0;
    while i < x.len()
        invariant
            i <= x@.len(),
            x@.len() == y@.len(),
            forall|k: int| 0 <= k < x@.len() ==> (#[trigger] x@[k]).wf(),
            forall|k: int| 0 <= k < y@.len() ==> (#[trigger] y@[k]).wf(),
            view_seq(x@).len() == x@.len(),
            view_seq(y@).len() == y@.len(),
            forall|k: int| 0 <= k < i ==> #[trigger] elem_eq(view_seq(x@)[k], view_seq(y@)[k]),
        decreases x.len() - i,
    {
        proof {
            lemma_view_seq_index(x@, i as int);
            lemma_view_seq_index(y@, i as int);
        }
        if !elements_equal(&x[i], &y[i]) {
            proof {
                lemma_elems_eq(view_seq(x@), view_seq(y@));
                assert(!elem_eq(view_seq(x@)[i as int], view_seq(y@)[i as int]));
            }
            return false;
        }
        i = i + 1;
    }
    true
}


// ---------------------------------------------------------------------------
// Sums and products, executable
// ---------------------------------------------------------------------------

pub open spec fn all_wf(v: Seq<Element>) -> bool {
    forall|i: int| 0 <= i < v.len() ==> (#[trigger] v[i]).wf()
}

/// The view of a list with one more element.
proof fn lemma_take_push(s: Seq<Element>, i: int)
    requires
        0 <= i < s.len(),
    ensures
        view_seq(s.take(i + 1)) == view_seq(s.take(i)).push(s[i]@),
        view_seq(s).take(i + 1) == view_seq(s.take(i + 1)),
{
    assert(s.take(i + 1) =~= s.take(i).push(s[i]));
    lemma_view_seq_push(s.take(i), s[i]);
    lemma_view_seq_prefix(s, i + 1);
}

/// The view of a prefix is the prefix of the view.
pub proof fn lemma_view_seq_prefix(s: Seq<Element>, k: int)
    requires
        0 <= k <= s.len(),
    ensures
        view_seq(s).take(k) == view_seq(s.take(k)),
{
    lemma_view_seq_len(s);
    lemma_view_seq_len(s.take(k));
    assert forall|j: int| 0 <= j < k implies view_seq(s).take(k)[j] == view_seq(s.take(k))[j] by {
        lemma_view_seq_index(s, j);
        lemma_view_seq_index(s.take(k), j);
    }
    assert(view_seq(s).take(k) =~= view_seq(s.take(k)));
}

/// Where the first NaN of the list is, if there is one.
fn first_nan_index(s: &Vec<Element>) -> (r: Option<usize>)
    ensures
        match r {
            Some(i) => i < s@.len() && first_nan(view_seq(s@)) == Some(s@[i as int]@),
            None => first_nan(view_seq(s@)) is None,
        },
{
    let ghost vs = view_seq(s@);
    proof {
        lemma_view_seq_len(s@);
        assert(vs.skip(0) =~= vs);
    }
    let mut i: usize = 0;
    while i < s.len()
        invariant
            i <= s@.len(),
            vs == view_seq(s@),
            vs.len() == s@.len(),
            first_nan(vs) == first_nan(vs.skip(i as int)),
        decreases s.len() - i,
    {
        proof {
            lemma_view_seq_index(s@, i as int);
            assert(vs.skip(i as int)[0] == vs[i as int]);
            assert(vs.skip(i as int).skip(1) =~= vs.skip(i + 1));
        }
        let is_nan = match &s[i] {
            Element::Number(n) => n.is_nan(),
            _ => false,
        };
        if is_nan {
            return Some(i);
        }
        i = i + 1;
    }
    assert(vs.skip(i as int).len() == 0);
    None
}

/// The exact numbers of the list combined (see `combined_numbers`).
fn combined_numbers_of(s: &Vec<Element>, is_plus: bool) -> (r: Option<Rational>)
    requires
        all_wf(s@),
    ensures
        match r {
            Some(q) => q.wf() && combined_numbers(view_seq(s@), is_plus) == Some((q.n(), q.d())),
            None => combined_numbers(view_seq(s@), is_plus) is None,
        },
{
    let mut acc: Option<Rational> = None;
    let mut i: usize = 0;
    while i < s.len()
        invariant
            i <= s@.len(),
            all_wf(s@),
            match acc {
                Some(q) => q.wf() && combined_numbers(view_seq(s@.take(i as int)), is_plus) == Some((q.n(), q.d())),
                None => combined_numbers(view_seq(s@.take(i as int)), is_plus) is None,
            },
        decreases s.len() - i,
    {
        proof {
            lemma_take_push(s@, i as int);
            let t = view_seq(s@.take(i + 1));
            lemma_view_seq_len(s@.take(i + 1));
            assert(t.drop_last() == view_seq(s@.take(i as int)));
            assert(t.last() == s@[i as int]@);
            assert(s@[i as int].wf());
        }
        match &s[i] {
            Element::Number(Number::Rational(q)) => {
                let next = match &acc {
                    None => q.duplicate(),
                    Some(c) => {
                        if is_plus {
                            let r = crate::rational::rational_add(c, q);
                            proof {
                                assert(c.d() * q.d() > 0) by (nonlinear_arith) requires c.d() > 0, q.d() > 0;
                                lemma_lowest_terms(r, c.n() * q.d() + q.n() * c.d(), c.d() * q.d());
                            }
                            r
                        } else {
                            let r = crate::rational::rational_mul(c, q);
                            proof {
                                assert(c.d() * q.d() > 0) by (nonlinear_arith) requires c.d() > 0, q.d() > 0;
                                lemma_lowest_terms(r, c.n() * q.n(), c.d() * q.d());
                            }
                            r
                        }
                    },
                };
                acc = Some(next);
            },
            _ => {},
        }
        i = i + 1;
    }
    assert(s@.take(i as int) =~= s@);
    acc
}

/// The elements that are not exact numbers (see `others`).
fn others_of(s: &Vec<Element>) -> (r: Vec<Element>)
    requires
        all_wf(s@),
    ensures
        all_wf(r@),
        view_seq(r@) == others(view_seq(s@)),
{
    let mut r: Vec<Element> = Vec::new();
    let mut i: usize = 0;
    while i < s.len()
        invariant
            i <= s@.len(),
            all_wf(s@),
            all_wf(r@),
            view_seq(r@) == others(view_seq(s@.take(i as int))),
        decreases s.len() - i,
    {
        proof {
            lemma_take_push(s@, i as int);
            let t = view_seq(s@.take(i + 1));
            lemma_view_seq_len(s@.take(i + 1));
            assert(t.drop_last() == view_seq(s@.take(i as int)));
            assert(t.last() == s@[i as int]@);
        }
        let exact = match &s[i] {
            Element::Number(Number::Rational(_)) => true,
            _ => false,
        };
        if !exact {
            let ghost before = r@;
            let d = s[i].duplicate();
            r.push(d);
            proof { lemma_view_seq_push(before, d); }
        }
        i = i + 1;
    }
    assert(s@.take(i as int) =~= s@);
    r
}

/// The factors without their negations, and whether an odd number was negated.
fn negations_stripped_of(s: Vec<Element>) -> (r: (Vec<Element>, bool))
    requires
        all_wf(s@),
    ensures
        all_wf(r.0@),
        (view_seq(r.0@), r.1) == negations_stripped(view_seq(s@)),
{
    let mut r: Vec<Element> = Vec::new();
    let mut neg = false;
    let mut i: usize = 0;
    while i < s.len()
        invariant
            i <= s@.len(),
            all_wf(s@),
            all_wf(r@),
            (view_seq(r@), neg) == negations_stripped(view_seq(s@.take(i as int))),
        decreases s.len() - i,
    {
        proof {
            lemma_take_push(s@, i as int);
            let t = view_seq(s@.take(i + 1));
            lemma_view_seq_len(s@.take(i + 1));
            assert(t.drop_last() == view_seq(s@.take(i as int)));
            assert(t.last() == s@[i as int]@);
        }
        let ghost before = r@;
        let d = match &s[i] {
            Element::Negate(x) => {
                neg = !neg;
                x.duplicate()
            },
            e => e.duplicate(),
        };
        r.push(d);
        proof { lemma_view_seq_push(before, d); }
        i = i + 1;
    }
    assert(s@.take(i as int) =~= s@);
    (r, neg)
}

/// Appends copies of `inner`.
fn push_all(r: &mut Vec<Element>, inner: &Vec<Element>)
    requires
        all_wf(old(r)@),
        all_wf(inner@),
    ensures
        all_wf(final(r)@),
        view_seq(final(r)@) == view_seq(old(r)@) + view_seq(inner@),
{
    let ghost start = view_seq(r@);
    let mut j: usize = 0;
    while j < inner.len()
        invariant
            j <= inner@.len(),
            all_wf(inner@),
            all_wf(r@),
            view_seq(r@) == start + view_seq(inner@.take(j as int)),
        decreases inner.len() - j,
    {
        proof {
            lemma_take_push(inner@, j as int);
        }
        let ghost before = r@;
        let d = inner[j].duplicate();
        r.push(d);
        proof {
            lemma_view_seq_push(before, d);
            assert(view_seq(r@) =~= start + view_seq(inner@.take(j + 1)));
        }
        j = j + 1;
    }
    assert(inner@.take(j as int) =~= inner@);
}

/// Nested sums (products) replaced by their elements (see `flattened`).
fn flattened_of(s: &Vec<Element>, is_plus: bool) -> (r: Vec<Element>)
    requires
        all_wf(s@),
    ensures
        all_wf(r@),
        view_seq(r@) == flattened(view_seq(s@), is_plus),
{
    let mut r: Vec<Element> = Vec::new();
    let mut i: usize = 0;
    while i < s.len()
        invariant
            i <= s@.len(),
            all_wf(s@),
            all_wf(r@),
            view_seq(r@) == flattened(view_seq(s@.take(i as int)), is_plus),
        decreases s.len() - i,
    {
        proof {
            lemma_take_push(s@, i as int);
            let t = view_seq(s@.take(i + 1));
            lemma_view_seq_len(s@.take(i + 1));
            assert(t.drop_last() == view_seq(s@.take(i as int)));
            assert(t.last() == s@[i as int]@);
            assert(s@[i as int].wf());
        }
        match &s[i] {
            Element::Plus(inner) if is_plus => {
                push_all(&mut r, inner);
            },
            Element::Multiply(inner) if !is_plus => {
                push_all(&mut r, inner);
            },
            e => {
                let ghost before = r@;
                let d = e.duplicate();
                r.push(d);
                proof { lemma_view_seq_push(before, d); }
            },
        }
        i = i + 1;
    }
    assert(s@.take(i as int) =~= s@);
    r
}


/// Whether two terms (factors) cancel each other (see `cancel`).
fn cancels(a: &Element, b: &Element, is_plus: bool) -> (r: bool)
    requires
        a.wf(),
        b.wf(),
    ensures
        r == cancel(a@, b@, is_plus),
{
    if is_plus {
        let ab = match a {
            Element::Negate(x) => elements_equal(x, b),
            _ => false,
        };
        ab || match b {
            Element::Negate(y) => elements_equal(y, a),
            _ => false,
        }
    } else {
        reciprocal(a, b) || reciprocal(b, a)
    }
}

/// Whether `a` is `b` to the power of -1.
fn reciprocal(a: &Element, b: &Element) -> (r: bool)
    requires
        a.wf(),
        b.wf(),
    ensures
        r == reciprocal_of(a@, b@),
{
    match a {
        Element::Pow(x, e) => {
            if !elements_equal(x, b) {
                return false;
            }
            let ee: &Element = &**e;
            assert(ee.wf());
            assert(ee@ == *a@->Pow_1);
            match ee {
                Element::Number(n) => number_equals_int(n, -1),
                _ => false,
            }
        },
        _ => false,
    }
}

/// The list with the pairs that cancel each other taken out (see `inverses_removed`).
fn inverses_removed_of(s: &Vec<Element>, is_plus: bool) -> (r: Vec<Element>)
    requires
        all_wf(s@),
    ensures
        all_wf(r@),
        view_seq(r@) == inverses_removed(view_seq(s@), is_plus),
{
    let ghost vs = view_seq(s@);
    proof { lemma_view_seq_len(s@); }
    let n = s.len();
    let mut marks: Vec<bool> = Vec::new();
    let mut k: usize = 0;
    while k < n
        invariant
            k <= n,
            marks@ =~= Seq::new(k as nat, |x: int| false),
        decreases n - k,
    {
        marks.push(false);
        k = k + 1;
    }
    let ghost init = marks@;
    assert(init =~= Seq::new(vs.len(), |x: int| false));
    let mut i: usize = 0;
    while i < n && i + 1 < n
        invariant
            i <= n,
            n == s@.len(),
            vs == view_seq(s@),
            vs.len() == n,
            all_wf(s@),
            marks@.len() == n,
            cancel_marks(vs, is_plus, i as int, marks@) == cancel_marks(vs, is_plus, 0, init),
        decreases n - i,
    {
        let ghost m0 = marks@;
        let mut j: usize = i + 1;
        let mut done = false;
        while j < n && !done
            invariant
                i + 1 <= j <= n,
                n == s@.len(),
                vs == view_seq(s@),
                vs.len() == n,
                all_wf(s@),
                m0.len() == n,
                marks@.len() == n,
                done ==> marks@ == partner_marked(vs, is_plus, i as int, i + 1, m0),
                !done ==> marks@ == m0 && partner_marked(vs, is_plus, i as int, j as int, m0) == partner_marked(vs, is_plus, i as int, i + 1, m0),
            decreases n - j + (if done { 0int } else { 1int }),
        {
            if marks[j] {
                j = j + 1;
            } else {
                proof {
                    lemma_view_seq_index(s@, i as int);
                    lemma_view_seq_index(s@, j as int);
                }
                if cancels(&s[i], &s[j], is_plus) {
                    marks.set(i, true);
                    marks.set(j, true);
                    done = true;
                } else {
                    j = j + 1;
                }
            }
        }
        i = i + 1;
    }
    assert(cancel_marks(vs, is_plus, i as int, marks@) == marks@);
    let ghost fm = marks@;
    let mut r: Vec<Element> = Vec::new();
    let mut k: usize = 0;
    while k < n
        invariant
            k <= n,
            n == s@.len(),
            all_wf(s@),
            all_wf(r@),
            fm == marks@,
            fm.len() == n,
            view_seq(r@) == unmarked(view_seq(s@.take(k as int)), fm),
        decreases n - k,
    {
        proof {
            lemma_take_push(s@, k as int);
            let t = view_seq(s@.take(k + 1));
            lemma_view_seq_len(s@.take(k + 1));
            assert(t.drop_last() == view_seq(s@.take(k as int)));
            assert(t.last() == s@[k as int]@);
        }
        if !marks[k] {
            let ghost before = r@;
            let d = s[k].duplicate();
            r.push(d);
            proof { lemma_view_seq_push(before, d); }
        }
        k = k + 1;
    }
    assert(s@.take(k as int) =~= s@);
    r
}


fn single(e: Element) -> (v: Vec<Element>)
    ensures
        view_seq(v@) == seq![e@],
        e.wf() ==> all_wf(v@),
{
    let mut v: Vec<Element> = Vec::new();
    proof {
        assert(view_seq(v@) =~= Seq::<ElementView>::empty());
        lemma_view_seq_push(v@, e);
    }
    v.push(e);
    assert(view_seq(v@) =~= seq![e@]);
    v
}

fn pair(a: Element, b: Element) -> (v: Vec<Element>)
    ensures
        view_seq(v@) == seq![a@, b@],
        a.wf() && b.wf() ==> all_wf(v@),
{
    let mut v = single(a);
    proof { lemma_view_seq_push(v@, b); }
    v.push(b);
    assert(view_seq(v@) =~= seq![a@, b@]);
    v
}

/// Whether a rational is an even integer.
fn rational_is_even_integer(q: &Rational) -> (b: bool)
    requires
        q.wf(),
    ensures
        b == (q.d() == 1 && q.n() % 2 == 0),
{
    if !crate::rational::rational_is_integer(q) {
        return false;
    }
    let digits = &q.numer.digits;
    let last = digits[digits.len() - 1];
    proof {
        let s = digits@;
        assert(s.drop_last().push(s.last()) =~= s);
        let v = crate::printing::digits_value(s);
        let k = crate::printing::digits_value(s.drop_last());
        assert(v == k * 10 + s.last() as nat);
        assert(s.last() == last);
        assert((k * 10 + last) % 2 == last % 2) by (nonlinear_arith);
        assert((-(k * 10 + last)) % 2 == 0 <==> (k * 10 + last) % 2 == 0) by (nonlinear_arith);
    }
    last % 2 == 0
}

/// A reduced list as an element (see `collapsed`).
fn collapsed_of(s: Vec<Element>, is_plus: bool) -> (e: Element)
    requires
        all_wf(s@),
    ensures
        e.wf(),
        e@ == collapsed(view_seq(s@), is_plus),
{
    proof { lemma_view_seq_len(s@); }
    if s.len() == 0 {
        int_element(if is_plus { 0 } else { 1 })
    } else if s.len() == 1 {
        proof { lemma_view_seq_index(s@, 0); }
        s[0].duplicate()
    } else if is_plus {
        Element::Plus(s)
    } else {
        Element::Multiply(s)
    }
}

/// A sum (product) of simplified elements reduced (see `list_reduced`).
fn list_reduced_of(s: &Vec<Element>, is_plus: bool) -> (r: (Vec<Element>, bool))
    requires
        all_wf(s@),
    ensures
        all_wf(r.0@),
        (view_seq(r.0@), r.1) == list_reduced(view_seq(s@), is_plus),
{
    match first_nan_index(s) {
        Some(i) => {
            let d = s[i].duplicate();
            return (single(d), false);
        },
        None => {},
    }
    let c0 = combined_numbers_of(s, is_plus);
    let c = match c0 {
        Some(q) => {
            let neutral = if is_plus { crate::rational::rational_is_zero(&q) } else { crate::rational::rational_is_one(&q) };
            if neutral { None } else { Some(q) }
        },
        None => None,
    };
    let o = others_of(s);
    let (o2, neg) = if is_plus { (o, false) } else { negations_stripped_of(o) };
    match c {
        Some(q) => {
            let q2 = if neg { crate::rational::rational_neg(&q) } else { q };
            let zero = crate::rational::rational_is_zero(&q2);
            let lead = rational_element(q2);
            if !is_plus && zero {
                (single(lead), false)
            } else {
                let mut v = single(lead);
                let f = flattened_of(&o2, is_plus);
                push_all(&mut v, &f);
                (inverses_removed_of(&v, is_plus), false)
            }
        },
        None => {
            let f = flattened_of(&o2, is_plus);
            (inverses_removed_of(&f, is_plus), neg)
        },
    }
}

/// `el^x2` for each element.
fn powers_of(inner: &Vec<Element>, x2: &Element) -> (r: Vec<Element>)
    requires
        all_wf(inner@),
        x2.wf(),
    ensures
        all_wf(r@),
        view_seq(r@) == view_seq(inner@).map_values(|el: ElementView| ElementView::Pow(Box::new(el), Box::new(x2@))),
{
    let mut r: Vec<Element> = Vec::new();
    let mut i: usize = 0;
    while i < inner.len()
        invariant
            i <= inner@.len(),
            all_wf(inner@),
            x2.wf(),
            all_wf(r@),
            view_seq(r@) == view_seq(inner@.take(i as int)).map_values(|el: ElementView| ElementView::Pow(Box::new(el), Box::new(x2@))),
        decreases inner.len() - i,
    {
        proof { lemma_take_push(inner@, i as int); }
        let ghost before = r@;
        let p = Element::Pow(Box::new(inner[i].duplicate()), Box::new(x2.duplicate()));
        r.push(p);
        proof {
            lemma_view_seq_push(before, p);
            assert(view_seq(r@) =~= view_seq(inner@.take(i + 1)).map_values(|el: ElementView| ElementView::Pow(Box::new(el), Box::new(x2@))));
        }
        i = i + 1;
    }
    assert(inner@.take(i as int) =~= inner@);
    r
}

/// A power of a simplified base and exponent (see `pow_optimized`).
fn pow_optimized_of(b2: Element, x2: Element, fuel: u64) -> (r: Option<Element>)
    requires
        b2.wf(),
        x2.wf(),
    ensures
        match r {
            Some(x) => x.wf() && pow_optimized(b2@, x2@, fuel as nat) == Some(x@),
            None => pow_optimized(b2@, x2@, fuel as nat) is None,
        },
    decreases fuel, 1nat, 0nat,
{
    if let Element::Number(bn) = &b2 {
        let one = match bn {
            Number::Rational(q) => crate::rational::rational_is_one(q),
            _ => false,
        };
        if one {
            return Some(int_element(1));
        }
        if number_is_zero(bn) {
            if let Element::Number(xn) = &x2 {
                if number_is_positive(xn) {
                    return Some(int_element(0));
                }
                if number_is_negative(xn) {
                    return Some(crate::element::nan(Some(FloatError::DivisionByZero)));
                }
                if number_is_zero(xn) {
                    return Some(int_element(1));
                }
            }
        } else if number_is_negative(bn) {
            let even = match &x2 {
                Element::Number(Number::Rational(q)) => rational_is_even_integer(q),
                _ => false,
            };
            if even {
                let ab = number_abs(bn);
                let ghost xv = x2@;
                let ae = Element::Number(ab);
                assert(ae@ == ElementView::Number(num_abs(number_view(*bn))));
                assert(ae.wf());
                let res = Element::Pow(Box::new(ae), Box::new(x2));
                assert(res@ == ElementView::Pow(Box::new(ae@), Box::new(xv)));
                assert(res.wf());
                assert(pow_optimized(b2@, xv, fuel as nat) == Some(res@));
                return Some(res);
            }
        }
        let minus_one = match &x2 {
            Element::Number(xn) => number_equals_int(xn, -1),
            _ => false,
        };
        if minus_one {
            if let Number::Rational(q) = bn {
                if crate::rational::rational_is_zero(q) {
                    return None;
                }
                let rq = crate::rational::rational_recip(q);
                proof {
                    let t = rat_recip((q.n(), q.d()));
                    if q.n() < 0 {
                        assert(rq.n() * (-q.n()) == (-q.d()) * rq.d()) by (nonlinear_arith)
                            requires rq.n() * q.n() == q.d() * rq.d();
                        assert(gcd(abs(-q.d()), (-q.n()) as nat) == gcd(abs(q.n()), q.d() as nat)) by {
                            crate::rational::lemma_gcd_comm(abs(q.n()), q.d() as nat);
                        }
                        crate::rational::lemma_reduced_unique(rq.n(), rq.d(), t.0, t.1);
                    } else {
                        crate::rational::lemma_gcd_comm(abs(q.n()), q.d() as nat);
                        crate::rational::lemma_reduced_unique(rq.n(), rq.d(), t.0, t.1);
                    }
                }
                return Some(rational_element(rq));
            }
        }
    }
    if let Element::Number(xn) = &x2 {
        let one = match xn {
            Number::Rational(q) => crate::rational::rational_is_one(q),
            _ => false,
        };
        if one {
            return Some(b2);
        }
        if number_is_zero(xn) {
            return Some(int_element(1));
        }
    }
    let ghost x2v = x2@;
    let ghost b2v = b2@;
    match b2 {
        Element::Pow(ib, ip) => {
            assert(ib.wf());
            assert(ip.wf());
            assert(b2v == ElementView::Pow(Box::new(ib@), Box::new(ip@)));
            let base_positive = match &*ib {
                Element::Number(n) => number_is_positive(n),
                _ => false,
            };
            let inner_int = match &*ip {
                Element::Number(Number::Rational(q)) => crate::rational::rational_is_integer(q),
                _ => false,
            };
            let outer_int = match &x2 {
                Element::Number(Number::Rational(q)) => crate::rational::rational_is_integer(q),
                _ => false,
            };
            if base_positive || (inner_int && outer_int) {
                let ghost ipv = (*ip)@;
                let ghost ibv = (*ib)@;
                let exps = pair(*ip, x2);
                assert(view_seq(exps@) == seq![ipv, x2v]);
                let m = Element::Multiply(exps);
                assert(m@ == ElementView::Multiply(seq![ipv, x2v]));
                assert(m.wf());
                let np = Element::Pow(ib, Box::new(m));
                assert(np.wf());
                assert(np@ == ElementView::Pow(Box::new(ibv), Box::new(ElementView::Multiply(seq![ipv, x2v]))));
                optimized_of(&np, fuel)
            } else {
                let inner = Element::Pow(ib, ip);
                assert(inner.wf());
                let res = Element::Pow(Box::new(inner), Box::new(x2));
                assert(res.wf());
                assert(res@ == ElementView::Pow(Box::new(b2v), Box::new(x2v)));
                Some(res)
            }
        },
        Element::Multiply(inner) => {
            let v = powers_of(&inner, &x2);
            let m = Element::Multiply(v);
            assert(m.wf());
            optimized_of(&m, fuel)
        },
        other => {
            let res = Element::Pow(Box::new(other), Box::new(x2));
            assert(res.wf());
            Some(res)
        },
    }
}

/// An expression function after its arguments are simplified (see
/// `expression_function_optimized`).
fn expression_function_optimized_of(a: Vec<Element>, t: ExpressionFunType, fuel: u64) -> (r: Option<Element>)
    requires
        all_wf(a@),
    ensures
        match r {
            Some(x) => x.wf() && expression_function_optimized(view_seq(a@), t, fuel as nat) == Some(x@),
            None => expression_function_optimized(view_seq(a@), t, fuel as nat) is None,
        },
    decreases fuel, 1nat, 0nat,
{
    proof { lemma_view_seq_len(a@); }
    match t {
        ExpressionFunType::Sin => {
            if a.len() != 1 {
                return Some(Element::FunctionWithExpression { arguments: a, expr_value: t });
            }
            proof { lemma_view_seq_index(a@, 0); }
            let arg = a[0].duplicate();
            let pi_inv = crate::element::inv(crate::element::num_expr(ExpressionNumType::Pi));
            let divided = Element::Multiply(pair(arg, pi_inv));
            let rem = Element::FunctionWithExpression { arguments: pair(divided, int_element(2)), expr_value: ExpressionFunType::Rem };
            let product = Element::Multiply(pair(rem, int_element(2)));
            let m = match optimized_of(&product, fuel) {
                Some(m) => m,
                None => {
                    return None;
                },
            };
            let mut result: Option<Element> = None;
            if let Element::Number(x) = &m {
                let ax = number_abs(x);
                if number_equals_int(x, 0) || number_equals_int(&ax, 2) {
                    result = Some(int_element(0));
                } else if number_equals_int(&ax, 1) {
                    result = Some(int_element(if number_equals_int(x, 1) { 1 } else { -1 }));
                }
            }
            match result {
                Some(r) => Some(r),
                None => Some(Element::FunctionWithExpression { arguments: single(m), expr_value: ExpressionFunType::SinWithRadians }),
            }
        },
        ExpressionFunType::Rem => {
            if a.len() != 2 {
                return Some(Element::FunctionWithExpression { arguments: a, expr_value: t });
            }
            proof {
                lemma_view_seq_index(a@, 0);
                lemma_view_seq_index(a@, 1);
            }
            let computed: Option<Option<Rational>> = match (&a[0], &a[1]) {
                (Element::Number(Number::Rational(q1)), Element::Number(Number::Rational(q2))) => {
                    if crate::rational::rational_is_zero(q2) {
                        Some(None)
                    } else {
                        let r = crate::rational::rational_rem(q1, q2);
                        proof {
                            assert(q1.d() * q2.d() > 0) by (nonlinear_arith) requires q1.d() > 0, q2.d() > 0;
                            lemma_lowest_terms(r, trunc_rem(q1.n() * q2.d(), q2.n() * q1.d()), q1.d() * q2.d());
                        }
                        if crate::rational::rational_is_negative(&r) {
                            let r3 = crate::rational::rational_add(&r, q2);
                            proof {
                                assert(r.d() * q2.d() > 0) by (nonlinear_arith) requires r.d() > 0, q2.d() > 0;
                                lemma_lowest_terms(r3, r.n() * q2.d() + q2.n() * r.d(), r.d() * q2.d());
                            }
                            Some(Some(r3))
                        } else {
                            Some(Some(r))
                        }
                    }
                },
                _ => None,
            };
            match computed {
                Some(Some(q)) => Some(rational_element(q)),
                Some(None) => None,
                None => Some(Element::FunctionWithExpression { arguments: a, expr_value: t }),
            }
        },
        _ => Some(Element::FunctionWithExpression { arguments: a, expr_value: t }),
    }
}

/// Each element simplified (see `optimized_all`).
fn optimized_all_of(s: &Vec<Element>, fuel: u64) -> (r: Option<Vec<Element>>)
    requires
        all_wf(s@),
    ensures
        match r {
            Some(v) => all_wf(v@) && optimized_all(view_seq(s@), fuel as nat) == Some(view_seq(v@)),
            None => optimized_all(view_seq(s@), fuel as nat) is None,
        },
    decreases fuel, 1nat, 0nat,
{
    let mut v: Vec<Element> = Vec::new();
    let mut i: usize = 0;
    assert(view_seq(s@.take(0)) =~= Seq::<ElementView>::empty());
    assert(view_seq(v@) =~= Seq::<ElementView>::empty());
    while i < s.len()
        invariant
            i <= s@.len(),
            all_wf(s@),
            all_wf(v@),
            optimized_all(view_seq(s@.take(i as int)), fuel as nat) == Some(view_seq(v@)),
        decreases s.len() - i,
    {
        proof {
            lemma_take_push(s@, i as int);
            let t = view_seq(s@.take(i + 1));
            lemma_view_seq_len(s@.take(i + 1));
            assert(t.drop_last() == view_seq(s@.take(i as int)));
            assert(t.last() == s@[i as int]@);
        }
        match optimized_of(&s[i], fuel) {
            Some(x) => {
                let ghost before = v@;
                v.push(x);
                proof { lemma_view_seq_push(before, x); }
            },
            None => {
                proof {
                    lemma_take_push(s@, i as int);
                    lemma_view_seq_len(s@);
                    lemma_optimized_all_none_prefix(view_seq(s@), i + 1, fuel as nat);
                    lemma_view_seq_prefix(s@, i + 1);
                }
                return None;
            },
        }
        i = i + 1;
    }
    assert(s@.take(i as int) =~= s@);
    Some(v)
}

/// Where simplifying a prefix fails, simplifying the whole list fails.
proof fn lemma_optimized_all_none_prefix(s: Seq<ElementView>, k: int, fuel: nat)
    requires
        0 <= k <= s.len(),
        optimized_all(s.take(k), fuel) is None,
    ensures
        optimized_all(s, fuel) is None,
    decreases s.len() - k,
{
    if k < s.len() {
        assert(s.take(k + 1).drop_last() =~= s.take(k));
        lemma_optimized_all_none_prefix(s, k + 1, fuel);
    } else {
        assert(s.take(k) =~= s);
    }
}

/// The simplified element (see `optimized`).
fn optimized_of(e: &Element, fuel: u64) -> (r: Option<Element>)
    requires
        e.wf(),
    ensures
        match r {
            Some(x) => x.wf() && optimized(e@, fuel as nat) == Some(x@),
            None => optimized(e@, fuel as nat) is None,
        },
    decreases fuel, 0nat, 0nat,
{
    if fuel == 0 {
        return None;
    }
    let f = fuel - 1;
    match e {
        Element::Function { name, arguments } => match optimized_all_of(arguments, f) {
            Some(v) => Some(Element::Function { name: name.clone(), arguments: v }),
            None => None,
        },
        Element::FunctionWithExpression { arguments, expr_value } => match optimized_all_of(arguments, f) {
            Some(v) => expression_function_optimized_of(v, *expr_value, f),
            None => None,
        },
        Element::Plus(s) => match optimized_all_of(s, f) {
            Some(v) => {
                let (s2, _) = list_reduced_of(&v, true);
                Some(collapsed_of(s2, true))
            },
            None => None,
        },
        Element::Multiply(s) => match optimized_all_of(s, f) {
            Some(v) => {
                let (s2, neg) = list_reduced_of(&v, false);
                let c = collapsed_of(s2, false);
                if neg {
                    optimized_of(&Element::Negate(Box::new(c)), f)
                } else {
                    Some(c)
                }
            },
            None => None,
        },
        Element::Pow(b, x) => match optimized_of(b, f) {
            Some(b2) => match optimized_of(x, f) {
                Some(x2) => pow_optimized_of(b2, x2, f),
                None => None,
            },
            None => None,
        },
        Element::Negate(x) => match optimized_of(x, f) {
            Some(x2) => Some(match x2 {
                Element::Number(n) => Element::Number(number_negated(&n)),
                Element::Negate(inner) => *inner,
                other => Element::Negate(Box::new(other)),
            }),
            None => None,
        },
        _ => Some(e.duplicate()),
    }
}

impl Element {
    /// Simplifies the element (see `optimized`): with no limit on the depth of the steps
    /// but the range of a `u64`. Where a step would panic (a remainder by zero), the
    /// element stays as it was.
    pub fn optimize_and_reduce(&mut self)
        requires
            old(self).wf(),
        ensures
            final(self).wf(),
            match optimized(old(self)@, u64::MAX as nat) {
                Some(r) => final(self)@ == r,
                None => final(self)@ == old(self)@,
            },
    {
        match optimized_of(self, u64::MAX) {
            Some(r) => {
                *self = r;
            },
            None => {},
        }
    }
}


// ---------------------------------------------------------------------------
// Laws of the simplification
// ---------------------------------------------------------------------------

/// Double negation: `-(-x)` simplifies to what `x` simplifies to, where that is not itself
/// a negation.
pub proof fn law_double_negation(x: ElementView, fuel: nat)
    requires
        optimized(x, fuel) matches Some(r) && !(r is Negate),
    ensures
        optimized(ElementView::Negate(Box::new(ElementView::Negate(Box::new(x)))), fuel + 2) == optimized(x, fuel),
{
    let r = optimized(x, fuel)->Some_0;
    let inner = ElementView::Negate(Box::new(x));
    assert(optimized(inner, fuel + 1) == Some(match r {
        ElementView::Number(n) => ElementView::Number(num_negated(n)),
        _ => ElementView::Negate(Box::new(r)),
    }));
    if let ElementView::Number(n) = r {
        assert(num_negated(num_negated(n)) == n);
    }
}

/// One to any power is one.
pub proof fn law_one_to_any_power(x: ElementView, fuel: nat)
    requires
        optimized(x, fuel) is Some,
    ensures
        optimized(ElementView::Pow(Box::new(int_view(1)), Box::new(x)), fuel + 1) == Some(int_view(1)),
{
    assert(fuel > 0);
    assert(optimized(int_view(1), fuel) == Some(int_view(1)));
    let x2 = optimized(x, fuel)->Some_0;
    assert(pow_optimized(int_view(1), x2, fuel) == Some(int_view(1)));
}

/// A power with the exponent one is its base, unless the base simplifies to a float
/// (a float zero would turn into the rational zero); a rational base is taken in lowest
/// terms.
pub proof fn law_power_of_one(b: ElementView, fuel: nat)
    requires
        optimized(b, fuel) matches Some(r) && !(r matches ElementView::Number(NumberView::Float(_))),
        optimized(b, fuel) matches Some(ElementView::Number(NumberView::Rational(p, q))) ==> q > 0 && gcd(abs(p), q as nat) == 1,
    ensures
        optimized(ElementView::Pow(Box::new(b), Box::new(int_view(1))), fuel + 1) == optimized(b, fuel),
{
    assert(fuel > 0);
    assert(optimized(int_view(1), fuel) == Some(int_view(1)));
    let r = optimized(b, fuel)->Some_0;
    if let ElementView::Number(NumberView::Rational(p, q)) = r {
        if p == q {
            assert(gcd(abs(p), q as nat) == gcd(q as nat, 0));
            assert(p == 1 && q == 1);
        }
        if p == 0 {
            assert(gcd(abs(p), q as nat) == gcd(q as nat, 0));
            assert(q == 1);
        }
        assert(!num_eq_int(NumberView::Rational(1, 1), -1i32));
        assert(pow_optimized(r, int_view(1), fuel) == Some(r));
    } else {
        assert(pow_optimized(r, int_view(1), fuel) == Some(r));
    }
}

proof fn lemma_lowest_terms_zero(den: int)
    requires
        den > 0,
    ensures
        lowest_terms(0, den) == (0int, 1int),
{
    crate::rational::lemma_lowest_terms_exist(0, den);
    let (n, d) = lowest_terms(0, den);
    assert(n * den == 0);
    assert(n == 0) by (nonlinear_arith) requires n * den == 0, den > 0;
    assert(gcd(0, d as nat) == d) by {
        assert(gcd(0, d as nat) == gcd(d as nat, 0));
    }
}

/// Once an exact zero is among the numbers of a product, their product is zero.
proof fn lemma_combined_zero(s: Seq<ElementView>, k: int)
    requires
        0 <= k < s.len(),
        s[k] == int_view(0),
        forall|i: int| 0 <= i < s.len() && #[trigger] is_exact_number(s[i]) ==> exact_of(s[i]).1 > 0,
    ensures
        combined_numbers(s, false) == Some((0int, 1int)),
    decreases s.len(),
{
    lemma_combined_positive(s.drop_last());
    if k < s.len() - 1 {
        assert forall|i: int| 0 <= i < s.drop_last().len() && #[trigger] is_exact_number(s.drop_last()[i]) implies exact_of(s.drop_last()[i]).1 > 0 by {
            assert(s.drop_last()[i] == s[i]);
        }
        assert(s.drop_last()[k] == s[k]);
        lemma_combined_zero(s.drop_last(), k);
        if is_exact_number(s.last()) {
            assert(exact_of(s.last()).1 > 0);
            lemma_lowest_terms_zero(exact_of(s.last()).1);
            assert(0 * exact_of(s.last()).0 == 0);
            assert(1 * exact_of(s.last()).1 == exact_of(s.last()).1);
        }
    } else {
        match combined_numbers(s.drop_last(), false) {
            None => {},
            Some(c) => {
                lemma_lowest_terms_zero(c.1);
                assert(c.0 * 0 == 0);
                assert(c.1 * 1 == c.1);
            },
        }
    }
}

/// The combined product has a positive denominator where every exact number has one.
proof fn lemma_combined_positive(s: Seq<ElementView>)
    requires
        forall|i: int| 0 <= i < s.len() && #[trigger] is_exact_number(s[i]) ==> exact_of(s[i]).1 > 0,
    ensures
        combined_numbers(s, false) matches Some(c) ==> c.1 > 0,
    decreases s.len(),
{
    if s.len() > 0 {
        assert forall|i: int| 0 <= i < s.drop_last().len() && #[trigger] is_exact_number(s.drop_last()[i]) implies exact_of(s.drop_last()[i]).1 > 0 by {
            assert(s.drop_last()[i] == s[i]);
        }
        lemma_combined_positive(s.drop_last());
        if is_exact_number(s.last()) {
            if let Some(c) = combined_numbers(s.drop_last(), false) {
                let x = exact_of(s.last());
                assert(x.1 > 0);
                assert(c.1 * x.1 > 0) by (nonlinear_arith) requires c.1 > 0, x.1 > 0;
                crate::rational::lemma_lowest_terms_exist(c.0 * x.0, c.1 * x.1);
            }
        }
    }
}

/// Anything times an exact zero is zero, unless one of the simplified factors is NaN.
pub proof fn law_zero_factor(s: Seq<ElementView>, fuel: nat, k: int)
    requires
        optimized_all(s, fuel) matches Some(s1) && first_nan(s1) is None && 0 <= k < s1.len() && s1[k] == int_view(0)
            && forall|i: int| 0 <= i < s1.len() && #[trigger] is_exact_number(s1[i]) ==> exact_of(s1[i]).1 > 0,
    ensures
        optimized(ElementView::Multiply(s), fuel + 1) == Some(int_view(0)),
{
    let s1 = optimized_all(s, fuel)->Some_0;
    lemma_combined_zero(s1, k);
    let (o, neg) = negations_stripped(others(s1));
    assert(list_reduced(s1, false) == (seq![int_view(0)], false));
}

/// A negative base to an even power is the base without its sign to that power.
proof fn lemma_even_power_of_negation(a: int, e: nat)
    requires
        e % 2 == 0,
    ensures
        crate::rational::int_pow(-a, e) == crate::rational::int_pow(a, e),
    decreases e,
{
    if e >= 2 {
        lemma_even_power_of_negation(a, (e - 2) as nat);
        let r = crate::rational::int_pow(a, (e - 2) as nat);
        assert(crate::rational::int_pow(-a, (e - 1) as nat) == -a * r);
        assert(crate::rational::int_pow(a, (e - 1) as nat) == a * r);
        assert((-a) * (-a * r) == a * (a * r)) by (nonlinear_arith);
    }
}

/// Simplifying a power of two exact numbers, the exponent an integer, into a power of
/// numbers keeps its value: the new base raised to the exponent's size gives the same
/// numerator and denominator as the old base. So a negative base loses its sign only where
/// the exponent is even; `(-3)^3` stays `-27`.
pub proof fn law_power_simplification_keeps_the_value(bn: NumberView, xn: NumberView, fuel: nat, c: NumberView)
    requires
        num_exact(bn) is Some,
        num_exact(xn) matches Some(k) && k.1 == 1,
        pow_optimized(ElementView::Number(bn), ElementView::Number(xn), fuel)
            == Some(ElementView::Pow(Box::new(ElementView::Number(c)), Box::new(ElementView::Number(xn)))),
    ensures
        num_exact(c) is Some,
        crate::rational::int_pow(num_exact(c)->Some_0.0, abs(num_exact(xn)->Some_0.0))
            == crate::rational::int_pow(num_exact(bn)->Some_0.0, abs(num_exact(xn)->Some_0.0)),
        crate::rational::int_pow(num_exact(c)->Some_0.1, abs(num_exact(xn)->Some_0.0))
            == crate::rational::int_pow(num_exact(bn)->Some_0.1, abs(num_exact(xn)->Some_0.0)),
{
    let b = num_exact(bn)->Some_0;
    let k = num_exact(xn)->Some_0;
    let e = abs(k.0);
    if !num_is_zero(bn) && num_is_negative(bn) && k.0 % 2 == 0 && !(b.0 == b.1) {
        assert(c == num_abs(bn));
        assert(e % 2 == 0);
        assert(abs(b.0) == -b.0);
        lemma_even_power_of_negation(b.0, e);
    }
}

} // verus!
