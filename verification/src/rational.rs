//! Exact arbitrary-size integers and rationals held as decimal digits. The arithmetic
//! itself is done by `num-bigint`/`num-rational`; the values cross over as digit vectors.

use vstd::prelude::*;
use crate::printing::{all_digits, digits_value};
use num_bigint::BigInt;
use num_bigint::Sign::{Minus, Plus};
use num_rational::Ratio;

verus! {

pub open spec fn abs(i: int) -> nat {
    if i < 0 { (-i) as nat } else { i as nat }
}

/// Greatest common divisor (Euclid).
pub open spec fn gcd(a: nat, b: nat) -> nat
    decreases b,
{
    if b == 0 { a } else { gcd(b, a % b) }
}

/// Integer division rounding towards zero.
pub open spec fn trunc_div(a: int, b: int) -> int {
    let q = (abs(a) / abs(b)) as int;
    if (a < 0) != (b < 0) { -q } else { q }
}

/// Remainder of `trunc_div`; it has the sign of `a`.
pub open spec fn trunc_rem(a: int, b: int) -> int {
    a - trunc_div(a, b) * b
}

/// Integer division rounding towards minus infinity (for a positive divisor).
pub open spec fn floor_div(a: int, b: int) -> int
    recommends
        b > 0,
{
    a / b
}

pub open spec fn int_pow(b: int, e: nat) -> int
    decreases e,
{
    if e == 0 { 1 } else { b * int_pow(b, (e - 1) as nat) }
}

/// An integer of arbitrary size: a sign and decimal digits, most significant first,
/// without leading zeroes ("0" is the single digit 0 and not negative).
#[derive(Debug, Clone)]
pub struct BigInteger {
    pub negative: bool,
    pub digits: Vec<u8>,
}

impl BigInteger {
    /// A copy with the same sign and digits.
    pub fn duplicate(&self) -> (r: Self)
        ensures
            r.negative == self.negative,
            r.digits@ == self.digits@,
            r.value() == self.value(),
            self.wf() ==> r.wf(),
    {
        BigInteger { negative: self.negative, digits: self.digits.clone() }
    }

    pub open spec fn wf(&self) -> bool {
        &&& all_digits(self.digits@)
        &&& self.digits@.len() >= 1
        &&& (self.digits@.len() > 1 ==> self.digits@[0] != 0)
        &&& (digits_value(self.digits@) == 0 ==> !self.negative)
    }

    pub open spec fn value(&self) -> int {
        if self.negative {
            -(digits_value(self.digits@) as int)
        } else {
            digits_value(self.digits@) as int
        }
    }
}

/// A rational number in lowest terms with a positive denominator.
#[derive(Debug, Clone)]
pub struct Rational {
    pub numer: BigInteger,
    pub denom: BigInteger,
}

impl Rational {
    /// A copy with the same parts.
    pub fn duplicate(&self) -> (r: Self)
        ensures
            r.numer.negative == self.numer.negative,
            r.numer.digits@ == self.numer.digits@,
            r.denom.negative == self.denom.negative,
            r.denom.digits@ == self.denom.digits@,
            r.n() == self.n(),
            r.d() == self.d(),
            self.wf() ==> r.wf(),
    {
        Rational { numer: self.numer.duplicate(), denom: self.denom.duplicate() }
    }

    pub open spec fn n(&self) -> int {
        self.numer.value()
    }

    pub open spec fn d(&self) -> int {
        self.denom.value()
    }

    /// Lowest terms, positive denominator.
    pub open spec fn wf(&self) -> bool {
        &&& self.numer.wf()
        &&& self.denom.wf()
        &&& self.d() > 0
        &&& gcd(abs(self.n()), self.d() as nat) == 1
    }

    /// `self` is the fraction `n / d`.
    pub open spec fn is_ratio(&self, n: int, d: int) -> bool {
        self.n() * d == n * self.d()
    }
}

/// Sum of two rationals (`Ratio + Ratio`), in lowest terms.
#[verifier::external_body]
pub(crate) fn rational_add(a: &Rational, b: &Rational) -> (r: Rational)
    requires
        a.wf(),
        b.wf(),
    ensures
        r.wf(),
        r.is_ratio(a.n() * b.d() + b.n() * a.d(), a.d() * b.d()),
{
    let x = Ratio::new_raw(BigInt::from_radix_be(if a.numer.negative { Minus } else { Plus }, &a.numer.digits, 10).unwrap(), BigInt::from_radix_be(Plus, &a.denom.digits, 10).unwrap());
    let y = Ratio::new_raw(BigInt::from_radix_be(if b.numer.negative { Minus } else { Plus }, &b.numer.digits, 10).unwrap(), BigInt::from_radix_be(Plus, &b.denom.digits, 10).unwrap());
    let z = x + y;
    let (s, n) = z.numer().to_radix_be(10);
    Rational { numer: BigInteger { negative: s == Minus, digits: n }, denom: BigInteger { negative: false, digits: z.denom().to_radix_be(10).1 } }
}


/// Difference of two rationals (`Ratio - Ratio`), in lowest terms.
#[verifier::external_body]
pub(crate) fn rational_sub(a: &Rational, b: &Rational) -> (r: Rational)
    requires
        a.wf(),
        b.wf(),
    ensures
        r.wf(),
        r.is_ratio(a.n() * b.d() - b.n() * a.d(), a.d() * b.d()),
{
    let x = Ratio::new_raw(BigInt::from_radix_be(if a.numer.negative { Minus } else { Plus }, &a.numer.digits, 10).unwrap(), BigInt::from_radix_be(Plus, &a.denom.digits, 10).unwrap());
    let y = Ratio::new_raw(BigInt::from_radix_be(if b.numer.negative { Minus } else { Plus }, &b.numer.digits, 10).unwrap(), BigInt::from_radix_be(Plus, &b.denom.digits, 10).unwrap());
    let z = x - y;
    let (s, n) = z.numer().to_radix_be(10);
    Rational { numer: BigInteger { negative: s == Minus, digits: n }, denom: BigInteger { negative: false, digits: z.denom().to_radix_be(10).1 } }
}

/// Product of two rationals (`Ratio * Ratio`), in lowest terms.
#[verifier::external_body]
pub(crate) fn rational_mul(a: &Rational, b: &Rational) -> (r: Rational)
    requires
        a.wf(),
        b.wf(),
    ensures
        r.wf(),
        r.is_ratio(a.n() * b.n(), a.d() * b.d()),
{
    let x = Ratio::new_raw(BigInt::from_radix_be(if a.numer.negative { Minus } else { Plus }, &a.numer.digits, 10).unwrap(), BigInt::from_radix_be(Plus, &a.denom.digits, 10).unwrap());
    let y = Ratio::new_raw(BigInt::from_radix_be(if b.numer.negative { Minus } else { Plus }, &b.numer.digits, 10).unwrap(), BigInt::from_radix_be(Plus, &b.denom.digits, 10).unwrap());
    let z = x * y;
    let (s, n) = z.numer().to_radix_be(10);
    Rational { numer: BigInteger { negative: s == Minus, digits: n }, denom: BigInteger { negative: false, digits: z.denom().to_radix_be(10).1 } }
}

/// Quotient of two rationals (`Ratio / Ratio`), in lowest terms; the divisor is not zero.
#[verifier::external_body]
pub(crate) fn rational_div(a: &Rational, b: &Rational) -> (r: Rational)
    requires
        a.wf(),
        b.wf(),
        b.n() != 0,
    ensures
        r.wf(),
        r.is_ratio(a.n() * b.d(), a.d() * b.n()),
{
    let x = Ratio::new_raw(BigInt::from_radix_be(if a.numer.negative { Minus } else { Plus }, &a.numer.digits, 10).unwrap(), BigInt::from_radix_be(Plus, &a.denom.digits, 10).unwrap());
    let y = Ratio::new_raw(BigInt::from_radix_be(if b.numer.negative { Minus } else { Plus }, &b.numer.digits, 10).unwrap(), BigInt::from_radix_be(Plus, &b.denom.digits, 10).unwrap());
    let z = x / y;
    let (s, n) = z.numer().to_radix_be(10);
    Rational { numer: BigInteger { negative: s == Minus, digits: n }, denom: BigInteger { negative: false, digits: z.denom().to_radix_be(10).1 } }
}

/// Remainder of two rationals (`Ratio % Ratio`): `a - trunc(a / b) * b`, with the sign of `a`; the divisor is not zero.
#[verifier::external_body]
pub(crate) fn rational_rem(a: &Rational, b: &Rational) -> (r: Rational)
    requires
        a.wf(),
        b.wf(),
        b.n() != 0,
    ensures
        r.wf(),
        r.is_ratio(trunc_rem(a.n() * b.d(), b.n() * a.d()), a.d() * b.d()),
{
    let x = Ratio::new_raw(BigInt::from_radix_be(if a.numer.negative { Minus } else { Plus }, &a.numer.digits, 10).unwrap(), BigInt::from_radix_be(Plus, &a.denom.digits, 10).unwrap());
    let y = Ratio::new_raw(BigInt::from_radix_be(if b.numer.negative { Minus } else { Plus }, &b.numer.digits, 10).unwrap(), BigInt::from_radix_be(Plus, &b.denom.digits, 10).unwrap());
    let z = x % y;
    let (s, n) = z.numer().to_radix_be(10);
    Rational { numer: BigInteger { negative: s == Minus, digits: n }, denom: BigInteger { negative: false, digits: z.denom().to_radix_be(10).1 } }
}

/// `Ratio::pow` with an `i32` exponent; a negative exponent takes the reciprocal (so zero needs a non-negative exponent).
#[verifier::external_body]
pub(crate) fn rational_pow(a: &Rational, e: i32) -> (r: Rational)
    requires
        a.wf(),
        !(a.n() == 0 && e < 0),
    ensures
        r.wf(),
        e >= 0 ==> r.is_ratio(int_pow(a.n(), e as nat), int_pow(a.d(), e as nat)),
        e < 0 ==> r.is_ratio(int_pow(a.d(), (-e) as nat), int_pow(a.n(), (-e) as nat)),
{
    let x = Ratio::new_raw(BigInt::from_radix_be(if a.numer.negative { Minus } else { Plus }, &a.numer.digits, 10).unwrap(), BigInt::from_radix_be(Plus, &a.denom.digits, 10).unwrap());
    let z = x.pow(e);
    let (s, n) = z.numer().to_radix_be(10);
    Rational { numer: BigInteger { negative: s == Minus, digits: n }, denom: BigInteger { negative: false, digits: z.denom().to_radix_be(10).1 } }
}

/// `Ratio::floor`: the largest integer not above `a`.
#[verifier::external_body]
pub(crate) fn rational_floor(a: &Rational) -> (r: Rational)
    requires
        a.wf(),
    ensures
        r.wf(),
        r.d() == 1 && r.n() == floor_div(a.n(), a.d()),
{
    let x = Ratio::new_raw(BigInt::from_radix_be(if a.numer.negative { Minus } else { Plus }, &a.numer.digits, 10).unwrap(), BigInt::from_radix_be(Plus, &a.denom.digits, 10).unwrap());
    let z = x.floor();
    let (s, n) = z.numer().to_radix_be(10);
    Rational { numer: BigInteger { negative: s == Minus, digits: n }, denom: BigInteger { negative: false, digits: z.denom().to_radix_be(10).1 } }
}

/// `Ratio::ceil`: the smallest integer not below `a`.
#[verifier::external_body]
pub(crate) fn rational_ceil(a: &Rational) -> (r: Rational)
    requires
        a.wf(),
    ensures
        r.wf(),
        r.d() == 1 && r.n() == -floor_div(-a.n(), a.d()),
{
    let x = Ratio::new_raw(BigInt::from_radix_be(if a.numer.negative { Minus } else { Plus }, &a.numer.digits, 10).unwrap(), BigInt::from_radix_be(Plus, &a.denom.digits, 10).unwrap());
    let z = x.ceil();
    let (s, n) = z.numer().to_radix_be(10);
    Rational { numer: BigInteger { negative: s == Minus, digits: n }, denom: BigInteger { negative: false, digits: z.denom().to_radix_be(10).1 } }
}

/// `Ratio::round`: the nearest integer, half-way cases away from zero.
#[verifier::external_body]
pub(crate) fn rational_round(a: &Rational) -> (r: Rational)
    requires
        a.wf(),
    ensures
        r.wf(),
        r.d() == 1 && r.n() == (if a.n() >= 0 { floor_div(2 * a.n() + a.d(), 2 * a.d()) } else { -floor_div(-2 * a.n() + a.d(), 2 * a.d()) }),
{
    let x = Ratio::new_raw(BigInt::from_radix_be(if a.numer.negative { Minus } else { Plus }, &a.numer.digits, 10).unwrap(), BigInt::from_radix_be(Plus, &a.denom.digits, 10).unwrap());
    let z = x.round();
    let (s, n) = z.numer().to_radix_be(10);
    Rational { numer: BigInteger { negative: s == Minus, digits: n }, denom: BigInteger { negative: false, digits: z.denom().to_radix_be(10).1 } }
}

/// `Ratio::cmp`: -1, 0 or 1 as `a` is below, equal to or above `b`.
#[verifier::external_body]
pub(crate) fn rational_cmp(a: &Rational, b: &Rational) -> (c: i8)
    requires
        a.wf(),
        b.wf(),
    ensures
        c == (if a.n() * b.d() < b.n() * a.d() { -1i8 } else if a.n() * b.d() == b.n() * a.d() { 0i8 } else { 1i8 }),
{
    let x = Ratio::new_raw(BigInt::from_radix_be(if a.numer.negative { Minus } else { Plus }, &a.numer.digits, 10).unwrap(), BigInt::from_radix_be(Plus, &a.denom.digits, 10).unwrap());
    let y = Ratio::new_raw(BigInt::from_radix_be(if b.numer.negative { Minus } else { Plus }, &b.numer.digits, 10).unwrap(), BigInt::from_radix_be(Plus, &b.denom.digits, 10).unwrap());
    match x.cmp(&y) {
        std::cmp::Ordering::Less => -1,
        std::cmp::Ordering::Equal => 0,
        std::cmp::Ordering::Greater => 1,
    }
}

/// An optional `-` followed by at least one decimal digit.
pub open spec fn is_signed_digit_string(s: Seq<char>) -> bool {
    let body = if s.len() > 0 && s[0] == '-' { s.skip(1) } else { s };
    body.len() > 0 && forall|i: int| 0 <= i < body.len() ==> crate::text::is_ascii_digit(#[trigger] body[i])
}

/// Value of such a string.
pub open spec fn signed_digit_string_value(s: Seq<char>) -> int {
    if s.len() > 0 && s[0] == '-' {
        -(digits_value(crate::text::chars_to_digits(s.skip(1))) as int)
    } else {
        digits_value(crate::text::chars_to_digits(s)) as int
    }
}

/// `BigRational::from_str` on text made of digits and `-` only: succeeds exactly on an
/// optional `-` followed by digits, with that integer as value.
#[verifier::external_body]
pub(crate) fn rational_from_str(s: &Vec<char>) -> (r: Option<Rational>)
    requires
        forall|i: int| 0 <= i < s@.len() ==> crate::text::is_ascii_digit(#[trigger] s@[i]) || s@[i] == '-',
    ensures
        r is Some <==> is_signed_digit_string(s@),
        r matches Some(q) ==> q.wf() && q.is_ratio(signed_digit_string_value(s@), 1),
{
    let t: String = s.iter().collect();
    match t.parse::<Ratio<BigInt>>() {
        Ok(z) => {
            let (sg, n) = z.numer().to_radix_be(10);
            Some(Rational { numer: BigInteger { negative: sg == Minus, digits: n }, denom: BigInteger { negative: false, digits: z.denom().to_radix_be(10).1 } })
        },
        Err(_) => None,
    }
}

/// Integer division rounding towards zero (`BigInt / BigInt`); the divisor is not zero.
#[verifier::external_body]
pub(crate) fn integer_div(a: &BigInteger, b: &BigInteger) -> (r: BigInteger)
    requires
        a.wf(),
        b.wf(),
        b.value() != 0,
    ensures
        r.wf(),
        r.value() == trunc_div(a.value(), b.value()),
{
    let x = BigInt::from_radix_be(if a.negative { Minus } else { Plus }, &a.digits, 10).unwrap();
    let y = BigInt::from_radix_be(if b.negative { Minus } else { Plus }, &b.digits, 10).unwrap();
    let (s, d) = (x / y).to_radix_be(10);
    BigInteger { negative: s == Minus, digits: d }
}

/// Remainder of `integer_div` (`BigInt % BigInt`), with the sign of `a`; the divisor is not zero.
#[verifier::external_body]
pub(crate) fn integer_rem(a: &BigInteger, b: &BigInteger) -> (r: BigInteger)
    requires
        a.wf(),
        b.wf(),
        b.value() != 0,
    ensures
        r.wf(),
        r.value() == trunc_rem(a.value(), b.value()),
{
    let x = BigInt::from_radix_be(if a.negative { Minus } else { Plus }, &a.digits, 10).unwrap();
    let y = BigInt::from_radix_be(if b.negative { Minus } else { Plus }, &b.digits, 10).unwrap();
    let (s, d) = (x % y).to_radix_be(10);
    BigInteger { negative: s == Minus, digits: d }
}

pub proof fn lemma_gcd_one(a: nat)
    ensures
        gcd(a, 1) == 1,
{
    assert(a % 1 == 0);
    assert(gcd(1, 0) == 1);
}

pub proof fn lemma_gcd_comm(a: nat, b: nat)
    ensures
        gcd(a, b) == gcd(b, a),
{
    if a == b {
    } else if b == 0 {
        if a != 0 {
            assert(0nat % a == 0);
            assert(gcd(0, a) == gcd(a, 0));
        }
    } else if a == 0 {
        assert(0nat % b == 0);
        assert(gcd(0, b) == gcd(b, 0));
    } else if a < b {
        assert(a % b == a) by (nonlinear_arith)
            requires a < b, a > 0;
        assert(gcd(a, b) == gcd(b, a % b));
    } else {
        assert(b % a == b) by (nonlinear_arith)
            requires b < a, b > 0;
        assert(gcd(b, a) == gcd(a, b % a));
    }
}

/// Bezout coefficients: `a * x + b * y == gcd(a, b)`.
pub proof fn lemma_bezout(a: nat, b: nat) -> (r: (int, int))
    ensures
        a * r.0 + b * r.1 == gcd(a, b),
    decreases b,
{
    if b == 0 {
        (1, 0)
    } else {
        let (x, y) = lemma_bezout(b, a % b);
        let q = (a / b) as int;
        let m = (a % b) as int;
        assert(a == q * b + m) by (nonlinear_arith)
            requires b > 0, q == a / b, m == a % b;
        assert(a * y + b * (x - q * y) == b * x + m * y) by (nonlinear_arith)
            requires a == q * b + m;
        (y, x - q * y)
    }
}

/// From `a * x + d * y == 1`, `a == s * n` and `n * e == m * d`: `e == d * (s * m * x + e * y)`.
proof fn lemma_divides_from_bezout(a: int, d: int, x: int, y: int, s: int, n: int, m: int, e: int, k: int)
    requires
        a * x + d * y == 1,
        a == s * n,
        n * e == m * d,
        k == s * m * x + e * y,
    ensures
        e == d * k,
{
    assert(e * (a * x + d * y) == e) by (nonlinear_arith)
        requires a * x + d * y == 1;
    assert(e * (a * x + d * y) == (a * e) * x + d * (e * y)) by (nonlinear_arith);
    assert(a * e == s * (n * e)) by (nonlinear_arith)
        requires a == s * n;
    assert(s * (n * e) == s * (m * d)) by (nonlinear_arith)
        requires n * e == m * d;
    assert((s * (m * d)) * x + d * (e * y) == d * (s * m * x + e * y)) by (nonlinear_arith);
}

/// A fraction in lowest terms with a positive denominator is unique: two such fractions
/// of equal value have equal numerators and denominators.
pub proof fn lemma_reduced_unique(n1: int, d1: int, n2: int, d2: int)
    requires
        d1 > 0,
        d2 > 0,
        gcd(abs(n1), d1 as nat) == 1,
        gcd(abs(n2), d2 as nat) == 1,
        n1 * d2 == n2 * d1,
    ensures
        n1 == n2,
        d1 == d2,
{
    let (x1, y1) = lemma_bezout(abs(n1), d1 as nat);
    let (x2, y2) = lemma_bezout(abs(n2), d2 as nat);
    let a1 = abs(n1) as int;
    let a2 = abs(n2) as int;
    let s1: int = if n1 < 0 { -1 } else { 1 };
    let s2: int = if n2 < 0 { -1 } else { 1 };
    assert(a1 == s1 * n1) by {
        if n1 < 0 { assert(s1 * n1 == -n1); } else { assert(s1 * n1 == n1); }
    }
    assert(a2 == s2 * n2) by {
        if n2 < 0 { assert(s2 * n2 == -n2); } else { assert(s2 * n2 == n2); }
    }
    let k1 = s1 * n2 * x1 + d2 * y1;
    lemma_divides_from_bezout(a1, d1, x1, y1, s1, n1, n2, d2, k1);
    let k2 = s2 * n1 * x2 + d1 * y2;
    lemma_divides_from_bezout(a2, d2, x2, y2, s2, n2, n1, d1, k2);
    assert(k1 >= 1) by (nonlinear_arith)
        requires d2 == d1 * k1, d1 > 0, d2 > 0;
    assert(k2 >= 1) by (nonlinear_arith)
        requires d1 == d2 * k2, d1 > 0, d2 > 0;
    assert(d1 == d2) by (nonlinear_arith)
        requires d2 == d1 * k1, d1 == d2 * k2, k1 >= 1, k2 >= 1, d1 > 0, d2 > 0;
    assert(n1 == n2) by (nonlinear_arith)
        requires n1 * d2 == n2 * d1, d1 == d2, d1 > 0;
}

/// The greatest common divisor of two numbers, one of them not zero, is positive and
/// divides both.
pub proof fn lemma_gcd_divides(a: nat, b: nat)
    requires
        a > 0 || b > 0,
    ensures
        gcd(a, b) > 0,
        a % gcd(a, b) == 0,
        b % gcd(a, b) == 0,
    decreases b,
{
    if b == 0 {
        assert(a % a == 0) by (nonlinear_arith) requires a > 0;
        assert(0nat % a == 0);
    } else {
        let r = a % b;
        lemma_gcd_divides(b, r);
        let g = gcd(b, r);
        assert(gcd(a, b) == g);
        let q = (a / b) as int;
        assert(a == b * q + r) by (nonlinear_arith) requires b > 0, q == a / b, r == a % b;
        let k1 = (b / g) as int;
        let k2 = (r / g) as int;
        assert(b == g * k1) by (nonlinear_arith) requires g > 0, b % g == 0, k1 == b / g;
        assert(r == g * k2) by (nonlinear_arith) requires g > 0, r % g == 0, k2 == r / g;
        assert(a == g * (k1 * q + k2)) by (nonlinear_arith) requires a == b * q + r, b == g * k1, r == g * k2;
        assert(a % g == 0) by (nonlinear_arith) requires a == g * (k1 * q + k2), g > 0, a >= 0;
    }
}

/// A fraction with a positive denominator has a form in lowest terms.
pub proof fn lemma_lowest_terms_exist(num: int, den: int)
    requires
        den > 0,
    ensures
        lowest_terms(num, den).1 > 0,
        gcd(abs(lowest_terms(num, den).0), lowest_terms(num, den).1 as nat) == 1,
        lowest_terms(num, den).0 * den == num * lowest_terms(num, den).1,
{
    let a = abs(num);
    let b = den as nat;
    lemma_gcd_divides(a, b);
    let g = gcd(a, b);
    let (x, y) = lemma_bezout(a, b);
    let n1 = (a / g) as int;
    let d1 = (b / g) as int;
    assert(a == g * n1) by (nonlinear_arith) requires g > 0, a % g == 0, n1 == a / g;
    assert(b == g * d1) by (nonlinear_arith) requires g > 0, b % g == 0, d1 == b / g;
    assert(d1 > 0) by (nonlinear_arith) requires b == g * d1, b > 0, g > 0;
    assert(n1 >= 0) by (nonlinear_arith) requires a == g * n1, g > 0, a >= 0;
    assert(n1 * x + d1 * y == 1) by (nonlinear_arith) requires a * x + b * y == g, a == g * n1, b == g * d1, g > 0;
    let n2: int = if num < 0 { -n1 } else { n1 };
    assert(abs(n2) == n1);
    assert(gcd(n1 as nat, d1 as nat) == 1) by {
        lemma_gcd_divides(n1 as nat, d1 as nat);
        let h = gcd(n1 as nat, d1 as nat) as int;
        let u = n1 / h;
        let v = d1 / h;
        assert(n1 == h * u) by (nonlinear_arith) requires h > 0, n1 % h == 0, u == n1 / h, n1 >= 0;
        assert(d1 == h * v) by (nonlinear_arith) requires h > 0, d1 % h == 0, v == d1 / h;
        assert(h * (u * x + v * y) == 1) by (nonlinear_arith) requires n1 * x + d1 * y == 1, n1 == h * u, d1 == h * v;
        assert(h == 1) by (nonlinear_arith) requires h * (u * x + v * y) == 1, h > 0;
    }
    assert(n2 * den == num * d1) by (nonlinear_arith)
        requires a == g * n1, b == g * d1, b == den, a == (if num < 0 { -num } else { num }), n2 == (if num < 0 { -n1 } else { n1 });
    assert(d1 > 0 && gcd(abs(n2), d1 as nat) == 1 && n2 * den == num * d1);
}

/// The numerator and denominator of `num / den` in lowest terms, with a positive denominator.
pub open spec fn lowest_terms(num: int, den: int) -> (int, int) {
    choose|n: int, d: int| d > 0 && #[trigger] gcd(abs(n), d as nat) == 1 && n * den == num * d
}

/// A well-formed rational equal to `num / den` has exactly the parts `lowest_terms(num, den)`.
pub proof fn lemma_lowest_terms(q: Rational, num: int, den: int)
    requires
        q.wf(),
        den > 0,
        q.is_ratio(num, den),
    ensures
        lowest_terms(num, den) == (q.n(), q.d()),
{
    assert(q.d() > 0 && gcd(abs(q.n()), q.d() as nat) == 1 && q.n() * den == num * q.d());
    let (n, d) = lowest_terms(num, den);
    assert(d > 0 && gcd(abs(n), d as nat) == 1 && n * den == num * d);
    assert(n * q.d() == q.n() * d) by (nonlinear_arith)
        requires q.n() * den == num * q.d(), n * den == num * d, den > 0;
    lemma_reduced_unique(n, d, q.n(), q.d());
}

pub proof fn lemma_digits_value_push(s: Seq<u8>, d: u8)
    ensures
        digits_value(s.push(d)) == digits_value(s) * 10 + d,
{
    assert(s.push(d).drop_last() =~= s);
}

/// Decimal digits of a natural number.
pub fn nat_digits(n: u64) -> (v: Vec<u8>)
    ensures
        all_digits(v@),
        digits_value(v@) == n,
        v@.len() >= 1,
        v@.len() > 1 ==> v@[0] != 0,
    decreases n,
{
    if n < 10 {
        let mut v: Vec<u8> = Vec::new();
        v.push(n as u8);
        assert(v@ =~= Seq::<u8>::empty().push(n as u8));
        proof {
            lemma_digits_value_push(Seq::<u8>::empty(), n as u8);
        }
        v
    } else {
        let mut v = nat_digits(n / 10);
        let ghost before = v@;
        v.push((n % 10) as u8);
        proof {
            lemma_digits_value_push(before, (n % 10) as u8);
            if before.len() == 1 {
                assert(digits_value(before) == before[0]) by {
                    assert(before.drop_last().len() == 0);
                    assert(digits_value(before.drop_last()) == 0);
                }
            }
            assert(v@[0] == before[0]);
        }
        v
    }
}

/// Non-negative integer as a `BigInteger`.
pub fn integer_from_u64(n: u64) -> (r: BigInteger)
    ensures
        r.wf(),
        r.value() == n,
{
    BigInteger { negative: false, digits: nat_digits(n) }
}

/// Integer as a `BigInteger`.
pub fn integer_from_i64(i: i64) -> (r: BigInteger)
    ensures
        r.wf(),
        r.value() == i,
{
    if i < 0 {
        let m: u64 = if i == i64::MIN { 9223372036854775808u64 } else { (-i) as u64 };
        BigInteger { negative: true, digits: nat_digits(m) }
    } else {
        integer_from_u64(i as u64)
    }
}

/// The integer `i` as a rational.
pub fn rational_from_i64(i: i64) -> (r: Rational)
    ensures
        r.wf(),
        r.n() == i,
        r.d() == 1,
{
    let r = Rational { numer: integer_from_i64(i), denom: integer_from_u64(1) };
    proof {
        lemma_gcd_one(abs(i as int));
    }
    r
}

/// `Ratio::new` of a fraction with a positive denominator: the fraction in lowest terms.
#[verifier::external_body]
pub(crate) fn rational_reduced(a: &Rational) -> (r: Rational)
    requires
        a.numer.wf(),
        a.denom.wf(),
        a.d() > 0,
    ensures
        r.wf(),
        r.is_ratio(a.n(), a.d()),
{
    let x = BigInt::from_radix_be(if a.numer.negative { Minus } else { Plus }, &a.numer.digits, 10).unwrap();
    let y = BigInt::from_radix_be(Plus, &a.denom.digits, 10).unwrap();
    let z = Ratio::new(x, y);
    let (s, n) = z.numer().to_radix_be(10);
    Rational { numer: BigInteger { negative: s == Minus, digits: n }, denom: BigInteger { negative: false, digits: z.denom().to_radix_be(10).1 } }
}

/// Whether a `BigInteger` is well formed (see `BigInteger::wf`).
pub fn integer_is_wf(a: &BigInteger) -> (b: bool)
    ensures
        b == a.wf(),
{
    let n = a.digits.len();
    if n == 0 {
        return false;
    }
    let mut i: usize = 0;
    while i < n
        invariant
            i <= n,
            n == a.digits@.len(),
            forall|j: int| 0 <= j < i ==> #[trigger] a.digits@[j] <= 9,
        decreases n - i,
    {
        if a.digits[i] > 9 {
            return false;
        }
        i = i + 1;
    }
    if n > 1 && a.digits[0] == 0 {
        return false;
    }
    proof {
        if n == 1 {
            lemma_digits_value_single(a.digits@);
        } else {
            lemma_leading_digit_value(a.digits@);
            lemma_pow10_pos((a.digits@.len() - 1) as nat);
        }
    }
    !(a.negative && n == 1 && a.digits[0] == 0)
}

/// The integer as a rational.
fn integer_as_rational(a: &BigInteger) -> (r: Rational)
    requires
        a.wf(),
    ensures
        r.wf(),
        r.n() == a.value(),
        r.d() == 1,
{
    let one = integer_from_u64(1);
    proof { lemma_gcd_one(abs(a.value())); }
    Rational { numer: a.duplicate(), denom: one }
}

/// Whether a rational is well formed (see `Rational::wf`): digits, a positive denominator
/// and lowest terms.
pub fn rational_is_wf(q: &Rational) -> (b: bool)
    ensures
        b == q.wf(),
{
    if !integer_is_wf(&q.numer) || !integer_is_wf(&q.denom) {
        return false;
    }
    if q.denom.negative || integer_is_zero(&q.denom) {
        return false;
    }
    let r = rational_reduced(q);
    let same_n = rational_cmp(&integer_as_rational(&q.numer), &integer_as_rational(&r.numer)) == 0;
    let same_d = rational_cmp(&integer_as_rational(&q.denom), &integer_as_rational(&r.denom)) == 0;
    proof {
        if q.wf() {
            assert(r.n() * q.d() == q.n() * r.d());
            lemma_reduced_unique(r.n(), r.d(), q.n(), q.d());
        }
    }
    same_n && same_d
}

/// Whether a `BigInteger` is zero.
pub fn integer_is_zero(a: &BigInteger) -> (b: bool)
    requires
        a.wf(),
    ensures
        b == (a.value() == 0),
{
    if a.digits.len() == 1 && a.digits[0] == 0 {
        proof {
            lemma_digits_value_single(a.digits@);
        }
        true
    } else {
        proof {
            if a.digits@.len() == 1 {
                lemma_digits_value_single(a.digits@);
            } else {
                lemma_leading_digit_value(a.digits@);
                lemma_pow10_pos((a.digits@.len() - 1) as nat);
            }
        }
        false
    }
}

/// A digit sequence without leading zeroes and of length above one, or a single non-zero digit, has a positive value.
pub proof fn lemma_leading_digit_value(s: Seq<u8>)
    requires
        all_digits(s),
        s.len() >= 1,
        s[0] != 0,
    ensures
        digits_value(s) >= pow10_nat((s.len() - 1) as nat),
    decreases s.len(),
{
    if s.len() == 1 {
        assert(s.drop_last().len() == 0);
    } else {
        let t = s.drop_last();
        assert(all_digits(t)) by {
            assert forall|i: int| 0 <= i < t.len() implies #[trigger] t[i] <= 9 by {
                assert(t[i] == s[i]);
            }
        }
        assert(t[0] == s[0]);
        lemma_leading_digit_value(t);
    }
}

pub proof fn lemma_digits_value_single(s: Seq<u8>)
    requires
        s.len() == 1,
    ensures
        digits_value(s) == s[0],
{
    assert(s.drop_last() =~= Seq::<u8>::empty());
    assert(digits_value(Seq::<u8>::empty()) == 0);
}

pub proof fn lemma_pow10_pos(n: nat)
    ensures
        pow10_nat(n) >= 1,
    decreases n,
{
    if n > 0 {
        lemma_pow10_pos((n - 1) as nat);
    }
}

pub open spec fn pow10_nat(n: nat) -> nat
    decreases n,
{
    if n == 0 { 1 } else { 10 * pow10_nat((n - 1) as nat) }
}

/// Negation (`-a`): the sign of a non-zero numerator flips.
pub fn rational_neg(a: &Rational) -> (r: Rational)
    requires
        a.wf(),
    ensures
        r.wf(),
        r.n() == -a.n(),
        r.d() == a.d(),
{
    let zero = integer_is_zero(&a.numer);
    let r = Rational {
        numer: BigInteger { negative: if zero { false } else { !a.numer.negative }, digits: a.numer.digits.clone() },
        denom: a.denom.duplicate(),
    };
    assert(r.numer.digits@ == a.numer.digits@);
    assert(abs(r.n()) == abs(a.n()));
    r
}

/// Reciprocal (`Ratio::recip`) of a non-zero rational.
pub fn rational_recip(a: &Rational) -> (r: Rational)
    requires
        a.wf(),
        a.n() != 0,
    ensures
        r.wf(),
        r.is_ratio(a.d(), a.n()),
{
    let r = Rational {
        numer: BigInteger { negative: a.numer.negative, digits: a.denom.digits.clone() },
        denom: BigInteger { negative: false, digits: a.numer.digits.clone() },
    };
    proof {
        assert(r.numer.digits@ == a.denom.digits@);
        assert(r.denom.digits@ == a.numer.digits@);
        lemma_gcd_comm(abs(a.n()), a.d() as nat);
        assert(r.d() == abs(a.n()));
        assert(abs(r.n()) == a.d());
        if a.numer.negative {
            assert(r.n() == -a.d());
            assert(r.d() == -a.n());
            assert(r.n() * a.n() == a.d() * r.d()) by (nonlinear_arith)
                requires r.n() == -a.d(), r.d() == -a.n();
        } else {
            assert(r.n() == a.d());
            assert(r.d() == a.n());
        }
    }
    r
}

/// Absolute value.
pub fn rational_abs(a: &Rational) -> (r: Rational)
    requires
        a.wf(),
    ensures
        r.wf(),
        r.n() == abs(a.n()),
        r.d() == a.d(),
{
    let r = Rational {
        numer: BigInteger { negative: false, digits: a.numer.digits.clone() },
        denom: a.denom.duplicate(),
    };
    assert(r.numer.digits@ == a.numer.digits@);
    r
}

/// Whether two digit vectors are the same.
pub fn digits_equal(a: &Vec<u8>, b: &Vec<u8>) -> (r: bool)
    ensures
        r == (a@ == b@),
{
    if a.len() != b.len() {
        return false;
    }
    let mut i: usize = 0;
    while i < a.len()
        invariant
            i <= a@.len(),
            a@.len() == b@.len(),
            forall|j: int| 0 <= j < i ==> a@[j] == b@[j],
        decreases a.len() - i,
    {
        if a[i] != b[i] {
            return false;
        }
        i = i + 1;
    }
    assert(a@ =~= b@);
    true
}

pub fn integer_equal(a: &BigInteger, b: &BigInteger) -> (r: bool)
    ensures
        r == (a.negative == b.negative && a.digits@ == b.digits@),
{
    a.negative == b.negative && digits_equal(&a.digits, &b.digits)
}

/// Whether two rationals are the same number. Both are in lowest terms, so they are
/// the same number exactly when their parts are the same.
pub fn rational_equal(a: &Rational, b: &Rational) -> (r: bool)
    ensures
        r == (a.numer.negative == b.numer.negative && a.numer.digits@ == b.numer.digits@
            && a.denom.negative == b.denom.negative && a.denom.digits@ == b.denom.digits@),
{
    integer_equal(&a.numer, &b.numer) && integer_equal(&a.denom, &b.denom)
}

/// Whether the rational is an integer (`Ratio::is_integer`: the denominator is one).
pub fn rational_is_integer(a: &Rational) -> (b: bool)
    requires
        a.wf(),
    ensures
        b == (a.d() == 1),
{
    if a.denom.digits.len() == 1 && a.denom.digits[0] == 1 {
        proof {
            lemma_digits_value_single(a.denom.digits@);
        }
        true
    } else {
        proof {
            if a.denom.digits@.len() == 1 {
                lemma_digits_value_single(a.denom.digits@);
            } else {
                lemma_leading_digit_value(a.denom.digits@);
                assert(pow10_nat((a.denom.digits@.len() - 1) as nat) >= 10) by {
                    lemma_pow10_ge(((a.denom.digits@.len() - 1) as nat));
                }
            }
        }
        false
    }
}

proof fn lemma_pow10_ge(n: nat)
    requires
        n >= 1,
    ensures
        pow10_nat(n) >= 10,
    decreases n,
{
    if n > 1 {
        lemma_pow10_ge((n - 1) as nat);
        assert(pow10_nat(n) == 10 * pow10_nat((n - 1) as nat));
    } else {
        assert(pow10_nat(0) == 1);
        assert(pow10_nat(1) == 10 * pow10_nat(0));
    }
}

/// Whether the rational is zero.
pub fn rational_is_zero(a: &Rational) -> (b: bool)
    requires
        a.wf(),
    ensures
        b == (a.n() == 0),
{
    integer_is_zero(&a.numer)
}

/// Whether the rational is one.
pub fn rational_is_one(a: &Rational) -> (b: bool)
    requires
        a.wf(),
    ensures
        b == (a.n() == a.d()),
{
    let is_int = rational_is_integer(a);
    if !is_int {
        proof {
            if a.n() == a.d() {
                lemma_reduced_equal_parts(a);
            }
        }
        return false;
    }
    if !a.numer.negative && a.numer.digits.len() == 1 && a.numer.digits[0] == 1 {
        proof {
            lemma_digits_value_single(a.numer.digits@);
        }
        true
    } else {
        proof {
            if a.numer.digits@.len() == 1 {
                lemma_digits_value_single(a.numer.digits@);
            } else {
                lemma_leading_digit_value(a.numer.digits@);
                lemma_pow10_ge(((a.numer.digits@.len() - 1) as nat));
            }
        }
        false
    }
}

/// In lowest terms, numerator equal to denominator means both are one.
proof fn lemma_reduced_equal_parts(a: &Rational)
    requires
        a.wf(),
        a.n() == a.d(),
    ensures
        a.d() == 1,
{
    let d = a.d() as nat;
    assert(d % d == 0) by (nonlinear_arith)
        requires d > 0;
    assert(gcd(d, d) == gcd(d, 0));
}

/// Whether the rational is below zero.
pub fn rational_is_negative(a: &Rational) -> (b: bool)
    requires
        a.wf(),
    ensures
        b == (a.n() < 0),
{
    let z = integer_is_zero(&a.numer);
    a.numer.negative && !z
}

/// The rational as an `i32` when it is an integer in range.
pub fn rational_to_i32(a: &Rational) -> (r: Option<i32>)
    requires
        a.wf(),
    ensures
        r matches Some(v) ==> a.d() == 1 && a.n() == v,
        (a.d() == 1 && i32::MIN <= a.n() <= i32::MAX) ==> r is Some,
{
    if !rational_is_integer(a) {
        return None;
    }
    if a.numer.digits.len() > 10 {
        proof {
            lemma_leading_digit_value(a.numer.digits@);
            lemma_pow10_big((a.numer.digits@.len() - 1) as nat);
        }
        return None;
    }
    let mut v: i64 = 0;
    let mut i: usize = 0;
    while i < a.numer.digits.len()
        invariant
            i <= a.numer.digits@.len() <= 10,
            all_digits(a.numer.digits@),
            v == digits_value(a.numer.digits@.take(i as int)),
            v < pow10_nat(i as nat),
        decreases a.numer.digits.len() - i,
    {
        let d = a.numer.digits[i];
        proof {
            assert(a.numer.digits@.take(i + 1).drop_last() =~= a.numer.digits@.take(i as int));
            lemma_pow10_bound(i as nat);
        }
        v = v * 10 + d as i64;
        i = i + 1;
    }
    assert(a.numer.digits@.take(i as int) =~= a.numer.digits@);
    let signed: i64 = if a.numer.negative { -v } else { v };
    if signed < i32::MIN as i64 || signed > i32::MAX as i64 {
        None
    } else {
        Some(signed as i32)
    }
}

proof fn lemma_pow10_bound(n: nat)
    requires
        n <= 9,
    ensures
        pow10_nat(n) <= 1_000_000_000,
{
    reveal_with_fuel(pow10_nat, 11);
    if n == 0 {} else if n == 1 {} else if n == 2 {} else if n == 3 {} else if n == 4 {}
    else if n == 5 {} else if n == 6 {} else if n == 7 {} else if n == 8 {} else {}
}

proof fn lemma_pow10_big(n: nat)
    requires
        n >= 10,
    ensures
        pow10_nat(n) >= 10_000_000_000,
    decreases n,
{
    if n > 10 {
        lemma_pow10_big((n - 1) as nat);
    } else {
        reveal_with_fuel(pow10_nat, 11);
    }
}
} // verus!
