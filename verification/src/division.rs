//! Long division of two integers into decimal digits, and the text of a rational number.

use vstd::prelude::*;
use crate::rational::{
    BigInteger, Rational, abs, pow10_nat, trunc_div, trunc_rem, integer_div, integer_rem, integer_is_zero,
    lemma_digits_value_push, lemma_leading_digit_value, lemma_digits_value_single, lemma_pow10_pos,
};
use crate::printing::{
    ScientificNumber, FormattingOptions, all_digits, digits_value, trim_leading, trim_trailing, leading_zeros,
    rounded_digits, round_decimals_vec, scientific_number_text,
};

verus! {

/// Digit `k` (counting from one) of the numerator, and zero beyond its digits.
pub open spec fn digit_at(ds: Seq<u8>, k: int) -> nat {
    if 1 <= k <= ds.len() { ds[k - 1] as nat } else { 0 }
}

/// Long division of the digits `ds` by `d`, at position `k` with the remainder `r` of the
/// positions before, the quotient digits found so far and the exponent of the first of
/// them: the next digit is brought down; a zero quotient digit before any other lowers the
/// exponent; it stops once more than `rounding` digits are found (cut off) or when nothing is
/// left to divide and no digit of the numerator remains (exact).
pub open spec fn quotient_digits(ds: Seq<u8>, d: nat, rounding: nat, k: nat, r: nat, found: Seq<u8>, exponent: int) -> (Seq<u8>, int, bool)
    decreases (rounding + 1 - found.len()) as nat, (d - r) as nat, (ds.len() + 1 - k) as nat,
{
    if d == 0 || r >= d || found.len() > rounding {
        (found, exponent, true)
    } else {
        let current = 10 * r + digit_at(ds, k as int);
        if current == 0 && k >= ds.len() {
            (found, exponent, false)
        } else if current < d && found.len() == 0 {
            quotient_digits(ds, d, rounding, k + 1, current, found, exponent - 1)
        } else {
            quotient_digits(ds, d, rounding, k + 1, current % d, found.push((current / d) as u8), exponent)
        }
    }
}

/// The digits of `|n| / |d|` before rounding, their exponent and whether digits were cut
/// off: the numerator's own digits when `d` is one.
pub open spec fn division_digits(n: BigInteger, d: BigInteger, rounding: nat) -> (Seq<u8>, int, bool) {
    let ds = n.digits@;
    if d.value() == 1 {
        (ds, ds.len() - 1, false)
    } else {
        quotient_digits(ds, abs(d.value()), rounding, 1, 0, Seq::empty(), ds.len() - 1)
    }
}

/// The quotient `numerator / denominator` as a scientific number rounded to `rounding`
/// significant digits: its digits, its exponent, and whether digits were cut off (by the
/// division or by the rounding). The sign is that of the quotient.
pub open spec fn quotient_number(n: BigInteger, d: BigInteger, rounding: nat) -> (Seq<u8>, int, bool) {
    let (raw, e0, cut) = division_digits(n, d, rounding);
    let t = trim_leading(trim_trailing(raw));
    let e1 = e0 - leading_zeros(trim_trailing(raw));
    let rd = rounded_digits(t, rounding);
    (trim_leading(rd.0), e1 + rd.1 - leading_zeros(rd.0), cut || rounding < t.len())
}

proof fn lemma_digits_value_upper(s: Seq<u8>)
    requires
        all_digits(s),
    ensures
        digits_value(s) < pow10_nat(s.len()),
    decreases s.len(),
{
    if s.len() > 0 {
        let t = s.drop_last();
        assert(all_digits(t)) by {
            assert forall|i: int| 0 <= i < t.len() implies #[trigger] t[i] <= 9 by {
                assert(t[i] == s[i]);
            }
        }
        lemma_digits_value_upper(t);
        assert(s.last() <= 9);
        assert(pow10_nat(s.len()) == 10 * pow10_nat(t.len()));
    } else {
        assert(pow10_nat(0) == 1);
    }
}

proof fn lemma_pow10_le(a: nat, b: nat)
    requires
        a <= b,
    ensures
        pow10_nat(a) <= pow10_nat(b),
    decreases b,
{
    if a < b {
        lemma_pow10_le(a, (b - 1) as nat);
        lemma_pow10_pos((b - 1) as nat);
        assert(pow10_nat(b) == 10 * pow10_nat((b - 1) as nat));
    }
}

/// The integer with the digit `a` appended: `10 * r + a`.
fn append_digit(r: &BigInteger, a: u8) -> (c: BigInteger)
    requires
        r.wf(),
        r.value() >= 0,
        a <= 9,
    ensures
        c.wf(),
        c.value() == 10 * r.value() + a,
{
    if integer_is_zero(r) {
        let mut v: Vec<u8> = Vec::new();
        v.push(a);
        proof { lemma_digits_value_single(v@); }
        BigInteger { negative: false, digits: v }
    } else {
        let mut v = r.digits.clone();
        let ghost before = v@;
        v.push(a);
        proof {
            lemma_digits_value_push(before, a);
            assert(v@[0] == before[0]);
            if before.len() == 1 {
                lemma_digits_value_single(before);
            }
            assert(all_digits(v@)) by {
                assert forall|i: int| 0 <= i < v@.len() implies #[trigger] v@[i] <= 9 by {
                    if i < before.len() {
                        assert(v@[i] == before[i]);
                    }
                }
            }
        }
        BigInteger { negative: false, digits: v }
    }
}

/// The single digit of a natural number below ten.
fn small_digit(q: &BigInteger) -> (d: u8)
    requires
        q.wf(),
        0 <= q.value() < 10,
    ensures
        d == q.value(),
{
    proof {
        if q.digits@.len() > 1 {
            lemma_leading_digit_value(q.digits@);
            assert(pow10_nat((q.digits@.len() - 1) as nat) >= 10) by {
                lemma_pow10_le(1, (q.digits@.len() - 1) as nat);
                assert(pow10_nat(1) == 10 * pow10_nat(0));
            }
        }
        lemma_digits_value_single(q.digits@);
    }
    q.digits[0]
}

/// Long division of two integers: the digits of `|numerator| / |denominator|` up to
/// `rounding_decimals + 1` of them (see `division_digits`), rounded to
/// `rounding_decimals` (see `round_decimals_vec`), with the sign of the quotient, and
/// whether the result was rounded.
pub fn long_division(numerator: &BigInteger, denominator: &BigInteger, rounding_decimals: usize) -> (r: (ScientificNumber, bool))
    requires
        numerator.wf(),
        denominator.wf(),
        denominator.value() != 0,
        numerator.digits@.len() < 0x1000_0000_0000_0000,
        denominator.digits@.len() < 0x1000_0000_0000_0000,
    ensures
        ({
            let (base, exponent, rounded) = quotient_number(*numerator, *denominator, rounding_decimals as nat);
            &&& r.0.negative == ((numerator.value() < 0) != (denominator.value() < 0))
            &&& r.0.base@ == base
            &&& r.0.exponent == exponent
            &&& r.1 == rounded
        }),
        r.0.wf(),
        r.0.base@.len() <= rounding_decimals || r.0.base@.len() <= 1,
        numerator.digits@.len() - denominator.digits@.len() - 2 <= r.0.exponent <= numerator.digits@.len() + 1,
{
    let negative = numerator.negative != denominator.negative;
    let num_vec = numerator.digits.clone();
    let ghost ds = num_vec@;
    let big_l = num_vec.len();
    let mut exponent: i64 = (big_l - 1) as i64;
    let mut has_been_rounded = false;
    let denom_is_one = !denominator.negative && denominator.digits.len() == 1 && denominator.digits[0] == 1;
    proof {
        if denominator.digits@.len() == 1 {
            lemma_digits_value_single(denominator.digits@);
        } else {
            lemma_leading_digit_value(denominator.digits@);
            lemma_pow10_le(1, (denominator.digits@.len() - 1) as nat);
            assert(pow10_nat(1) == 10 * pow10_nat(0));
        }
        assert(denom_is_one == (denominator.value() == 1));
        assert(numerator.value() < 0 <==> numerator.negative) by {
            if numerator.digits@.len() == 1 {
                lemma_digits_value_single(numerator.digits@);
            } else {
                lemma_leading_digit_value(numerator.digits@);
                lemma_pow10_pos((numerator.digits@.len() - 1) as nat);
            }
        }
        assert(denominator.value() < 0 <==> denominator.negative) by {
            if denominator.digits@.len() > 1 {
                lemma_pow10_pos((denominator.digits@.len() - 1) as nat);
            }
        }
    }
    let result_vec: Vec<u8> = if denom_is_one {
        num_vec
    } else {
        let dabs = BigInteger { negative: false, digits: denominator.digits.clone() };
        let ghost d = abs(denominator.value());
        let ghost dd: int = d as int;
        let ghost len_d = denominator.digits@.len();
        assert(dabs.value() == d);
        proof {
            lemma_digits_value_upper(denominator.digits@);
        }
        let mut r = BigInteger { negative: false, digits: vec![0u8] };
        proof { lemma_digits_value_single(r.digits@); }
        let mut k: u128 = 1;
        let mut found: Vec<u8> = Vec::new();
        has_been_rounded = true;
        let ghost target = quotient_digits(ds, d, rounding_decimals as nat, 1, 0, Seq::empty(), big_l - 1);
        loop
            invariant_except_break
                has_been_rounded,
            invariant
                ds == num_vec@,
                big_l == ds.len(),
                1 <= big_l < 0x1000_0000_0000_0000,
                all_digits(ds),
                big_l > 1 ==> ds[0] != 0,
                dabs.wf(),
                dabs.value() == d,
                d >= 1,
                dd == d,
                d < pow10_nat(len_d),
                len_d < 0x1000_0000_0000_0000,
                r.wf(),
                0 <= r.value() < d,
                k >= 1,
                found.len() == 0 ==> exponent == big_l - k,
                found.len() == 0 && k >= 2 ==> r.value() >= pow10_nat((k - 2) as nat),
                found.len() == 0 ==> k <= len_d + 1,
                found.len() > 0 ==> big_l - len_d - 2 <= exponent <= big_l,
                k <= len_d + 1 + found.len(),
                found.len() <= rounding_decimals + 1,
                all_digits(found@),
                found.len() > 0 ==> found@[0] != 0,
                k == 1 ==> r.value() == 0,
                quotient_digits(ds, d, rounding_decimals as nat, k as nat, r.value() as nat, found@, exponent as int) == target,
            ensures
                all_digits(found@),
                found.len() > 0 ==> found@[0] != 0,
                big_l - len_d - 2 <= exponent <= big_l,
                target == (found@, exponent as int, has_been_rounded),
            decreases (rounding_decimals + 1 - found.len()) as nat, (d - r.value()) as nat, (big_l + 1 - k) as nat,
        {
            if found.len() > rounding_decimals {
                break;
            }
            let a: u8 = if k <= big_l as u128 { num_vec[(k - 1) as usize] } else { 0 };
            assert(a == digit_at(ds, k as int));
            let current = append_digit(&r, a);
            if integer_is_zero(&current) && k >= big_l as u128 {
                has_been_rounded = false;
                break;
            }
            let q = integer_div(&current, &dabs);
            let rem = integer_rem(&current, &dabs);
            proof {
                assert(current.value() < 10 * dd) by (nonlinear_arith)
                    requires current.value() == 10 * r.value() + a, r.value() < dd, a <= 9;
                assert(q.value() == current.value() / dd);
                assert(q.value() < 10) by (nonlinear_arith)
                    requires q.value() == current.value() / dd, current.value() < 10 * dd, dd > 0, current.value() >= 0;
                assert(rem.value() == current.value() % dd) by {
                    assert(trunc_rem(current.value(), dd) == current.value() - (current.value() / dd) * dd);
                    assert(current.value() == (current.value() / dd) * dd + current.value() % dd) by (nonlinear_arith)
                        requires dd > 0;
                }
            }
            let qd = small_digit(&q);
            if qd == 0 && found.len() == 0 {
                proof {
                    assert(current.value() < dd) by (nonlinear_arith)
                        requires q.value() == current.value() / dd, q.value() == 0, dd > 0, current.value() >= 0;
                    if k >= 2 {
                        assert(current.value() >= pow10_nat((k - 1) as nat)) by {
                            assert(pow10_nat((k - 1) as nat) == 10 * pow10_nat((k - 2) as nat));
                        }
                    } else {
                        assert(k == 1);
                        assert(ds[0] != 0 || big_l == 1);
                        assert(current.value() == ds[0]);
                        assert(current.value() >= 1);
                        assert(pow10_nat(0) == 1);
                    }
                    if k > len_d {
                        lemma_pow10_le(len_d, (k - 1) as nat);
                    }
                }
                exponent = exponent - 1;
                r = current;
            } else {
                proof {
                    if found.len() == 0 {
                        assert(current.value() >= dd) by (nonlinear_arith)
                            requires q.value() == current.value() / dd, q.value() != 0, dd > 0, current.value() >= 0;
                    }
                }
                found.push(qd);
                r = rem;
            }
            k = k + 1;
        }
        found
    };
    proof {
        if result_vec@.len() > 0 && result_vec@[0] != 0 {
            crate::printing::lemma_trim_trailing_first(result_vec@);
        } else if result_vec@.len() > 0 {
            assert(result_vec@ =~= seq![0u8]);
            assert(result_vec@.drop_last() =~= Seq::<u8>::empty());
            assert(result_vec@.last() == 0);
            assert(crate::printing::trailing_zeros(Seq::<u8>::empty()) == 0);
            assert(crate::printing::trailing_zeros(result_vec@) == 1);
            assert(trim_trailing(result_vec@) =~= Seq::<u8>::empty());
        }
    }
    let (result_rounded, has_rounded) = round_decimals_vec(rounding_decimals, &mut exponent, &result_vec);
    has_been_rounded = has_been_rounded || has_rounded;
    proof {
        let t = trim_leading(trim_trailing(result_vec@));
        let tt = trim_trailing(result_vec@);
        crate::printing::lemma_trailing_zeros_bound(result_vec@);
        assert(all_digits(tt)) by {
            assert forall|i: int| 0 <= i < tt.len() implies #[trigger] tt[i] <= 9 by {
                assert(tt[i] == result_vec@[i]);
            }
        }
        crate::printing::lemma_trim_leading_first(tt);
        crate::printing::lemma_rounded_no_leading_zero(t, rounding_decimals as nat);
        crate::printing::lemma_rounded_len(t, rounding_decimals as nat);
    }
    (ScientificNumber::new(negative, result_rounded, exponent), has_been_rounded)
}

/// The significant digits that numbers are rounded to: `round_to_decimals`, and one where
/// it is zero.
pub open spec fn significant_digits(options: FormattingOptions) -> nat {
    if options.round_to_decimals >= 1 { options.round_to_decimals as nat } else { 1 }
}

/// The text of a rational number by long division to `significant_digits(options)` digits
/// (see `quotient_number`), formatted
/// with `options`, and whether the digits were rounded.
pub fn rational_to_string(ratio: &Rational, options: FormattingOptions) -> (r: (String, bool))
    requires
        ratio.wf(),
        ratio.numer.digits@.len() < 0x1000_0000_0000_0000,
        ratio.denom.digits@.len() < 0x1000_0000_0000_0000,
        options.round_to_decimals < 0x4000_0000,
        options.non_scientific_decimals < 0x4000_0000,
    ensures
        ({
            let (base, exponent, rounded) = quotient_number(ratio.numer, ratio.denom, significant_digits(options));
            &&& r.0@ == scientific_number_text(base, exponent, ratio.n() < 0, options)
            &&& r.1 == rounded
        }),
{
    let digits: usize = if options.round_to_decimals >= 1 { options.round_to_decimals } else { 1 };
    let (scientific, rounded) = long_division(&ratio.numer, &ratio.denom, digits);
    (scientific.to_string(options), rounded)
}

} // verus!
