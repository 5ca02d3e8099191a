use library::arithmetic::{
    big_int_to_power_of_inv_of_big_int, power_rational_and_rational, rational_from_float, float_to_exact_rational,
};
use library::number::{FloatValue, Number};
use library::printing::FormattingOptions;
use library::rational::{integer_from_i64, rational_from_i64, BigInteger, Rational};
use std::str::FromStr;

fn fraction(a: i64, b: i64) -> library::rational::Rational {
    library::number::Number::Rational(library::rational::rational_from_i64(a))
        .div(&library::number::Number::Rational(library::rational::rational_from_i64(b)), 64)
        .get_exact_rational()
        .unwrap()
}


const PRECISION: usize = 1024;

fn creat_rational(a: i64, b: i64) -> Rational {
    fraction(a, b)
}

fn num(s: &str) -> Number {
    Number::from_string(s).unwrap()
}

fn show(n: &Number) -> String {
    format!("{:?}", n)
}

fn exact(n: &Number) -> Option<String> {
    n.get_exact_rational().map(|q| format!("{:?}", q))
}

fn float_value(x: &astro_float::BigFloat) -> FloatValue {
    match x.as_raw_parts() {
        Some((m, b, s, e, i)) => {
            FloatValue::Finite { mantissa: m.to_vec(), bits: b, negative: s.is_negative(), exponent: e, inexact: i }
        },
        None if x.is_nan() => FloatValue::NaN(None),
        None => FloatValue::Infinite { negative: x.is_inf_neg() },
    }
}

fn big_integer(text: &str) -> BigInteger {
    let (sign, digits) = num_bigint::BigInt::from_str(text).unwrap().to_radix_be(10);
    BigInteger { negative: sign == num_bigint::Sign::Minus, digits }
}

fn root_cases() {
    let values = [
        (4, 2, creat_rational(2, 1)),
        (9, 2, creat_rational(3, 1)),
        (16, 2, creat_rational(4, 1)),
        (27, 3, creat_rational(3, 1)),
        (64, 3, creat_rational(4, 1)),
        (1000, 3, creat_rational(10, 1)),
        (1000000, 6, creat_rational(10, 1)),
        (1024, 10, creat_rational(2, 1)),
    ];
    for (a, b, expected) in values {
        let result = big_int_to_power_of_inv_of_big_int(&integer_from_i64(a), &integer_from_i64(b), PRECISION);
        assert_eq!(exact(&result), Some(format!("{:?}", expected)));
    }
}

#[test]
fn operations_test_big_int_to_power_of_inv_of_big_int() {
    root_cases();
}

#[test]
fn tests_test_big_int_to_power_of_inv_of_big_int() {
    root_cases();
}

fn power_cases() {
    let values = [
        (creat_rational(16, 1), creat_rational(2, 1), creat_rational(256, 1)),
        (creat_rational(16, 1), creat_rational(1, 2), creat_rational(4, 1)),
        (creat_rational(4, 1), creat_rational(1, 2), creat_rational(2, 1)),
        (creat_rational(25, 9), creat_rational(1, 2), creat_rational(5, 3)),
    ];
    for (base, exponent, expected) in values {
        let result = power_rational_and_rational(&base, &exponent, PRECISION);
        assert_eq!(exact(&result), Some(format!("{:?}", expected)));
    }
}

#[test]
fn operations_test_power_rational_and_rational() {
    power_cases();
}

#[test]
fn tests_test_power_rational_and_rational() {
    power_cases();
}

fn number_from_string_cases() {
    let assert_output_eq = |a: &str, b: Option<(Number, &str)>| {
        let number = Number::from_string(a);
        assert_eq!(number.as_ref().map(show), b.as_ref().map(|s| show(&s.0)));
        assert_eq!(
            number.map(|n| n.to_string(FormattingOptions::default())),
            b.as_ref().map(|s| s.1.to_string())
        );
    };

    assert_output_eq("1", Some((Number::Rational(creat_rational(1, 1)), "1")));
    assert_output_eq("1.23", Some((Number::Rational(creat_rational(123, 100)), "1.23")));
    assert_output_eq("-1.23", Some((Number::Rational(creat_rational(-123, 100)), "-1.23")));
    assert_output_eq("1000", Some((Number::Rational(creat_rational(1000, 1)), "1,000")));
    assert_output_eq("1_000", Some((Number::Rational(creat_rational(1000, 1)), "1,000")));
    assert_output_eq("1000_", None);
    assert_output_eq("_1000", None);
    assert_output_eq("1_000_000", Some((Number::Rational(creat_rational(1000000, 1)), "1,000,000")));
}

#[test]
fn operations_test_create_number_from_string() {
    number_from_string_cases();
}

#[test]
fn tests_test_create_number_from_string() {
    number_from_string_cases();
}

fn float_to_rational_cases() {
    let big = format!("1{}21", "0".repeat(100));
    let inputs_and_expected: [(&str, Option<String>); 5] = [
        ("3.5", Some(format!("{:?}", creat_rational(7, 2)))),
        (&big, Some(format!("{:?}", Rational { numer: big_integer(&big), denom: integer_from_i64(1) }))),
        ("1.125", Some(format!("{:?}", creat_rational(9, 8)))),
        ("inf", None),
        ("-inf", None),
    ];
    for (i, o) in inputs_and_expected {
        let float = astro_float::BigFloat::from_str(i).unwrap();
        assert_eq!(rational_from_float(&float_value(&float)).map(|q| format!("{:?}", q)), o);
    }
}

#[test]
fn operations_test_convert_float_to_rational() {
    float_to_rational_cases();
}

#[test]
fn tests_test_convert_float_to_rational() {
    float_to_rational_cases();
}

fn result_is_exact_cases() {
    let p = PRECISION;
    assert_eq!(num("1").is_exact(), true);
    assert_eq!(num("1").sin(p).is_exact(), false);
    assert_eq!(num("1").sin(p).plus(&num("0"), p).is_exact(), false);
    assert_eq!(num("1").sin(p).plus(&num("0"), p).mul(&num("2"), p).is_exact(), false);
    assert_eq!(num("4").pow(&num("0.5"), p).is_exact(), true);
}

#[test]
fn operations_test_calculation_result_is_exact() {
    result_is_exact_cases();
}

#[test]
fn tests_test_calculation_result_is_exact() {
    result_is_exact_cases();
}

fn string_output_cases() {
    let p = PRECISION;
    let check = |n: Number, expected: &str, rounding: usize| {
        assert_eq!(n.to_string(FormattingOptions::default().with_rounding(rounding)), expected);
    };
    check(num("1"), "1", 20);
    check(num("-1"), "-1", 20);
    check(num("1.2"), "1.2", 20);
    check(num("-1.2"), "-1.2", 20);
    check(num("1.23"), "1.23", 20);
    check(num("1.234"), "1.234", 20);
    check(num("0.2").plus(&num("0.1"), p), "0.3", 20);
    check(num("-0.2").plus(&num("-0.1"), p), "-0.3", 20);
    check(num("0.2").plus(&num("0.1"), p).div(&num("3"), p), "0.1", 20);
    check(num("-0.2").plus(&num("-0.1"), p).div(&num("3"), p), "-0.1", 20);
    check(num("1").asin(p).mul(&num("2"), p), "3.1416", 5);
    check(num("1").asin(p).mul(&num("2"), p), "3.14159", 6);
    check(num("1").asin(p).mul(&num("2"), p), "3.14159265", 9);
    check(num("1").asin(p).sin(p), "1", 10);
    check(num("1").asin(p).sin(p), "1", 30);
    check(num("2").div(&num("3"), p), "0.6666666666666666666666666667", 28);
    check(num("2").div(&num("3"), p), "0.66666666666666666666666666667", 29);
}

#[test]
fn operations_test_calculation_string_output() {
    string_output_cases();
}

#[test]
fn tests_test_calculation_string_output() {
    string_output_cases();
}

#[test]
fn exact_operations_stay_exact() {
    let p = PRECISION;
    assert_eq!(exact(&num("1.5").plus(&num("2.25"), p)), exact(&num("3.75")));
    assert_eq!(exact(&num("1.5").mul(&num("-4"), p)), exact(&num("-6")));
    assert_eq!(exact(&num("1").div(&num("8"), p)), exact(&num("0.125")));
    assert_eq!(exact(&num("2").pow(&num("-2"), p)), exact(&num("0.25")));
    assert_eq!(exact(&num("8").pow(&num("2").div(&num("3"), p), p)), exact(&num("4")));
}

#[test]
fn division_by_zero_is_nan() {
    let p = PRECISION;
    assert!(num("1").div(&num("0"), p).is_nan());
    assert!(num("1").rem(&num("0"), p).is_nan());
    assert!(num("1").sin(p).div(&num("0"), p).is_nan());
    let r = num("0").pow(&num("-1"), p);
    assert!(r.is_nan());
}

#[test]
fn remainders_of_exact_numbers_are_made_non_negative() {
    let p = PRECISION;
    assert_eq!(exact(&num("7").rem(&num("3"), p)), exact(&num("1")));
    assert_eq!(exact(&num("-7").rem(&num("3"), p)), exact(&num("2")));
    assert_eq!(exact(&num("-1.5").rem(&num("1"), p)), exact(&num("0.5")));
}

#[test]
fn rounding_of_exact_and_float_numbers() {
    let p = PRECISION;
    assert_eq!(exact(&num("2.5").round(p)), exact(&num("3")));
    assert_eq!(exact(&num("-2.5").round(p)), exact(&num("-3")));
    assert_eq!(exact(&num("2.4").floor()), exact(&num("2")));
    assert_eq!(exact(&num("-2.4").floor()), exact(&num("-3")));
    assert_eq!(exact(&num("-2.4").ceil()), exact(&num("-2")));
    // the sine of one is about 0.84: its float rounds to 1, its floor is 0
    let s = num("1").sin(p);
    assert_eq!(s.round(p).to_string(FormattingOptions::default()), "1");
    assert_eq!(s.floor().to_string(FormattingOptions::default()), "0");
    assert!(!s.round(p).is_exact());
}

#[test]
fn factorials_of_small_integers() {
    assert_eq!(exact(&num("5").fac()), exact(&num("120")));
    assert_eq!(exact(&num("0").fac()), exact(&num("1")));
    assert!(num("-1").fac().is_nan());
    assert!(num("0.5").fac().is_nan());
    assert!(num("10001").fac().is_nan());
}

#[test]
fn comparisons_and_extremes() {
    let p = PRECISION;
    assert_eq!(num("1").cmp(&num("2"), p), Some(-1));
    assert_eq!(num("2").cmp(&num("2"), p), Some(0));
    assert_eq!(num("1").sin(p).cmp(&num("1"), p), Some(-1));
    assert_eq!(Number::nan(None).cmp(&num("1"), p), None);
    assert_eq!(exact(&num("1").max(&num("2"), p)), exact(&num("2")));
    assert_eq!(exact(&num("1").min(&num("2"), p)), exact(&num("1")));
    assert!(num("1").max(&Number::nan(None), p).is_nan());
}

#[test]
fn sums_averages_and_medians() {
    let p = PRECISION;
    let v = vec![num("3"), num("1"), num("2"), num("4")];
    assert_eq!(exact(&Number::sum(&v, p)), exact(&num("10")));
    assert_eq!(exact(&Number::average(&v, p).unwrap()), exact(&num("2.5")));
    assert_eq!(exact(&Number::median(&v, p).unwrap()), exact(&num("2.5")));
    assert_eq!(exact(&Number::max_of_several(&v, p).unwrap()), exact(&num("4")));
    assert_eq!(exact(&Number::min_of_several(&v, p).unwrap()), exact(&num("1")));
    let odd = vec![num("5"), num("-1"), num("3")];
    assert_eq!(exact(&Number::median(&odd, p).unwrap()), exact(&num("3")));
    assert!(Number::median(&vec![], p).is_none());
    assert!(Number::average(&vec![], p).is_none());
    assert_eq!(exact(&Number::sum(&vec![], p)), exact(&num("0")));
    let with_nan = vec![num("1"), Number::nan(None)];
    assert!(Number::median(&with_nan, p).unwrap().is_nan());
    assert!(Number::max_of_several(&with_nan, p).unwrap().is_nan());
}

#[test]
fn exact_floats_become_rationals() {
    // 0.11b * 2^2 = 3, marked exact
    let three = FloatValue::Finite { mantissa: vec![0xC000_0000_0000_0000], bits: 64, negative: false, exponent: 2, inexact: false };
    assert_eq!(exact(&Number::from_float(three)), exact(&num("3")));
    let inexact = FloatValue::Finite { mantissa: vec![0xC000_0000_0000_0000], bits: 64, negative: false, exponent: 2, inexact: true };
    assert!(float_to_exact_rational(&inexact).is_none());
    assert!(Number::from_float(inexact).get_exact_rational().is_none());
}

#[test]
fn negation_and_absolute_value() {
    assert_eq!(exact(&num("1.5").neg()), exact(&num("-1.5")));
    assert_eq!(exact(&num("-1.5").abs()), exact(&num("1.5")));
    let p = PRECISION;
    let s = num("1").sin(p).neg();
    assert_eq!(s.to_string(FormattingOptions::default().with_rounding(3)), "-0.841");
    assert_eq!(s.abs().to_string(FormattingOptions::default().with_rounding(3)), "0.841");
}
