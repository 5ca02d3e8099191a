use library::division::{long_division, rational_to_string};
use library::printing::{FormattingOptions, ScientificNumber};
use library::rational::{integer_from_i64, rational_from_i64, Rational};

fn fraction(a: i64, b: i64) -> library::rational::Rational {
    library::number::Number::Rational(library::rational::rational_from_i64(a))
        .div(&library::number::Number::Rational(library::rational::rational_from_i64(b)), 64)
        .get_exact_rational()
        .unwrap()
}


fn ratio(n: i64, d: i64) -> Rational {
    fraction(n, d)
}

#[test]
fn test_long_division() {
    fn quick_divide(num: &str, denom: &str, decimals: usize) -> (ScientificNumber, bool) {
        let num = integer_from_i64(num.parse().unwrap());
        let denom = integer_from_i64(denom.parse().unwrap());
        long_division(&num, &denom, decimals)
    }

    fn check_divide(
        num: &str, denom: &str, decimals: usize, base: impl Into<Vec<u8>>, exponent: i64, rounded: bool,
        negative: bool,
    ) {
        assert_eq!(
            quick_divide(num, denom, decimals),
            (ScientificNumber::new(negative, base.into(), exponent), rounded)
        );
    }
    check_divide("1", "1", 5, [1], 0, false, false);
    check_divide("3", "1", 5, [3], 0, false, false);
    check_divide("6", "1", 5, [6], 0, false, false);
    check_divide("123456", "1", 5, [1, 2, 3, 4, 6], 5, true, false);

    check_divide("1", "3", 5, [3, 3, 3, 3, 3], -1, true, false);
    check_divide("1", "6", 5, [1, 6, 6, 6, 7], -1, true, false);
    check_divide("1", "9", 5, [1, 1, 1, 1, 1], -1, true, false);

    check_divide("-1", "3", 5, [3, 3, 3, 3, 3], -1, true, true);
    check_divide("-1", "6", 5, [1, 6, 6, 6, 7], -1, true, true);
    check_divide("-1", "9", 5, [1, 1, 1, 1, 1], -1, true, true);

    check_divide("1", "-3", 5, [3, 3, 3, 3, 3], -1, true, true);
    check_divide("1", "-6", 5, [1, 6, 6, 6, 7], -1, true, true);
    check_divide("1", "-9", 5, [1, 1, 1, 1, 1], -1, true, true);

    check_divide("-1", "-3", 5, [3, 3, 3, 3, 3], -1, true, false);
    check_divide("-1", "-6", 5, [1, 6, 6, 6, 7], -1, true, false);
    check_divide("-1", "-9", 5, [1, 1, 1, 1, 1], -1, true, false);

    check_divide("1", "7", 6, [1, 4, 2, 8, 5, 7], -1, true, false);
    check_divide("1", "7", 5, [1, 4, 2, 8, 6], -1, true, false);
    check_divide("1", "7", 4, [1, 4, 2, 9], -1, true, false);
    check_divide("1", "7", 3, [1, 4, 3], -1, true, false);
    check_divide("1", "7", 2, [1, 4], -1, true, false);
    check_divide("1", "7", 1, [1], -1, true, false);

    check_divide("1", "2", 5, [5], -1, false, false);
    check_divide("1", "4", 5, [2, 5], -1, false, false);
    check_divide("1", "8", 5, [1, 2, 5], -1, false, false);
    check_divide("1", "16", 5, [6, 2, 5], -2, false, false);
    check_divide("1", "32", 5, [3, 1, 2, 5], -2, false, false);
    check_divide("1", "64", 5, [1, 5, 6, 2, 5], -2, false, false);
    check_divide("1", "128", 5, [7, 8, 1, 2, 5], -3, false, false);
    check_divide("1", "256", 5, [3, 9, 0, 6, 3], -3, true, false);
}

#[test]
fn zero_divided_is_zero_without_digits() {
    let (s, rounded) = long_division(&integer_from_i64(0), &integer_from_i64(7), 5);
    assert!(s.base.is_empty());
    assert!(!s.negative);
    assert!(!rounded);
}

#[test]
fn quotient_with_zero_digits_inside() {
    // 1/101 = 0.00990099...
    let (s, rounded) = long_division(&integer_from_i64(1), &integer_from_i64(101), 6);
    assert_eq!(s, ScientificNumber::new(false, vec![9, 9, 0, 0, 9, 9], -3));
    assert!(rounded);
    // 1001/10 = 100.1
    let (s, rounded) = long_division(&integer_from_i64(1001), &integer_from_i64(10), 9);
    assert_eq!(s, ScientificNumber::new(false, vec![1, 0, 0, 1], 2));
    assert!(!rounded);
}

#[test]
fn rounding_up_can_carry_into_a_new_digit() {
    // 2/3 rounded to one digit is 0.7; 999/1 rounded to two digits is 1.0e3
    let (s, _) = long_division(&integer_from_i64(2), &integer_from_i64(3), 1);
    assert_eq!(s, ScientificNumber::new(false, vec![7], -1));
    let (s, rounded) = long_division(&integer_from_i64(999), &integer_from_i64(1), 2);
    assert_eq!(s, ScientificNumber::new(false, vec![1], 3));
    assert!(rounded);
}

#[test]
fn rationals_are_printed_by_long_division() {
    let options = FormattingOptions::default();
    assert_eq!(rational_to_string(&ratio(1, 1), options), ("1".to_string(), false));
    assert_eq!(rational_to_string(&ratio(-1, 1), options), ("-1".to_string(), false));
    assert_eq!(rational_to_string(&ratio(6, 5), options), ("1.2".to_string(), false));
    assert_eq!(rational_to_string(&ratio(-6, 5), options), ("-1.2".to_string(), false));
    assert_eq!(rational_to_string(&ratio(1234, 1000), options), ("1.234".to_string(), false));
    assert_eq!(rational_to_string(&ratio(1, 3), options), ("0.333333333".to_string(), true));
    assert_eq!(rational_to_string(&ratio(1000000, 1), options), ("1,000,000".to_string(), false));
    assert_eq!(
        rational_to_string(&ratio(2, 3), options.with_rounding(28)),
        ("0.6666666666666666666666666667".to_string(), true)
    );
    assert_eq!(
        rational_to_string(&ratio(2, 3), options.with_rounding(29)),
        ("0.66666666666666666666666666667".to_string(), true)
    );
    assert_eq!(
        rational_to_string(&ratio(1, 1000000000000000), options),
        ("1e-15".to_string(), false)
    );
    assert_eq!(rational_to_string(&ratio(0, 1), options), ("0".to_string(), false));
}

#[test]
fn rounding_to_zero_digits_counts_as_one() {
    let x = fraction(12345, 10000);
    let options = FormattingOptions::default();
    assert_eq!(rational_to_string(&x, options.with_rounding(3)).0, "1.23");
    assert_eq!(rational_to_string(&x, options.with_rounding(1)).0, "1");
    assert_eq!(rational_to_string(&x, options.with_rounding(0)).0, "1");
    assert_eq!(rational_to_string(&fraction(123456789, 100), options).0, "1,234,567.89");
}
