use library::printing::{parse_i64, FormattingOptions, ScientificNumber};

#[test]
fn test_scientific_number() {
    fn quick_conversion(base: Vec<u8>, exponent: i64, no_sci_digits: usize) -> String {
        ScientificNumber::new(false, base, exponent).to_string(
            FormattingOptions::default().with_rounding(100).with_non_scientific_decimals(no_sci_digits),
        )
    }
    assert_eq!(quick_conversion(vec![0, 0, 0], 0, 100), "0");
    assert_eq!(quick_conversion(vec![0, 0, 0], 3, 100), "0");
    assert_eq!(quick_conversion(vec![1], -1, 100), "0.1");
    assert_eq!(quick_conversion(vec![1], 0, 100), "1");
    assert_eq!(quick_conversion(vec![1], 3, 100), "1,000");

    assert_eq!(quick_conversion(vec![1, 2, 3], -2, 100), "0.0123");
    assert_eq!(quick_conversion(vec![1, 2, 3], -1, 100), "0.123");
    assert_eq!(quick_conversion(vec![1, 2, 3], 0, 100), "1.23");
    assert_eq!(quick_conversion(vec![1, 2, 3], 1, 100), "12.3");
    assert_eq!(quick_conversion(vec![1, 2, 3], 2, 100), "123");
    assert_eq!(quick_conversion(vec![1, 2, 3], 3, 100), "1,230");
    assert_eq!(quick_conversion(vec![1, 2, 3], 4, 100), "12,300");
    assert_eq!(quick_conversion(vec![1], 3, 100), "1,000");
    assert_eq!(quick_conversion(vec![1], 6, 100), "1,000,000");
    assert_eq!(quick_conversion(vec![1], 9, 100), "1,000,000,000");

    assert_eq!(quick_conversion(vec![1, 2, 3], -2, 0), "1.23e-2");
    assert_eq!(quick_conversion(vec![1, 2, 3], -1, 0), "1.23e-1");
    assert_eq!(quick_conversion(vec![1, 2, 3], 0, 0), "1.23");
    assert_eq!(quick_conversion(vec![1, 2, 3], 1, 0), "12.3"); // no e because all digits are visible till zero
    assert_eq!(quick_conversion(vec![1, 2, 3], 2, 0), "123"); // no e because all digits are visible till zero
    assert_eq!(quick_conversion(vec![1, 2, 3], 3, 0), "1.23e3");
    assert_eq!(quick_conversion(vec![1, 0, 0], 3, 0), "1e3");
    assert_eq!(quick_conversion(vec![0, 1], 1, 0), "1");
    assert_eq!(quick_conversion(vec![0, 0, 1], 2, 0), "1");

    assert_eq!(quick_conversion(vec![1, 2, 3], -2, 1), "1.23e-2");
    assert_eq!(quick_conversion(vec![1, 2, 3], -1, 1), "0.123");
    assert_eq!(quick_conversion(vec![1, 2, 3], 0, 1), "1.23");
    assert_eq!(quick_conversion(vec![1, 2, 3], 1, 1), "12.3");
    assert_eq!(quick_conversion(vec![1, 2, 3], 2, 1), "123"); // no e because all digits are visible till zero
    fn quick_round(base: Vec<u8>, round_to_decimals: usize) -> String {
        ScientificNumber::new(false, base, 0)
            .to_string(FormattingOptions::default().with_rounding(round_to_decimals))
    }
    assert_eq!(quick_round(vec![1, 2, 3, 4, 5, 6, 7, 8, 9], 1), "1");
    assert_eq!(quick_round(vec![1, 2, 3, 4, 5, 6, 7, 8, 9], 2), "1.2");
    assert_eq!(quick_round(vec![1, 2, 3, 4, 5, 6, 7, 8, 9], 3), "1.23");
    assert_eq!(quick_round(vec![1, 2, 3, 4, 5, 6, 7, 8, 9], 4), "1.235");
    assert_eq!(quick_round(vec![1, 2, 3, 4, 5, 6, 7, 8, 9], 5), "1.2346");
    assert_eq!(quick_round(vec![1, 2, 3, 4, 5, 6, 7, 8, 9], 6), "1.23457");
    assert_eq!(quick_round(vec![1, 2, 3, 4, 5, 6, 7, 8, 9], 7), "1.234568");
    assert_eq!(quick_round(vec![1, 2, 3, 4, 5, 6, 7, 8, 9], 8), "1.2345679");
    assert_eq!(quick_round(vec![1, 2, 3, 4, 5, 6, 7, 8, 9], 9), "1.23456789");
}

#[test]
fn scientific_strings_are_read_into_digits_and_exponent() {
    let n = ScientificNumber::from_scientific_string("1.25e3").unwrap();
    assert_eq!(n, ScientificNumber::new(false, vec![1, 2, 5], 3));
    let m = ScientificNumber::from_scientific_string("-1.5e-2").unwrap();
    assert_eq!(m, ScientificNumber::new(true, vec![1, 5], -2));
    let z = ScientificNumber::from_scientific_string("0.05e1").unwrap();
    assert_eq!(z, ScientificNumber::new(false, vec![5], -1));
    assert_eq!(ScientificNumber::from_scientific_string("7e+4").unwrap(), ScientificNumber::new(false, vec![7], 4));
}

#[test]
fn malformed_scientific_strings_are_refused() {
    assert!(ScientificNumber::from_scientific_string("125").is_none());
    assert!(ScientificNumber::from_scientific_string("1.2.5e3").is_none());
    assert!(ScientificNumber::from_scientific_string("12e3").is_none());
    assert!(ScientificNumber::from_scientific_string("1.2ex").is_none());
    assert!(ScientificNumber::from_scientific_string("e3").is_none());
    // a sign before a single digit is not accepted
    assert!(ScientificNumber::from_scientific_string("-5e3").is_none());
}

#[test]
fn exponents_are_read_as_i64() {
    let chars = |s: &str| s.chars().collect::<Vec<char>>();
    assert_eq!(parse_i64(&chars("x-42"), 1), Some(-42));
    assert_eq!(parse_i64(&chars("+7"), 0), Some(7));
    assert_eq!(parse_i64(&chars("9223372036854775807"), 0), Some(i64::MAX));
    assert_eq!(parse_i64(&chars("-9223372036854775808"), 0), Some(i64::MIN));
    assert_eq!(parse_i64(&chars("9223372036854775808"), 0), None);
    assert_eq!(parse_i64(&chars("-"), 0), None);
    assert_eq!(parse_i64(&chars("1a"), 0), None);
}

#[test]
fn a_negative_number_prints_as_minus_and_its_absolute_value() {
    let options = FormattingOptions::default();
    for (digits, exponent) in [(vec![1u8, 2, 3], 4i64), (vec![5u8], -3), (vec![9u8, 9, 9, 9, 9], 0), (vec![1u8, 2, 3, 4, 5, 6, 7, 8, 9], 3)] {
        let negative = ScientificNumber::new(true, digits.clone(), exponent).to_string(options);
        let positive = ScientificNumber::new(false, digits, exponent).to_string(options);
        assert_eq!(negative, format!("-{}", positive));
    }
}

#[test]
fn a_printed_scientific_text_reads_back() {
    let text: String = ScientificNumber::create_scientific_string(&vec![1, 2, 3], 4, false).into_iter().collect();
    assert_eq!(text, "1.23e4");
    assert_eq!(ScientificNumber::from_scientific_string(&text), Some(ScientificNumber::new(false, vec![1, 2, 3], 4)));
    let text: String = ScientificNumber::create_scientific_string(&vec![1, 5], -2, true).into_iter().collect();
    assert_eq!(text, "-1.5e-2");
    assert_eq!(ScientificNumber::from_scientific_string(&text), Some(ScientificNumber::new(true, vec![1, 5], -2)));
}
