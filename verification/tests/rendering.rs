use library::element::{
    fun, fun_expr, mul, neg, num, num_expr, num_int, plus, pow, var, var_or_fun, Element, ExpressionFunType,
    ExpressionNumType,
};
use library::formula::Formula;
use library::number::{FloatValue, Number};
use library::printing::FormattingOptions;
use library::rational::{rational_from_i64};

fn fraction(a: i64, b: i64) -> library::rational::Rational {
    library::number::Number::Rational(library::rational::rational_from_i64(a))
        .div(&library::number::Number::Rational(library::rational::rational_from_i64(b)), 64)
        .get_exact_rational()
        .unwrap()
}


fn float(mantissa: u64, exponent: i32, negative: bool) -> Number {
    Number::Float(FloatValue::Finite { mantissa: vec![mantissa], bits: 64, negative, exponent, inexact: true })
}

#[test]
fn elements_print_as_formulas() {
    let e = plus(vec![num_int(1), mul(vec![num_int(2), var("x")])]);
    assert_eq!(e.get_string(), "1 + 2 * x");
    let e = mul(vec![plus(vec![var("a"), var("b")]), neg(var("c"))]);
    assert_eq!(e.get_string(), "(a + b) * -c");
    let e = pow(var("x"), num("0.5"));
    assert_eq!(e.get_string(), "x^0.5");
    let e = fun("f", vec![var_or_fun("y"), num_int(1000000)]);
    assert_eq!(e.get_string(), "f(y, 1,000,000)");
}

#[test]
fn exact_numbers_are_rounded_to_nine_digits() {
    let third = Number::Rational(fraction(1, 3));
    assert_eq!(Element::Number(third).get_string(), "0.333333333");
    let e = Element::Number(Number::Rational(fraction(-7, 2)));
    assert_eq!(e.get_string(), "-3.5");
}

#[test]
fn expression_elements_show_their_names() {
    let e = fun_expr(ExpressionFunType::Sin, vec![num_expr(ExpressionNumType::Pi)]);
    assert_eq!(e.get_string(), "fun_expr:sin(num_expr:pi)");
}

#[test]
fn unparsed_strings_become_variables() {
    let e = Element::String("??".to_string());
    assert_eq!(e.get_string(), "??");
    let f = Formula::from_element(&e, FormattingOptions::default(), true);
    match f {
        Formula::Variable(s) => assert!(s == "??" || s == "\u{1b}[31m??\u{1b}[0m"),
        _ => panic!("expected a variable"),
    }
}

#[test]
fn floats_print_by_their_decimal_digits() {
    let options = FormattingOptions::default();
    // 0.1b * 2^1 = 1, 0.1b * 2^0 = 0.5, 0.11b * 2^2 = 3
    assert_eq!(float(0x8000_0000_0000_0000, 1, false).to_string(options), "1");
    assert_eq!(float(0x8000_0000_0000_0000, 0, false).to_string(options), "0.5");
    assert_eq!(float(0x8000_0000_0000_0000, 0, true).to_string(options), "-0.5");
    assert_eq!(float(0xC000_0000_0000_0000, 2, false).to_string(options), "3");
    // 2^-60 has more places than the options print without an exponent
    assert_eq!(float(0x8000_0000_0000_0000, -59, false).to_string(options.with_rounding(3)), "8.67e-19");
}

#[test]
fn infinities_and_nan_print_as_floats_do() {
    let options = FormattingOptions::default();
    let inf = Number::Float(FloatValue::Infinite { negative: false });
    assert_eq!(inf.to_string(options), "Inf");
    let minus_inf = Number::Float(FloatValue::Infinite { negative: true });
    assert_eq!(minus_inf.to_string(options), "-Inf");
    assert_eq!(Number::nan(None).to_string(options), "NaN");
}
