use library::element::{fun_expr, mul, neg, num, num_expr, num_int, plus, pow, var, Element, ExpressionFunType, ExpressionNumType};
use library::evaluation::{sin_radians, DynamicResult};
use library::number::Number;
use library::outcomes::{FormattedCalculationOutput, FormulaEvaluationError};
use library::printing::FormattingOptions;
use library::rational::{rational_from_i64};

fn fraction(a: i64, b: i64) -> library::rational::Rational {
    library::number::Number::Rational(library::rational::rational_from_i64(a))
        .div(&library::number::Number::Rational(library::rational::rational_from_i64(b)), 64)
        .get_exact_rational()
        .unwrap()
}


const P: usize = 1024;

fn value(e: &Element) -> String {
    e.eval(P).unwrap().to_string(FormattingOptions::default())
}

#[test]
fn sums_products_and_powers_evaluate_exactly() {
    assert_eq!(value(&plus(vec![num_int(1), mul(vec![num_int(2), num_int(3)])])), "7");
    assert_eq!(value(&pow(num_int(2), num_int(10))), "1,024");
    assert_eq!(value(&neg(num("0.5"))), "-0.5");
    assert!(e_exact(&plus(vec![num("0.1"), num("0.2")])));
}

fn e_exact(e: &Element) -> bool {
    e.eval(P).unwrap().is_exact()
}

#[test]
fn a_zero_factor_makes_the_product_zero() {
    let e = mul(vec![num_int(0), fun_expr(ExpressionFunType::Sin, vec![num_int(1)])]);
    assert_eq!(value(&e), "0");
}

#[test]
fn unexpanded_and_unparsed_elements_are_errors() {
    assert!(matches!(var("x").eval(P), Err(FormulaEvaluationError::UnexpandedElements)));
    assert!(matches!(Element::String("?".to_string()).eval(P), Err(FormulaEvaluationError::UnparsedElements)));
    let bad = fun_expr(ExpressionFunType::Rem, vec![num_int(1)]);
    assert!(matches!(bad.eval(P), Err(FormulaEvaluationError::FunctionCallWithInvalidArgumentCount)));
}

#[test]
fn calculator_functions() {
    assert_eq!(value(&fun_expr(ExpressionFunType::Rem, vec![num_int(-1), num_int(2)])), "1");
    assert_eq!(value(&fun_expr(ExpressionFunType::Abs, vec![num_int(-123)])), "123");
    assert_eq!(value(&fun_expr(ExpressionFunType::Avg, vec![num_int(1), num_int(2), num_int(3)])), "2");
    assert_eq!(value(&fun_expr(ExpressionFunType::Max, vec![num_int(1), num_int(2), num_int(3)])), "3");
    assert_eq!(value(&fun_expr(ExpressionFunType::Min, vec![num_int(1), num_int(2), num_int(3)])), "1");
    assert_eq!(value(&fun_expr(ExpressionFunType::Sum, vec![num_int(1), num_int(2), num_int(3)])), "6");
    assert_eq!(value(&fun_expr(ExpressionFunType::Sum, vec![])), "0");
    assert_eq!(value(&fun_expr(ExpressionFunType::Median, vec![num_int(2), num_int(3), num_int(4), num_int(1)])), "2.5");
    assert_eq!(value(&fun_expr(ExpressionFunType::Floor, vec![num("123.456")])), "123");
    assert_eq!(value(&fun_expr(ExpressionFunType::Ceil, vec![num("123.456")])), "124");
    assert_eq!(value(&fun_expr(ExpressionFunType::Fac, vec![num_int(5)])), "120");
    assert_eq!(value(&fun_expr(ExpressionFunType::Sin, vec![num_int(0)])), "0");
    assert_eq!(value(&num_expr(ExpressionNumType::Pi)), "3.14159265");
}

#[test]
fn sine_of_multiples_of_a_quarter_turn() {
    let q = |n: i64, d: i64| fraction(n, d);
    let show = |n: Number| n.to_string(FormattingOptions::default());
    assert_eq!(show(sin_radians(&q(4, 1), P)), "0");
    assert_eq!(show(sin_radians(&q(1, 1), P)), "1");
    assert_eq!(show(sin_radians(&q(-1, 1), P)), "-1");
    assert_eq!(show(sin_radians(&q(1, 3), P)), "0.5");
    assert_eq!(show(sin_radians(&q(-1, 3), P)), "-0.5");
    assert_eq!(show(sin_radians(&q(2, 3), P)), "0.866025404");
    assert_eq!(show(sin_radians(&q(5, 1), P)), "1");
    assert!(sin_radians(&q(1, 3), P).is_exact());
}

#[test]
fn dynamic_precision_ends_exact_or_stable() {
    let exact = plus(vec![num_int(1), num_int(2)]).eval_dynamic_precision(64, 1024).unwrap();
    assert!(exact.is_exact());
    assert_eq!(exact.as_i32(), Some(3));
    let float = fun_expr(ExpressionFunType::Sin, vec![num_int(1)]).eval_dynamic_precision(64, 1024).unwrap();
    assert!(!float.is_exact());
    assert!(matches!(float, DynamicResult::Checked { .. }));
    assert_eq!(float.as_i32(), None);
}

#[test]
fn detailed_result_texts() {
    let options = FormattingOptions::default();
    let third = mul(vec![num_int(1), pow(num_int(3), num_int(-1))]).eval_dynamic_precision(64, 1024).unwrap();
    match third.to_string_detailed(options) {
        FormattedCalculationOutput::Exact { result, has_rounded } => {
            assert_eq!(result, "0.333333333");
            assert!(has_rounded);
        },
        _ => panic!("expected an exact result"),
    }
    let sine = fun_expr(ExpressionFunType::Sin, vec![num_int(1)]).eval_dynamic_precision(64, 1024).unwrap();
    match sine.to_string_detailed(options.with_rounding(5)) {
        FormattedCalculationOutput::ApproximationChecked { result, precision_bits } => {
            assert_eq!(result, "0.84147");
            assert!(precision_bits >= 64);
        },
        _ => panic!("expected a checked approximation"),
    }
}
