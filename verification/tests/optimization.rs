use library::element::{
    fun_expr, inv, mul, nan, neg, num, num_expr, num_int, plus, pow, var, Element, ExpressionFunType, ExpressionNumType,
};

fn show(e: &Element) -> String {
    format!("{:?}", e)
}

fn optimized(mut e: Element) -> Element {
    e.optimize_and_reduce();
    e
}

fn check(input: Element, expected: Element) {
    let got = optimized(input);
    assert_eq!(show(&got), show(&expected));
}

fn is_nan(e: &Element) -> bool {
    matches!(e, Element::Number(n) if n.is_nan())
}

#[test]
fn test_optimize_new() {
    // double negation
    check(neg(neg(var("a"))), var("a"));
    // a sum drops zeroes completely
    check(plus(vec![num_int(0), num_int(0)]), num_int(0));
    // a sum reduces to its single element once the zeroes are gone
    check(plus(vec![num_int(0), var("a"), num_int(0)]), var("a"));
    // a sum with an additive inverse gives 0
    check(plus(vec![var("a"), neg(var("a"))]), num_int(0));
    // additive inverses and another term
    check(plus(vec![var("a"), neg(var("a")), var("b")]), var("b"));
    // several pairs
    check(plus(vec![var("a"), neg(var("a")), var("b"), var("c"), neg(var("c"))]), var("b"));
    // a sum passes NaN on
    let f = optimized(plus(vec![var("x"), nan(None), var("y")]));
    assert!(is_nan(&f));
    // a product passes NaN on
    let f = optimized(mul(vec![var("x"), nan(None), var("y")]));
    assert!(is_nan(&f));
    // a product with 0 is 0
    check(mul(vec![var("a"), num_int(0), var("b")]), num_int(0));
    // a product drops an inverse pair -> 1
    check(mul(vec![var("a"), inv(var("a"))]), num_int(1));
    // an inverse pair dropped, down to a single element
    check(mul(vec![var("a"), var("b"), inv(var("a"))]), var("b"));
    // 0 wins over inverse factors
    check(mul(vec![num_int(0), var("a"), inv(var("a"))]), num_int(0));
    // base 1
    check(pow(num_int(1), var("x")), num_int(1));
    // exponent 1
    check(pow(var("a"), num_int(1)), var("a"));
    // 0^-1 = NaN (division by zero)
    check(pow(num_int(0), num_int(-1)), nan(Some(library::number::FloatError::DivisionByZero)));
    // 1/0 = NaN (division by zero)
    check(mul(vec![num_int(1), pow(num_int(0), num_int(-1))]), nan(Some(library::number::FloatError::DivisionByZero)));
    // 0/0 = NaN (division by zero)
    check(mul(vec![num_int(0), pow(num_int(0), num_int(-1))]), nan(Some(library::number::FloatError::DivisionByZero)));
    // nested exponents are merged
    check(pow(pow(num_int(4), num_int(2)), num_int(3)), pow(num_int(4), num_int(6)));
    // several nested exponents
    check(pow(pow(pow(var("a"), num_int(2)), num_int(3)), num_int(4)), pow(var("a"), num_int(24)));
    // exponent 1 stops further merging
    check(pow(pow(var("a"), num_int(2)), num_int(1)), pow(var("a"), num_int(2)));
    // -(-a)*1 + (0+b) + c*(d*0) => a+b
    check(
        plus(vec![
            mul(vec![neg(neg(var("a"))), num_int(1)]),
            plus(vec![num_int(0), var("b")]),
            mul(vec![var("c"), mul(vec![var("d"), num_int(0)])]),
        ]),
        plus(vec![var("a"), var("b")]),
    );
    // x^0 + y*1 => 1 + y
    check(plus(vec![pow(var("x"), num_int(0)), mul(vec![var("y"), num_int(1)])]), plus(vec![num_int(1), var("y")]));
    // (a+b)+(c+d) -> a+b+c+d
    check(
        plus(vec![plus(vec![var("a"), var("b")]), plus(vec![var("c"), var("d")])]),
        plus(vec![var("a"), var("b"), var("c"), var("d")]),
    );
    // (a*b)*(c*d) -> a*b*c*d
    check(
        mul(vec![mul(vec![var("a"), var("b")]), mul(vec![var("c"), var("d")])]),
        mul(vec![var("a"), var("b"), var("c"), var("d")]),
    );
    check(mul(vec![var("a"), inv(var("a"))]), num_int(1));
    // 33 * (2*33)^-1
    check(mul(vec![num_int(33), pow(mul(vec![num_int(2), num_int(33)]), neg(num_int(1)))]), num("0.5"));
    check(mul(vec![neg(num_int(2))]), num_int(-2));
    check(mul(vec![neg(num_int(2)), neg(num_int(2))]), num_int(4));
}

#[test]
fn negated_factor_moves_out_of_a_product() {
    // the sign of a negated factor leaves the product when there is no number to take it
    check(mul(vec![neg(var("a")), var("b")]), neg(mul(vec![var("a"), var("b")])));
    // with a number, the sign goes into the number
    check(mul(vec![neg(var("a")), num_int(3)]), mul(vec![num_int(-3), var("a")]));
}

#[test]
fn negative_base_to_even_power_loses_its_sign() {
    check(pow(num_int(-3), num_int(2)), pow(num_int(3), num_int(2)));
}

#[test]
fn zero_to_the_power_of_zero_is_one() {
    check(pow(num_int(0), num_int(0)), num_int(1));
    check(pow(num_int(0), num_int(5)), num_int(0));
}

#[test]
fn remainder_of_exact_numbers_is_not_negative() {
    check(fun_expr(ExpressionFunType::Rem, vec![num_int(-1), num_int(2)]), num_int(1));
    check(fun_expr(ExpressionFunType::Rem, vec![num_int(7), num_int(3)]), num_int(1));
    check(fun_expr(ExpressionFunType::Rem, vec![num("5.5"), num_int(2)]), num("1.5"));
}

#[test]
fn remainder_by_zero_leaves_the_element_unchanged() {
    let e = fun_expr(ExpressionFunType::Rem, vec![num_int(1), num_int(0)]);
    let before = show(&e);
    assert_eq!(show(&optimized(e)), before);
}

#[test]
fn sine_of_multiples_of_pi() {
    let pi = || num_expr(ExpressionNumType::Pi);
    check(fun_expr(ExpressionFunType::Sin, vec![mul(vec![num_int(2), pi()])]), num_int(0));
    check(fun_expr(ExpressionFunType::Sin, vec![pi()]), num_int(0));
    check(fun_expr(ExpressionFunType::Sin, vec![mul(vec![num("0.5"), pi()])]), num_int(1));
    // -pi/2 is 3/2 of pi after the remainder: the sine of that is left to the evaluation
    check(
        fun_expr(ExpressionFunType::Sin, vec![mul(vec![num("-0.5"), pi()])]),
        fun_expr(ExpressionFunType::SinWithRadians, vec![num_int(3)]),
    );
    check(fun_expr(ExpressionFunType::Sin, vec![mul(vec![num("1.5"), pi()])]), fun_expr(ExpressionFunType::SinWithRadians, vec![num_int(3)]));
    check(fun_expr(ExpressionFunType::Sin, vec![mul(vec![num_int(10), pi()])]), num_int(0));
}

#[test]
fn sine_of_other_values_is_taken_in_radians() {
    let pi = || num_expr(ExpressionNumType::Pi);
    let multiple = mul(vec![var("x"), pow(pi(), num_int(-1))]);
    check(
        fun_expr(ExpressionFunType::Sin, vec![var("x")]),
        fun_expr(
            ExpressionFunType::SinWithRadians,
            vec![mul(vec![num_int(2), fun_expr(ExpressionFunType::Rem, vec![multiple, num_int(2)])])],
        ),
    );
}

#[test]
fn parsed_formulas_are_well_formed_and_simplify() {
    let input = "2*x*0";
    assert!(Element::parse_is_defined(input));
    let mut e = Element::parse(input).unwrap();
    assert!(e.is_well_formed());
    e.optimize_and_reduce();
    assert_eq!(show(&e), show(&num_int(0)));
}

#[test]
fn a_product_flattened_into_another_is_combined_on_the_next_pass() {
    // 2*(3*x): the inner product keeps its own number, so a first pass gives 2*3*x
    let once = optimized(mul(vec![num_int(2), mul(vec![num_int(3), var("x")])]));
    assert_eq!(show(&once), show(&mul(vec![num_int(2), num_int(3), var("x")])));
    let twice = optimized(once);
    assert_eq!(show(&twice), show(&mul(vec![num_int(6), var("x")])));
}
