use library::element::{fun, fun_expr, num, num_int, plus, pow, var, var_or_fun, Element, ExpressionFunType, ValueRange};
use library::insertion::InsertionElement;
use library::debug_text::camel_to_snake_case;

fn show(e: &Element) -> String {
    format!("{:?}", e)
}

#[test]
fn variable_is_replaced_by_its_value() {
    let mut e = plus(vec![var("x"), var("y")]);
    let ins = InsertionElement { name: "x".to_string(), parameters: None, formula: num_int(2) };
    assert_eq!(e.insert_symbol(&ins), Ok(()));
    assert_eq!(show(&e), show(&plus(vec![num_int(2), var("y")])));
}

#[test]
fn function_call_gets_the_formula_with_its_arguments() {
    let mut e = fun("f", vec![num_int(3)]);
    let ins = InsertionElement {
        name: "f".to_string(),
        parameters: Some(vec!["a".to_string()]),
        formula: pow(var("a"), num_int(2)),
    };
    assert_eq!(e.insert_symbol(&ins), Ok(()));
    assert_eq!(show(&e), show(&pow(num_int(3), num_int(2))));
}

#[test]
fn ambiguous_names_inside_operations_become_variables() {
    let mut e = plus(vec![var_or_fun("a"), var_or_fun("b")]);
    let ins = InsertionElement { name: "a".to_string(), parameters: None, formula: var_or_fun("c") };
    assert_eq!(e.insert_symbol(&ins), Ok(()));
    assert_eq!(show(&e), show(&plus(vec![var("c"), var("b")])));
}

#[test]
fn different_parameter_counts_are_an_error() {
    let mut e = fun("f", vec![num_int(1), num_int(2)]);
    let ins = InsertionElement { name: "f".to_string(), parameters: Some(vec!["a".to_string()]), formula: var("a") };
    let before = show(&e);
    assert_eq!(
        e.insert_symbol(&ins),
        Err("The function used in the formula and the supplied function have different parameter counts".to_string())
    );
    assert_eq!(show(&e), before);
}

#[test]
fn builtin_function_checks_the_argument_count() {
    let mut e = fun("sin", vec![num_int(1), num_int(2)]);
    let ins = InsertionElement {
        name: "sin".to_string(),
        parameters: Some(vec![]),
        formula: fun_expr(ExpressionFunType::Sin, vec![]),
    };
    assert_eq!(
        e.insert_symbol(&ins),
        Err("The function `sin` expects parameters, that match Exactly(1), but 2 parameters were provided".to_string())
    );
    let mut ok = fun("sin", vec![num_int(1)]);
    assert_eq!(ok.insert_symbol(&ins), Ok(()));
    assert_eq!(show(&ok), show(&fun_expr(ExpressionFunType::Sin, vec![num_int(1)])));
}

#[test]
fn call_of_an_expression_without_parameters_is_an_error() {
    let mut e = fun("g", vec![num_int(1)]);
    let ins = InsertionElement { name: "g".to_string(), parameters: None, formula: fun_expr(ExpressionFunType::Abs, vec![]) };
    assert_eq!(e.insert_symbol(&ins), Err("No arguments provided for insertion".to_string()));
}

#[test]
fn variable_with_a_function_insertion_does_not_match() {
    let mut e = var("x");
    let ins = InsertionElement { name: "x".to_string(), parameters: Some(vec!["a".to_string()]), formula: var("a") };
    assert_eq!(
        e.insert_symbol(&ins),
        Err("Insertion element and formula don't match (self: var(x), insert: { name: x, parameters: [a], formula: var(a) })"
            .to_string())
    );
}

#[test]
fn renaming_a_function() {
    let mut e = fun("f", vec![var("x")]);
    let ins = InsertionElement { name: "f".to_string(), parameters: None, formula: var_or_fun("g") };
    assert_eq!(e.insert_symbol(&ins), Ok(()));
    assert_eq!(show(&e), show(&fun("g", vec![var("x")])));
}

#[test]
fn debug_strings_of_elements() {
    let e = plus(vec![var("x"), num("0.5"), pow(var_or_fun("y"), num_int(-2))]);
    assert_eq!(e.get_debug_string(), "add(var(x), num(rat(1/2)), pow(var_or_fun(y), num(rat(-2))))");
    let f = fun_expr(ExpressionFunType::AssertValueRange(ValueRange::PositiveOrZero), vec![num_int(3)]);
    assert_eq!(f.get_debug_string(), "fun_with_expr:check_positiveorzero(=1 params, [num(rat(3))])");
    let g = fun_expr(ExpressionFunType::Max, vec![]);
    assert_eq!(g.get_debug_string(), "fun_with_expr:max(>=1 params, [])");
}

#[test]
fn camel_case_to_snake_case() {
    assert_eq!(camel_to_snake_case("SinWithRadians"), "sin_with_radians");
    assert_eq!(camel_to_snake_case("Log10"), "log10");
    assert_eq!(camel_to_snake_case("already_snake"), "already_snake");
    assert_eq!(ExpressionFunType::SinWithRadians.display_name(), "sin_with_radians");
}
