use library::element::{Element, fun, inv, mul, neg, num, plus, pow, var, var_or_fun};
use library::parsing::get_fun_name_end_of_string;

fn show(e: &Element) -> String {
    format!("{:?}", e)
}

fn check(input: &str, expected: Option<Element>) {
    assert!(Element::parse_is_defined(input), "parse undefined for {}", input);
    let parsed = Element::parse(input);
    match expected {
        Some(e) => match parsed {
            Ok(p) => assert_eq!(show(&p), show(&e), "input {}", input),
            Err(m) => panic!("{} failed to parse: {}", input, m),
        },
        None => assert!(parsed.is_err(), "input {} should not parse", input),
    }
}

#[test]
fn test_parsing_on_manual_formulas() {
    check(
        "((x/x-x)*-x^x)/(x-x)^-x",
        Some(mul(vec![
            mul(vec![plus(vec![mul(vec![var("x"), inv(var("x"))]), neg(var("x"))]), neg(pow(var("x"), var("x")))]),
            inv(pow(plus(vec![var("x"), neg(var("x"))]), neg(var("x")))),
        ])),
    );
    check(
        "(x/x+-x)*x^x",
        Some(mul(vec![plus(vec![mul(vec![var("x"), inv(var("x"))]), neg(var("x"))]), pow(var("x"), var("x"))])),
    );
    check("x/x/x/x", Some(mul(vec![var("x"), inv(var("x")), inv(var("x")), inv(var("x"))])));
    check("x/x-x", Some(plus(vec![mul(vec![var("x"), inv(var("x"))]), neg(var("x"))])));
    check("123", Some(num("123")));
    check("123-1", Some(plus(vec![num("123"), neg(num("1"))])));
    check("123--1", Some(plus(vec![num("123"), neg(neg(num("1")))])));
    check("x", Some(var_or_fun("x")));
    check("1+((2))", Some(plus(vec![num("1"), num("2")])));
    check("a,b,c", None);
    check("a(a,c)", Some(fun("a", vec![var_or_fun("a"), var_or_fun("c")])));
    check("a(a+c)", Some(fun("a", vec![plus(vec![var("a"), var("c")])])));
    check("m+a(a,b+c)", Some(plus(vec![var("m"), fun("a", vec![var_or_fun("a"), plus(vec![var("b"), var("c")])])])));
    check("fun3(some_fun)", Some(fun("fun3", vec![var_or_fun("some_fun")])));
    check("fun(12, fun(1, 2))", Some(fun("fun", vec![num("12"), fun("fun", vec![num("1"), num("2")])])));
    check("fun()", Some(fun("fun", vec![])));
    check("fun()-fun()", Some(plus(vec![fun("fun", vec![]), neg(fun("fun", vec![]))])));
    check(
        "1+2*3-4/2",
        Some(plus(vec![num("1"), mul(vec![num("2"), num("3")]), neg(mul(vec![num("4"), inv(num("2"))]))])),
    );
    check("var^--var2", Some(pow(var("var"), neg(neg(var("var2"))))));
    check("11-3-27/60", Some(plus(vec![num("11"), neg(num("3")), neg(mul(vec![num("27"), inv(num("60"))]))])));
}

#[test]
fn fun_name_end_takes_trailing_name_characters() {
    assert_eq!(get_fun_name_end_of_string("a+sin", false), "sin");
    assert_eq!(get_fun_name_end_of_string("2*f_2", false), "f_2");
    assert_eq!(get_fun_name_end_of_string("a+2x", false), "");
    assert_eq!(get_fun_name_end_of_string("a+2x", true), "2x");
    assert_eq!(get_fun_name_end_of_string("a+", true), "");
    assert_eq!(get_fun_name_end_of_string("", false), "");
}

#[test]
fn power_without_operands_is_an_error() {
    assert_eq!(Element::parse("(^)").err().unwrap(), "No element provided for power operation");
    assert_eq!(Element::parse("2^").map(|e| show(&e)).unwrap(), show(&num("2")));
}

#[test]
fn division_without_operands_is_undefined() {
    assert!(!Element::parse_is_defined("(/)"));
    assert!(!Element::parse_is_defined("1+/"));
    assert!(Element::parse_is_defined("1/2"));
}

#[test]
fn spaces_are_dropped_and_leftovers_reported() {
    assert_eq!(Element::parse("1 2").map(|e| show(&e)).unwrap(), show(&num("12")));
    assert_eq!(Element::parse("a,b,c").err().unwrap(), "Parts of the formula could not be parsed");
    assert_eq!(Element::parse("2×3").map(|e| show(&e)).unwrap(), show(&mul(vec![num("2"), num("3")])));
}

fn test_formula_parsing(input: &str) {
    let cow = Element::preprocess_string(input);
    let chars: Vec<char> = cow.chars().collect();
    let mut start = 0;
    let mut brackets = Element::resolve_brackets(&chars, &mut start);
    brackets.resolve_functions();
    brackets.process_plus();
    brackets.process_minus();
    brackets.process_multiply();
    brackets.process_divide();
    brackets.process_minus();
    let pow = brackets.process_pow();
    assert!(pow.is_ok(), "input {}", input);
    brackets.process_minus();
    brackets.process_numbers_and_variables();
    brackets.remove_unneeded_outer_brackets();
    brackets.convert_to_variables_where_possible();
    match Element::parse(input) {
        Ok(parsed) => assert_eq!(show(&brackets), show(&parsed), "input {}", input),
        Err(_) => assert!(brackets.anything_unparsed(), "input {}", input),
    }
}

#[test]
fn run_all_tests() {
    let inputs = [
        "((x/x-x)*-x^x)/(x-x)^-x",
        "(x/x+-x)*x^x",
        "x/x/x/x",
        "x/x-x",
        "123",
        "x",
        "1+((2))",
        "a,b,c",
        "a(a,c)",
        "a(a+c)",
        "m+a(a,b+c)",
    ];
    inputs.into_iter().for_each(test_formula_parsing);
}

#[test]
fn a_benchmarked_parse_records_each_step() {
    let mut b = library::benchmarking::Benchmark::new("parsing");
    let e = Element::parse_benched("1+2*x", &mut b).unwrap();
    assert_eq!(show(&e), show(&Element::parse("1+2*x").unwrap()));
    assert_eq!(b.name, "parsing");
    let names: Vec<&str> = b.tasks.iter().map(|t| t.name.as_str()).collect();
    assert_eq!(
        names,
        vec![
            "preprocess_string_minus",
            "convert_to_chars",
            "resolve_brackets",
            "resolve_functions",
            "process_plus",
            "process_minus",
            "process_multiply",
            "process_divide",
            "process_minus_2",
            "process_pow",
            "process_minus_3",
            "process_numbers_and_variables",
            "remove_unneeded_outer_brackets",
            "convert_to_variables_where_possible",
        ]
    );
    assert!(b.tasks.iter().all(|t| t.sub_tasks.is_none()));
}
