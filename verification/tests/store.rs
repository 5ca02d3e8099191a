use library::element::{fun_expr, mul, num_int, plus, var, Element, ExpressionFunType};
use library::benchmarking::Benchmark;
use library::evaluation::DynamicResult;
use library::outcomes::{RunError, RunOptions, RunPrecision};
use library::insertion::InsertionElement;
use library::printing::FormattingOptions;
use library::store::{FormulaStore, NamedSymbol, RunResult, RunSuccess};

fn show(e: &Element) -> String {
    format!("{:?}", e)
}

fn add(store: &mut FormulaStore, text: &str) -> Result<NamedSymbol, String> {
    store.add_symbol_from_string(text, false).expect("the definition should be processed")
}

fn check_add(store: &mut FormulaStore, text: &str, expected: &str) {
    assert_eq!(add(store, text).map(|s| s.name).ok(), Some(expected.to_owned()));
}

fn evaluate(store: &FormulaStore, text: &str) -> Result<DynamicResult, String> {
    store
        .eval_new(text, RunPrecision::default(), &mut Benchmark::new("Evaluation"))
        .expect("the evaluation should end")
}

fn quick_eval(store: &FormulaStore, text: &str, expected: i32) {
    let result = evaluate(store, text).unwrap();
    assert_eq!(result.as_i32(), Some(expected), "{}", text);
}

fn quick_eval2(store: &FormulaStore, text: &str, expected: &str) {
    let result = evaluate(store, text).unwrap();
    assert_eq!(result.to_string_detailed(FormattingOptions::default()).get_string(), expected, "{}", text);
}

#[test]
fn test_add_symbols() {
    let mut all = FormulaStore::new_empty();
    check_add(&mut all, "fun(a,b)=a+b", "fun");
    assert!(add(&mut all, "fun(a,b)=a+b").is_err());
    check_add(&mut all, "fun2(a,b,c)=fun(a,b)+c", "fun2");
    check_add(&mut all, "fun3(some_fun)=fun(1,2)+some_fun(3)", "fun3");
}

#[test]
fn storing_test_get_insertion_element_expanded() {
    let mut store = FormulaStore::new_empty();
    add(&mut store, "f(i)=i^2").unwrap();
    add(&mut store, "g(x)=f(x+1)").unwrap();
    add(&mut store, "h(x)=g(x)-3").unwrap();
    let insert = store.get_insertion_element_expanded(&"h".to_string()).unwrap();
    assert_eq!(insert.name, "h");
}

#[test]
fn storing_test_insert_formula() {
    let mut store = FormulaStore::new_empty();
    add(&mut store, "fun(f,x,y)=f(x,y)").unwrap();
    add(&mut store, "add(x,y)=x+y").unwrap();
    add(&mut store, "fun2(x,y)=fun(add, x, y)").unwrap();
    let insert = store.get_insertion_element_expanded(&"fun2".to_string()).unwrap();
    assert_eq!(insert.name, "fun2");
    assert_eq!(insert.parameters, Some(vec!["x".to_owned(), "y".to_owned()]));
    assert_eq!(show(&insert.formula), show(&plus(vec![var("x"), var("y")])));
}

#[test]
fn storing_test_insert_symbols() {
    let fun = Element::parse("x+y").unwrap();

    let mut formula = Element::parse("f(12, f(1, 2))").unwrap();
    formula
        .insert_symbol(&InsertionElement {
            name: "f".to_owned(),
            parameters: Some(vec!["x".to_owned(), "y".to_owned()]),
            formula: fun,
        })
        .unwrap();
    assert_eq!(show(&formula), show(&plus(vec![num_int(12), plus(vec![num_int(1), num_int(2)])])));

    let mut formula = Element::parse("f(3)").unwrap();
    formula
        .insert_symbol(&InsertionElement {
            name: "f".to_owned(),
            parameters: Some(vec!["x".to_owned()]),
            formula: fun_expr(ExpressionFunType::Abs, vec![mul(vec![var("x"), num_int(2)])]),
        })
        .unwrap();
    if let Element::FunctionWithExpression { expr_value, arguments } = &formula {
        assert_eq!(arguments.len(), 1);
        assert_eq!(show(&arguments[0]), show(&mul(vec![num_int(3), num_int(2)])));
        assert_eq!(expr_value, &ExpressionFunType::Abs);
    } else {
        panic!("Expected function with expression");
    }

    let mut formula = Element::parse("f(3)").unwrap();
    formula
        .insert_symbol(&InsertionElement {
            name: "f".to_owned(),
            parameters: Some(vec![]),
            formula: fun_expr(ExpressionFunType::Abs, vec![mul(vec![var("x"), num_int(2)])]),
        })
        .unwrap();
    if let Element::FunctionWithExpression { expr_value, arguments } = &formula {
        assert_eq!(arguments.len(), 1);
        assert_eq!(show(&arguments[0]), show(&num_int(3)));
        assert_eq!(expr_value, &ExpressionFunType::Abs);
    } else {
        panic!("Expected function with expression");
    }
}

#[test]
fn storing_test_storing() {
    let mut store = FormulaStore::new_empty();

    check_add(&mut store, "f=123", "f");
    assert!(add(&mut store, "1=1").is_err());
    assert!(add(&mut store, "f=1").is_err());
    assert!(add(&mut store, "x").is_err());

    assert!(add(&mut store, "g(l)=x^2").is_err());
    check_add(&mut store, "g(g)=g^2", "g");
    assert!(add(&mut store, "g=2").is_err());

    check_add(&mut store, "f2(f)=f*3", "f2");
    assert!(add(&mut store, "f3=f2()").is_err());

    quick_eval(&store, "f", 123);
    assert!(evaluate(&store, "f()").is_err());
    assert!(evaluate(&store, "g()").is_err());
    quick_eval(&store, "g(2)", 4);
    quick_eval(&store, "f2(2)", 6);

    check_add(&mut store, "add(a,b)=a+b", "add");
    check_add(&mut store, "mul(a,b)=a*b", "mul");
    check_add(&mut store, "div(a,b)=a/b", "div");
    quick_eval(&store, "add(1,2)", 3);

    check_add(&mut store, "run(a, b, fun)=fun(a, b)", "run");
    quick_eval(&store, "run(1, 2, add)", 3);
    quick_eval(&store, "run(1, 2, mul)", 2);
    quick_eval2(&store, "run(1, 2, div)", "0.5");
}

#[test]
fn evaluation_test_eval_formula_store() {
    let mut store = FormulaStore::new_empty();
    add(&mut store, "f(x)=x^2").unwrap();
    add(&mut store, "a=4").unwrap();
    assert_eq!(
        evaluate(&store, "f(a)").unwrap().to_string_detailed(FormattingOptions::default()).get_string(),
        "16"
    );
    assert!(evaluate(&store, "f").is_err());
}

#[test]
fn a_dry_run_leaves_the_store_unchanged() {
    let mut store = FormulaStore::new_empty();
    let named = store.add_symbol_from_string("f(x)=x+1", true).unwrap().unwrap();
    assert_eq!(named.name(), "f");
    assert!(store.get_symbol("f").is_none());
    check_add(&mut store, "f(x)=x+1", "f");
    assert!(store.get_symbol("f").is_some());
}

#[test]
fn a_definition_without_equals_sign_is_refused() {
    let mut store = FormulaStore::new_empty();
    assert_eq!(add(&mut store, "f").err(), Some("String doesn't contain '='".to_string()));
}

#[test]
fn a_symbol_defined_twice_is_refused() {
    let mut store = FormulaStore::new_empty();
    check_add(&mut store, "a=1", "a");
    assert_eq!(add(&mut store, "a=2").err(), Some("The formula a is already defined".to_string()));
}

#[test]
fn a_formula_that_needs_undefined_symbols_is_refused() {
    let mut store = FormulaStore::new_empty();
    let e = add(&mut store, "g(x)=undefined(x)").err().unwrap();
    assert!(e.starts_with("The formula requires the following elements to be defined: "), "{}", e);
}

#[test]
fn a_stored_function_keeps_its_parameters_and_formula() {
    let mut store = FormulaStore::new_empty();
    add(&mut store, "f(a, b)=a*b+1").unwrap();
    let symbol = store.get_symbol("f").unwrap();
    assert_eq!(symbol.params(), Some(&vec!["a".to_string(), "b".to_string()]));
    assert_eq!(show(symbol.formula()), show(&Element::parse("a*b+1").unwrap()));
}

#[test]
fn the_default_symbols_are_defined() {
    let store = FormulaStore::new_with_default_symbols().unwrap();
    for name in ["sin", "cos", "avg", "sum", "pi", "e", "deg", "rad", "sqrt", "binomial"] {
        assert!(store.get_symbol(name).is_some(), "{}", name);
    }
    quick_eval(&store, "binomial(5, 2)", 10);
    quick_eval(&store, "sqrt(16)", 4);
    quick_eval(&store, "sum(1, 2, 3)", 6);
}

#[test]
fn defining_the_default_symbols_twice_fails_at_the_first() {
    let mut store = FormulaStore::new_with_default_symbols().unwrap();
    assert_eq!(store.define_default_symbols(), Some(Err("The formula sin is already defined".to_string())));
}

#[test]
fn an_unknown_name_cannot_be_expanded() {
    let store = FormulaStore::new_empty();
    let mut formula = Element::parse("q+1").unwrap();
    assert_eq!(store.expand_formula(&mut formula, &Vec::new()), Some(Err("Symbol `q` not found".to_string())));
    assert!(store.get_insertion_element_expanded(&"q".to_string()).is_err());
}

#[test]
fn an_evaluation_records_its_steps() {
    let mut store = FormulaStore::new_empty();
    add(&mut store, "f(x)=x*3").unwrap();
    let mut b = Benchmark::new("run");
    let result = store.eval_new("f(2)+1", RunPrecision::Fixed(64), &mut b).unwrap().unwrap();
    assert_eq!(result.as_i32(), Some(7));
    let names: Vec<&str> = b.tasks.iter().map(|t| t.name.as_str()).collect();
    assert_eq!(names, vec!["Parsing", "Expansion and Optimization", "Evaluation"]);
    let inner: Vec<&str> = b.tasks[1].sub_tasks.as_ref().unwrap().iter().map(|t| t.name.as_str()).collect();
    assert_eq!(inner, vec!["Formula Optimization", "Expansion", "Formula Optimization"]);
}

#[test]
fn evaluation_errors_name_what_failed() {
    let store = FormulaStore::new_empty();
    let mut b = Benchmark::new("run");
    assert_eq!(store.eval_new("y+1", RunPrecision::default(), &mut b).unwrap().err(), Some("Symbol `y` not found".to_string()));
    let e = store.eval_new("a,b,c", RunPrecision::default(), &mut b).unwrap().err().unwrap();
    assert!(e.starts_with("Could not parse formula: "), "{}", e);
}

#[test]
fn test_expression_functions() {
    let store = &mut FormulaStore::new_with_default_symbols().unwrap();

    fn generate_fn_call(fun_name: &str, arg_count: usize) -> String {
        format!("{}({})", fun_name, vec!["0"; arg_count].join(","))
    }
    fn test_with_multiple_arg_counts(store: &FormulaStore, function_names: &[&str], expected: fn(usize) -> bool) {
        for function in function_names {
            for i in 0..5 {
                let call = generate_fn_call(function, i);
                assert_eq!(
                    store
                        .eval_new(&call, RunPrecision::default(), &mut Benchmark::new("Evaluate"))
                        .expect("the evaluation should end")
                        .map(|r| r.as_i32())
                        .is_ok(),
                    expected(i),
                    "{}",
                    call
                );
            }
        }
    }

    let functions_that_take_one_argument =
        ["sin", "cos", "tan", "sqrt", "abs", "log2", "log10", "ln", "floor", "ceil", "round"];
    let functions_that_take_zero_or_more_arguments = ["sum"];
    let functions_that_take_one_or_more_arguments = ["avg", "max", "min", "median"];

    test_with_multiple_arg_counts(store, &functions_that_take_one_argument, |i| i == 1);
    test_with_multiple_arg_counts(store, &functions_that_take_zero_or_more_arguments, |_| true);
    test_with_multiple_arg_counts(store, &functions_that_take_one_or_more_arguments, |i| i >= 1);

    quick_eval(store, "rem(-2, 2)", 0);
    quick_eval(store, "rem(-1, 2)", 1);
    quick_eval(store, "rem(0, 2)", 0);
    quick_eval(store, "rem(1, 2)", 1);
    quick_eval(store, "rem(2, 2)", 0);
    quick_eval(store, "abs(-123)", 123);
    quick_eval(store, "avg(1,2,3)", 2);
    quick_eval(store, "max(1,2,3)", 3);
    quick_eval(store, "min(1,2,3)", 1);
    quick_eval(store, "sum(1,2,3)", 6);
    quick_eval(store, "median(1,2,3)", 2);
    quick_eval2(store, "median(1,2,3,4)", "2.5");
    quick_eval2(store, "median(2,3,4,1)", "2.5");
    quick_eval2(store, "median(3,4,1,2)", "2.5");
    quick_eval2(store, "median(4,1,2,3)", "2.5");
    quick_eval2(store, "median(4,1,2,3)", "2.5");
    quick_eval(store, "min(1,2,3)", 1);
    quick_eval(store, "sum()", 0);
    quick_eval(store, "sum(0)", 0);
    quick_eval(store, "sum(0,0)", 0);
    quick_eval(store, "ceil(123.456)", 124);
    quick_eval(store, "floor(123.456)", 123);
    quick_eval(store, "floor(-123.456)", -124);

    quick_eval(store, "ceil(123.456)", 124);
    quick_eval(store, "ceil(-123.456)", -123);

    quick_eval(store, "round(123.456)", 123);
    quick_eval(store, "round(123.789)", 124);
    quick_eval(store, "round(-123.456)", -123);
    quick_eval(store, "round(-123.789)", -124);

    add(store, "f(x)=sin(x)").unwrap();
    assert!(add(store, "g(x)=undefined(x)").is_err());
    add(store, "g(x)=f(x)+cos(x)").unwrap();

    quick_eval(store, "f(0)", 0);
    quick_eval(store, "g(0)", 1);

    add(store, "good_sum(x,y) = sum(x,y) + sum(x,y)").unwrap();
    quick_eval(store, "good_sum(1,2)", 1 + 2 + 1 + 2);
    add(store, "weird_sum(x,y)=sum(x,y)+sum(x,y,1)").unwrap();
    quick_eval(store, "weird_sum(1,2)", 1 + 2 + 1 + 2 + 1);
}

#[test]
fn test_general_evaluation() {
    let mut store = FormulaStore::new_empty();
    assert_eq!(store.define_default_symbols(), Some(Ok(())));

    fn count_digits(s: &str) -> usize {
        let s: String = s.chars().filter(|c| c.is_ascii_digit()).collect();
        s.trim_start_matches("0").len()
    }
    fn check_calculation(store: &mut FormulaStore, formula: &str, output: &str, rounding: usize) {
        let fmt = FormattingOptions::default().with_rounding(rounding);
        let result = store
            .run_new(formula, RunOptions::default(), &mut Benchmark::new("Evaluate"))
            .expect("the run should end")
            .calculation_result()
            .unwrap()
            .to_string_detailed(fmt)
            .get_string()
            .clone();
        assert_eq!(result, output, "For formula '{}', expected '{}', but got '{}'", formula, output, result);
    }
    let mut check = |formula: &str, output: &str| check_calculation(&mut store, formula, output, count_digits(output));

    check(
        "((12 + 3) * sin(0.5)) / (2 ^ 3)",
        "0.89892288488288062551241487852919635265338131488862626597865614961037813",
    );
    check(
        "(cos(1) + (7 - (3 + 2))) * ( (10 / 2) + tan(0.25) )",
        "13.350157200603297892624056197885460276733113344409248718867431711422992",
    );
    check("( ( (25 / 5) + (2 ^ 3) ) * ( (sqrt(9) - 1) + sin(3.14 / 2) ) )", "38.99999587811385");
    check_calculation(&mut store, "(((3.5 + 1.5) * (2.2 - 0.2)) / ( (10 - 8) ^ 2 )) + cos(0)", "3.5", 100);
    let mut check = |formula: &str, output: &str| check_calculation(&mut store, formula, output, count_digits(output));
    check("( (100 - (50 / (5 + 5))) * ( (20 / (2 ^ 2)) + 3 ) ) - tan(1)", "758.4425922753451");
    check("( ( ( (2 + 3) * (4 + 1) ) - ( (9 - 7) * (8 / 2) ) ) ^ 2 ) + sin(2)", "289.9092974268257");
    check("( (ln(e ^ 2)) + (ln(1000) - ln(10)) + cos(2)) / ( (5 + 5) / 2 )", "1.23780466988819");
    check_calculation(&mut store, "((sin(1) ^ 2) + (cos(1) ^ 2)) * 42", "42", 100);
    let mut check = |formula: &str, output: &str| check_calculation(&mut store, formula, output, count_digits(output));
    check("(tan(0.5) + (sin(0.25) * cos(0.75))) / (2 ^ (1/2))", "0.5142965902018098");
    check(
        "((ln(100) + ln(e)) * (sin(3.14159) + cos(3.14159 / 2)))",
        "0.00002231073359233416412239818251719053988230415986601072682456917655910148",
    );

    check("1/0", "NaN");
    check("0/0", "NaN");
    check("sqrt(-1)", "NaN");
    check("ln(0)", "-Inf");
    check("ln(-10)", "NaN");
    check("0^0", "1");
    check("(1/0) - (1/0)", "NaN");
    check("0.1 + 0.2", "0.3");
    check("(-2)^0.5", "NaN");
    check("5 * - -2", "10");

    check("sin(123)", "-0.459903490689591251292435715293231810808580607381042580927742868029959");
    check("cos(123)", "-0.887968906691855428978322569442621150811865560981614293926181503346636");
    check("tan(123)", "0.5179274715856551831319240756392856882012784222828477932177680554912204");
    check("sqrt(123)", "11.090536506409417162051600102609932918463376742454020022877312839085002");
    check("sqrt(15129)", "123");
    check("log2(123)", "6.9425145053392398746197102514707252094534827932226660599060107680885122");
    check("log2(1024)", "10");
}

#[test]
fn a_run_defines_or_calculates() {
    let mut store = FormulaStore::new_empty();
    let mut b = Benchmark::new("run");
    match store.run_new("f(x)=x+1", RunOptions::default(), &mut b) {
        Some(RunResult::Success(RunSuccess::AddedSymbol(symbol))) => assert_eq!(symbol.name(), "f"),
        _ => panic!("expected a definition"),
    }
    match store.run_new("a=b=1", RunOptions::default(), &mut b) {
        Some(RunResult::Failure(RunError::ParseFailed(m))) => assert_eq!(m, "Only one '=' is allowed in a formula"),
        _ => panic!("expected a refusal"),
    }
    match store.run_new("f=2", RunOptions::default(), &mut b) {
        Some(RunResult::Failure(RunError::FailedToAddSymbol(m))) => assert_eq!(m, "The formula f is already defined"),
        _ => panic!("expected a refusal"),
    }
    let d = store.run_new("f(41)", RunOptions::default(), &mut b).unwrap().calculation_result().unwrap();
    assert_eq!(d.as_i32(), Some(42));
    match store.run_new("g(1)", RunOptions::default(), &mut b) {
        Some(RunResult::Failure(RunError::CalculationFailed(m))) => assert_eq!(m, "Symbol `g` not found"),
        _ => panic!("expected a failed calculation"),
    }
    let names: Vec<&str> = b.tasks.iter().map(|t| t.name.as_str()).collect();
    assert_eq!(names, vec!["Add symbol from string", "Add symbol from string", "Evaluation", "Evaluation"]);
}

#[test]
fn call_signatures_of_symbols() {
    let mut store = FormulaStore::new_with_default_symbols().unwrap();
    let named = add(&mut store, "fun(a, b)=a*b").unwrap();
    assert_eq!(named.get_signature_string(), "fun(a, b)");
    assert_eq!(store.get_symbol("pi").unwrap().get_signature_string("pi"), "pi");
    assert_eq!(store.get_symbol("avg").unwrap().get_signature_string("avg"), "avg(1..)");
    assert_eq!(store.get_symbol("sin").unwrap().get_signature_string("sin"), "sin()");
    let named = add(&mut store, "c=3").unwrap();
    assert_eq!(named.get_signature_string(), "c");
}

#[test]
fn expansion_leaves_only_the_ignored_names() {
    let mut store = FormulaStore::new_empty();
    add(&mut store, "f(x)=x^2").unwrap();
    let mut formula = Element::parse("f(a)+b").unwrap();
    let ignore = vec!["a".to_string(), "b".to_string()];
    assert_eq!(store.expand_formula(&mut formula, &ignore), Some(Ok(())));
    let text = formula.get_debug_string();
    assert!(!text.contains('f'), "{}", text);
    let mut formula = Element::parse("f(a)+b").unwrap();
    assert_eq!(store.expand_formula(&mut formula, &Vec::new()), Some(Err("Symbol `a` not found".to_string())));
}
