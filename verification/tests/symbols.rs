use library::signature::Signature;
use library::symbols::Signatures;

#[test]
fn test_symbols() {
    let mut all = Signatures::new_empty();
    assert_eq!(all.add_symbol_from_string("fun(a,b)=a+b"), Ok(()));
    assert!(matches!(all.add_symbol_from_string("fun(a,b)=a+b"), Err(_)));
    assert!(matches!(all.add_symbol_from_string("fun2(a,b,c)=fun(a,b)+c"), Ok(())));
}

#[test]
fn defined_function_gets_its_parameter_signatures() {
    let mut all = Signatures::new_empty();
    assert_eq!(all.add_symbol_from_string("fun(a,b)=a+b"), Ok(()));
    assert_eq!(all.len(), 1);
    assert_eq!(all.entries[0].0, "fun");
    assert_eq!(
        format!("{:?}", all.entries[0].1),
        format!("{:?}", Signature::Function(vec![Signature::Number, Signature::Number]))
    );
}

#[test]
fn redefinition_is_refused_with_the_name() {
    let mut all = Signatures::new_empty();
    assert_eq!(all.add_symbol_from_string("x=2"), Ok(()));
    assert_eq!(all.add_symbol_from_string("x=3"), Err("The formula x is already defined".to_string()));
    assert_eq!(all.len(), 1);
    assert_eq!(format!("{:?}", all.entries[0].1), "Number");
}

#[test]
fn text_without_equals_sign_is_refused() {
    let mut all = Signatures::new_empty();
    assert_eq!(all.add_symbol_from_string("fun(a)"), Err("String doesn't contain '='".to_string()));
    assert_eq!(all.len(), 0);
}

#[test]
fn left_side_must_declare_a_name() {
    let mut all = Signatures::new_empty();
    assert_eq!(all.add_symbol_from_string("1=2"), Err("Invalid formula signature provided".to_string()));
}

#[test]
fn unknown_symbols_in_the_formula_are_reported() {
    let mut all = Signatures::new_empty();
    assert_eq!(
        all.add_symbol_from_string("f(a)=a+y"),
        Err("The formula f requires the following elements to be defined: {\"y\": Number}".to_string())
    );
    assert_eq!(all.len(), 0);
}

#[test]
fn call_with_wrong_arity_is_incompatible() {
    let mut all = Signatures::new_empty();
    assert_eq!(all.add_symbol_from_string("fun(a,b)=a+b"), Ok(()));
    assert_eq!(
        all.add_symbol_from_string("g(x)=fun(x)"),
        Err("The signature of fun is not compatible with the already defined signature: undefined: Function([NumberOrFunction]) vs defined: Function([Number, Number])".to_string())
    );
    assert_eq!(all.len(), 1);
}

#[test]
fn needed_elements_of_a_formula() {
    let e = library::element::Element::parse("f(x)+y*2").unwrap();
    let needed = Signatures::generate_needed_elements_of_formula(&e).unwrap();
    assert_eq!(needed.len(), 3);
    assert!(needed.contains("f"));
    assert!(needed.contains("x"));
    assert!(needed.contains("y"));
}

#[test]
fn a_signature_could_be_only_a_more_specific_one() {
    use_could_be();
}

fn use_could_be() {
    assert!(!library::signature::Signature::Number.could_be(&library::signature::Signature::NumberOrFunction));
    assert!(library::signature::Signature::NumberOrFunction.could_be(&library::signature::Signature::Number));
    assert!(library::signature::Signature::Number.could_be(&library::signature::Signature::Number));
    assert!(!library::signature::Signature::Number.could_be(&library::signature::Signature::FunctionNOrMoreParams(1)));
}
