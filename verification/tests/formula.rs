use library::formula::Formula;

fn n(s: &str) -> Formula {
    Formula::Number(s.to_string())
}

fn v(s: &str) -> Formula {
    Formula::Variable(s.to_string())
}

#[test]
fn sums_and_products_get_brackets_by_priority() {
    let f = Formula::Multiply(vec![Formula::Plus(vec![v("a"), v("b")]), v("c")]);
    assert_eq!(f.to_string(), "(a + b) * c");
    let g = Formula::Plus(vec![Formula::Multiply(vec![v("a"), v("b")]), n("2")]);
    assert_eq!(g.to_string(), "a * b + 2");
}

#[test]
fn powers_bracket_their_base_and_low_exponents() {
    let f = Formula::Pow(Box::new(v("x")), Box::new(n("2")));
    assert_eq!(f.to_string(), "x^2");
    let g = Formula::Pow(Box::new(Formula::Pow(Box::new(v("x")), Box::new(n("2")))), Box::new(Formula::Plus(vec![v("a"), n("1")])));
    assert_eq!(g.to_string(), "(x^2)^(a + 1)");
    let h = Formula::Pow(Box::new(v("x")), Box::new(Formula::Negate(Box::new(v("y")))));
    assert_eq!(h.to_string(), "x^-y");
}

#[test]
fn negations_and_divisions() {
    let f = Formula::Negate(Box::new(Formula::Plus(vec![v("a"), v("b")])));
    assert_eq!(f.to_string(), "-(a + b)");
    let g = Formula::Division(Box::new(Formula::Plus(vec![v("a"), v("b")])), Box::new(Formula::Multiply(vec![v("c"), v("d")])));
    assert_eq!(g.to_string(), "(a + b)/(c * d)");
    let h = Formula::Division(Box::new(v("a")), Box::new(Formula::Pow(Box::new(v("b")), Box::new(n("2")))));
    assert_eq!(h.to_string(), "a/b^2");
}

#[test]
fn functions_and_forced_brackets() {
    let f = Formula::Function { name: "f".to_string(), arguments: vec![v("x"), n("3")] };
    assert_eq!(f.to_string(), "f(x, 3)");
    let g = Formula::ForcedBrackets(vec![v("a"), n("1")]);
    assert_eq!(g.to_string(), "(a1)");
    assert_eq!(Formula::Plus(vec![v("a")]).get_priority(), 0);
    assert_eq!(v("a").get_priority(), 3);
}
