//! The expression tree of a formula, from unparsed text groups to fully expanded
//! operations, with its mathematical view.

use vstd::prelude::*;
use crate::number::{Number, FloatValue, FloatError, number_text};
use crate::rational::lowest_terms;

verus! {

/// Value ranges a number can be checked against.
#[derive(Debug, Copy, Clone, PartialEq, Eq, Structural)]
pub enum ValueRange {
    Positive,
    Negative,
    PositiveOrZero,
    NegativeOrZero,
    NotZero,
}

/// Numbers defined by an expression.
#[derive(Debug, Copy, Clone, PartialEq, Eq, Structural)]
pub enum ExpressionNumType {
    Pi,
    E,
}

/// Functions evaluated by the calculator itself.
#[derive(Debug, Copy, Clone, PartialEq, Eq, Structural)]
pub enum ExpressionFunType {
    Sin,
    SinWithRadians,
    Asin,
    Cos,
    Acos,
    Tan,
    Atan,
    Floor,
    Ceil,
    Round,
    Abs,
    Rem,
    Log2,
    Log10,
    Ln,
    Fac,
    Avg,
    Median,
    Max,
    Min,
    Sum,
    AssertValueRange(ValueRange),
}

/// A parameter count rule.
#[derive(Copy, Clone, Debug, PartialEq, Eq, Structural)]
pub enum ParamCount {
    Exactly(usize),
    AtLeast(usize),
}

impl ParamCount {
    pub open spec fn accepts(&self, n: nat) -> bool {
        match self {
            ParamCount::Exactly(k) => n == *k,
            ParamCount::AtLeast(k) => n >= *k,
        }
    }

    pub fn number_would_be_valid(&self, param_count: usize) -> (b: bool)
        ensures
            b == self.accepts(param_count as nat),
    {
        match self {
            ParamCount::Exactly(n) => param_count == *n,
            ParamCount::AtLeast(n) => param_count >= *n,
        }
    }
}

impl ExpressionFunType {
    pub open spec fn param_count_spec(&self) -> ParamCount {
        match self {
            ExpressionFunType::Rem => ParamCount::Exactly(2),
            ExpressionFunType::Avg | ExpressionFunType::Median | ExpressionFunType::Max
            | ExpressionFunType::Min => ParamCount::AtLeast(1),
            ExpressionFunType::Sum => ParamCount::AtLeast(0),
            _ => ParamCount::Exactly(1),
        }
    }

    pub fn get_param_count(&self) -> (p: ParamCount)
        ensures
            p == self.param_count_spec(),
    {
        match self {
            ExpressionFunType::Rem => ParamCount::Exactly(2),
            ExpressionFunType::Avg | ExpressionFunType::Median | ExpressionFunType::Max
            | ExpressionFunType::Min => ParamCount::AtLeast(1),
            ExpressionFunType::Sum => ParamCount::AtLeast(0),
            _ => ParamCount::Exactly(1),
        }
    }
}

#[derive(Debug)]
pub enum Element {
    // Unparsed elements
    /// Unparsed group of elements
    Brackets(Vec<Element>),
    /// Unparsed string
    String(String),

    // Unexpanded formula elements
    /// A function with a name and arguments
    Function { name: String, arguments: Vec<Element> },
    /// A variable with a name
    Variable(String),
    /// A variable, which could either be a number or a function
    VariableOrFunction(String),

    // Expanded formula elements
    /// A function with a stored evaluation expression
    FunctionWithExpression { arguments: Vec<Element>, expr_value: ExpressionFunType },
    /// A number defined by an expression
    NumberWithExpression { expr_value: ExpressionNumType },
    /// List of elements to add together
    Plus(Vec<Element>),
    /// List of elements to multiply together
    Multiply(Vec<Element>),
    /// Exponential operation (base^exponent)
    Pow(Box<Element>, Box<Element>),
    /// Negation of an element (e.g., -x)
    Negate(Box<Element>),
    /// A number
    Number(Number),
}

// ---------------------------------------------------------------------------
// Mathematical view
// ---------------------------------------------------------------------------

pub enum FloatView {
    Finite(Seq<u64>, usize, bool, i32, bool),
    Infinite(bool),
    NaN(Option<FloatError>),
}

pub enum NumberView {
    /// numerator and denominator, in lowest terms
    Rational(int, int),
    Float(FloatView),
}

pub enum ElementView {
    Brackets(Seq<ElementView>),
    String(Seq<char>),
    Function(Seq<char>, Seq<ElementView>),
    Variable(Seq<char>),
    VariableOrFunction(Seq<char>),
    FunctionWithExpression(Seq<ElementView>, ExpressionFunType),
    NumberWithExpression(ExpressionNumType),
    Plus(Seq<ElementView>),
    Multiply(Seq<ElementView>),
    Pow(Box<ElementView>, Box<ElementView>),
    Negate(Box<ElementView>),
    Number(NumberView),
}

pub open spec fn float_view(f: FloatValue) -> FloatView {
    match f {
        FloatValue::Finite { mantissa, bits, negative, exponent, inexact } => FloatView::Finite(mantissa@, bits, negative, exponent, inexact),
        FloatValue::Infinite { negative } => FloatView::Infinite(negative),
        FloatValue::NaN(e) => FloatView::NaN(e),
    }
}

pub open spec fn number_view(n: Number) -> NumberView {
    match n {
        Number::Rational(r) => NumberView::Rational(r.n(), r.d()),
        Number::Float(f) => NumberView::Float(float_view(f)),
    }
}

pub open spec fn view_seq(s: Seq<Element>) -> Seq<ElementView>
    decreases s,
{
    if s.len() == 0 {
        Seq::empty()
    } else {
        view_seq(s.drop_last()).push(s.last().view_elem())
    }
}

impl Element {
    pub open spec fn view_elem(&self) -> ElementView
        decreases self,
    {
        match self {
            Element::Brackets(v) => ElementView::Brackets(view_seq(v@)),
            Element::String(s) => ElementView::String(s@),
            Element::Function { name, arguments } => ElementView::Function(name@, view_seq(arguments@)),
            Element::Variable(s) => ElementView::Variable(s@),
            Element::VariableOrFunction(s) => ElementView::VariableOrFunction(s@),
            Element::FunctionWithExpression { arguments, expr_value } => ElementView::FunctionWithExpression(view_seq(arguments@), *expr_value),
            Element::NumberWithExpression { expr_value } => ElementView::NumberWithExpression(*expr_value),
            Element::Plus(v) => ElementView::Plus(view_seq(v@)),
            Element::Multiply(v) => ElementView::Multiply(view_seq(v@)),
            Element::Pow(a, b) => ElementView::Pow(Box::new(a.view_elem()), Box::new(b.view_elem())),
            Element::Negate(a) => ElementView::Negate(Box::new(a.view_elem())),
            Element::Number(n) => ElementView::Number(number_view(*n)),
        }
    }

    /// All numbers inside are well formed.
    pub open spec fn wf(&self) -> bool
        decreases self,
    {
        match self {
            Element::Brackets(v) => forall|i: int| 0 <= i < v@.len() ==> (#[trigger] v@[i]).wf(),
            Element::Plus(v) => forall|i: int| 0 <= i < v@.len() ==> (#[trigger] v@[i]).wf(),
            Element::Multiply(v) => forall|i: int| 0 <= i < v@.len() ==> (#[trigger] v@[i]).wf(),
            Element::Function { arguments: v, .. } => forall|i: int| 0 <= i < v@.len() ==> (#[trigger] v@[i]).wf(),
            Element::FunctionWithExpression { arguments: v, .. } => forall|i: int| 0 <= i < v@.len() ==> (#[trigger] v@[i]).wf(),
            Element::Pow(a, b) => a.wf() && b.wf(),
            Element::Negate(a) => a.wf(),
            Element::Number(n) => n.wf(),
            _ => true,
        }
    }
}

impl View for Element {
    type V = ElementView;

    open spec fn view(&self) -> ElementView {
        self.view_elem()
    }
}

pub proof fn lemma_view_seq_len(s: Seq<Element>)
    ensures
        view_seq(s).len() == s.len(),
    decreases s.len(),
{
    if s.len() > 0 {
        lemma_view_seq_len(s.drop_last());
    }
}

pub proof fn lemma_view_seq_index(s: Seq<Element>, i: int)
    requires
        0 <= i < s.len(),
    ensures
        view_seq(s).len() == s.len(),
        view_seq(s)[i] == s[i].view_elem(),
    decreases s.len(),
{
    lemma_view_seq_len(s);
    if i < s.len() - 1 {
        lemma_view_seq_index(s.drop_last(), i);
    }
}

/// The view of a sequence is determined element by element.
pub proof fn lemma_view_seq_ext(a: Seq<Element>, b: Seq<Element>)
    requires
        a.len() == b.len(),
        forall|i: int| 0 <= i < a.len() ==> (#[trigger] a[i]).view_elem() == b[i].view_elem(),
    ensures
        view_seq(a) == view_seq(b),
{
    lemma_view_seq_len(a);
    lemma_view_seq_len(b);
    assert forall|i: int| 0 <= i < a.len() implies view_seq(a)[i] == view_seq(b)[i] by {
        lemma_view_seq_index(a, i);
        lemma_view_seq_index(b, i);
    }
    assert(view_seq(a) =~= view_seq(b));
}

pub proof fn lemma_view_seq_push(s: Seq<Element>, e: Element)
    ensures
        view_seq(s.push(e)) == view_seq(s).push(e.view_elem()),
{
    assert(s.push(e).drop_last() =~= s);
}

// ---------------------------------------------------------------------------
// Copies
// ---------------------------------------------------------------------------

impl FloatValue {
    pub fn duplicate(&self) -> (r: Self)
        ensures
            float_view(r) == float_view(*self),
    {
        match self {
            FloatValue::Finite { mantissa, bits, negative, exponent, inexact } => FloatValue::Finite {
                mantissa: mantissa.clone(),
                bits: *bits,
                negative: *negative,
                exponent: *exponent,
                inexact: *inexact,
            },
            FloatValue::Infinite { negative } => FloatValue::Infinite { negative: *negative },
            FloatValue::NaN(e) => FloatValue::NaN(*e),
        }
    }
}

impl Number {
    pub fn duplicate(&self) -> (r: Self)
        ensures
            number_view(r) == number_view(*self),
            self.wf() ==> r.wf(),
            r.is_nan_spec() == self.is_nan_spec(),
            (r is Rational) == (self is Rational),
            r matches Number::Rational(q) ==> self matches Number::Rational(p) && q.n() == p.n() && q.d() == p.d(),
    {
        match self {
            Number::Rational(q) => Number::Rational(q.duplicate()),
            Number::Float(f) => Number::Float(f.duplicate()),
        }
    }
}

impl Element {
    /// A deep copy.
    pub fn duplicate(&self) -> (r: Self)
        ensures
            r@ == self@,
            self.wf() ==> r.wf(),
        decreases self,
    {
        match self {
            Element::Brackets(v) => Element::Brackets(duplicate_vec(v)),
            Element::String(s) => Element::String(s.clone()),
            Element::Function { name, arguments } => Element::Function { name: name.clone(), arguments: duplicate_vec(arguments) },
            Element::Variable(s) => Element::Variable(s.clone()),
            Element::VariableOrFunction(s) => Element::VariableOrFunction(s.clone()),
            Element::FunctionWithExpression { arguments, expr_value } => Element::FunctionWithExpression { arguments: duplicate_vec(arguments), expr_value: *expr_value },
            Element::NumberWithExpression { expr_value } => Element::NumberWithExpression { expr_value: *expr_value },
            Element::Plus(v) => Element::Plus(duplicate_vec(v)),
            Element::Multiply(v) => Element::Multiply(duplicate_vec(v)),
            Element::Pow(a, b) => Element::Pow(Box::new(a.duplicate()), Box::new(b.duplicate())),
            Element::Negate(a) => Element::Negate(Box::new(a.duplicate())),
            Element::Number(n) => Element::Number(n.duplicate()),
        }
    }
}

impl Clone for Element {
    fn clone(&self) -> (r: Self)
        ensures
            r@ == self@,
    {
        self.duplicate()
    }
}

/// A deep copy of a list of elements.
pub fn duplicate_vec(v: &Vec<Element>) -> (r: Vec<Element>)
    ensures
        r@.len() == v@.len(),
        forall|i: int| 0 <= i < v@.len() ==> (#[trigger] r@[i])@ == v@[i]@,
        view_seq(r@) == view_seq(v@),
        (forall|i: int| 0 <= i < v@.len() ==> (#[trigger] v@[i]).wf()) ==> (forall|i: int| 0 <= i < r@.len() ==> (#[trigger] r@[i]).wf()),
    decreases v,
{
    let mut r: Vec<Element> = Vec::new();
    let mut i: usize = 0;
    while i < v.len()
        invariant
            i <= v@.len(),
            r@.len() == i,
            forall|j: int| 0 <= j < i ==> (#[trigger] r@[j])@ == v@[j]@,
            forall|j: int| 0 <= j < i ==> v@[j].wf() ==> (#[trigger] r@[j]).wf(),
        decreases v.len() - i,
    {
        r.push(v[i].duplicate());
        i = i + 1;
    }
    proof {
        lemma_view_seq_ext(r@, v@);
    }
    r
}

// ---------------------------------------------------------------------------
// Short constructors
// ---------------------------------------------------------------------------

/// A NaN number element.
pub fn nan(error: Option<FloatError>) -> (e: Element)
    ensures
        e@ == ElementView::Number(NumberView::Float(FloatView::NaN(error))),
        e.wf(),
{
    Element::Number(Number::nan(error))
}

/// A number element read from decimal text.
pub fn num(text: &str) -> (e: Element)
    requires
        text@.len() < 0x7fff_ffff,
        number_text(text@) is Some,
    ensures
        e.wf(),
        e@ == ElementView::Number(NumberView::Rational(
            lowest_terms(number_text(text@)->Some_0.0, number_text(text@)->Some_0.1).0,
            lowest_terms(number_text(text@)->Some_0.0, number_text(text@)->Some_0.1).1)),
{
    match Number::from_string(text) {
        Some(n) => Element::Number(n),
        None => { proof { assert(false); } Element::Brackets(Vec::new()) },
    }
}

/// An integer number element.
pub fn num_int(i: i64) -> (e: Element)
    ensures
        e.wf(),
        e matches Element::Number(Number::Rational(q)) && q.n() == i && q.d() == 1,
{
    Element::Number(Number::from_i64(i))
}

pub fn var_or_fun(name: &str) -> (e: Element)
    ensures
        e@ == ElementView::VariableOrFunction(name@),
{
    Element::VariableOrFunction(name.to_owned())
}

pub fn var(name: &str) -> (e: Element)
    ensures
        e@ == ElementView::Variable(name@),
{
    Element::Variable(name.to_owned())
}

pub fn fun(name: &str, args: Vec<Element>) -> (e: Element)
    ensures
        e@ == ElementView::Function(name@, view_seq(args@)),
{
    Element::Function { name: name.to_owned(), arguments: args }
}

pub fn neg(element: Element) -> (e: Element)
    ensures
        e@ == ElementView::Negate(Box::new(element@)),
        element.wf() ==> e.wf(),
{
    Element::Negate(Box::new(element))
}

pub fn plus(elements: Vec<Element>) -> (e: Element)
    ensures
        e@ == ElementView::Plus(view_seq(elements@)),
        (forall|i: int| 0 <= i < elements@.len() ==> (#[trigger] elements@[i]).wf()) ==> e.wf(),
{
    Element::Plus(elements)
}

pub fn mul(elements: Vec<Element>) -> (e: Element)
    ensures
        e@ == ElementView::Multiply(view_seq(elements@)),
        (forall|i: int| 0 <= i < elements@.len() ==> (#[trigger] elements@[i]).wf()) ==> e.wf(),
{
    Element::Multiply(elements)
}

pub fn pow(base: Element, exponent: Element) -> (e: Element)
    ensures
        e@ == ElementView::Pow(Box::new(base@), Box::new(exponent@)),
        base.wf() && exponent.wf() ==> e.wf(),
{
    Element::Pow(Box::new(base), Box::new(exponent))
}

/// The view of the number one.
pub open spec fn one_view() -> ElementView {
    ElementView::Number(NumberView::Rational(1, 1))
}

/// The number one.
pub fn one() -> (e: Element)
    ensures
        e@ == one_view(),
        e.wf(),
        e matches Element::Number(Number::Rational(q)) && q.n() == 1 && q.d() == 1,
{
    let n = crate::rational::BigInteger { negative: false, digits: vec![1u8] };
    let d = crate::rational::BigInteger { negative: false, digits: vec![1u8] };
    assert(n.digits@ =~= seq![1u8]);
    assert(d.digits@ =~= seq![1u8]);
    proof {
        crate::rational::lemma_digits_value_single(n.digits@);
        crate::rational::lemma_digits_value_single(d.digits@);
        crate::rational::lemma_gcd_one(1);
    }
    Element::Number(Number::Rational(crate::rational::Rational { numer: n, denom: d }))
}

/// `element^-1`
pub fn inv(element: Element) -> (e: Element)
    ensures
        e@ == ElementView::Pow(Box::new(element@), Box::new(ElementView::Negate(Box::new(one_view())))),
        element.wf() ==> e.wf(),
{
    pow(element, neg(one()))
}

pub fn num_expr(value: ExpressionNumType) -> (e: Element)
    ensures
        e@ == ElementView::NumberWithExpression(value),
{
    Element::NumberWithExpression { expr_value: value }
}

pub fn fun_expr(f: ExpressionFunType, args: Vec<Element>) -> (e: Element)
    ensures
        e@ == ElementView::FunctionWithExpression(view_seq(args@), f),
        (forall|i: int| 0 <= i < args@.len() ==> (#[trigger] args@[i]).wf()) ==> e.wf(),
{
    Element::FunctionWithExpression { arguments: args, expr_value: f }
}


// ---------------------------------------------------------------------------
// Checking well-formedness
// ---------------------------------------------------------------------------

impl Number {
    /// Whether the number is well formed (see `Number::wf`).
    pub fn is_well_formed(&self) -> (b: bool)
        ensures
            b == self.wf(),
    {
        match self {
            Number::Rational(q) => crate::rational::rational_is_wf(q),
            Number::Float(FloatValue::Finite { inexact, .. }) => *inexact,
            Number::Float(_) => true,
        }
    }
}

impl Element {
    /// Whether all numbers inside are well formed (see `Element::wf`).
    pub fn is_well_formed(&self) -> (b: bool)
        ensures
            b == self.wf(),
        decreases self,
    {
        match self {
            Element::Brackets(v) => all_well_formed(v),
            Element::Plus(v) => all_well_formed(v),
            Element::Multiply(v) => all_well_formed(v),
            Element::Function { arguments, .. } => all_well_formed(arguments),
            Element::FunctionWithExpression { arguments, .. } => all_well_formed(arguments),
            Element::Pow(a, b) => a.is_well_formed() && b.is_well_formed(),
            Element::Negate(a) => a.is_well_formed(),
            Element::Number(n) => n.is_well_formed(),
            _ => true,
        }
    }
}

/// Whether all elements are well formed.
pub fn all_well_formed(v: &Vec<Element>) -> (b: bool)
    ensures
        b == (forall|i: int| 0 <= i < v@.len() ==> (#[trigger] v@[i]).wf()),
    decreases v,
{
    let mut i: usize = 0;
    while i < v.len()
        invariant
            i <= v@.len(),
            forall|j: int| 0 <= j < i ==> (#[trigger] v@[j]).wf(),
        decreases v.len() - i,
    {
        if !v[i].is_well_formed() {
            return false;
        }
        i = i + 1;
    }
    true
}

} // verus!
