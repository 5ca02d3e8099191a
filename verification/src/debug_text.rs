//! Debugging texts of expression trees: every node with its kind, e.g.
//! `add(var(x), num(rat(1/2)))`, and the names of the expression functions.

use vstd::prelude::*;
use crate::element::{
    Element, ElementView, NumberView, FloatView, ExpressionFunType, ExpressionNumType, ValueRange,
    ParamCount, view_seq, lemma_view_seq_len, lemma_view_seq_index, float_view, number_view,
};
use crate::number::{Number, FloatValue};
use crate::rational::Rational;
use crate::printing::{digits_value, all_digits};
use crate::text::{push_str, nat_to_decimal, int_to_decimal, digit_char, digit_char_exec, chars_of, string_of};

verus! {

// ---------------------------------------------------------------------------
// Names
// ---------------------------------------------------------------------------

pub open spec fn is_upper(c: char) -> bool {
    'A' <= c && c <= 'Z'
}

pub open spec fn lower(c: char) -> char {
    if is_upper(c) { ((c as u32) + 32) as char } else { c }
}

/// `CamelCase` as `camel_case`: an underscore before each upper-case letter but the first,
/// and the letter in lower case.
pub open spec fn snake_case(s: Seq<char>) -> Seq<char>
    decreases s.len(),
{
    if s.len() == 0 {
        s
    } else {
        let c = s.last();
        let i = s.len() - 1;
        snake_case(s.drop_last()) + if is_upper(c) {
            if i > 0 { seq!['_', lower(c)] } else { seq![lower(c)] }
        } else {
            seq![c]
        }
    }
}

/// The text in lower case.
pub open spec fn lower_case(s: Seq<char>) -> Seq<char> {
    s.map_values(|c: char| lower(c))
}

fn lower_exec(c: char) -> (r: char)
    ensures
        r == lower(c),
{
    if 'A' <= c && c <= 'Z' {
        let b: u8 = ((c as u32) + 32) as u8;
        b as char
    } else {
        c
    }
}

/// `CamelCase` as `camel_case` (see `snake_case`).
pub fn camel_to_snake_case(s: &str) -> (r: String)
    ensures
        r@ == snake_case(s@),
{
    let cs = chars_of(s);
    let mut out: Vec<char> = Vec::new();
    let mut i: usize = 0;
    while i < cs.len()
        invariant
            i <= cs@.len(),
            cs@ == s@,
            out@ == snake_case(cs@.take(i as int)),
        decreases cs.len() - i,
    {
        let c = cs[i];
        proof {
            assert(cs@.take(i + 1).drop_last() =~= cs@.take(i as int));
            assert(cs@.take(i + 1).last() == c);
        }
        if 'A' <= c && c <= 'Z' {
            if i > 0 {
                out.push('_');
            }
            out.push(lower_exec(c));
        } else {
            out.push(c);
        }
        assert(out@ =~= snake_case(cs@.take(i + 1)));
        i = i + 1;
    }
    assert(cs@.take(i as int) =~= cs@);
    string_of(&out)
}

/// The name of a value range as `Debug` writes it.
pub open spec fn range_debug_name(r: ValueRange) -> Seq<char> {
    match r {
        ValueRange::Positive => "Positive"@,
        ValueRange::Negative => "Negative"@,
        ValueRange::PositiveOrZero => "PositiveOrZero"@,
        ValueRange::NegativeOrZero => "NegativeOrZero"@,
        ValueRange::NotZero => "NotZero"@,
    }
}

/// The name of an expression function as `Debug` writes it (without a value range).
pub open spec fn fun_debug_name(t: ExpressionFunType) -> Seq<char> {
    match t {
        ExpressionFunType::Sin => "Sin"@,
        ExpressionFunType::SinWithRadians => "SinWithRadians"@,
        ExpressionFunType::Asin => "Asin"@,
        ExpressionFunType::Cos => "Cos"@,
        ExpressionFunType::Acos => "Acos"@,
        ExpressionFunType::Tan => "Tan"@,
        ExpressionFunType::Atan => "Atan"@,
        ExpressionFunType::Floor => "Floor"@,
        ExpressionFunType::Ceil => "Ceil"@,
        ExpressionFunType::Round => "Round"@,
        ExpressionFunType::Abs => "Abs"@,
        ExpressionFunType::Rem => "Rem"@,
        ExpressionFunType::Log2 => "Log2"@,
        ExpressionFunType::Log10 => "Log10"@,
        ExpressionFunType::Ln => "Ln"@,
        ExpressionFunType::Fac => "Fac"@,
        ExpressionFunType::Avg => "Avg"@,
        ExpressionFunType::Median => "Median"@,
        ExpressionFunType::Max => "Max"@,
        ExpressionFunType::Min => "Min"@,
        ExpressionFunType::Sum => "Sum"@,
        ExpressionFunType::AssertValueRange(_) => "AssertValueRange"@,
    }
}

/// The name of an expression function: `check_` and the value range in lower case, or the
/// function's name in snake case.
pub open spec fn fun_name(t: ExpressionFunType) -> Seq<char> {
    match t {
        ExpressionFunType::AssertValueRange(r) => lower_case("check_"@ + range_debug_name(r)),
        _ => snake_case(fun_debug_name(t)),
    }
}

pub open spec fn num_type_name(t: ExpressionNumType) -> Seq<char> {
    match t {
        ExpressionNumType::Pi => "pi"@,
        ExpressionNumType::E => "e"@,
    }
}

fn range_debug_name_exec(r: ValueRange) -> (s: &'static str)
    ensures
        s@ == range_debug_name(r),
{
    match r {
        ValueRange::Positive => "Positive",
        ValueRange::Negative => "Negative",
        ValueRange::PositiveOrZero => "PositiveOrZero",
        ValueRange::NegativeOrZero => "NegativeOrZero",
        ValueRange::NotZero => "NotZero",
    }
}

fn fun_debug_name_exec(t: ExpressionFunType) -> (s: &'static str)
    ensures
        s@ == fun_debug_name(t),
{
    match t {
        ExpressionFunType::Sin => "Sin",
        ExpressionFunType::SinWithRadians => "SinWithRadians",
        ExpressionFunType::Asin => "Asin",
        ExpressionFunType::Cos => "Cos",
        ExpressionFunType::Acos => "Acos",
        ExpressionFunType::Tan => "Tan",
        ExpressionFunType::Atan => "Atan",
        ExpressionFunType::Floor => "Floor",
        ExpressionFunType::Ceil => "Ceil",
        ExpressionFunType::Round => "Round",
        ExpressionFunType::Abs => "Abs",
        ExpressionFunType::Rem => "Rem",
        ExpressionFunType::Log2 => "Log2",
        ExpressionFunType::Log10 => "Log10",
        ExpressionFunType::Ln => "Ln",
        ExpressionFunType::Fac => "Fac",
        ExpressionFunType::Avg => "Avg",
        ExpressionFunType::Median => "Median",
        ExpressionFunType::Max => "Max",
        ExpressionFunType::Min => "Min",
        ExpressionFunType::Sum => "Sum",
        ExpressionFunType::AssertValueRange(_) => "AssertValueRange",
    }
}

fn push_lower(out: &mut Vec<char>, s: &str)
    ensures
        final(out)@ == old(out)@ + lower_case(s@),
{
    let cs = chars_of(s);
    let ghost start = out@;
    let mut i: usize = 0;
    while i < cs.len()
        invariant
            i <= cs@.len(),
            cs@ == s@,
            out@ == start + lower_case(cs@.take(i as int)),
        decreases cs.len() - i,
    {
        out.push(lower_exec(cs[i]));
        assert(out@ =~= start + lower_case(cs@.take(i + 1)));
        i = i + 1;
    }
    assert(cs@.take(i as int) =~= cs@);
}

impl ExpressionFunType {
    /// The function's name (see `fun_name`).
    pub fn display_name(&self) -> (s: String)
        ensures
            s@ == fun_name(*self),
    {
        match self {
            ExpressionFunType::AssertValueRange(r) => {
                let mut out: Vec<char> = Vec::new();
                push_lower(&mut out, "check_");
                push_lower(&mut out, range_debug_name_exec(*r));
                proof {
                    assert(lower_case("check_"@ + range_debug_name(*r)) =~= lower_case("check_"@) + lower_case(range_debug_name(*r)));
                }
                assert(out@ =~= fun_name(*self));
                string_of(&out)
            },
            _ => camel_to_snake_case(fun_debug_name_exec(*self)),
        }
    }
}

impl ExpressionNumType {
    /// `pi` or `e`.
    pub fn display_name(&self) -> (s: &'static str)
        ensures
            s@ == num_type_name(*self),
    {
        match self {
            ExpressionNumType::Pi => "pi",
            ExpressionNumType::E => "e",
        }
    }
}

// ---------------------------------------------------------------------------
// Numbers
// ---------------------------------------------------------------------------

/// The text of a fraction in lowest terms, as `Ratio` displays it: the numerator, and
/// `/` and the denominator unless it is one.
pub open spec fn ratio_text(n: int, d: int) -> Seq<char> {
    if d == 1 { int_to_decimal(n) } else { int_to_decimal(n) + "/"@ + int_to_decimal(d) }
}

/// What `astro_float` displays for a float.
pub uninterp spec fn float_display(f: FloatView) -> Seq<char>;

/// The `Display` text of `astro_float::BigFloat` for the parts of a float. The contract
/// names the result only: it is a function of the float.
#[verifier::external_body]
pub(crate) fn float_display_text(f: &FloatValue) -> (s: String)
    ensures
        s@ == float_display(float_view(*f)),
{
    crate::optimization::big_float_of(f).to_string()
}

/// The debugging text of a number: `rat(...)` or `flt(...)`.
pub open spec fn number_debug_text(n: NumberView) -> Seq<char> {
    match n {
        NumberView::Rational(p, q) => "rat("@ + ratio_text(p, q) + ")"@,
        NumberView::Float(f) => "flt("@ + float_display(f) + ")"@,
    }
}

/// The digits as characters.
pub open spec fn digit_chars(s: Seq<u8>) -> Seq<char> {
    s.map_values(|d: u8| digit_char(d))
}

proof fn lemma_digit_chars_decimal(s: Seq<u8>)
    requires
        all_digits(s),
        s.len() >= 1,
        s.len() > 1 ==> s[0] != 0,
    ensures
        digit_chars(s) == nat_to_decimal(digits_value(s)),
    decreases s.len(),
{
    if s.len() == 1 {
        assert(digits_value(s) == digits_value(s.drop_last()) * 10 + s.last() as nat);
        assert(digits_value(s.drop_last()) == 0);
        assert(digit_chars(s) =~= seq![digit_char(s[0])]);
    } else {
        let t = s.drop_last();
        assert(t[0] == s[0]);
        lemma_digit_chars_decimal(t);
        lemma_digits_value_positive(t);
        let v = digits_value(t);
        assert(digits_value(s) == v * 10 + s.last() as nat);
        assert(s.last() <= 9);
        assert((v * 10 + s.last() as nat) / 10 == v) by (nonlinear_arith) requires s.last() <= 9, v >= 0;
        assert((v * 10 + s.last() as nat) % 10 == s.last() as nat) by (nonlinear_arith) requires s.last() <= 9, v >= 0;
        assert(v * 10 + s.last() as nat >= 10) by (nonlinear_arith) requires v >= 1;
        assert(digit_chars(s) =~= digit_chars(t).push(digit_char(s.last())));
    }
}

proof fn lemma_digits_value_positive(s: Seq<u8>)
    requires
        s.len() >= 1,
        s[0] != 0,
    ensures
        digits_value(s) >= 1,
    decreases s.len(),
{
    if s.len() > 1 {
        let t = s.drop_last();
        assert(t[0] == s[0]);
        lemma_digits_value_positive(t);
    } else {
        assert(digits_value(s.drop_last()) == 0);
    }
}

fn push_digits(out: &mut Vec<char>, digits: &Vec<u8>)
    requires
        all_digits(digits@),
    ensures
        final(out)@ == old(out)@ + digit_chars(digits@),
{
    let ghost start = out@;
    let mut i: usize = 0;
    while i < digits.len()
        invariant
            i <= digits@.len(),
            all_digits(digits@),
            out@ == start + digit_chars(digits@.take(i as int)),
        decreases digits.len() - i,
    {
        out.push(digit_char_exec(digits[i]));
        assert(out@ =~= start + digit_chars(digits@.take(i + 1)));
        i = i + 1;
    }
    assert(digits@.take(i as int) =~= digits@);
}

/// Appends the text of a well-formed rational (see `ratio_text`).
fn push_ratio(out: &mut Vec<char>, q: &Rational)
    requires
        q.wf(),
    ensures
        final(out)@ == old(out)@ + ratio_text(q.n(), q.d()),
{
    proof {
        lemma_digit_chars_decimal(q.numer.digits@);
        lemma_digit_chars_decimal(q.denom.digits@);
    }
    if q.numer.negative {
        out.push('-');
    }
    push_digits(out, &q.numer.digits);
    let one = crate::rational::rational_is_integer(q);
    if !one {
        out.push('/');
        push_digits(out, &q.denom.digits);
    }
    proof {
        reveal_strlit("/");
        if q.numer.negative {
            assert(q.n() < 0);
        }
    }
    assert(out@ =~= old(out)@ + ratio_text(q.n(), q.d()));
}

impl Number {
    /// The debugging text of the number (see `number_debug_text`).
    pub fn get_debug_string(&self) -> (s: String)
        requires
            self.wf(),
        ensures
            s@ == number_debug_text(number_view(*self)),
    {
        let mut out: Vec<char> = Vec::new();
        self.push_debug_text(&mut out);
        string_of(&out)
    }

    fn push_debug_text(&self, out: &mut Vec<char>)
        requires
            self.wf(),
        ensures
            final(out)@ == old(out)@ + number_debug_text(number_view(*self)),
    {
        match self {
            Number::Rational(q) => {
                push_str(out, "rat(");
                push_ratio(out, q);
                push_str(out, ")");
            },
            Number::Float(f) => {
                push_str(out, "flt(");
                let t = float_display_text(f);
                push_str(out, t.as_str());
                push_str(out, ")");
            },
        }
        assert(out@ =~= old(out)@ + number_debug_text(number_view(*self)));
    }
}

// ---------------------------------------------------------------------------
// Elements
// ---------------------------------------------------------------------------

/// The parameter count as text: `=n params` or `>=n params`.
pub open spec fn param_count_text(p: ParamCount) -> Seq<char> {
    match p {
        ParamCount::Exactly(n) => "="@ + nat_to_decimal(n as nat) + " params"@,
        ParamCount::AtLeast(n) => ">="@ + nat_to_decimal(n as nat) + " params"@,
    }
}

/// The debugging text of an element: each node by its kind with its parts in brackets.
pub open spec fn debug_text(e: ElementView) -> Seq<char>
    decreases e, 0nat,
{
    match e {
        ElementView::Brackets(s) => "br("@ + debug_list(s) + ")"@,
        ElementView::Plus(s) => "add("@ + debug_list(s) + ")"@,
        ElementView::Multiply(s) => "mul("@ + debug_list(s) + ")"@,
        ElementView::Pow(a, b) => "pow("@ + debug_text(*a) + ", "@ + debug_text(*b) + ")"@,
        ElementView::String(s) => "\""@ + s + "\""@,
        ElementView::Negate(x) => "neg("@ + debug_text(*x) + ")"@,
        ElementView::Number(n) => "num("@ + number_debug_text(n) + ")"@,
        ElementView::Function(name, args) => "fun("@ + name + ", ["@ + debug_list(args) + "])"@,
        ElementView::Variable(name) => "var("@ + name + ")"@,
        ElementView::VariableOrFunction(name) => "var_or_fun("@ + name + ")"@,
        ElementView::FunctionWithExpression(args, t) => "fun_with_expr:"@ + fun_name(t) + "("@
            + param_count_text(t.param_count_spec()) + ", ["@ + debug_list(args) + "])"@,
        ElementView::NumberWithExpression(t) => "num_with_expr:"@ + num_type_name(t),
    }
}

/// The debugging texts of the elements, separated by `, `.
pub open spec fn debug_list(s: Seq<ElementView>) -> Seq<char>
    decreases s, 1nat,
{
    if s.len() == 0 {
        Seq::empty()
    } else if s.len() == 1 {
        debug_text(s[0])
    } else {
        debug_list(s.drop_last()) + ", "@ + debug_text(s.last())
    }
}

fn push_param_count(out: &mut Vec<char>, p: ParamCount)
    ensures
        final(out)@ == old(out)@ + param_count_text(p),
{
    match p {
        ParamCount::Exactly(n) => {
            push_str(out, "=");
            crate::text::push_nat_decimal(out, n as u64);
        },
        ParamCount::AtLeast(n) => {
            push_str(out, ">=");
            crate::text::push_nat_decimal(out, n as u64);
        },
    }
    push_str(out, " params");
    assert(out@ =~= old(out)@ + param_count_text(p));
}

impl Element {
    /// The debugging text of the element (see `debug_text`).
    pub fn get_debug_string(&self) -> (s: String)
        requires
            self.wf(),
        ensures
            s@ == debug_text(self@),
    {
        let mut out: Vec<char> = Vec::new();
        self.push_debug_text(&mut out);
        assert(out@ =~= debug_text(self@));
        string_of(&out)
    }

    pub(crate) fn push_debug_text(&self, out: &mut Vec<char>)
        requires
            self.wf(),
        ensures
            final(out)@ == old(out)@ + debug_text(self@),
        decreases self, 0nat,
    {
        match self {
            Element::Brackets(s) => {
                push_str(out, "br(");
                push_debug_list(s, out);
                push_str(out, ")");
            },
            Element::Plus(s) => {
                push_str(out, "add(");
                push_debug_list(s, out);
                push_str(out, ")");
            },
            Element::Multiply(s) => {
                push_str(out, "mul(");
                push_debug_list(s, out);
                push_str(out, ")");
            },
            Element::Pow(a, b) => {
                push_str(out, "pow(");
                a.push_debug_text(out);
                push_str(out, ", ");
                b.push_debug_text(out);
                push_str(out, ")");
            },
            Element::String(s) => {
                push_str(out, "\"");
                push_str(out, s.as_str());
                push_str(out, "\"");
            },
            Element::Negate(x) => {
                push_str(out, "neg(");
                x.push_debug_text(out);
                push_str(out, ")");
            },
            Element::Number(n) => {
                push_str(out, "num(");
                n.push_debug_text(out);
                push_str(out, ")");
            },
            Element::Function { name, arguments } => {
                push_str(out, "fun(");
                push_str(out, name.as_str());
                push_str(out, ", [");
                push_debug_list(arguments, out);
                push_str(out, "])");
            },
            Element::Variable(name) => {
                push_str(out, "var(");
                push_str(out, name.as_str());
                push_str(out, ")");
            },
            Element::VariableOrFunction(name) => {
                push_str(out, "var_or_fun(");
                push_str(out, name.as_str());
                push_str(out, ")");
            },
            Element::FunctionWithExpression { arguments, expr_value } => {
                push_str(out, "fun_with_expr:");
                let name = expr_value.display_name();
                push_str(out, name.as_str());
                push_str(out, "(");
                push_param_count(out, expr_value.get_param_count());
                push_str(out, ", [");
                push_debug_list(arguments, out);
                push_str(out, "])");
            },
            Element::NumberWithExpression { expr_value } => {
                push_str(out, "num_with_expr:");
                push_str(out, expr_value.display_name());
            },
        }
        assert(out@ =~= old(out)@ + debug_text(self@));
    }
}

fn push_debug_list(s: &Vec<Element>, out: &mut Vec<char>)
    requires
        forall|i: int| 0 <= i < s@.len() ==> (#[trigger] s@[i]).wf(),
    ensures
        final(out)@ == old(out)@ + debug_list(view_seq(s@)),
    decreases s, 1nat,
{
    let ghost start = out@;
    proof { lemma_view_seq_len(s@); }
    let mut i: usize = 0;
    while i < s.len()
        invariant
            i <= s@.len(),
            forall|k: int| 0 <= k < s@.len() ==> (#[trigger] s@[k]).wf(),
            view_seq(s@).len() == s@.len(),
            out@ == start + debug_list(view_seq(s@).take(i as int)),
        decreases s.len() - i,
    {
        proof { lemma_view_seq_index(s@, i as int); }
        let ghost t = view_seq(s@).take(i + 1);
        assert(t.drop_last() =~= view_seq(s@).take(i as int));
        assert(t.last() == s@[i as int]@);
        if i > 0 {
            push_str(out, ", ");
        }
        s[i].push_debug_text(out);
        proof {
            if i == 0 {
                assert(t.len() == 1);
                assert(view_seq(s@).take(0) =~= Seq::<ElementView>::empty());
            }
        }
        assert(out@ =~= start + debug_list(t));
        i = i + 1;
    }
    assert(view_seq(s@).take(i as int) =~= view_seq(s@));
}

} // verus!
