//! The text of numbers and of whole formulas: exact numbers by long division, floats by
//! their decimal digits, and elements turned into printable formulas.

use vstd::prelude::*;
use crate::element::{Element, FloatView, float_view};
use crate::number::{Number, FloatValue};
use crate::rational::Rational;
use crate::formula::{Formula, FormulaView, formula_text};
use crate::printing::{ScientificNumber, FormattingOptions, scientific_number_text, all_digits, trim_leading, leading_zeros};
use crate::division::{rational_to_string, quotient_number, significant_digits};
use crate::debug_text::{float_display, float_display_text, fun_name, num_type_name};
use crate::text::{push_str, chars_of, string_of};
use crate::evaluation::DynamicResult;
use crate::outcomes::FormattedCalculationOutput;

verus! {

/// The decimal digits of a finite float as `BigFloat::convert_to_radix` gives them,
/// rounding to nearest even: the sign (`true` for negative), the digits, most significant
/// first, and the exponent `e` of `0.d₁d₂… · 10^e`.
pub uninterp spec fn float_decimal(f: FloatView) -> (bool, Seq<u8>, int);

/// `astro_float::BigFloat::convert_to_radix` to radix ten with `RoundingMode::ToEven`, on
/// the float with the given parts. It fails on infinities and NaN, and else only when
/// memory cannot be had; what it gives back is named by `float_decimal`. Its digits are
/// digits of radix ten, as the crate documents.
#[verifier::external_body]
fn float_to_decimal(f: &FloatValue) -> (r: Option<(bool, Vec<u8>, i32)>)
    ensures
        !(*f is Finite) ==> r is None,
        r matches Some(t) ==> (t.0, t.1@, t.2 as int) == float_decimal(float_view(*f)) && all_digits(t.1@),
{
    let x = crate::optimization::big_float_of(f);
    let mut cc = astro_float::Consts::new().ok()?;
    let (s, m, e) = x.convert_to_radix(astro_float::Radix::Dec, astro_float::RoundingMode::ToEven, &mut cc).ok()?;
    Some((s.is_negative(), m, e))
}

/// The text of an exact number: its long division rounded and formatted (see
/// `quotient_number`).
pub open spec fn rational_text(q: Rational, options: FormattingOptions) -> Seq<char> {
    let (base, exponent, _) = quotient_number(q.numer, q.denom, significant_digits(options));
    scientific_number_text(base, exponent, q.n() < 0, options)
}

/// The text of a float: its decimal digits formatted as a scientific number; the float's
/// own text where it has no digits (an infinity or NaN) or where they run past 2^30.
pub open spec fn float_text(f: FloatView, options: FormattingOptions) -> Seq<char> {
    let (negative, digits, e) = float_decimal(f);
    if f is Finite && digits.len() < 0x4000_0000 && all_digits(digits) {
        scientific_number_text(trim_leading(digits), e - 1 - leading_zeros(digits), negative, options)
    } else {
        float_display(f)
    }
}

/// The possible texts of a number: the exact text of a rational; for a float, its text
/// (see `float_text`), or the float's own text when the conversion to decimal digits
/// failed for want of memory.
pub open spec fn number_text_is(n: Number, text: Seq<char>, options: FormattingOptions) -> bool {
    match n {
        Number::Rational(q) => text == rational_text(q, options),
        Number::Float(f) => text == float_text(float_view(f), options) || text == float_display(float_view(f)),
    }
}

/// Numbers whose digits fit the long division's counters (see `long_division`).
pub open spec fn number_printable(n: Number) -> bool {
    match n {
        Number::Rational(q) => q.numer.digits@.len() < 0x1000_0000_0000_0000 && q.denom.digits@.len() < 0x1000_0000_0000_0000,
        Number::Float(_) => true,
    }
}

/// Formatting options that the printing can count with.
pub open spec fn options_printable(options: FormattingOptions) -> bool {
    options.round_to_decimals < 0x4000_0000 && options.non_scientific_decimals < 0x4000_0000
}

/// The text of a float (see `float_text`), or its own text where its conversion to decimal
/// digits failed for want of memory.
fn float_string(f: &FloatValue, options: FormattingOptions) -> (s: String)
    requires
        options_printable(options),
    ensures
        s@ == float_text(float_view(*f), options) || s@ == float_display(float_view(*f)),
        !(*f is Finite) ==> s@ == float_display(float_view(*f)),
{
    match float_to_decimal(f) {
        Some((negative, digits, e)) => {
            if digits.len() < 0x4000_0000 {
                proof {
                    crate::printing::lemma_leading_zeros_bound(digits@);
                }
                let scientific = ScientificNumber::new(negative, digits, e as i64 - 1);
                proof {
                    crate::printing::lemma_trim_leading_first(digits@);
                }
                scientific.to_string(options)
            } else {
                float_display_text(f)
            }
        },
        None => float_display_text(f),
    }
}

/// The text of a result (see `DynamicResult`): an exact number by long division with
/// whether it was rounded; a float by its digits, with the precision it was checked at.
pub open spec fn detailed_text_is(r: DynamicResult, out: FormattedCalculationOutput, options: FormattingOptions) -> bool {
    match r {
        DynamicResult::Exact(q) => out matches FormattedCalculationOutput::Exact { result, has_rounded }
            && result@ == rational_text(q, options)
            && has_rounded == quotient_number(q.numer, q.denom, significant_digits(options)).2,
        DynamicResult::Checked { num, precision } => out matches FormattedCalculationOutput::ApproximationChecked { result, precision_bits }
            && precision_bits == precision
            && (result@ == float_text(float_view(num), options) || result@ == float_display(float_view(num))),
        DynamicResult::ReachedLimit(num) => out matches FormattedCalculationOutput::ApproximationReachedLimit { result }
            && (result@ == float_text(float_view(num), options) || result@ == float_display(float_view(num))),
    }
}

impl DynamicResult {
    /// The result as text (see `detailed_text_is`).
    pub fn to_string_detailed(&self, options: FormattingOptions) -> (out: FormattedCalculationOutput)
        requires
            options_printable(options),
            *self matches DynamicResult::Exact(q) ==> (q.wf() && number_printable(Number::Rational(q))),
            *self matches DynamicResult::Checked { precision, .. } ==> precision <= u32::MAX,
        ensures
            detailed_text_is(*self, out, options),
    {
        match self {
            DynamicResult::Exact(q) => {
                let (result, has_rounded) = rational_to_string(q, options);
                FormattedCalculationOutput::Exact { result, has_rounded }
            },
            DynamicResult::Checked { num, precision } => FormattedCalculationOutput::ApproximationChecked {
                result: float_string(num, options),
                precision_bits: *precision as u32,
            },
            DynamicResult::ReachedLimit(num) => FormattedCalculationOutput::ApproximationReachedLimit {
                result: float_string(num, options),
            },
        }
    }
}

impl Number {
    /// The text of the number: an exact number by long division, a float by its decimal
    /// digits (see `number_text_is`), formatted with `options`.
    pub fn to_string(&self, options: FormattingOptions) -> (s: String)
        requires
            self.wf(),
            number_printable(*self),
            options_printable(options),
        ensures
            number_text_is(*self, s@, options),
            *self matches Number::Float(f) ==> (!(f is Finite) ==> s@ == float_display(float_view(f))),
    {
        match self {
            Number::Rational(q) => rational_to_string(q, options).0,
            Number::Float(f) => float_string(f, options),
        }
    }
}

/// `colored::Colorize::red` on the text, turned back into a `String`. Whether colour codes
/// are added depends on the environment (the variables `CLICOLOR`, `NO_COLOR`,
/// `CLICOLOR_FORCE` and whether the output is a terminal): the text comes back unchanged,
/// or wrapped in the codes for red and for reset. For a text that holds escape characters
/// nothing is stated, since the crate then also rewrites reset codes inside it.
#[verifier::external_body]
fn red_text(s: &String) -> (r: String)
    ensures
        !s@.contains('\x1b') ==> (r@ == s@ || r@ == "\x1b[31m"@ + s@ + "\x1b[0m"@),
{
    colored::Colorize::red(s.as_str()).to_string()
}

/// The texts that an unparsed string may be shown as.
pub open spec fn unparsed_text_is(s: Seq<char>, text: Seq<char>, mark_red: bool) -> bool {
    if mark_red {
        !s.contains('\x1b') ==> (text == s || text == "\x1b[31m"@ + s + "\x1b[0m"@)
    } else {
        text == s
    }
}

/// The formula that shows an element: each node becomes the matching formula node;
/// numbers are printed (see `number_text_is`), names kept, an unparsed string becomes a
/// variable (marked red if asked), and expression functions and numbers show their names
/// after `fun_expr:` and `num_expr:`.
pub open spec fn renders(e: Element, f: FormulaView, options: FormattingOptions, mark_red: bool) -> bool
    decreases e,
{
    match e {
        Element::Plus(v) => f matches FormulaView::Plus(fs) && fs.len() == v@.len()
            && forall|i: int| 0 <= i < v@.len() ==> renders(#[trigger] v@[i], fs[i], options, mark_red),
        Element::Multiply(v) => f matches FormulaView::Multiply(fs) && fs.len() == v@.len()
            && forall|i: int| 0 <= i < v@.len() ==> renders(#[trigger] v@[i], fs[i], options, mark_red),
        Element::Brackets(v) => f matches FormulaView::ForcedBrackets(fs) && fs.len() == v@.len()
            && forall|i: int| 0 <= i < v@.len() ==> renders(#[trigger] v@[i], fs[i], options, mark_red),
        Element::Function { name, arguments: v } => f matches FormulaView::Function(n, fs) && n == name@
            && fs.len() == v@.len()
            && forall|i: int| 0 <= i < v@.len() ==> renders(#[trigger] v@[i], fs[i], options, mark_red),
        Element::FunctionWithExpression { arguments: v, expr_value } => f matches FormulaView::Function(n, fs)
            && n == "fun_expr:"@ + fun_name(expr_value) && fs.len() == v@.len()
            && forall|i: int| 0 <= i < v@.len() ==> renders(#[trigger] v@[i], fs[i], options, mark_red),
        Element::Negate(a) => f matches FormulaView::Negate(fa) && renders(*a, *fa, options, mark_red),
        Element::Pow(a, b) => f matches FormulaView::Pow(fa, fb) && renders(*a, *fa, options, mark_red)
            && renders(*b, *fb, options, mark_red),
        Element::Number(n) => f matches FormulaView::Number(t) && number_text_is(n, t, options),
        Element::Variable(name) => f == FormulaView::Variable(name@),
        Element::VariableOrFunction(name) => f == FormulaView::Variable(name@),
        Element::String(s) => f matches FormulaView::Variable(t) && unparsed_text_is(s@, t, mark_red),
        Element::NumberWithExpression { expr_value } => f == FormulaView::Variable("num_expr:"@ + num_type_name(expr_value)),
    }
}

/// All numbers inside can be printed (see `number_printable`).
pub open spec fn all_printable(e: Element) -> bool
    decreases e,
{
    match e {
        Element::Brackets(v) => forall|i: int| 0 <= i < v@.len() ==> all_printable(#[trigger] v@[i]),
        Element::Plus(v) => forall|i: int| 0 <= i < v@.len() ==> all_printable(#[trigger] v@[i]),
        Element::Multiply(v) => forall|i: int| 0 <= i < v@.len() ==> all_printable(#[trigger] v@[i]),
        Element::Function { arguments: v, .. } => forall|i: int| 0 <= i < v@.len() ==> all_printable(#[trigger] v@[i]),
        Element::FunctionWithExpression { arguments: v, .. } => forall|i: int| 0 <= i < v@.len() ==> all_printable(#[trigger] v@[i]),
        Element::Pow(a, b) => all_printable(*a) && all_printable(*b),
        Element::Negate(a) => all_printable(*a),
        Element::Number(n) => number_printable(n),
        _ => true,
    }
}

/// The formulas of a list of elements, in order.
fn formulas_of(v: &Vec<Element>, options: FormattingOptions, mark_unparsed_red: bool) -> (r: Vec<Formula>)
    requires
        forall|i: int| 0 <= i < v@.len() ==> (#[trigger] v@[i]).wf(),
        forall|i: int| 0 <= i < v@.len() ==> all_printable(#[trigger] v@[i]),
        options_printable(options),
    ensures
        r@.len() == v@.len(),
        forall|i: int| 0 <= i < v@.len() ==> renders(#[trigger] v@[i], r@[i]@, options, mark_unparsed_red),
    decreases v,
{
    let mut out: Vec<Formula> = Vec::new();
    let mut i: usize = 0;
    while i < v.len()
        invariant
            i <= v@.len(),
            out@.len() == i,
            forall|j: int| 0 <= j < v@.len() ==> (#[trigger] v@[j]).wf(),
            forall|j: int| 0 <= j < v@.len() ==> all_printable(#[trigger] v@[j]),
            options_printable(options),
            forall|j: int| 0 <= j < i ==> renders(#[trigger] v@[j], out@[j]@, options, mark_unparsed_red),
        decreases v.len() - i,
    {
        let f = Formula::from_element(&v[i], options, mark_unparsed_red);
        out.push(f);
        i = i + 1;
    }
    out
}

/// `prefix` followed by `name`.
fn prefixed(prefix: &str, name: &str) -> (s: String)
    ensures
        s@ == prefix@ + name@,
{
    let mut out: Vec<char> = Vec::new();
    push_str(&mut out, prefix);
    let cs = chars_of(name);
    let mut i: usize = 0;
    while i < cs.len()
        invariant
            i <= cs@.len(),
            out@ == prefix@ + cs@.take(i as int),
        decreases cs.len() - i,
    {
        out.push(cs[i]);
        i = i + 1;
        assert(cs@.take(i as int) =~= cs@.take(i - 1).push(cs@[i - 1]));
    }
    assert(cs@.take(cs@.len() as int) =~= cs@);
    string_of(&out)
}

impl Formula {
    /// The formula that shows `element` (see `renders`).
    pub fn from_element(element: &Element, options: FormattingOptions, mark_unparsed_red: bool) -> (f: Formula)
        requires
            element.wf(),
            all_printable(*element),
            options_printable(options),
        ensures
            renders(*element, f@, options, mark_unparsed_red),
        decreases element,
    {
        match element {
            Element::Plus(v) => {
                let fs = formulas_of(v, options, mark_unparsed_red);
                let f = Formula::Plus(fs);
                proof { crate::formula::lemma_formula_views(fs@); }
                f
            },
            Element::Multiply(v) => {
                let fs = formulas_of(v, options, mark_unparsed_red);
                proof { crate::formula::lemma_formula_views(fs@); }
                Formula::Multiply(fs)
            },
            Element::Brackets(v) => {
                let fs = formulas_of(v, options, mark_unparsed_red);
                proof { crate::formula::lemma_formula_views(fs@); }
                Formula::ForcedBrackets(fs)
            },
            Element::Function { name, arguments } => {
                let fs = formulas_of(arguments, options, mark_unparsed_red);
                proof { crate::formula::lemma_formula_views(fs@); }
                Formula::Function { name: name.clone(), arguments: fs }
            },
            Element::FunctionWithExpression { arguments, expr_value } => {
                let fs = formulas_of(arguments, options, mark_unparsed_red);
                proof { crate::formula::lemma_formula_views(fs@); }
                let name = prefixed("fun_expr:", expr_value.display_name().as_str());
                Formula::Function { name, arguments: fs }
            },
            Element::Negate(a) => Formula::Negate(Box::new(Formula::from_element(a, options, mark_unparsed_red))),
            Element::Pow(a, b) => {
                let fa = Formula::from_element(a, options, mark_unparsed_red);
                let fb = Formula::from_element(b, options, mark_unparsed_red);
                Formula::Pow(Box::new(fa), Box::new(fb))
            },
            Element::Number(n) => Formula::Number(n.to_string(options)),
            Element::Variable(name) => Formula::Variable(name.clone()),
            Element::VariableOrFunction(name) => Formula::Variable(name.clone()),
            Element::String(s) => {
                if mark_unparsed_red {
                    Formula::Variable(red_text(s))
                } else {
                    Formula::Variable(s.clone())
                }
            },
            Element::NumberWithExpression { expr_value } => {
                let name = prefixed("num_expr:", expr_value.display_name());
                Formula::Variable(name)
            },
        }
    }
}

/// The options of `FormattingOptions::default`.
pub open spec fn default_formatting() -> FormattingOptions {
    FormattingOptions { round_to_decimals: 9, non_scientific_decimals: 12, thousands_separator: true }
}

impl Element {
    /// The element as a formula text, numbers formatted with the default options.
    pub fn get_string(&self) -> (s: String)
        requires
            self.wf(),
            all_printable(*self),
        ensures
            exists|f: FormulaView| renders(*self, f, default_formatting(), false) && s@ == formula_text(f),
    {
        let options = FormattingOptions::default_options();
        let f = Formula::from_element(self, options, false);
        f.to_string()
    }
}

} // verus!
