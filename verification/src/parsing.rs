//! Parsing of formula text into an expression tree: the text is cut into bracket groups,
//! then each operator is resolved in a pass of its own, from the weakest binding to the
//! strongest, and the remaining text becomes numbers and names.

use vstd::prelude::*;
use crate::element::{
    Element, ElementView, NumberView, view_seq, lemma_view_seq_len, lemma_view_seq_index,
    lemma_view_seq_push,
};
use crate::number::{Number, number_text};
use crate::rational::lowest_terms;
use crate::text::{chars_of, string_of};
use crate::benchmarking::{Benchmark, instant_now};
use crate::splitting::{
    split_list, split_text, split_list_by_char, split_string_by_char, list_contains_char, height,
    max_height, lemma_max_height, fitting_group, fitting_groups, lemma_split_list_groups,
};

verus! {

// ---------------------------------------------------------------------------
// Names
// ---------------------------------------------------------------------------

/// Letters, digits and `_`.
pub open spec fn is_name_char(c: char) -> bool {
    ('a' <= c && c <= 'z') || ('A' <= c && c <= 'Z') || c == '_' || ('0' <= c && c <= '9')
}

pub fn is_valid_char_for_function_name(c: char) -> (b: bool)
    ensures
        b == is_name_char(c),
{
    ('a' <= c && c <= 'z') || ('A' <= c && c <= 'Z') || c == '_' || ('0' <= c && c <= '9')
}

/// The number of name characters at the end of `s`.
pub open spec fn trailing_name_len(s: Seq<char>) -> nat
    decreases s.len(),
{
    if s.len() == 0 || !is_name_char(s.last()) { 0 } else { 1 + trailing_name_len(s.drop_last()) }
}

/// The name at the end of `s`: its trailing name characters, unless there are none or,
/// when `allow_first_char_digit` is false, they start with a digit (then it is empty).
pub open spec fn fun_name_end(s: Seq<char>, allow_first_char_digit: bool) -> Seq<char> {
    let k = trailing_name_len(s);
    let name = s.subrange(s.len() - k, s.len() as int);
    if k == 0 {
        Seq::empty()
    } else if allow_first_char_digit || !('0' <= name[0] && name[0] <= '9') {
        name
    } else {
        Seq::empty()
    }
}

proof fn lemma_trailing_name_len(s: Seq<char>)
    ensures
        trailing_name_len(s) <= s.len(),
        forall|j: int| s.len() - trailing_name_len(s) <= j < s.len() ==> is_name_char(#[trigger] s[j]),
        trailing_name_len(s) < s.len() ==> !is_name_char(s[s.len() - trailing_name_len(s) - 1]),
    decreases s.len(),
{
    if s.len() > 0 && is_name_char(s.last()) {
        lemma_trailing_name_len(s.drop_last());
        assert forall|j: int| s.len() - trailing_name_len(s) <= j < s.len() implies is_name_char(#[trigger] s[j]) by {
            if j < s.len() - 1 {
                assert(s[j] == s.drop_last()[j]);
            }
        }
    }
}

/// The characters `v[from..to]` as a `String`.
pub fn string_of_range(v: &Vec<char>, from: usize, to: usize) -> (s: String)
    requires
        from <= to <= v@.len(),
    ensures
        s@ == v@.subrange(from as int, to as int),
{
    let mut out: Vec<char> = Vec::new();
    let mut i = from;
    while i < to
        invariant
            from <= i <= to <= v@.len(),
            out@ == v@.subrange(from as int, i as int),
        decreases to - i,
    {
        out.push(v[i]);
        proof {
            assert(v@.subrange(from as int, i + 1) =~= v@.subrange(from as int, i as int).push(v@[i as int]));
        }
        i = i + 1;
    }
    string_of(&out)
}

/// The function name at the end of `name` (see `fun_name_end`).
pub fn get_fun_name_end_of_string(name: &str, allow_first_char_digit: bool) -> (r: String)
    ensures
        r@ == fun_name_end(name@, allow_first_char_digit),
{
    let chars = chars_of(name);
    proof {
        lemma_trailing_name_len(chars@);
    }
    let mut count: usize = 0;
    while count < chars.len() && is_valid_char_for_function_name(chars[chars.len() - 1 - count])
        invariant
            count <= trailing_name_len(chars@),
            chars@ == name@,
            trailing_name_len(chars@) <= chars@.len(),
            forall|j: int| chars@.len() - trailing_name_len(chars@) <= j < chars@.len() ==> is_name_char(#[trigger] chars@[j]),
            trailing_name_len(chars@) < chars@.len() ==> !is_name_char(chars@[chars@.len() - trailing_name_len(chars@) - 1]),
        decreases chars.len() - count,
    {
        count = count + 1;
    }
    assert(count == trailing_name_len(chars@));
    if count == 0 {
        return String::new();
    }
    let start = chars.len() - count;
    let first = chars[start];
    if allow_first_char_digit || !('0' <= first && first <= '9') {
        string_of_range(&chars, start, chars.len())
    } else {
        String::new()
    }
}

// ---------------------------------------------------------------------------
// Step 1: bracket groups
// ---------------------------------------------------------------------------

/// Reading a bracket group whose text starts at `start`: the group and the position behind
/// its closing bracket (or the end of the text).
pub open spec fn bracket_group(input: Seq<char>, start: int) -> (ElementView, int)
    decreases input.len() - start, 1int,
{
    if start > input.len() {
        (ElementView::Brackets(Seq::empty()), start)
    } else {
        bracket_group_from(input, start, start, Seq::empty())
    }
}

/// The text piece `input[from..to]` as an unparsed string, added to the elements.
pub open spec fn push_text(elems: Seq<ElementView>, input: Seq<char>, from: int, to: int) -> Seq<ElementView> {
    elems.push(ElementView::String(input.subrange(from, to)))
}

/// Continuing a bracket group at `i`, whose current text piece starts at `start`.
pub open spec fn bracket_group_from(input: Seq<char>, start: int, i: int, elems: Seq<ElementView>) -> (ElementView, int)
    decreases input.len() - i, 0int,
{
    if i >= input.len() || i < start || start < 0 {
        (ElementView::Brackets(elems), i)
    } else if input[i] != '(' && input[i] != ')' {
        let elems2 = if i + 1 == input.len() && start < i + 1 { push_text(elems, input, start, i + 1) } else { elems };
        bracket_group_from(input, start, i + 1, elems2)
    } else if input[i] == '(' {
        let elems2 = if i > start { push_text(elems, input, start, i) } else { elems };
        let inner = bracket_group(input, i + 1);
        let j = if inner.1 > i && inner.1 <= input.len() { inner.1 } else { i + 1 };
        bracket_group_from(input, j, j, elems2.push(inner.0))
    } else {
        let elems2 = if i != start { push_text(elems, input, start, i) } else { elems };
        (ElementView::Brackets(elems2), i + 1)
    }
}

proof fn lemma_bracket_group_progress(input: Seq<char>, start: int)
    requires
        0 <= start <= input.len(),
    ensures
        start <= bracket_group(input, start).1 <= input.len(),
    decreases input.len() - start, 1int,
{
    lemma_bracket_group_from_progress(input, start, start, Seq::empty());
}

proof fn lemma_bracket_group_from_progress(input: Seq<char>, start: int, i: int, elems: Seq<ElementView>)
    requires
        0 <= start <= i <= input.len(),
    ensures
        i <= bracket_group_from(input, start, i, elems).1 <= input.len(),
    decreases input.len() - i, 0int,
{
    if i >= input.len() {
    } else if input[i] != '(' && input[i] != ')' {
        let elems2 = if i + 1 == input.len() && start < i + 1 { push_text(elems, input, start, i + 1) } else { elems };
        lemma_bracket_group_from_progress(input, start, i + 1, elems2);
    } else if input[i] == '(' {
        let elems2 = if i > start { push_text(elems, input, start, i) } else { elems };
        lemma_bracket_group_progress(input, i + 1);
        let inner = bracket_group(input, i + 1);
        let j = if inner.1 > i && inner.1 <= input.len() { inner.1 } else { i + 1 };
        lemma_bracket_group_from_progress(input, j, j, elems2.push(inner.0));
    }
}

impl Element {
    /// Step 1: reads the text from `*start` on into nested bracket groups of unparsed
    /// strings, up to the closing bracket of the group (or the end), and leaves `*start`
    /// behind it.
    pub fn resolve_brackets(input: &Vec<char>, start: &mut usize) -> (e: Element)
        requires
            *old(start) <= input@.len(),
        ensures
            (e@, *final(start) as int) == bracket_group(input@, *old(start) as int),
            *old(start) <= *final(start) <= input@.len(),
        decreases input@.len() - *old(start),
    {
        proof {
            lemma_bracket_group_progress(input@, *start as int);
        }
        let mut elements: Vec<Element> = Vec::new();
        let mut i = *start;
        while i < input.len()
            invariant_except_break
                *old(start) <= *start <= i <= input@.len(),
                bracket_group_from(input@, *start as int, i as int, view_seq(elements@))
                    == bracket_group(input@, *old(start) as int),
            ensures
                *old(start) <= *start <= input@.len(),
                i >= input@.len() ==> bracket_group_from(input@, *start as int, i as int, view_seq(elements@))
                    == bracket_group(input@, *old(start) as int) && *start <= i,
                i < input@.len() ==> input@[i as int] == ')' && bracket_group(input@, *old(start) as int)
                    == (ElementView::Brackets(view_seq(elements@)), i + 1) && *start <= i,
            decreases input@.len() - i,
        {
            let c = input[i];
            if c != '(' && c != ')' {
                i = i + 1;
                if i == input.len() && *start < i {
                    let s = Element::String(string_of_range(input, *start, i));
                    proof {
                        lemma_view_seq_push(elements@, s);
                    }
                    elements.push(s);
                }
                continue;
            }
            if c == '(' {
                if i > *start {
                    let s = Element::String(string_of_range(input, *start, i));
                    proof {
                        lemma_view_seq_push(elements@, s);
                    }
                    elements.push(s);
                }
                let ghost at = i;
                i = i + 1;
                let inner = Self::resolve_brackets(input, &mut i);
                proof {
                    lemma_view_seq_push(elements@, inner);
                }
                elements.push(inner);
                *start = i;
                assert(i > at);
            } else {
                if i != *start {
                    let s = Element::String(string_of_range(input, *start, i));
                    proof {
                        lemma_view_seq_push(elements@, s);
                    }
                    elements.push(s);
                }
                break;
            }
        }
        if i < input.len() {
            *start = i + 1;
            return Element::Brackets(elements);
        }
        *start = i;
        Element::Brackets(elements)
    }
}

// ---------------------------------------------------------------------------
// Whether anything is left unparsed
// ---------------------------------------------------------------------------

/// Whether unparsed brackets or text are left in the tree.
pub open spec fn unparsed(e: ElementView) -> bool
    decreases e,
{
    match e {
        ElementView::Brackets(_) => true,
        ElementView::String(_) => true,
        ElementView::Plus(s) => unparsed_any(s),
        ElementView::Multiply(s) => unparsed_any(s),
        ElementView::Function(_, s) => unparsed_any(s),
        ElementView::FunctionWithExpression(s, _) => unparsed_any(s),
        ElementView::Pow(a, b) => unparsed(*a) || unparsed(*b),
        ElementView::Negate(a) => unparsed(*a),
        _ => false,
    }
}

/// Whether one of the elements has something unparsed.
pub open spec fn unparsed_any(s: Seq<ElementView>) -> bool
    decreases s,
{
    if s.len() == 0 { false } else { unparsed_any(s.drop_last()) || unparsed(s.last()) }
}

proof fn lemma_unparsed_any(s: Seq<ElementView>)
    ensures
        unparsed_any(s) <==> exists|i: int| 0 <= i < s.len() && #[trigger] unparsed(s[i]),
    decreases s.len(),
{
    if s.len() > 0 {
        lemma_unparsed_any(s.drop_last());
        if unparsed(s.last()) {
            assert(unparsed(s[s.len() - 1]));
        }
        if unparsed_any(s.drop_last()) {
            let i = choose|i: int| 0 <= i < s.drop_last().len() && #[trigger] unparsed(s.drop_last()[i]);
            assert(unparsed(s[i]));
        }
        if exists|i: int| 0 <= i < s.len() && #[trigger] unparsed(s[i]) {
            let i = choose|i: int| 0 <= i < s.len() && #[trigger] unparsed(s[i]);
            if i < s.len() - 1 {
                assert(unparsed(s.drop_last()[i]));
            }
        }
    }
}

/// Whether one of the elements has something unparsed.
fn anything_unparsed_in(v: &Vec<Element>) -> (b: bool)
    ensures
        b == unparsed_any(view_seq(v@)),
    decreases v,
{
    proof {
        lemma_view_seq_len(v@);
        lemma_unparsed_any(view_seq(v@));
    }
    let mut i: usize = 0;
    while i < v.len()
        invariant
            i <= v@.len(),
            view_seq(v@).len() == v@.len(),
            forall|j: int| 0 <= j < i ==> !unparsed(#[trigger] view_seq(v@)[j]),
        decreases v.len() - i,
    {
        proof {
            lemma_view_seq_index(v@, i as int);
            assert(decreases_to!(v => v@[i as int]));
        }
        if v[i].anything_unparsed() {
            assert(unparsed(view_seq(v@)[i as int]));
            proof {
                lemma_unparsed_any(view_seq(v@));
            }
            return true;
        }
        i = i + 1;
    }
    false
}

impl Element {
    /// Whether unparsed brackets or text are left (see `unparsed`).
    pub fn anything_unparsed(&self) -> (b: bool)
        ensures
            b == unparsed(self@),
        decreases self,
    {
        match self {
            Element::Brackets(_) => true,
            Element::String(_) => true,
            Element::Plus(v) => anything_unparsed_in(v),
            Element::Multiply(v) => anything_unparsed_in(v),
            Element::Function { arguments, .. } => anything_unparsed_in(arguments),
            Element::FunctionWithExpression { arguments, .. } => anything_unparsed_in(arguments),
            Element::Pow(a, b) => a.anything_unparsed() || b.anything_unparsed(),
            Element::Negate(a) => a.anything_unparsed(),
            _ => false,
        }
    }
}

// ---------------------------------------------------------------------------
// Step 10: names that can only be variables
// ---------------------------------------------------------------------------

/// Names standing where only a value fits become variables: the operands of sums,
/// products, powers and negations, and the arguments of built-in functions. The
/// arguments of other functions stay ambiguous, as they may be functions themselves.
pub open spec fn to_variables(e: ElementView) -> ElementView
    decreases e, 0int,
{
    match e {
        ElementView::Plus(s) => ElementView::Plus(operands_to_variables(s)),
        ElementView::Multiply(s) => ElementView::Multiply(operands_to_variables(s)),
        ElementView::Function(n, s) => ElementView::Function(n, all_to_variables(s)),
        ElementView::Pow(a, b) => ElementView::Pow(Box::new(operand_to_variable(*a)), Box::new(operand_to_variable(*b))),
        ElementView::Negate(a) => ElementView::Negate(Box::new(operand_to_variable(*a))),
        ElementView::FunctionWithExpression(s, f) => ElementView::FunctionWithExpression(operands_to_variables(s), f),
        _ => e,
    }
}

/// An operand: an ambiguous name becomes a variable, anything else is searched further.
pub open spec fn operand_to_variable(e: ElementView) -> ElementView
    decreases e, 1int,
{
    match e {
        ElementView::VariableOrFunction(n) => ElementView::Variable(n),
        _ => to_variables(e),
    }
}

/// `operand_to_variable` on each element.
pub open spec fn operands_to_variables(s: Seq<ElementView>) -> Seq<ElementView>
    decreases s, 2int,
{
    if s.len() == 0 { s } else { operands_to_variables(s.drop_last()).push(operand_to_variable(s.last())) }
}

proof fn lemma_operands_to_variables(s: Seq<ElementView>)
    ensures
        operands_to_variables(s).len() == s.len(),
        forall|i: int| 0 <= i < s.len() ==> #[trigger] operands_to_variables(s)[i] == operand_to_variable(s[i]),
    decreases s.len(),
{
    if s.len() > 0 {
        lemma_operands_to_variables(s.drop_last());
        assert forall|i: int| 0 <= i < s.len() implies #[trigger] operands_to_variables(s)[i] == operand_to_variable(s[i]) by {
            if i < s.len() - 1 {
                assert(s.drop_last()[i] == s[i]);
            }
        }
    }
}

/// `to_variables` on each element.
pub open spec fn all_to_variables(s: Seq<ElementView>) -> Seq<ElementView>
    decreases s, 2int,
{
    if s.len() == 0 { s } else { all_to_variables(s.drop_last()).push(to_variables(s.last())) }
}

proof fn lemma_all_to_variables(s: Seq<ElementView>)
    ensures
        all_to_variables(s).len() == s.len(),
        forall|i: int| 0 <= i < s.len() ==> #[trigger] all_to_variables(s)[i] == to_variables(s[i]),
    decreases s.len(),
{
    if s.len() > 0 {
        lemma_all_to_variables(s.drop_last());
        assert forall|i: int| 0 <= i < s.len() implies #[trigger] all_to_variables(s)[i] == to_variables(s[i]) by {
            if i < s.len() - 1 {
                assert(s.drop_last()[i] == s[i]);
            }
        }
    }
}

/// Converts each operand (see `operand_to_variable`).
fn operands_to_variables_exec(v: &mut Vec<Element>)
    ensures
        view_seq(final(v)@) == operands_to_variables(view_seq(old(v)@)),
        crate::insertion::all_wf(old(v)@) ==> crate::insertion::all_wf(final(v)@),
    decreases *old(v), 0int,
{
    let ghost old_v = v@;
    let mut i: usize = 0;
    while i < v.len()
        invariant
            i <= v@.len(),
            v@.len() == old_v.len(),
            old_v == old(v)@,
            crate::insertion::all_wf(old_v) ==> crate::insertion::all_wf(v@),
            forall|j: int| 0 <= j < i ==> (#[trigger] v@[j])@ == operand_to_variable(old_v[j]@),
            forall|j: int| i <= j < v@.len() ==> (#[trigger] v@[j]) == old_v[j],
        decreases v.len() - i,
    {
        proof {
            assert(decreases_to!(*old(v) => old_v[i as int]));
        }
        if !v[i].try_convert_to_variable() {
            v[i].convert_to_variables_where_possible();
        };
        i = i + 1;
    }
    proof {
        lemma_view_seq_len(v@);
        lemma_view_seq_len(old_v);
        lemma_operands_to_variables(view_seq(old_v));
        assert forall|j: int| 0 <= j < v@.len() implies view_seq(v@)[j] == operands_to_variables(view_seq(old_v))[j] by {
            lemma_view_seq_index(v@, j);
            lemma_view_seq_index(old_v, j);
        }
    }
    assert(view_seq(v@) =~= operands_to_variables(view_seq(old_v)));
}

/// Converts inside each element (see `to_variables`).
fn all_to_variables_exec(v: &mut Vec<Element>)
    ensures
        view_seq(final(v)@) == all_to_variables(view_seq(old(v)@)),
        crate::insertion::all_wf(old(v)@) ==> crate::insertion::all_wf(final(v)@),
    decreases *old(v), 0int,
{
    let ghost old_v = v@;
    let mut i: usize = 0;
    while i < v.len()
        invariant
            i <= v@.len(),
            v@.len() == old_v.len(),
            old_v == old(v)@,
            crate::insertion::all_wf(old_v) ==> crate::insertion::all_wf(v@),
            forall|j: int| 0 <= j < i ==> (#[trigger] v@[j])@ == to_variables(old_v[j]@),
            forall|j: int| i <= j < v@.len() ==> (#[trigger] v@[j]) == old_v[j],
        decreases v.len() - i,
    {
        proof {
            assert(decreases_to!(*old(v) => old_v[i as int]));
        }
        v[i].convert_to_variables_where_possible();
        i = i + 1;
    }
    proof {
        lemma_view_seq_len(v@);
        lemma_view_seq_len(old_v);
        lemma_all_to_variables(view_seq(old_v));
        assert forall|j: int| 0 <= j < v@.len() implies view_seq(v@)[j] == all_to_variables(view_seq(old_v))[j] by {
            lemma_view_seq_index(v@, j);
            lemma_view_seq_index(old_v, j);
        }
    }
    assert(view_seq(v@) =~= all_to_variables(view_seq(old_v)));
}

impl Element {
    /// Step 10 (see `to_variables`).
    pub fn convert_to_variables_where_possible(&mut self)
        ensures
            final(self)@ == to_variables(old(self)@),
            old(self).wf() ==> final(self).wf(),
        decreases *old(self), 1int,
    {
        match self {
            Element::Plus(v) => operands_to_variables_exec(v),
            Element::Multiply(v) => operands_to_variables_exec(v),
            Element::Function { arguments, .. } => all_to_variables_exec(arguments),
            Element::Pow(a, b) => {
                if !a.try_convert_to_variable() {
                    a.convert_to_variables_where_possible();
                }
                if !b.try_convert_to_variable() {
                    b.convert_to_variables_where_possible();
                }
            },
            Element::Negate(x) => {
                if !x.try_convert_to_variable() {
                    x.convert_to_variables_where_possible();
                }
            },
            Element::FunctionWithExpression { arguments, .. } => operands_to_variables_exec(arguments),
            _ => {},
        }
    }

    /// Turns an ambiguous name into a variable; whether it was one.
    pub fn try_convert_to_variable(&mut self) -> (b: bool)
        ensures
            b == (old(self)@ is VariableOrFunction),
            b ==> final(self)@ == operand_to_variable(old(self)@),
            !b ==> *final(self) == *old(self),
            old(self).wf() ==> final(self).wf(),
    {
        match self {
            Element::VariableOrFunction(name) => {
                let n = name.clone();
                *self = Element::Variable(n);
                true
            },
            _ => false,
        }
    }
}

// ---------------------------------------------------------------------------
// Step 8: numbers and names
// ---------------------------------------------------------------------------

/// The number a text reads as, if `Number::from_string` accepts it (texts of 2^31 - 1
/// characters or more are not read as numbers).
pub open spec fn text_number(s: Seq<char>) -> Option<NumberView> {
    if s.len() < 0x7fff_ffff {
        match number_text(s) {
            Some((num, den)) => Some(NumberView::Rational(lowest_terms(num, den).0, lowest_terms(num, den).1)),
            None => None,
        }
    } else {
        None
    }
}

/// Whether all characters are name characters.
pub open spec fn all_name_chars(s: Seq<char>) -> bool {
    forall|i: int| 0 <= i < s.len() ==> is_name_char(#[trigger] s[i])
}

/// Text becomes a number where it reads as one, else a name where it is made of name
/// characters, else it stays.
pub open spec fn text_to_value(s: Seq<char>) -> ElementView {
    match text_number(s) {
        Some(n) => ElementView::Number(n),
        None => if all_name_chars(s) { ElementView::VariableOrFunction(s) } else { ElementView::String(s) },
    }
}

/// Step 8: texts become numbers and names; a text argument of a function becomes a
/// number or a name, whatever its characters.
pub open spec fn numbers_and_names(e: ElementView) -> ElementView
    decreases e, 0int,
{
    match e {
        ElementView::String(s) => text_to_value(s),
        ElementView::Brackets(s) => ElementView::Brackets(all_numbers_and_names(s)),
        ElementView::Multiply(s) => ElementView::Multiply(all_numbers_and_names(s)),
        ElementView::Plus(s) => ElementView::Plus(all_numbers_and_names(s)),
        ElementView::Negate(a) => ElementView::Negate(Box::new(numbers_and_names(*a))),
        ElementView::Pow(a, b) => ElementView::Pow(Box::new(numbers_and_names(*a)), Box::new(numbers_and_names(*b))),
        ElementView::Function(n, s) => ElementView::Function(n, arguments_numbers_and_names(s)),
        _ => e,
    }
}

/// A function argument: a text becomes a number or a name.
pub open spec fn argument_number_or_name(e: ElementView) -> ElementView
    decreases e, 1int,
{
    match e {
        ElementView::String(s) => match text_number(s) {
            Some(n) => ElementView::Number(n),
            None => ElementView::VariableOrFunction(s),
        },
        _ => numbers_and_names(e),
    }
}

/// `numbers_and_names` on each element.
pub open spec fn all_numbers_and_names(s: Seq<ElementView>) -> Seq<ElementView>
    decreases s, 2int,
{
    if s.len() == 0 { s } else { all_numbers_and_names(s.drop_last()).push(numbers_and_names(s.last())) }
}

proof fn lemma_all_numbers_and_names(s: Seq<ElementView>)
    ensures
        all_numbers_and_names(s).len() == s.len(),
        forall|i: int| 0 <= i < s.len() ==> #[trigger] all_numbers_and_names(s)[i] == numbers_and_names(s[i]),
    decreases s.len(),
{
    if s.len() > 0 {
        lemma_all_numbers_and_names(s.drop_last());
        assert forall|i: int| 0 <= i < s.len() implies #[trigger] all_numbers_and_names(s)[i] == numbers_and_names(s[i]) by {
            if i < s.len() - 1 {
                assert(s.drop_last()[i] == s[i]);
            }
        }
    }
}

/// `argument_number_or_name` on each element.
pub open spec fn arguments_numbers_and_names(s: Seq<ElementView>) -> Seq<ElementView>
    decreases s, 2int,
{
    if s.len() == 0 { s } else { arguments_numbers_and_names(s.drop_last()).push(argument_number_or_name(s.last())) }
}

proof fn lemma_arguments_numbers_and_names(s: Seq<ElementView>)
    ensures
        arguments_numbers_and_names(s).len() == s.len(),
        forall|i: int| 0 <= i < s.len() ==> #[trigger] arguments_numbers_and_names(s)[i] == argument_number_or_name(s[i]),
    decreases s.len(),
{
    if s.len() > 0 {
        lemma_arguments_numbers_and_names(s.drop_last());
        assert forall|i: int| 0 <= i < s.len() implies #[trigger] arguments_numbers_and_names(s)[i] == argument_number_or_name(s[i]) by {
            if i < s.len() - 1 {
                assert(s.drop_last()[i] == s[i]);
            }
        }
    }
}

/// Step 8 on each element.
fn all_numbers_and_names_exec(v: &mut Vec<Element>)
    ensures
        view_seq(final(v)@) == all_numbers_and_names(view_seq(old(v)@)),
        crate::insertion::all_wf(old(v)@) ==> crate::insertion::all_wf(final(v)@),
    decreases *old(v), 0int,
{
    let ghost old_v = v@;
    let mut i: usize = 0;
    while i < v.len()
        invariant
            i <= v@.len(),
            v@.len() == old_v.len(),
            old_v == old(v)@,
            crate::insertion::all_wf(old_v) ==> crate::insertion::all_wf(v@),
            forall|j: int| 0 <= j < i ==> (#[trigger] v@[j])@ == numbers_and_names(old_v[j]@),
            forall|j: int| i <= j < v@.len() ==> (#[trigger] v@[j]) == old_v[j],
        decreases v.len() - i,
    {
        proof {
            assert(decreases_to!(*old(v) => old_v[i as int]));
        }
        v[i].process_numbers_and_variables();
        i = i + 1;
    }
    proof {
        lemma_view_seq_len(v@);
        lemma_view_seq_len(old_v);
        lemma_all_numbers_and_names(view_seq(old_v));
        assert forall|j: int| 0 <= j < v@.len() implies view_seq(v@)[j] == all_numbers_and_names(view_seq(old_v))[j] by {
            lemma_view_seq_index(v@, j);
            lemma_view_seq_index(old_v, j);
        }
    }
    assert(view_seq(v@) =~= all_numbers_and_names(view_seq(old_v)));
}

/// Step 8 on each function argument.
fn arguments_numbers_and_names_exec(v: &mut Vec<Element>)
    ensures
        view_seq(final(v)@) == arguments_numbers_and_names(view_seq(old(v)@)),
        crate::insertion::all_wf(old(v)@) ==> crate::insertion::all_wf(final(v)@),
    decreases *old(v), 0int,
{
    let ghost old_v = v@;
    let mut i: usize = 0;
    while i < v.len()
        invariant
            i <= v@.len(),
            v@.len() == old_v.len(),
            old_v == old(v)@,
            crate::insertion::all_wf(old_v) ==> crate::insertion::all_wf(v@),
            forall|j: int| 0 <= j < i ==> (#[trigger] v@[j])@ == argument_number_or_name(old_v[j]@),
            forall|j: int| i <= j < v@.len() ==> (#[trigger] v@[j]) == old_v[j],
        decreases v.len() - i,
    {
        proof {
            assert(decreases_to!(*old(v) => old_v[i as int]));
        }
        v[i].process_argument();
        i = i + 1;
    }
    proof {
        lemma_view_seq_len(v@);
        lemma_view_seq_len(old_v);
        lemma_arguments_numbers_and_names(view_seq(old_v));
        assert forall|j: int| 0 <= j < v@.len() implies view_seq(v@)[j] == arguments_numbers_and_names(view_seq(old_v))[j] by {
            lemma_view_seq_index(v@, j);
            lemma_view_seq_index(old_v, j);
        }
    }
    assert(view_seq(v@) =~= arguments_numbers_and_names(view_seq(old_v)));
}

/// Reads a text as a number (see `text_number`).
fn read_number(s: &String) -> (r: Option<Number>)
    ensures
        match r {
            Some(n) => text_number(s@) == Some(crate::element::number_view(n)) && n.wf(),
            None => text_number(s@) is None,
        },
{
    if chars_of(s.as_str()).len() >= 0x7fff_ffff {
        return None;
    }
    let r = Number::from_string(s.as_str());
    r
}

/// Whether all characters are name characters.
fn all_name_chars_exec(s: &String) -> (b: bool)
    ensures
        b == all_name_chars(s@),
{
    let cs = chars_of(s.as_str());
    let mut i: usize = 0;
    while i < cs.len()
        invariant
            i <= cs@.len(),
            cs@ == s@,
            forall|j: int| 0 <= j < i ==> is_name_char(#[trigger] cs@[j]),
        decreases cs.len() - i,
    {
        if !is_valid_char_for_function_name(cs[i]) {
            assert(!is_name_char(s@[i as int]));
            return false;
        }
        i = i + 1;
    }
    true
}

impl Element {
    /// Step 8 (see `numbers_and_names`).
    pub fn process_numbers_and_variables(&mut self)
        ensures
            final(self)@ == numbers_and_names(old(self)@),
            old(self).wf() ==> final(self).wf(),
        decreases *old(self), 1int,
    {
        match self {
            Element::String(s) => {
                let new = match read_number(s) {
                    Some(n) => Some(Element::Number(n)),
                    None => if all_name_chars_exec(s) { Some(Element::VariableOrFunction(s.clone())) } else { None },
                };
                if let Some(x) = new {
                    *self = x;
                }
            },
            Element::Brackets(v) => all_numbers_and_names_exec(v),
            Element::Multiply(v) => all_numbers_and_names_exec(v),
            Element::Plus(v) => all_numbers_and_names_exec(v),
            Element::Negate(a) => a.process_numbers_and_variables(),
            Element::Pow(a, b) => {
                a.process_numbers_and_variables();
                b.process_numbers_and_variables();
            },
            Element::Function { arguments, .. } => arguments_numbers_and_names_exec(arguments),
            _ => {},
        }
    }

    /// Step 8 on a function argument (see `argument_number_or_name`).
    fn process_argument(&mut self)
        ensures
            final(self)@ == argument_number_or_name(old(self)@),
            old(self).wf() ==> final(self).wf(),
        decreases *old(self), 2int,
    {
        match self {
            Element::String(s) => {
                let new = match read_number(s) {
                    Some(n) => Element::Number(n),
                    None => Element::VariableOrFunction(s.clone()),
                };
                *self = new;
            },
            _ => self.process_numbers_and_variables(),
        }
    }
}

// ---------------------------------------------------------------------------
// Step 9: brackets that are no longer needed
// ---------------------------------------------------------------------------

/// Whether `e` is an empty bracket group.
pub open spec fn is_empty_brackets(e: ElementView) -> bool {
    e matches ElementView::Brackets(s) && s.len() == 0
}

/// The elements without empty bracket groups.
pub open spec fn without_empty_brackets(s: Seq<ElementView>) -> Seq<ElementView>
    decreases s.len(),
{
    if s.len() == 0 {
        s
    } else if is_empty_brackets(s.last()) {
        without_empty_brackets(s.drop_last())
    } else {
        without_empty_brackets(s.drop_last()).push(s.last())
    }
}

/// Step 9: a bracket group of one element is that element; empty bracket groups among
/// the operands and arguments are dropped.
pub open spec fn outer_brackets_removed(e: ElementView) -> ElementView
    decreases e, 0int,
{
    match e {
        ElementView::Brackets(s) => {
            let t = all_outer_brackets_removed(s);
            if t.len() == 1 { t[0] } else { ElementView::Brackets(t) }
        },
        ElementView::Plus(s) => ElementView::Plus(without_empty_brackets(all_outer_brackets_removed(s))),
        ElementView::Multiply(s) => ElementView::Multiply(without_empty_brackets(all_outer_brackets_removed(s))),
        ElementView::Function(n, s) => ElementView::Function(n, without_empty_brackets(all_outer_brackets_removed(s))),
        ElementView::Pow(a, b) => ElementView::Pow(Box::new(outer_brackets_removed(*a)), Box::new(outer_brackets_removed(*b))),
        ElementView::Negate(a) => ElementView::Negate(Box::new(outer_brackets_removed(*a))),
        _ => e,
    }
}

/// `outer_brackets_removed` on each element.
pub open spec fn all_outer_brackets_removed(s: Seq<ElementView>) -> Seq<ElementView>
    decreases s, 2int,
{
    if s.len() == 0 { s } else { all_outer_brackets_removed(s.drop_last()).push(outer_brackets_removed(s.last())) }
}

proof fn lemma_all_outer_brackets_removed(s: Seq<ElementView>)
    ensures
        all_outer_brackets_removed(s).len() == s.len(),
        forall|i: int| 0 <= i < s.len() ==> #[trigger] all_outer_brackets_removed(s)[i] == outer_brackets_removed(s[i]),
    decreases s.len(),
{
    if s.len() > 0 {
        lemma_all_outer_brackets_removed(s.drop_last());
        assert forall|i: int| 0 <= i < s.len() implies #[trigger] all_outer_brackets_removed(s)[i] == outer_brackets_removed(s[i]) by {
            if i < s.len() - 1 {
                assert(s.drop_last()[i] == s[i]);
            }
        }
    }
}

/// Step 9 on each element.
fn all_outer_brackets_removed_exec(v: &mut Vec<Element>)
    ensures
        view_seq(final(v)@) == all_outer_brackets_removed(view_seq(old(v)@)),
        crate::insertion::all_wf(old(v)@) ==> crate::insertion::all_wf(final(v)@),
    decreases *old(v), 0int,
{
    let ghost old_v = v@;
    let mut i: usize = 0;
    while i < v.len()
        invariant
            i <= v@.len(),
            v@.len() == old_v.len(),
            old_v == old(v)@,
            crate::insertion::all_wf(old_v) ==> crate::insertion::all_wf(v@),
            forall|j: int| 0 <= j < i ==> (#[trigger] v@[j])@ == outer_brackets_removed(old_v[j]@),
            forall|j: int| i <= j < v@.len() ==> (#[trigger] v@[j]) == old_v[j],
        decreases v.len() - i,
    {
        proof {
            assert(decreases_to!(*old(v) => old_v[i as int]));
        }
        v[i].remove_unneeded_outer_brackets();
        i = i + 1;
    }
    proof {
        lemma_view_seq_len(v@);
        lemma_view_seq_len(old_v);
        lemma_all_outer_brackets_removed(view_seq(old_v));
        assert forall|j: int| 0 <= j < v@.len() implies view_seq(v@)[j] == all_outer_brackets_removed(view_seq(old_v))[j] by {
            lemma_view_seq_index(v@, j);
            lemma_view_seq_index(old_v, j);
        }
    }
    assert(view_seq(v@) =~= all_outer_brackets_removed(view_seq(old_v)));
}

/// Drops the empty bracket groups (see `without_empty_brackets`).
fn drop_empty_brackets(v: &mut Vec<Element>)
    ensures
        view_seq(final(v)@) == without_empty_brackets(view_seq(old(v)@)),
        crate::insertion::all_wf(old(v)@) ==> crate::insertion::all_wf(final(v)@),
{
    let mut rest: Vec<Element> = Vec::new();
    std::mem::swap(&mut rest, v);
    proof {
        lemma_view_seq_len(rest@);
    }
    let mut i: usize = 0;
    while i < rest.len()
        invariant
            i <= rest@.len(),
            rest@ == old(v)@,
            view_seq(rest@).len() == rest@.len(),
            view_seq(v@) == without_empty_brackets(view_seq(rest@).take(i as int)),
            crate::insertion::all_wf(rest@) ==> crate::insertion::all_wf(v@),
        decreases rest.len() - i,
    {
        proof {
            lemma_view_seq_index(rest@, i as int);
            assert(view_seq(rest@).take(i + 1).drop_last() =~= view_seq(rest@).take(i as int));
        }
        let empty = match &rest[i] {
            Element::Brackets(b) => {
                proof {
                    lemma_view_seq_len(b@);
                }
                b.len() == 0
            },
            _ => false,
        };
        assert(empty == is_empty_brackets(view_seq(rest@)[i as int]));
        if !empty {
            let x = rest[i].duplicate();
            proof {
                lemma_view_seq_push(v@, x);
            }
            v.push(x);
        }
        i = i + 1;
    }
    assert(view_seq(rest@).take(i as int) =~= view_seq(rest@));
}

impl Element {
    /// Step 9 (see `outer_brackets_removed`).
    pub fn remove_unneeded_outer_brackets(&mut self)
        ensures
            final(self)@ == outer_brackets_removed(old(self)@),
            old(self).wf() ==> final(self).wf(),
        decreases *old(self), 1int,
    {
        match self {
            Element::Brackets(v) => {
                all_outer_brackets_removed_exec(v);
                proof {
                    lemma_view_seq_len(v@);
                }
                if v.len() == 1 {
                    proof {
                        lemma_view_seq_index(v@, 0);
                    }
                    let x = v.remove(0);
                    *self = x;
                }
            },
            Element::Plus(v) => {
                all_outer_brackets_removed_exec(v);
                drop_empty_brackets(v);
            },
            Element::Multiply(v) => {
                all_outer_brackets_removed_exec(v);
                drop_empty_brackets(v);
            },
            Element::Function { arguments, .. } => {
                all_outer_brackets_removed_exec(arguments);
                drop_empty_brackets(arguments);
            },
            Element::Pow(a, b) => {
                a.remove_unneeded_outer_brackets();
                b.remove_unneeded_outer_brackets();
            },
            Element::Negate(a) => a.remove_unneeded_outer_brackets(),
            _ => {},
        }
    }
}

// ---------------------------------------------------------------------------
// Steps 2 and 3: sums and products
// ---------------------------------------------------------------------------

/// 1 for a bracket group with `d` in one of its strings, else 0.
pub open spec fn split_flag(e: ElementView, d: char) -> int {
    if e matches ElementView::Brackets(es) && list_contains_char(es, d) { 1 } else { 0 }
}

/// Step 2: a bracket group with `+` in its strings becomes the sum of the groups between
/// the `+`; text with `+` becomes the sum of its pieces. The pass continues into bracket
/// groups, sums it made and function arguments.
pub open spec fn plus_pass(e: ElementView) -> ElementView
    decreases height(e), split_flag(e, '+'), 0int,
{
    match e {
        ElementView::Brackets(es) => match split_list(es, '+') {
            Some(g) => ElementView::Plus(plus_groups(g, height(e))),
            None => ElementView::Brackets(plus_all(es)),
        },
        ElementView::Function(n, args) => ElementView::Function(n, plus_all(args)),
        ElementView::String(t) => match split_text(t, '+') {
            Some(p) => ElementView::Plus(p),
            None => e,
        },
        _ => e,
    }
}

/// `plus_pass` on each element.
pub open spec fn plus_all(s: Seq<ElementView>) -> Seq<ElementView>
    decreases max_height(s), 2int, s.len(),
{
    if s.len() == 0 { s } else { plus_all(s.drop_last()).push(plus_pass(s.last())) }
}

proof fn lemma_plus_all(s: Seq<ElementView>)
    ensures
        plus_all(s).len() == s.len(),
        forall|i: int| 0 <= i < s.len() ==> #[trigger] plus_all(s)[i] == plus_pass(s[i]),
    decreases s.len(),
{
    if s.len() > 0 {
        lemma_plus_all(s.drop_last());
        assert forall|i: int| 0 <= i < s.len() implies #[trigger] plus_all(s)[i] == plus_pass(s[i]) by {
            if i < s.len() - 1 {
                assert(s.drop_last()[i] == s[i]);
            }
        }
    }
}

/// `plus_pass` on each group cut from a bracket group of height `m`.
pub open spec fn plus_groups(g: Seq<ElementView>, m: nat) -> Seq<ElementView>
    decreases m, 0int, g.len(),
{
    if g.len() == 0 {
        g
    } else {
        let x = g.last();
        plus_groups(g.drop_last(), m).push(if m >= 1 && fitting_group(x, '+', (m - 1) as nat) { plus_pass(x) } else { x })
    }
}

proof fn lemma_plus_groups(g: Seq<ElementView>, m: nat)
    requires
        m >= 1,
        fitting_groups(g, '+', (m - 1) as nat),
    ensures
        plus_groups(g, m).len() == g.len(),
        forall|i: int| 0 <= i < g.len() ==> #[trigger] plus_groups(g, m)[i] == plus_pass(g[i]),
    decreases g.len(),
{
    if g.len() > 0 {
        assert(fitting_groups(g.drop_last(), '+', (m - 1) as nat)) by {
            assert forall|i: int| 0 <= i < g.drop_last().len() implies fitting_group(#[trigger] g.drop_last()[i], '+', (m - 1) as nat) by {
                assert(g.drop_last()[i] == g[i]);
            }
        }
        lemma_plus_groups(g.drop_last(), m);
        assert(fitting_group(g[g.len() - 1], '+', (m - 1) as nat));
        assert forall|i: int| 0 <= i < g.len() implies #[trigger] plus_groups(g, m)[i] == plus_pass(g[i]) by {
            if i < g.len() - 1 {
                assert(g.drop_last()[i] == g[i]);
            }
        }
    }
}

/// Step 2 on each element.
fn plus_all_exec(v: &mut Vec<Element>)
    ensures
        view_seq(final(v)@) == plus_all(view_seq(old(v)@)),
    decreases max_height(view_seq(old(v)@)), 2int, old(v)@.len(),
{
    let ghost old_v = v@;
    proof {
        lemma_view_seq_len(old_v);
        lemma_max_height(view_seq(old_v));
    }
    let mut i: usize = 0;
    while i < v.len()
        invariant
            i <= v@.len(),
            v@.len() == old_v.len(),
            old_v == old(v)@,
            view_seq(old_v).len() == old_v.len(),
            forall|j: int| 0 <= j < view_seq(old_v).len() ==> height(#[trigger] view_seq(old_v)[j]) <= max_height(view_seq(old_v)),
            forall|j: int| 0 <= j < i ==> (#[trigger] v@[j])@ == plus_pass(old_v[j]@),
            forall|j: int| i <= j < v@.len() ==> (#[trigger] v@[j]) == old_v[j],
        decreases v.len() - i,
    {
        proof {
            lemma_view_seq_index(old_v, i as int);
        }
        v[i].process_plus();
        i = i + 1;
    }
    proof {
        lemma_view_seq_len(v@);
        lemma_plus_all(view_seq(old_v));
        assert forall|j: int| 0 <= j < v@.len() implies view_seq(v@)[j] == plus_all(view_seq(old_v))[j] by {
            lemma_view_seq_index(v@, j);
            lemma_view_seq_index(old_v, j);
        }
    }
    assert(view_seq(v@) =~= plus_all(view_seq(old_v)));
}

/// Step 2 on each group.
fn plus_groups_exec(v: &mut Vec<Element>, Ghost(m): Ghost<nat>)
    requires
        m >= 1,
        fitting_groups(view_seq(old(v)@), '+', (m - 1) as nat),
    ensures
        view_seq(final(v)@) == plus_groups(view_seq(old(v)@), m),
    decreases m, 0int, old(v)@.len(),
{
    let ghost old_v = v@;
    proof {
        lemma_view_seq_len(old_v);
    }
    let mut i: usize = 0;
    while i < v.len()
        invariant
            i <= v@.len(),
            v@.len() == old_v.len(),
            old_v == old(v)@,
            m >= 1,
            view_seq(old_v).len() == old_v.len(),
            fitting_groups(view_seq(old_v), '+', (m - 1) as nat),
            forall|j: int| 0 <= j < i ==> (#[trigger] v@[j])@ == plus_pass(old_v[j]@),
            forall|j: int| i <= j < v@.len() ==> (#[trigger] v@[j]) == old_v[j],
        decreases v.len() - i,
    {
        proof {
            lemma_view_seq_index(old_v, i as int);
            assert(fitting_group(view_seq(old_v)[i as int], '+', (m - 1) as nat));
        }
        v[i].process_plus();
        i = i + 1;
    }
    proof {
        lemma_view_seq_len(v@);
        lemma_plus_groups(view_seq(old_v), m);
        assert forall|j: int| 0 <= j < v@.len() implies view_seq(v@)[j] == plus_groups(view_seq(old_v), m)[j] by {
            lemma_view_seq_index(v@, j);
            lemma_view_seq_index(old_v, j);
        }
    }
    assert(view_seq(v@) =~= plus_groups(view_seq(old_v), m));
}

impl Element {
    /// Step 2 (see `plus_pass`).
    pub fn process_plus(&mut self)
        ensures
            final(self)@ == plus_pass(old(self)@),
        decreases height(old(self)@), split_flag(old(self)@, '+'), 0int,
    {
        let ghost h = height(self@);
        match self {
            Element::Brackets(elements) => {
                match split_list_by_char(elements, '+') {
                    Some(mut groups) => {
                        proof {
                            lemma_split_list_groups(view_seq(elements@), '+');
                        }
                        plus_groups_exec(&mut groups, Ghost(h));
                        *self = Element::Plus(groups);
                    },
                    None => plus_all_exec(elements),
                }
            },
            Element::Function { arguments, .. } => plus_all_exec(arguments),
            Element::String(t) => {
                if let Some(pieces) = split_string_by_char(t.as_str(), '+') {
                    *self = Element::Plus(pieces);
                }
            },
            _ => {},
        }
    }
}

/// Step 3: a bracket group with `*` in its strings becomes the product of the groups
/// between the `*`; text with `*` becomes the product of its pieces. The pass continues
/// into bracket groups, products it made, sums, negations and function arguments.
pub open spec fn multiply_pass(e: ElementView) -> ElementView
    decreases height(e), split_flag(e, '*'), 0int,
{
    match e {
        ElementView::Brackets(es) => match split_list(es, '*') {
            Some(g) => ElementView::Multiply(multiply_groups(g, height(e))),
            None => ElementView::Brackets(multiply_all(es)),
        },
        ElementView::Plus(s) => ElementView::Plus(multiply_all(s)),
        ElementView::Negate(a) => ElementView::Negate(Box::new(multiply_pass(*a))),
        ElementView::Function(n, args) => ElementView::Function(n, multiply_all(args)),
        ElementView::String(t) => match split_text(t, '*') {
            Some(p) => ElementView::Multiply(p),
            None => e,
        },
        _ => e,
    }
}

/// `multiply_pass` on each element.
pub open spec fn multiply_all(s: Seq<ElementView>) -> Seq<ElementView>
    decreases max_height(s), 2int, s.len(),
{
    if s.len() == 0 { s } else { multiply_all(s.drop_last()).push(multiply_pass(s.last())) }
}

proof fn lemma_multiply_all(s: Seq<ElementView>)
    ensures
        multiply_all(s).len() == s.len(),
        forall|i: int| 0 <= i < s.len() ==> #[trigger] multiply_all(s)[i] == multiply_pass(s[i]),
    decreases s.len(),
{
    if s.len() > 0 {
        lemma_multiply_all(s.drop_last());
        assert forall|i: int| 0 <= i < s.len() implies #[trigger] multiply_all(s)[i] == multiply_pass(s[i]) by {
            if i < s.len() - 1 {
                assert(s.drop_last()[i] == s[i]);
            }
        }
    }
}

/// `multiply_pass` on each group cut from a bracket group of height `m`.
pub open spec fn multiply_groups(g: Seq<ElementView>, m: nat) -> Seq<ElementView>
    decreases m, 0int, g.len(),
{
    if g.len() == 0 {
        g
    } else {
        let x = g.last();
        multiply_groups(g.drop_last(), m).push(if m >= 1 && fitting_group(x, '*', (m - 1) as nat) { multiply_pass(x) } else { x })
    }
}

proof fn lemma_multiply_groups(g: Seq<ElementView>, m: nat)
    requires
        m >= 1,
        fitting_groups(g, '*', (m - 1) as nat),
    ensures
        multiply_groups(g, m).len() == g.len(),
        forall|i: int| 0 <= i < g.len() ==> #[trigger] multiply_groups(g, m)[i] == multiply_pass(g[i]),
    decreases g.len(),
{
    if g.len() > 0 {
        assert(fitting_groups(g.drop_last(), '*', (m - 1) as nat)) by {
            assert forall|i: int| 0 <= i < g.drop_last().len() implies fitting_group(#[trigger] g.drop_last()[i], '*', (m - 1) as nat) by {
                assert(g.drop_last()[i] == g[i]);
            }
        }
        lemma_multiply_groups(g.drop_last(), m);
        assert(fitting_group(g[g.len() - 1], '*', (m - 1) as nat));
        assert forall|i: int| 0 <= i < g.len() implies #[trigger] multiply_groups(g, m)[i] == multiply_pass(g[i]) by {
            if i < g.len() - 1 {
                assert(g.drop_last()[i] == g[i]);
            }
        }
    }
}

/// Step 3 on each element.
fn multiply_all_exec(v: &mut Vec<Element>)
    ensures
        view_seq(final(v)@) == multiply_all(view_seq(old(v)@)),
    decreases max_height(view_seq(old(v)@)), 2int, old(v)@.len(),
{
    let ghost old_v = v@;
    proof {
        lemma_view_seq_len(old_v);
        lemma_max_height(view_seq(old_v));
    }
    let mut i: usize = 0;
    while i < v.len()
        invariant
            i <= v@.len(),
            v@.len() == old_v.len(),
            old_v == old(v)@,
            view_seq(old_v).len() == old_v.len(),
            forall|j: int| 0 <= j < view_seq(old_v).len() ==> height(#[trigger] view_seq(old_v)[j]) <= max_height(view_seq(old_v)),
            forall|j: int| 0 <= j < i ==> (#[trigger] v@[j])@ == multiply_pass(old_v[j]@),
            forall|j: int| i <= j < v@.len() ==> (#[trigger] v@[j]) == old_v[j],
        decreases v.len() - i,
    {
        proof {
            lemma_view_seq_index(old_v, i as int);
        }
        v[i].process_multiply();
        i = i + 1;
    }
    proof {
        lemma_view_seq_len(v@);
        lemma_multiply_all(view_seq(old_v));
        assert forall|j: int| 0 <= j < v@.len() implies view_seq(v@)[j] == multiply_all(view_seq(old_v))[j] by {
            lemma_view_seq_index(v@, j);
            lemma_view_seq_index(old_v, j);
        }
    }
    assert(view_seq(v@) =~= multiply_all(view_seq(old_v)));
}

/// Step 3 on each group.
fn multiply_groups_exec(v: &mut Vec<Element>, Ghost(m): Ghost<nat>)
    requires
        m >= 1,
        fitting_groups(view_seq(old(v)@), '*', (m - 1) as nat),
    ensures
        view_seq(final(v)@) == multiply_groups(view_seq(old(v)@), m),
    decreases m, 0int, old(v)@.len(),
{
    let ghost old_v = v@;
    proof {
        lemma_view_seq_len(old_v);
    }
    let mut i: usize = 0;
    while i < v.len()
        invariant
            i <= v@.len(),
            v@.len() == old_v.len(),
            old_v == old(v)@,
            m >= 1,
            view_seq(old_v).len() == old_v.len(),
            fitting_groups(view_seq(old_v), '*', (m - 1) as nat),
            forall|j: int| 0 <= j < i ==> (#[trigger] v@[j])@ == multiply_pass(old_v[j]@),
            forall|j: int| i <= j < v@.len() ==> (#[trigger] v@[j]) == old_v[j],
        decreases v.len() - i,
    {
        proof {
            lemma_view_seq_index(old_v, i as int);
            assert(fitting_group(view_seq(old_v)[i as int], '*', (m - 1) as nat));
        }
        v[i].process_multiply();
        i = i + 1;
    }
    proof {
        lemma_view_seq_len(v@);
        lemma_multiply_groups(view_seq(old_v), m);
        assert forall|j: int| 0 <= j < v@.len() implies view_seq(v@)[j] == multiply_groups(view_seq(old_v), m)[j] by {
            lemma_view_seq_index(v@, j);
            lemma_view_seq_index(old_v, j);
        }
    }
    assert(view_seq(v@) =~= multiply_groups(view_seq(old_v), m));
}

impl Element {
    /// Step 3 (see `multiply_pass`).
    pub fn process_multiply(&mut self)
        ensures
            final(self)@ == multiply_pass(old(self)@),
        decreases height(old(self)@), split_flag(old(self)@, '*'), 0int,
    {
        let ghost h = height(self@);
        match self {
            Element::Brackets(elements) => {
                match split_list_by_char(elements, '*') {
                    Some(mut groups) => {
                        proof {
                            lemma_split_list_groups(view_seq(elements@), '*');
                        }
                        multiply_groups_exec(&mut groups, Ghost(h));
                        *self = Element::Multiply(groups);
                    },
                    None => multiply_all_exec(elements),
                }
            },
            Element::Plus(v) => multiply_all_exec(v),
            Element::Negate(a) => a.process_multiply(),
            Element::Function { arguments, .. } => multiply_all_exec(arguments),
            Element::String(t) => {
                if let Some(pieces) = split_string_by_char(t.as_str(), '*') {
                    *self = Element::Multiply(pieces);
                }
            },
            _ => {},
        }
    }
}

// ---------------------------------------------------------------------------
// Step 4: divisions
// ---------------------------------------------------------------------------

/// `x^(-1)`, with the `1` still as text.
pub open spec fn inverted(x: ElementView) -> ElementView {
    ElementView::Pow(Box::new(x), Box::new(ElementView::Negate(Box::new(ElementView::String("1"@)))))
}

pub open spec fn inverted_all(s: Seq<ElementView>) -> Seq<ElementView>
    decreases s.len(),
{
    if s.len() == 0 { s } else { inverted_all(s.drop_last()).push(inverted(s.last())) }
}

/// The first element times the inverses of the others.
pub open spec fn divisions(s: Seq<ElementView>) -> ElementView {
    if s.len() == 0 {
        ElementView::Multiply(s)
    } else {
        ElementView::Multiply(seq![s[0]] + inverted_all(s.subrange(1, s.len() as int)))
    }
}

/// Step 4: a bracket group with `/` in its strings becomes the first group between the
/// `/` times the inverses of the others; text with `/` likewise with its pieces. The pass
/// goes through the whole tree.
pub open spec fn divide_pass(e: ElementView) -> ElementView
    decreases height(e), split_flag(e, '/'), 0int,
{
    match e {
        ElementView::Brackets(es) => match split_list(es, '/') {
            Some(g) => divisions(divide_groups(g, height(e))),
            None => ElementView::Brackets(divide_all(es)),
        },
        ElementView::Plus(s) => ElementView::Plus(divide_all(s)),
        ElementView::Multiply(s) => ElementView::Multiply(divide_all(s)),
        ElementView::Function(n, args) => ElementView::Function(n, divide_all(args)),
        ElementView::Negate(a) => ElementView::Negate(Box::new(divide_pass(*a))),
        ElementView::Pow(a, b) => ElementView::Pow(Box::new(divide_pass(*a)), Box::new(divide_pass(*b))),
        ElementView::String(t) => match split_text(t, '/') {
            Some(p) => divisions(p),
            None => e,
        },
        _ => e,
    }
}

/// Where step 4 is defined: every division has a first operand. (A group or text made of
/// `/` alone has none, and step 4 panics on it.)
pub open spec fn divide_defined(e: ElementView) -> bool
    decreases height(e), split_flag(e, '/'), 0int,
{
    match e {
        ElementView::Brackets(es) => match split_list(es, '/') {
            Some(g) => g.len() >= 1 && divide_groups_defined(g, height(e)),
            None => divide_all_defined(es),
        },
        ElementView::Plus(s) => divide_all_defined(s),
        ElementView::Multiply(s) => divide_all_defined(s),
        ElementView::Function(_, args) => divide_all_defined(args),
        ElementView::Negate(a) => divide_defined(*a),
        ElementView::Pow(a, b) => divide_defined(*a) && divide_defined(*b),
        ElementView::String(t) => match split_text(t, '/') {
            Some(p) => p.len() >= 1,
            None => true,
        },
        _ => true,
    }
}

pub open spec fn divide_all_defined(s: Seq<ElementView>) -> bool
    decreases max_height(s), 2int, s.len(),
{
    if s.len() == 0 { true } else { divide_all_defined(s.drop_last()) && divide_defined(s.last()) }
}

pub open spec fn divide_groups_defined(g: Seq<ElementView>, m: nat) -> bool
    decreases m, 0int, g.len(),
{
    if g.len() == 0 {
        true
    } else {
        let x = g.last();
        divide_groups_defined(g.drop_last(), m) && (if m >= 1 && fitting_group(x, '/', (m - 1) as nat) { divide_defined(x) } else { true })
    }
}

proof fn lemma_divide_all_defined(s: Seq<ElementView>)
    requires
        divide_all_defined(s),
    ensures
        forall|i: int| 0 <= i < s.len() ==> #[trigger] divide_defined(s[i]),
    decreases s.len(),
{
    if s.len() > 0 {
        lemma_divide_all_defined(s.drop_last());
        assert forall|i: int| 0 <= i < s.len() implies #[trigger] divide_defined(s[i]) by {
            if i < s.len() - 1 {
                assert(s.drop_last()[i] == s[i]);
            }
        }
    }
}

proof fn lemma_divide_groups_defined(g: Seq<ElementView>, m: nat)
    requires
        m >= 1,
        fitting_groups(g, '/', (m - 1) as nat),
        divide_groups_defined(g, m),
    ensures
        forall|i: int| 0 <= i < g.len() ==> #[trigger] divide_defined(g[i]),
    decreases g.len(),
{
    if g.len() > 0 {
        assert(fitting_groups(g.drop_last(), '/', (m - 1) as nat)) by {
            assert forall|i: int| 0 <= i < g.drop_last().len() implies fitting_group(#[trigger] g.drop_last()[i], '/', (m - 1) as nat) by {
                assert(g.drop_last()[i] == g[i]);
            }
        }
        lemma_divide_groups_defined(g.drop_last(), m);
        assert(fitting_group(g[g.len() - 1], '/', (m - 1) as nat));
        assert forall|i: int| 0 <= i < g.len() implies #[trigger] divide_defined(g[i]) by {
            if i < g.len() - 1 {
                assert(g.drop_last()[i] == g[i]);
            }
        }
    }
}

/// `divide_pass` on each element.
pub open spec fn divide_all(s: Seq<ElementView>) -> Seq<ElementView>
    decreases max_height(s), 2int, s.len(),
{
    if s.len() == 0 { s } else { divide_all(s.drop_last()).push(divide_pass(s.last())) }
}

proof fn lemma_divide_all(s: Seq<ElementView>)
    ensures
        divide_all(s).len() == s.len(),
        forall|i: int| 0 <= i < s.len() ==> #[trigger] divide_all(s)[i] == divide_pass(s[i]),
    decreases s.len(),
{
    if s.len() > 0 {
        lemma_divide_all(s.drop_last());
        assert forall|i: int| 0 <= i < s.len() implies #[trigger] divide_all(s)[i] == divide_pass(s[i]) by {
            if i < s.len() - 1 {
                assert(s.drop_last()[i] == s[i]);
            }
        }
    }
}

/// `divide_pass` on each group cut from a bracket group of height `m`.
pub open spec fn divide_groups(g: Seq<ElementView>, m: nat) -> Seq<ElementView>
    decreases m, 0int, g.len(),
{
    if g.len() == 0 {
        g
    } else {
        let x = g.last();
        divide_groups(g.drop_last(), m).push(if m >= 1 && fitting_group(x, '/', (m - 1) as nat) { divide_pass(x) } else { x })
    }
}

proof fn lemma_divide_groups(g: Seq<ElementView>, m: nat)
    requires
        m >= 1,
        fitting_groups(g, '/', (m - 1) as nat),
    ensures
        divide_groups(g, m).len() == g.len(),
        forall|i: int| 0 <= i < g.len() ==> #[trigger] divide_groups(g, m)[i] == divide_pass(g[i]),
    decreases g.len(),
{
    if g.len() > 0 {
        assert(fitting_groups(g.drop_last(), '/', (m - 1) as nat)) by {
            assert forall|i: int| 0 <= i < g.drop_last().len() implies fitting_group(#[trigger] g.drop_last()[i], '/', (m - 1) as nat) by {
                assert(g.drop_last()[i] == g[i]);
            }
        }
        lemma_divide_groups(g.drop_last(), m);
        assert(fitting_group(g[g.len() - 1], '/', (m - 1) as nat));
        assert forall|i: int| 0 <= i < g.len() implies #[trigger] divide_groups(g, m)[i] == divide_pass(g[i]) by {
            if i < g.len() - 1 {
                assert(g.drop_last()[i] == g[i]);
            }
        }
    }
}

/// Step 4 on each element.
fn divide_all_exec(v: &mut Vec<Element>)
    requires
        divide_all_defined(view_seq(old(v)@)),
    ensures
        view_seq(final(v)@) == divide_all(view_seq(old(v)@)),
    decreases max_height(view_seq(old(v)@)), 2int, old(v)@.len(),
{
    let ghost old_v = v@;
    proof {
        lemma_view_seq_len(old_v);
        lemma_max_height(view_seq(old_v));
    }
    let mut i: usize = 0;
    while i < v.len()
        invariant
            i <= v@.len(),
            v@.len() == old_v.len(),
            old_v == old(v)@,
            view_seq(old_v).len() == old_v.len(),
            forall|j: int| 0 <= j < view_seq(old_v).len() ==> height(#[trigger] view_seq(old_v)[j]) <= max_height(view_seq(old_v)),
            divide_all_defined(view_seq(old_v)),
            forall|j: int| 0 <= j < i ==> (#[trigger] v@[j])@ == divide_pass(old_v[j]@),
            forall|j: int| i <= j < v@.len() ==> (#[trigger] v@[j]) == old_v[j],
        decreases v.len() - i,
    {
        proof {
            lemma_view_seq_index(old_v, i as int);
            lemma_divide_all_defined(view_seq(old_v));
        }
        v[i].process_divide();
        i = i + 1;
    }
    proof {
        lemma_view_seq_len(v@);
        lemma_divide_all(view_seq(old_v));
        assert forall|j: int| 0 <= j < v@.len() implies view_seq(v@)[j] == divide_all(view_seq(old_v))[j] by {
            lemma_view_seq_index(v@, j);
            lemma_view_seq_index(old_v, j);
        }
    }
    assert(view_seq(v@) =~= divide_all(view_seq(old_v)));
}

/// Step 4 on each group.
fn divide_groups_exec(v: &mut Vec<Element>, Ghost(m): Ghost<nat>)
    requires
        m >= 1,
        fitting_groups(view_seq(old(v)@), '/', (m - 1) as nat),
        divide_groups_defined(view_seq(old(v)@), m),
    ensures
        view_seq(final(v)@) == divide_groups(view_seq(old(v)@), m),
    decreases m, 0int, old(v)@.len(),
{
    let ghost old_v = v@;
    proof {
        lemma_view_seq_len(old_v);
    }
    let mut i: usize = 0;
    while i < v.len()
        invariant
            i <= v@.len(),
            v@.len() == old_v.len(),
            old_v == old(v)@,
            m >= 1,
            view_seq(old_v).len() == old_v.len(),
            fitting_groups(view_seq(old_v), '/', (m - 1) as nat),
            divide_groups_defined(view_seq(old_v), m),
            forall|j: int| 0 <= j < i ==> (#[trigger] v@[j])@ == divide_pass(old_v[j]@),
            forall|j: int| i <= j < v@.len() ==> (#[trigger] v@[j]) == old_v[j],
        decreases v.len() - i,
    {
        proof {
            lemma_view_seq_index(old_v, i as int);
            assert(fitting_group(view_seq(old_v)[i as int], '/', (m - 1) as nat));
            lemma_divide_groups_defined(view_seq(old_v), m);
        }
        v[i].process_divide();
        i = i + 1;
    }
    proof {
        lemma_view_seq_len(v@);
        lemma_divide_groups(view_seq(old_v), m);
        assert forall|j: int| 0 <= j < v@.len() implies view_seq(v@)[j] == divide_groups(view_seq(old_v), m)[j] by {
            lemma_view_seq_index(v@, j);
            lemma_view_seq_index(old_v, j);
        }
    }
    assert(view_seq(v@) =~= divide_groups(view_seq(old_v), m));
}

/// `x^(-1)` (see `inverted`).
fn invert(x: Element) -> (e: Element)
    ensures
        e@ == inverted(x@),
{
    let one = "1".to_owned();
    assert(one@ == "1"@);
    let s = Element::String(one);
    assert(s@ == ElementView::String("1"@));
    let n = Element::Negate(Box::new(s));
    assert(n@ == ElementView::Negate(Box::new(s@)));
    let r = Element::Pow(Box::new(x), Box::new(n));
    assert(r@ == ElementView::Pow(Box::new(x@), Box::new(n@)));
    r
}

/// The first element times the inverses of the others (see `divisions`).
fn make_divisions(v: Vec<Element>) -> (e: Element)
    ensures
        e@ == divisions(view_seq(v@)),
{
    proof {
        lemma_view_seq_len(v@);
    }
    if v.len() == 0 {
        return Element::Multiply(v);
    }
    let ghost t = view_seq(v@);
    let mut out: Vec<Element> = Vec::new();
    let first = v[0].duplicate();
    proof {
        lemma_view_seq_index(v@, 0);
        lemma_view_seq_push(out@, first);
    }
    out.push(first);
    assert(view_seq(out@) =~= seq![t[0]] + inverted_all(t.subrange(1, 1)));
    let mut i: usize = 1;
    while i < v.len()
        invariant
            1 <= i <= v@.len(),
            t == view_seq(v@),
            t.len() == v@.len(),
            view_seq(out@) == seq![t[0]] + inverted_all(t.subrange(1, i as int)),
        decreases v.len() - i,
    {
        proof {
            lemma_view_seq_index(v@, i as int);
        }
        let y = invert(v[i].duplicate());
        proof {
            lemma_view_seq_push(out@, y);
            assert(t.subrange(1, i + 1).drop_last() =~= t.subrange(1, i as int));
            assert(t.subrange(1, i + 1).last() == t[i as int]);
            assert((seq![t[0]] + inverted_all(t.subrange(1, i as int))).push(inverted(t[i as int]))
                =~= seq![t[0]] + inverted_all(t.subrange(1, i + 1)));
        }
        out.push(y);
        i = i + 1;
    }
    Element::Multiply(out)
}

impl Element {
    /// Step 4 (see `divide_pass`).
    pub fn process_divide(&mut self)
        requires
            divide_defined(old(self)@),
        ensures
            final(self)@ == divide_pass(old(self)@),
        decreases height(old(self)@), split_flag(old(self)@, '/'), 0int,
    {
        let ghost h = height(self@);
        match self {
            Element::Brackets(elements) => {
                match split_list_by_char(elements, '/') {
                    Some(mut groups) => {
                        proof {
                            lemma_split_list_groups(view_seq(elements@), '/');
                        }
                        divide_groups_exec(&mut groups, Ghost(h));
                        *self = make_divisions(groups);
                    },
                    None => divide_all_exec(elements),
                }
            },
            Element::Plus(v) => divide_all_exec(v),
            Element::Multiply(v) => divide_all_exec(v),
            Element::Function { arguments, .. } => divide_all_exec(arguments),
            Element::Negate(a) => a.process_divide(),
            Element::Pow(a, b) => {
                a.process_divide();
                b.process_divide();
            },
            Element::String(t) => {
                if let Some(pieces) = split_string_by_char(t.as_str(), '/') {
                    *self = make_divisions(pieces);
                }
            },
            _ => {},
        }
    }
}

// ---------------------------------------------------------------------------
// Steps 3b, 5 and 7: negations
// ---------------------------------------------------------------------------

/// Text with leading `-` becomes that many negations of the rest of the text.
pub open spec fn leading_minus_negated(s: Seq<char>) -> ElementView
    decreases s.len(),
{
    if s.len() > 0 && s[0] == '-' {
        ElementView::Negate(Box::new(leading_minus_negated(s.subrange(1, s.len() as int))))
    } else {
        ElementView::String(s)
    }
}

/// A bracket group whose first text starts with `-`, without that `-` (an emptied text is
/// dropped).
pub open spec fn first_minus_dropped(es: Seq<ElementView>) -> Seq<ElementView>
    recommends
        es.len() > 0,
        es[0] is String,
{
    let s = es[0]->String_0;
    let rest = s.subrange(1, s.len() as int);
    if rest.len() == 0 { es.subrange(1, es.len() as int) } else { es.update(0, ElementView::String(rest)) }
}

/// Whether the first element is text starting with `-`.
pub open spec fn starts_with_minus_text(es: Seq<ElementView>) -> bool {
    es.len() > 0 && (es[0] matches ElementView::String(s) && s.len() > 0 && s[0] == '-')
}

/// The negation step applied `k` times in a row. One application: a bracket group whose
/// first text starts with `-` becomes the negation of the group without that `-`, and is
/// not looked into further; otherwise its elements that are not text are processed, and a
/// group of a single such element processes it twice. Text starting with `-` becomes
/// negations; sums, products, powers, negations and function arguments are processed.
pub open spec fn minus_times(e: ElementView, k: nat) -> ElementView
    decreases height(e), k, 0int,
{
    if k == 0 {
        e
    } else {
        match e {
            ElementView::String(s) => leading_minus_negated(s),
            ElementView::Negate(a) => ElementView::Negate(Box::new(minus_times(*a, k))),
            ElementView::Pow(a, b) => ElementView::Pow(Box::new(minus_times(*a, k)), Box::new(minus_times(*b, k))),
            ElementView::Plus(s) => ElementView::Plus(minus_all(s, k)),
            ElementView::Multiply(s) => ElementView::Multiply(minus_all(s, k)),
            ElementView::Function(n, s) => ElementView::Function(n, minus_all(s, k)),
            ElementView::Brackets(es) => {
                if starts_with_minus_text(es) {
                    let es2 = first_minus_dropped(es);
                    if height(ElementView::Brackets(es2)) <= height(e) {
                        ElementView::Negate(Box::new(minus_times(ElementView::Brackets(es2), (k - 1) as nat)))
                    } else {
                        e
                    }
                } else if es.len() == 1 && !(es[0] is String) {
                    proof {
                        lemma_max_height(es);
                    }
                    ElementView::Brackets(seq![minus_times(es[0], 2 * k)])
                } else {
                    ElementView::Brackets(minus_non_text(es, k))
                }
            },
            _ => e,
        }
    }
}

/// `minus_times` on each element.
pub open spec fn minus_all(s: Seq<ElementView>, k: nat) -> Seq<ElementView>
    decreases max_height(s), k, s.len(),
{
    if s.len() == 0 { s } else { minus_all(s.drop_last(), k).push(minus_times(s.last(), k)) }
}

/// `minus_times` on each element that is not text.
pub open spec fn minus_non_text(s: Seq<ElementView>, k: nat) -> Seq<ElementView>
    decreases max_height(s), k, s.len(),
{
    if s.len() == 0 {
        s
    } else {
        let x = s.last();
        minus_non_text(s.drop_last(), k).push(if x is String { x } else { minus_times(x, k) })
    }
}

/// The negation step (steps 3b, 5 and 7).
pub open spec fn minus_pass(e: ElementView) -> ElementView {
    minus_times(e, 1)
}

/// The number of `-` in a text.
pub open spec fn count_minus(s: Seq<char>) -> nat
    decreases s.len(),
{
    if s.len() == 0 { 0 } else { (if s[0] == '-' { 1nat } else { 0nat }) + count_minus(s.subrange(1, s.len() as int)) }
}

/// A weight that the negation step never increases: the nodes, and twice the `-` in texts.
pub open spec fn minus_weight(e: ElementView) -> nat
    decreases e,
{
    match e {
        ElementView::String(s) => 1 + 2 * count_minus(s),
        ElementView::Brackets(s) => 1 + weight_all(s),
        ElementView::Plus(s) => 1 + weight_all(s),
        ElementView::Multiply(s) => 1 + weight_all(s),
        ElementView::Function(_, s) => 1 + weight_all(s),
        ElementView::FunctionWithExpression(s, _) => 1 + weight_all(s),
        ElementView::Pow(a, b) => 1 + minus_weight(*a) + minus_weight(*b),
        ElementView::Negate(a) => 1 + minus_weight(*a),
        _ => 1,
    }
}

pub open spec fn weight_all(s: Seq<ElementView>) -> nat
    decreases s,
{
    if s.len() == 0 { 0 } else { minus_weight(s[0]) + weight_all(s.subrange(1, s.len() as int)) }
}

proof fn lemma_weight_all_pointwise(s: Seq<ElementView>, t: Seq<ElementView>)
    requires
        s.len() == t.len(),
        forall|i: int| 0 <= i < s.len() ==> minus_weight(#[trigger] t[i]) <= minus_weight(s[i]),
    ensures
        weight_all(t) <= weight_all(s),
    decreases s.len(),
{
    if s.len() > 0 {
        let s1 = s.subrange(1, s.len() as int);
        let t1 = t.subrange(1, t.len() as int);
        assert forall|i: int| 0 <= i < s1.len() implies minus_weight(#[trigger] t1[i]) <= minus_weight(s1[i]) by {
            assert(t1[i] == t[i + 1] && s1[i] == s[i + 1]);
        }
        lemma_weight_all_pointwise(s1, t1);
        assert(minus_weight(t[0]) <= minus_weight(s[0]));
    }
}

proof fn lemma_weight_all_element(s: Seq<ElementView>, i: int)
    requires
        0 <= i < s.len(),
    ensures
        minus_weight(s[i]) <= weight_all(s),
    decreases s.len(),
{
    if i > 0 {
        let s1 = s.subrange(1, s.len() as int);
        assert(s1[i - 1] == s[i]);
        lemma_weight_all_element(s1, i - 1);
    }
}

proof fn lemma_leading_minus_weight(s: Seq<char>)
    ensures
        minus_weight(leading_minus_negated(s)) <= 1 + 2 * count_minus(s),
    decreases s.len(),
{
    if s.len() > 0 && s[0] == '-' {
        lemma_leading_minus_weight(s.subrange(1, s.len() as int));
    }
}

proof fn lemma_leading_minus_stable(s: Seq<char>, k: nat)
    ensures
        minus_times(leading_minus_negated(s), k) == leading_minus_negated(s),
    decreases s.len(),
{
    if k > 0 && s.len() > 0 && s[0] == '-' {
        lemma_leading_minus_stable(s.subrange(1, s.len() as int), k);
    }
}

proof fn lemma_minus_all(s: Seq<ElementView>, k: nat)
    ensures
        minus_all(s, k).len() == s.len(),
        forall|i: int| 0 <= i < s.len() ==> #[trigger] minus_all(s, k)[i] == minus_times(s[i], k),
    decreases s.len(),
{
    if s.len() > 0 {
        lemma_minus_all(s.drop_last(), k);
        assert forall|i: int| 0 <= i < s.len() implies #[trigger] minus_all(s, k)[i] == minus_times(s[i], k) by {
            if i < s.len() - 1 {
                assert(s.drop_last()[i] == s[i]);
            }
        }
    }
}

proof fn lemma_minus_non_text(s: Seq<ElementView>, k: nat)
    ensures
        minus_non_text(s, k).len() == s.len(),
        forall|i: int| 0 <= i < s.len() ==> #[trigger] minus_non_text(s, k)[i]
            == (if s[i] is String { s[i] } else { minus_times(s[i], k) }),
    decreases s.len(),
{
    if s.len() > 0 {
        lemma_minus_non_text(s.drop_last(), k);
        assert forall|i: int| 0 <= i < s.len() implies #[trigger] minus_non_text(s, k)[i]
            == (if s[i] is String { s[i] } else { minus_times(s[i], k) }) by {
            if i < s.len() - 1 {
                assert(s.drop_last()[i] == s[i]);
            }
        }
    }
}

/// Dropping the `-` of the first text keeps the group no higher.
proof fn lemma_first_minus_dropped_height(es: Seq<ElementView>)
    requires
        starts_with_minus_text(es),
    ensures
        height(ElementView::Brackets(first_minus_dropped(es))) <= height(ElementView::Brackets(es)),
{
    let es2 = first_minus_dropped(es);
    lemma_max_height(es);
    lemma_max_height_bound(es2, max_height(es));
}

/// A list whose elements are all at most `m` high has a largest height of at most `m`.
proof fn lemma_max_height_bound(s: Seq<ElementView>, m: nat)
    requires
        forall|i: int| 0 <= i < s.len() ==> #[trigger] height(s[i]) <= m || s[i] is String,
    ensures
        max_height(s) <= m,
    decreases s.len(),
{
    if s.len() > 0 {
        assert forall|i: int| 0 <= i < s.drop_last().len() implies #[trigger] height(s.drop_last()[i]) <= m || s.drop_last()[i] is String by {
            assert(s.drop_last()[i] == s[i]);
        }
        lemma_max_height_bound(s.drop_last(), m);
        assert(height(s[s.len() - 1]) <= m || s[s.len() - 1] is String);
        if s[s.len() - 1] is String {
            assert(height(s[s.len() - 1]) == 0);
        }
        assert(s.last() == s[s.len() - 1]);
    }
}

proof fn lemma_first_minus_dropped_weight(es: Seq<ElementView>)
    requires
        starts_with_minus_text(es),
    ensures
        weight_all(first_minus_dropped(es)) + 2 <= weight_all(es),
{
    let s = es[0]->String_0;
    let rest = s.subrange(1, s.len() as int);
    assert(count_minus(s) == 1 + count_minus(rest));
    let tail = es.subrange(1, es.len() as int);
    assert(es[0] == ElementView::String(s));
    assert(minus_weight(es[0]) == 1 + 2 * count_minus(s));
    assert(weight_all(es) == minus_weight(es[0]) + weight_all(tail));
    if rest.len() == 0 {
        assert(first_minus_dropped(es) == tail);
    } else {
        let es2 = es.update(0, ElementView::String(rest));
        assert(es2.subrange(1, es2.len() as int) =~= tail);
        assert(first_minus_dropped(es) == es2);
        assert(es2[0] == ElementView::String(rest));
        assert(minus_weight(es2[0]) == 1 + 2 * count_minus(rest));
        assert(weight_all(es2) == minus_weight(es2[0]) + weight_all(es2.subrange(1, es2.len() as int)));
    }
}

proof fn lemma_minus_times_not_text(e: ElementView, k: nat)
    requires
        !(e is String),
    ensures
        !(minus_times(e, k) is String),
{
}

/// The negation step never increases the weight.
proof fn lemma_minus_weight(e: ElementView, k: nat)
    ensures
        minus_weight(minus_times(e, k)) <= minus_weight(e),
    decreases height(e), k, 0int,
{
    if k > 0 {
        match e {
            ElementView::String(s) => lemma_leading_minus_weight(s),
            ElementView::Negate(a) => lemma_minus_weight(*a, k),
            ElementView::Pow(a, b) => {
                lemma_minus_weight(*a, k);
                lemma_minus_weight(*b, k);
            },
            ElementView::Plus(s) => lemma_minus_all_weight(s, k),
            ElementView::Multiply(s) => lemma_minus_all_weight(s, k),
            ElementView::Function(_, s) => lemma_minus_all_weight(s, k),
            ElementView::Brackets(es) => {
                if starts_with_minus_text(es) {
                    let es2 = first_minus_dropped(es);
                    lemma_first_minus_dropped_height(es);
                    lemma_first_minus_dropped_weight(es);
                    lemma_minus_weight(ElementView::Brackets(es2), (k - 1) as nat);
                    assert(minus_times(e, k) == ElementView::Negate(Box::new(minus_times(ElementView::Brackets(es2), (k - 1) as nat))));
                } else if es.len() == 1 && !(es[0] is String) {
                    lemma_max_height(es);
                    lemma_minus_weight(es[0], 2 * k);
                    let t = seq![minus_times(es[0], 2 * k)];
                    assert(t.subrange(1, 1) =~= Seq::<ElementView>::empty());
                    assert(es.subrange(1, 1) =~= Seq::<ElementView>::empty());
                    assert(minus_times(e, k) == ElementView::Brackets(t));
                    assert(weight_all(t) == minus_weight(t[0]) + weight_all(t.subrange(1, 1)));
                    assert(weight_all(es) == minus_weight(es[0]) + weight_all(es.subrange(1, 1)));
                } else {
                    lemma_minus_non_text_weight(es, k);
                    assert(minus_times(e, k) == ElementView::Brackets(minus_non_text(es, k)));
                }
            },
            _ => {},
        }
    }
}

proof fn lemma_minus_all_weight(s: Seq<ElementView>, k: nat)
    ensures
        weight_all(minus_all(s, k)) <= weight_all(s),
    decreases max_height(s), k, s.len(),
{
    lemma_minus_all(s, k);
    lemma_max_height(s);
    assert forall|i: int| 0 <= i < s.len() implies minus_weight(#[trigger] minus_all(s, k)[i]) <= minus_weight(s[i]) by {
        lemma_minus_weight(s[i], k);
    }
    lemma_weight_all_pointwise(s, minus_all(s, k));
}

proof fn lemma_minus_non_text_weight(s: Seq<ElementView>, k: nat)
    ensures
        weight_all(minus_non_text(s, k)) <= weight_all(s),
    decreases max_height(s), k, s.len(),
{
    lemma_minus_non_text(s, k);
    lemma_max_height(s);
    assert forall|i: int| 0 <= i < s.len() implies minus_weight(#[trigger] minus_non_text(s, k)[i]) <= minus_weight(s[i]) by {
        if !(s[i] is String) {
            lemma_minus_weight(s[i], k);
        }
    }
    lemma_weight_all_pointwise(s, minus_non_text(s, k));
}

/// Applying the negation step `a` times and then `b` times is applying it `a + b` times.
proof fn lemma_minus_compose(e: ElementView, a: nat, b: nat)
    ensures
        minus_times(minus_times(e, a), b) == minus_times(e, a + b),
    decreases height(e), a, 0int,
{
    if a > 0 && b > 0 {
        match e {
            ElementView::String(s) => lemma_leading_minus_stable(s, b),
            ElementView::Negate(x) => lemma_minus_compose(*x, a, b),
            ElementView::Pow(x, y) => {
                lemma_minus_compose(*x, a, b);
                lemma_minus_compose(*y, a, b);
            },
            ElementView::Plus(s) => lemma_minus_all_compose(s, a, b),
            ElementView::Multiply(s) => lemma_minus_all_compose(s, a, b),
            ElementView::Function(_, s) => lemma_minus_all_compose(s, a, b),
            ElementView::Brackets(es) => {
                if starts_with_minus_text(es) {
                    let es2 = first_minus_dropped(es);
                    lemma_first_minus_dropped_height(es);
                    lemma_minus_compose(ElementView::Brackets(es2), (a - 1) as nat, b);
                    assert((a - 1) as nat + b == (a + b - 1) as nat);
                } else if es.len() == 1 && !(es[0] is String) {
                    lemma_max_height(es);
                    lemma_minus_times_not_text(es[0], 2 * a);
                    lemma_minus_compose(es[0], 2 * a, 2 * b);
                    let t = seq![minus_times(es[0], 2 * a)];
                    assert(t[0] == minus_times(es[0], 2 * a));
                    assert(2 * a + 2 * b == 2 * (a + b));
                } else {
                    lemma_minus_non_text(es, a);
                    let t = minus_non_text(es, a);
                    if es.len() > 0 && !(es[0] is String) {
                        lemma_minus_times_not_text(es[0], a);
                    }
                    assert(!starts_with_minus_text(t));
                    lemma_minus_non_text_compose(es, a, b);
                }
            },
            _ => {},
        }
    }
}

proof fn lemma_minus_all_compose(s: Seq<ElementView>, a: nat, b: nat)
    ensures
        minus_all(minus_all(s, a), b) == minus_all(s, a + b),
    decreases max_height(s), a, s.len(),
{
    lemma_minus_all(s, a);
    lemma_minus_all(minus_all(s, a), b);
    lemma_minus_all(s, a + b);
    lemma_max_height(s);
    assert forall|i: int| 0 <= i < s.len() implies #[trigger] minus_all(minus_all(s, a), b)[i] == minus_all(s, a + b)[i] by {
        lemma_minus_compose(s[i], a, b);
    }
    assert(minus_all(minus_all(s, a), b) =~= minus_all(s, a + b));
}

proof fn lemma_minus_non_text_compose(s: Seq<ElementView>, a: nat, b: nat)
    ensures
        minus_non_text(minus_non_text(s, a), b) == minus_non_text(s, a + b),
    decreases max_height(s), a, s.len(),
{
    lemma_minus_non_text(s, a);
    lemma_minus_non_text(minus_non_text(s, a), b);
    lemma_minus_non_text(s, a + b);
    lemma_max_height(s);
    assert forall|i: int| 0 <= i < s.len() implies #[trigger] minus_non_text(minus_non_text(s, a), b)[i] == minus_non_text(s, a + b)[i] by {
        if !(s[i] is String) {
            lemma_minus_times_not_text(s[i], a);
            lemma_minus_compose(s[i], a, b);
        }
    }
    assert(minus_non_text(minus_non_text(s, a), b) =~= minus_non_text(s, a + b));
}

/// The negation step on each element.
fn minus_all_exec(v: &mut Vec<Element>)
    ensures
        view_seq(final(v)@) == minus_all(view_seq(old(v)@), 1),
    decreases weight_all(view_seq(old(v)@)), 1int,
{
    let ghost old_v = v@;
    proof {
        lemma_view_seq_len(old_v);
    }
    let mut i: usize = 0;
    while i < v.len()
        invariant
            i <= v@.len(),
            v@.len() == old_v.len(),
            old_v == old(v)@,
            view_seq(old_v).len() == old_v.len(),
            forall|j: int| 0 <= j < i ==> (#[trigger] v@[j])@ == minus_times(old_v[j]@, 1),
            forall|j: int| i <= j < v@.len() ==> (#[trigger] v@[j]) == old_v[j],
        decreases v.len() - i,
    {
        proof {
            lemma_view_seq_index(old_v, i as int);
            lemma_weight_all_element(view_seq(old_v), i as int);
        }
        v[i].process_minus();
        i = i + 1;
    }
    proof {
        lemma_view_seq_len(v@);
        lemma_minus_all(view_seq(old_v), 1);
        assert forall|j: int| 0 <= j < v@.len() implies view_seq(v@)[j] == minus_all(view_seq(old_v), 1)[j] by {
            lemma_view_seq_index(v@, j);
            lemma_view_seq_index(old_v, j);
        }
    }
    assert(view_seq(v@) =~= minus_all(view_seq(old_v), 1));
}

/// The negation step on each element that is not text.
fn minus_non_text_exec(v: &mut Vec<Element>)
    ensures
        view_seq(final(v)@) == minus_non_text(view_seq(old(v)@), 1),
    decreases weight_all(view_seq(old(v)@)), 1int,
{
    let ghost old_v = v@;
    proof {
        lemma_view_seq_len(old_v);
    }
    let mut i: usize = 0;
    while i < v.len()
        invariant
            i <= v@.len(),
            v@.len() == old_v.len(),
            old_v == old(v)@,
            view_seq(old_v).len() == old_v.len(),
            forall|j: int| 0 <= j < i ==> (#[trigger] v@[j])@ == (if old_v[j]@ is String { old_v[j]@ } else { minus_times(old_v[j]@, 1) }),
            forall|j: int| i <= j < v@.len() ==> (#[trigger] v@[j]) == old_v[j],
        decreases v.len() - i,
    {
        proof {
            lemma_view_seq_index(old_v, i as int);
            lemma_weight_all_element(view_seq(old_v), i as int);
        }
        let is_text = match &v[i] {
            Element::String(_) => true,
            _ => false,
        };
        if !is_text {
            v[i].process_minus();
        }
        i = i + 1;
    }
    proof {
        lemma_view_seq_len(v@);
        lemma_minus_non_text(view_seq(old_v), 1);
        assert forall|j: int| 0 <= j < v@.len() implies view_seq(v@)[j] == minus_non_text(view_seq(old_v), 1)[j] by {
            lemma_view_seq_index(v@, j);
            lemma_view_seq_index(old_v, j);
        }
    }
    assert(view_seq(v@) =~= minus_non_text(view_seq(old_v), 1));
}

/// The view of a list without its first element.
proof fn lemma_view_seq_remove_first(s: Seq<Element>)
    requires
        s.len() > 0,
    ensures
        view_seq(s.remove(0)) == view_seq(s).subrange(1, s.len() as int),
{
    let t = s.remove(0);
    lemma_view_seq_len(s);
    lemma_view_seq_len(t);
    assert forall|i: int| 0 <= i < t.len() implies view_seq(t)[i] == view_seq(s).subrange(1, s.len() as int)[i] by {
        lemma_view_seq_index(t, i);
        lemma_view_seq_index(s, i + 1);
    }
    assert(view_seq(t) =~= view_seq(s).subrange(1, s.len() as int));
}

/// The view of a list with one element replaced.
proof fn lemma_view_seq_update(s: Seq<Element>, i: int, x: Element)
    requires
        0 <= i < s.len(),
    ensures
        view_seq(s.update(i, x)) == view_seq(s).update(i, x@),
{
    let t = s.update(i, x);
    lemma_view_seq_len(s);
    lemma_view_seq_len(t);
    assert forall|j: int| 0 <= j < t.len() implies view_seq(t)[j] == view_seq(s).update(i, x@)[j] by {
        lemma_view_seq_index(t, j);
        lemma_view_seq_index(s, j);
    }
    assert(view_seq(t) =~= view_seq(s).update(i, x@));
}

/// Whether a text starts with `-`, and the text without its first character.
fn split_first_minus(t: &String) -> (r: (bool, String))
    ensures
        r.0 == (t@.len() > 0 && t@[0] == '-'),
        r.0 ==> r.1@ == t@.subrange(1, t@.len() as int),
{
    let cs = chars_of(t.as_str());
    if cs.len() > 0 && cs[0] == '-' {
        (true, string_of_range(&cs, 1, cs.len()))
    } else {
        (false, String::new())
    }
}

impl Element {
    /// The negation step (see `minus_times`, applied once).
    pub fn process_minus(&mut self)
        ensures
            final(self)@ == minus_pass(old(self)@),
        decreases minus_weight(old(self)@), 0int,
    {
        let ghost e0 = self@;
        match self {
            Element::Brackets(elements) => {
                let ghost es = view_seq(elements@);
                proof {
                    lemma_view_seq_len(elements@);
                }
                let mut stripped: Option<String> = None;
                if elements.len() > 0 {
                    proof {
                        lemma_view_seq_index(elements@, 0);
                    }
                    if let Element::String(t) = &elements[0] {
                        let (minus, rest) = split_first_minus(t);
                        if minus {
                            stripped = Some(rest);
                        }
                    }
                }
                assert(stripped is Some <==> starts_with_minus_text(es));
                if let Some(rest) = stripped {
                    let ghost es2 = first_minus_dropped(es);
                    proof {
                        lemma_first_minus_dropped_height(es);
                    }
                    if rest.as_str().is_empty() {
                        let ghost before = elements@;
                        elements.remove(0);
                        proof {
                            lemma_view_seq_remove_first(before);
                        }
                    } else {
                        let ghost before = elements@;
                        let x = Element::String(rest);
                        elements.set(0, x);
                        proof {
                            lemma_view_seq_update(before, 0, x);
                        }
                    }
                    assert(view_seq(elements@) == es2);
                    let mut taken: Vec<Element> = Vec::new();
                    std::mem::swap(&mut taken, elements);
                    let b = Element::Brackets(taken);
                    assert(b@ == ElementView::Brackets(es2));
                    assert(minus_times(ElementView::Brackets(es2), 0) == ElementView::Brackets(es2));
                    assert(e0 == ElementView::Brackets(es));
                    assert(minus_pass(e0) == ElementView::Negate(Box::new(ElementView::Brackets(es2))));
                    *self = Element::Negate(Box::new(b));
                    return;
                }
                let first_is_text = elements.len() > 0 && match &elements[0] {
                    Element::String(_) => true,
                    _ => false,
                };
                if !first_is_text && elements.len() == 1 {
                    proof {
                        lemma_weight_all_element(es, 0);
                    }
                    let ghost before = elements@;
                    elements[0].process_minus();
                    proof {
                        lemma_minus_weight(es[0], 1);
                        lemma_minus_times_not_text(es[0], 1);
                        lemma_minus_compose(es[0], 1, 1);
                        lemma_view_seq_len(elements@);
                        lemma_view_seq_index(elements@, 0);
                        let t = view_seq(elements@);
                        assert(t.subrange(1, 1) =~= Seq::<ElementView>::empty());
                        assert(weight_all(t) == minus_weight(t[0]) + weight_all(t.subrange(1, 1)));
                        assert(es.subrange(1, 1) =~= Seq::<ElementView>::empty());
                        assert(weight_all(es) == minus_weight(es[0]) + weight_all(es.subrange(1, 1)));
                    }
                    let ghost mid = view_seq(elements@);
                    minus_non_text_exec(elements);
                    proof {
                        lemma_minus_non_text(mid, 1);
                        assert(view_seq(elements@) =~= seq![minus_times(es[0], 2)]);
                    }
                    return;
                }
                assert(e0 == ElementView::Brackets(es));
                assert(!starts_with_minus_text(es));
                assert(!(es.len() == 1 && !(es[0] is String)));
                assert(minus_pass(e0) == ElementView::Brackets(minus_non_text(es, 1)));
                minus_non_text_exec(elements);
            },
            Element::String(t) => {
                let (minus, rest) = split_first_minus(t);
                if minus {
                    proof {
                        assert(count_minus(t@) == 1 + count_minus(rest@));
                    }
                    let ghost r = rest@;
                    let s_el = Element::String(rest);
                    assert(s_el@ == ElementView::String(r));
                    let n = Element::Negate(Box::new(s_el));
                    assert(n@ == ElementView::Negate(Box::new(ElementView::String(r))));
                    assert(minus_weight(ElementView::String(r)) == 1 + 2 * count_minus(r));
                    assert(minus_weight(n@) == 1 + minus_weight(ElementView::String(r)));
                    *self = n;
                    self.process_minus();
                    assert(minus_times(ElementView::String(r), 1) == leading_minus_negated(r));
                } else {
                    assert(leading_minus_negated(t@) == ElementView::String(t@));
                }
            },
            Element::Plus(v) => minus_all_exec(v),
            Element::Multiply(v) => minus_all_exec(v),
            Element::Function { arguments, .. } => minus_all_exec(arguments),
            Element::Negate(a) => a.process_minus(),
            Element::Pow(a, b) => {
                a.process_minus();
                b.process_minus();
            },
            _ => {},
        }
    }
}

// ---------------------------------------------------------------------------
// Step 0.5: function calls
// ---------------------------------------------------------------------------

/// Text ending in a function name, followed by a bracket group: a call.
pub open spec fn is_call(a: ElementView, b: ElementView) -> bool {
    &&& a matches ElementView::String(name)
    &&& b is Brackets
    &&& fun_name_end(name, false).len() > 0
}

/// Step 0.5: in a bracket group, text ending in a function name followed by a bracket
/// group becomes the text before the name (if any) and a call of the function, whose
/// arguments are the groups between the commas of the bracket group (or the whole group
/// without commas). The step then continues into all elements, sums, products, powers,
/// negations and function arguments.
pub open spec fn functions_resolved(e: ElementView) -> ElementView
    decreases height(e), 0int, 0int,
{
    match e {
        ElementView::Brackets(es) => if es.len() == 0 { e } else { ElementView::Brackets(calls_resolved(es)) },
        ElementView::Plus(s) => ElementView::Plus(functions_resolved_all(s)),
        ElementView::Multiply(s) => ElementView::Multiply(functions_resolved_all(s)),
        ElementView::Function(n, s) => ElementView::Function(n, functions_resolved_all(s)),
        ElementView::Negate(a) => ElementView::Negate(Box::new(functions_resolved(*a))),
        ElementView::Pow(a, b) => ElementView::Pow(Box::new(functions_resolved(*a)), Box::new(functions_resolved(*b))),
        _ => e,
    }
}

/// The elements of a bracket group with the calls made (see `functions_resolved`).
pub open spec fn calls_resolved(es: Seq<ElementView>) -> Seq<ElementView>
    decreases max_height(es), 1int, es.len(),
{
    if es.len() == 0 {
        es
    } else if es.len() >= 2 && is_call(es[0], es[1]) {
        proof {
            lemma_max_height(es);
            lemma_max_height_suffix(es, 2);
        }
        let name = es[0]->String_0;
        let f = fun_name_end(name, false);
        let prefix = name.subrange(0, name.len() - f.len());
        let args = match split_list(es[1]->Brackets_0, ',') {
            Some(g) => arguments_resolved(g, height(es[1])),
            None => seq![functions_resolved(es[1])],
        };
        let call = ElementView::Function(f, args);
        let head = if prefix.len() == 0 { seq![call] } else { seq![ElementView::String(prefix), call] };
        head + calls_resolved(es.subrange(2, es.len() as int))
    } else {
        proof {
            lemma_max_height(es);
            lemma_max_height_suffix(es, 1);
        }
        seq![functions_resolved(es[0])] + calls_resolved(es.subrange(1, es.len() as int))
    }
}

/// A suffix of a list is no higher than the list.
pub proof fn lemma_max_height_suffix(s: Seq<ElementView>, k: int)
    requires
        0 <= k <= s.len(),
    ensures
        max_height(s.subrange(k, s.len() as int)) <= max_height(s),
{
    lemma_max_height(s);
    let t = s.subrange(k, s.len() as int);
    assert forall|i: int| 0 <= i < t.len() implies #[trigger] height(t[i]) <= max_height(s) || t[i] is String by {
        assert(t[i] == s[i + k]);
    }
    lemma_max_height_bound(t, max_height(s));
}

/// `functions_resolved` on each element.
pub open spec fn functions_resolved_all(s: Seq<ElementView>) -> Seq<ElementView>
    decreases max_height(s), 2int, s.len(),
{
    if s.len() == 0 { s } else { functions_resolved_all(s.drop_last()).push(functions_resolved(s.last())) }
}

proof fn lemma_functions_resolved_all(s: Seq<ElementView>)
    ensures
        functions_resolved_all(s).len() == s.len(),
        forall|i: int| 0 <= i < s.len() ==> #[trigger] functions_resolved_all(s)[i] == functions_resolved(s[i]),
    decreases s.len(),
{
    if s.len() > 0 {
        lemma_functions_resolved_all(s.drop_last());
        assert forall|i: int| 0 <= i < s.len() implies #[trigger] functions_resolved_all(s)[i] == functions_resolved(s[i]) by {
            if i < s.len() - 1 {
                assert(s.drop_last()[i] == s[i]);
            }
        }
    }
}

/// `functions_resolved` on each argument group cut from a bracket group of height `m`.
pub open spec fn arguments_resolved(g: Seq<ElementView>, m: nat) -> Seq<ElementView>
    decreases m, 0int, g.len(),
{
    if g.len() == 0 {
        g
    } else {
        let x = g.last();
        arguments_resolved(g.drop_last(), m).push(if m >= 1 && fitting_group(x, ',', (m - 1) as nat) { functions_resolved(x) } else { x })
    }
}

proof fn lemma_arguments_resolved(g: Seq<ElementView>, m: nat)
    requires
        m >= 1,
        fitting_groups(g, ',', (m - 1) as nat),
    ensures
        arguments_resolved(g, m).len() == g.len(),
        forall|i: int| 0 <= i < g.len() ==> #[trigger] arguments_resolved(g, m)[i] == functions_resolved(g[i]),
    decreases g.len(),
{
    if g.len() > 0 {
        assert(fitting_groups(g.drop_last(), ',', (m - 1) as nat)) by {
            assert forall|i: int| 0 <= i < g.drop_last().len() implies fitting_group(#[trigger] g.drop_last()[i], ',', (m - 1) as nat) by {
                assert(g.drop_last()[i] == g[i]);
            }
        }
        lemma_arguments_resolved(g.drop_last(), m);
        assert(fitting_group(g[g.len() - 1], ',', (m - 1) as nat));
        assert forall|i: int| 0 <= i < g.len() implies #[trigger] arguments_resolved(g, m)[i] == functions_resolved(g[i]) by {
            if i < g.len() - 1 {
                assert(g.drop_last()[i] == g[i]);
            }
        }
    }
}

/// Step 0.5 on each element.
fn functions_resolved_all_exec(v: &mut Vec<Element>)
    ensures
        view_seq(final(v)@) == functions_resolved_all(view_seq(old(v)@)),
    decreases max_height(view_seq(old(v)@)), 2int, old(v)@.len(),
{
    let ghost old_v = v@;
    proof {
        lemma_view_seq_len(old_v);
        lemma_max_height(view_seq(old_v));
    }
    let mut i: usize = 0;
    while i < v.len()
        invariant
            i <= v@.len(),
            v@.len() == old_v.len(),
            old_v == old(v)@,
            view_seq(old_v).len() == old_v.len(),
            forall|j: int| 0 <= j < view_seq(old_v).len() ==> height(#[trigger] view_seq(old_v)[j]) <= max_height(view_seq(old_v)),
            forall|j: int| 0 <= j < i ==> (#[trigger] v@[j])@ == functions_resolved(old_v[j]@),
            forall|j: int| i <= j < v@.len() ==> (#[trigger] v@[j]) == old_v[j],
        decreases v.len() - i,
    {
        proof {
            lemma_view_seq_index(old_v, i as int);
        }
        v[i].resolve_functions();
        i = i + 1;
    }
    proof {
        lemma_view_seq_len(v@);
        lemma_functions_resolved_all(view_seq(old_v));
        assert forall|j: int| 0 <= j < v@.len() implies view_seq(v@)[j] == functions_resolved_all(view_seq(old_v))[j] by {
            lemma_view_seq_index(v@, j);
            lemma_view_seq_index(old_v, j);
        }
    }
    assert(view_seq(v@) =~= functions_resolved_all(view_seq(old_v)));
}

/// Step 0.5 on each argument group.
fn arguments_resolved_exec(v: &mut Vec<Element>, Ghost(m): Ghost<nat>)
    requires
        m >= 1,
        fitting_groups(view_seq(old(v)@), ',', (m - 1) as nat),
    ensures
        view_seq(final(v)@) == arguments_resolved(view_seq(old(v)@), m),
    decreases m, 0int, old(v)@.len(),
{
    let ghost old_v = v@;
    proof {
        lemma_view_seq_len(old_v);
    }
    let mut i: usize = 0;
    while i < v.len()
        invariant
            i <= v@.len(),
            v@.len() == old_v.len(),
            old_v == old(v)@,
            m >= 1,
            view_seq(old_v).len() == old_v.len(),
            fitting_groups(view_seq(old_v), ',', (m - 1) as nat),
            forall|j: int| 0 <= j < i ==> (#[trigger] v@[j])@ == functions_resolved(old_v[j]@),
            forall|j: int| i <= j < v@.len() ==> (#[trigger] v@[j]) == old_v[j],
        decreases v.len() - i,
    {
        proof {
            lemma_view_seq_index(old_v, i as int);
            assert(fitting_group(view_seq(old_v)[i as int], ',', (m - 1) as nat));
        }
        v[i].resolve_functions();
        i = i + 1;
    }
    proof {
        lemma_view_seq_len(v@);
        lemma_arguments_resolved(view_seq(old_v), m);
        assert forall|j: int| 0 <= j < v@.len() implies view_seq(v@)[j] == arguments_resolved(view_seq(old_v), m)[j] by {
            lemma_view_seq_index(v@, j);
            lemma_view_seq_index(old_v, j);
        }
    }
    assert(view_seq(v@) =~= arguments_resolved(view_seq(old_v), m));
}

/// The elements of a bracket group with the calls made (see `calls_resolved`).
fn resolve_calls(src: &Vec<Element>) -> (out: Vec<Element>)
    ensures
        view_seq(out@) == calls_resolved(view_seq(src@)),
    decreases max_height(view_seq(src@)), 1int, src@.len(),
{
    let ghost es = view_seq(src@);
    let n = src.len();
    proof {
        lemma_view_seq_len(src@);
        lemma_max_height(es);
        assert(es.subrange(0, n as int) =~= es);
    }
    let mut out: Vec<Element> = Vec::new();
    let mut k: usize = 0;
    while k < n
        invariant
            k <= n,
            n == src@.len(),
            es == view_seq(src@),
            es.len() == n,
            forall|j: int| 0 <= j < n ==> height(#[trigger] es[j]) <= max_height(es),
            view_seq(out@) + calls_resolved(es.subrange(k as int, n as int)) == calls_resolved(es),
        decreases n - k,
    {
        let ghost rest = es.subrange(k as int, n as int);
        proof {
            lemma_view_seq_index(src@, k as int);
            assert(rest[0] == es[k as int]);
        }
        let mut call: Option<(String, String, usize)> = None;
        if k + 1 < n {
            proof {
                lemma_view_seq_index(src@, k + 1);
                assert(rest[1] == es[k + 1]);
            }
            if let Element::String(name) = &src[k] {
                if let Element::Brackets(_) = &src[k + 1] {
                    let f = get_fun_name_end_of_string(name.as_str(), false);
                    let name_chars = chars_of(name.as_str());
                    let f_len = chars_of(f.as_str()).len();
                    if f_len > 0 {
                        proof {
                            lemma_trailing_name_len(name@);
                        }
                        let prefix = string_of_range(&name_chars, 0, name_chars.len() - f_len);
                        call = Some((f, prefix, 0));
                    }
                }
            }
        }
        assert(call is Some <==> (k + 1 < n && is_call(rest[0], rest[1])));
        match call {
            Some((f, prefix, _)) => {
                let ghost br = es[k + 1]->Brackets_0;
                let ghost m = height(es[k + 1]);
                let args = match &src[k + 1] {
                    Element::Brackets(br_elements) => {
                        assert(view_seq(br_elements@) == br);
                        match split_list_by_char(br_elements, ',') {
                            Some(mut groups) => {
                                proof {
                                    lemma_split_list_groups(br, ',');
                                }
                                arguments_resolved_exec(&mut groups, Ghost(m));
                                groups
                            },
                            None => {
                                let mut b = src[k + 1].duplicate();
                                b.resolve_functions();
                                let mut v: Vec<Element> = Vec::new();
                                v.push(b);
                                proof {
                                    lemma_view_seq_push(Seq::<Element>::empty(), b);
                                    assert(view_seq(Seq::<Element>::empty()) == Seq::<ElementView>::empty());
                                }
                                v
                            },
                        }
                    },
                    _ => Vec::new(),
                };
                let ghost args_view = view_seq(args@);
                let ghost f_view = f@;
                let ghost prefix_view = prefix@;
                let prefix_empty = prefix.as_str().is_empty();
                if !prefix_empty {
                    let p = Element::String(prefix);
                    proof {
                        lemma_view_seq_push(out@, p);
                    }
                    out.push(p);
                }
                let c = Element::Function { name: f, arguments: args };
                assert(c@ == ElementView::Function(f_view, args_view));
                proof {
                    lemma_view_seq_push(out@, c);
                    assert(rest.subrange(2, rest.len() as int) =~= es.subrange(k + 2, n as int));
                }
                out.push(c);
                k = k + 2;
            },
            None => {
                let mut x = src[k].duplicate();
                x.resolve_functions();
                proof {
                    lemma_view_seq_push(out@, x);
                    assert(rest.subrange(1, rest.len() as int) =~= es.subrange(k + 1, n as int));
                }
                out.push(x);
                k = k + 1;
            },
        }
    }
    proof {
        assert(es.subrange(n as int, n as int) =~= Seq::<ElementView>::empty());
        assert(view_seq(out@) + Seq::<ElementView>::empty() =~= view_seq(out@));
    }
    out
}

impl Element {
    /// Step 0.5 (see `functions_resolved`).
    pub fn resolve_functions(&mut self)
        ensures
            final(self)@ == functions_resolved(old(self)@),
        decreases height(old(self)@), 0int, 0int,
    {
        match self {
            Element::Brackets(elements) => {
                if elements.len() == 0 {
                    proof {
                        lemma_view_seq_len(elements@);
                    }
                    return;
                }
                proof {
                    lemma_view_seq_len(elements@);
                }
                let out = resolve_calls(elements);
                *self = Element::Brackets(out);
            },
            Element::Plus(v) => functions_resolved_all_exec(v),
            Element::Multiply(v) => functions_resolved_all_exec(v),
            Element::Function { arguments, .. } => functions_resolved_all_exec(arguments),
            Element::Negate(a) => a.resolve_functions(),
            Element::Pow(a, b) => {
                a.resolve_functions();
                b.resolve_functions();
            },
            _ => {},
        }
    }
}

// ---------------------------------------------------------------------------
// Where step 4 is defined, as a check
// ---------------------------------------------------------------------------

fn divide_all_defined_exec(v: &Vec<Element>) -> (b: bool)
    ensures
        b == divide_all_defined(view_seq(v@)),
    decreases max_height(view_seq(v@)), 2int, v@.len(),
{
    let ghost s = view_seq(v@);
    proof {
        lemma_view_seq_len(v@);
        lemma_max_height(s);
    }
    let mut i: usize = 0;
    while i < v.len()
        invariant
            i <= v@.len(),
            s == view_seq(v@),
            s.len() == v@.len(),
            forall|j: int| 0 <= j < s.len() ==> height(#[trigger] s[j]) <= max_height(s),
            divide_all_defined(s.take(i as int)),
        decreases v.len() - i,
    {
        proof {
            lemma_view_seq_index(v@, i as int);
            assert(s.take(i + 1).drop_last() =~= s.take(i as int));
        }
        if !v[i].divisions_defined() {
            proof {
                assert(!divide_all_defined(s.take(i + 1)));
                if divide_all_defined(s) {
                    lemma_divide_all_defined_prefix(s, i + 1);
                }
            }
            return false;
        }
        i = i + 1;
    }
    assert(s.take(i as int) =~= s);
    true
}

proof fn lemma_divide_all_defined_prefix(s: Seq<ElementView>, n: int)
    requires
        0 <= n <= s.len(),
        divide_all_defined(s),
    ensures
        divide_all_defined(s.take(n)),
    decreases s.len(),
{
    if n < s.len() {
        assert(s.drop_last().take(n) =~= s.take(n));
        lemma_divide_all_defined_prefix(s.drop_last(), n);
    } else {
        assert(s.take(n) =~= s);
    }
}

fn divide_groups_defined_exec(v: &Vec<Element>, Ghost(m): Ghost<nat>) -> (b: bool)
    requires
        m >= 1,
        fitting_groups(view_seq(v@), '/', (m - 1) as nat),
    ensures
        b == divide_groups_defined(view_seq(v@), m),
    decreases m, 0int, v@.len(),
{
    let ghost s = view_seq(v@);
    proof {
        lemma_view_seq_len(v@);
    }
    let mut i: usize = 0;
    while i < v.len()
        invariant
            i <= v@.len(),
            m >= 1,
            s == view_seq(v@),
            s.len() == v@.len(),
            fitting_groups(s, '/', (m - 1) as nat),
            divide_groups_defined(s.take(i as int), m),
        decreases v.len() - i,
    {
        proof {
            lemma_view_seq_index(v@, i as int);
            assert(s.take(i + 1).drop_last() =~= s.take(i as int));
            assert(fitting_group(s[i as int], '/', (m - 1) as nat));
        }
        if !v[i].divisions_defined() {
            proof {
                assert(!divide_groups_defined(s.take(i + 1), m));
                if divide_groups_defined(s, m) {
                    lemma_divide_groups_defined_prefix(s, i + 1, m);
                }
            }
            return false;
        }
        i = i + 1;
    }
    assert(s.take(i as int) =~= s);
    true
}

proof fn lemma_divide_groups_defined_prefix(s: Seq<ElementView>, n: int, m: nat)
    requires
        0 <= n <= s.len(),
        divide_groups_defined(s, m),
    ensures
        divide_groups_defined(s.take(n), m),
    decreases s.len(),
{
    if n < s.len() {
        assert(s.drop_last().take(n) =~= s.take(n));
        lemma_divide_groups_defined_prefix(s.drop_last(), n, m);
    } else {
        assert(s.take(n) =~= s);
    }
}

impl Element {
    /// Whether step 4 is defined on the element (see `divide_defined`).
    pub fn divisions_defined(&self) -> (b: bool)
        ensures
            b == divide_defined(self@),
        decreases height(self@), split_flag(self@, '/'), 0int,
    {
        let ghost h = height(self@);
        match self {
            Element::Brackets(elements) => {
                match split_list_by_char(elements, '/') {
                    Some(groups) => {
                        proof {
                            lemma_split_list_groups(view_seq(elements@), '/');
                            lemma_view_seq_len(groups@);
                        }
                        groups.len() >= 1 && divide_groups_defined_exec(&groups, Ghost(h))
                    },
                    None => divide_all_defined_exec(elements),
                }
            },
            Element::Plus(v) => divide_all_defined_exec(v),
            Element::Multiply(v) => divide_all_defined_exec(v),
            Element::Function { arguments, .. } => divide_all_defined_exec(arguments),
            Element::Negate(a) => a.divisions_defined(),
            Element::Pow(a, b) => a.divisions_defined() && b.divisions_defined(),
            Element::String(t) => {
                match split_string_by_char(t.as_str(), '/') {
                    Some(pieces) => {
                        proof {
                            lemma_view_seq_len(pieces@);
                        }
                        pieces.len() >= 1
                    },
                    None => true,
                }
            },
            _ => true,
        }
    }
}

// ---------------------------------------------------------------------------
// Step 0: preprocessing, and the whole parse
// ---------------------------------------------------------------------------

/// `Regex::new(pattern)`, then `replace_all(text, replacement)` with it: `None` when the
/// pattern does not compile, else the text with every match replaced.
pub uninterp spec fn regex_replace_all_result(pattern: Seq<char>, text: Seq<char>, replacement: Seq<char>) -> Option<Seq<char>>;

/// Compiles `pattern` with `regex::Regex::new` and applies `Regex::replace_all` with
/// `replacement` to `text`. The contract only names the result: it is a function of the
/// three texts.
#[verifier::external_body]
fn regex_replace_all(pattern: &str, text: &str, replacement: &str) -> (r: Option<String>)
    ensures
        match r {
            Some(t) => regex_replace_all_result(pattern@, text@, replacement@) == Some(t@),
            None => regex_replace_all_result(pattern@, text@, replacement@) is None,
        },
{
    match regex::Regex::new(pattern) {
        Ok(re) => Some(re.replace_all(text, replacement).to_string()),
        Err(_) => None,
    }
}

/// A `-` after a word character or `)`, before a word character, `(` or `-`.
pub open spec fn minus_pattern() -> Seq<char> {
    "([\\w)])-([\\w(-])"@
}

/// The same with `+` inserted before the `-`.
pub open spec fn plus_minus_replacement() -> Seq<char> {
    "$1+-$2"@
}

/// The input without spaces, with `×` as `*`.
pub open spec fn cleaned_input(s: Seq<char>) -> Seq<char>
    decreases s.len(),
{
    if s.len() == 0 {
        s
    } else {
        let r = cleaned_input(s.drop_last());
        let c = s.last();
        if c == ' ' { r } else if c == '×' { r.push('*') } else { r.push(c) }
    }
}

/// Repeats the insertion of `+` before the binary `-` until nothing changes, at most
/// `fuel` times.
pub open spec fn plus_before_minus(s: Seq<char>, fuel: nat) -> Seq<char>
    decreases fuel,
{
    if fuel == 0 {
        s
    } else {
        match regex_replace_all_result(minus_pattern(), s, plus_minus_replacement()) {
            Some(t) => if t == s { s } else { plus_before_minus(t, (fuel - 1) as nat) },
            None => s,
        }
    }
}

/// Step 0: the cleaned input where every binary `-` has become `+-`. Each round turns at
/// least one `-` that the pattern matches into `+-`, which it no longer matches, so a
/// round changes nothing after at most as many rounds as there are `-`.
pub open spec fn preprocessed(s: Seq<char>) -> Seq<char> {
    let c = cleaned_input(s);
    plus_before_minus(c, count_minus(c) + 1)
}

/// The counted `-` of a text, from the end.
proof fn lemma_count_minus_push(s: Seq<char>, c: char)
    ensures
        count_minus(s.push(c)) == count_minus(s) + (if c == '-' { 1nat } else { 0nat }),
    decreases s.len(),
{
    let x = s.push(c);
    if s.len() > 0 {
        let t = s.subrange(1, s.len() as int);
        assert(x.subrange(1, x.len() as int) =~= t.push(c));
        assert(x[0] == s[0]);
        lemma_count_minus_push(t, c);
        assert(count_minus(x) == (if x[0] == '-' { 1nat } else { 0nat }) + count_minus(x.subrange(1, x.len() as int)));
        assert(count_minus(s) == (if s[0] == '-' { 1nat } else { 0nat }) + count_minus(t));
    } else {
        assert(x.subrange(1, 1) =~= Seq::<char>::empty());
        assert(count_minus(x) == (if x[0] == '-' { 1nat } else { 0nat }) + count_minus(x.subrange(1, x.len() as int)));
        assert(count_minus(s) == 0);
    }
}

impl Element {
    /// Step 0 (see `preprocessed`).
    pub fn preprocess_string(input: &str) -> (r: String)
        ensures
            r@ == preprocessed(input@),
    {
        let chars = chars_of(input);
        let mut cleaned: Vec<char> = Vec::new();
        let mut minus_count: usize = 0;
        let mut i: usize = 0;
        while i < chars.len()
            invariant
                i <= chars@.len(),
                chars@ == input@,
                cleaned@ == cleaned_input(chars@.take(i as int)),
                minus_count == count_minus(cleaned@),
                minus_count <= i,
            decreases chars.len() - i,
        {
            proof {
                assert(chars@.take(i + 1).drop_last() =~= chars@.take(i as int));
            }
            let c = chars[i];
            if c == ' ' {
            } else {
                let d = if c == '×' { '*' } else { c };
                proof {
                    lemma_count_minus_push(cleaned@, d);
                }
                cleaned.push(d);
                if d == '-' {
                    minus_count = minus_count + 1;
                }
            }
            i = i + 1;
        }
        assert(chars@.take(i as int) =~= chars@);
        let mut modified = string_of(&cleaned);
        let mut fuel: u128 = minus_count as u128 + 1;
        let ghost target = plus_before_minus(cleaned@, count_minus(cleaned@) + 1);
        let mut done = false;
        while fuel > 0 && !done
            invariant
                !done ==> plus_before_minus(modified@, fuel as nat) == target,
                done ==> modified@ == target,
            decreases fuel,
        {
            match regex_replace_all(r"([\w)])-([\w(-])", modified.as_str(), "$1+-$2") {
                Some(new) => {
                    if new == modified {
                        done = true;
                    } else {
                        modified = new;
                    }
                },
                None => {
                    done = true;
                },
            }
            fuel = fuel - 1;
        }
        modified
    }
}

pub open spec fn unparsed_text() -> Seq<char> {
    "Parts of the formula could not be parsed"@
}

/// The tree after steps 0 to 3.
pub open spec fn parsed_up_to_products(input: Seq<char>) -> ElementView {
    let b = bracket_group(preprocessed(input), 0).0;
    multiply_pass(minus_pass(plus_pass(functions_resolved(b))))
}

/// Whether the parse is defined on the input: step 4 finds a first operand for every
/// division (on other inputs it panics).
pub open spec fn parse_defined(input: Seq<char>) -> bool {
    divide_defined(parsed_up_to_products(input))
}

/// The result of parsing: the tree after all steps, or the error of step 6, or an error
/// when unparsed brackets or text are left.
pub open spec fn parse_result(input: Seq<char>) -> Result<ElementView, Seq<char>> {
    let f = minus_pass(divide_pass(parsed_up_to_products(input)));
    match pow_pass(f) {
        None => Err(pow_error_text()),
        Some(p) => {
            let r = to_variables(outer_brackets_removed(numbers_and_names(minus_pass(p))));
            if unparsed(r) { Err(unparsed_text()) } else { Ok(r) }
        },
    }
}

/// The element holds no number.
pub open spec fn no_numbers(e: ElementView) -> bool
    decreases e,
{
    match e {
        ElementView::Number(_) => false,
        ElementView::Brackets(v) => no_numbers_all(v),
        ElementView::Plus(v) => no_numbers_all(v),
        ElementView::Multiply(v) => no_numbers_all(v),
        ElementView::Function(_, v) => no_numbers_all(v),
        ElementView::FunctionWithExpression(v, _) => no_numbers_all(v),
        ElementView::Pow(a, b) => no_numbers(*a) && no_numbers(*b),
        ElementView::Negate(a) => no_numbers(*a),
        _ => true,
    }
}

/// No element holds a number.
pub open spec fn no_numbers_all(s: Seq<ElementView>) -> bool
    decreases s,
{
    if s.len() == 0 { true } else { no_numbers_all(s.drop_last()) && no_numbers(s.last()) }
}

/// An element without numbers is well formed, whatever else it holds.
pub proof fn lemma_no_numbers_wf(e: Element)
    requires
        no_numbers(e@),
    ensures
        e.wf(),
    decreases e,
{
    match e {
        Element::Brackets(v) => lemma_no_numbers_all_wf(v@),
        Element::Plus(v) => lemma_no_numbers_all_wf(v@),
        Element::Multiply(v) => lemma_no_numbers_all_wf(v@),
        Element::Function { arguments, .. } => lemma_no_numbers_all_wf(arguments@),
        Element::FunctionWithExpression { arguments, .. } => lemma_no_numbers_all_wf(arguments@),
        Element::Pow(a, b) => {
            lemma_no_numbers_wf(*a);
            lemma_no_numbers_wf(*b);
        },
        Element::Negate(a) => lemma_no_numbers_wf(*a),
        _ => {},
    }
}

proof fn lemma_no_numbers_all_wf(v: Seq<Element>)
    requires
        no_numbers_all(view_seq(v)),
    ensures
        forall|i: int| 0 <= i < v.len() ==> (#[trigger] v[i]).wf(),
    decreases v,
{
    if v.len() > 0 {
        assert(view_seq(v) == view_seq(v.drop_last()).push(v.last()@));
        assert(view_seq(v).drop_last() =~= view_seq(v.drop_last()));
        lemma_no_numbers_all_wf(v.drop_last());
        lemma_no_numbers_wf(v.last());
        assert forall|i: int| 0 <= i < v.len() implies (#[trigger] v[i]).wf() by {
            if i < v.len() - 1 {
                assert(v.drop_last()[i] == v[i]);
            }
        }
    }
}

/// Before its texts are read as numbers (step 8), the formula holds no number yet, so
/// every number of the result is one that was read.
pub open spec fn numbers_only_read(input: Seq<char>) -> bool {
    match pow_pass(minus_pass(divide_pass(parsed_up_to_products(input)))) {
        Some(p) => no_numbers(minus_pass(p)),
        None => true,
    }
}

/// The names of the parsing steps whose times `parse_benched` records, in order.
pub open spec fn parse_step_names() -> Seq<Seq<char>> {
    seq![
        "preprocess_string_minus"@,
        "convert_to_chars"@,
        "resolve_brackets"@,
        "resolve_functions"@,
        "process_plus"@,
        "process_minus"@,
        "process_multiply"@,
        "process_divide"@,
        "process_minus_2"@,
        "process_pow"@,
        "process_minus_3"@,
        "process_numbers_and_variables"@,
        "remove_unneeded_outer_brackets"@,
        "convert_to_variables_where_possible"@,
    ]
}

/// How many parsing steps run on the input: all of them, or up to the powers where those
/// fail.
pub open spec fn parse_steps_run(input: Seq<char>) -> int {
    if pow_pass(minus_pass(divide_pass(parsed_up_to_products(input)))) is None { 10 } else { 14 }
}

impl Element {
    /// Parses a formula (see `parse_result`).
    pub fn parse(input: &str) -> (r: Result<Element, String>)
        requires
            parse_defined(input@),
        ensures
            match r {
                Ok(e) => parse_result(input@) == Ok::<ElementView, Seq<char>>(e@),
                Err(m) => parse_result(input@) == Err::<ElementView, Seq<char>>(m@),
            },
            numbers_only_read(input@) ==> (r matches Ok(e) ==> e.wf()),
    {
        let mut b = Benchmark::new("Parse formula");
        Self::parse_benched(input, &mut b)
    }

    /// Parses a formula (see `parse_result`), recording the time of each step that runs as
    /// a task of the benchmark, named as `parse_step_names` gives, after the tasks it had.
    pub fn parse_benched(input: &str, benchmark: &mut Benchmark) -> (r: Result<Element, String>)
        requires
            parse_defined(input@),
        ensures
            match r {
                Ok(e) => parse_result(input@) == Ok::<ElementView, Seq<char>>(e@),
                Err(m) => parse_result(input@) == Err::<ElementView, Seq<char>>(m@),
            },
            numbers_only_read(input@) ==> (r matches Ok(e) ==> e.wf()),
            final(benchmark).name@ == old(benchmark).name@,
            final(benchmark).tasks@.len() == old(benchmark).tasks@.len() + parse_steps_run(input@),
            final(benchmark).tasks@.take(old(benchmark).tasks@.len() as int) == old(benchmark).tasks@,
            forall|i: int| 0 <= i < parse_steps_run(input@) ==> {
                &&& (#[trigger] final(benchmark).tasks@[old(benchmark).tasks@.len() + i]).name@ == parse_step_names()[i]
                &&& final(benchmark).tasks@[old(benchmark).tasks@.len() + i].sub_tasks is None
            },
    {
        let b = benchmark;
        let t = instant_now();
        let cow = Self::preprocess_string(input);
        b.record("preprocess_string_minus", &t);
        let t = instant_now();
        let chars = chars_of(cow.as_str());
        b.record("convert_to_chars", &t);
        let t = instant_now();
        let mut start: usize = 0;
        let mut formula = Self::resolve_brackets(&chars, &mut start);
        b.record("resolve_brackets", &t);
        let t = instant_now();
        formula.resolve_functions();
        b.record("resolve_functions", &t);
        let t = instant_now();
        formula.process_plus();
        b.record("process_plus", &t);
        let t = instant_now();
        formula.process_minus();
        b.record("process_minus", &t);
        let t = instant_now();
        formula.process_multiply();
        b.record("process_multiply", &t);
        let t = instant_now();
        formula.process_divide();
        b.record("process_divide", &t);
        let t = instant_now();
        formula.process_minus();
        b.record("process_minus_2", &t);
        let t = instant_now();
        let pow = formula.process_pow();
        b.record("process_pow", &t);
        if let Err(m) = pow {
            return Err(m);
        }
        let t = instant_now();
        formula.process_minus();
        b.record("process_minus_3", &t);
        proof {
            if no_numbers(formula@) {
                lemma_no_numbers_wf(formula);
            }
        }
        let t = instant_now();
        formula.process_numbers_and_variables();
        b.record("process_numbers_and_variables", &t);
        let t = instant_now();
        formula.remove_unneeded_outer_brackets();
        b.record("remove_unneeded_outer_brackets", &t);
        let t = instant_now();
        formula.convert_to_variables_where_possible();
        b.record("convert_to_variables_where_possible", &t);
        if formula.anything_unparsed() {
            Err("Parts of the formula could not be parsed".to_owned())
        } else {
            Ok(formula)
        }
    }

    /// Whether `parse` is defined on the input (see `parse_defined`).
    pub fn parse_is_defined(input: &str) -> (b: bool)
        ensures
            b == parse_defined(input@),
    {
        let cow = Self::preprocess_string(input);
        let chars = chars_of(cow.as_str());
        let mut start: usize = 0;
        let mut formula = Self::resolve_brackets(&chars, &mut start);
        formula.resolve_functions();
        formula.process_plus();
        formula.process_minus();
        formula.process_multiply();
        formula.divisions_defined()
    }
}

// ---------------------------------------------------------------------------
// Step 6: powers
// ---------------------------------------------------------------------------

/// `s[0]^(s[1]^(...))`: powers grouped from the right.
pub open spec fn pow_chain(s: Seq<ElementView>) -> ElementView
    decreases s.len(),
{
    if s.len() == 0 {
        ElementView::Brackets(s)
    } else if s.len() == 1 {
        s[0]
    } else {
        ElementView::Pow(Box::new(s[0]), Box::new(pow_chain(s.subrange(1, s.len() as int))))
    }
}

/// Powers are grouped from the right: a chain of two or more operands is the first operand
/// raised to the chain of the others, so `a^b^c` is `a^(b^c)`.
pub proof fn law_power_chain_groups_from_the_right(s: Seq<ElementView>)
    requires
        s.len() >= 2,
    ensures
        pow_chain(s) == ElementView::Pow(Box::new(s[0]), Box::new(pow_chain(s.drop_first()))),
        s.len() == 3 ==> pow_chain(s) == ElementView::Pow(Box::new(s[0]),
            Box::new(ElementView::Pow(Box::new(s[1]), Box::new(s[2])))),
{
    assert(s.subrange(1, s.len() as int) =~= s.drop_first());
    if s.len() == 3 {
        let t = s.drop_first();
        assert(t.subrange(1, t.len() as int) =~= seq![s[2]]);
        assert(pow_chain(seq![s[2]]) == s[2]);
        assert(pow_chain(t) == ElementView::Pow(Box::new(t[0]), Box::new(pow_chain(t.subrange(1, t.len() as int)))));
        assert(t[0] == s[1]);
    }
}

/// One more operand at the end of a chain becomes the exponent of its last operand: the
/// new operand is the innermost power.
pub proof fn law_power_chain_extends_at_the_innermost_exponent(s: Seq<ElementView>, x: ElementView)
    requires
        s.len() >= 1,
    ensures
        pow_chain(s.push(x)) == pow_chain(s.drop_last().push(ElementView::Pow(Box::new(s.last()), Box::new(x)))),
    decreases s.len(),
{
    let t = s.push(x);
    if s.len() == 1 {
        assert(t.subrange(1, t.len() as int) =~= seq![x]);
        assert(pow_chain(seq![x]) == x);
        let p = ElementView::Pow(Box::new(s[0]), Box::new(x));
        assert(s.drop_last().push(ElementView::Pow(Box::new(s.last()), Box::new(x))) =~= seq![p]);
        assert(pow_chain(seq![p]) == p);
        assert(t[0] == s[0]);
    } else {
        let rest = s.subrange(1, s.len() as int);
        law_power_chain_extends_at_the_innermost_exponent(rest, x);
        assert(t.subrange(1, t.len() as int) =~= rest.push(x));
        let u = s.drop_last().push(ElementView::Pow(Box::new(s.last()), Box::new(x)));
        assert(u.subrange(1, u.len() as int) =~= rest.drop_last().push(ElementView::Pow(Box::new(rest.last()), Box::new(x))));
        assert(u[0] == s[0]);
        assert(u.len() >= 2);
        assert(t.len() >= 2);
        assert(pow_chain(t) == ElementView::Pow(Box::new(t[0]), Box::new(pow_chain(t.subrange(1, t.len() as int)))));
        assert(pow_chain(u) == ElementView::Pow(Box::new(u[0]), Box::new(pow_chain(u.subrange(1, u.len() as int)))));
    }
}

/// Step 6: a bracket group with `^` in its strings becomes the powers of the groups
/// between the `^`, grouped from the right; a single group stands for itself and only
/// its parts are processed further. Text with `^` becomes the powers of its pieces.
/// `None` where a `^` has nothing around it at all (the error of the step).
pub open spec fn pow_pass(e: ElementView) -> Option<ElementView>
    decreases height(e), split_flag(e, '^'), 0int,
{
    match e {
        ElementView::Brackets(es) => match split_list(es, '^') {
            Some(g) => if g.len() == 0 {
                None
            } else if g.len() == 1 {
                let x = g[0];
                if height(e) >= 1 && fitting_group(x, '^', (height(e) - 1) as nat) {
                    match x {
                        ElementView::Brackets(s) => match pow_all(s) {
                            Some(r) => Some(ElementView::Brackets(r)),
                            None => None,
                        },
                        ElementView::Pow(b, p) => match (pow_pass(*b), pow_pass(*p)) {
                            (Some(b2), Some(p2)) => Some(ElementView::Pow(Box::new(b2), Box::new(p2))),
                            _ => None,
                        },
                        _ => Some(x),
                    }
                } else {
                    Some(x)
                }
            } else {
                match pow_groups(g, height(e)) {
                    Some(r) => Some(pow_chain(r)),
                    None => None,
                }
            },
            None => match pow_all(es) {
                Some(r) => Some(ElementView::Brackets(r)),
                None => None,
            },
        },
        ElementView::Plus(s) => match pow_all(s) {
            Some(r) => Some(ElementView::Plus(r)),
            None => None,
        },
        ElementView::Multiply(s) => match pow_all(s) {
            Some(r) => Some(ElementView::Multiply(r)),
            None => None,
        },
        ElementView::Negate(a) => match pow_pass(*a) {
            Some(r) => Some(ElementView::Negate(Box::new(r))),
            None => None,
        },
        ElementView::String(t) => match split_text(t, '^') {
            Some(p) => if p.len() == 0 { None } else { Some(pow_chain(p)) },
            None => Some(e),
        },
        ElementView::Pow(b, p) => match (pow_pass(*b), pow_pass(*p)) {
            (Some(b2), Some(p2)) => Some(ElementView::Pow(Box::new(b2), Box::new(p2))),
            _ => None,
        },
        ElementView::Function(n, args) => match pow_all(args) {
            Some(r) => Some(ElementView::Function(n, r)),
            None => None,
        },
        _ => Some(e),
    }
}

/// `pow_pass` on each element; `None` if it fails on one.
pub open spec fn pow_all(s: Seq<ElementView>) -> Option<Seq<ElementView>>
    decreases max_height(s), 2int, s.len(),
{
    if s.len() == 0 {
        Some(s)
    } else {
        match (pow_all(s.drop_last()), pow_pass(s.last())) {
            (Some(a), Some(b)) => Some(a.push(b)),
            _ => None,
        }
    }
}

/// `pow_pass` on each group cut from a bracket group of height `m`; `None` if it fails on one.
pub open spec fn pow_groups(g: Seq<ElementView>, m: nat) -> Option<Seq<ElementView>>
    decreases m, 0int, g.len(),
{
    if g.len() == 0 {
        Some(g)
    } else {
        let x = g.last();
        let r = if m >= 1 && fitting_group(x, '^', (m - 1) as nat) { pow_pass(x) } else { Some(x) };
        match (pow_groups(g.drop_last(), m), r) {
            (Some(a), Some(b)) => Some(a.push(b)),
            _ => None,
        }
    }
}

proof fn lemma_pow_all(s: Seq<ElementView>)
    ensures
        pow_all(s) is Some <==> forall|i: int| 0 <= i < s.len() ==> #[trigger] pow_pass(s[i]) is Some,
        pow_all(s) is Some ==> pow_all(s)->0.len() == s.len()
            && forall|i: int| 0 <= i < s.len() ==> #[trigger] pow_all(s)->0[i] == pow_pass(s[i])->0,
    decreases s.len(),
{
    if s.len() > 0 {
        lemma_pow_all(s.drop_last());
        assert forall|i: int| 0 <= i < s.len() - 1 implies #[trigger] s.drop_last()[i] == s[i] by {}
        if pow_all(s) is Some {
            assert forall|i: int| 0 <= i < s.len() implies #[trigger] pow_pass(s[i]) is Some by {
                if i < s.len() - 1 {
                    assert(pow_pass(s.drop_last()[i]) is Some);
                }
            }
        } else {
            if pow_all(s.drop_last()) is None {
                let i = choose|i: int| 0 <= i < s.drop_last().len() && !(#[trigger] pow_pass(s.drop_last()[i]) is Some);
                assert(pow_pass(s[i]) is None);
            } else {
                assert(pow_pass(s[s.len() - 1]) is None);
            }
        }
    }
}

proof fn lemma_pow_groups(g: Seq<ElementView>, m: nat)
    requires
        m >= 1,
        fitting_groups(g, '^', (m - 1) as nat),
    ensures
        pow_groups(g, m) is Some <==> forall|i: int| 0 <= i < g.len() ==> #[trigger] pow_pass(g[i]) is Some,
        pow_groups(g, m) is Some ==> pow_groups(g, m)->0.len() == g.len()
            && forall|i: int| 0 <= i < g.len() ==> #[trigger] pow_groups(g, m)->0[i] == pow_pass(g[i])->0,
    decreases g.len(),
{
    if g.len() > 0 {
        assert(fitting_groups(g.drop_last(), '^', (m - 1) as nat)) by {
            assert forall|i: int| 0 <= i < g.drop_last().len() implies fitting_group(#[trigger] g.drop_last()[i], '^', (m - 1) as nat) by {
                assert(g.drop_last()[i] == g[i]);
            }
        }
        lemma_pow_groups(g.drop_last(), m);
        assert(fitting_group(g[g.len() - 1], '^', (m - 1) as nat));
        assert forall|i: int| 0 <= i < g.len() - 1 implies #[trigger] g.drop_last()[i] == g[i] by {}
        if pow_groups(g, m) is Some {
            assert forall|i: int| 0 <= i < g.len() implies #[trigger] pow_pass(g[i]) is Some by {
                if i < g.len() - 1 {
                    assert(pow_pass(g.drop_last()[i]) is Some);
                }
            }
        } else {
            if pow_groups(g.drop_last(), m) is None {
                let i = choose|i: int| 0 <= i < g.drop_last().len() && !(#[trigger] pow_pass(g.drop_last()[i]) is Some);
                assert(pow_pass(g[i]) is None);
            } else {
                assert(pow_pass(g[g.len() - 1]) is None);
            }
        }
    }
}

/// The error of step 6.
pub open spec fn pow_error_text() -> Seq<char> {
    "No element provided for power operation"@
}

/// Step 6 on each element, stopping at the first failure.
fn pow_all_exec(v: &mut Vec<Element>) -> (ok: bool)
    ensures
        ok == (pow_all(view_seq(old(v)@)) is Some),
        ok ==> view_seq(final(v)@) == pow_all(view_seq(old(v)@))->0,
    decreases max_height(view_seq(old(v)@)), 2int, old(v)@.len(),
{
    let ghost old_v = v@;
    proof {
        lemma_view_seq_len(old_v);
        lemma_max_height(view_seq(old_v));
        lemma_pow_all(view_seq(old_v));
    }
    let mut i: usize = 0;
    while i < v.len()
        invariant
            i <= v@.len(),
            v@.len() == old_v.len(),
            old_v == old(v)@,
            view_seq(old_v).len() == old_v.len(),
            forall|j: int| 0 <= j < view_seq(old_v).len() ==> height(#[trigger] view_seq(old_v)[j]) <= max_height(view_seq(old_v)),
            forall|j: int| 0 <= j < i ==> pow_pass(#[trigger] old_v[j]@) == Some(v@[j]@),
            forall|j: int| i <= j < v@.len() ==> (#[trigger] v@[j]) == old_v[j],
        decreases v.len() - i,
    {
        proof {
            lemma_view_seq_index(old_v, i as int);
        }
        let r = v[i].process_pow();
        if r.is_err() {
            proof {
                lemma_view_seq_index(old_v, i as int);
                lemma_pow_all(view_seq(old_v));
                assert(pow_pass(view_seq(old_v)[i as int]) is None);
            }
            return false;
        }
        i = i + 1;
    }
    proof {
        lemma_view_seq_len(v@);
        lemma_pow_all(view_seq(old_v));
        assert forall|j: int| 0 <= j < view_seq(old_v).len() implies #[trigger] pow_pass(view_seq(old_v)[j]) is Some by {
            lemma_view_seq_index(old_v, j);
            assert(old_v[j]@ == view_seq(old_v)[j]);
        }
        assert forall|j: int| 0 <= j < v@.len() implies view_seq(v@)[j] == pow_all(view_seq(old_v))->0[j] by {
            lemma_view_seq_index(v@, j);
            lemma_view_seq_index(old_v, j);
            assert(old_v[j]@ == view_seq(old_v)[j]);
            assert(pow_pass(old_v[j]@) == Some(v@[j]@));
        }
    }
    assert(view_seq(v@) =~= pow_all(view_seq(old_v))->0);
    true
}

/// Step 6 on each group, stopping at the first failure.
fn pow_groups_exec(v: &mut Vec<Element>, Ghost(m): Ghost<nat>) -> (ok: bool)
    requires
        m >= 1,
        fitting_groups(view_seq(old(v)@), '^', (m - 1) as nat),
    ensures
        ok == (pow_groups(view_seq(old(v)@), m) is Some),
        ok ==> view_seq(final(v)@) == pow_groups(view_seq(old(v)@), m)->0,
    decreases m, 0int, old(v)@.len(),
{
    let ghost old_v = v@;
    proof {
        lemma_view_seq_len(old_v);
        lemma_pow_groups(view_seq(old_v), m);
    }
    let mut i: usize = 0;
    while i < v.len()
        invariant
            i <= v@.len(),
            v@.len() == old_v.len(),
            old_v == old(v)@,
            m >= 1,
            view_seq(old_v).len() == old_v.len(),
            fitting_groups(view_seq(old_v), '^', (m - 1) as nat),
            forall|j: int| 0 <= j < i ==> pow_pass(#[trigger] old_v[j]@) == Some(v@[j]@),
            forall|j: int| i <= j < v@.len() ==> (#[trigger] v@[j]) == old_v[j],
        decreases v.len() - i,
    {
        proof {
            lemma_view_seq_index(old_v, i as int);
            assert(fitting_group(view_seq(old_v)[i as int], '^', (m - 1) as nat));
        }
        let r = v[i].process_pow();
        if r.is_err() {
            proof {
                lemma_pow_groups(view_seq(old_v), m);
                assert(pow_pass(view_seq(old_v)[i as int]) is None);
            }
            return false;
        }
        i = i + 1;
    }
    proof {
        lemma_view_seq_len(v@);
        lemma_pow_groups(view_seq(old_v), m);
        assert forall|j: int| 0 <= j < view_seq(old_v).len() implies #[trigger] pow_pass(view_seq(old_v)[j]) is Some by {
            lemma_view_seq_index(old_v, j);
            assert(old_v[j]@ == view_seq(old_v)[j]);
        }
        assert forall|j: int| 0 <= j < v@.len() implies view_seq(v@)[j] == pow_groups(view_seq(old_v), m)->0[j] by {
            lemma_view_seq_index(v@, j);
            lemma_view_seq_index(old_v, j);
            assert(old_v[j]@ == view_seq(old_v)[j]);
            assert(pow_pass(old_v[j]@) == Some(v@[j]@));
        }
    }
    assert(view_seq(v@) =~= pow_groups(view_seq(old_v), m)->0);
    true
}

/// Powers of the elements grouped from the right (see `pow_chain`).
fn make_pow_chain(v: Vec<Element>) -> (e: Element)
    requires
        v@.len() >= 1,
    ensures
        e@ == pow_chain(view_seq(v@)),
{
    proof {
        lemma_view_seq_len(v@);
    }
    let ghost t = view_seq(v@);
    let n = v.len();
    proof {
        lemma_view_seq_index(v@, n - 1);
        assert(t.subrange(n - 1, n as int) =~= seq![t[n - 1]]);
    }
    let mut working = v[n - 1].duplicate();
    let mut i: usize = n - 1;
    while i > 0
        invariant
            i < n,
            n == v@.len(),
            t == view_seq(v@),
            t.len() == n,
            working@ == pow_chain(t.subrange(i as int, n as int)),
        decreases i,
    {
        proof {
            lemma_view_seq_index(v@, i - 1);
            let u = t.subrange(i - 1, n as int);
            assert(u.subrange(1, u.len() as int) =~= t.subrange(i as int, n as int));
            assert(u[0] == t[i - 1]);
        }
        let b = v[i - 1].duplicate();
        working = Element::Pow(Box::new(b), Box::new(working));
        i = i - 1;
    }
    assert(t.subrange(0, n as int) =~= t);
    working
}

impl Element {
    /// Step 6 (see `pow_pass`); on failure the element is left partly processed.
    pub fn process_pow(&mut self) -> (r: Result<(), String>)
        ensures
            r is Ok <==> pow_pass(old(self)@) is Some,
            r is Ok ==> Some(final(self)@) == pow_pass(old(self)@),
            r matches Err(m) ==> m@ == pow_error_text(),
        decreases height(old(self)@), split_flag(old(self)@, '^'), 0int,
    {
        let ghost h = height(self@);
        let ghost e0 = self@;
        match self {
            Element::Brackets(elements) => {
                match split_list_by_char(elements, '^') {
                    Some(mut groups) => {
                        proof {
                            lemma_split_list_groups(view_seq(elements@), '^');
                            lemma_view_seq_len(groups@);
                        }
                        if groups.len() == 0 {
                            return Err("No element provided for power operation".to_owned());
                        }
                        if groups.len() == 1 {
                            let ghost g = view_seq(groups@);
                            proof {
                                lemma_view_seq_index(groups@, 0);
                                assert(fitting_group(g[0], '^', (h - 1) as nat));
                            }
                            let mut x = groups.pop().unwrap();
                            assert(x@ == g[0]);
                            match &mut x {
                                Element::Brackets(s) => {
                                    if !pow_all_exec(s) {
                                        return Err("No element provided for power operation".to_owned());
                                    }
                                },
                                Element::Pow(b, p) => {
                                    let rb = b.process_pow();
                                    if rb.is_err() {
                                        return rb;
                                    }
                                    let rp = p.process_pow();
                                    if rp.is_err() {
                                        return rp;
                                    }
                                },
                                _ => {},
                            }
                            *self = x;
                            return Ok(());
                        }
                        if !pow_groups_exec(&mut groups, Ghost(h)) {
                            return Err("No element provided for power operation".to_owned());
                        }
                        *self = make_pow_chain(groups);
                        Ok(())
                    },
                    None => {
                        if pow_all_exec(elements) {
                            Ok(())
                        } else {
                            Err("No element provided for power operation".to_owned())
                        }
                    },
                }
            },
            Element::Plus(v) => if pow_all_exec(v) { Ok(()) } else { Err("No element provided for power operation".to_owned()) },
            Element::Multiply(v) => if pow_all_exec(v) { Ok(()) } else { Err("No element provided for power operation".to_owned()) },
            Element::Negate(a) => a.process_pow(),
            Element::String(t) => {
                match split_string_by_char(t.as_str(), '^') {
                    Some(pieces) => {
                        proof {
                            lemma_view_seq_len(pieces@);
                        }
                        if pieces.len() == 0 {
                            Err("No element provided for power operation".to_owned())
                        } else {
                            *self = make_pow_chain(pieces);
                            Ok(())
                        }
                    },
                    None => Ok(()),
                }
            },
            Element::Pow(b, p) => {
                let rb = b.process_pow();
                if rb.is_err() {
                    return rb;
                }
                p.process_pow()
            },
            Element::Function { arguments, .. } => if pow_all_exec(arguments) { Ok(()) } else { Err("No element provided for power operation".to_owned()) },
            _ => Ok(()),
        }
    }
}

} // verus!
