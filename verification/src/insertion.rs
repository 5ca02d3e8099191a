//! Inserting the definition of a symbol into a formula: variables are replaced by their
//! values, calls of a function by its formula with the arguments put in for the
//! parameters.

use vstd::prelude::*;
use crate::element::{
    Element, ElementView, ExpressionFunType, ParamCount, view_seq, lemma_view_seq_len,
    lemma_view_seq_index, lemma_view_seq_push,
};
use crate::debug_text::debug_text;
use crate::text::{push_str, nat_to_decimal, chars_of, string_of};

verus! {

/// The definition of a symbol to insert: its name, its parameters if it is a function,
/// and its formula.
pub struct InsertionElement {
    pub name: String,
    pub parameters: Option<Vec<String>>,
    pub formula: Element,
}

pub struct InsertionView {
    pub name: Seq<char>,
    pub parameters: Option<Seq<Seq<char>>>,
    pub formula: ElementView,
}

pub open spec fn names_of(v: Seq<String>) -> Seq<Seq<char>> {
    v.map_values(|s: String| s@)
}

impl InsertionElement {
    pub open spec fn view_insertion(&self) -> InsertionView {
        InsertionView {
            name: self.name@,
            parameters: match self.parameters {
                Some(p) => Some(names_of(p@)),
                None => None,
            },
            formula: self.formula@,
        }
    }
}

impl View for InsertionElement {
    type V = InsertionView;

    open spec fn view(&self) -> InsertionView {
        self.view_insertion()
    }
}

/// Whether the insertion is a function with parameters (insertions of arguments are not).
pub open spec fn rank(ins: InsertionView) -> nat {
    if ins.parameters is Some { 1 } else { 0 }
}

/// The name of a call, a variable or an ambiguous name.
pub open spec fn element_name(e: ElementView) -> Option<Seq<char>> {
    match e {
        ElementView::Function(n, _) => Some(n),
        ElementView::Variable(n) => Some(n),
        ElementView::VariableOrFunction(n) => Some(n),
        _ => None,
    }
}

/// The names separated by `, `.
pub open spec fn names_text(s: Seq<Seq<char>>) -> Seq<char>
    decreases s.len(),
{
    if s.len() == 0 {
        Seq::empty()
    } else if s.len() == 1 {
        s[0]
    } else {
        names_text(s.drop_last()) + ", "@ + s.last()
    }
}

pub open spec fn insertion_text(ins: InsertionView) -> Seq<char> {
    "{ name: "@ + ins.name + ", parameters: "@ + match ins.parameters {
        Some(p) => "["@ + names_text(p) + "]"@,
        None => "none"@,
    } + ", formula: "@ + debug_text(ins.formula) + " }"@
}

pub open spec fn mismatch_text(e: ElementView, ins: InsertionView) -> Seq<char> {
    "Insertion element and formula don't match (self: "@ + debug_text(e) + ", insert: "@ + insertion_text(ins) + ")"@
}

pub open spec fn param_count_debug(p: ParamCount) -> Seq<char> {
    match p {
        ParamCount::Exactly(n) => "Exactly("@ + nat_to_decimal(n as nat) + ")"@,
        ParamCount::AtLeast(n) => "AtLeast("@ + nat_to_decimal(n as nat) + ")"@,
    }
}

pub open spec fn param_count_error(name: Seq<char>, p: ParamCount, n: nat) -> Seq<char> {
    "The function `"@ + name + "` expects parameters, that match "@ + param_count_debug(p) + ", but "@
        + nat_to_decimal(n) + " parameters were provided"@
}

pub open spec fn different_counts_text() -> Seq<char> {
    "The function used in the formula and the supplied function have different parameter counts"@
}

pub open spec fn no_arguments_text() -> Seq<char> {
    "No arguments provided for insertion"@
}

/// An ambiguous name as a variable.
pub open spec fn as_variable(e: ElementView) -> ElementView {
    match e {
        ElementView::VariableOrFunction(n) => ElementView::Variable(n),
        _ => e,
    }
}

/// The ambiguous names directly inside a sum, product, expression function, power or
/// negation turned into variables.
pub open spec fn variables_marked(e: ElementView) -> ElementView {
    match e {
        ElementView::Plus(s) => ElementView::Plus(s.map_values(|x: ElementView| as_variable(x))),
        ElementView::Multiply(s) => ElementView::Multiply(s.map_values(|x: ElementView| as_variable(x))),
        ElementView::FunctionWithExpression(s, t) => ElementView::FunctionWithExpression(s.map_values(|x: ElementView| as_variable(x)), t),
        ElementView::Pow(a, b) => ElementView::Pow(Box::new(as_variable(*a)), Box::new(as_variable(*b))),
        ElementView::Negate(a) => ElementView::Negate(Box::new(as_variable(*a))),
        _ => e,
    }
}

/// The formula with the insertion made: first inside the parts, then, where the element
/// has the inserted name, in the element itself: a variable or an ambiguous name becomes the
/// formula (an ambiguous name stays where the insertion is a function), a call of a function
/// gets the formula with its arguments put in (or only the new name, where the formula is a
/// name); the ambiguous names directly inside become variables. An error where the insertion
/// does not fit the element.
pub open spec fn symbol_inserted(e: ElementView, ins: InsertionView) -> Result<ElementView, Seq<char>>
    decreases rank(ins), 1nat, 0nat, e,
{
    let parts: Result<ElementView, Seq<char>> = match e {
        ElementView::Brackets(s) => match all_inserted(s, ins) {
            Ok(s2) => Ok(ElementView::Brackets(s2)),
            Err(x) => Err(x),
        },
        ElementView::Plus(s) => match all_inserted(s, ins) {
            Ok(s2) => Ok(ElementView::Plus(s2)),
            Err(x) => Err(x),
        },
        ElementView::Multiply(s) => match all_inserted(s, ins) {
            Ok(s2) => Ok(ElementView::Multiply(s2)),
            Err(x) => Err(x),
        },
        ElementView::Function(n, s) => match all_inserted(s, ins) {
            Ok(s2) => Ok(ElementView::Function(n, s2)),
            Err(x) => Err(x),
        },
        ElementView::FunctionWithExpression(s, t) => match all_inserted(s, ins) {
            Ok(s2) => Ok(ElementView::FunctionWithExpression(s2, t)),
            Err(x) => Err(x),
        },
        ElementView::Pow(a, b) => match symbol_inserted(*a, ins) {
            Ok(a2) => match symbol_inserted(*b, ins) {
                Ok(b2) => Ok(ElementView::Pow(Box::new(a2), Box::new(b2))),
                Err(x) => Err(x),
            },
            Err(x) => Err(x),
        },
        ElementView::Negate(x) => match symbol_inserted(*x, ins) {
            Ok(x2) => Ok(ElementView::Negate(Box::new(x2))),
            Err(y) => Err(y),
        },
        _ => Ok(e),
    };
    match parts {
        Err(x) => Err(x),
        Ok(e2) => {
            let replaced: Result<ElementView, Seq<char>> = if element_name(e2) == Some(ins.name) {
                match e2 {
                    ElementView::Function(_, args) => match (ins.parameters, ins.formula) {
                        (None, ElementView::VariableOrFunction(new_name)) => Ok(ElementView::Function(new_name, args)),
                        (Some(_), _) => param_values_inserted(ins, args),
                        (None, ElementView::FunctionWithExpression(_, _)) => param_values_inserted(ins, args),
                        _ => Err(mismatch_text(e2, ins)),
                    },
                    ElementView::Variable(_) => if ins.parameters is None { Ok(ins.formula) } else { Err(mismatch_text(e2, ins)) },
                    _ => if ins.parameters is Some { Ok(e2) } else { Ok(ins.formula) },
                }
            } else {
                Ok(e2)
            };
            match replaced {
                Err(x) => Err(x),
                Ok(e3) => Ok(variables_marked(e3)),
            }
        },
    }
}

/// The insertion made in each element, from the first on; the first error ends it.
pub open spec fn all_inserted(s: Seq<ElementView>, ins: InsertionView) -> Result<Seq<ElementView>, Seq<char>>
    decreases rank(ins), 1nat, 0nat, s,
{
    if s.len() == 0 {
        Ok(s)
    } else {
        match all_inserted(s.drop_last(), ins) {
            Ok(r) => match symbol_inserted(s.last(), ins) {
                Ok(x) => Ok(r.push(x)),
                Err(x) => Err(x),
            },
            Err(x) => Err(x),
        }
    }
}

/// The formula of a function with the arguments put in for the parameters: for a built-in
/// function with no named parameters, the call itself with the arguments (if their count
/// fits); else each parameter replaced by its argument in turn. An error where the counts
/// differ or the insertion has no parameters.
pub open spec fn param_values_inserted(ins: InsertionView, vals: Seq<ElementView>) -> Result<ElementView, Seq<char>>
    decreases rank(ins), 0nat, 0nat, ins.formula,
{
    match ins.parameters {
        Some(args) => {
            if ins.formula matches ElementView::FunctionWithExpression(_, t) && args.len() == 0 {
                let t = ins.formula->FunctionWithExpression_1;
                if !t.param_count_spec().accepts(vals.len()) {
                    Err(param_count_error(ins.name, t.param_count_spec(), vals.len()))
                } else {
                    Ok(ElementView::FunctionWithExpression(vals, t))
                }
            } else if args.len() != vals.len() {
                Err(different_counts_text())
            } else {
                params_inserted(ins.formula, args, vals, 0)
            }
        },
        None => Err(no_arguments_text()),
    }
}

/// Parameter `i` on replaced by its argument, one after the other.
pub open spec fn params_inserted(f: ElementView, args: Seq<Seq<char>>, vals: Seq<ElementView>, i: int) -> Result<ElementView, Seq<char>>
    decreases 0nat, 2nat, (args.len() - i) as nat, f,
{
    if i >= args.len() || i >= vals.len() || i < 0 {
        Ok(f)
    } else {
        match symbol_inserted(f, InsertionView { name: args[i], parameters: None, formula: vals[i] }) {
            Ok(f2) => params_inserted(f2, args, vals, i + 1),
            Err(x) => Err(x),
        }
    }
}


// ---------------------------------------------------------------------------
// Executable
// ---------------------------------------------------------------------------

pub open spec fn all_wf(v: Seq<Element>) -> bool {
    forall|i: int| 0 <= i < v.len() ==> (#[trigger] v[i]).wf()
}

fn as_variable_exec(e: Element) -> (r: Element)
    ensures
        r@ == as_variable(e@),
        e.wf() ==> r.wf(),
{
    match e {
        Element::VariableOrFunction(n) => Element::Variable(n),
        other => other,
    }
}

fn mark_all(v: Vec<Element>) -> (r: Vec<Element>)
    requires
        all_wf(v@),
    ensures
        all_wf(r@),
        view_seq(r@) == view_seq(v@).map_values(|x: ElementView| as_variable(x)),
{
    let mut r: Vec<Element> = Vec::new();
    let mut i: usize = 0;
    let ghost vs = view_seq(v@);
    proof { lemma_view_seq_len(v@); }
    let rest = v;
    let ghost orig = rest@;
    while i < rest.len()
        invariant
            i <= orig.len(),
            rest@ == orig,
            vs == view_seq(orig),
            vs.len() == orig.len(),
            all_wf(orig),
            all_wf(r@),
            view_seq(r@) == vs.take(i as int).map_values(|x: ElementView| as_variable(x)),
        decreases rest@.len() - i,
    {
        proof { lemma_view_seq_index(orig, i as int); }
        let e = rest[i].duplicate();
        let ghost before = r@;
        let m = as_variable_exec(e);
        r.push(m);
        proof {
            lemma_view_seq_push(before, m);
            assert(view_seq(r@) =~= vs.take(i + 1).map_values(|x: ElementView| as_variable(x)));
        }
        i = i + 1;
    }
    assert(vs.take(i as int) =~= vs);
    r
}

fn mark_variables(e: Element) -> (r: Element)
    requires
        e.wf(),
    ensures
        r.wf(),
        r@ == variables_marked(e@),
{
    match e {
        Element::Plus(v) => Element::Plus(mark_all(v)),
        Element::Multiply(v) => Element::Multiply(mark_all(v)),
        Element::FunctionWithExpression { arguments, expr_value } => Element::FunctionWithExpression { arguments: mark_all(arguments), expr_value },
        Element::Pow(a, b) => Element::Pow(Box::new(as_variable_exec(*a)), Box::new(as_variable_exec(*b))),
        Element::Negate(a) => Element::Negate(Box::new(as_variable_exec(*a))),
        other => other,
    }
}

fn push_names(out: &mut Vec<char>, names: &Vec<String>)
    ensures
        final(out)@ == old(out)@ + names_text(names_of(names@)),
{
    let ghost start = out@;
    let ghost ns = names_of(names@);
    let mut i: usize = 0;
    while i < names.len()
        invariant
            i <= names@.len(),
            ns == names_of(names@),
            ns.len() == names@.len(),
            out@ == start + names_text(ns.take(i as int)),
        decreases names.len() - i,
    {
        let ghost t = ns.take(i + 1);
        assert(t.drop_last() =~= ns.take(i as int));
        assert(t.last() == names@[i as int]@);
        if i > 0 {
            push_str(out, ", ");
        }
        push_str(out, names[i].as_str());
        proof {
            if i == 0 {
                assert(ns.take(0) =~= Seq::<Seq<char>>::empty());
            }
        }
        assert(out@ =~= start + names_text(t));
        i = i + 1;
    }
    assert(ns.take(i as int) =~= ns);
}

fn mismatch_error(e: &Element, ins: &InsertionElement) -> (m: String)
    requires
        e.wf(),
        ins.formula.wf(),
    ensures
        m@ == mismatch_text(e@, ins@),
{
    let mut out = chars_of("Insertion element and formula don't match (self: ");
    e.push_debug_text(&mut out);
    push_str(&mut out, ", insert: ");
    let ghost before_insertion = out@;
    push_str(&mut out, "{ name: ");
    push_str(&mut out, ins.name.as_str());
    push_str(&mut out, ", parameters: ");
    match &ins.parameters {
        Some(p) => {
            push_str(&mut out, "[");
            push_names(&mut out, p);
            push_str(&mut out, "]");
        },
        None => push_str(&mut out, "none"),
    }
    push_str(&mut out, ", formula: ");
    ins.formula.push_debug_text(&mut out);
    push_str(&mut out, " }");
    assert(out@ =~= before_insertion + insertion_text(ins@));
    push_str(&mut out, ")");
    assert(out@ =~= mismatch_text(e@, ins@));
    string_of(&out)
}

fn param_count_error_exec(name: &String, p: ParamCount, n: usize) -> (m: String)
    ensures
        m@ == param_count_error(name@, p, n as nat),
{
    let mut out = chars_of("The function `");
    push_str(&mut out, name.as_str());
    push_str(&mut out, "` expects parameters, that match ");
    match p {
        ParamCount::Exactly(k) => {
            push_str(&mut out, "Exactly(");
            crate::text::push_nat_decimal(&mut out, k as u64);
        },
        ParamCount::AtLeast(k) => {
            push_str(&mut out, "AtLeast(");
            crate::text::push_nat_decimal(&mut out, k as u64);
        },
    }
    push_str(&mut out, "), but ");
    crate::text::push_nat_decimal(&mut out, n as u64);
    push_str(&mut out, " parameters were provided");
    proof {
        reveal_strlit("The function `");
        reveal_strlit("), but ");
        reveal_strlit(")");
        reveal_strlit(", but ");
    }
    assert(out@ =~= param_count_error(name@, p, n as nat));
    string_of(&out)
}

fn text_error(s: &str) -> (m: String)
    ensures
        m@ == s@,
{
    string_of(&chars_of(s))
}

/// The insertion made in a formula (see `symbol_inserted`).
fn inserted(e: &Element, ins: &InsertionElement) -> (r: Result<Element, String>)
    requires
        e.wf(),
        ins.formula.wf(),
    ensures
        match r {
            Ok(x) => x.wf() && symbol_inserted(e@, ins@) == Ok::<ElementView, Seq<char>>(x@),
            Err(m) => symbol_inserted(e@, ins@) == Err::<ElementView, Seq<char>>(m@),
        },
    decreases rank(ins@), 1nat, 0nat, e,
{
    let e2 = match e {
        Element::Brackets(s) => match inserted_all(s, ins) {
            Ok(s2) => Element::Brackets(s2),
            Err(x) => { return Err(x); },
        },
        Element::Plus(s) => match inserted_all(s, ins) {
            Ok(s2) => Element::Plus(s2),
            Err(x) => { return Err(x); },
        },
        Element::Multiply(s) => match inserted_all(s, ins) {
            Ok(s2) => Element::Multiply(s2),
            Err(x) => { return Err(x); },
        },
        Element::Function { name, arguments } => match inserted_all(arguments, ins) {
            Ok(s2) => Element::Function { name: name.clone(), arguments: s2 },
            Err(x) => { return Err(x); },
        },
        Element::FunctionWithExpression { arguments, expr_value } => match inserted_all(arguments, ins) {
            Ok(s2) => Element::FunctionWithExpression { arguments: s2, expr_value: *expr_value },
            Err(x) => { return Err(x); },
        },
        Element::Pow(a, b) => {
            let a2 = match inserted(a, ins) {
                Ok(a2) => a2,
                Err(x) => { return Err(x); },
            };
            let b2 = match inserted(b, ins) {
                Ok(b2) => b2,
                Err(x) => { return Err(x); },
            };
            Element::Pow(Box::new(a2), Box::new(b2))
        },
        Element::Negate(x) => match inserted(x, ins) {
            Ok(x2) => Element::Negate(Box::new(x2)),
            Err(y) => { return Err(y); },
        },
        _ => e.duplicate(),
    };
    let name_matches = match &e2 {
        Element::Function { name, .. } | Element::Variable(name) | Element::VariableOrFunction(name) =>
            crate::matching::same_text(name.as_str(), ins.name.as_str()),
        _ => false,
    };
    let e3 = if name_matches {
        match e2 {
            Element::Function { name, arguments } => {
                match (&ins.parameters, &ins.formula) {
                    (None, Element::VariableOrFunction(new_name)) => Element::Function { name: new_name.clone(), arguments },
                    (Some(_), _) => match ins.insert_param_values(arguments) {
                        Ok(x) => x,
                        Err(m) => { return Err(m); },
                    },
                    (None, Element::FunctionWithExpression { .. }) => match ins.insert_param_values(arguments) {
                        Ok(x) => x,
                        Err(m) => { return Err(m); },
                    },
                    _ => {
                        let back = Element::Function { name, arguments };
                        return Err(mismatch_error(&back, ins));
                    },
                }
            },
            Element::Variable(n) => {
                if ins.parameters.is_none() {
                    ins.formula.duplicate()
                } else {
                    let back = Element::Variable(n);
                    return Err(mismatch_error(&back, ins));
                }
            },
            other => {
                if ins.parameters.is_some() {
                    other
                } else {
                    ins.formula.duplicate()
                }
            },
        }
    } else {
        e2
    };
    Ok(mark_variables(e3))
}

/// The insertion made in each element (see `all_inserted`).
fn inserted_all(s: &Vec<Element>, ins: &InsertionElement) -> (r: Result<Vec<Element>, String>)
    requires
        all_wf(s@),
        ins.formula.wf(),
    ensures
        match r {
            Ok(v) => all_wf(v@) && all_inserted(view_seq(s@), ins@) == Ok::<Seq<ElementView>, Seq<char>>(view_seq(v@)),
            Err(m) => all_inserted(view_seq(s@), ins@) == Err::<Seq<ElementView>, Seq<char>>(m@),
        },
    decreases rank(ins@), 1nat, 0nat, s,
{
    let mut v: Vec<Element> = Vec::new();
    let mut i: usize = 0;
    assert(view_seq(s@.take(0)) =~= Seq::<ElementView>::empty());
    assert(view_seq(v@) =~= Seq::<ElementView>::empty());
    while i < s.len()
        invariant
            i <= s@.len(),
            all_wf(s@),
            ins.formula.wf(),
            all_wf(v@),
            all_inserted(view_seq(s@.take(i as int)), ins@) == Ok::<Seq<ElementView>, Seq<char>>(view_seq(v@)),
        decreases s.len() - i,
    {
        proof {
            assert(s@.take(i + 1) =~= s@.take(i as int).push(s@[i as int]));
            lemma_view_seq_push(s@.take(i as int), s@[i as int]);
            lemma_view_seq_len(s@.take(i + 1));
            let t = view_seq(s@.take(i + 1));
            assert(t.drop_last() =~= view_seq(s@.take(i as int)));
        }
        match inserted(&s[i], ins) {
            Ok(x) => {
                let ghost before = v@;
                v.push(x);
                proof { lemma_view_seq_push(before, x); }
            },
            Err(m) => {
                proof { lemma_all_inserted_err_prefix(view_seq(s@), ins@, i + 1, s@); }
                return Err(m);
            },
        }
        i = i + 1;
    }
    assert(s@.take(i as int) =~= s@);
    Ok(v)
}

/// Where the insertion fails on a prefix, it fails on the whole list with the same error.
proof fn lemma_all_inserted_err_prefix(vs: Seq<ElementView>, ins: InsertionView, k: int, s: Seq<Element>)
    requires
        vs == view_seq(s),
        0 <= k <= s.len(),
        all_inserted(view_seq(s.take(k)), ins) is Err,
    ensures
        all_inserted(vs, ins) == all_inserted(view_seq(s.take(k)), ins),
    decreases s.len() - k,
{
    if k < s.len() {
        assert(s.take(k + 1) =~= s.take(k).push(s[k]));
        lemma_view_seq_push(s.take(k), s[k]);
        lemma_view_seq_len(s.take(k + 1));
        assert(view_seq(s.take(k + 1)).drop_last() =~= view_seq(s.take(k)));
        lemma_all_inserted_err_prefix(vs, ins, k + 1, s);
    } else {
        assert(s.take(k) =~= s);
    }
}

impl InsertionElement {
    /// The formula with the arguments put in for the parameters (see
    /// `param_values_inserted`).
    pub fn insert_param_values(&self, param_values: Vec<Element>) -> (r: Result<Element, String>)
        requires
            self.formula.wf(),
            all_wf(param_values@),
        ensures
            match r {
                Ok(x) => x.wf() && param_values_inserted(self@, view_seq(param_values@)) == Ok::<ElementView, Seq<char>>(x@),
                Err(m) => param_values_inserted(self@, view_seq(param_values@)) == Err::<ElementView, Seq<char>>(m@),
            },
        decreases rank(self@), 0nat, 0nat, self.formula,
    {
        proof { lemma_view_seq_len(param_values@); }
        match &self.parameters {
            Some(insert_args) => {
                let ghost args = names_of(insert_args@);
                if let Element::FunctionWithExpression { expr_value, .. } = &self.formula {
                    if insert_args.len() == 0 {
                        let pc = expr_value.get_param_count();
                        if !pc.number_would_be_valid(param_values.len()) {
                            return Err(param_count_error_exec(&self.name, pc, param_values.len()));
                        }
                        return Ok(Element::FunctionWithExpression { arguments: param_values, expr_value: *expr_value });
                    }
                }
                if insert_args.len() != param_values.len() {
                    proof { reveal_strlit("The function used in the formula and the supplied function have different parameter counts"); }
                    return Err(text_error("The function used in the formula and the supplied function have different parameter counts"));
                }
                let ghost vals = view_seq(param_values@);
                let mut f = self.formula.duplicate();
                let mut i: usize = 0;
                while i < insert_args.len()
                    invariant
                        i <= insert_args@.len(),
                        insert_args@.len() == param_values@.len(),
                        self.parameters == Some(*insert_args),
                        args == names_of(insert_args@),
                        vals == view_seq(param_values@),
                        vals.len() == param_values@.len(),
                        all_wf(param_values@),
                        f.wf(),
                        params_inserted(f@, args, vals, i as int) == params_inserted(self.formula@, args, vals, 0),
                    decreases insert_args.len() - i,
                {
                    proof { lemma_view_seq_index(param_values@, i as int); }
                    let sub = InsertionElement {
                        name: insert_args[i].clone(),
                        parameters: None,
                        formula: param_values[i].duplicate(),
                    };
                    assert(sub@ == InsertionView { name: args[i as int], parameters: None, formula: vals[i as int] });
                    match inserted(&f, &sub) {
                        Ok(f2) => {
                            f = f2;
                        },
                        Err(m) => {
                            return Err(m);
                        },
                    }
                    i = i + 1;
                }
                Ok(f)
            },
            None => {
                proof { reveal_strlit("No arguments provided for insertion"); }
                Err(text_error("No arguments provided for insertion"))
            },
        }
    }
}

impl Element {
    /// Makes the insertion in the element (see `symbol_inserted`). On an error the element
    /// stays as it was.
    pub fn insert_symbol(&mut self, insert: &InsertionElement) -> (r: Result<(), String>)
        requires
            old(self).wf(),
            insert.formula.wf(),
        ensures
            match r {
                Ok(()) => final(self).wf() && symbol_inserted(old(self)@, insert@) == Ok::<ElementView, Seq<char>>(final(self)@),
                Err(m) => symbol_inserted(old(self)@, insert@) == Err::<ElementView, Seq<char>>(m@) && final(self)@ == old(self)@,
            },
    {
        match inserted(self, insert) {
            Ok(x) => {
                *self = x;
                Ok(())
            },
            Err(m) => Err(m),
        }
    }
}

} // verus!
