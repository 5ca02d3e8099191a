//! Formulas as they are printed: a tree of texts with the operators between them, and
//! the rules for the brackets that priorities ask for.

use vstd::prelude::*;
use crate::text::push_str;

verus! {

/// A formula ready for printing.
#[derive(Debug)]
pub enum Formula {
    Plus(Vec<Formula>),
    Multiply(Vec<Formula>),
    Negate(Box<Formula>),
    Number(String),
    Variable(String),
    Pow(Box<Formula>, Box<Formula>),
    Division(Box<Formula>, Box<Formula>),
    Function { name: String, arguments: Vec<Formula> },
    ForcedBrackets(Vec<Formula>),
}

pub enum FormulaView {
    Plus(Seq<FormulaView>),
    Multiply(Seq<FormulaView>),
    Negate(Box<FormulaView>),
    Number(Seq<char>),
    Variable(Seq<char>),
    Pow(Box<FormulaView>, Box<FormulaView>),
    Division(Box<FormulaView>, Box<FormulaView>),
    Function(Seq<char>, Seq<FormulaView>),
    ForcedBrackets(Seq<FormulaView>),
}

pub open spec fn formula_views(s: Seq<Formula>) -> Seq<FormulaView>
    decreases s,
{
    if s.len() == 0 {
        Seq::empty()
    } else {
        formula_views(s.drop_last()).push(s.last().view_formula())
    }
}

impl Formula {
    pub open spec fn view_formula(&self) -> FormulaView
        decreases self,
    {
        match self {
            Formula::Plus(v) => FormulaView::Plus(formula_views(v@)),
            Formula::Multiply(v) => FormulaView::Multiply(formula_views(v@)),
            Formula::Negate(e) => FormulaView::Negate(Box::new(e.view_formula())),
            Formula::Number(s) => FormulaView::Number(s@),
            Formula::Variable(s) => FormulaView::Variable(s@),
            Formula::Pow(a, b) => FormulaView::Pow(Box::new(a.view_formula()), Box::new(b.view_formula())),
            Formula::Division(a, b) => FormulaView::Division(Box::new(a.view_formula()), Box::new(b.view_formula())),
            Formula::Function { name, arguments } => FormulaView::Function(name@, formula_views(arguments@)),
            Formula::ForcedBrackets(v) => FormulaView::ForcedBrackets(formula_views(v@)),
        }
    }
}

impl View for Formula {
    type V = FormulaView;

    open spec fn view(&self) -> FormulaView {
        self.view_formula()
    }
}

pub proof fn lemma_formula_views(s: Seq<Formula>)
    ensures
        formula_views(s).len() == s.len(),
        forall|i: int| 0 <= i < s.len() ==> #[trigger] formula_views(s)[i] == s[i].view_formula(),
    decreases s.len(),
{
    if s.len() > 0 {
        lemma_formula_views(s.drop_last());
        assert forall|i: int| 0 <= i < s.len() implies #[trigger] formula_views(s)[i] == s[i].view_formula() by {
            if i < s.len() - 1 {
                assert(s.drop_last()[i] == s[i]);
            }
        }
    }
}

/// How tightly a formula binds: sums least, then products, divisions and negations, then
/// powers; numbers, names, calls and brackets most.
pub open spec fn priority(f: FormulaView) -> nat {
    match f {
        FormulaView::Plus(_) => 0,
        FormulaView::Multiply(_) | FormulaView::Division(..) | FormulaView::Negate(_) => 1,
        FormulaView::Pow(..) => 2,
        _ => 3,
    }
}

impl Formula {
    pub fn get_priority(&self) -> (p: usize)
        ensures
            p == priority(self@),
    {
        match self {
            Formula::Plus(_) => 0,
            Formula::Multiply(_) | Formula::Division(..) | Formula::Negate(_) => 1,
            Formula::Pow(..) => 2,
            Formula::Number(_) | Formula::Variable(_) | Formula::Function { .. } | Formula::ForcedBrackets(_) => 3,
        }
    }
}

pub open spec fn bracketed(t: Seq<char>) -> Seq<char> {
    "("@ + t + ")"@
}

/// How the items of a list are printed and joined.
pub enum ListStyle {
    /// Joined by ` + `.
    Sum,
    /// Joined by ` * `; a sum is put in brackets.
    Product,
    /// Joined by `, `.
    Arguments,
    /// Written one after the other.
    Concatenated,
}

pub open spec fn separator(style: ListStyle) -> Seq<char> {
    match style {
        ListStyle::Sum => " + "@,
        ListStyle::Product => " * "@,
        ListStyle::Arguments => ", "@,
        ListStyle::Concatenated => Seq::empty(),
    }
}

/// The text of a formula.
pub open spec fn formula_text(f: FormulaView) -> Seq<char>
    decreases f, 0nat,
{
    match f {
        FormulaView::Plus(es) => list_text(es, ListStyle::Sum),
        FormulaView::Multiply(es) => list_text(es, ListStyle::Product),
        FormulaView::Negate(e) => if *e matches FormulaView::Plus(_) || *e matches FormulaView::Multiply(_) {
            "-"@ + bracketed(formula_text(*e))
        } else {
            "-"@ + formula_text(*e)
        },
        FormulaView::Number(n) => n,
        FormulaView::Variable(n) => n,
        FormulaView::Pow(b, x) => {
            let base = if priority(*b) <= 2 { bracketed(formula_text(*b)) } else { formula_text(*b) };
            let exponent = if priority(*x) < 2 && !(*x matches FormulaView::Negate(_)) {
                bracketed(formula_text(*x))
            } else {
                formula_text(*x)
            };
            base + "^"@ + exponent
        },
        FormulaView::Division(n, d) => {
            let numerator = if priority(*n) < 1 { bracketed(formula_text(*n)) } else { formula_text(*n) };
            let denominator = if priority(*d) <= 1 { bracketed(formula_text(*d)) } else { formula_text(*d) };
            numerator + "/"@ + denominator
        },
        FormulaView::Function(name, args) => name + bracketed(list_text(args, ListStyle::Arguments)),
        FormulaView::ForcedBrackets(es) => bracketed(list_text(es, ListStyle::Concatenated)),
    }
}

/// The text of one item of a list.
pub open spec fn item_text(e: FormulaView, style: ListStyle) -> Seq<char>
    decreases e, 1nat,
{
    if style matches ListStyle::Product && priority(e) < 1 {
        bracketed(formula_text(e))
    } else {
        formula_text(e)
    }
}

/// The items' texts with the separator between them.
pub open spec fn list_text(es: Seq<FormulaView>, style: ListStyle) -> Seq<char>
    decreases es, 1nat,
{
    if es.len() == 0 {
        Seq::empty()
    } else if es.len() == 1 {
        item_text(es[0], style)
    } else {
        list_text(es.drop_last(), style) + separator(style) + item_text(es.last(), style)
    }
}

impl Formula {
    /// Appends the text of the formula (see `formula_text`).
    pub fn push_text(&self, out: &mut Vec<char>)
        ensures
            final(out)@ == old(out)@ + formula_text(self@),
        decreases self, 0nat,
    {
        match self {
            Formula::Plus(es) => push_list(es, ListStyle::Sum, out),
            Formula::Multiply(es) => push_list(es, ListStyle::Product, out),
            Formula::Negate(e) => {
                push_str(out, "-");
                let wrap = match &**e {
                    Formula::Plus(_) | Formula::Multiply(_) => true,
                    _ => false,
                };
                if wrap {
                    push_str(out, "(");
                    e.push_text(out);
                    push_str(out, ")");
                } else {
                    e.push_text(out);
                }
                proof {
                    reveal_strlit("-");
                    reveal_strlit("(");
                    reveal_strlit(")");
                }
                assert(out@ =~= old(out)@ + formula_text(self@));
            },
            Formula::Number(n) | Formula::Variable(n) => push_str(out, n.as_str()),
            Formula::Pow(b, x) => {
                if b.get_priority() <= 2 {
                    push_str(out, "(");
                    b.push_text(out);
                    push_str(out, ")");
                } else {
                    b.push_text(out);
                }
                push_str(out, "^");
                let x_is_negate = match &**x {
                    Formula::Negate(_) => true,
                    _ => false,
                };
                if x.get_priority() < 2 && !x_is_negate {
                    push_str(out, "(");
                    x.push_text(out);
                    push_str(out, ")");
                } else {
                    x.push_text(out);
                }
                proof {
                    reveal_strlit("^");
                    reveal_strlit("(");
                    reveal_strlit(")");
                }
                assert(out@ =~= old(out)@ + formula_text(self@));
            },
            Formula::Division(n, d) => {
                if n.get_priority() < 1 {
                    push_str(out, "(");
                    n.push_text(out);
                    push_str(out, ")");
                } else {
                    n.push_text(out);
                }
                push_str(out, "/");
                if d.get_priority() <= 1 {
                    push_str(out, "(");
                    d.push_text(out);
                    push_str(out, ")");
                } else {
                    d.push_text(out);
                }
                proof {
                    reveal_strlit("/");
                    reveal_strlit("(");
                    reveal_strlit(")");
                }
                assert(out@ =~= old(out)@ + formula_text(self@));
            },
            Formula::Function { name, arguments } => {
                push_str(out, name.as_str());
                push_str(out, "(");
                push_list(arguments, ListStyle::Arguments, out);
                push_str(out, ")");
                proof {
                    reveal_strlit("(");
                    reveal_strlit(")");
                }
                assert(out@ =~= old(out)@ + formula_text(self@));
            },
            Formula::ForcedBrackets(es) => {
                push_str(out, "(");
                push_list(es, ListStyle::Concatenated, out);
                push_str(out, ")");
                proof {
                    reveal_strlit("(");
                    reveal_strlit(")");
                }
                assert(out@ =~= old(out)@ + formula_text(self@));
            },
        }
    }

    /// The text of the formula (see `formula_text`).
    pub fn to_string(&self) -> (s: String)
        ensures
            s@ == formula_text(self@),
    {
        let mut out: Vec<char> = Vec::new();
        self.push_text(&mut out);
        assert(out@ =~= formula_text(self@));
        crate::text::string_of(&out)
    }
}

fn push_separator(style: &ListStyle, out: &mut Vec<char>)
    ensures
        final(out)@ == old(out)@ + separator(*style),
{
    match style {
        ListStyle::Sum => push_str(out, " + "),
        ListStyle::Product => push_str(out, " * "),
        ListStyle::Arguments => push_str(out, ", "),
        ListStyle::Concatenated => {
            assert(out@ =~= old(out)@ + separator(*style));
        },
    }
}

/// Appends the text of one item of a list (see `item_text`).
fn push_item(e: &Formula, style: &ListStyle, out: &mut Vec<char>)
    ensures
        final(out)@ == old(out)@ + item_text(e@, *style),
    decreases e, 1nat,
{
    let wrap = match style {
        ListStyle::Product => e.get_priority() < 1,
        _ => false,
    };
    if wrap {
        push_str(out, "(");
        e.push_text(out);
        push_str(out, ")");
        proof {
            reveal_strlit("(");
            reveal_strlit(")");
        }
        assert(out@ =~= old(out)@ + item_text(e@, *style));
    } else {
        e.push_text(out);
    }
}

/// Appends the texts of the items with the separator between them (see `list_text`).
fn push_list(es: &Vec<Formula>, style: ListStyle, out: &mut Vec<char>)
    ensures
        final(out)@ == old(out)@ + list_text(formula_views(es@), style),
    decreases es, 1nat,
{
    let ghost start = out@;
    proof { lemma_formula_views(es@); }
    let mut i: usize = 0;
    while i < es.len()
        invariant
            i <= es@.len(),
            formula_views(es@).len() == es@.len(),
            forall|k: int| 0 <= k < es@.len() ==> #[trigger] formula_views(es@)[k] == es@[k].view_formula(),
            out@ == start + list_text(formula_views(es@).take(i as int), style),
        decreases es.len() - i,
    {
        let ghost t = formula_views(es@).take(i + 1);
        assert(t.drop_last() =~= formula_views(es@).take(i as int));
        assert(t.last() == es@[i as int]@);
        if i > 0 {
            push_separator(&style, out);
        }
        push_item(&es[i], &style, out);
        proof {
            if i == 0 {
                assert(t.len() == 1);
                assert(t[0] == es@[0]@);
                assert(formula_views(es@).take(0) =~= Seq::<FormulaView>::empty());
            }
        }
        assert(out@ =~= start + list_text(t, style));
        i = i + 1;
    }
    assert(formula_views(es@).take(i as int) =~= formula_views(es@));
}

/// In a printed power, an exponent that binds less tightly than the power (a sum, a
/// product or a division) stands in brackets right after the `^`, and so does a base that
/// is not a single number, name, call or bracket group in front of it; so `x^(1/2)` is not
/// printed as `x^1/2`, which would read back as `(x^1)/2`.
pub proof fn law_loose_parts_of_a_power_are_bracketed(b: FormulaView, x: FormulaView)
    ensures
        (x is Plus || x is Multiply || x is Division) ==> exists|pre: Seq<char>|
            formula_text(FormulaView::Pow(Box::new(b), Box::new(x))) == pre + "^("@ + formula_text(x) + ")"@,
        priority(b) <= 2 ==> exists|post: Seq<char>|
            formula_text(FormulaView::Pow(Box::new(b), Box::new(x))) == "("@ + formula_text(b) + ")^"@ + post,
{
    let t = formula_text(FormulaView::Pow(Box::new(b), Box::new(x)));
    let base = if priority(b) <= 2 { bracketed(formula_text(b)) } else { formula_text(b) };
    let exponent = if priority(x) < 2 && !(x matches FormulaView::Negate(_)) {
        bracketed(formula_text(x))
    } else {
        formula_text(x)
    };
    assert(t == base + "^"@ + exponent);
    if x is Plus || x is Multiply || x is Division {
        assert(t =~= base + "^("@ + formula_text(x) + ")"@) by {
            reveal_strlit("^(");
            reveal_strlit("^");
            reveal_strlit("(");
            reveal_strlit(")");
        }
    }
    if priority(b) <= 2 {
        assert(t =~= "("@ + formula_text(b) + ")^"@ + exponent) by {
            reveal_strlit(")^");
            reveal_strlit("^");
            reveal_strlit("(");
            reveal_strlit(")");
        }
    }
}

} // verus!
