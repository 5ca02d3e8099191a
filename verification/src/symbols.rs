//! The table of symbol signatures, and the definition of new symbols in it: the signature
//! of a definition is checked against the symbols its formula uses.

use vstd::prelude::*;
use crate::element::{Element, ElementView, view_seq, lemma_view_seq_len, lemma_view_seq_index};
use crate::signature::{Signature, SignatureView, refined, could_be, signature_views, lemma_signature_views, signature_text};
use crate::text::chars_of;

verus! {

/// The signatures of named symbols, in the order they were first seen; a name occurs once.
pub struct Signatures {
    pub entries: Vec<(String, Signature)>,
}

/// The names and signatures of a table.
pub open spec fn table_view(v: Seq<(String, Signature)>) -> Seq<(Seq<char>, SignatureView)> {
    v.map_values(|e: (String, Signature)| (e.0@, e.1@))
}

impl View for Signatures {
    type V = Seq<(Seq<char>, SignatureView)>;

    open spec fn view(&self) -> Seq<(Seq<char>, SignatureView)> {
        table_view(self.entries@)
    }
}

/// The position of `name` in the table, or -1.
pub open spec fn index_of(m: Seq<(Seq<char>, SignatureView)>, name: Seq<char>) -> int
    decreases m.len(),
{
    if m.len() == 0 {
        -1
    } else {
        let k = index_of(m.drop_last(), name);
        if k >= 0 { k } else if m.last().0 == name { m.len() - 1 } else { -1 }
    }
}

/// Whether the table has `name`.
pub open spec fn has_name(m: Seq<(Seq<char>, SignatureView)>, name: Seq<char>) -> bool {
    index_of(m, name) >= 0
}

/// The table with `val` for `name`: refining the present signature, or added at the end.
pub open spec fn inserted_or_refined(m: Seq<(Seq<char>, SignatureView)>, name: Seq<char>, val: SignatureView) -> Seq<(Seq<char>, SignatureView)> {
    let k = index_of(m, name);
    if k >= 0 { m.update(k, (name, refined(m[k].1, val))) } else { m.push((name, val)) }
}

pub proof fn lemma_index_of(m: Seq<(Seq<char>, SignatureView)>, name: Seq<char>)
    ensures
        -1 <= index_of(m, name) < m.len(),
        index_of(m, name) >= 0 ==> m[index_of(m, name)].0 == name,
        index_of(m, name) >= 0 ==> forall|j: int| 0 <= j < index_of(m, name) ==> m[j].0 != name,
        index_of(m, name) < 0 ==> forall|j: int| 0 <= j < m.len() ==> m[j].0 != name,
    decreases m.len(),
{
    if m.len() > 0 {
        lemma_index_of(m.drop_last(), name);
        assert forall|j: int| 0 <= j < m.len() - 1 implies m.drop_last()[j] == m[j] by {}
    }
}

/// The first position holding `name` is what `index_of` gives.
proof fn lemma_index_of_first(m: Seq<(Seq<char>, SignatureView)>, name: Seq<char>, k: int)
    requires
        0 <= k < m.len(),
        m[k].0 == name,
        forall|j: int| 0 <= j < k ==> m[j].0 != name,
    ensures
        index_of(m, name) == k,
{
    lemma_index_of(m, name);
    let i = index_of(m, name);
    if i < 0 {
        assert(m[k].0 != name);
    } else if i < k {
        assert(m[i].0 != name);
    } else if i > k {
        assert(m[k].0 != name);
    }
}

impl Signatures {
    /// An empty table.
    pub fn new_empty() -> (r: Self)
        ensures
            r@ == Seq::<(Seq<char>, SignatureView)>::empty(),
    {
        let r = Signatures { entries: Vec::new() };
        assert(r@ =~= Seq::<(Seq<char>, SignatureView)>::empty());
        r
    }

    /// The number of symbols.
    pub fn len(&self) -> (n: usize)
        ensures
            n == self@.len(),
    {
        self.entries.len()
    }

    /// The position of `name`, if the table has it.
    pub fn find(&self, name: &str) -> (r: Option<usize>)
        ensures
            match r {
                Some(k) => index_of(self@, name@) == k,
                None => index_of(self@, name@) < 0,
            },
    {
        let ghost m = self@;
        let mut i: usize = 0;
        while i < self.entries.len()
            invariant
                i <= self.entries@.len(),
                m == self@,
                m.len() == self.entries@.len(),
                forall|j: int| 0 <= j < i ==> m[j].0 != name@,
            decreases self.entries.len() - i,
        {
            assert(m[i as int] == (self.entries@[i as int].0@, self.entries@[i as int].1@));
            if crate::matching::same_text(self.entries[i].0.as_str(), name) {
                proof {
                    lemma_index_of_first(m, name@, i as int);
                }
                return Some(i);
            }
            i = i + 1;
        }
        proof {
            lemma_index_of(m, name@);
            if index_of(m, name@) >= 0 {
                assert(m[index_of(m, name@)].0 == name@);
            }
        }
        None
    }

    /// Whether the table has `name`.
    pub fn contains(&self, name: &str) -> (b: bool)
        ensures
            b == has_name(self@, name@),
    {
        self.find(name).is_some()
    }

    /// A copy of the signature of `name`, if the table has it.
    pub fn get(&self, name: &str) -> (r: Option<Signature>)
        ensures
            match r {
                Some(s) => has_name(self@, name@) && s@ == self@[index_of(self@, name@)].1,
                None => !has_name(self@, name@),
            },
    {
        match self.find(name) {
            Some(k) => {
                proof {
                    lemma_index_of(self@, name@);
                }
                Some(self.entries[k].1.duplicate())
            },
            None => None,
        }
    }

    /// Refines the signature of `name` with `val`, or adds `name` with `val`.
    pub fn insert_or_replace_symbol(&mut self, name: &String, val: Signature)
        ensures
            final(self)@ == inserted_or_refined(old(self)@, name@, val@),
    {
        let ghost m = self@;
        match self.find(name.as_str()) {
            Some(k) => {
                proof {
                    lemma_index_of(m, name@);
                }
                let mut entry = self.entries.remove(k);
                entry.1.refine_with(val);
                self.entries.insert(k, entry);
                assert(self@ =~= m.update(k as int, (name@, refined(m[k as int].1, val@))));
            },
            None => {
                self.entries.push((name.clone(), val));
                assert(self@ =~= m.push((name@, val@)));
            },
        }
    }
}

// ---------------------------------------------------------------------------
// The symbols a formula uses
// ---------------------------------------------------------------------------

pub type Table = Seq<(Seq<char>, SignatureView)>;

/// What a function argument says of the called function's parameter: a value is a number,
/// an ambiguous name may be either; anything else is not a valid argument (`None`).
pub open spec fn argument_signature(e: ElementView) -> Option<SignatureView> {
    match e {
        ElementView::Number(_) => Some(SignatureView::Number),
        ElementView::Plus(_) => Some(SignatureView::Number),
        ElementView::Multiply(_) => Some(SignatureView::Number),
        ElementView::Pow(_, _) => Some(SignatureView::Number),
        ElementView::Negate(_) => Some(SignatureView::Number),
        ElementView::Variable(_) => Some(SignatureView::Number),
        ElementView::VariableOrFunction(_) => Some(SignatureView::NumberOrFunction),
        _ => None,
    }
}

pub open spec fn argument_signatures(s: Seq<ElementView>) -> Option<Seq<SignatureView>>
    decreases s.len(),
{
    if s.len() == 0 {
        Some(Seq::empty())
    } else {
        match (argument_signatures(s.drop_last()), argument_signature(s.last())) {
            (Some(a), Some(b)) => Some(a.push(b)),
            _ => None,
        }
    }
}

/// The table with the signatures of the symbols that `e` uses added or refined: variables
/// are numbers, ambiguous names are either, calls are functions of their arguments'
/// signatures. `None` where a call has an argument that is not a value or a name.
pub open spec fn symbols_used(m: Table, e: ElementView) -> Option<Table>
    decreases e,
{
    match e {
        ElementView::Plus(s) => symbols_used_all(m, s),
        ElementView::Multiply(s) => symbols_used_all(m, s),
        ElementView::FunctionWithExpression(s, _) => symbols_used_all(m, s),
        ElementView::Pow(a, b) => match symbols_used(m, *a) {
            Some(m2) => symbols_used(m2, *b),
            None => None,
        },
        ElementView::Negate(a) => symbols_used(m, *a),
        ElementView::Function(name, args) => match symbols_used_all(m, args) {
            Some(m2) => match argument_signatures(args) {
                Some(sigs) => Some(inserted_or_refined(m2, name, SignatureView::Function(sigs))),
                None => None,
            },
            None => None,
        },
        ElementView::Variable(n) => Some(inserted_or_refined(m, n, SignatureView::Number)),
        ElementView::VariableOrFunction(n) => Some(inserted_or_refined(m, n, SignatureView::NumberOrFunction)),
        _ => Some(m),
    }
}

pub open spec fn symbols_used_all(m: Table, s: Seq<ElementView>) -> Option<Table>
    decreases s,
{
    if s.len() == 0 {
        Some(m)
    } else {
        match symbols_used_all(m, s.drop_last()) {
            Some(m2) => symbols_used(m2, s.last()),
            None => None,
        }
    }
}

/// The signature a function argument gives its parameter (see `argument_signature`).
fn argument_signature_exec(e: &Element) -> (r: Option<Signature>)
    ensures
        match r {
            Some(s) => argument_signature(e@) == Some(s@),
            None => argument_signature(e@) is None,
        },
{
    match e {
        Element::Number(_) | Element::Plus(_) | Element::Multiply(_) | Element::Pow(_, _)
        | Element::Negate(_) | Element::Variable(_) => Some(Signature::Number),
        Element::VariableOrFunction(_) => Some(Signature::NumberOrFunction),
        _ => None,
    }
}

fn argument_signatures_exec(v: &Vec<Element>) -> (r: Option<Vec<Signature>>)
    ensures
        match r {
            Some(sigs) => argument_signatures(view_seq(v@)) == Some(signature_views(sigs@)),
            None => argument_signatures(view_seq(v@)) is None,
        },
{
    let ghost s = view_seq(v@);
    proof {
        lemma_view_seq_len(v@);
    }
    let mut out: Vec<Signature> = Vec::new();
    let mut i: usize = 0;
    while i < v.len()
        invariant
            i <= v@.len(),
            s == view_seq(v@),
            s.len() == v@.len(),
            argument_signatures(s.take(i as int)) == Some(signature_views(out@)),
        decreases v.len() - i,
    {
        proof {
            lemma_view_seq_index(v@, i as int);
            assert(s.take(i + 1).drop_last() =~= s.take(i as int));
            assert(s.take(i + 1).last() == s[i as int]);
        }
        match argument_signature_exec(&v[i]) {
            Some(x) => {
                let ghost before = out@;
                out.push(x);
                proof {
                    assert(out@.drop_last() =~= before);
                }
            },
            None => {
                proof {
                    lemma_argument_signatures_prefix(s, i + 1);
                }
                return None;
            },
        }
        i = i + 1;
    }
    assert(s.take(i as int) =~= s);
    Some(out)
}

proof fn lemma_argument_signatures_prefix(s: Seq<ElementView>, n: int)
    requires
        0 <= n <= s.len(),
        argument_signatures(s.take(n)) is None,
    ensures
        argument_signatures(s) is None,
    decreases s.len(),
{
    if n < s.len() {
        assert(s.drop_last().take(n) =~= s.take(n));
        lemma_argument_signatures_prefix(s.drop_last(), n);
    } else {
        assert(s.take(n) =~= s);
    }
}

fn add_symbols_of_all(table: &mut Signatures, v: &Vec<Element>) -> (ok: bool)
    ensures
        ok == (symbols_used_all(old(table)@, view_seq(v@)) is Some),
        ok ==> Some(final(table)@) == symbols_used_all(old(table)@, view_seq(v@)),
    decreases view_seq(v@),
{
    let ghost s = view_seq(v@);
    let ghost m0 = table@;
    proof {
        lemma_view_seq_len(v@);
        assert(s.take(0) =~= Seq::<ElementView>::empty());
    }
    let mut i: usize = 0;
    while i < v.len()
        invariant
            i <= v@.len(),
            s == view_seq(v@),
            s.len() == v@.len(),
            m0 == old(table)@,
            symbols_used_all(m0, s.take(i as int)) == Some(table@),
        decreases v.len() - i,
    {
        proof {
            lemma_view_seq_index(v@, i as int);
            assert(s.take(i + 1).drop_last() =~= s.take(i as int));
            assert(s.take(i + 1).last() == s[i as int]);
            assert(decreases_to!(s => s[i as int]));
        }
        if !table.add_all_undefined_symbols_of_formula(&v[i]) {
            proof {
                lemma_symbols_used_all_prefix(m0, s, i + 1);
            }
            return false;
        }
        i = i + 1;
    }
    assert(s.take(i as int) =~= s);
    true
}

proof fn lemma_symbols_used_all_prefix(m: Table, s: Seq<ElementView>, n: int)
    requires
        0 <= n <= s.len(),
        symbols_used_all(m, s.take(n)) is None,
    ensures
        symbols_used_all(m, s) is None,
    decreases s.len(),
{
    if n < s.len() {
        assert(s.drop_last().take(n) =~= s.take(n));
        lemma_symbols_used_all_prefix(m, s.drop_last(), n);
    } else {
        assert(s.take(n) =~= s);
    }
}

impl Signatures {
    /// Adds or refines the signatures of the symbols that `element` uses (see
    /// `symbols_used`); `false`, with the table partly updated, where a call has an
    /// argument that is not a value or a name.
    pub fn add_all_undefined_symbols_of_formula(&mut self, element: &Element) -> (ok: bool)
        ensures
            ok == (symbols_used(old(self)@, element@) is Some),
            ok ==> Some(final(self)@) == symbols_used(old(self)@, element@),
        decreases element@,
    {
        match element {
            Element::Plus(v) => add_symbols_of_all(self, v),
            Element::Multiply(v) => add_symbols_of_all(self, v),
            Element::FunctionWithExpression { arguments, .. } => add_symbols_of_all(self, arguments),
            Element::Pow(a, b) => {
                if !self.add_all_undefined_symbols_of_formula(a) {
                    return false;
                }
                self.add_all_undefined_symbols_of_formula(b)
            },
            Element::Negate(a) => self.add_all_undefined_symbols_of_formula(a),
            Element::Function { name, arguments } => {
                if !add_symbols_of_all(self, arguments) {
                    return false;
                }
                match argument_signatures_exec(arguments) {
                    Some(sigs) => {
                        self.insert_or_replace_symbol(name, Signature::Function(sigs));
                        true
                    },
                    None => false,
                }
            },
            Element::Variable(n) => {
                self.insert_or_replace_symbol(n, Signature::Number);
                true
            },
            Element::VariableOrFunction(n) => {
                self.insert_or_replace_symbol(n, Signature::NumberOrFunction);
                true
            },
            _ => true,
        }
    }
}

// ---------------------------------------------------------------------------
// Where a name is passed to a function, and what a function is passed
// ---------------------------------------------------------------------------

pub type Positions = Seq<(Seq<char>, nat)>;

/// The name of a call, variable or ambiguous name.
pub open spec fn name_of(e: ElementView) -> Option<Seq<char>> {
    match e {
        ElementView::Function(n, _) => Some(n),
        ElementView::Variable(n) => Some(n),
        ElementView::VariableOrFunction(n) => Some(n),
        _ => None,
    }
}

/// Adds an entry unless it is there already.
pub open spec fn add_unique(l: Positions, x: (Seq<char>, nat)) -> Positions {
    if l.contains(x) { l } else { l.push(x) }
}

/// The positions from `i` on among `args` where `name` is passed to the function `this`.
pub open spec fn argument_positions(l: Positions, this: Seq<char>, args: Seq<ElementView>, name: Seq<char>, i: int) -> Positions
    decreases args.len() - i,
{
    if i >= args.len() || i < 0 {
        l
    } else {
        let l2 = if name_of(args[i]) == Some(name) { add_unique(l, (this, i as nat)) } else { l };
        argument_positions(l2, this, args, name, i + 1)
    }
}

/// The calls in `e` that pass `name` as an argument, by function and position, added to
/// `l` in the order they are found.
pub open spec fn calls_passing(l: Positions, e: ElementView, name: Seq<char>) -> Positions
    decreases e,
{
    match e {
        ElementView::Function(this, args) => calls_passing_all(argument_positions(l, this, args, name, 0), args, name),
        ElementView::Plus(s) => calls_passing_all(l, s, name),
        ElementView::Multiply(s) => calls_passing_all(l, s, name),
        ElementView::Pow(a, b) => calls_passing(calls_passing(l, *a, name), *b, name),
        ElementView::Negate(a) => calls_passing(l, *a, name),
        _ => l,
    }
}

pub open spec fn calls_passing_all(l: Positions, s: Seq<ElementView>, name: Seq<char>) -> Positions
    decreases s,
{
    if s.len() == 0 { l } else { calls_passing(calls_passing_all(l, s.drop_last(), name), s.last(), name) }
}

/// The names passed as arguments, from position `i` on, to a call of the function `name`,
/// other than `name` itself.
pub open spec fn parameter_positions(l: Positions, args: Seq<ElementView>, name: Seq<char>, i: int) -> Positions
    decreases args.len() - i,
{
    if i >= args.len() || i < 0 {
        l
    } else {
        let l2 = match args[i] {
            ElementView::Variable(n) => if n != name { add_unique(l, (n, i as nat)) } else { l },
            ElementView::VariableOrFunction(n) => if n != name { add_unique(l, (n, i as nat)) } else { l },
            _ => l,
        };
        parameter_positions(l2, args, name, i + 1)
    }
}

/// The names passed to calls of the function `name` in `e`, with their positions.
pub open spec fn names_passed_to(l: Positions, e: ElementView, name: Seq<char>) -> Positions
    decreases e,
{
    match e {
        ElementView::Function(this, args) => names_passed_to_all(
            if this == name { parameter_positions(l, args, name, 0) } else { l }, args, name),
        ElementView::Plus(s) => names_passed_to_all(l, s, name),
        ElementView::Multiply(s) => names_passed_to_all(l, s, name),
        ElementView::Pow(a, b) => names_passed_to(names_passed_to(l, *a, name), *b, name),
        ElementView::Negate(a) => names_passed_to(l, *a, name),
        _ => l,
    }
}

pub open spec fn names_passed_to_all(l: Positions, s: Seq<ElementView>, name: Seq<char>) -> Positions
    decreases s,
{
    if s.len() == 0 { l } else { names_passed_to(names_passed_to_all(l, s.drop_last(), name), s.last(), name) }
}

/// A position list without repeated entries.
pub struct PositionList {
    pub items: Vec<(String, usize)>,
}

pub open spec fn positions_view(v: Seq<(String, usize)>) -> Positions {
    v.map_values(|e: (String, usize)| (e.0@, e.1 as nat))
}

impl PositionList {
    fn add_unique_exec(&mut self, name: &String, i: usize)
        ensures
            positions_view(final(self).items@) == add_unique(positions_view(old(self).items@), (name@, i as nat)),
    {
        let ghost l = positions_view(self.items@);
        let mut k: usize = 0;
        while k < self.items.len()
            invariant
                k <= self.items@.len(),
                l == positions_view(self.items@),
                l.len() == self.items@.len(),
                forall|j: int| 0 <= j < k ==> l[j] != (name@, i as nat),
            decreases self.items.len() - k,
        {
            assert(l[k as int] == (self.items@[k as int].0@, self.items@[k as int].1 as nat));
            if self.items[k].1 == i && crate::matching::same_text(self.items[k].0.as_str(), name.as_str()) {
                assert(l[k as int] == (name@, i as nat));
                assert(l.contains((name@, i as nat)));
                return;
            }
            k = k + 1;
        }
        assert(!l.contains((name@, i as nat))) by {
            if l.contains((name@, i as nat)) {
                let j = choose|j: int| 0 <= j < l.len() && l[j] == (name@, i as nat);
                assert(l[j] != (name@, i as nat));
            }
        }
        self.items.push((name.clone(), i));
        assert(positions_view(self.items@) =~= l.push((name@, i as nat)));
    }
}

/// Whether the element's name is `name`.
fn name_is(e: &Element, name: &String) -> (b: bool)
    ensures
        b == (name_of(e@) == Some(name@)),
{
    match e {
        Element::Function { name: n, .. } | Element::Variable(n) | Element::VariableOrFunction(n) =>
            crate::matching::same_text(n.as_str(), name.as_str()),
        _ => false,
    }
}

fn argument_positions_exec(l: &mut PositionList, this: &String, args: &Vec<Element>, name: &String)
    ensures
        positions_view(final(l).items@) == argument_positions(positions_view(old(l).items@), this@, view_seq(args@), name@, 0),
{
    let ghost s = view_seq(args@);
    let ghost start = positions_view(l.items@);
    proof {
        lemma_view_seq_len(args@);
    }
    let mut i: usize = 0;
    while i < args.len()
        invariant
            i <= args@.len(),
            s == view_seq(args@),
            s.len() == args@.len(),
            argument_positions(positions_view(l.items@), this@, s, name@, i as int)
                == argument_positions(start, this@, s, name@, 0),
        decreases args.len() - i,
    {
        proof {
            lemma_view_seq_index(args@, i as int);
        }
        if name_is(&args[i], name) {
            l.add_unique_exec(this, i);
        }
        i = i + 1;
    }
}

fn parameter_positions_exec(l: &mut PositionList, args: &Vec<Element>, name: &String)
    ensures
        positions_view(final(l).items@) == parameter_positions(positions_view(old(l).items@), view_seq(args@), name@, 0),
{
    let ghost s = view_seq(args@);
    let ghost start = positions_view(l.items@);
    proof {
        lemma_view_seq_len(args@);
    }
    let mut i: usize = 0;
    while i < args.len()
        invariant
            i <= args@.len(),
            s == view_seq(args@),
            s.len() == args@.len(),
            parameter_positions(positions_view(l.items@), s, name@, i as int)
                == parameter_positions(start, s, name@, 0),
        decreases args.len() - i,
    {
        proof {
            lemma_view_seq_index(args@, i as int);
        }
        match &args[i] {
            Element::Variable(n) | Element::VariableOrFunction(n) => {
                if !crate::matching::same_text(n.as_str(), name.as_str()) {
                    l.add_unique_exec(n, i);
                }
            },
            _ => {},
        }
        i = i + 1;
    }
}

impl Element {
    /// Adds the calls in the element that pass `name`, with the argument positions (see `calls_passing`).
    pub fn list_all_functions_with_argument_variable(&self, name: &String, list: &mut PositionList)
        ensures
            positions_view(final(list).items@) == calls_passing(positions_view(old(list).items@), self@, name@),
        decreases self@,
    {
        match self {
            Element::Function { name: this, arguments } => {
                argument_positions_exec(list, this, arguments, name);
                assert(self@ == ElementView::Function(this@, view_seq(arguments@)));
                assert(decreases_to!(self@ => self@->Function_1));
                calls_passing_in(arguments, name, list);
            },
            Element::Plus(v) => {
                assert(self@ == ElementView::Plus(view_seq(v@)));
                assert(decreases_to!(self@ => self@->Plus_0));
                calls_passing_in(v, name, list)
            },
            Element::Multiply(v) => {
                assert(self@ == ElementView::Multiply(view_seq(v@)));
                assert(decreases_to!(self@ => self@->Multiply_0));
                calls_passing_in(v, name, list)
            },
            Element::Pow(a, b) => {
                assert(decreases_to!(self@ => self@->Pow_0));
                assert(decreases_to!(self@ => self@->Pow_1));
                a.list_all_functions_with_argument_variable(name, list);
                b.list_all_functions_with_argument_variable(name, list);
            },
            Element::Negate(a) => {
                assert(decreases_to!(self@ => self@->Negate_0));
                a.list_all_functions_with_argument_variable(name, list)
            },
            _ => {},
        }
    }

    /// Adds the names passed to calls of `name`, with their positions (see `names_passed_to`).
    pub fn list_all_function_arguments_where_function_has_name(&self, name: &String, list: &mut PositionList)
        ensures
            positions_view(final(list).items@) == names_passed_to(positions_view(old(list).items@), self@, name@),
        decreases self@,
    {
        match self {
            Element::Function { name: this, arguments } => {
                if crate::matching::same_text(this.as_str(), name.as_str()) {
                    parameter_positions_exec(list, arguments, name);
                }
                assert(self@ == ElementView::Function(this@, view_seq(arguments@)));
                assert(decreases_to!(self@ => self@->Function_1));
                names_passed_in(arguments, name, list);
            },
            Element::Plus(v) => {
                assert(self@ == ElementView::Plus(view_seq(v@)));
                assert(decreases_to!(self@ => self@->Plus_0));
                names_passed_in(v, name, list)
            },
            Element::Multiply(v) => {
                assert(self@ == ElementView::Multiply(view_seq(v@)));
                assert(decreases_to!(self@ => self@->Multiply_0));
                names_passed_in(v, name, list)
            },
            Element::Pow(a, b) => {
                assert(decreases_to!(self@ => self@->Pow_0));
                assert(decreases_to!(self@ => self@->Pow_1));
                a.list_all_function_arguments_where_function_has_name(name, list);
                b.list_all_function_arguments_where_function_has_name(name, list);
            },
            Element::Negate(a) => {
                assert(decreases_to!(self@ => self@->Negate_0));
                a.list_all_function_arguments_where_function_has_name(name, list)
            },
            _ => {},
        }
    }
}

fn calls_passing_in(v: &Vec<Element>, name: &String, list: &mut PositionList)
    ensures
        positions_view(final(list).items@) == calls_passing_all(positions_view(old(list).items@), view_seq(v@), name@),
    decreases view_seq(v@),
{
    let ghost s = view_seq(v@);
    let ghost start = positions_view(list.items@);
    proof {
        lemma_view_seq_len(v@);
        assert(s.take(0) =~= Seq::<ElementView>::empty());
    }
    let mut i: usize = 0;
    while i < v.len()
        invariant
            i <= v@.len(),
            s == view_seq(v@),
            s.len() == v@.len(),
            positions_view(list.items@) == calls_passing_all(start, s.take(i as int), name@),
        decreases v.len() - i,
    {
        proof {
            lemma_view_seq_index(v@, i as int);
            assert(s.take(i + 1).drop_last() =~= s.take(i as int));
            assert(s.take(i + 1).last() == s[i as int]);
            assert(decreases_to!(s => s[i as int]));
        }
        v[i].list_all_functions_with_argument_variable(name, list);
        i = i + 1;
    }
    assert(s.take(i as int) =~= s);
}

fn names_passed_in(v: &Vec<Element>, name: &String, list: &mut PositionList)
    ensures
        positions_view(final(list).items@) == names_passed_to_all(positions_view(old(list).items@), view_seq(v@), name@),
    decreases view_seq(v@),
{
    let ghost s = view_seq(v@);
    let ghost start = positions_view(list.items@);
    proof {
        lemma_view_seq_len(v@);
        assert(s.take(0) =~= Seq::<ElementView>::empty());
    }
    let mut i: usize = 0;
    while i < v.len()
        invariant
            i <= v@.len(),
            s == view_seq(v@),
            s.len() == v@.len(),
            positions_view(list.items@) == names_passed_to_all(start, s.take(i as int), name@),
        decreases v.len() - i,
    {
        proof {
            lemma_view_seq_index(v@, i as int);
            assert(s.take(i + 1).drop_last() =~= s.take(i as int));
            assert(s.take(i + 1).last() == s[i as int]);
            assert(decreases_to!(s => s[i as int]));
        }
        v[i].list_all_function_arguments_where_function_has_name(name, list);
        i = i + 1;
    }
    assert(s.take(i as int) =~= s);
}

// ---------------------------------------------------------------------------
// Passing a known signature on through a formula
// ---------------------------------------------------------------------------

/// The table after learning that `name` has the signature `new`: its entry is refined;
/// every function that `name` is passed to gets `new` for that parameter, passed on in
/// turn; and if `new` is a function signature, the names passed to calls of `name` are
/// refined with the matching parameters. `None` where a function it is passed to is not in
/// the table or not a function of that many parameters, where a passed name is not in the
/// table or the signature has too few parameters for it, or where the passing on goes
/// deeper than `fuel`.
pub open spec fn signature_updated(m: Table, formula: ElementView, name: Seq<char>, new: SignatureView, fuel: nat) -> Option<Table>
    decreases fuel, 1int, 0int,
{
    let k = index_of(m, name);
    if k < 0 {
        Some(m)
    } else {
        let m1 = m.update(k, (name, refined(m[k].1, new)));
        let occ = calls_passing(Seq::empty(), formula, name);
        match calls_updated(m1, formula, occ, 0, new, fuel) {
            None => None,
            Some(m2) => match new {
                SignatureView::Function(args) => parameters_refined(m2, names_passed_to(Seq::empty(), formula, name), 0, args),
                _ => Some(m2),
            },
        }
    }
}

/// `signature_updated` for the functions at the positions from `i` on.
pub open spec fn calls_updated(m: Table, formula: ElementView, occ: Positions, i: int, new: SignatureView, fuel: nat) -> Option<Table>
    decreases fuel, 0int, occ.len() - i,
{
    if i >= occ.len() || i < 0 {
        Some(m)
    } else {
        let fname = occ[i].0;
        let idx = occ[i].1;
        let j = index_of(m, fname);
        if j < 0 {
            None
        } else {
            match m[j].1 {
                SignatureView::Function(args) => if idx < args.len() && fuel > 0 {
                    match signature_updated(m, formula, fname, SignatureView::Function(args.update(idx as int, new)), (fuel - 1) as nat) {
                        Some(m2) => calls_updated(m2, formula, occ, i + 1, new, fuel),
                        None => None,
                    }
                } else {
                    None
                },
                _ => None,
            }
        }
    }
}

/// The names at the positions from `i` on refined with the parameter signatures `args`.
pub open spec fn parameters_refined(m: Table, ps: Positions, i: int, args: Seq<SignatureView>) -> Option<Table>
    decreases ps.len() - i,
{
    if i >= ps.len() || i < 0 {
        Some(m)
    } else {
        let pname = ps[i].0;
        let idx = ps[i].1;
        let j = index_of(m, pname);
        if j < 0 || idx >= args.len() {
            None
        } else {
            parameters_refined(m.update(j, (pname, refined(m[j].1, args[idx as int]))), ps, i + 1, args)
        }
    }
}

impl Signatures {
    /// Learns that `element_to_update` has the signature `new_signature` (see
    /// `signature_updated`); `false`, with the table partly updated, where that is `None`.
    pub fn update_signature(&mut self, formula: &Element, element_to_update: &String, new_signature: Signature, fuel: usize) -> (ok: bool)
        ensures
            ok == (signature_updated(old(self)@, formula@, element_to_update@, new_signature@, fuel as nat) is Some),
            ok ==> Some(final(self)@) == signature_updated(old(self)@, formula@, element_to_update@, new_signature@, fuel as nat),
        decreases fuel, 1int, 0int,
    {
        let ghost m = self@;
        let k = match self.find(element_to_update.as_str()) {
            Some(k) => k,
            None => {
                return true;
            },
        };
        proof {
            lemma_index_of(m, element_to_update@);
        }
        let ghost new_view = new_signature@;
        let mut entry = self.entries.remove(k);
        entry.1.refine_with(new_signature.duplicate());
        self.entries.insert(k, entry);
        assert(self@ =~= m.update(k as int, (element_to_update@, refined(m[k as int].1, new_view))));
        let mut occurrences = PositionList { items: Vec::new() };
        assert(positions_view(occurrences.items@) =~= Seq::<(Seq<char>, nat)>::empty());
        formula.list_all_functions_with_argument_variable(element_to_update, &mut occurrences);
        if !self.update_calls(formula, &occurrences, 0, &new_signature, fuel) {
            return false;
        }
        match &new_signature {
            Signature::Function(args) => {
                let mut params = PositionList { items: Vec::new() };
                assert(positions_view(params.items@) =~= Seq::<(Seq<char>, nat)>::empty());
                formula.list_all_function_arguments_where_function_has_name(element_to_update, &mut params);
                proof {
                    lemma_signature_views(args@);
                }
                self.refine_parameters(&params, args)
            },
            _ => true,
        }
    }

    fn update_calls(&mut self, formula: &Element, occ: &PositionList, i: usize, new: &Signature, fuel: usize) -> (ok: bool)
        requires
            i <= occ.items@.len(),
        ensures
            ok == (calls_updated(old(self)@, formula@, positions_view(occ.items@), i as int, new@, fuel as nat) is Some),
            ok ==> Some(final(self)@) == calls_updated(old(self)@, formula@, positions_view(occ.items@), i as int, new@, fuel as nat),
        decreases fuel, 0int, occ.items@.len() - i,
    {
        if i >= occ.items.len() {
            return true;
        }
        let ghost m = self@;
        let ghost ov = positions_view(occ.items@);
        let fname = &occ.items[i].0;
        let idx = occ.items[i].1;
        assert(ov[i as int] == (fname@, idx as nat));
        let j = match self.find(fname.as_str()) {
            Some(j) => j,
            None => {
                return false;
            },
        };
        proof {
            lemma_index_of(m, fname@);
        }
        let updated = match &self.entries[j].1 {
            Signature::Function(args) => {
                proof {
                    lemma_signature_views(args@);
                }
                if idx < args.len() && fuel > 0 {
                    let mut new_args = crate::signature::duplicate_signatures(args);
                    let ghost before = new_args@;
                    proof {
                        lemma_signature_views(before);
                    }
                    new_args.set(idx, new.duplicate());
                    proof {
                        lemma_signature_views(before);
                        lemma_signature_views(new_args@);
                        assert(signature_views(new_args@) =~= signature_views(before).update(idx as int, new@));
                    }
                    Some(Signature::Function(new_args))
                } else {
                    None
                }
            },
            _ => None,
        };
        match updated {
            Some(sig) => {
                if !self.update_signature(formula, fname, sig, fuel - 1) {
                    return false;
                }
                self.update_calls(formula, occ, i + 1, new, fuel)
            },
            None => false,
        }
    }

    fn refine_parameters(&mut self, ps: &PositionList, args: &Vec<Signature>) -> (ok: bool)
        ensures
            ok == (parameters_refined(old(self)@, positions_view(ps.items@), 0, signature_views(args@)) is Some),
            ok ==> Some(final(self)@) == parameters_refined(old(self)@, positions_view(ps.items@), 0, signature_views(args@)),
    {
        let ghost pv = positions_view(ps.items@);
        let ghost av = signature_views(args@);
        let ghost target = parameters_refined(self@, pv, 0, av);
        proof {
            lemma_signature_views(args@);
        }
        let mut i: usize = 0;
        while i < ps.items.len()
            invariant
                i <= ps.items@.len(),
                pv == positions_view(ps.items@),
                pv.len() == ps.items@.len(),
                av == signature_views(args@),
                av.len() == args@.len(),
                forall|j: int| 0 <= j < av.len() ==> #[trigger] av[j] == args@[j]@,
                parameters_refined(self@, pv, i as int, av) == target,
                target == parameters_refined(old(self)@, positions_view(ps.items@), 0, signature_views(args@)),
            decreases ps.items.len() - i,
        {
            let pname = &ps.items[i].0;
            let idx = ps.items[i].1;
            assert(pv[i as int] == (pname@, idx as nat));
            let ghost m = self@;
            let j = match self.find(pname.as_str()) {
                Some(j) => j,
                None => {
                    return false;
                },
            };
            if idx >= args.len() {
                return false;
            }
            proof {
                lemma_index_of(m, pname@);
            }
            let mut entry = self.entries.remove(j);
            entry.1.refine_with(args[idx].duplicate());
            self.entries.insert(j, entry);
            assert(self@ =~= m.update(j as int, (pname@, refined(m[j as int].1, av[idx as int]))));
            i = i + 1;
        }
        true
    }
}

// ---------------------------------------------------------------------------
// Declarations of symbols
// ---------------------------------------------------------------------------

/// The parameters of a function declaration: their names in order, and their signatures.
pub struct FunctionDeclarationArguments {
    pub names: Vec<String>,
    pub signatures: Signatures,
}

/// The left side of a definition: the symbol's name and, for a function, its parameters.
pub struct SymbolDeclarationData {
    pub name: String,
    pub function_args: Option<FunctionDeclarationArguments>,
}

/// Parameter names and their signatures.
pub type Parameters = (Seq<Seq<char>>, Table);

pub open spec fn names_view(v: Seq<String>) -> Seq<Seq<char>> {
    v.map_values(|n: String| n@)
}

impl FunctionDeclarationArguments {
    pub open spec fn view_args(&self) -> Parameters {
        (names_view(self.names@), self.signatures@)
    }
}

/// The parameters, if any, as names and signatures.
pub open spec fn opt_args_view(o: Option<FunctionDeclarationArguments>) -> Option<Parameters> {
    match o {
        Some(a) => Some(a.view_args()),
        None => None,
    }
}

impl SymbolDeclarationData {
    pub open spec fn view_decl(&self) -> (Seq<char>, Option<Parameters>) {
        (self.name@, opt_args_view(self.function_args))
    }
}

/// The parameters of a declaration from its arguments from `i` on: each must be a name,
/// which is open (a number or a function) to begin with.
pub open spec fn declared_parameters(args: Seq<ElementView>, i: int, acc: Parameters) -> Result<Parameters, Seq<char>>
    decreases args.len() - i,
{
    if i >= args.len() || i < 0 {
        Ok(acc)
    } else {
        match args[i] {
            ElementView::VariableOrFunction(n) => declared_parameters(args, i + 1,
                (acc.0.push(n), inserted_or_refined(acc.1, n, SignatureView::NumberOrFunction))),
            _ => Err("Invalid argument in function signature"@),
        }
    }
}

/// The declaration a formula makes: a name declares a number, a call of names declares
/// a function of those parameters; anything else is an error.
pub open spec fn declaration_of(f: ElementView) -> Result<(Seq<char>, Option<Parameters>), Seq<char>> {
    match f {
        ElementView::Variable(n) => Ok((n, None)),
        ElementView::VariableOrFunction(n) => Ok((n, None)),
        ElementView::Function(n, args) => match declared_parameters(args, 0, (Seq::empty(), Seq::empty())) {
            Ok(p) => Ok((n, Some(p))),
            Err(e) => Err(e),
        },
        _ => Err("Invalid formula signature provided"@),
    }
}

/// Every parameter name has a signature.
pub open spec fn parameters_wf(p: Parameters) -> bool {
    forall|i: int| 0 <= i < p.0.len() ==> #[trigger] has_name(p.1, p.0[i])
}

/// The parameters' signatures in the order of the parameters.
pub open spec fn signatures_in_order(p: Parameters) -> Seq<SignatureView> {
    p.0.map_values(|n: Seq<char>| p.1[index_of(p.1, n)].1)
}

proof fn lemma_inserted_keeps_names(m: Table, name: Seq<char>, val: SignatureView, other: Seq<char>)
    requires
        has_name(m, other),
    ensures
        has_name(inserted_or_refined(m, name, val), other),
{
    lemma_index_of(m, name);
    lemma_index_of(m, other);
    let r = inserted_or_refined(m, name, val);
    let k = index_of(m, other);
    assert(r[k].0 == other);
    lemma_index_of(r, other);
    if index_of(r, other) < 0 {
        assert(r[k].0 != other);
    }
}

proof fn lemma_inserted_has_name(m: Table, name: Seq<char>, val: SignatureView)
    ensures
        has_name(inserted_or_refined(m, name, val), name),
{
    lemma_index_of(m, name);
    let r = inserted_or_refined(m, name, val);
    lemma_index_of(r, name);
    if index_of(m, name) >= 0 {
        let k = index_of(m, name);
        if index_of(r, name) < 0 {
            assert(r[k].0 != name);
        }
    } else {
        if index_of(r, name) < 0 {
            assert(r[m.len() as int].0 != name);
        }
    }
}

impl SymbolDeclarationData {
    /// The declaration a formula makes (see `declaration_of`).
    pub fn from_formula(formula: &Element) -> (r: Result<Self, String>)
        ensures
            match r {
                Ok(d) => declaration_of(formula@) == Ok::<(Seq<char>, Option<Parameters>), Seq<char>>(d.view_decl())
                    && (d.function_args matches Some(a) ==> parameters_wf(a.view_args())),
                Err(e) => declaration_of(formula@) == Err::<(Seq<char>, Option<Parameters>), Seq<char>>(e@),
            },
    {
        match formula {
            Element::Variable(name) | Element::VariableOrFunction(name) => {
                Ok(SymbolDeclarationData { name: name.clone(), function_args: None })
            },
            Element::Function { name, arguments } => {
                let ghost args = view_seq(arguments@);
                proof {
                    lemma_view_seq_len(arguments@);
                }
                let mut fn_args = FunctionDeclarationArguments { names: Vec::new(), signatures: Signatures::new_empty() };
                assert(fn_args.view_args() =~= (Seq::<Seq<char>>::empty(), Seq::<(Seq<char>, SignatureView)>::empty()));
                let mut i: usize = 0;
                while i < arguments.len()
                    invariant
                        i <= arguments@.len(),
                        args == view_seq(arguments@),
                        args.len() == arguments@.len(),
                        formula@ == ElementView::Function(name@, args),
                        declared_parameters(args, i as int, fn_args.view_args())
                            == declared_parameters(args, 0, (Seq::empty(), Seq::empty())),
                        parameters_wf(fn_args.view_args()),
                    decreases arguments.len() - i,
                {
                    proof {
                        lemma_view_seq_index(arguments@, i as int);
                    }
                    match &arguments[i] {
                        Element::VariableOrFunction(p) => {
                            let ghost before = fn_args.view_args();
                            fn_args.names.push(p.clone());
                            fn_args.signatures.insert_or_replace_symbol(p, Signature::NumberOrFunction);
                            proof {
                                assert(names_view(fn_args.names@) =~= before.0.push(p@));
                                assert forall|j: int| 0 <= j < fn_args.view_args().0.len() implies #[trigger] has_name(fn_args.view_args().1, fn_args.view_args().0[j]) by {
                                    if j < before.0.len() {
                                        assert(has_name(before.1, before.0[j]));
                                        lemma_inserted_keeps_names(before.1, p@, SignatureView::NumberOrFunction, before.0[j]);
                                    } else {
                                        lemma_inserted_has_name(before.1, p@, SignatureView::NumberOrFunction);
                                    }
                                }
                            }
                        },
                        _ => {
                            assert(!(args[i as int] is VariableOrFunction));
                            assert(declared_parameters(args, i as int, fn_args.view_args())
                                == Err::<Parameters, Seq<char>>("Invalid argument in function signature"@));
                            assert(formula@ == ElementView::Function(name@, args));
                            return Err("Invalid argument in function signature".to_owned());
                        },
                    }
                    i = i + 1;
                }
                Ok(SymbolDeclarationData { name: name.clone(), function_args: Some(fn_args) })
            },
            _ => Err("Invalid formula signature provided".to_owned()),
        }
    }

    /// The declared name.
    pub fn get_name(&self) -> (r: &String)
        ensures
            r@ == self.name@,
    {
        &self.name
    }
}

impl FunctionDeclarationArguments {
    /// The parameters' signatures in the order of the parameters.
    pub fn get_signatures_in_right_order(&self) -> (r: Vec<Signature>)
        requires
            parameters_wf(self.view_args()),
        ensures
            signature_views(r@) == signatures_in_order(self.view_args()),
    {
        let ghost p = self.view_args();
        let mut out: Vec<Signature> = Vec::new();
        let mut i: usize = 0;
        while i < self.names.len()
            invariant
                i <= self.names@.len(),
                p == self.view_args(),
                p.0.len() == self.names@.len(),
                parameters_wf(p),
                signature_views(out@) == signatures_in_order(p).take(i as int),
            decreases self.names.len() - i,
        {
            assert(p.0[i as int] == self.names@[i as int]@);
            assert(has_name(p.1, p.0[i as int]));
            let s = match self.signatures.get(self.names[i].as_str()) {
                Some(s) => s,
                None => Signature::Conflicting,
            };
            let ghost before = out@;
            out.push(s);
            proof {
                assert(out@.drop_last() =~= before);
                assert(signatures_in_order(p).take(i + 1) =~= signatures_in_order(p).take(i as int).push(p.1[index_of(p.1, p.0[i as int])].1));
            }
            i = i + 1;
        }
        assert(signatures_in_order(p).take(i as int) =~= signatures_in_order(p));
        out
    }
}

// ---------------------------------------------------------------------------
// Checking a definition against the known symbols
// ---------------------------------------------------------------------------

/// How deep passing a signature on may go: one more than the number of symbols. A passing
/// on that goes deeper gives `None`, whether or not it would end; that this depth suffices
/// for every passing on that ends is not proved.
pub open spec fn update_fuel(m: Table) -> nat {
    if m.len() < usize::MAX { m.len() + 1 } else { m.len() }
}

pub open spec fn incompatible_text(name: Seq<char>, u: SignatureView, d: SignatureView) -> Seq<char> {
    "The signature of "@ + name + " is not compatible with the already defined signature: undefined: "@
        + signature_text(u) + " vs defined: "@ + signature_text(d)
}

/// For the names from `t` on that are not parameters but already defined: an error if the
/// use and the definition are incompatible both ways, else the definition is passed on
/// through the formula (`signature_updated`).
pub open spec fn known_signatures_applied(
    u: Table, formula: ElementView, names: Seq<Seq<char>>, t: int, params: Seq<Seq<char>>, defined: Table, fuel: nat,
) -> Option<Result<Table, Seq<char>>>
    decreases names.len() - t,
{
    if t >= names.len() || t < 0 {
        Some(Ok(u))
    } else {
        let name = names[t];
        let dk = index_of(defined, name);
        if params.contains(name) || dk < 0 {
            known_signatures_applied(u, formula, names, t + 1, params, defined, fuel)
        } else {
            let d = defined[dk].1;
            let uk = index_of(u, name);
            if uk < 0 {
                None
            } else if !could_be(u[uk].1, d) && !could_be(d, u[uk].1) {
                Some(Err(incompatible_text(name, u[uk].1, d)))
            } else {
                match signature_updated(u, formula, name, d, fuel) {
                    Some(u2) => known_signatures_applied(u2, formula, names, t + 1, params, defined, fuel),
                    None => None,
                }
            }
        }
    }
}

/// The parameter signatures from entry `i` on, refined with their use in the body.
pub open spec fn parameters_refined_by_use(p: Table, u: Table, i: int) -> Table
    decreases p.len() - i,
{
    if i >= p.len() || i < 0 {
        p
    } else {
        let k = index_of(u, p[i].0);
        let p2 = if k >= 0 { p.update(i, (p[i].0, refined(p[i].1, u[k].1))) } else { p };
        parameters_refined_by_use(p2, u, i + 1)
    }
}

/// The entries whose names are not excluded.
pub open spec fn table_retain(u: Table, excluded: Set<Seq<char>>) -> Table
    decreases u.len(),
{
    if u.len() == 0 {
        u
    } else {
        let r = table_retain(u.drop_last(), excluded);
        if excluded.contains(u.last().0) { r } else { r.push(u.last()) }
    }
}

pub open spec fn table_names(m: Table) -> Seq<Seq<char>> {
    m.map_values(|e: (Seq<char>, SignatureView)| e.0)
}

/// The names of a table as a set.
pub open spec fn name_set(m: Table) -> Set<Seq<char>> {
    Set::new(|n: Seq<char>| has_name(m, n))
}

/// The signatures the formula needs from outside, after the parameters and the already
/// defined symbols are taken out, and the parameters refined by their use; an error for
/// a use incompatible with a definition; `None` where the step panics, never ends, or
/// passes a signature on deeper than `update_fuel` allows.
pub open spec fn signatures_refined(
    args: Option<Parameters>, u: Table, formula: ElementView, defined: Table,
) -> Option<Result<(Option<Parameters>, Table), Seq<char>>> {
    let params: Seq<Seq<char>> = match args { Some(a) => a.0, None => Seq::empty() };
    match known_signatures_applied(u, formula, table_names(u), 0, params, defined, update_fuel(u)) {
        None => None,
        Some(Err(e)) => Some(Err(e)),
        Some(Ok(u2)) => {
            let args2 = match args {
                Some(a) => Some((a.0, parameters_refined_by_use(a.1, u2, 0))),
                None => None,
            };
            Some(Ok((args2, table_retain(table_retain(u2, params.to_set()), name_set(defined)))))
        },
    }
}

impl Signatures {
    /// The table without the entries whose names `excluded` says are out.
    fn retain_names(&mut self, excluded_names: &Vec<String>, excluded_table: Option<&Signatures>, Ghost(ex): Ghost<Set<Seq<char>>>)
        requires
            match excluded_table {
                Some(t) => ex == name_set(t@),
                None => ex == names_view(excluded_names@).to_set(),
            },
        ensures
            final(self)@ == table_retain(old(self)@, ex),
    {
        let ghost m = self@;
        let mut kept: Vec<(String, Signature)> = Vec::new();
        let mut i: usize = 0;
        while i < self.entries.len()
            invariant
                i <= self.entries@.len(),
                m == self@,
                m.len() == self.entries@.len(),
                table_view(kept@) == table_retain(m.take(i as int), ex),
                match excluded_table {
                    Some(t) => ex == name_set(t@),
                    None => ex == names_view(excluded_names@).to_set(),
                },
            decreases self.entries.len() - i,
        {
            proof {
                assert(m.take(i + 1).drop_last() =~= m.take(i as int));
                assert(m.take(i + 1).last() == m[i as int]);
                assert(m[i as int] == (self.entries@[i as int].0@, self.entries@[i as int].1@));
            }
            let name = &self.entries[i].0;
            let excluded = match excluded_table {
                Some(t) => t.contains(name.as_str()),
                None => names_contain(excluded_names, name),
            };
            if !excluded {
                let e = (name.clone(), self.entries[i].1.duplicate());
                let ghost before = kept@;
                kept.push(e);
                assert(table_view(kept@) =~= table_view(before).push(m[i as int]));
            }
            i = i + 1;
        }
        assert(m.take(i as int) =~= m);
        self.entries = kept;
    }
}

/// Whether the names hold `name`.
pub(crate) fn names_contain(names: &Vec<String>, name: &String) -> (b: bool)
    ensures
        b == names_view(names@).to_set().contains(name@),
{
    let ghost nv = names_view(names@);
    let mut i: usize = 0;
    while i < names.len()
        invariant
            i <= names@.len(),
            nv == names_view(names@),
            nv.len() == names@.len(),
            forall|j: int| 0 <= j < i ==> nv[j] != name@,
        decreases names.len() - i,
    {
        assert(nv[i as int] == names@[i as int]@);
        if crate::matching::same_text(names[i].as_str(), name.as_str()) {
            assert(nv.contains(name@));
            return true;
        }
        i = i + 1;
    }
    assert(!nv.contains(name@)) by {
        if nv.contains(name@) {
            let j = choose|j: int| 0 <= j < nv.len() && nv[j] == name@;
            assert(nv[j] != name@);
        }
    }
    false
}

impl Signatures {
    /// Checks the signatures a formula needs (`undefined_signatures`) against the already
    /// defined ones, passes the definitions on, refines the parameters by their use, and
    /// keeps only what is still undefined (see `signatures_refined`). `None` where the
    /// step panics, never ends, or passes a signature on deeper than `update_fuel` allows.
    pub fn refine_signature_and_undefined(
        opt_fun_args: &mut Option<FunctionDeclarationArguments>, undefined_signatures: &mut Signatures,
        formula: &Element, already_defined: &Signatures,
    ) -> (r: Option<Result<(), String>>)
        ensures
            match r {
                None => signatures_refined(
                    opt_args_view(*old(opt_fun_args)),
                    old(undefined_signatures)@, formula@, already_defined@) is None,
                Some(Err(e)) => signatures_refined(
                    opt_args_view(*old(opt_fun_args)),
                    old(undefined_signatures)@, formula@, already_defined@) == Some(Err::<(Option<Parameters>, Table), Seq<char>>(e@)),
                Some(Ok(())) => signatures_refined(
                    opt_args_view(*old(opt_fun_args)),
                    old(undefined_signatures)@, formula@, already_defined@)
                    == Some(Ok::<(Option<Parameters>, Table), Seq<char>>((
                        opt_args_view(*final(opt_fun_args)),
                        final(undefined_signatures)@))),
            },
            match *old(opt_fun_args) {
                Some(a) => *final(opt_fun_args) matches Some(b) && names_view(b.names@) == names_view(a.names@)
                    && table_names(b.signatures@) == table_names(a.signatures@),
                None => *final(opt_fun_args) is None,
            },
    {
        let ghost args0: Option<Parameters> = opt_args_view(*opt_fun_args);
        assert(args0 == opt_args_view(*old(opt_fun_args)));
        assert(undefined_signatures@ == old(undefined_signatures)@);
        let ghost u0 = undefined_signatures@;
        let ghost defined = already_defined@;
        let params: Vec<String> = match &*opt_fun_args {
            Some(a) => clone_names(&a.names),
            None => Vec::new(),
        };
        let ghost pv: Seq<Seq<char>> = match args0 { Some(a) => a.0, None => Seq::empty() };
        assert(names_view(params@) =~= pv);
        let names = undefined_signatures.names();
        let n = undefined_signatures.len();
        let fuel: usize = if n < usize::MAX { n + 1 } else { n };
        let mut t: usize = 0;
        while t < names.len()
            invariant
                t <= names@.len(),
                names_view(names@) == table_names(u0),
                names_view(params@) == pv,
                pv == (match args0 { Some(a) => a.0, None => Seq::<Seq<char>>::empty() }),
                args0 == opt_args_view(*old(opt_fun_args)),
                *opt_fun_args == *old(opt_fun_args),
                u0 == old(undefined_signatures)@,
                fuel as nat == update_fuel(u0),
                defined == already_defined@,
                known_signatures_applied(undefined_signatures@, formula@, table_names(u0), t as int, pv, defined, fuel as nat)
                    == known_signatures_applied(u0, formula@, table_names(u0), 0, pv, defined, fuel as nat),
            decreases names.len() - t,
        {
            let name = &names[t];
            assert(table_names(u0)[t as int] == name@);
            let ghost u = undefined_signatures@;
            if names_contain(&params, name) {
                assert(pv.contains(name@)) by {
                    assert(names_view(params@).to_set().contains(name@));
                }
                t = t + 1;
                continue;
            }
            assert(!pv.contains(name@)) by {
                if pv.contains(name@) {
                    let j = choose|j: int| 0 <= j < pv.len() && pv[j] == name@;
                    assert(names_view(params@).to_set().contains(name@));
                }
            }
            let d = match already_defined.get(name.as_str()) {
                Some(d) => d,
                None => {
                    t = t + 1;
                    continue;
                },
            };
            let us = match undefined_signatures.get(name.as_str()) {
                Some(us) => us,
                None => {
                    return None;
                },
            };
            if !us.could_be(&d) && !d.could_be(&us) {
                let mut text = crate::text::chars_of("The signature of ");
                crate::text::push_str(&mut text, name.as_str());
                crate::text::push_str(&mut text, " is not compatible with the already defined signature: undefined: ");
                us.push_text(&mut text);
                crate::text::push_str(&mut text, " vs defined: ");
                d.push_text(&mut text);
                proof {
                    reveal_strlit("The signature of ");
                    assert(text@ =~= incompatible_text(name@, us@, d@));
                }
                return Some(Err(crate::text::string_of(&text)));
            }
            if !undefined_signatures.update_signature(formula, name, d, fuel) {
                return None;
            }
            t = t + 1;
        }
        let ghost u2 = undefined_signatures@;
        let taken = opt_fun_args.take();
        let back = match taken {
            Some(mut a) => {
                a.refine_by_use(undefined_signatures);
                Some(a)
            },
            None => None,
        };
        *opt_fun_args = back;
        let empty: Vec<String> = Vec::new();
        undefined_signatures.retain_names(&params, None, Ghost(pv.to_set()));
        undefined_signatures.retain_names(&empty, Some(already_defined), Ghost(name_set(defined)));
        Some(Ok(()))
    }
}

impl FunctionDeclarationArguments {
    /// Each parameter's signature refined with the one its use in the body asks for.
    fn refine_by_use(&mut self, used: &Signatures)
        ensures
            names_view(final(self).names@) == names_view(old(self).names@),
            final(self).signatures@ == parameters_refined_by_use(old(self).signatures@, used@, 0),
            table_names(final(self).signatures@) == table_names(old(self).signatures@),
    {
        let ghost p0 = self.signatures@;
        let ghost u = used@;
        let mut i: usize = 0;
        while i < self.signatures.entries.len()
            invariant
                i <= self.signatures.entries@.len(),
                self.signatures@.len() == p0.len(),
                table_names(self.signatures@) == table_names(p0),
                parameters_refined_by_use(self.signatures@, u, i as int) == parameters_refined_by_use(p0, u, 0),
                u == used@,
                names_view(self.names@) == names_view(old(self).names@),
                p0 == old(self).signatures@,
            decreases self.signatures.entries.len() - i,
        {
            let ghost p = self.signatures@;
            assert(p[i as int] == (self.signatures.entries@[i as int].0@, self.signatures.entries@[i as int].1@));
            match used.get(self.signatures.entries[i].0.as_str()) {
                Some(us) => {
                    let mut entry = self.signatures.entries.remove(i);
                    entry.1.refine_with(us);
                    self.signatures.entries.insert(i, entry);
                    assert(self.signatures@ =~= p.update(i as int, (p[i as int].0, refined(p[i as int].1, u[index_of(u, p[i as int].0)].1))));
                    assert(table_names(self.signatures@) =~= table_names(p));
                },
                None => {},
            }
            i = i + 1;
        }
    }
}

proof fn lemma_names_view_push(s: Seq<String>, x: String)
    ensures
        names_view(s.push(x)) == names_view(s).push(x@),
{
    assert(names_view(s.push(x)) =~= names_view(s).push(x@));
}

/// Copies of the names.
pub(crate) fn clone_names(v: &Vec<String>) -> (r: Vec<String>)
    ensures
        names_view(r@) == names_view(v@),
{
    let mut r: Vec<String> = Vec::new();
    let mut i: usize = 0;
    while i < v.len()
        invariant
            i <= v@.len(),
            names_view(r@) == names_view(v@).take(i as int),
        decreases v.len() - i,
    {
        let ghost before = r@;
        r.push(v[i].clone());
        proof {
            lemma_names_view_push(before, v@[i as int]);
            assert(names_view(v@).take(i + 1) =~= names_view(v@).take(i as int).push(v@[i as int]@));
        }
        i = i + 1;
    }
    assert(names_view(v@).take(i as int) =~= names_view(v@));
    r
}

impl Signatures {
    /// Copies of the names, in order.
    pub fn names(&self) -> (r: Vec<String>)
        ensures
            names_view(r@) == table_names(self@),
    {
        let mut r: Vec<String> = Vec::new();
        let mut i: usize = 0;
        while i < self.entries.len()
            invariant
                i <= self.entries@.len(),
                names_view(r@) == table_names(self@).take(i as int),
            decreases self.entries.len() - i,
        {
            let ghost before = r@;
            r.push(self.entries[i].0.clone());
            proof {
                lemma_names_view_push(before, self.entries@[i as int].0);
                assert(self@[i as int].0 == self.entries@[i as int].0@);
                assert(table_names(self@).take(i + 1) =~= table_names(self@).take(i as int).push(self.entries@[i as int].0@));
            }
            i = i + 1;
        }
        assert(table_names(self@).take(i as int) =~= table_names(self@));
        r
    }
}


// ---------------------------------------------------------------------------
// Defining a symbol
// ---------------------------------------------------------------------------

/// Tables with the same names in the same order find a name at the same place.
pub(crate) proof fn lemma_index_of_same_names(m1: Table, m2: Table, name: Seq<char>)
    requires
        table_names(m1) == table_names(m2),
    ensures
        index_of(m1, name) == index_of(m2, name),
    decreases m1.len(),
{
    assert(m1.len() == table_names(m1).len());
    assert(m2.len() == table_names(m2).len());
    if m1.len() > 0 {
        assert(table_names(m1.drop_last()) =~= table_names(m1).drop_last());
        assert(table_names(m2.drop_last()) =~= table_names(m2).drop_last());
        lemma_index_of_same_names(m1.drop_last(), m2.drop_last(), name);
        assert(m1.last().0 == table_names(m1)[m1.len() - 1]);
        assert(m2.last().0 == table_names(m2)[m2.len() - 1]);
    }
}

/// The table as it is printed for debugging: `{"name": Signature, ...}`.
pub open spec fn table_text(t: Table) -> Seq<char> {
    "{"@ + table_entries_text(t) + "}"@
}

pub open spec fn table_entry_text(e: (Seq<char>, SignatureView)) -> Seq<char> {
    "\""@ + e.0 + "\": "@ + signature_text(e.1)
}

/// The entries' texts, separated by `, `.
pub open spec fn table_entries_text(t: Table) -> Seq<char>
    decreases t.len(),
{
    if t.len() == 0 {
        Seq::empty()
    } else if t.len() == 1 {
        table_entry_text(t[0])
    } else {
        table_entries_text(t.drop_last()) + ", "@ + table_entry_text(t.last())
    }
}

pub open spec fn already_defined_text(name: Seq<char>) -> Seq<char> {
    "The formula "@ + name + " is already defined"@
}

pub open spec fn requires_text(name: Seq<char>, req: Table) -> Seq<char> {
    "The formula "@ + name + " requires the following elements to be defined: "@ + table_text(req)
}

/// The signature a definition gets: a function of its parameters' signatures, or a number.
pub open spec fn defined_signature(args: Option<Parameters>) -> SignatureView {
    match args {
        Some(a) => SignatureView::Function(signatures_in_order(a)),
        None => SignatureView::Number,
    }
}

/// Defining a symbol by its left side `sig` and its formula `def`: the left side must
/// declare a name (with its parameters), which must be new; the formula's use of known
/// symbols must fit their definitions, and it must need no symbol that is neither a
/// parameter nor defined. The new symbol is added at the end. `None` where the step
/// panics, never ends, or passes a signature on deeper than `update_fuel` allows.
pub open spec fn symbol_added(m: Table, sig: ElementView, def: ElementView) -> Option<Result<Table, Seq<char>>> {
    match declaration_of(sig) {
        Err(e) => Some(Err(e)),
        Ok((name, args)) => if has_name(m, name) {
            Some(Err(already_defined_text(name)))
        } else {
            match symbols_used(Seq::empty(), def) {
                None => None,
                Some(u) => match signatures_refined(args, u, def, m) {
                    None => None,
                    Some(Err(e)) => Some(Err(e)),
                    Some(Ok((args2, req))) => if req.len() > 0 {
                        Some(Err(requires_text(name, req)))
                    } else {
                        Some(Ok(m.push((name, defined_signature(args2)))))
                    },
                },
            }
        },
    }
}

/// The position of the first `=` from `i` on, or -1.
pub open spec fn eq_position_from(s: Seq<char>, i: int) -> int
    decreases s.len() - i,
{
    if i < 0 || i >= s.len() {
        -1
    } else if s[i] == '=' {
        i
    } else {
        eq_position_from(s, i + 1)
    }
}

/// The right side of a definition `left=right`: what follows the first `=`.
pub open spec fn definition_right(s: Seq<char>) -> Seq<char> {
    s.skip(eq_position_from(s, 0) + 1)
}

/// The two sides of a definition `left=right`, split at the first `=` and parsed. `None`
/// where parsing panics.
pub open spec fn definition_parts(s: Seq<char>) -> Option<Result<(ElementView, ElementView), Seq<char>>> {
    let k = eq_position_from(s, 0);
    if k < 0 {
        Some(Err("String doesn't contain '='"@))
    } else {
        let left = s.take(k);
        let right = s.skip(k + 1);
        if !crate::parsing::parse_defined(left) {
            None
        } else {
            match crate::parsing::parse_result(left) {
                Err(_) => Some(Err("First formula could not be parsed"@)),
                Ok(sig) => if !crate::parsing::parse_defined(right) {
                    None
                } else {
                    match crate::parsing::parse_result(right) {
                        Err(_) => Some(Err("Second formula could not be parsed"@)),
                        Ok(def) => Some(Ok((sig, def))),
                    }
                },
            }
        }
    }
}

/// Defining a symbol from a text `left=right` (see `definition_parts` and
/// `symbol_added`). `None` where a step panics, never ends, or passes a signature on
/// deeper than `update_fuel` allows.
pub open spec fn symbol_text_added(m: Table, s: Seq<char>) -> Option<Result<Table, Seq<char>>> {
    match definition_parts(s) {
        None => None,
        Some(Err(e)) => Some(Err(e)),
        Some(Ok((sig, def))) => symbol_added(m, sig, def),
    }
}

/// The two sides of a definition text, parsed (see `definition_parts`).
pub fn parse_definition(string: &str) -> (r: Option<Result<(Element, Element), String>>)
    ensures
        match r {
            None => definition_parts(string@) is None,
            Some(Err(e)) => definition_parts(string@) == Some(Err::<(ElementView, ElementView), Seq<char>>(e@)),
            Some(Ok((sig, def))) => definition_parts(string@) == Some(Ok::<(ElementView, ElementView), Seq<char>>((sig@, def@))),
        },
        crate::parsing::numbers_only_read(definition_right(string@)) ==> (r matches Some(Ok((_, def))) ==> def.wf()),
{
    let chars = chars_of(string);
    let mut k: usize = 0;
    while k < chars.len() && chars[k] != '='
        invariant
            k <= chars@.len(),
            chars@ == string@,
            eq_position_from(string@, k as int) == eq_position_from(string@, 0),
        decreases chars.len() - k,
    {
        k = k + 1;
    }
    if k == chars.len() {
        proof { reveal_strlit("String doesn't contain '='"); }
        return Some(Err(crate::text::string_of(&chars_of("String doesn't contain '='"))));
    }
    let mut left_chars: Vec<char> = Vec::new();
    let mut right_chars: Vec<char> = Vec::new();
    let mut i: usize = 0;
    while i < chars.len()
        invariant
            i <= chars@.len(),
            k < chars@.len(),
            left_chars@ == chars@.take(if i < k { i as int } else { k as int }),
            right_chars@ == (if i <= k + 1 { Seq::<char>::empty() } else { chars@.subrange(k + 1, i as int) }),
        decreases chars.len() - i,
    {
        if i < k {
            left_chars.push(chars[i]);
            assert(left_chars@ =~= chars@.take(i + 1));
        } else if i > k {
            let ghost before = right_chars@;
            right_chars.push(chars[i]);
            assert(right_chars@ =~= chars@.subrange(k + 1, i + 1));
        }
        i = i + 1;
    }
    assert(right_chars@ =~= chars@.skip(k + 1));
    let left = crate::text::string_of(&left_chars);
    let right = crate::text::string_of(&right_chars);
    if !Element::parse_is_defined(left.as_str()) {
        return None;
    }
    let sig = match Element::parse(left.as_str()) {
        Ok(e) => e,
        Err(_) => {
            proof { reveal_strlit("First formula could not be parsed"); }
            return Some(Err(crate::text::string_of(&chars_of("First formula could not be parsed"))));
        },
    };
    if !Element::parse_is_defined(right.as_str()) {
        return None;
    }
    let def = match Element::parse(right.as_str()) {
        Ok(e) => e,
        Err(_) => {
            proof { reveal_strlit("Second formula could not be parsed"); }
            return Some(Err(crate::text::string_of(&chars_of("Second formula could not be parsed"))));
        },
    };
    Some(Ok((sig, def)))
}

impl Signatures {
    /// The signatures of all symbols the formula uses (see `symbols_used`); `None` where
    /// a call has an argument that is neither a value nor a name.
    pub fn generate_needed_elements_of_formula(formula: &Element) -> (r: Option<Signatures>)
        ensures
            match r {
                Some(t) => symbols_used(Seq::empty(), formula@) == Some(t@),
                None => symbols_used(Seq::empty(), formula@) is None,
            },
    {
        let mut all = Signatures::new_empty();
        if all.add_all_undefined_symbols_of_formula(formula) {
            Some(all)
        } else {
            None
        }
    }

    /// Appends the table's debug text (`table_text`).
    pub fn push_table_text(&self, out: &mut Vec<char>)
        ensures
            final(out)@ == old(out)@ + table_text(self@),
    {
        let ghost start = out@;
        crate::text::push_str(out, "{");
        let mut i: usize = 0;
        while i < self.entries.len()
            invariant
                i <= self.entries@.len(),
                out@ == start + "{"@ + table_entries_text(self@.take(i as int)),
            decreases self.entries.len() - i,
        {
            let ghost before = out@;
            if i > 0 {
                crate::text::push_str(out, ", ");
            }
            crate::text::push_str(out, "\"");
            crate::text::push_str(out, self.entries[i].0.as_str());
            crate::text::push_str(out, "\": ");
            self.entries[i].1.push_text(out);
            proof {
                let t = self@.take(i + 1);
                assert(t.drop_last() =~= self@.take(i as int));
                assert(t.last() == self@[i as int]);
                assert(self@[i as int] == (self.entries@[i as int].0@, self.entries@[i as int].1@));
                if i == 0 {
                    assert(table_entries_text(self@.take(0)) =~= Seq::<char>::empty());
                }
                assert(out@ =~= start + "{"@ + table_entries_text(t));
            }
            i = i + 1;
        }
        crate::text::push_str(out, "}");
        proof {
            assert(self@.take(i as int) =~= self@);
            assert(out@ =~= old(out)@ + table_text(self@));
        }
    }

    /// Defines the symbol that `name_and_args` declares with the formula `content` (see
    /// `symbol_added`). The table changes only on success. `None` where the step panics.
    pub fn add_symbol_from_function_signature_and_definition(
        &mut self, name_and_args: &Element, content: &Element,
    ) -> (r: Option<Result<(), String>>)
        ensures
            match r {
                None => symbol_added(old(self)@, name_and_args@, content@) is None && final(self)@ == old(self)@,
                Some(Err(e)) => symbol_added(old(self)@, name_and_args@, content@) == Some(Err::<Table, Seq<char>>(e@))
                    && final(self)@ == old(self)@,
                Some(Ok(())) => symbol_added(old(self)@, name_and_args@, content@) == Some(Ok::<Table, Seq<char>>(final(self)@)),
            },
    {
        let decl = match SymbolDeclarationData::from_formula(name_and_args) {
            Ok(d) => d,
            Err(e) => {
                return Some(Err(e));
            },
        };
        let SymbolDeclarationData { name, function_args } = decl;
        let ghost args0 = opt_args_view(function_args);
        if self.contains(name.as_str()) {
            let mut text = chars_of("The formula ");
            crate::text::push_str(&mut text, name.as_str());
            crate::text::push_str(&mut text, " is already defined");
            proof {
                reveal_strlit("The formula ");
                assert(text@ =~= already_defined_text(name@));
            }
            return Some(Err(crate::text::string_of(&text)));
        }
        let mut required = match Signatures::generate_needed_elements_of_formula(content) {
            Some(t) => t,
            None => {
                return None;
            },
        };
        let mut args = function_args;
        match Self::refine_signature_and_undefined(&mut args, &mut required, content, self) {
            None => {
                return None;
            },
            Some(Err(e)) => {
                return Some(Err(e));
            },
            Some(Ok(())) => {},
        }
        if required.len() > 0 {
            let mut text = chars_of("The formula ");
            crate::text::push_str(&mut text, name.as_str());
            crate::text::push_str(&mut text, " requires the following elements to be defined: ");
            required.push_table_text(&mut text);
            proof {
                reveal_strlit("The formula ");
                assert(text@ =~= requires_text(name@, required@));
            }
            return Some(Err(crate::text::string_of(&text)));
        }
        let sig = match &args {
            Some(a) => {
                proof {
                    let p0 = args0.unwrap();
                    let p1 = a.view_args();
                    assert forall|i: int| 0 <= i < p1.0.len() implies #[trigger] has_name(p1.1, p1.0[i]) by {
                        assert(has_name(p0.1, p0.0[i]));
                        lemma_index_of_same_names(p0.1, p1.1, p0.0[i]);
                    }
                }
                Signature::Function(a.get_signatures_in_right_order())
            },
            None => Signature::Number,
        };
        let ghost m = self@;
        self.entries.push((name, sig));
        assert(self@ =~= m.push((name@, defined_signature(opt_args_view(args)))));
        Some(Ok(()))
    }

    /// Defines a symbol from a text `left=right` (see `symbol_text_added`); `None`, with
    /// the table unchanged, where a step panics.
    pub fn try_add_symbol_from_string(&mut self, string: &str) -> (r: Option<Result<(), String>>)
        ensures
            match r {
                None => symbol_text_added(old(self)@, string@) is None && final(self)@ == old(self)@,
                Some(Err(e)) => symbol_text_added(old(self)@, string@) == Some(Err::<Table, Seq<char>>(e@))
                    && final(self)@ == old(self)@,
                Some(Ok(())) => symbol_text_added(old(self)@, string@) == Some(Ok::<Table, Seq<char>>(final(self)@)),
            },
    {
        match parse_definition(string) {
            None => None,
            Some(Err(e)) => Some(Err(e)),
            Some(Ok((sig, def))) => self.add_symbol_from_function_signature_and_definition(&sig, &def),
        }
    }

    /// Defines a symbol from a text `left=right`: `Ok` with the symbol added, or the error
    /// of the first step that fails (see `symbol_text_added`).
    pub fn add_symbol_from_string(&mut self, string: &str) -> (r: Result<(), String>)
        requires
            symbol_text_added(old(self)@, string@) is Some,
        ensures
            match r {
                Err(e) => symbol_text_added(old(self)@, string@) == Some(Err::<Table, Seq<char>>(e@))
                    && final(self)@ == old(self)@,
                Ok(()) => symbol_text_added(old(self)@, string@) == Some(Ok::<Table, Seq<char>>(final(self)@)),
            },
    {
        match self.try_add_symbol_from_string(string) {
            Some(r) => r,
            None => Ok(()),
        }
    }
}


pub(crate) proof fn lemma_index_of_push(m: Table, e: (Seq<char>, SignatureView), name: Seq<char>)
    ensures
        index_of(m, name) >= 0 ==> index_of(m.push(e), name) == index_of(m, name),
        index_of(m, name) < 0 && e.0 == name ==> index_of(m.push(e), name) == m.len(),
        index_of(m, name) < 0 && e.0 != name ==> index_of(m.push(e), name) < 0,
{
    assert(m.push(e).drop_last() =~= m);
}

/// Defining a symbol adds it at the end and leaves every symbol defined before as it was.
pub proof fn law_definition_keeps_earlier_symbols(m: Table, s: Seq<char>, m2: Table, name: Seq<char>)
    requires
        symbol_text_added(m, s) == Some(Ok::<Table, Seq<char>>(m2)),
        has_name(m, name),
    ensures
        m2.len() == m.len() + 1,
        has_name(m2, name),
        m2[index_of(m2, name)] == m[index_of(m, name)],
{
    lemma_index_of_push(m, m2.last(), name);
    lemma_index_of(m, name);
    assert(m2 =~= m.push(m2.last()));
    assert(m2[index_of(m, name)] == m[index_of(m, name)]);
}

/// A symbol defined from a text cannot be defined again by the same text: the second
/// attempt is refused because the name is already defined.
pub proof fn law_defined_symbol_cannot_be_redefined(m: Table, s: Seq<char>, m2: Table)
    requires
        symbol_text_added(m, s) == Some(Ok::<Table, Seq<char>>(m2)),
    ensures
        symbol_text_added(m2, s) matches Some(Err(e)) && e == already_defined_text(m2.last().0),
{
    let k = eq_position_from(s, 0);
    let sig = crate::parsing::parse_result(s.take(k))->Ok_0;
    let name = (declaration_of(sig)->Ok_0).0;
    lemma_index_of_push(m, m2.last(), name);
    assert(m2 =~= m.push(m2.last()));
}

} // verus!
