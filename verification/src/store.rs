//! The store of defined symbols: variables and functions with their formulas, kept until
//! they are cleared. A new definition is checked against the symbols it uses, and its
//! formula is stored both as written and expanded and simplified, ready for evaluation.

use vstd::prelude::*;
use crate::element::{Element, ElementView, ExpressionFunType, ExpressionNumType, ParamCount};
use crate::signature::{Signature, SignatureView, signature_views, lemma_signature_views};
use crate::insertion::{InsertionElement, InsertionView, symbol_inserted, names_of};
use crate::optimization::{optimized, Ratio};
use crate::benchmarking::Benchmark;
use crate::element::NumberView;
use crate::evaluation::{DynamicResult, DynamicValue, dynamic_eval, dynamic_view, eval_of, no_range_checks};
use crate::outcomes::{FormulaEvaluationError, RunError, RunOptions, RunPrecision, formula_evaluation_error_text};
use crate::parsing::{parse_defined, parse_result, numbers_only_read};
use crate::symbols::{
    Signatures, Table, Parameters, index_of, has_name, lemma_index_of, names_view, clone_names,
    names_contain, SymbolDeclarationData, declaration_of, symbols_used, signatures_refined,
    already_defined_text, table_text, defined_signature, opt_args_view, definition_parts,
    eq_position_from, definition_right,
};

verus! {

/// A defined symbol: its signature, its parameter names if it is a function, its formula
/// as written, and the formula expanded and simplified.
pub struct Symbol {
    pub signature: Signature,
    pub params: Option<Vec<String>>,
    pub formula: Element,
    pub optimized_formula: Element,
}

pub struct SymbolView {
    pub signature: SignatureView,
    pub params: Option<Seq<Seq<char>>>,
    pub formula: ElementView,
    pub optimized: ElementView,
}

pub open spec fn params_view(p: Option<Vec<String>>) -> Option<Seq<Seq<char>>> {
    match p {
        Some(v) => Some(names_view(v@)),
        None => None,
    }
}

impl Symbol {
    pub open spec fn view_symbol(&self) -> SymbolView {
        SymbolView {
            signature: self.signature@,
            params: params_view(self.params),
            formula: self.formula@,
            optimized: self.optimized_formula@,
        }
    }
}

impl View for Symbol {
    type V = SymbolView;

    open spec fn view(&self) -> SymbolView {
        self.view_symbol()
    }
}

pub(crate) fn clone_params(p: &Option<Vec<String>>) -> (r: Option<Vec<String>>)
    ensures
        params_view(r) == params_view(*p),
{
    match p {
        Some(v) => Some(clone_names(v)),
        None => None,
    }
}

impl Symbol {
    /// A copy of the symbol.
    pub fn duplicate(&self) -> (r: Self)
        ensures
            r@ == self@,
            self.optimized_formula.wf() ==> r.optimized_formula.wf(),
    {
        Symbol {
            signature: self.signature.duplicate(),
            params: clone_params(&self.params),
            formula: self.formula.duplicate(),
            optimized_formula: self.optimized_formula.duplicate(),
        }
    }

    /// The signature.
    pub fn signature(&self) -> (r: &Signature)
        ensures
            r@ == self@.signature,
    {
        &self.signature
    }

    /// The parameter names, for a function.
    pub fn params(&self) -> (r: Option<&Vec<String>>)
        ensures
            match r {
                Some(v) => self@.params == Some(names_view(v@)),
                None => self@.params is None,
            },
    {
        match &self.params {
            Some(v) => Some(v),
            None => None,
        }
    }

    /// The formula as written.
    pub fn formula(&self) -> (r: &Element)
        ensures
            r@ == self@.formula,
    {
        &self.formula
    }
}

/// A symbol with its name, as a definition gives it back.
pub struct NamedSymbol {
    pub name: String,
    pub symbol: Symbol,
}

impl NamedSymbol {
    /// The name.
    pub fn name(&self) -> (r: &String)
        ensures
            r@ == self.name@,
    {
        &self.name
    }

    /// The symbol.
    pub fn symbol(&self) -> (r: &Symbol)
        ensures
            r@ == self.symbol@,
    {
        &self.symbol
    }
}

/// The defined symbols in the order of their definition; a name occurs once.
pub struct FormulaStore {
    pub symbols: Vec<(String, Symbol)>,
}

pub type Store = Seq<(Seq<char>, SymbolView)>;

pub open spec fn store_view(v: Seq<(String, Symbol)>) -> Store {
    v.map_values(|e: (String, Symbol)| (e.0@, e.1@))
}

impl View for FormulaStore {
    type V = Store;

    open spec fn view(&self) -> Store {
        store_view(self.symbols@)
    }
}

/// The names and signatures of the store's symbols.
pub open spec fn signature_table(m: Store) -> Table {
    m.map_values(|e: (Seq<char>, SymbolView)| (e.0, e.1.signature))
}

/// Every name occurs once.
pub open spec fn names_unique(m: Store) -> bool {
    forall|i: int, j: int| 0 <= i < j < m.len() ==> m[i].0 != m[j].0
}

/// The symbol of `name`, if it is defined.
pub open spec fn symbol_of(m: Store, name: Seq<char>) -> Option<SymbolView> {
    let k = index_of(signature_table(m), name);
    if k >= 0 { Some(m[k].1) } else { None }
}

impl FormulaStore {
    /// Every stored formula is well formed, and every name occurs once.
    pub open spec fn wf(&self) -> bool {
        &&& forall|i: int| 0 <= i < self.symbols@.len() ==> (#[trigger] self.symbols@[i]).1.optimized_formula.wf()
        &&& names_unique(self@)
    }

    /// A store without symbols.
    pub fn new_empty() -> (s: Self)
        ensures
            s@ == Store::empty(),
            s.wf(),
    {
        let s = FormulaStore { symbols: Vec::new() };
        assert(s@ =~= Store::empty());
        s
    }

    /// The position of `name`, if it is defined.
    pub fn find(&self, name: &str) -> (r: Option<usize>)
        ensures
            match r {
                Some(k) => index_of(signature_table(self@), name@) == k && k < self@.len(),
                None => index_of(signature_table(self@), name@) < 0,
            },
    {
        let ghost t = signature_table(self@);
        let mut i: usize = 0;
        while i < self.symbols.len()
            invariant
                i <= self.symbols@.len(),
                t == signature_table(self@),
                t.len() == self.symbols@.len(),
                forall|j: int| 0 <= j < i ==> t[j].0 != name@,
            decreases self.symbols.len() - i,
        {
            assert(t[i as int].0 == self.symbols@[i as int].0@);
            if crate::matching::same_text(self.symbols[i].0.as_str(), name) {
                proof {
                    lemma_index_of(t, name@);
                    let k = index_of(t, name@);
                    if k < 0 {
                        assert(t[i as int].0 != name@);
                    } else if k < i {
                        assert(t[k].0 != name@);
                    } else if k > i {
                        assert(t[i as int].0 != name@);
                    }
                }
                return Some(i);
            }
            i = i + 1;
        }
        proof {
            lemma_index_of(t, name@);
            if index_of(t, name@) >= 0 {
                assert(t[index_of(t, name@)].0 == name@);
            }
        }
        None
    }

    /// The symbol of `name`, if it is defined.
    pub fn get_symbol(&self, name: &str) -> (r: Option<&Symbol>)
        ensures
            match r {
                Some(s) => symbol_of(self@, name@) == Some(s@),
                None => symbol_of(self@, name@) is None,
            },
    {
        match self.find(name) {
            Some(k) => Some(&self.symbols[k].1),
            None => None,
        }
    }

    /// The names and signatures of the symbols.
    pub fn signatures(&self) -> (r: Signatures)
        ensures
            r@ == signature_table(self@),
    {
        let mut r = Signatures::new_empty();
        let mut i: usize = 0;
        while i < self.symbols.len()
            invariant
                i <= self.symbols@.len(),
                r@ == signature_table(self@).take(i as int),
            decreases self.symbols.len() - i,
        {
            let ghost before = r@;
            let entry = (self.symbols[i].0.clone(), self.symbols[i].1.signature.duplicate());
            assert(signature_table(self@)[i as int] == (entry.0@, entry.1@));
            r.entries.push(entry);
            assert(r@ =~= before.push((entry.0@, entry.1@)));
            assert(r@ =~= signature_table(self@).take(i + 1));
            i = i + 1;
        }
        assert(signature_table(self@).take(i as int) =~= signature_table(self@));
        r
    }

    /// The entries of the functions that take any number of arguments from some count on.
    pub fn variadic_signatures(&self) -> (r: Signatures)
        ensures
            r@ == variadic_only(signature_table(self@)),
    {
        let mut r = Signatures::new_empty();
        let mut i: usize = 0;
        while i < self.symbols.len()
            invariant
                i <= self.symbols@.len(),
                r@ == variadic_only(signature_table(self@).take(i as int)),
            decreases self.symbols.len() - i,
        {
            let ghost t = signature_table(self@).take(i + 1);
            assert(t.drop_last() =~= signature_table(self@).take(i as int));
            match &self.symbols[i].1.signature {
                Signature::FunctionNOrMoreParams(n) => {
                    let ghost before = r@;
                    r.entries.push((self.symbols[i].0.clone(), Signature::FunctionNOrMoreParams(*n)));
                    assert(r@ =~= before.push(t.last()));
                },
                _ => {},
            }
            i = i + 1;
        }
        assert(signature_table(self@).take(i as int) =~= signature_table(self@));
        r
    }
}

/// The entries of functions that take any number of arguments from some count on.
pub open spec fn variadic_only(t: Table) -> Table
    decreases t.len(),
{
    if t.len() == 0 {
        t
    } else if t.last().1 is FunctionNOrMoreParams {
        variadic_only(t.drop_last()).push(t.last())
    } else {
        variadic_only(t.drop_last())
    }
}

// ---------------------------------------------------------------------------
// The names a formula still refers to
// ---------------------------------------------------------------------------

/// `acc` with `n` added at the end, unless it is there already or ignored.
pub open spec fn name_added(acc: Seq<Seq<char>>, n: Seq<char>, ignore: Seq<Seq<char>>) -> Seq<Seq<char>> {
    if acc.contains(n) || ignore.contains(n) { acc } else { acc.push(n) }
}

/// The names that `e` refers to (calls, variables, ambiguous names) and `ignore` does not
/// hold, added to `acc` in the order of their first occurrence; the arguments of built-in
/// functions and unparsed parts are not looked into.
pub open spec fn names_added(acc: Seq<Seq<char>>, e: ElementView, ignore: Seq<Seq<char>>) -> Seq<Seq<char>>
    decreases e,
{
    match e {
        ElementView::Plus(s) => names_added_all(acc, s, ignore),
        ElementView::Multiply(s) => names_added_all(acc, s, ignore),
        ElementView::Pow(a, b) => names_added(names_added(acc, *a, ignore), *b, ignore),
        ElementView::Negate(a) => names_added(acc, *a, ignore),
        ElementView::Function(n, args) => names_added_all(name_added(acc, n, ignore), args, ignore),
        ElementView::Variable(n) => name_added(acc, n, ignore),
        ElementView::VariableOrFunction(n) => name_added(acc, n, ignore),
        _ => acc,
    }
}

pub open spec fn names_added_all(acc: Seq<Seq<char>>, s: Seq<ElementView>, ignore: Seq<Seq<char>>) -> Seq<Seq<char>>
    decreases s,
{
    if s.len() == 0 {
        acc
    } else {
        names_added(names_added_all(acc, s.drop_last(), ignore), s.last(), ignore)
    }
}

/// The names `e` still refers to, without those in `ignore`.
pub open spec fn unexpanded_names(e: ElementView, ignore: Seq<Seq<char>>) -> Seq<Seq<char>> {
    names_added(Seq::empty(), e, ignore)
}

fn push_name(acc: &mut Vec<String>, n: &String, ignore: &Vec<String>)
    ensures
        names_view(final(acc)@) == name_added(names_view(old(acc)@), n@, names_view(ignore@)),
{
    if names_contain(acc, n) || names_contain(ignore, n) {
        proof {
            assert(names_view(acc@).to_set().contains(n@) ==> names_view(acc@).contains(n@));
            assert(names_view(ignore@).to_set().contains(n@) ==> names_view(ignore@).contains(n@));
        }
    } else {
        proof {
            if names_view(acc@).contains(n@) {
                assert(names_view(acc@).to_set().contains(n@));
            }
            if names_view(ignore@).contains(n@) {
                assert(names_view(ignore@).to_set().contains(n@));
            }
        }
        let ghost before = acc@;
        acc.push(n.clone());
        assert(names_view(acc@) =~= names_view(before).push(n@));
    }
}

fn push_names_of_all(v: &Vec<Element>, ignore: &Vec<String>, acc: &mut Vec<String>)
    ensures
        names_view(final(acc)@) == names_added_all(names_view(old(acc)@), crate::element::view_seq(v@), names_view(ignore@)),
    decreases crate::element::view_seq(v@),
{
    let ghost s = crate::element::view_seq(v@);
    let ghost a0 = names_view(acc@);
    proof {
        crate::element::lemma_view_seq_len(v@);
        assert(s.take(0) =~= Seq::<ElementView>::empty());
    }
    let mut i: usize = 0;
    while i < v.len()
        invariant
            i <= v@.len(),
            s == crate::element::view_seq(v@),
            s.len() == v@.len(),
            a0 == names_view(old(acc)@),
            names_view(acc@) == names_added_all(a0, s.take(i as int), names_view(ignore@)),
        decreases v.len() - i,
    {
        proof {
            crate::element::lemma_view_seq_index(v@, i as int);
            assert(s.take(i + 1).drop_last() =~= s.take(i as int));
            assert(s.take(i + 1).last() == s[i as int]);
            assert(decreases_to!(s => s[i as int]));
        }
        push_unexpanded_names(&v[i], ignore, acc);
        i = i + 1;
    }
    assert(s.take(i as int) =~= s);
}

/// Adds the names `e` still refers to (see `names_added`).
fn push_unexpanded_names(e: &Element, ignore: &Vec<String>, acc: &mut Vec<String>)
    ensures
        names_view(final(acc)@) == names_added(names_view(old(acc)@), e@, names_view(ignore@)),
    decreases e@,
{
    match e {
        Element::Plus(v) => {
            assert(e@ == ElementView::Plus(crate::element::view_seq(v@)));
            assert(decreases_to!(e@ => e@->Plus_0));
            push_names_of_all(v, ignore, acc)
        },
        Element::Multiply(v) => {
            assert(e@ == ElementView::Multiply(crate::element::view_seq(v@)));
            assert(decreases_to!(e@ => e@->Multiply_0));
            push_names_of_all(v, ignore, acc)
        },
        Element::Pow(a, b) => {
            assert(e@ == ElementView::Pow(Box::new(a@), Box::new(b@)));
            assert(decreases_to!(e@ => *(e@->Pow_0)));
            assert(decreases_to!(e@ => *(e@->Pow_1)));
            push_unexpanded_names(a, ignore, acc);
            push_unexpanded_names(b, ignore, acc);
        },
        Element::Negate(a) => {
            assert(decreases_to!(e@ => *(e@->Negate_0)));
            push_unexpanded_names(a, ignore, acc)
        },
        Element::Function { name, arguments } => {
            assert(decreases_to!(e@ => e@->Function_1));
            push_name(acc, name, ignore);
            push_names_of_all(arguments, ignore, acc);
        },
        Element::Variable(n) => push_name(acc, n, ignore),
        Element::VariableOrFunction(n) => push_name(acc, n, ignore),
        _ => {},
    }
}

/// Whether every name of `a` is in `b`.
fn all_names_in(a: &Vec<String>, b: &Vec<String>) -> (r: bool)
    ensures
        r == (forall|i: int| 0 <= i < a@.len() ==> names_view(b@).contains(#[trigger] names_view(a@)[i])),
{
    let mut i: usize = 0;
    while i < a.len()
        invariant
            i <= a@.len(),
            forall|j: int| 0 <= j < i ==> names_view(b@).contains(#[trigger] names_view(a@)[j]),
        decreases a.len() - i,
    {
        assert(names_view(a@)[i as int] == a@[i as int]@);
        if !names_contain(b, &a[i]) {
            assert(!names_view(b@).contains(names_view(a@)[i as int])) by {
                if names_view(b@).contains(names_view(a@)[i as int]) {
                    assert(names_view(b@).to_set().contains(a@[i as int]@));
                }
            }
            return false;
        }
        assert(names_view(b@).contains(names_view(a@)[i as int]));
        i = i + 1;
    }
    true
}

/// Whether `a` and `b` hold the same names.
fn same_names(a: &Vec<String>, b: &Vec<String>) -> (r: bool)
    ensures
        r == (names_view(a@).to_set() == names_view(b@).to_set()),
{
    let x = all_names_in(a, b);
    let y = all_names_in(b, a);
    proof {
        let sa = names_view(a@);
        let sb = names_view(b@);
        if x && y {
            assert forall|n: Seq<char>| sa.to_set().contains(n) <==> sb.to_set().contains(n) by {
                if sa.contains(n) {
                    let j = choose|j: int| 0 <= j < sa.len() && sa[j] == n;
                    assert(sb.contains(sa[j]));
                }
                if sb.contains(n) {
                    let j = choose|j: int| 0 <= j < sb.len() && sb[j] == n;
                    assert(sa.contains(sb[j]));
                }
            }
            assert(sa.to_set() =~= sb.to_set());
        } else if !x {
            let j = choose|j: int| 0 <= j < a@.len() && !sb.contains(#[trigger] sa[j]);
            assert(sa.to_set().contains(sa[j]));
            assert(!sb.to_set().contains(sa[j]));
        } else {
            let j = choose|j: int| 0 <= j < b@.len() && !sa.contains(#[trigger] sb[j]);
            assert(sb.to_set().contains(sb[j]));
            assert(!sa.to_set().contains(sb[j]));
        }
    }
    x && y
}

// ---------------------------------------------------------------------------
// Expansion: putting in the definitions of the names a formula refers to
// ---------------------------------------------------------------------------

pub open spec fn not_found_text(n: Seq<char>) -> Seq<char> {
    "Symbol `"@ + n + "` not found"@
}

pub open spec fn expansion_failed_text() -> Seq<char> {
    "Could not expand formula"@
}

/// The definition of `n` put into `e` (see `symbol_inserted`), with the symbol's
/// simplified formula; an error where `n` is not defined.
pub open spec fn name_inserted(e: ElementView, m: Store, n: Seq<char>) -> Result<ElementView, Seq<char>> {
    match symbol_of(m, n) {
        None => Err(not_found_text(n)),
        Some(sv) => symbol_inserted(e, InsertionView { name: n, parameters: sv.params, formula: sv.optimized }),
    }
}

/// The definitions of `names` put into `e` one after the other; the first error ends it.
pub open spec fn names_inserted(e: ElementView, m: Store, names: Seq<Seq<char>>) -> Result<ElementView, Seq<char>>
    decreases names.len(),
{
    if names.len() == 0 {
        Ok(e)
    } else {
        match names_inserted(e, m, names.drop_last()) {
            Err(x) => Err(x),
            Ok(e1) => name_inserted(e1, m, names.last()),
        }
    }
}

/// Expanding `e` until it refers to no name but those in `ignore`: each round puts in the
/// definitions of all names it still refers to; a round that finds the same names as the
/// round before (`before`) fails. `None` where `fuel` rounds do not suffice.
pub open spec fn expanded(e: ElementView, m: Store, ignore: Seq<Seq<char>>, before: Seq<Seq<char>>, fuel: nat) -> Option<Result<ElementView, Seq<char>>>
    decreases fuel,
{
    let names = unexpanded_names(e, ignore);
    if names.len() == 0 {
        Some(Ok(e))
    } else if names.to_set() == before.to_set() {
        Some(Err(expansion_failed_text()))
    } else if fuel == 0 {
        None
    } else {
        match names_inserted(e, m, names) {
            Err(x) => Some(Err(x)),
            Ok(e2) => expanded(e2, m, ignore, names, (fuel - 1) as nat),
        }
    }
}

/// The simplified formula (see `optimized`), or the formula itself where simplifying
/// would panic.
pub open spec fn reduced(e: ElementView) -> ElementView {
    match optimized(e, u64::MAX as nat) {
        Some(r) => r,
        None => e,
    }
}

/// Simplifying, expanding (see `expanded`) and simplifying again.
pub open spec fn expanded_and_optimized(e: ElementView, m: Store, ignore: Seq<Seq<char>>) -> Option<Result<ElementView, Seq<char>>> {
    match expanded(reduced(e), m, ignore, Seq::empty(), u64::MAX as nat) {
        None => None,
        Some(Err(x)) => Some(Err(x)),
        Some(Ok(x)) => Some(Ok(reduced(x))),
    }
}

proof fn lemma_names_inserted_err(e: ElementView, m: Store, s: Seq<Seq<char>>, n: int, x: Seq<char>)
    requires
        0 <= n <= s.len(),
        names_inserted(e, m, s.take(n)) == Err::<ElementView, Seq<char>>(x),
    ensures
        names_inserted(e, m, s) == Err::<ElementView, Seq<char>>(x),
    decreases s.len() - n,
{
    if n == s.len() {
        assert(s.take(n) =~= s);
    } else {
        assert(s.take(n + 1).drop_last() =~= s.take(n));
        lemma_names_inserted_err(e, m, s, n + 1, x);
    }
}

impl FormulaStore {
    /// The definition of `name` to insert into a formula: its parameters and its expanded
    /// and simplified formula; an error where it is not defined.
    pub fn get_insertion_element_expanded(&self, name: &String) -> (r: Result<InsertionElement, String>)
        requires
            self.wf(),
        ensures
            match r {
                Ok(ins) => symbol_of(self@, name@) matches Some(sv)
                    && ins@ == (InsertionView { name: name@, parameters: sv.params, formula: sv.optimized })
                    && ins.formula.wf(),
                Err(e) => symbol_of(self@, name@) is None && e@ == not_found_text(name@),
            },
    {
        match self.find(name.as_str()) {
            None => {
                let mut text = crate::text::chars_of("Symbol `");
                crate::text::push_str(&mut text, name.as_str());
                crate::text::push_str(&mut text, "` not found");
                let text = crate::text::string_of(&text);
                assert(text@ =~= not_found_text(name@));
                Err(text)
            },
            Some(k) => {
                proof {
                    lemma_index_of(signature_table(self@), name@);
                }
                let sym = &self.symbols[k].1;
                assert(sym.optimized_formula.wf());
                let ins = InsertionElement {
                    name: name.clone(),
                    parameters: clone_params(&sym.params),
                    formula: sym.optimized_formula.duplicate(),
                };
                proof {
                    if ins.parameters is Some {
                        assert(names_of(ins.parameters->0@) =~= names_view(ins.parameters->0@));
                    }
                }
                Ok(ins)
            },
        }
    }

    /// Puts the definitions of all names the formula refers to, except those in `ignore`,
    /// into it until none is left (see `expanded`). `None` where the rounds run out.
    pub fn expand_formula(&self, formula: &mut Element, ignore: &Vec<String>) -> (r: Option<Result<(), String>>)
        requires
            self.wf(),
            old(formula).wf(),
        ensures
            r matches Some(Ok(())) ==> final(formula).wf(),
            match r {
                None => expanded(old(formula)@, self@, names_view(ignore@), Seq::empty(), u64::MAX as nat) is None,
                Some(Err(x)) => expanded(old(formula)@, self@, names_view(ignore@), Seq::empty(), u64::MAX as nat)
                    == Some(Err::<ElementView, Seq<char>>(x@)),
                Some(Ok(())) => expanded(old(formula)@, self@, names_view(ignore@), Seq::empty(), u64::MAX as nat)
                    == Some(Ok::<ElementView, Seq<char>>(final(formula)@)),
            },
    {
        let ghost e0 = formula@;
        let ghost ig = names_view(ignore@);
        let ghost m = self@;
        let mut before: Vec<String> = Vec::new();
        let mut fuel: u64 = u64::MAX;
        assert(names_view(before@) =~= Seq::<Seq<char>>::empty());
        loop
            invariant
                self.wf(),
                m == self@,
                formula.wf(),
                e0 == old(formula)@,
                ig == names_view(ignore@),
                expanded(e0, m, ig, Seq::empty(), u64::MAX as nat) == expanded(formula@, m, ig, names_view(before@), fuel as nat),
            decreases fuel,
        {
            let mut names: Vec<String> = Vec::new();
            assert(names_view(names@) =~= Seq::<Seq<char>>::empty());
            push_unexpanded_names(formula, ignore, &mut names);
            let ghost nv = names_view(names@);
            assert(nv == unexpanded_names(formula@, ig));
            if names.len() == 0 {
                assert(expanded(formula@, m, ig, names_view(before@), fuel as nat) == Some(Ok::<ElementView, Seq<char>>(formula@)));
                return Some(Ok(()));
            }
            if same_names(&names, &before) {
                let text = crate::text::string_of(&crate::text::chars_of("Could not expand formula"));
                return Some(Err(text));
            }
            if fuel == 0 {
                return None;
            }
            let ghost start = formula@;
            let mut i: usize = 0;
            assert(nv.take(0) =~= Seq::<Seq<char>>::empty());
            while i < names.len()
                invariant
                    self.wf(),
                    m == self@,
                    formula.wf(),
                    i <= names@.len(),
                    nv == names_view(names@),
                    nv.len() == names@.len(),
                    e0 == old(formula)@,
                    ig == names_view(ignore@),
                    nv == unexpanded_names(start, ig),
                    nv.len() > 0,
                    nv.to_set() != names_view(before@).to_set(),
                    fuel > 0,
                    expanded(e0, m, ig, Seq::empty(), u64::MAX as nat) == expanded(start, m, ig, names_view(before@), fuel as nat),
                    names_inserted(start, m, nv.take(i as int)) == Ok::<ElementView, Seq<char>>(formula@),
                decreases names.len() - i,
            {
                assert(nv.take(i + 1).drop_last() =~= nv.take(i as int));
                assert(nv.take(i + 1).last() == names@[i as int]@);
                match self.get_insertion_element_expanded(&names[i]) {
                    Err(x) => {
                        proof {
                            lemma_names_inserted_err(start, m, nv, i + 1, x@);
                        }
                        return Some(Err(x));
                    },
                    Ok(ins) => {
                        match formula.insert_symbol(&ins) {
                            Err(x) => {
                                proof {
                                    lemma_names_inserted_err(start, m, nv, i + 1, x@);
                                }
                                return Some(Err(x));
                            },
                            Ok(()) => {},
                        }
                    },
                }
                i = i + 1;
            }
            assert(nv.take(i as int) =~= nv);
            before = names;
            fuel = fuel - 1;
        }
    }

    /// Simplifies the formula, expands it and simplifies it again (see
    /// `expanded_and_optimized`). `None` where the expansion rounds run out.
    pub fn expand_and_optimize(&self, formula: &mut Element, ignore: &Vec<String>) -> (r: Option<Result<(), String>>)
        requires
            self.wf(),
            old(formula).wf(),
        ensures
            r matches Some(Ok(())) ==> final(formula).wf(),
            match r {
                None => expanded_and_optimized(old(formula)@, self@, names_view(ignore@)) is None,
                Some(Err(x)) => expanded_and_optimized(old(formula)@, self@, names_view(ignore@))
                    == Some(Err::<ElementView, Seq<char>>(x@)),
                Some(Ok(())) => expanded_and_optimized(old(formula)@, self@, names_view(ignore@))
                    == Some(Ok::<ElementView, Seq<char>>(final(formula)@)),
            },
    {
        formula.optimize_and_reduce();
        match self.expand_formula(formula, ignore) {
            None => None,
            Some(Err(x)) => Some(Err(x)),
            Some(Ok(())) => {
                formula.optimize_and_reduce();
                Some(Ok(()))
            },
        }
    }
}

// ---------------------------------------------------------------------------
// Defining symbols
// ---------------------------------------------------------------------------

pub open spec fn store_requires_text(req: Table) -> Seq<char> {
    "The formula requires the following elements to be defined: "@ + table_text(req)
}

/// The parameter names of a declaration, none for a variable.
pub open spec fn parameter_names(args: Option<Parameters>) -> Seq<Seq<char>> {
    match args {
        Some(a) => a.0,
        None => Seq::empty(),
    }
}

/// The symbol that a definition gives: its signature, its parameters, its formula as
/// written and the formula expanded and simplified.
pub open spec fn defined_symbol(args: Option<Parameters>, def: ElementView, optimized: ElementView) -> SymbolView {
    SymbolView {
        signature: defined_signature(args),
        params: match args {
            Some(a) => Some(a.0),
            None => None,
        },
        formula: def,
        optimized: optimized,
    }
}

/// Defining a symbol by its left side `sig` and its formula `def`: the left side must
/// declare a name (with its parameters), which must be new; the formula's use of the
/// defined symbols must fit their signatures (the functions of open argument count among
/// them are looked at from the start), and it must need no symbol that is neither a
/// parameter nor defined; then the formula is expanded and simplified, its parameters left
/// as they are. The result is the name and the new symbol. `None` where a step panics,
/// passes a signature on deeper than `update_fuel` allows, or its expansion rounds run out.
pub open spec fn symbol_defined(m: Store, sig: ElementView, def: ElementView) -> Option<Result<(Seq<char>, SymbolView), Seq<char>>> {
    match declaration_of(sig) {
        Err(e) => Some(Err(e)),
        Ok((name, args)) => if has_name(signature_table(m), name) {
            Some(Err(already_defined_text(name)))
        } else {
            let t = signature_table(m);
            match symbols_used(variadic_only(t), def) {
                None => None,
                Some(u) => match signatures_refined(args, u, def, t) {
                    None => None,
                    Some(Err(e)) => Some(Err(e)),
                    Some(Ok((args2, req))) => if req.len() > 0 {
                        Some(Err(store_requires_text(req)))
                    } else {
                        match expanded_and_optimized(def, m, parameter_names(args2)) {
                            None => None,
                            Some(Err(e)) => Some(Err(e)),
                            Some(Ok(x)) => Some(Ok((name, defined_symbol(args2, def, x)))),
                        }
                    },
                },
            }
        },
    }
}

/// The text splits and parses, and its formula, part-way parsed, already holds a number
/// before its texts are read as numbers (see `numbers_only_read`; parsing has no step that
/// makes one, which is not proved here).
pub open spec fn numbers_before_reading(s: Seq<char>) -> bool {
    definition_parts(s) matches Some(Ok(_)) && !numbers_only_read(definition_right(s))
}

/// Defining a symbol from a text `left=right` (see `definition_parts` and
/// `symbol_defined`).
pub open spec fn text_defined(m: Store, s: Seq<char>) -> Option<Result<(Seq<char>, SymbolView), Seq<char>>> {
    match definition_parts(s) {
        None => None,
        Some(Err(e)) => Some(Err(e)),
        Some(Ok((sig, def))) => symbol_defined(m, sig, def),
    }
}

/// The store after a definition's outcome: with the new symbol at the end, unless it was a
/// dry run or an error.
pub open spec fn store_after(m: Store, added: (Seq<char>, SymbolView), dry_run: bool) -> Store {
    if dry_run { m } else { m.push(added) }
}

impl FormulaStore {
    proof fn lemma_push_keeps_wf(&self, old_store: Self, name: Seq<char>)
        requires
            old_store.wf(),
            self.symbols@.len() == old_store.symbols@.len() + 1,
            forall|i: int| 0 <= i < old_store.symbols@.len() ==> self.symbols@[i] == old_store.symbols@[i],
            self.symbols@.last().1.optimized_formula.wf(),
            self.symbols@.last().0@ == name,
            !has_name(signature_table(old_store@), name),
        ensures
            self.wf(),
            self@ == old_store@.push((name, self.symbols@.last().1@)),
    {
        assert(self@ =~= old_store@.push((name, self.symbols@.last().1@)));
        let t = signature_table(old_store@);
        lemma_index_of(t, name);
        assert forall|i: int, j: int| 0 <= i < j < self@.len() implies self@[i].0 != self@[j].0 by {
            if j == self@.len() - 1 {
                assert(t[i].0 != name);
            } else {
                assert(old_store@[i].0 != old_store@[j].0);
            }
        }
        assert forall|i: int| 0 <= i < self.symbols@.len() implies (#[trigger] self.symbols@[i]).1.optimized_formula.wf() by {
            if i < old_store.symbols@.len() {
                assert(old_store.symbols@[i].1.optimized_formula.wf());
            }
        }
    }

    /// Adds the symbol under `name`, unless it is a dry run; an error where `name` is
    /// defined already.
    fn add_symbol_new(&mut self, name: &String, symbol: Symbol, dry_run: bool) -> (r: Result<(), String>)
        requires
            old(self).wf(),
            symbol.optimized_formula.wf(),
        ensures
            final(self).wf(),
            match r {
                Ok(()) => !has_name(signature_table(old(self)@), name@)
                    && final(self)@ == store_after(old(self)@, (name@, symbol@), dry_run),
                Err(e) => has_name(signature_table(old(self)@), name@)
                    && e@ == already_defined_text(name@) && final(self)@ == old(self)@,
            },
    {
        if self.find(name.as_str()).is_some() {
            let mut text = crate::text::chars_of("The formula ");
            crate::text::push_str(&mut text, name.as_str());
            crate::text::push_str(&mut text, " is already defined");
            let text = crate::text::string_of(&text);
            assert(text@ =~= already_defined_text(name@));
            return Err(text);
        }
        if !dry_run {
            let ghost old_store = FormulaStore { symbols: self.symbols };
            let ghost sv = symbol@;
            self.symbols.push((name.clone(), symbol));
            proof {
                self.lemma_push_keeps_wf(old_store, name@);
            }
        }
        Ok(())
    }

    /// Defines the symbol that `sig` declares with the formula `def` (see
    /// `symbol_defined`); the store changes only on success and not on a dry run. `None`
    /// where a step panics or its rounds run out.
    pub fn add_symbol_from_sig_and_def(&mut self, sig: &Element, def: &Element, dry_run: bool) -> (r: Option<Result<NamedSymbol, String>>)
        requires
            old(self).wf(),
            def.wf(),
        ensures
            final(self).wf(),
            match r {
                None => symbol_defined(old(self)@, sig@, def@) is None && final(self)@ == old(self)@,
                Some(Err(e)) => symbol_defined(old(self)@, sig@, def@) == Some(Err::<(Seq<char>, SymbolView), Seq<char>>(e@))
                    && final(self)@ == old(self)@,
                Some(Ok(ns)) => symbol_defined(old(self)@, sig@, def@) == Some(Ok::<(Seq<char>, SymbolView), Seq<char>>((ns.name@, ns.symbol@)))
                    && final(self)@ == store_after(old(self)@, (ns.name@, ns.symbol@), dry_run),
            },
    {
        let decl = match SymbolDeclarationData::from_formula(sig) {
            Ok(d) => d,
            Err(e) => {
                return Some(Err(e));
            },
        };
        let SymbolDeclarationData { name, function_args } = decl;
        let ghost args0 = opt_args_view(function_args);
        if self.find(name.as_str()).is_some() {
            let mut text = crate::text::chars_of("The formula ");
            crate::text::push_str(&mut text, name.as_str());
            crate::text::push_str(&mut text, " is already defined");
            let text = crate::text::string_of(&text);
            assert(text@ =~= already_defined_text(name@));
            return Some(Err(text));
        }
        let defined = self.signatures();
        let mut required = self.variadic_signatures();
        if !required.add_all_undefined_symbols_of_formula(def) {
            return None;
        }
        let mut args = function_args;
        match Signatures::refine_signature_and_undefined(&mut args, &mut required, def, &defined) {
            None => {
                return None;
            },
            Some(Err(e)) => {
                return Some(Err(e));
            },
            Some(Ok(())) => {},
        }
        if required.len() > 0 {
            let mut text = crate::text::chars_of("The formula requires the following elements to be defined: ");
            required.push_table_text(&mut text);
            let text = crate::text::string_of(&text);
            assert(text@ =~= store_requires_text(required@));
            return Some(Err(text));
        }
        let ignore: Vec<String> = match &args {
            Some(a) => clone_names(&a.names),
            None => Vec::new(),
        };
        assert(names_view(ignore@) =~= parameter_names(opt_args_view(args)));
        let mut optimized_formula = def.duplicate();
        match self.expand_and_optimize(&mut optimized_formula, &ignore) {
            None => {
                return None;
            },
            Some(Err(e)) => {
                return Some(Err(e));
            },
            Some(Ok(())) => {},
        }
        let ghost args2 = opt_args_view(args);
        let (signature, params) = match args {
            Some(a) => {
                proof {
                    let p0 = args0.unwrap();
                    let p1 = a.view_args();
                    assert forall|i: int| 0 <= i < p1.0.len() implies #[trigger] has_name(p1.1, p1.0[i]) by {
                        assert(has_name(p0.1, p0.0[i]));
                        crate::symbols::lemma_index_of_same_names(p0.1, p1.1, p0.0[i]);
                    }
                }
                let sigs = a.get_signatures_in_right_order();
                (Signature::Function(sigs), Some(a.names))
            },
            None => (Signature::Number, None),
        };
        let symbol = Symbol { signature, params, formula: def.duplicate(), optimized_formula };
        assert(symbol@ == defined_symbol(args2, def@, symbol@.optimized));
        let stored = symbol.duplicate();
        match self.add_symbol_new(&name, stored, dry_run) {
            Ok(()) => {},
            Err(e) => {
                return Some(Err(e));
            },
        }
        Some(Ok(NamedSymbol { name, symbol }))
    }
}

/// The symbol of a built-in constant.
pub open spec fn constant_symbol(c: ExpressionNumType) -> SymbolView {
    SymbolView {
        signature: SignatureView::Number,
        params: None,
        formula: ElementView::NumberWithExpression(c),
        optimized: ElementView::NumberWithExpression(c),
    }
}

/// The signature of a built-in function: a function of that many numbers, or of any
/// number of them from some count on.
pub open spec fn builtin_signature(p: ParamCount) -> SignatureView {
    match p {
        ParamCount::Exactly(n) => SignatureView::Function(Seq::new(n as nat, |i: int| SignatureView::Number)),
        ParamCount::AtLeast(n) => SignatureView::FunctionNOrMoreParams(n as nat),
    }
}

/// The symbol of a built-in function.
pub open spec fn function_symbol(f: ExpressionFunType) -> SymbolView {
    SymbolView {
        signature: builtin_signature(f.param_count_spec()),
        params: Some(Seq::empty()),
        formula: ElementView::FunctionWithExpression(Seq::empty(), f),
        optimized: ElementView::FunctionWithExpression(Seq::empty(), f),
    }
}

fn numbers_signature(n: usize) -> (r: Vec<Signature>)
    ensures
        signature_views(r@) == Seq::new(n as nat, |i: int| SignatureView::Number),
{
    let mut r: Vec<Signature> = Vec::new();
    let mut i: usize = 0;
    while i < n
        invariant
            i <= n,
            r@.len() == i,
            forall|j: int| 0 <= j < i ==> r@[j] == Signature::Number,
        decreases n - i,
    {
        r.push(Signature::Number);
        i = i + 1;
    }
    proof {
        lemma_signature_views(r@);
        assert(signature_views(r@) =~= Seq::new(n as nat, |i: int| SignatureView::Number));
    }
    r
}

impl FormulaStore {
    /// Defines a symbol from a text `left=right` (see `text_defined`); the store changes
    /// only on success and not on a dry run. `None`, with the store unchanged, where a step
    /// panics or its rounds run out, and also where the formula holds a number before its
    /// texts are read as numbers (see `numbers_before_reading`).
    pub fn add_symbol_from_string(&mut self, string: &str, dry_run: bool) -> (r: Option<Result<NamedSymbol, String>>)
        requires
            old(self).wf(),
        ensures
            final(self).wf(),
            match r {
                None => final(self)@ == old(self)@
                    && (text_defined(old(self)@, string@) is None || numbers_before_reading(string@)),
                Some(Err(e)) => text_defined(old(self)@, string@) == Some(Err::<(Seq<char>, SymbolView), Seq<char>>(e@))
                    && final(self)@ == old(self)@,
                Some(Ok(ns)) => text_defined(old(self)@, string@) == Some(Ok::<(Seq<char>, SymbolView), Seq<char>>((ns.name@, ns.symbol@)))
                    && final(self)@ == store_after(old(self)@, (ns.name@, ns.symbol@), dry_run),
            },
    {
        match crate::symbols::parse_definition(string) {
            None => None,
            Some(Err(e)) => Some(Err(e)),
            Some(Ok((sig, def))) => {
                if !def.is_well_formed() {
                    return None;
                }
                self.add_symbol_from_sig_and_def(&sig, &def, dry_run)
            },
        }
    }

    /// Defines a built-in constant under `name`; an error where `name` is defined already.
    pub fn add_expression_var(&mut self, name: &str, expr_value: ExpressionNumType, dry_run: bool) -> (r: Result<(), String>)
        requires
            old(self).wf(),
        ensures
            final(self).wf(),
            match r {
                Ok(()) => !has_name(signature_table(old(self)@), name@)
                    && final(self)@ == store_after(old(self)@, (name@, constant_symbol(expr_value)), dry_run),
                Err(e) => has_name(signature_table(old(self)@), name@)
                    && e@ == already_defined_text(name@) && final(self)@ == old(self)@,
            },
    {
        let formula = Element::NumberWithExpression { expr_value };
        let symbol = Symbol {
            signature: Signature::Number,
            params: None,
            formula: Element::NumberWithExpression { expr_value },
            optimized_formula: formula,
        };
        let name = crate::text::string_of(&crate::text::chars_of(name));
        self.add_symbol_new(&name, symbol, dry_run)
    }

    /// Defines a built-in function under `name`; an error where `name` is defined already.
    pub fn add_expression_fun(&mut self, name: &str, expr_value: ExpressionFunType, dry_run: bool) -> (r: Result<(), String>)
        requires
            old(self).wf(),
        ensures
            final(self).wf(),
            match r {
                Ok(()) => !has_name(signature_table(old(self)@), name@)
                    && final(self)@ == store_after(old(self)@, (name@, function_symbol(expr_value)), dry_run),
                Err(e) => has_name(signature_table(old(self)@), name@)
                    && e@ == already_defined_text(name@) && final(self)@ == old(self)@,
            },
    {
        let signature = match expr_value.get_param_count() {
            ParamCount::Exactly(n) => Signature::Function(numbers_signature(n)),
            ParamCount::AtLeast(n) => Signature::FunctionNOrMoreParams(n),
        };
        assert(signature@ == builtin_signature(expr_value.param_count_spec()));
        let params: Vec<String> = Vec::new();
        let args1: Vec<Element> = Vec::new();
        let args2: Vec<Element> = Vec::new();
        assert(crate::element::view_seq(args1@) =~= Seq::<ElementView>::empty());
        assert(crate::element::view_seq(args2@) =~= Seq::<ElementView>::empty());
        let symbol = Symbol {
            signature,
            params: Some(params),
            formula: Element::FunctionWithExpression { arguments: args1, expr_value },
            optimized_formula: Element::FunctionWithExpression { arguments: args2, expr_value },
        };
        assert(names_view(params@) =~= Seq::<Seq<char>>::empty());
        assert(symbol@.formula == ElementView::FunctionWithExpression(Seq::empty(), expr_value));
        assert(symbol@ == function_symbol(expr_value));
        let name = crate::text::string_of(&crate::text::chars_of(name));
        self.add_symbol_new(&name, symbol, dry_run)
    }
}

// ---------------------------------------------------------------------------
// The default symbols
// ---------------------------------------------------------------------------

/// One of the definitions every new calculator starts with.
pub enum DefaultDefinition {
    Function(Seq<char>, ExpressionFunType),
    Constant(Seq<char>, ExpressionNumType),
    /// A definition by its left side and its formula, as trees.
    Formula(ElementView, ElementView),
    Text(Seq<char>),
}

/// `x^-1`, as a formula writes a division.
pub open spec fn inverse_view(x: ElementView) -> ElementView {
    ElementView::Pow(Box::new(x), Box::new(ElementView::Negate(Box::new(crate::element::one_view()))))
}

/// The left side `deg(rad)`.
pub open spec fn deg_signature() -> ElementView {
    ElementView::Function("deg"@, seq![ElementView::VariableOrFunction("rad"@)])
}

/// The formula `rad/pi*180`: radians to degrees.
pub open spec fn deg_formula() -> ElementView {
    ElementView::Multiply(seq![
        ElementView::Multiply(seq![ElementView::Variable("rad"@), inverse_view(ElementView::Variable("pi"@))]),
        ElementView::Number(NumberView::Rational(180, 1)),
    ])
}

/// The left side `rad(deg)`.
pub open spec fn rad_signature() -> ElementView {
    ElementView::Function("rad"@, seq![ElementView::VariableOrFunction("deg"@)])
}

/// The formula `deg/180*pi`: degrees to radians.
pub open spec fn rad_formula() -> ElementView {
    ElementView::Multiply(seq![
        ElementView::Multiply(seq![ElementView::Variable("deg"@), inverse_view(ElementView::Number(NumberView::Rational(180, 1)))]),
        ElementView::Variable("pi"@),
    ])
}

/// The number of default definitions.
pub open spec fn default_count() -> int {
    26
}

/// The default definition `i`: the built-in functions, the constants, and four functions
/// defined by formulas.
pub open spec fn default_definition(i: int) -> DefaultDefinition {
    if i == 0 {
        DefaultDefinition::Function("sin"@, ExpressionFunType::Sin)
    } else if i == 1 {
        DefaultDefinition::Function("asin"@, ExpressionFunType::Asin)
    } else if i == 2 {
        DefaultDefinition::Function("cos"@, ExpressionFunType::Cos)
    } else if i == 3 {
        DefaultDefinition::Function("acos"@, ExpressionFunType::Acos)
    } else if i == 4 {
        DefaultDefinition::Function("tan"@, ExpressionFunType::Tan)
    } else if i == 5 {
        DefaultDefinition::Function("atan"@, ExpressionFunType::Atan)
    } else if i == 6 {
        DefaultDefinition::Function("floor"@, ExpressionFunType::Floor)
    } else if i == 7 {
        DefaultDefinition::Function("ceil"@, ExpressionFunType::Ceil)
    } else if i == 8 {
        DefaultDefinition::Function("round"@, ExpressionFunType::Round)
    } else if i == 9 {
        DefaultDefinition::Function("abs"@, ExpressionFunType::Abs)
    } else if i == 10 {
        DefaultDefinition::Function("rem"@, ExpressionFunType::Rem)
    } else if i == 11 {
        DefaultDefinition::Function("log2"@, ExpressionFunType::Log2)
    } else if i == 12 {
        DefaultDefinition::Function("log10"@, ExpressionFunType::Log10)
    } else if i == 13 {
        DefaultDefinition::Function("ln"@, ExpressionFunType::Ln)
    } else if i == 14 {
        DefaultDefinition::Function("fac"@, ExpressionFunType::Fac)
    } else if i == 15 {
        DefaultDefinition::Function("avg"@, ExpressionFunType::Avg)
    } else if i == 16 {
        DefaultDefinition::Function("median"@, ExpressionFunType::Median)
    } else if i == 17 {
        DefaultDefinition::Function("max"@, ExpressionFunType::Max)
    } else if i == 18 {
        DefaultDefinition::Function("min"@, ExpressionFunType::Min)
    } else if i == 19 {
        DefaultDefinition::Function("sum"@, ExpressionFunType::Sum)
    } else if i == 20 {
        DefaultDefinition::Constant("pi"@, ExpressionNumType::Pi)
    } else if i == 21 {
        DefaultDefinition::Constant("e"@, ExpressionNumType::E)
    } else if i == 22 {
        DefaultDefinition::Formula(deg_signature(), deg_formula())
    } else if i == 23 {
        DefaultDefinition::Formula(rad_signature(), rad_formula())
    } else if i == 24 {
        DefaultDefinition::Text("sqrt(x)=x^(1/2)"@)
    } else {
        DefaultDefinition::Text("binomial(n, k) = fac(n) / (fac(n - k) * fac(k))"@)
    }
}

/// What a formula made of the variable `v`, the constant `pi`, exact numbers, products and
/// inverses (`x^-1`) computes: `v` to the power `a`, times the fraction `c`, times π to the
/// power `k`, as `(a, c, k)`; `None` for a formula of any other kind.
pub open spec fn scaling(e: ElementView, v: Seq<char>) -> Option<(int, Ratio, int)>
    decreases e,
{
    match e {
        ElementView::Variable(n) => if n == v {
            Some((1, (1, 1), 0))
        } else if n == "pi"@ {
            Some((0, (1, 1), 1))
        } else {
            None
        },
        ElementView::Number(NumberView::Rational(a, b)) => Some((0, (a, b), 0)),
        ElementView::Pow(x, y) => if *y == ElementView::Negate(Box::new(crate::element::one_view())) {
            match scaling(*x, v) {
                Some((a, c, k)) => if c.0 != 0 { Some((-a, (c.1, c.0), -k)) } else { None },
                None => None,
            }
        } else {
            None
        },
        ElementView::Multiply(s) => scaling_product(s, v),
        _ => None,
    }
}

/// `scaling` of a product: the powers of `v` and π add up, the fractions multiply.
pub open spec fn scaling_product(s: Seq<ElementView>, v: Seq<char>) -> Option<(int, Ratio, int)>
    decreases s,
{
    if s.len() == 0 {
        Some((0, (1, 1), 0))
    } else {
        match (scaling_product(s.drop_last(), v), scaling(s.last(), v)) {
            (Some(p), Some(q)) => Some((p.0 + q.0, (p.1.0 * q.1.0, p.1.1 * q.1.1), p.2 + q.2)),
            _ => None,
        }
    }
}

/// A definition stores the formula it was given, under the name its left side declares.
pub proof fn law_definition_stores_its_formula(m: Store, sig: ElementView, def: ElementView, name: Seq<char>, sv: SymbolView)
    requires
        symbol_defined(m, sig, def) == Some(Ok::<(Seq<char>, SymbolView), Seq<char>>((name, sv))),
    ensures
        sv.formula == def,
        declaration_of(sig) matches Ok((n, _)) && n == name,
{
}

/// `rad` converts degrees to radians: its formula is its parameter `deg` times π/180, so
/// `rad(180)` is π.
pub proof fn law_rad_converts_degrees_to_radians()
    ensures
        match default_definition(23) {
            DefaultDefinition::Formula(sig, def) => sig == ElementView::Function("rad"@, seq![ElementView::VariableOrFunction("deg"@)])
                && match scaling(def, "deg"@) {
                    Some((a, c, k)) => a == 1 && k == 1 && c.1 != 0 && 180 * c.0 == c.1,
                    None => false,
                },
            _ => false,
        },
{
    let d = rad_formula();
    let v = "deg"@;
    assert("pi"@ != v) by {
        reveal_strlit("deg");
        reveal_strlit("pi");
        assert("pi"@[0] != "deg"@[0]);
    }
    let x = ElementView::Variable(v);
    let inv = inverse_view(ElementView::Number(NumberView::Rational(180, 1)));
    assert(scaling(x, v) == Some((1int, (1int, 1int), 0int)));
    assert(scaling(ElementView::Number(NumberView::Rational(180, 1)), v) == Some((0int, (180int, 1int), 0int)));
    assert(scaling(inv, v) == Some((0int, (1int, 180int), 0int)));
    let one = seq![x];
    assert(one.drop_last() =~= Seq::<ElementView>::empty());
    assert(one.last() == x);
    assert(scaling_product(Seq::<ElementView>::empty(), v) == Some((0int, (1int, 1int), 0int)));
    assert(scaling_product(one, v) == Some((1int, (1int, 1int), 0int)));
    let inner = seq![x, inv];
    assert(inner.drop_last() =~= one);
    assert(inner.last() == inv);
    assert(scaling_product(inner, v) == Some((1int, (1int, 180int), 0int)));
    let pi = ElementView::Variable("pi"@);
    assert(scaling(pi, v) == Some((0int, (1int, 1int), 1int)));
    let m = ElementView::Multiply(inner);
    assert(scaling(m, v) == Some((1int, (1int, 180int), 0int)));
    let first = seq![m];
    assert(first.drop_last() =~= Seq::<ElementView>::empty());
    assert(first.last() == m);
    assert(scaling_product(first, v) == Some((1int, (1int, 180int), 0int)));
    let outer = seq![m, pi];
    assert(outer.drop_last() =~= first);
    assert(outer.last() == pi);
    assert(scaling_product(outer, v) == Some((1int, (1int, 180int), 1int)));
    assert(d == ElementView::Multiply(outer));
    assert(scaling(d, v) == Some((1int, (1int, 180int), 1int)));
}

/// `deg` and `rad` undo each other: `deg` multiplies by 180/π and `rad` by π/180, so
/// `rad(deg(x)) = x` and `deg(rad(x)) = x`.
pub proof fn law_deg_and_rad_are_inverse()
    ensures
        match (default_definition(22), default_definition(23)) {
            (DefaultDefinition::Formula(sig1, def1), DefaultDefinition::Formula(sig2, def2)) =>
                sig1 == ElementView::Function("deg"@, seq![ElementView::VariableOrFunction("rad"@)])
                && match (scaling(def1, "rad"@), scaling(def2, "deg"@)) {
                    (Some((a1, c1, k1)), Some((a2, c2, k2))) => a1 == 1 && a2 == 1 && k1 + k2 == 0
                        && c1.1 != 0 && c2.1 != 0 && c1.0 * c2.0 == c1.1 * c2.1,
                    _ => false,
                },
            _ => false,
        },
{
    let d = deg_formula();
    let v = "rad"@;
    assert("pi"@ != v) by {
        reveal_strlit("rad");
        reveal_strlit("pi");
        assert("pi"@[0] != "rad"@[0]);
    }
    let x = ElementView::Variable(v);
    let pi = ElementView::Variable("pi"@);
    let inv = inverse_view(pi);
    assert(scaling(x, v) == Some((1int, (1int, 1int), 0int)));
    assert(scaling(pi, v) == Some((0int, (1int, 1int), 1int)));
    assert(scaling(inv, v) == Some((0int, (1int, 1int), -1int)));
    let one = seq![x];
    assert(one.drop_last() =~= Seq::<ElementView>::empty());
    assert(one.last() == x);
    assert(scaling_product(Seq::<ElementView>::empty(), v) == Some((0int, (1int, 1int), 0int)));
    assert(scaling_product(one, v) == Some((1int, (1int, 1int), 0int)));
    let inner = seq![x, inv];
    assert(inner.drop_last() =~= one);
    assert(inner.last() == inv);
    assert(scaling_product(inner, v) == Some((1int, (1int, 1int), -1int)));
    let m = ElementView::Multiply(inner);
    assert(scaling(m, v) == Some((1int, (1int, 1int), -1int)));
    let k = ElementView::Number(NumberView::Rational(180, 1));
    assert(scaling(k, v) == Some((0int, (180int, 1int), 0int)));
    let first = seq![m];
    assert(first.drop_last() =~= Seq::<ElementView>::empty());
    assert(first.last() == m);
    assert(scaling_product(first, v) == Some((1int, (1int, 1int), -1int)));
    let outer = seq![m, k];
    assert(outer.drop_last() =~= first);
    assert(outer.last() == k);
    assert(scaling_product(outer, v) == Some((1int, (180int, 1int), -1int)));
    assert(d == ElementView::Multiply(outer));
    assert(scaling(d, v) == Some((1int, (180int, 1int), -1int)));
    assert(default_definition(22) == DefaultDefinition::Formula(deg_signature(), deg_formula()));
    assert(default_definition(23) == DefaultDefinition::Formula(rad_signature(), rad_formula()));
    law_rad_converts_degrees_to_radians();
    let r2 = scaling(rad_formula(), "deg"@);
    assert(r2 is Some);
    let c2 = r2->Some_0.1;
    assert(r2->Some_0.0 == 1 && r2->Some_0.2 == 1 && c2.1 != 0 && 180 * c2.0 == c2.1);
    assert(180 * c2.0 == 1 * c2.1);
    assert(deg_signature() == ElementView::Function("deg"@, seq![ElementView::VariableOrFunction("rad"@)]));
}

/// The store after one definition, or its error.
pub open spec fn definition_step(m: Store, d: DefaultDefinition) -> Option<Result<Store, Seq<char>>> {
    match d {
        DefaultDefinition::Function(n, f) => if has_name(signature_table(m), n) {
            Some(Err(already_defined_text(n)))
        } else {
            Some(Ok(m.push((n, function_symbol(f)))))
        },
        DefaultDefinition::Constant(n, c) => if has_name(signature_table(m), n) {
            Some(Err(already_defined_text(n)))
        } else {
            Some(Ok(m.push((n, constant_symbol(c)))))
        },
        DefaultDefinition::Formula(sig, def) => match symbol_defined(m, sig, def) {
            None => None,
            Some(Err(e)) => Some(Err(e)),
            Some(Ok(a)) => Some(Ok(m.push(a))),
        },
        DefaultDefinition::Text(s) => match text_defined(m, s) {
            None => None,
            Some(Err(e)) => Some(Err(e)),
            Some(Ok(a)) => Some(Ok(m.push(a))),
        },
    }
}

/// The first `k` default definitions made one after the other: the store after them, and
/// the error that ended them, if one did. `None` where a step panics or its rounds run out.
pub open spec fn defaults_applied(m: Store, k: int) -> Option<(Store, Option<Seq<char>>)>
    decreases k,
{
    if k <= 0 {
        Some((m, None))
    } else {
        match defaults_applied(m, k - 1) {
            None => None,
            Some((m1, Some(e))) => Some((m1, Some(e))),
            Some((m1, None)) => match definition_step(m1, default_definition(k - 1)) {
                None => None,
                Some(Err(e)) => Some((m1, Some(e))),
                Some(Ok(m2)) => Some((m2, None)),
            },
        }
    }
}

/// A definition step on which the outcome is left open: its definition is undefined (see
/// `symbol_defined` and `text_defined`), or the formula of a text holds a number before its
/// texts are read as numbers (see `numbers_before_reading`).
pub open spec fn text_step_open(m: Store, d: DefaultDefinition) -> bool {
    match d {
        DefaultDefinition::Formula(sig, def) => symbol_defined(m, sig, def) is None,
        DefaultDefinition::Text(s) => text_defined(m, s) is None || numbers_before_reading(s),
        _ => false,
    }
}

/// The two elements as a list.
fn pair_of(a: Element, b: Element) -> (v: Vec<Element>)
    ensures
        crate::element::view_seq(v@) == seq![a@, b@],
        a.wf() && b.wf() ==> forall|i: int| 0 <= i < v@.len() ==> (#[trigger] v@[i]).wf(),
{
    let mut v: Vec<Element> = Vec::new();
    proof {
        crate::element::lemma_view_seq_push(v@, a);
        assert(crate::element::view_seq(v@) =~= Seq::<ElementView>::empty());
    }
    v.push(a);
    proof {
        crate::element::lemma_view_seq_push(v@, b);
    }
    v.push(b);
    assert(crate::element::view_seq(v@) =~= seq![v@[0]@, v@[1]@]);
    v
}

/// The left side and the formula of `deg` (see `deg_signature` and `deg_formula`).
fn deg_definition() -> (r: (Element, Element))
    ensures
        r.0@ == deg_signature(),
        r.1@ == deg_formula(),
        r.1.wf(),
{
    let mut args: Vec<Element> = Vec::new();
    let a = crate::element::var_or_fun("rad");
    proof {
        crate::element::lemma_view_seq_push(args@, a);
        assert(crate::element::view_seq(args@) =~= Seq::<ElementView>::empty());
    }
    args.push(a);
    assert(crate::element::view_seq(args@) =~= seq![ElementView::VariableOrFunction("rad"@)]);
    let sig = crate::element::fun("deg", args);
    let inner = crate::element::mul(pair_of(crate::element::var("rad"), crate::element::inv(crate::element::var("pi"))));
    let k = crate::element::num_int(180);
    assert(k@ == ElementView::Number(NumberView::Rational(180, 1)));
    let def = crate::element::mul(pair_of(inner, k));
    (sig, def)
}

/// The left side and the formula of `rad` (see `rad_signature` and `rad_formula`).
fn rad_definition() -> (r: (Element, Element))
    ensures
        r.0@ == rad_signature(),
        r.1@ == rad_formula(),
        r.1.wf(),
{
    let mut args: Vec<Element> = Vec::new();
    let a = crate::element::var_or_fun("deg");
    proof {
        crate::element::lemma_view_seq_push(args@, a);
        assert(crate::element::view_seq(args@) =~= Seq::<ElementView>::empty());
    }
    args.push(a);
    assert(crate::element::view_seq(args@) =~= seq![ElementView::VariableOrFunction("deg"@)]);
    let sig = crate::element::fun("rad", args);
    let k = crate::element::num_int(180);
    assert(k@ == ElementView::Number(NumberView::Rational(180, 1)));
    let inner = crate::element::mul(pair_of(crate::element::var("deg"), crate::element::inv(k)));
    let def = crate::element::mul(pair_of(inner, crate::element::var("pi")));
    (sig, def)
}

impl FormulaStore {
    fn add_defining_formula(&mut self, sig: &Element, def: &Element) -> (r: Option<Result<(), String>>)
        requires
            old(self).wf(),
            def.wf(),
        ensures
            final(self).wf(),
            match r {
                None => final(self)@ == old(self)@ && symbol_defined(old(self)@, sig@, def@) is None,
                Some(Err(e)) => symbol_defined(old(self)@, sig@, def@) == Some(Err::<(Seq<char>, SymbolView), Seq<char>>(e@))
                    && final(self)@ == old(self)@,
                Some(Ok(())) => symbol_defined(old(self)@, sig@, def@) matches Some(Ok(a)) && final(self)@ == old(self)@.push(a),
            },
    {
        match self.add_symbol_from_sig_and_def(sig, def, false) {
            None => None,
            Some(Err(e)) => Some(Err(e)),
            Some(Ok(_)) => Some(Ok(())),
        }
    }

    fn add_defining_text(&mut self, text: &str) -> (r: Option<Result<(), String>>)
        requires
            old(self).wf(),
        ensures
            final(self).wf(),
            match r {
                None => final(self)@ == old(self)@
                    && (text_defined(old(self)@, text@) is None || numbers_before_reading(text@)),
                Some(Err(e)) => text_defined(old(self)@, text@) == Some(Err::<(Seq<char>, SymbolView), Seq<char>>(e@))
                    && final(self)@ == old(self)@,
                Some(Ok(())) => text_defined(old(self)@, text@) matches Some(Ok(a)) && final(self)@ == old(self)@.push(a),
            },
    {
        match self.add_symbol_from_string(text, false) {
            None => None,
            Some(Err(e)) => Some(Err(e)),
            Some(Ok(_)) => Some(Ok(())),
        }
    }

    /// Makes default definition `i` (see `definition_step`).
    fn apply_default(&mut self, i: usize) -> (r: Option<Result<(), String>>)
        requires
            old(self).wf(),
            i < default_count(),
        ensures
            final(self).wf(),
            match r {
                None => final(self)@ == old(self)@ && text_step_open(old(self)@, default_definition(i as int)),
                Some(Err(e)) => definition_step(old(self)@, default_definition(i as int)) == Some(Err::<Store, Seq<char>>(e@))
                    && final(self)@ == old(self)@,
                Some(Ok(())) => definition_step(old(self)@, default_definition(i as int)) == Some(Ok::<Store, Seq<char>>(final(self)@)),
            },
    {
        match i {
            0 => Some(self.add_expression_fun("sin", ExpressionFunType::Sin, false)),
            1 => Some(self.add_expression_fun("asin", ExpressionFunType::Asin, false)),
            2 => Some(self.add_expression_fun("cos", ExpressionFunType::Cos, false)),
            3 => Some(self.add_expression_fun("acos", ExpressionFunType::Acos, false)),
            4 => Some(self.add_expression_fun("tan", ExpressionFunType::Tan, false)),
            5 => Some(self.add_expression_fun("atan", ExpressionFunType::Atan, false)),
            6 => Some(self.add_expression_fun("floor", ExpressionFunType::Floor, false)),
            7 => Some(self.add_expression_fun("ceil", ExpressionFunType::Ceil, false)),
            8 => Some(self.add_expression_fun("round", ExpressionFunType::Round, false)),
            9 => Some(self.add_expression_fun("abs", ExpressionFunType::Abs, false)),
            10 => Some(self.add_expression_fun("rem", ExpressionFunType::Rem, false)),
            11 => Some(self.add_expression_fun("log2", ExpressionFunType::Log2, false)),
            12 => Some(self.add_expression_fun("log10", ExpressionFunType::Log10, false)),
            13 => Some(self.add_expression_fun("ln", ExpressionFunType::Ln, false)),
            14 => Some(self.add_expression_fun("fac", ExpressionFunType::Fac, false)),
            15 => Some(self.add_expression_fun("avg", ExpressionFunType::Avg, false)),
            16 => Some(self.add_expression_fun("median", ExpressionFunType::Median, false)),
            17 => Some(self.add_expression_fun("max", ExpressionFunType::Max, false)),
            18 => Some(self.add_expression_fun("min", ExpressionFunType::Min, false)),
            19 => Some(self.add_expression_fun("sum", ExpressionFunType::Sum, false)),
            20 => Some(self.add_expression_var("pi", ExpressionNumType::Pi, false)),
            21 => Some(self.add_expression_var("e", ExpressionNumType::E, false)),
            22 => {
                let (sig, def) = deg_definition();
                self.add_defining_formula(&sig, &def)
            },
            23 => {
                let (sig, def) = rad_definition();
                self.add_defining_formula(&sig, &def)
            },
            24 => self.add_defining_text("sqrt(x)=x^(1/2)"),
            _ => self.add_defining_text("binomial(n, k) = fac(n) / (fac(n - k) * fac(k))"),
        }
    }

    /// Defines the built-in functions and constants and the default functions given by
    /// formulas (see `defaults_applied`); the first error ends it, with the definitions
    /// before it kept. `None` where a formula's definition panics or its rounds run out, or
    /// where its formula holds a number before its texts are read (see
    /// `add_symbol_from_string`).
    pub fn define_default_symbols(&mut self) -> (r: Option<Result<(), String>>)
        requires
            old(self).wf(),
        ensures
            final(self).wf(),
            match r {
                Some(Ok(())) => defaults_applied(old(self)@, default_count()) == Some((final(self)@, None::<Seq<char>>)),
                Some(Err(e)) => defaults_applied(old(self)@, default_count()) == Some((final(self)@, Some(e@))),
                None => exists|k: int| 0 <= k < default_count()
                    && defaults_applied(old(self)@, k) == Some((final(self)@, None::<Seq<char>>))
                    && text_step_open(final(self)@, #[trigger] default_definition(k)),
            },
    {
        let ghost m0 = self@;
        let mut i: usize = 0;
        while i < 26
            invariant
                self.wf(),
                i <= default_count(),
                m0 == old(self)@,
                defaults_applied(m0, i as int) == Some((self@, None::<Seq<char>>)),
            decreases 26 - i,
        {
            let ghost before = self@;
            match self.apply_default(i) {
                None => {
                    assert(text_step_open(self@, default_definition(i as int)));
                    return None;
                },
                Some(Err(e)) => {
                    assert(defaults_applied(m0, i + 1) == Some((self@, Some(e@))));
                    proof {
                        lemma_defaults_stop(m0, i + 1, self@, e@);
                    }
                    return Some(Err(e));
                },
                Some(Ok(())) => {},
            }
            i = i + 1;
        }
        Some(Ok(()))
    }

    /// A store with the default symbols, where defining them succeeds.
    pub fn new_with_default_symbols() -> (r: Option<Self>)
        ensures
            match r {
                Some(s) => s.wf() && defaults_applied(Store::empty(), default_count()) == Some((s@, None::<Seq<char>>)),
                None => (defaults_applied(Store::empty(), default_count()) matches Some((_, Some(_))))
                    || exists|k: int, st: Store| 0 <= k < default_count()
                        && defaults_applied(Store::empty(), k) == Some((st, None::<Seq<char>>))
                        && #[trigger] text_step_open(st, default_definition(k)),
            },
    {
        let mut store = Self::new_empty();
        match store.define_default_symbols() {
            Some(Ok(())) => Some(store),
            Some(Err(_)) => None,
            None => {
                assert(exists|k: int, st: Store| 0 <= k < default_count()
                    && defaults_applied(Store::empty(), k) == Some((st, None::<Seq<char>>))
                    && #[trigger] text_step_open(st, default_definition(k))) by {
                    let k = choose|k: int| 0 <= k < default_count()
                        && defaults_applied(Store::empty(), k) == Some((store@, None::<Seq<char>>))
                        && text_step_open(store@, #[trigger] default_definition(k));
                    assert(defaults_applied(Store::empty(), k) == Some((store@, None::<Seq<char>>)));
                }
                None
            },
        }
    }
}

/// Once a default definition fails, the later ones are not made.
proof fn lemma_defaults_stop(m: Store, k: int, m1: Store, e: Seq<char>)
    requires
        0 <= k <= default_count(),
        defaults_applied(m, k) == Some((m1, Some(e))),
    ensures
        defaults_applied(m, default_count()) == Some((m1, Some(e))),
    decreases default_count() - k,
{
    if k < default_count() {
        assert(defaults_applied(m, k + 1) == Some((m1, Some(e))));
        lemma_defaults_stop(m, k + 1, m1, e);
    }
}

proof fn lemma_signature_table_push(m: Store, x: (Seq<char>, SymbolView))
    ensures
        signature_table(m.push(x)) == signature_table(m).push((x.0, x.1.signature)),
{
    assert(signature_table(m.push(x)) =~= signature_table(m).push((x.0, x.1.signature)));
}

/// A symbol defined from a text is found under its name afterwards, and every symbol
/// defined before is found as it was.
pub proof fn law_defined_symbol_is_found(m: Store, s: Seq<char>, name: Seq<char>, sv: SymbolView, other: Seq<char>)
    requires
        text_defined(m, s) == Some(Ok::<(Seq<char>, SymbolView), Seq<char>>((name, sv))),
    ensures
        symbol_of(m.push((name, sv)), name) == Some(sv),
        symbol_of(m, other) is Some ==> symbol_of(m.push((name, sv)), other) == symbol_of(m, other),
{
    let t = signature_table(m);
    lemma_signature_table_push(m, (name, sv));
    crate::symbols::lemma_index_of_push(t, (name, sv.signature), name);
    crate::symbols::lemma_index_of_push(t, (name, sv.signature), other);
    lemma_index_of(t, other);
}

/// A symbol defined from a text cannot be defined again by the same text: the second
/// attempt is refused because the name is already defined.
pub proof fn law_symbol_cannot_be_defined_twice(m: Store, s: Seq<char>, name: Seq<char>, sv: SymbolView)
    requires
        text_defined(m, s) == Some(Ok::<(Seq<char>, SymbolView), Seq<char>>((name, sv))),
    ensures
        text_defined(m.push((name, sv)), s) == Some(Err::<(Seq<char>, SymbolView), Seq<char>>(already_defined_text(name))),
{
    let t = signature_table(m);
    lemma_signature_table_push(m, (name, sv));
    crate::symbols::lemma_index_of_push(t, (name, sv.signature), name);
}

// ---------------------------------------------------------------------------
// Evaluating with the defined symbols
// ---------------------------------------------------------------------------

/// The value of an expanded formula at the given precision: at a fixed precision, an exact
/// number or a float checked at that precision (see `eval_of`); else with a growing
/// precision (see `dynamic_eval`).
pub open spec fn evaluation_of(f: Element, precision: RunPrecision) -> Result<DynamicValue, FormulaEvaluationError> {
    match precision {
        RunPrecision::Fixed(p) => match eval_of(f, p) {
            Ok(NumberView::Rational(n, d)) => Ok(DynamicValue::Exact(n, d)),
            Ok(NumberView::Float(v)) => Ok(DynamicValue::Checked(v, p as nat)),
            Err(x) => Err(x),
        },
        RunPrecision::Dynamic(min, max) => dynamic_eval(f, min as nat, max as nat, min as nat, None),
    }
}

/// The precisions the evaluation runs at: a growing precision starts at one bit or more,
/// and both bounds stay below 2^30.
pub open spec fn precision_in_range(precision: RunPrecision) -> bool {
    match precision {
        RunPrecision::Fixed(_) => true,
        RunPrecision::Dynamic(min, max) => 1 <= min < 0x4000_0000 && max < 0x4000_0000,
    }
}

/// The message of the evaluation's error, if it fails.
pub open spec fn evaluation_error_text(f: Element, precision: RunPrecision) -> Option<Seq<char>> {
    match evaluation_of(f, precision) {
        Err(x) => Some(formula_evaluation_error_text(x)),
        Ok(_) => None,
    }
}

pub open spec fn could_not_parse_text(m: Seq<char>) -> Seq<char> {
    "Could not parse formula: "@ + m
}

/// What evaluating the text `s` with the symbols of `st` at `precision` may give (see
/// `FormulaStore::eval_new`).
pub open spec fn evaluated(st: Store, s: Seq<char>, precision: RunPrecision, r: Option<Result<DynamicResult, String>>) -> bool {
    match r {
        None => !parse_defined(s) || (parse_result(s) matches Ok(e)
            && (!numbers_only_read(s)
                || expanded_and_optimized(e, st, Seq::empty()) is None
                || !precision_in_range(precision)
                || (expanded_and_optimized(e, st, Seq::empty()) matches Some(Ok(x))
                    && exists|f: Element| f@ == x && !no_range_checks(f)))),
        Some(Err(m)) => parse_defined(s) && match parse_result(s) {
            Err(pm) => m@ == could_not_parse_text(pm),
            Ok(e) => match expanded_and_optimized(e, st, Seq::empty()) {
                Some(Err(x)) => m@ == x,
                Some(Ok(x)) => exists|f: Element| #![trigger f@] f@ == x && f.wf() && no_range_checks(f)
                    && evaluation_error_text(f, precision) == Some(m@),
                None => false,
            },
        },
        Some(Ok(d)) => parse_defined(s) && match parse_result(s) {
            Ok(e) => match expanded_and_optimized(e, st, Seq::empty()) {
                Some(Ok(x)) => exists|f: Element| #![trigger f@] f@ == x && f.wf() && no_range_checks(f)
                    && evaluation_of(f, precision) == Ok::<DynamicValue, FormulaEvaluationError>(dynamic_view(d)),
                _ => false,
            },
            Err(_) => false,
        },
    }
}

impl FormulaStore {
    /// Parses a formula, expands and simplifies it with the defined symbols (see
    /// `expanded_and_optimized`) and evaluates it (see `evaluation_of`), recording the
    /// time of each step after the benchmark's tasks. An error names what failed. `None`
    /// where parsing panics, the expansion rounds run out, the formula holds a value range
    /// check (whose evaluation panics), or the precision is out of range; and also where the
    /// formula holds a number before its texts are read as numbers (see `numbers_only_read`).
    pub fn eval_new(&self, formula_str: &str, precision: RunPrecision, benchmark: &mut Benchmark) -> (r: Option<Result<DynamicResult, String>>)
        requires
            self.wf(),
        ensures
            final(benchmark).name@ == old(benchmark).name@,
            final(benchmark).tasks@.take(old(benchmark).tasks@.len() as int) == old(benchmark).tasks@,
            evaluated(self@, formula_str@, precision, r),
    {
        if !Element::parse_is_defined(formula_str) {
            return None;
        }
        let started = crate::benchmarking::instant_now();
        let parsed = Element::parse(formula_str);
        benchmark.record("Parsing", &started);
        let mut formula = match parsed {
            Ok(e) => e,
            Err(pm) => {
                let mut text = crate::text::chars_of("Could not parse formula: ");
                crate::text::push_str(&mut text, pm.as_str());
                let text = crate::text::string_of(&text);
                assert(text@ =~= could_not_parse_text(pm@));
                return Some(Err(text));
            },
        };
        if !formula.is_well_formed() {
            return None;
        }
        let ghost e = formula@;
        let mut inner = Benchmark::new("Expansion and Optimization");
        let started = crate::benchmarking::instant_now();
        formula.optimize_and_reduce();
        inner.record("Formula Optimization", &started);
        let started = crate::benchmarking::instant_now();
        let ignore: Vec<String> = Vec::new();
        assert(names_view(ignore@) =~= Seq::<Seq<char>>::empty());
        let expansion = self.expand_formula(&mut formula, &ignore);
        inner.record("Expansion", &started);
        match expansion {
            None => {
                benchmark.push_finalized("Expansion and Optimization", inner);
                return None;
            },
            Some(Err(x)) => {
                benchmark.push_finalized("Expansion and Optimization", inner);
                return Some(Err(x));
            },
            Some(Ok(())) => {},
        }
        let started = crate::benchmarking::instant_now();
        formula.optimize_and_reduce();
        inner.record("Formula Optimization", &started);
        benchmark.push_finalized("Expansion and Optimization", inner);
        assert(expanded_and_optimized(e, self@, Seq::empty()) == Some(Ok::<ElementView, Seq<char>>(formula@)));
        if !formula.has_no_range_checks() {
            return None;
        }
        let started = crate::benchmarking::instant_now();
        let result = match precision {
            RunPrecision::Fixed(p) => match formula.eval(p) {
                Ok(crate::number::Number::Rational(q)) => Ok(DynamicResult::Exact(q)),
                Ok(crate::number::Number::Float(v)) => Ok(DynamicResult::Checked { num: v, precision: p }),
                Err(x) => Err(x),
            },
            RunPrecision::Dynamic(min, max) => {
                if min < 1 || min >= 0x4000_0000 || max >= 0x4000_0000 {
                    return None;
                }
                formula.eval_dynamic_precision(min, max)
            },
        };
        benchmark.record("Evaluation", &started);
        match result {
            Ok(d) => Some(Ok(d)),
            Err(x) => Some(Err(x.message())),
        }
    }
}

// ---------------------------------------------------------------------------
// Running an input: a definition or a calculation
// ---------------------------------------------------------------------------

/// What running an input achieved.
pub enum RunSuccess {
    AddedSymbol(NamedSymbol),
    CalculationResult(DynamicResult),
}

/// The outcome of running an input.
pub enum RunResult {
    Success(RunSuccess),
    Failure(RunError),
}

impl RunResult {
    /// The result of a calculation, if the run was one and succeeded.
    pub fn calculation_result(self) -> (r: Option<DynamicResult>)
        ensures
            match self {
                RunResult::Success(RunSuccess::CalculationResult(d)) => r == Some(d),
                _ => r is None,
            },
    {
        match self {
            RunResult::Success(RunSuccess::CalculationResult(d)) => Some(d),
            _ => None,
        }
    }
}

pub open spec fn one_equals_sign_text() -> Seq<char> {
    "Only one '=' is allowed in a formula"@
}

/// The input holds a second `=` after the first.
pub open spec fn more_than_one_equals_sign(s: Seq<char>) -> bool {
    let k = eq_position_from(s, 0);
    k >= 0 && eq_position_from(s, k + 1) >= 0
}

/// What running the input `s` on the store `m` may give: with one `=`, a definition (see
/// `add_symbol_from_string`); with more, an error; without, a calculation (see
/// `evaluated`); and the store after it.
pub open spec fn ran(m: Store, s: Seq<char>, options: RunOptions, r: Option<RunResult>, after: Store) -> bool {
    if eq_position_from(s, 0) >= 0 {
        if more_than_one_equals_sign(s) {
            r matches Some(RunResult::Failure(RunError::ParseFailed(e))) && e@ == one_equals_sign_text() && after == m
        } else {
            match r {
                Some(RunResult::Success(RunSuccess::AddedSymbol(ns))) => text_defined(m, s) == Some(Ok::<(Seq<char>, SymbolView), Seq<char>>((ns.name@, ns.symbol@)))
                    && after == store_after(m, (ns.name@, ns.symbol@), options.dry_run),
                Some(RunResult::Failure(RunError::FailedToAddSymbol(e))) => text_defined(m, s) == Some(Err::<(Seq<char>, SymbolView), Seq<char>>(e@))
                    && after == m,
                None => after == m && (text_defined(m, s) is None || numbers_before_reading(s)),
                _ => false,
            }
        }
    } else {
        after == m && match r {
            Some(RunResult::Success(RunSuccess::CalculationResult(d))) => evaluated(m, s, options.precision, Some(Ok(d))),
            Some(RunResult::Failure(RunError::CalculationFailed(e))) => evaluated(m, s, options.precision, Some(Err(e))),
            None => evaluated(m, s, options.precision, None),
            _ => false,
        }
    }
}

impl FormulaStore {
    /// Runs an input: a text with one `=` defines a symbol, one without is calculated (see
    /// `ran`); the time of the step is recorded after the benchmark's tasks.
    pub fn run_new(&mut self, input: &str, run_options: RunOptions, bench: &mut Benchmark) -> (r: Option<RunResult>)
        requires
            old(self).wf(),
        ensures
            final(self).wf(),
            final(bench).name@ == old(bench).name@,
            final(bench).tasks@.take(old(bench).tasks@.len() as int) == old(bench).tasks@,
            ran(old(self)@, input@, run_options, r, final(self)@),
    {
        let chars = crate::text::chars_of(input);
        let mut k: usize = 0;
        while k < chars.len() && chars[k] != '='
            invariant
                k <= chars@.len(),
                chars@ == input@,
                eq_position_from(input@, k as int) == eq_position_from(input@, 0),
            decreases chars.len() - k,
        {
            k = k + 1;
        }
        if k < chars.len() {
            let mut j: usize = k + 1;
            while j < chars.len() && chars[j] != '='
                invariant
                    k < j <= chars@.len(),
                    chars@ == input@,
                    eq_position_from(input@, j as int) == eq_position_from(input@, k + 1),
                decreases chars.len() - j,
            {
                j = j + 1;
            }
            if j < chars.len() {
                let text = crate::text::string_of(&crate::text::chars_of("Only one '=' is allowed in a formula"));
                return Some(RunResult::Failure(RunError::ParseFailed(text)));
            }
            let started = crate::benchmarking::instant_now();
            let added = self.add_symbol_from_string(input, run_options.dry_run);
            bench.record("Add symbol from string", &started);
            proof {
                let t0 = old(bench).tasks@;
                assert(bench.tasks@.take(t0.len() as int) == t0);
            }
            match added {
                Some(Ok(symbol)) => Some(RunResult::Success(RunSuccess::AddedSymbol(symbol))),
                Some(Err(e)) => Some(RunResult::Failure(RunError::FailedToAddSymbol(e))),
                None => None,
            }
        } else {
            let mut sub = Benchmark::new("Evaluation");
            let result = self.eval_new(input, run_options.precision, &mut sub);
            let ghost before = bench.tasks@;
            bench.push_finalized("Evaluation", sub);
            assert(bench.tasks@.take(before.len() as int) =~= before);
            match result {
                Some(Ok(d)) => Some(RunResult::Success(RunSuccess::CalculationResult(d))),
                Some(Err(e)) => Some(RunResult::Failure(RunError::CalculationFailed(e))),
                None => None,
            }
        }
    }
}

// ---------------------------------------------------------------------------
// How a symbol is called
// ---------------------------------------------------------------------------

/// The names separated by `, `.
pub open spec fn joined_names(s: Seq<Seq<char>>) -> Seq<char>
    decreases s.len(),
{
    if s.len() == 0 {
        Seq::empty()
    } else if s.len() == 1 {
        s[0]
    } else {
        joined_names(s.drop_last()) + ", "@ + s.last()
    }
}

/// The call signature of a symbol named `name`: the name of a variable, `name(a, b)` for a
/// function with its parameters, `name(n..)` for one of at least `n` arguments.
pub open spec fn signature_string(name: Seq<char>, sv: SymbolView) -> Seq<char> {
    match sv.signature {
        SignatureView::NumberOrFunction => name,
        SignatureView::Number => name,
        SignatureView::Function(_) => name + "("@ + match sv.params {
            Some(p) => joined_names(p),
            None => Seq::empty(),
        } + ")"@,
        SignatureView::FunctionNOrMoreParams(n) => name + "("@ + crate::text::nat_to_decimal(n) + "..)"@,
        SignatureView::Conflicting => "Conflicting"@,
    }
}

fn push_joined_names(out: &mut Vec<char>, names: &Vec<String>)
    ensures
        final(out)@ == old(out)@ + joined_names(names_view(names@)),
{
    let ghost start = out@;
    let ghost nv = names_view(names@);
    let mut i: usize = 0;
    assert(nv.take(0) =~= Seq::<Seq<char>>::empty());
    while i < names.len()
        invariant
            i <= names@.len(),
            nv == names_view(names@),
            nv.len() == names@.len(),
            out@ == start + joined_names(nv.take(i as int)),
        decreases names.len() - i,
    {
        if i > 0 {
            crate::text::push_str(out, ", ");
        }
        crate::text::push_str(out, names[i].as_str());
        proof {
            let t = nv.take(i + 1);
            assert(t.drop_last() =~= nv.take(i as int));
            assert(t.last() == names@[i as int]@);
            if i == 0 {
                assert(joined_names(nv.take(0)) =~= Seq::<char>::empty());
                assert(t.len() == 1);
                assert(joined_names(t) == t[0]);
            }
            assert(out@ =~= start + joined_names(t));
        }
        i = i + 1;
    }
    assert(nv.take(i as int) =~= nv);
}

impl Symbol {
    /// The call signature, such as `fun(a, b)` or `var_xy` (see `signature_string`).
    pub fn get_signature_string(&self, name: &str) -> (s: String)
        ensures
            s@ == signature_string(name@, self@),
    {
        match &self.signature {
            Signature::NumberOrFunction | Signature::Number => crate::text::string_of(&crate::text::chars_of(name)),
            Signature::Function(_) => {
                let mut out = crate::text::chars_of(name);
                crate::text::push_str(&mut out, "(");
                match &self.params {
                    Some(p) => push_joined_names(&mut out, p),
                    None => {},
                }
                crate::text::push_str(&mut out, ")");
                let s = crate::text::string_of(&out);
                assert(s@ =~= signature_string(name@, self@));
                s
            },
            Signature::FunctionNOrMoreParams(n) => {
                let mut out = crate::text::chars_of(name);
                crate::text::push_str(&mut out, "(");
                crate::text::push_nat_decimal(&mut out, *n as u64);
                crate::text::push_str(&mut out, "..)");
                let s = crate::text::string_of(&out);
                assert(s@ =~= signature_string(name@, self@));
                s
            },
            Signature::Conflicting => crate::text::string_of(&crate::text::chars_of("Conflicting")),
        }
    }
}

impl NamedSymbol {
    /// The call signature of the symbol under its name (see `signature_string`).
    pub fn get_signature_string(&self) -> (s: String)
        ensures
            s@ == signature_string(self.name@, self.symbol@),
    {
        self.symbol.get_signature_string(self.name.as_str())
    }
}

/// A formula that expansion ends with refers to no name but the ignored ones.
pub proof fn law_expanded_formula_has_no_unknown_names(
    e: ElementView, m: Store, ignore: Seq<Seq<char>>, before: Seq<Seq<char>>, fuel: nat, x: ElementView,
)
    requires
        expanded(e, m, ignore, before, fuel) == Some(Ok::<ElementView, Seq<char>>(x)),
    ensures
        unexpanded_names(x, ignore).len() == 0,
    decreases fuel,
{
    let names = unexpanded_names(e, ignore);
    if names.len() != 0 && names.to_set() != before.to_set() && fuel > 0 {
        match names_inserted(e, m, names) {
            Ok(e2) => law_expanded_formula_has_no_unknown_names(e2, m, ignore, names, (fuel - 1) as nat, x),
            Err(_) => {},
        }
    }
}

} // verus!
