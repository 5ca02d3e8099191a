//! Signatures of symbols: whether a name stands for a number or for a function, and of
//! which arguments, refined as more uses of the name are seen.

use vstd::prelude::*;

verus! {

/// What a symbol can be.
#[derive(Debug)]
pub enum Signature {
    NumberOrFunction,
    Number,
    Function(Vec<Signature>),
    /// This Function only takes numbers as parameters
    FunctionNOrMoreParams(usize),
    Conflicting,
}

/// The mathematical value of a signature.
pub enum SignatureView {
    NumberOrFunction,
    Number,
    Function(Seq<SignatureView>),
    FunctionNOrMoreParams(nat),
    Conflicting,
}

pub open spec fn signature_views(s: Seq<Signature>) -> Seq<SignatureView>
    decreases s,
{
    if s.len() == 0 { Seq::empty() } else { signature_views(s.drop_last()).push(s.last().view_sig()) }
}

impl Signature {
    pub open spec fn view_sig(&self) -> SignatureView
        decreases self,
    {
        match self {
            Signature::NumberOrFunction => SignatureView::NumberOrFunction,
            Signature::Number => SignatureView::Number,
            Signature::Function(v) => SignatureView::Function(signature_views(v@)),
            Signature::FunctionNOrMoreParams(n) => SignatureView::FunctionNOrMoreParams(*n as nat),
            Signature::Conflicting => SignatureView::Conflicting,
        }
    }
}

impl View for Signature {
    type V = SignatureView;

    open spec fn view(&self) -> SignatureView {
        self.view_sig()
    }
}

pub proof fn lemma_signature_views(s: Seq<Signature>)
    ensures
        signature_views(s).len() == s.len(),
        forall|i: int| 0 <= i < s.len() ==> #[trigger] signature_views(s)[i] == s[i].view_sig(),
    decreases s.len(),
{
    if s.len() > 0 {
        lemma_signature_views(s.drop_last());
        assert forall|i: int| 0 <= i < s.len() implies #[trigger] signature_views(s)[i] == s[i].view_sig() by {
            if i < s.len() - 1 {
                assert(s.drop_last()[i] == s[i]);
            }
        }
    }
}

/// A number, or a name that may still be a number.
pub open spec fn is_number_like(s: SignatureView) -> bool {
    s is Number || s is NumberOrFunction
}

/// Whether all signatures are number-like.
pub open spec fn all_number_like(s: Seq<SignatureView>) -> bool {
    forall|i: int| 0 <= i < s.len() ==> is_number_like(#[trigger] s[i])
}

/// Whether one of the signatures is conflicting.
pub open spec fn any_conflicting(s: Seq<SignatureView>) -> bool {
    exists|i: int| 0 <= i < s.len() && #[trigger] s[i] is Conflicting
}

/// `old` refined with what a new use `new` says of the symbol: an open name takes the new
/// signature; a new open name changes nothing; functions of equally many parameters are
/// refined parameter by parameter; a function of numbers agrees with a function of at
/// least as many number parameters; everything else conflicts.
pub open spec fn refined(old: SignatureView, new: SignatureView) -> SignatureView
    decreases old,
{
    match (old, new) {
        (SignatureView::NumberOrFunction, _) => new,
        (_, SignatureView::NumberOrFunction) => old,
        (SignatureView::Number, SignatureView::Number) => old,
        (SignatureView::Function(a), SignatureView::Function(b)) => {
            if a.len() != b.len() {
                SignatureView::Conflicting
            } else {
                let r = refined_all(a, b);
                if any_conflicting(r) { SignatureView::Conflicting } else { SignatureView::Function(r) }
            }
        },
        (SignatureView::Function(a), SignatureView::FunctionNOrMoreParams(k)) => {
            if a.len() < k || !all_number_like(a) {
                SignatureView::Conflicting
            } else {
                SignatureView::FunctionNOrMoreParams(k)
            }
        },
        (SignatureView::FunctionNOrMoreParams(k), SignatureView::Function(p)) => {
            if p.len() < k || !all_number_like(p) { SignatureView::Conflicting } else { old }
        },
        (SignatureView::FunctionNOrMoreParams(k1), SignatureView::FunctionNOrMoreParams(k2)) => {
            if k1 != k2 { SignatureView::Conflicting } else { old }
        },
        _ => SignatureView::Conflicting,
    }
}

/// `refined` parameter by parameter.
pub open spec fn refined_all(a: Seq<SignatureView>, b: Seq<SignatureView>) -> Seq<SignatureView>
    decreases a,
{
    if a.len() == 0 || b.len() == 0 {
        Seq::empty()
    } else {
        refined_all(a.drop_last(), b.drop_last()).push(refined(a.last(), b.last()))
    }
}

proof fn lemma_refined_all(a: Seq<SignatureView>, b: Seq<SignatureView>)
    requires
        a.len() == b.len(),
    ensures
        refined_all(a, b).len() == a.len(),
        forall|i: int| 0 <= i < a.len() ==> #[trigger] refined_all(a, b)[i] == refined(a[i], b[i]),
    decreases a.len(),
{
    if a.len() > 0 {
        lemma_refined_all(a.drop_last(), b.drop_last());
        assert forall|i: int| 0 <= i < a.len() implies #[trigger] refined_all(a, b)[i] == refined(a[i], b[i]) by {
            if i < a.len() - 1 {
                assert(a.drop_last()[i] == a[i]);
                assert(b.drop_last()[i] == b[i]);
            }
        }
    }
}

impl Signature {
    /// A deep copy.
    pub fn duplicate(&self) -> (r: Self)
        ensures
            r@ == self@,
        decreases self,
    {
        match self {
            Signature::NumberOrFunction => Signature::NumberOrFunction,
            Signature::Number => Signature::Number,
            Signature::Function(v) => Signature::Function(duplicate_signatures(v)),
            Signature::FunctionNOrMoreParams(n) => Signature::FunctionNOrMoreParams(*n),
            Signature::Conflicting => Signature::Conflicting,
        }
    }

    /// Whether a use with `count` arguments fits the signature.
    pub fn accepts_param_count(&self, count: usize) -> (b: bool)
        ensures
            b == match self@ {
                SignatureView::Function(p) => p.len() == count,
                SignatureView::FunctionNOrMoreParams(n) => count >= n,
                _ => false,
            },
    {
        match self {
            Signature::Function(params) => {
                proof {
                    lemma_signature_views(params@);
                }
                params.len() == count
            },
            Signature::FunctionNOrMoreParams(n) => count >= *n,
            _ => false,
        }
    }

    /// How much a signature says: 0 for an open name, 1 for everything else.
    pub fn get_priority(&self) -> (p: u8)
        ensures
            p == (if self@ is NumberOrFunction { 0u8 } else { 1u8 }),
    {
        match self {
            Signature::NumberOrFunction => 0,
            _ => 1,
        }
    }

    /// Whether the signature is a number or an open name.
    fn is_number_like_exec(&self) -> (b: bool)
        ensures
            b == is_number_like(self@),
    {
        match self {
            Signature::Number | Signature::NumberOrFunction => true,
            _ => false,
        }
    }

    /// Refines the signature with a new use (see `refined`).
    pub fn refine_with(&mut self, new: Signature)
        ensures
            final(self)@ == refined(old(self)@, new@),
        decreases old(self)@,
    {
        let ghost o = self@;
        match self {
            Signature::NumberOrFunction => {
                *self = new;
                return;
            },
            _ => {},
        }
        match new {
            Signature::NumberOrFunction => {
                return;
            },
            _ => {},
        }
        assert(!(new@ is NumberOrFunction));
        assert(!(o is NumberOrFunction));
        match self {
            Signature::Number => {
                if let Signature::Number = new {
                    return;
                }
                assert(o == SignatureView::Number);
                assert(refined(o, new@) == SignatureView::Conflicting);
                *self = Signature::Conflicting;
            },
            Signature::Function(args_old) => {
                match new {
                    Signature::Function(args_new) => {
                        if args_old.len() != args_new.len() {
                            proof {
                                lemma_signature_views(args_old@);
                                lemma_signature_views(args_new@);
                            }
                            *self = Signature::Conflicting;
                            return;
                        }
                        let ghost a0 = args_old@;
                        proof {
                            lemma_signature_views(a0);
                            lemma_signature_views(args_new@);
                            assert(o == SignatureView::Function(signature_views(a0)));
                        }
                        let conflicting = refine_all_exec(args_old, &args_new);
                        proof {
                            assert(new@ == SignatureView::Function(signature_views(args_new@)));
                        }
                        if conflicting {
                            *self = Signature::Conflicting;
                        }
                        assert(self@ == refined(o, new@));
                    },
                    Signature::FunctionNOrMoreParams(at_least) => {
                        proof {
                            lemma_signature_views(args_old@);
                        }
                        if args_old.len() < at_least || !all_number_like_exec(args_old) {
                            *self = Signature::Conflicting;
                            return;
                        }
                        *self = Signature::FunctionNOrMoreParams(at_least);
                    },
                    _ => {
                        *self = Signature::Conflicting;
                    },
                }
            },
            Signature::FunctionNOrMoreParams(at_least) => {
                match new {
                    Signature::Function(params) => {
                        proof {
                            lemma_signature_views(params@);
                        }
                        if params.len() < *at_least || !all_number_like_exec(&params) {
                            *self = Signature::Conflicting;
                        }
                    },
                    Signature::FunctionNOrMoreParams(at_least_new) => {
                        if *at_least != at_least_new {
                            *self = Signature::Conflicting;
                        }
                    },
                    _ => {
                        *self = Signature::Conflicting;
                    },
                }
            },
            _ => {
                *self = Signature::Conflicting;
            },
        }
    }

    /// True if `self` is less specific than `other` and could be refined to match it (see
    /// `could_be`).
    pub fn could_be(&self, other: &Signature) -> (b: bool)
        ensures
            b == could_be(self@, other@),
    {
        let mut refined_sig = self.duplicate();
        refined_sig.refine_with(other.duplicate());
        match refined_sig {
            Signature::Conflicting => false,
            _ => signatures_equal(&refined_sig, other),
        }
    }
}

/// Whether two lists of signatures are the same.
fn signature_lists_equal(x: &Vec<Signature>, y: &Vec<Signature>) -> (r: bool)
    ensures
        r == (signature_views(x@) == signature_views(y@)),
    decreases x,
{
    proof {
        lemma_signature_views(x@);
        lemma_signature_views(y@);
    }
    if x.len() != y.len() {
        return false;
    }
    let mut i: usize = 0;
    while i < x.len()
        invariant
            i <= x@.len(),
            x@.len() == y@.len(),
            signature_views(x@).len() == x@.len(),
            signature_views(y@).len() == y@.len(),
            forall|k: int| 0 <= k < x@.len() ==> #[trigger] signature_views(x@)[k] == x@[k].view_sig(),
            forall|k: int| 0 <= k < y@.len() ==> #[trigger] signature_views(y@)[k] == y@[k].view_sig(),
            forall|k: int| 0 <= k < i ==> signature_views(x@)[k] == signature_views(y@)[k],
        decreases x.len() - i,
    {
        if !signatures_equal(&x[i], &y[i]) {
            assert(signature_views(x@)[i as int] != signature_views(y@)[i as int]);
            return false;
        }
        i = i + 1;
    }
    assert(signature_views(x@) =~= signature_views(y@));
    true
}

/// `self` is less specific than `other`: refining it with `other` gives `other` itself.
pub open spec fn less_specific(s: SignatureView, o: SignatureView) -> bool {
    refined(s, o) == o
}

/// `s` is less specific than `o` and refines to it without a conflict.
pub open spec fn could_be(s: SignatureView, o: SignatureView) -> bool {
    less_specific(s, o) && !(refined(s, o) is Conflicting)
}

/// Whether two signatures are the same.
pub fn signatures_equal(a: &Signature, b: &Signature) -> (r: bool)
    ensures
        r == (a@ == b@),
    decreases a,
{
    match (a, b) {
        (Signature::NumberOrFunction, Signature::NumberOrFunction) => true,
        (Signature::Number, Signature::Number) => true,
        (Signature::Conflicting, Signature::Conflicting) => true,
        (Signature::FunctionNOrMoreParams(x), Signature::FunctionNOrMoreParams(y)) => x == y,
        (Signature::Function(x), Signature::Function(y)) => signature_lists_equal(x, y),
        _ => false,
    }
}

/// A deep copy of a list of signatures.
pub fn duplicate_signatures(v: &Vec<Signature>) -> (r: Vec<Signature>)
    ensures
        signature_views(r@) == signature_views(v@),
    decreases v,
{
    let mut r: Vec<Signature> = Vec::new();
    let mut i: usize = 0;
    while i < v.len()
        invariant
            i <= v@.len(),
            signature_views(r@) == signature_views(v@.take(i as int)),
        decreases v.len() - i,
    {
        proof {
            assert(decreases_to!(v => v@[i as int]));
        }
        let x = v[i].duplicate();
        let ghost before = r@;
        r.push(x);
        proof {
            assert(r@.drop_last() =~= before);
            assert(v@.take(i + 1).drop_last() =~= v@.take(i as int));
        }
        i = i + 1;
    }
    assert(v@.take(i as int) =~= v@);
    r
}

/// Whether all signatures are number-like.
fn all_number_like_exec(v: &Vec<Signature>) -> (b: bool)
    ensures
        b == all_number_like(signature_views(v@)),
{
    proof {
        lemma_signature_views(v@);
    }
    let mut i: usize = 0;
    while i < v.len()
        invariant
            i <= v@.len(),
            signature_views(v@).len() == v@.len(),
            forall|j: int| 0 <= j < signature_views(v@).len() ==> #[trigger] signature_views(v@)[j] == v@[j].view_sig(),
            forall|j: int| 0 <= j < i ==> is_number_like(#[trigger] signature_views(v@)[j]),
        decreases v.len() - i,
    {
        if !v[i].is_number_like_exec() {
            assert(!is_number_like(signature_views(v@)[i as int]));
            return false;
        }
        i = i + 1;
    }
    true
}

/// Refines each old parameter with the new one of the same position; whether one of them
/// became conflicting.
fn refine_all_exec(olds: &mut Vec<Signature>, news: &Vec<Signature>) -> (conflicting: bool)
    requires
        old(olds)@.len() == news@.len(),
    ensures
        signature_views(final(olds)@) == refined_all(signature_views(old(olds)@), signature_views(news@)),
        conflicting == any_conflicting(signature_views(final(olds)@)),
    decreases signature_views(old(olds)@),
{
    let ghost a = signature_views(olds@);
    let ghost b = signature_views(news@);
    let ghost old_v = olds@;
    proof {
        lemma_signature_views(olds@);
        lemma_signature_views(news@);
        lemma_refined_all(a, b);
    }
    let mut i: usize = 0;
    while i < olds.len()
        invariant
            i <= olds@.len(),
            olds@.len() == old_v.len(),
            olds@.len() == news@.len(),
            old_v == old(olds)@,
            a == signature_views(old_v),
            b == signature_views(news@),
            a.len() == old_v.len(),
            b.len() == old_v.len(),
            forall|j: int| 0 <= j < a.len() ==> #[trigger] a[j] == old_v[j].view_sig(),
            forall|j: int| 0 <= j < b.len() ==> #[trigger] b[j] == news@[j].view_sig(),
            forall|j: int| 0 <= j < i ==> (#[trigger] olds@[j])@ == refined(a[j], b[j]),
            forall|j: int| i <= j < olds@.len() ==> (#[trigger] olds@[j]) == old_v[j],
        decreases olds.len() - i,
    {
        proof {
            assert(a[i as int] == old_v[i as int].view_sig());
            assert(decreases_to!(a => a[i as int]));
        }
        let x = news[i].duplicate();
        olds[i].refine_with(x);
        i = i + 1;
    }
    proof {
        lemma_signature_views(olds@);
        assert(signature_views(olds@) =~= refined_all(a, b));
    }
    let mut k: usize = 0;
    while k < olds.len()
        invariant
            k <= olds@.len(),
            signature_views(olds@).len() == olds@.len(),
            forall|j: int| 0 <= j < olds@.len() ==> #[trigger] signature_views(olds@)[j] == olds@[j].view_sig(),
            forall|j: int| 0 <= j < k ==> !(#[trigger] signature_views(olds@)[j] is Conflicting),
            signature_views(olds@) == refined_all(signature_views(old(olds)@), signature_views(news@)),
        decreases olds.len() - k,
    {
        let c = match &olds[k] {
            Signature::Conflicting => true,
            _ => false,
        };
        if c {
            assert(signature_views(olds@)[k as int] is Conflicting);
            return true;
        }
        k = k + 1;
    }
    false
}

// ---------------------------------------------------------------------------
// Debug text
// ---------------------------------------------------------------------------

/// The text `{:?}` writes for a signature.
pub open spec fn signature_text(s: SignatureView) -> Seq<char>
    decreases s,
{
    match s {
        SignatureView::NumberOrFunction => "NumberOrFunction"@,
        SignatureView::Number => "Number"@,
        SignatureView::Function(p) => "Function(["@ + signature_list_text(p) + "])"@,
        SignatureView::FunctionNOrMoreParams(n) => "FunctionNOrMoreParams("@ + crate::text::nat_to_decimal(n) + ")"@,
        SignatureView::Conflicting => "Conflicting"@,
    }
}

/// The texts of the signatures, separated by `, `.
pub open spec fn signature_list_text(p: Seq<SignatureView>) -> Seq<char>
    decreases p,
{
    if p.len() == 0 {
        Seq::empty()
    } else if p.len() == 1 {
        signature_text(p[0])
    } else {
        signature_list_text(p.drop_last()) + ", "@ + signature_text(p.last())
    }
}

impl Signature {
    /// Appends the text `{:?}` writes for the signature.
    pub fn push_text(&self, out: &mut Vec<char>)
        ensures
            final(out)@ == old(out)@ + signature_text(self@),
        decreases self@,
    {
        match self {
            Signature::NumberOrFunction => crate::text::push_str(out, "NumberOrFunction"),
            Signature::Number => crate::text::push_str(out, "Number"),
            Signature::Function(p) => {
                crate::text::push_str(out, "Function([");
                let ghost mid = out@;
                let ghost ps = signature_views(p@);
                proof {
                    lemma_signature_views(p@);
                }
                let mut i: usize = 0;
                while i < p.len()
                    invariant
                        i <= p@.len(),
                        ps == signature_views(p@),
                        ps.len() == p@.len(),
                        forall|j: int| 0 <= j < ps.len() ==> #[trigger] ps[j] == p@[j].view_sig(),
                        out@ == mid + signature_list_text(ps.take(i as int)),
                        self@ == SignatureView::Function(ps),
                    decreases p.len() - i,
                {
                    proof {
                        assert(ps == self@->Function_0);
                        assert(decreases_to!(self@ => self@->Function_0[i as int]));
                        assert(ps.take(i + 1).drop_last() =~= ps.take(i as int));
                        assert(ps.take(i + 1).last() == ps[i as int]);
                        if i == 0 {
                            assert(ps.take(1) =~= seq![ps[0]]);
                        }
                    }
                    if i > 0 {
                        crate::text::push_str(out, ", ");
                    }
                    p[i].push_text(out);
                    i = i + 1;
                }
                assert(ps.take(i as int) =~= ps);
                crate::text::push_str(out, "])");
            },
            Signature::FunctionNOrMoreParams(n) => {
                crate::text::push_str(out, "FunctionNOrMoreParams(");
                crate::text::push_nat_decimal(out, *n as u64);
                crate::text::push_str(out, ")");
            },
            Signature::Conflicting => crate::text::push_str(out, "Conflicting"),
        }
    }
}


/// A signature with no conflict in it, not even in a parameter.
pub open spec fn conflict_free(s: SignatureView) -> bool
    decreases s,
{
    match s {
        SignatureView::Conflicting => false,
        SignatureView::Function(a) => forall|i: int| 0 <= i < a.len() ==> conflict_free(#[trigger] a[i]),
        _ => true,
    }
}

/// An open name takes whatever a use says of it, and a use as an open name changes
/// nothing.
pub proof fn law_open_name_is_neutral(s: SignatureView)
    ensures
        refined(SignatureView::NumberOrFunction, s) == s,
        refined(s, SignatureView::NumberOrFunction) == s,
{
}

/// A conflict stays a conflict, whichever side it is on.
pub proof fn law_conflict_absorbs(s: SignatureView)
    ensures
        refined(SignatureView::Conflicting, s) == SignatureView::Conflicting,
        refined(s, SignatureView::Conflicting) == SignatureView::Conflicting,
{
}

/// Refining a signature that holds no conflict with itself changes nothing.
pub proof fn law_refine_with_itself(s: SignatureView)
    requires
        conflict_free(s),
    ensures
        refined(s, s) == s,
    decreases s,
{
    if let SignatureView::Function(a) = s {
        lemma_refined_all(a, a);
        assert forall|i: int| 0 <= i < a.len() implies #[trigger] refined_all(a, a)[i] == a[i] by {
            assert(conflict_free(a[i]));
            law_refine_with_itself(a[i]);
        }
        assert(refined_all(a, a) =~= a);
        assert(!any_conflicting(a)) by {
            if any_conflicting(a) {
                let i = choose|i: int| 0 <= i < a.len() && #[trigger] a[i] is Conflicting;
                assert(conflict_free(a[i]));
            }
        }
    }
}

} // verus!
