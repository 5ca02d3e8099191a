//! Names used by the element-matching patterns: the pattern keywords and the names of the
//! variables that a match binds.

use vstd::prelude::*;
use crate::text::{chars_of, string_of, push_nat_decimal, nat_to_decimal};

verus! {

/// The element kinds a pattern can name.
#[derive(Debug, Copy, Clone, PartialEq, Eq, Structural)]
pub enum MatchElement {
    Number,
    Negate,
    Plus,
    Multiply,
    Pow,
    Variable,
    Function,
}

/// Whether two texts are equal, character by character.
pub fn same_text(a: &str, b: &str) -> (r: bool)
    ensures
        r == (a@ == b@),
{
    let x = chars_of(a);
    let y = chars_of(b);
    if x.len() != y.len() {
        assert(x@.len() != y@.len());
        return false;
    }
    let mut i: usize = 0;
    while i < x.len()
        invariant
            i <= x@.len(),
            x@.len() == y@.len(),
            x@ == a@,
            y@ == b@,
            forall|j: int| 0 <= j < i ==> x@[j] == y@[j],
        decreases x.len() - i,
    {
        if x[i] != y[i] {
            assert(x@[i as int] != y@[i as int]);
            return false;
        }
        i = i + 1;
    }
    assert(x@ =~= y@);
    true
}

impl MatchElement {
    /// The element kind of a pattern keyword.
    pub fn from_str(s: &str) -> (r: Option<Self>)
        ensures
            r == (if s@ == "num"@ { Some(MatchElement::Number) }
                else if s@ == "plus"@ { Some(MatchElement::Plus) }
                else if s@ == "mul"@ { Some(MatchElement::Multiply) }
                else if s@ == "pow"@ { Some(MatchElement::Pow) }
                else if s@ == "var"@ { Some(MatchElement::Variable) }
                else if s@ == "fun"@ { Some(MatchElement::Function) }
                else if s@ == "neg"@ { Some(MatchElement::Negate) }
                else { None }),
    {
        if same_text(s, "num") {
            Some(MatchElement::Number)
        } else if same_text(s, "plus") {
            Some(MatchElement::Plus)
        } else if same_text(s, "mul") {
            Some(MatchElement::Multiply)
        } else if same_text(s, "pow") {
            Some(MatchElement::Pow)
        } else if same_text(s, "var") {
            Some(MatchElement::Variable)
        } else if same_text(s, "fun") {
            Some(MatchElement::Function)
        } else if same_text(s, "neg") {
            Some(MatchElement::Negate)
        } else {
            None
        }
    }

    /// The name of the element variant that the kind matches.
    pub fn pattern_name(&self) -> (s: &'static str)
        ensures
            s@ == match self {
                MatchElement::Number => "Number"@,
                MatchElement::Negate => "Negate"@,
                MatchElement::Plus => "Plus"@,
                MatchElement::Multiply => "Multiply"@,
                MatchElement::Pow => "Pow"@,
                MatchElement::Variable => "Variable"@,
                MatchElement::Function => "Function"@,
            },
    {
        match self {
            MatchElement::Number => "Number",
            MatchElement::Negate => "Negate",
            MatchElement::Plus => "Plus",
            MatchElement::Multiply => "Multiply",
            MatchElement::Pow => "Pow",
            MatchElement::Variable => "Variable",
            MatchElement::Function => "Function",
        }
    }
}

/// `__var_` followed by the index.
pub open spec fn var_name(i: nat) -> Seq<char> {
    "__var_"@ + nat_to_decimal(i)
}

/// The name of the variable bound by the `i`-th matcher.
pub fn create_var_name(i: usize) -> (s: String)
    ensures
        s@ == var_name(i as nat),
{
    let mut out = chars_of("__var_");
    push_nat_decimal(&mut out, i as u64);
    string_of(&out)
}

/// `name.0, name.1, ..., name.(count - 1)`
pub open spec fn flattened_var(name: Seq<char>, count: nat) -> Seq<char>
    decreases count,
{
    if count == 0 {
        Seq::empty()
    } else if count == 1 {
        name + "."@ + nat_to_decimal(0)
    } else {
        flattened_var(name, (count - 1) as nat) + ", "@ + name + "."@ + nat_to_decimal((count - 1) as nat)
    }
}

/// The fields of a tuple variable, separated by commas.
pub fn create_flattened_var(name: &str, count: usize) -> (s: String)
    ensures
        s@ == flattened_var(name@, count as nat),
{
    let name_chars = chars_of(name);
    let mut out: Vec<char> = Vec::new();
    let mut i: usize = 0;
    while i < count
        invariant
            i <= count,
            name_chars@ == name@,
            out@ == flattened_var(name@, i as nat),
        decreases count - i,
    {
        if i > 0 {
            out.push(',');
            out.push(' ');
        }
        let mut k: usize = 0;
        let ghost before = out@;
        while k < name_chars.len()
            invariant
                k <= name_chars@.len(),
                out@ == before + name_chars@.take(k as int),
            decreases name_chars.len() - k,
        {
            out.push(name_chars[k]);
            proof {
                assert(name_chars@.take(k + 1) =~= name_chars@.take(k as int).push(name_chars@[k as int]));
            }
            k = k + 1;
        }
        out.push('.');
        push_nat_decimal(&mut out, i as u64);
        proof {
            assert(name_chars@.take(k as int) =~= name@);
            reveal_strlit(".");
            reveal_strlit(", ");
            if i == 0 {
                assert(out@ =~= name@ + "."@ + nat_to_decimal(0));
            } else {
                assert(out@ =~= flattened_var(name@, i as nat) + ", "@ + name@ + "."@ + nat_to_decimal(i as nat));
            }
        }
        i = i + 1;
    }
    string_of(&out)
}

} // verus!
