//! Splitting of unparsed text and element lists at an operator character.

use vstd::prelude::*;
use crate::element::{Element, ElementView, view_seq, lemma_view_seq_len, lemma_view_seq_index, lemma_view_seq_push};
use crate::text::{chars_of, string_of};

verus! {

/// Whether one of the unparsed strings in the list holds `d`.
pub open spec fn list_contains_char(es: Seq<ElementView>, d: char) -> bool {
    exists|i: int| 0 <= i < es.len() && #[trigger] string_holds(es[i], d)
}

/// Whether `e` is an unparsed string holding `d`.
pub open spec fn string_holds(e: ElementView, d: char) -> bool {
    e matches ElementView::String(s) && s.contains(d)
}

/// Adds the group collected so far: nothing when empty, the element itself when it is
/// alone, else the elements in brackets.
pub open spec fn close_group(groups: Seq<ElementView>, cur: Seq<ElementView>) -> Seq<ElementView> {
    if cur.len() == 0 {
        groups
    } else if cur.len() == 1 {
        groups.push(cur[0])
    } else {
        groups.push(ElementView::Brackets(cur))
    }
}

/// Adds a non-empty piece of text to the group collected so far.
pub open spec fn push_piece(cur: Seq<ElementView>, piece: Seq<char>) -> Seq<ElementView> {
    if piece.len() == 0 { cur } else { cur.push(ElementView::String(piece)) }
}

/// Splitting the text `s` from position `k` on at `d`, with the current `piece`: each `d`
/// ends the piece and the group; the last piece stays in the current group.
pub open spec fn split_text_into(
    s: Seq<char>, d: char, k: int, piece: Seq<char>, groups: Seq<ElementView>, cur: Seq<ElementView>,
) -> (Seq<ElementView>, Seq<ElementView>)
    decreases s.len() - k,
{
    if k >= s.len() {
        (groups, push_piece(cur, piece))
    } else if s[k] == d {
        split_text_into(s, d, k + 1, Seq::empty(), close_group(groups, push_piece(cur, piece)), Seq::empty())
    } else {
        split_text_into(s, d, k + 1, piece.push(s[k]), groups, cur)
    }
}

/// Splitting the elements from `i` on: strings holding `d` are cut at each `d`, every
/// other element joins the current group.
pub open spec fn split_list_from(
    es: Seq<ElementView>, d: char, i: int, groups: Seq<ElementView>, cur: Seq<ElementView>,
) -> Seq<ElementView>
    decreases es.len() - i,
{
    if i >= es.len() {
        close_group(groups, cur)
    } else if string_holds(es[i], d) {
        let s = es[i]->String_0;
        let gc = split_text_into(s, d, 0, Seq::empty(), groups, cur);
        split_list_from(es, d, i + 1, gc.0, gc.1)
    } else {
        split_list_from(es, d, i + 1, groups, cur.push(es[i]))
    }
}

/// The groups of elements between the occurrences of `d` in the unparsed strings of the list;
/// `None` when no string holds `d`.
pub open spec fn split_list(es: Seq<ElementView>, d: char) -> Option<Seq<ElementView>> {
    if list_contains_char(es, d) {
        Some(split_list_from(es, d, 0, Seq::empty(), Seq::empty()))
    } else {
        None
    }
}

/// The non-empty pieces of `s` from position `k` on between the occurrences of `d`, as strings.
pub open spec fn text_pieces_from(s: Seq<char>, d: char, k: int, piece: Seq<char>, acc: Seq<ElementView>) -> Seq<ElementView>
    decreases s.len() - k,
{
    if k >= s.len() {
        push_piece(acc, piece)
    } else if s[k] == d {
        text_pieces_from(s, d, k + 1, Seq::empty(), push_piece(acc, piece))
    } else {
        text_pieces_from(s, d, k + 1, piece.push(s[k]), acc)
    }
}

/// The non-empty pieces of `s` between the occurrences of `d`; `None` when `s` has no `d`.
pub open spec fn split_text(s: Seq<char>, d: char) -> Option<Seq<ElementView>> {
    if s.contains(d) { Some(text_pieces_from(s, d, 0, Seq::empty(), Seq::empty())) } else { None }
}

/// Whether `d` is among the characters.
pub fn chars_contain(cs: &Vec<char>, d: char) -> (b: bool)
    ensures
        b == cs@.contains(d),
{
    let mut i: usize = 0;
    while i < cs.len()
        invariant
            i <= cs@.len(),
            forall|j: int| 0 <= j < i ==> cs@[j] != d,
        decreases cs.len() - i,
    {
        if cs[i] == d {
            assert(cs@[i as int] == d);
            return true;
        }
        i = i + 1;
    }
    false
}

/// Whether one of the unparsed strings of the list holds `d`.
pub fn list_contains_char_exec(input: &Vec<Element>, d: char) -> (b: bool)
    ensures
        b == list_contains_char(view_seq(input@), d),
{
    proof {
        lemma_view_seq_len(input@);
    }
    let mut i: usize = 0;
    while i < input.len()
        invariant
            i <= input@.len(),
            view_seq(input@).len() == input@.len(),
            forall|j: int| 0 <= j < i ==> !string_holds(#[trigger] view_seq(input@)[j], d),
        decreases input.len() - i,
    {
        proof {
            lemma_view_seq_index(input@, i as int);
        }
        match &input[i] {
            Element::String(s) => {
                let cs = chars_of(s.as_str());
                if chars_contain(&cs, d) {
                    assert(string_holds(view_seq(input@)[i as int], d));
                    return true;
                }
            },
            _ => {},
        }
        i = i + 1;
    }
    false
}

/// Adds the collected group to the groups (see `close_group`).
fn close_group_exec(groups: &mut Vec<Element>, cur: Vec<Element>)
    ensures
        view_seq(final(groups)@) == close_group(view_seq(old(groups)@), view_seq(cur@)),
{
    proof {
        lemma_view_seq_len(cur@);
    }
    if cur.len() == 0 {
    } else if cur.len() == 1 {
        let mut c = cur;
        proof {
            lemma_view_seq_index(c@, 0);
        }
        let x = c.pop().unwrap();
        proof {
            lemma_view_seq_push(groups@, x);
        }
        groups.push(x);
    } else {
        let ghost g = groups@;
        let b = Element::Brackets(cur);
        proof {
            lemma_view_seq_push(g, b);
        }
        groups.push(b);
    }
}

/// Adds a non-empty piece of text to the current group (see `push_piece`).
fn push_piece_exec(cur: &mut Vec<Element>, piece: &Vec<char>)
    ensures
        view_seq(final(cur)@) == push_piece(view_seq(old(cur)@), piece@),
{
    if piece.len() > 0 {
        let e = Element::String(string_of(piece));
        proof {
            lemma_view_seq_push(cur@, e);
        }
        cur.push(e);
    }
}

/// Splits the text `s`, holding `d`, into the groups (see `split_text_into`).
fn split_text_into_exec(s: &Vec<char>, d: char, groups: &mut Vec<Element>, cur: &mut Vec<Element>)
    ensures
        (view_seq(final(groups)@), view_seq(final(cur)@))
            == split_text_into(s@, d, 0, Seq::empty(), view_seq(old(groups)@), view_seq(old(cur)@)),
{
    let mut piece: Vec<char> = Vec::new();
    let mut k: usize = 0;
    while k < s.len()
        invariant
            k <= s@.len(),
            split_text_into(s@, d, k as int, piece@, view_seq(groups@), view_seq(cur@))
                == split_text_into(s@, d, 0, Seq::empty(), view_seq(old(groups)@), view_seq(old(cur)@)),
        decreases s.len() - k,
    {
        if s[k] == d {
            push_piece_exec(cur, &piece);
            let mut taken: Vec<Element> = Vec::new();
            std::mem::swap(&mut taken, cur);
            close_group_exec(groups, taken);
            piece = Vec::new();
        } else {
            piece.push(s[k]);
        }
        k = k + 1;
    }
    push_piece_exec(cur, &piece);
}

/// The groups between the occurrences of `d` in the unparsed strings of the list
/// (see `split_list`); the elements are copied.
pub fn split_list_by_char(input: &Vec<Element>, d: char) -> (r: Option<Vec<Element>>)
    ensures
        match r {
            Some(v) => split_list(view_seq(input@), d) == Some(view_seq(v@)),
            None => split_list(view_seq(input@), d) is None,
        },
{
    if !list_contains_char_exec(input, d) {
        return None;
    }
    proof {
        lemma_view_seq_len(input@);
    }
    let ghost es = view_seq(input@);
    let mut groups: Vec<Element> = Vec::new();
    let mut cur: Vec<Element> = Vec::new();
    let mut i: usize = 0;
    while i < input.len()
        invariant
            i <= input@.len(),
            es == view_seq(input@),
            es.len() == input@.len(),
            split_list_from(es, d, i as int, view_seq(groups@), view_seq(cur@))
                == split_list_from(es, d, 0, Seq::empty(), Seq::empty()),
        decreases input.len() - i,
    {
        proof {
            lemma_view_seq_index(input@, i as int);
        }
        match &input[i] {
            Element::String(s) => {
                let cs = chars_of(s.as_str());
                if chars_contain(&cs, d) {
                    split_text_into_exec(&cs, d, &mut groups, &mut cur);
                } else {
                    let e = input[i].duplicate();
                    proof {
                        lemma_view_seq_push(cur@, e);
                    }
                    cur.push(e);
                }
            },
            _ => {
                let e = input[i].duplicate();
                proof {
                    lemma_view_seq_push(cur@, e);
                }
                cur.push(e);
            },
        }
        i = i + 1;
    }
    close_group_exec(&mut groups, cur);
    Some(groups)
}

/// The non-empty pieces of `s` between the occurrences of `d` (see `split_text`).
pub fn split_string_by_char(input: &str, d: char) -> (r: Option<Vec<Element>>)
    ensures
        match r {
            Some(v) => split_text(input@, d) == Some(view_seq(v@)),
            None => split_text(input@, d) is None,
        },
{
    let s = chars_of(input);
    if !chars_contain(&s, d) {
        return None;
    }
    let mut acc: Vec<Element> = Vec::new();
    let mut piece: Vec<char> = Vec::new();
    let mut k: usize = 0;
    while k < s.len()
        invariant
            k <= s@.len(),
            s@ == input@,
            text_pieces_from(s@, d, k as int, piece@, view_seq(acc@))
                == text_pieces_from(s@, d, 0, Seq::empty(), Seq::empty()),
        decreases s.len() - k,
    {
        if s[k] == d {
            push_piece_exec(&mut acc, &piece);
            piece = Vec::new();
        } else {
            piece.push(s[k]);
        }
        k = k + 1;
    }
    push_piece_exec(&mut acc, &piece);
    Some(acc)
}

// ---------------------------------------------------------------------------
// Heights: what the splitting gives is no higher than the list it splits
// ---------------------------------------------------------------------------

/// The nesting height of an element: 0 for leaves.
pub open spec fn height(e: ElementView) -> nat
    decreases e,
{
    match e {
        ElementView::Brackets(s) => 1 + max_height(s),
        ElementView::Plus(s) => 1 + max_height(s),
        ElementView::Multiply(s) => 1 + max_height(s),
        ElementView::Function(_, s) => 1 + max_height(s),
        ElementView::FunctionWithExpression(s, _) => 1 + max_height(s),
        ElementView::Pow(a, b) => 1 + (if height(*a) >= height(*b) { height(*a) } else { height(*b) }),
        ElementView::Negate(a) => 1 + height(*a),
        _ => 0,
    }
}

/// The largest height among the elements (0 for none).
pub open spec fn max_height(s: Seq<ElementView>) -> nat
    decreases s,
{
    if s.len() == 0 {
        0
    } else {
        let m = max_height(s.drop_last());
        let h = height(s.last());
        if m >= h { m } else { h }
    }
}

pub proof fn lemma_max_height(s: Seq<ElementView>)
    ensures
        forall|i: int| 0 <= i < s.len() ==> #[trigger] height(s[i]) <= max_height(s),
    decreases s.len(),
{
    if s.len() > 0 {
        lemma_max_height(s.drop_last());
        assert forall|i: int| 0 <= i < s.len() implies #[trigger] height(s[i]) <= max_height(s) by {
            if i < s.len() - 1 {
                assert(s.drop_last()[i] == s[i]);
            }
        }
    }
}

/// Elements all no higher than `m`, and none of them a string holding `d`.
pub open spec fn low_and_free(s: Seq<ElementView>, d: char, m: nat) -> bool {
    forall|i: int| 0 <= i < s.len() ==> height(#[trigger] s[i]) <= m && !string_holds(s[i], d)
}

/// A group cut from a list of elements no higher than `m`: lower than the bracket group
/// of that list, or a bracket group as high as it but without `d` in its strings.
pub open spec fn fitting_group(g: ElementView, d: char, m: nat) -> bool {
    height(g) <= m || (g matches ElementView::Brackets(cur) && !list_contains_char(cur, d) && max_height(cur) <= m)
}

pub open spec fn fitting_groups(s: Seq<ElementView>, d: char, m: nat) -> bool {
    forall|i: int| 0 <= i < s.len() ==> fitting_group(#[trigger] s[i], d, m)
}

proof fn lemma_low_and_free_max(s: Seq<ElementView>, d: char, m: nat)
    requires
        low_and_free(s, d, m),
    ensures
        max_height(s) <= m,
        !list_contains_char(s, d),
    decreases s.len(),
{
    if s.len() > 0 {
        assert(low_and_free(s.drop_last(), d, m)) by {
            assert forall|i: int| 0 <= i < s.drop_last().len() implies height(#[trigger] s.drop_last()[i]) <= m && !string_holds(s.drop_last()[i], d) by {
                assert(s.drop_last()[i] == s[i]);
            }
        }
        lemma_low_and_free_max(s.drop_last(), d, m);
        assert(height(s[s.len() - 1]) <= m);
    }
}

proof fn lemma_close_group_fits(groups: Seq<ElementView>, cur: Seq<ElementView>, d: char, m: nat)
    requires
        fitting_groups(groups, d, m),
        low_and_free(cur, d, m),
    ensures
        fitting_groups(close_group(groups, cur), d, m),
{
    let r = close_group(groups, cur);
    if cur.len() >= 2 {
        lemma_low_and_free_max(cur, d, m);
    }
    assert forall|i: int| 0 <= i < r.len() implies fitting_group(#[trigger] r[i], d, m) by {
        if i < groups.len() {
            assert(r[i] == groups[i]);
        }
    }
}

proof fn lemma_push_piece_free(cur: Seq<ElementView>, piece: Seq<char>, d: char, m: nat)
    requires
        low_and_free(cur, d, m),
        !piece.contains(d),
    ensures
        low_and_free(push_piece(cur, piece), d, m),
{
    let r = push_piece(cur, piece);
    assert forall|i: int| 0 <= i < r.len() implies height(#[trigger] r[i]) <= m && !string_holds(r[i], d) by {
        if i < cur.len() {
            assert(r[i] == cur[i]);
        }
    }
}

proof fn lemma_split_text_fits(
    s: Seq<char>, d: char, k: int, piece: Seq<char>, groups: Seq<ElementView>, cur: Seq<ElementView>, m: nat,
)
    requires
        0 <= k,
        fitting_groups(groups, d, m),
        low_and_free(cur, d, m),
        !piece.contains(d),
    ensures
        fitting_groups(split_text_into(s, d, k, piece, groups, cur).0, d, m),
        low_and_free(split_text_into(s, d, k, piece, groups, cur).1, d, m),
    decreases s.len() - k,
{
    if k >= s.len() {
        lemma_push_piece_free(cur, piece, d, m);
    } else if s[k] == d {
        lemma_push_piece_free(cur, piece, d, m);
        lemma_close_group_fits(groups, push_piece(cur, piece), d, m);
        assert(!Seq::<char>::empty().contains(d));
        assert(low_and_free(Seq::<ElementView>::empty(), d, m));
        lemma_split_text_fits(s, d, k + 1, Seq::empty(), close_group(groups, push_piece(cur, piece)), Seq::empty(), m);
    } else {
        assert(!piece.push(s[k]).contains(d)) by {
            if piece.push(s[k]).contains(d) {
                let j = choose|j: int| 0 <= j < piece.push(s[k]).len() && piece.push(s[k])[j] == d;
                if j < piece.len() {
                    assert(piece[j] == d);
                }
            }
        }
        lemma_split_text_fits(s, d, k + 1, piece.push(s[k]), groups, cur, m);
    }
}

proof fn lemma_split_list_fits(es: Seq<ElementView>, d: char, i: int, groups: Seq<ElementView>, cur: Seq<ElementView>)
    requires
        0 <= i,
        fitting_groups(groups, d, max_height(es)),
        low_and_free(cur, d, max_height(es)),
    ensures
        fitting_groups(split_list_from(es, d, i, groups, cur), d, max_height(es)),
    decreases es.len() - i,
{
    let m = max_height(es);
    lemma_max_height(es);
    if i >= es.len() {
        lemma_close_group_fits(groups, cur, d, m);
    } else if string_holds(es[i], d) {
        let s = es[i]->String_0;
        assert(!Seq::<char>::empty().contains(d));
        lemma_split_text_fits(s, d, 0, Seq::empty(), groups, cur, m);
        let gc = split_text_into(s, d, 0, Seq::empty(), groups, cur);
        lemma_split_list_fits(es, d, i + 1, gc.0, gc.1);
    } else {
        assert(height(es[i]) <= m);
        assert(low_and_free(cur.push(es[i]), d, m)) by {
            assert forall|j: int| 0 <= j < cur.push(es[i]).len() implies height(#[trigger] cur.push(es[i])[j]) <= m && !string_holds(cur.push(es[i])[j], d) by {
                if j < cur.len() {
                    assert(cur.push(es[i])[j] == cur[j]);
                }
            }
        }
        lemma_split_list_fits(es, d, i + 1, groups, cur.push(es[i]));
    }
}

/// Every group that `split_list` cuts from `es` is lower than the bracket group of `es`,
/// or a bracket group as high as it without `d` in its strings.
pub proof fn lemma_split_list_groups(es: Seq<ElementView>, d: char)
    requires
        split_list(es, d) is Some,
    ensures
        fitting_groups(split_list(es, d)->0, d, max_height(es)),
{
    lemma_split_list_fits(es, d, 0, Seq::empty(), Seq::empty());
}

/// The pieces of a text are strings without `d`.
pub open spec fn free_pieces(s: Seq<ElementView>, d: char) -> bool {
    forall|i: int| 0 <= i < s.len() ==> (#[trigger] s[i] matches ElementView::String(t) && !t.contains(d))
}

} // verus!
