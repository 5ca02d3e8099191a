//! The history of the calculator's interface: what was calculated or defined, and when,
//! and the text helpers of its input field (bracket scopes, completion of names).

use vstd::prelude::*;
use crate::text::is_ascii_digit;

verus! {

/// A result text with an optional note beside it.
pub struct StringWithInfo {
    pub main: String,
    pub info: Option<String>,
}

/// What the output field shows.
pub enum OutputString {
    /// A string representing the definition of a symbol, along with an optional value
    SymbolDefinition(String, Option<StringWithInfo>),
    Result(StringWithInfo),
}

pub enum HistoryEntryContent {
    Calculation(String, StringWithInfo),
    /// The defined symbol string, and optionally its value as string
    SymbolDefinition(String, Option<String>),
    ClearedSymbols,
}

pub struct HistoryEntry {
    pub content: HistoryEntryContent,
    pub time: String,
}

/// The pages of the bottom panel.
#[derive(Debug, Copy, Clone, PartialEq, Eq, Structural)]
pub enum Page {
    History,
    DefinedSymbols,
}

pub struct BottomPanel {
    pub selected_page: Page,
    pub history: Vec<HistoryEntry>,
    pub all_symbol_strings: Vec<String>,
}

/// A clock time in the form `HH:MM`.
pub open spec fn is_clock_time(s: Seq<char>) -> bool {
    &&& s.len() == 5
    &&& is_ascii_digit(s[0]) && is_ascii_digit(s[1])
    &&& s[2] == ':'
    &&& is_ascii_digit(s[3]) && is_ascii_digit(s[4])
}

/// `chrono::Local::now().format("%H:%M")`: the local time as zero-padded hour and minute.
/// Which time it is, the contract leaves open.
#[verifier::external_body]
fn current_time() -> (s: String)
    ensures
        is_clock_time(s@),
{
    chrono::Local::now().format("%H:%M").to_string()
}

impl HistoryEntryContent {
    /// The icon shown in front of an entry.
    pub fn get_symbol(&self) -> (c: char)
        ensures
            c == match self {
                HistoryEntryContent::Calculation(..) => '🖩',
                HistoryEntryContent::SymbolDefinition(..) => '⛃',
                HistoryEntryContent::ClearedSymbols => '🗑',
            },
    {
        match self {
            HistoryEntryContent::Calculation(..) => '🖩',
            HistoryEntryContent::SymbolDefinition(..) => '⛃',
            HistoryEntryContent::ClearedSymbols => '🗑',
        }
    }
}

impl HistoryEntry {
    /// A calculation and its result, stamped with the current time.
    pub fn new_calculation(input: String, result: StringWithInfo) -> (e: Self)
        ensures
            e.content == HistoryEntryContent::Calculation(input, result),
            is_clock_time(e.time@),
    {
        HistoryEntry { content: HistoryEntryContent::Calculation(input, result), time: current_time() }
    }

    /// A symbol definition and its value, stamped with the current time.
    pub fn new_symbol_definition(string: String, value: Option<String>) -> (e: Self)
        ensures
            e.content == HistoryEntryContent::SymbolDefinition(string, value),
            is_clock_time(e.time@),
    {
        HistoryEntry { content: HistoryEntryContent::SymbolDefinition(string, value), time: current_time() }
    }

    /// The clearing of all custom symbols, stamped with the current time.
    pub fn cleared_symbols() -> (e: Self)
        ensures
            e.content == HistoryEntryContent::ClearedSymbols,
            is_clock_time(e.time@),
    {
        HistoryEntry { content: HistoryEntryContent::ClearedSymbols, time: current_time() }
    }
}

impl Page {
    /// The page's title.
    pub fn title(&self) -> (s: &'static str)
        ensures
            s@ == match self {
                Page::History => "History"@,
                Page::DefinedSymbols => "Defined Symbols"@,
            },
    {
        match self {
            Page::History => "History",
            Page::DefinedSymbols => "Defined Symbols",
        }
    }
}

impl BottomPanel {
    /// An empty panel showing the history.
    pub fn new() -> (p: Self)
        ensures
            p.selected_page == Page::History,
            p.history@.len() == 0,
            p.all_symbol_strings@.len() == 0,
    {
        BottomPanel { all_symbol_strings: Vec::new(), history: Vec::new(), selected_page: Page::History }
    }
}

/// Change of the bracket depth at a character: `(` opens, `)` closes.
pub open spec fn bracket_step(c: char) -> int {
    if c == '(' { 1 } else if c == ')' { -1 } else { 0 }
}

/// The character at `i`, or a space past the end.
pub open spec fn char_at(s: Seq<char>, i: int) -> char {
    if 0 <= i < s.len() { s[i] } else { ' ' }
}

/// The bracket depth after the characters `s[from..to]`, relative to `from`.
pub open spec fn depth_between(s: Seq<char>, from: int, to: int) -> int
    decreases to - from,
{
    if to <= from { 0 } else { depth_between(s, from, to - 1) + bracket_step(char_at(s, to - 1)) }
}

/// Scanning from `i` to `max` with the lowest depth so far `best_depth`, reached just before
/// `best`: the position after the last bracket that reached a new lowest depth.
pub open spec fn outest_pos_from(s: Seq<char>, min: int, i: int, max: int, best: int, best_depth: int) -> int
    decreases max - i,
{
    if i >= max {
        best
    } else {
        let d = depth_between(s, min, i + 1);
        if bracket_step(char_at(s, i)) != 0 && d < best_depth {
            outest_pos_from(s, min, i + 1, max, i + 1, d)
        } else {
            outest_pos_from(s, min, i + 1, max, best, best_depth)
        }
    }
}

/// Determine the position between the two cursor indices where the scope is the broadest:
/// the position behind the bracket where the depth, counted from `min`, first reaches its
/// lowest value below zero, or `min` where it never goes below zero.
pub fn determine_outest_cursor_pos(text: &Vec<char>, min: usize, max: usize) -> (r: usize)
    requires
        max < usize::MAX,
    ensures
        r == outest_pos_from(text@, min as int, min as int, max as int, min as int, 0),
{
    let mut outest_idx = min;
    let mut outest_layer: i128 = 0;
    let mut layer: i128 = 0;
    let mut i = min;
    while i < max
        invariant
            i >= min,
            max < usize::MAX,
            layer == depth_between(text@, min as int, i as int),
            -(i - min) <= layer <= i - min,
            outest_pos_from(text@, min as int, i as int, max as int, outest_idx as int, outest_layer as int)
                == outest_pos_from(text@, min as int, min as int, max as int, min as int, 0),
        decreases max - i,
    {
        let c = if i < text.len() { text[i] } else { ' ' };
        assert(c == char_at(text@, i as int));
        if c == ')' || c == '(' {
            if c == ')' { layer = layer - 1; } else { layer = layer + 1; }
            if layer < outest_layer {
                outest_layer = layer;
                outest_idx = i + 1;
            }
        }
        i = i + 1;
    }
    outest_idx
}

/// Scanning backwards from position `i` with the bracket balance `ind` (closing brackets
/// count up, opening ones down): the position behind the first unmatched `(`, or 0.
pub open spec fn scan_back(s: Seq<char>, i: int, ind: int) -> int
    decreases i,
{
    if i <= 0 {
        0
    } else {
        let c = s[i - 1];
        let ind2 = ind - bracket_step(c);
        if bracket_step(c) != 0 && ind2 < 0 { i } else { scan_back(s, i - 1, ind2) }
    }
}

/// Scanning forwards from position `i` with the bracket depth `ind`: the position of the
/// first unmatched `)`, or the length.
pub open spec fn scan_forward(s: Seq<char>, i: int, ind: int) -> int
    decreases s.len() - i,
{
    if i >= s.len() {
        s.len() as int
    } else {
        let ind2 = ind + bracket_step(s[i]);
        if bracket_step(s[i]) != 0 && ind2 < 0 { i } else { scan_forward(s, i + 1, ind2) }
    }
}

/// The innermost bracket pair around `idx`: `None` where `idx` is past the end or no bracket encloses it.
pub open spec fn bracket_range(s: Seq<char>, idx: int) -> Option<(int, int)> {
    if idx > s.len() {
        None
    } else {
        let mn = scan_back(s, idx, 0);
        let mx = scan_forward(s, idx, 0);
        if mn == 0 && mx == s.len() { None } else { Some((mn, mx)) }
    }
}

/// The range of characters inside the innermost brackets around the position `idx`.
pub fn find_bracket_range(text: &str, idx: usize) -> (r: Option<(usize, usize)>)
    ensures
        match r {
            Some((a, b)) => bracket_range(text@, idx as int) == Some((a as int, b as int)),
            None => bracket_range(text@, idx as int) is None,
        },
{
    let chars = crate::text::chars_of(text);
    if idx > chars.len() {
        return None;
    }
    let mut min: usize = 0;
    let mut indenting: i128 = 0;
    let mut i = idx;
    let mut done = false;
    while i > 0 && !done
        invariant
            i <= idx <= chars@.len(),
            chars@ == text@,
            -(idx - i) <= indenting <= idx - i,
            !done ==> scan_back(chars@, i as int, indenting as int) == scan_back(chars@, idx as int, 0),
            done ==> min == scan_back(chars@, idx as int, 0),
            !done ==> min == 0,
        decreases i,
    {
        let c = chars[i - 1];
        if c == ')' || c == '(' {
            if c == ')' { indenting = indenting + 1; } else { indenting = indenting - 1; }
            if indenting < 0 {
                min = i;
                done = true;
            }
        }
        i = i - 1;
    }
    assert(min == scan_back(chars@, idx as int, 0));
    indenting = 0;
    let mut max = chars.len();
    let mut j = idx;
    done = false;
    while j < chars.len() && !done
        invariant
            idx <= j <= chars@.len(),
            chars@ == text@,
            -(j - idx) <= indenting <= j - idx,
            !done ==> scan_forward(chars@, j as int, indenting as int) == scan_forward(chars@, idx as int, 0),
            !done ==> max == chars@.len(),
            done ==> max == scan_forward(chars@, idx as int, 0),
        decreases chars.len() - j,
    {
        let c = chars[j];
        if c == ')' || c == '(' {
            if c == ')' { indenting = indenting - 1; } else { indenting = indenting + 1; }
            if indenting < 0 {
                max = j;
                done = true;
            }
        }
        j = j + 1;
    }
    assert(max == scan_forward(chars@, idx as int, 0));
    if min == 0 && max == chars.len() { None } else { Some((min, max)) }
}

/// The length of the common start of `a` and `b`, looking at the first `max` characters from `i` on.
pub open spec fn matching_prefix_len(a: Seq<char>, b: Seq<char>, max: int, i: int) -> int
    decreases max - i,
{
    if i >= max { max } else if a[i] != b[i] { i } else { matching_prefix_len(a, b, max, i + 1) }
}

/// The length of the start of `first` that the names from `k` on share, given `len` so far.
pub open spec fn common_start_len(first: Seq<char>, names: Seq<Seq<char>>, k: int, len: int) -> int
    decreases names.len() - k,
{
    if k >= names.len() {
        len
    } else if len == 0 {
        0
    } else {
        let m = if len <= names[k].len() { len } else { names[k].len() as int };
        common_start_len(first, names, k + 1, matching_prefix_len(first, names[k], m, 0))
    }
}

/// The longest start that all names share (empty for no names).
pub open spec fn longest_common_start(names: Seq<Seq<char>>) -> Seq<char> {
    if names.len() == 0 {
        Seq::empty()
    } else {
        names[0].take(common_start_len(names[0], names, 1, names[0].len() as int))
    }
}

/// The text of each name.
pub open spec fn texts(names: Seq<String>) -> Seq<Seq<char>> {
    names.map_values(|n: String| n@)
}

/// The longest start shared by all the names, for completing an input.
pub fn determine_longest_common_start(names: &Vec<String>) -> (r: String)
    ensures
        r@ == longest_common_start(texts(names@)),
{
    if names.len() == 0 {
        return String::new();
    }
    let first = crate::text::chars_of(names[0].as_str());
    let ghost all = texts(names@);
    let mut longest_common: usize = first.len();
    let mut k: usize = 1;
    while k < names.len() && longest_common != 0
        invariant
            1 <= k <= names@.len(),
            all == texts(names@),
            first@ == all[0],
            longest_common <= first@.len(),
            common_start_len(first@, all, k as int, longest_common as int)
                == common_start_len(first@, all, 1, first@.len() as int),
        decreases names.len() - k,
    {
        let name = crate::text::chars_of(names[k].as_str());
        assert(name@ == all[k as int]);
        let max = if longest_common <= name.len() { longest_common } else { name.len() };
        let mut i: usize = 0;
        let mut found = max;
        while i < max && found == max
            invariant
                i <= max <= first@.len(),
                max <= name@.len(),
                found <= max,
                found == max ==> matching_prefix_len(first@, name@, max as int, i as int) == matching_prefix_len(first@, name@, max as int, 0),
                found < max ==> found == matching_prefix_len(first@, name@, max as int, 0),
            decreases max - i, (if found == max { 1int } else { 0int }),
        {
            if first[i] != name[i] {
                found = i;
            } else {
                i = i + 1;
            }
        }
        assert(found == matching_prefix_len(first@, name@, max as int, 0));
        longest_common = found;
        k = k + 1;
    }
    let mut prefix = first;
    prefix.truncate(longest_common);
    crate::text::string_of(&prefix)
}

} // verus!
