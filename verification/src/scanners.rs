//! The patterns that open, continue and close blocks. Each is matched at an index of a line.
use crate::cursor::line_ok;
use crate::strings::{
    after_blanks, after_run, find_line_end, is_line_end_char, is_space_or_tab, lemma_find_line_end,
    lemma_skip_blanks, lemma_skip_run, line_end, line_end_from, skip_blanks, skip_run, space_or_tab,
};
use vstd::prelude::*;

verus! {

/// The character that underlines a heading.
#[derive(Clone, Copy, PartialEq, Eq, Structural, Debug)]
pub enum SetextChar {
    Equals,
    Hyphen,
}

/// One to six `#`, and behind them either white space, which belongs to the match, or the end
/// of the line, of which one byte belongs to it.
pub open spec fn atx_start(s: Seq<u8>, i: int) -> Option<int> {
    let h = skip_run(s, i, 35);
    if 1 <= h - i <= 6 && h < s.len() {
        if space_or_tab(s[h]) {
            Some(skip_blanks(s, h) - i)
        } else if line_end(s[h]) {
            Some(h - i + 1)
        } else {
            None
        }
    } else {
        None
    }
}

/// Three or more backquotes or tildes, none of which occurs again on the line.
pub open spec fn fence_start(s: Seq<u8>, i: int) -> Option<int> {
    let c = s[i];
    let e = skip_run(s, i, c);
    let j = find_line_end(s, e);
    if (c == 96 || c == 126) && e - i >= 3 && j < s.len() && (forall|k: int|
        e <= k < j ==> #[trigger] s[k] != c && s[k] != 0) {
        Some(e - i)
    } else {
        None
    }
}

/// Three or more backquotes or tildes with nothing but white space behind them.
pub open spec fn fence_end(s: Seq<u8>, i: int) -> Option<int> {
    let c = s[i];
    let e = skip_run(s, i, c);
    let j = skip_blanks(s, e);
    if (c == 96 || c == 126) && e - i >= 3 && j < s.len() && line_end(s[j]) {
        Some(e - i)
    } else {
        None
    }
}

/// A run of `=` or of `-` with nothing but white space behind it.
pub open spec fn setext_line(s: Seq<u8>, i: int) -> Option<SetextChar> {
    let c = s[i];
    let j = skip_blanks(s, skip_run(s, i, c));
    if (c == 61 || c == 45) && j < s.len() && line_end(s[j]) {
        if c == 61 {
            Some(SetextChar::Equals)
        } else {
            Some(SetextChar::Hyphen)
        }
    } else {
        None
    }
}

/// The first index from `i` on that holds neither `c` nor white space.
pub open spec fn skip_break(s: Seq<u8>, i: int, c: u8) -> int
    decreases s.len() - i,
{
    if 0 <= i < s.len() && (s[i] == c || space_or_tab(s[i])) {
        skip_break(s, i + 1, c)
    } else {
        i
    }
}

/// How often `c` occurs from `i` up to `j`.
pub open spec fn occurrences(s: Seq<u8>, i: int, j: int, c: u8) -> int
    decreases j - i,
{
    if i < j {
        occurrences(s, i + 1, j, c) + if s[i] == c {
            1int
        } else {
            0
        }
    } else {
        0
    }
}

/// Three or more of one of `*`, `_` and `-`, with nothing but white space between and behind
/// them. One byte of the line's end belongs to the match.
pub open spec fn break_line(s: Seq<u8>, i: int) -> Option<int> {
    let c = s[i];
    let j = skip_break(s, i, c);
    if (c == 42 || c == 95 || c == 45) && j < s.len() && line_end(s[j]) && occurrences(s, i, j, c)
        >= 3 {
        Some(j - i + 1)
    } else {
        None
    }
}

/// What a heading's start covers: the `#` run is within it, and the rest of it is white space.
pub proof fn lemma_atx_start(s: Seq<u8>, i: int)
    requires
        line_ok(s),
        0 <= i < s.len(),
    ensures
        atx_start(s, i) matches Some(m) ==> {
            &&& 1 <= skip_run(s, i, 35) - i <= 6
            &&& skip_run(s, i, 35) - i < m
            &&& i + m <= s.len()
            &&& s[i] == 35
            &&& i + m < s.len() ==> !space_or_tab(s[i + m])
        },
{
    lemma_skip_run(s, i, 35);
    let h = skip_run(s, i, 35);
    if h < s.len() {
        lemma_skip_blanks(s, h);
    }
}

/// An opening fence ends before the end of the line.
pub proof fn lemma_fence_start(s: Seq<u8>, i: int)
    requires
        line_ok(s),
        0 <= i < s.len(),
    ensures
        fence_start(s, i) matches Some(m) ==> 3 <= m && i + m < s.len(),
{
    lemma_skip_run(s, i, s[i]);
    lemma_find_line_end(s, skip_run(s, i, s[i]));
}

/// A closing fence ends before the end of the line.
pub proof fn lemma_fence_end(s: Seq<u8>, i: int)
    requires
        line_ok(s),
        0 <= i < s.len(),
    ensures
        fence_end(s, i) matches Some(m) ==> 3 <= m && i + m < s.len(),
{
    lemma_skip_run(s, i, s[i]);
    lemma_skip_blanks(s, skip_run(s, i, s[i]));
}

/// A break does not start at the end of the line.
pub proof fn lemma_break_line(s: Seq<u8>, i: int)
    requires
        line_ok(s),
        0 <= i < s.len(),
    ensures
        break_line(s, i) is Some ==> i < s.len() - 1,
{
}

pub fn atx_heading_start(s: &[u8], i: usize) -> (r: Option<usize>)
    requires
        i <= s@.len(),
    ensures
        match r {
            Some(m) => atx_start(s@, i as int) == Some(m as int),
            None => atx_start(s@, i as int) is None,
        },
{
    let h: usize = after_run(s, i, 35);
    if h == i || h - i > 6 || h >= s.len() {
        return None;
    }
    if is_space_or_tab(s[h]) {
        let e: usize = after_blanks(s, h);
        return Some(e - i);
    }
    if is_line_end_char(s[h]) {
        return Some(h - i + 1);
    }
    None
}

pub fn open_code_fence(s: &[u8], i: usize) -> (r: Option<usize>)
    requires
        i < s@.len(),
    ensures
        match r {
            Some(m) => fence_start(s@, i as int) == Some(m as int),
            None => fence_start(s@, i as int) is None,
        },
{
    let c: u8 = s[i];
    if c != 96 && c != 126 {
        return None;
    }
    let e: usize = after_run(s, i, c);
    let end: usize = line_end_from(s, e);
    proof {
        lemma_find_line_end(s@, e as int);
    }
    if e - i < 3 || end >= s.len() {
        return None;
    }
    let mut j: usize = e;
    while j < end
        invariant
            e <= j <= end,
            end < s@.len(),
            forall|k: int| e <= k < j ==> #[trigger] s@[k] != c && s@[k] != 0,
            end == find_line_end(s@, e as int),
            c == s@[i as int],
            e == skip_run(s@, i as int, c),
        decreases end - j,
    {
        if s[j] == c || s[j] == 0 {
            assert(!(s@[j as int] != c && s@[j as int] != 0));
            return None;
        }
        j += 1;
    }
    Some(e - i)
}

pub fn close_code_fence(s: &[u8], i: usize) -> (r: Option<usize>)
    requires
        i < s@.len(),
    ensures
        match r {
            Some(m) => fence_end(s@, i as int) == Some(m as int),
            None => fence_end(s@, i as int) is None,
        },
{
    let c: u8 = s[i];
    if c != 96 && c != 126 {
        return None;
    }
    let e: usize = after_run(s, i, c);
    let j: usize = after_blanks(s, e);
    if e - i >= 3 && j < s.len() && is_line_end_char(s[j]) {
        Some(e - i)
    } else {
        None
    }
}

pub fn setext_heading_line(s: &[u8], i: usize) -> (r: Option<SetextChar>)
    requires
        i < s@.len(),
    ensures
        r == setext_line(s@, i as int),
{
    let c: u8 = s[i];
    if c != 61 && c != 45 {
        return None;
    }
    let e: usize = after_run(s, i, c);
    let j: usize = after_blanks(s, e);
    if j < s.len() && is_line_end_char(s[j]) {
        if c == 61 {
            Some(SetextChar::Equals)
        } else {
            Some(SetextChar::Hyphen)
        }
    } else {
        None
    }
}

proof fn lemma_occurrences_split(s: Seq<u8>, i: int, j: int, c: u8)
    requires
        0 <= i <= j < s.len(),
    ensures
        occurrences(s, i, j + 1, c) == occurrences(s, i, j, c) + if s[j] == c {
            1int
        } else {
            0
        },
    decreases j - i,
{
    if i < j {
        lemma_occurrences_split(s, i + 1, j, c);
    } else {
        reveal_with_fuel(occurrences, 2);
    }
}

pub fn thematic_break(s: &[u8], i: usize) -> (r: Option<usize>)
    requires
        i < s@.len(),
    ensures
        match r {
            Some(m) => break_line(s@, i as int) == Some(m as int),
            None => break_line(s@, i as int) is None,
        },
{
    let c: u8 = s[i];
    if c != 42 && c != 95 && c != 45 {
        return None;
    }
    let mut j: usize = i;
    let mut count: usize = 0;
    while j < s.len() && (s[j] == c || is_space_or_tab(s[j]))
        invariant
            i <= j <= s@.len(),
            count <= j - i,
            count == occurrences(s@, i as int, j as int, c),
            skip_break(s@, i as int, c) == skip_break(s@, j as int, c),
        decreases s@.len() - j,
    {
        proof {
            lemma_occurrences_split(s@, i as int, j as int, c);
        }
        if s[j] == c {
            count += 1;
        }
        j += 1;
    }
    if j < s.len() && is_line_end_char(s[j]) && count >= 3 {
        Some(j - i + 1)
    } else {
        None
    }
}

} // verus!
