//! The markers that open list items.
use crate::ctype::{is_digit, is_space, isdigit, isspace};
use crate::nodes::{ListDelimType, ListType, NodeList};
use crate::strings::{after_blanks, is_line_end_char, lemma_skip_blanks, line_end, skip_blanks};
use vstd::prelude::*;

verus! {

/// An ordered list's number has at most this many digits.
pub const MAX_MARKER_DIGITS: usize = 9;

/// How many digits stand from `i` on, up to `max` of them.
pub open spec fn digit_count(s: Seq<u8>, i: int, max: int) -> int
    decreases max,
{
    if max > 0 && 0 <= i < s.len() && is_digit(s[i]) {
        1 + digit_count(s, i + 1, max - 1)
    } else {
        0
    }
}

/// The number that the `n` digits from `i` on write.
pub open spec fn digits_value(s: Seq<u8>, i: int, n: int) -> int
    decreases n,
{
    if n > 0 {
        10 * digits_value(s, i, n - 1) + (s[i + n - 1] - 48)
    } else {
        0
    }
}

pub open spec fn pow10(n: int) -> int
    decreases n,
{
    if n > 0 {
        10 * pow10(n - 1)
    } else {
        1
    }
}

/// A list that nothing is known of yet but its marker.
pub open spec fn marked_list(
    list_type: ListType,
    start: usize,
    delimiter: ListDelimType,
    bullet_char: u8,
) -> NodeList {
    NodeList {
        list_type,
        marker_offset: 0,
        padding: 0,
        start,
        delimiter,
        bullet_char,
        tight: false,
    }
}

/// From `i` on there is nothing but spaces and tabs up to a line end.
pub open spec fn rest_is_blank(line: Seq<u8>, i: int) -> bool {
    skip_blanks(line, i) < line.len() && line_end(line[skip_blanks(line, i)])
}

/// From `i` on there is nothing but spaces and tabs up to a line feed.
pub open spec fn line_feed_follows(line: Seq<u8>, i: int) -> bool {
    skip_blanks(line, i) < line.len() && line[skip_blanks(line, i)] == 10
}

/// The list marker at `pos` with its length, if there is one. A bullet is one of `*`, `-` and
/// `+`; a number of one to nine digits is followed by `.` or `)`. White space follows either.
/// Where a paragraph would be interrupted, the item may not be empty, and a number must be 1.
pub open spec fn list_marker(line: Seq<u8>, pos: int, interrupts_paragraph: bool) -> Option<
    (int, NodeList),
> {
    let c = line[pos];
    let n = digit_count(line, pos, MAX_MARKER_DIGITS as int);
    let start = digits_value(line, pos, n);
    let d = line[pos + n];
    if c == 42 || c == 45 || c == 43 {
        if is_space(line[pos + 1]) && !(interrupts_paragraph && line_feed_follows(
            line,
            pos + 1,
        )) {
            Some((1, marked_list(ListType::Bullet, 1, ListDelimType::Period, c)))
        } else {
            None
        }
    } else if n > 0 && (d == 46 || d == 41) && is_space(line[pos + n + 1]) && !(
    interrupts_paragraph && (start != 1 || rest_is_blank(line, pos + n + 1))) {
        Some(
            (
                n + 1,
                marked_list(
                    ListType::Ordered,
                    start as usize,
                    if d == 46 {
                        ListDelimType::Period
                    } else {
                        ListDelimType::Paren
                    },
                    0,
                ),
            ),
        )
    } else {
        None
    }
}

pub proof fn lemma_digit_count(s: Seq<u8>, i: int, max: int)
    requires
        0 <= i <= s.len(),
        0 <= max,
    ensures
        0 <= digit_count(s, i, max) <= max,
        i + digit_count(s, i, max) <= s.len(),
        forall|k: int| i <= k < i + digit_count(s, i, max) ==> is_digit(#[trigger] s[k]),
    decreases max,
{
    if max > 0 && i < s.len() && is_digit(s[i]) {
        lemma_digit_count(s, i + 1, max - 1);
    }
}

pub proof fn lemma_digits_value(s: Seq<u8>, i: int, n: int)
    requires
        0 <= i,
        0 <= n,
        i + n <= s.len(),
        forall|k: int| i <= k < i + n ==> is_digit(#[trigger] s[k]),
    ensures
        0 <= digits_value(s, i, n) < pow10(n),
    decreases n,
{
    if n > 0 {
        lemma_digits_value(s, i, n - 1);
        assert(is_digit(s[i + n - 1]));
    }
}

proof fn lemma_pow10()
    ensures
        pow10(9) == 1000000000,
{
    reveal_with_fuel(pow10, 10);
}

proof fn lemma_pow10_grows(m: int, n: int)
    requires
        0 <= m <= n,
    ensures
        0 < pow10(m) <= pow10(n),
    decreases n,
{
    if 0 < n {
        if m < n {
            lemma_pow10_grows(m, n - 1);
        } else {
            lemma_pow10_grows(m - 1, n - 1);
        }
    }
}

/// A marker is at most ten bytes long, lies within the line, and is followed by white space;
/// the number of an ordered list stays below a thousand million.
pub proof fn lemma_list_marker(line: Seq<u8>, pos: int, interrupts_paragraph: bool)
    requires
        0 <= pos < line.len(),
        line.last() == 10,
    ensures
        list_marker(line, pos, interrupts_paragraph) matches Some((matched, nl)) ==> {
            &&& 1 <= matched <= 10
            &&& pos + matched < line.len()
            &&& is_space(line[pos + matched])
            &&& nl.start < 1000000000
            &&& interrupts_paragraph ==> nl.start == 1
            &&& nl.marker_offset == 0
            &&& nl.padding == 0
        },
{
    let n = digit_count(line, pos, 9);
    lemma_digit_count(line, pos, 9);
    lemma_digits_value(line, pos, n);
    lemma_pow10();
    lemma_pow10_grows(n, 9);
    if n > 0 {
        assert(is_digit(line[pos + n - 1]));
        assert(pos + n - 1 < line.len() - 1);
    }
}

/// Reads the list marker at `pos`.
pub fn parse_list_marker(line: &[u8], pos: usize, interrupts_paragraph: bool) -> (r: Option<
    (usize, NodeList),
>)
    requires
        pos < line@.len(),
        line@.last() == 10,
    ensures
        match r {
            Some((matched, nl)) => list_marker(line@, pos as int, interrupts_paragraph) == Some(
                (matched as int, nl),
            ),
            None => list_marker(line@, pos as int, interrupts_paragraph) is None,
        },
{
    proof {
        lemma_list_marker(line@, pos as int, interrupts_paragraph);
    }
    let startpos: usize = pos;
    let mut pos: usize = pos;
    let mut c: u8 = line[pos];

    if c == 42 || c == 45 || c == 43 {
        pos += 1;
        if !isspace(line[pos]) {
            return None;
        }
        if interrupts_paragraph {
            let i: usize = after_blanks(line, pos);
            proof {
                lemma_skip_blanks(line@, pos as int);
            }
            if line[i] == 10 {
                return None;
            }
        }
        return Some(
            (
                pos - startpos,
                NodeList {
                    list_type: ListType::Bullet,
                    marker_offset: 0,
                    padding: 0,
                    start: 1,
                    delimiter: ListDelimType::Period,
                    bullet_char: c,
                    tight: false,
                },
            ),
        );
    } else if isdigit(c) {
        let mut start: usize = 0;
        let mut digits: usize = 0;
        let ghost n = digit_count(line@, startpos as int, 9);
        proof {
            lemma_digit_count(line@, startpos as int, 9);
            lemma_digits_value(line@, startpos as int, n);
            lemma_pow10();
            lemma_pow10_grows(n, 9);
        }
        while digits < MAX_MARKER_DIGITS && isdigit(line[pos])
            invariant
                line@.last() == 10,
                startpos < line@.len(),
                pos == startpos + digits,
                digits <= 9,
                pos < line@.len(),
                n == digit_count(line@, startpos as int, 9),
                n == digits + digit_count(line@, pos as int, 9 - digits),
                start == digits_value(line@, startpos as int, digits as int),
                start < pow10(digits as int),
                digits < 9 ==> start < 100000000,
            decreases 9 - digits,
        {
            proof {
                lemma_pow10();
                lemma_pow10_grows(digits + 1, 9);
                if digits + 1 < 9 {
                    lemma_pow10_grows(digits + 1, 8);
                }
                assert(pow10(9) == 10 * pow10(8));
                lemma_digit_count(line@, pos as int, 9 - digits);
            }
            start = 10 * start + (line[pos] - 48) as usize;
            pos += 1;
            digits += 1;
        }

        if interrupts_paragraph && start != 1 {
            return None;
        }
        c = line[pos];
        if c != 46 && c != 41 {
            return None;
        }
        pos += 1;
        if !isspace(line[pos]) {
            return None;
        }
        if interrupts_paragraph {
            let i: usize = after_blanks(line, pos);
            proof {
                lemma_skip_blanks(line@, pos as int);
            }
            if is_line_end_char(line[i]) {
                return None;
            }
        }
        return Some(
            (
                pos - startpos,
                NodeList {
                    list_type: ListType::Ordered,
                    marker_offset: 0,
                    padding: 0,
                    start,
                    delimiter: if c == 46 {
                        ListDelimType::Period
                    } else {
                        ListDelimType::Paren
                    },
                    bullet_char: 0,
                    tight: false,
                },
            ),
        );
    }
    None
}

/// Two markers belong to lists of the same kind.
pub open spec fn same_kind(a: NodeList, b: NodeList) -> bool {
    a.list_type == b.list_type && a.delimiter == b.delimiter && a.bullet_char == b.bullet_char
}

/// Lists of the same kind fall into classes.
pub proof fn law_same_kind(a: NodeList, b: NodeList, c: NodeList)
    ensures
        same_kind(a, a),
        same_kind(a, b) == same_kind(b, a),
        same_kind(a, b) && same_kind(b, c) ==> same_kind(a, c),
{
}

/// Whether an item with the marker `item_data` continues the list `list_data`.
pub fn lists_match(list_data: &NodeList, item_data: &NodeList) -> (r: bool)
    ensures
        r == same_kind(*list_data, *item_data),
{
    list_data.list_type == item_data.list_type && list_data.delimiter == item_data.delimiter
        && list_data.bullet_char == item_data.bullet_char
}

} // verus!
