//! What a line opens: the marks that start each kind of block, and the blocks that they start.
use crate::ctype::{is_alpha, is_digit, is_space, lower};
use crate::cursor::{
    column_at, lemma_advance_blanks, lemma_advance_bytes, lemma_advance_columns,
    lemma_advance_indent, lemma_advance_one, lemma_advance_to, lemma_advance_within,
    lemma_column_at, lemma_find_first_nonspace, CursorView,
};
use crate::html::{
    attribute_end, attributes_end, bytes_at, html_start, html_start_7, lemma_literals, name_among,
    skip_name, tag_end, text_at, BLOCK_TAGS, RAW_TAGS,
};
use crate::list_marker::{digit_count, digits_value, lemma_list_marker, list_marker, same_kind};
use crate::model::{
    break_or_item, cells_appended, cells_fitted, fenced_code, indented_code, item_contents,
    marked_start, marker_padding, BlockStart, ParserView,
};
use crate::nodes::{
    new_block, AstView, CodeBlockView, HtmlBlockView, ListDelimType, ListType, NodeHeading,
    NodeList, ValueView,
};
use crate::preserved::{lemma_child_added, lemma_climbed, lemma_finalized, opening};
use crate::scanners::{
    atx_start, break_line, fence_start, lemma_atx_start, lemma_fence_start, occurrences,
    setext_line, skip_break,
};
use crate::strings::{
    find_line_end, lemma_find_line_end, lemma_skip_blanks, lemma_skip_run, line_end, skip_blanks,
    skip_run, skip_spaces, space_or_tab,
};
use crate::table::{row_cells, table_opened};
use crate::tree::{appended, lemma_parent, lemma_replaced_ok, replaced, NodeView};
use vstd::prelude::*;
use vstd::string::StringSliceAdditionalSpecFns;

verus! {

/// The state `q` has one node more than `p`, the open and empty block `c` of this value, which
/// is the last child of a block that may hold it.
pub open spec fn appears(
    p: ParserView,
    q: ParserView,
    c: usize,
    value: ValueView,
    column: int,
) -> bool {
    &&& c == p.tree.len()
    &&& q.tree.len() == p.tree.len() + 1
    &&& q.tree[c as int].ast == (AstView {
        value,
        content: Seq::empty(),
        start_line: p.line_number,
        start_column: column as usize,
        end_line: 0,
        end_column: 0,
        open: true,
        last_line_blank: false,
    })
    &&& q.tree[c as int].children.len() == 0
    &&& q.parent(c) matches Some(above) && above < c && q.tree[above as int].children.last() == c
        && (q.value(above).may_hold(value) || q.parent(above) is None)
}

/// The bytes from `i` up to `j` are all `c`.
pub open spec fn all_bytes(s: Seq<u8>, i: int, j: int, c: u8) -> bool {
    forall|k: int| i <= k < j ==> #[trigger] s[k] == c
}

/// The bytes from `i` up to `j` are spaces and tabs.
pub open spec fn all_blank(s: Seq<u8>, i: int, j: int) -> bool {
    forall|k: int| i <= k < j ==> #[trigger] s[k] == 32 || s[k] == 9
}

/// A run of one byte ends where another one follows.
pub proof fn lemma_run_is(s: Seq<u8>, i: int, c: u8, n: int)
    requires
        0 <= i,
        0 <= n,
        i + n < s.len(),
        all_bytes(s, i, i + n, c),
        s[i + n] != c,
    ensures
        skip_run(s, i, c) == i + n,
    decreases n,
{
    if n > 0 {
        assert(s[i] == c);
        lemma_run_is(s, i + 1, c, n - 1);
    }
}

/// White space ends where something else follows.
pub proof fn lemma_blanks_are(s: Seq<u8>, i: int, j: int)
    requires
        0 <= i <= j < s.len(),
        all_blank(s, i, j),
        s[j] != 32,
        s[j] != 9,
    ensures
        skip_blanks(s, i) == j,
    decreases j - i,
{
    if i < j {
        assert(s[i] == 32 || s[i] == 9);
        lemma_blanks_are(s, i + 1, j);
    }
}

/// A new block appears, and nothing else changes but what is closed to make place for it.
pub proof fn lemma_appears(p: ParserView, parent: usize, value: ValueView, column: int)
    requires
        p.ok(),
        parent < p.tree.len() < usize::MAX,
    ensures
        ({
            let (q, c) = p.child_added(parent, value, column);
            &&& appears(p, q, c, value, column)
            &&& q.cursor == p.cursor
            &&& q.ok()
        }),
{
    lemma_child_added(p, parent, value, column);
    lemma_climbed(p, parent, value);
    lemma_place(p, parent, value);
    let (a, place) = p.climbed(parent, value);
    let (q, c) = p.child_added(parent, value, column);
    assert(q.tree[place as int].children.last() == c);
    assert(q.value(place) == a.value(place));
    assert(q.parent(place) == a.parent(place));
}

/// The place that is found for a block may hold it, or is the topmost one.
proof fn lemma_place(p: ParserView, parent: usize, value: ValueView)
    requires
        p.ok(),
        parent < p.tree.len(),
    ensures
        ({
            let (q, place) = p.climbed(parent, value);
            q.value(place).may_hold(value) || q.parent(place) is None
        }),
    decreases parent,
{
    lemma_parent(p.tree, parent);
    if let Some(above) = p.parent(parent) {
        if !p.value(parent).may_hold(value) {
            lemma_finalized(p, parent);
            lemma_place(p.finalized(parent), above, value);
        }
    }
}

/// A line that starts with `n` number signs, one to six, and a space, a tab or its end behind
/// them opens a heading of the level `n`. Its text starts behind the white space.
pub proof fn law_heading_opens(
    p: ParserView,
    line: Seq<u8>,
    container: usize,
    all_matched: bool,
    maybe_lazy: bool,
    n: int,
)
    requires
        opening(p, line, container),
        p.tree.len() < usize::MAX,
        p.cursor.indent < 4,
        1 <= n <= 6,
        p.cursor.first_nonspace + n < line.len(),
        all_bytes(line, p.cursor.first_nonspace, p.cursor.first_nonspace + n, 35),
        line[p.cursor.first_nonspace + n] == 32 || line[p.cursor.first_nonspace + n] == 9
            || line[p.cursor.first_nonspace + n] == 10,
    ensures
        p.opened(line, container, all_matched, maybe_lazy) matches Some((q, c)) && {
            &&& appears(
                p,
                q,
                c,
                ValueView::Heading(NodeHeading { level: n as u32, setext: false }),
                p.cursor.first_nonspace + 1,
            )
            &&& line[p.cursor.first_nonspace + n] != 10 ==> {
                &&& p.cursor.first_nonspace + n < q.cursor.offset < line.len()
                &&& all_blank(line, p.cursor.first_nonspace + n, q.cursor.offset)
                &&& line[q.cursor.offset] != 32 && line[q.cursor.offset] != 9
            }
        },
{
    let i = p.cursor.first_nonspace;
    reveal(marked_start);
    reveal(ParserView::heading_opened);
    lemma_find_first_nonspace(p.cursor, line);
    lemma_run_is(line, i, 35, n);
    lemma_skip_blanks(line, i + n);
    assert(line[i] == 35);
    assert(atx_start(line, i) is Some);
    let matched = atx_start(line, i)->0;
    lemma_atx_start(line, i);
    lemma_advance_to(p.cursor, line, i + matched);
    lemma_appears(
        p.at(p.cursor.advance(line, i + matched - p.cursor.offset, false)),
        container,
        ValueView::Heading(NodeHeading { level: n as u32, setext: false }),
        i + 1,
    );
    assert forall|k: int| i + n <= k < i + matched && line[i + n] != 10 implies #[trigger] line[k]
        == 32 || line[k] == 9 by {
        assert(space_or_tab(line[k]));
    }
}

/// A line that starts with `>` opens a block quote. One space behind the mark belongs to it.
pub proof fn law_quote_opens(
    p: ParserView,
    line: Seq<u8>,
    container: usize,
    all_matched: bool,
    maybe_lazy: bool,
)
    requires
        opening(p, line, container),
        p.tree.len() < usize::MAX,
        p.cursor.indent < 4,
        line[p.cursor.first_nonspace] == 62,
    ensures
        p.opened(line, container, all_matched, maybe_lazy) matches Some((q, c)) && {
            let i = p.cursor.first_nonspace;
            &&& appears(p, q, c, ValueView::BlockQuote, i + 1)
            &&& line[i + 1] == 32 ==> q.cursor.offset == i + 2
            &&& line[i + 1] != 32 && line[i + 1] != 9 ==> q.cursor.offset == i + 1
            &&& line[i + 1] == 9 ==> q.cursor.column == column_at(
                line,
                p.cursor.offset,
                i + 1,
                p.cursor.column,
            ) + 1
        },
{
    let i = p.cursor.first_nonspace;
    reveal(marked_start);
    reveal(ParserView::quote_opened);
    lemma_find_first_nonspace(p.cursor, line);
    lemma_advance_to(p.cursor, line, i + 1);
    lemma_advance_bytes(p.cursor, line, i + 1 - p.cursor.offset);
    let c = p.cursor.advance(line, i + 1 - p.cursor.offset, false);
    assert(i != line.len() - 1);
    if space_or_tab(line[c.offset]) {
        lemma_advance_one(c, line);
        let d = c.advance(line, 1, true);
        if line[i + 1] == 32 {
            assert(d == c.step(line, 1, true).0.advance(line, 0, true));
        }
        lemma_appears(p.at(d), container, ValueView::BlockQuote, i + 1);
    } else {
        lemma_appears(p.at(c), container, ValueView::BlockQuote, i + 1);
    }
}

/// A line that starts with `n` backquotes or tildes, at least three, of which none occurs again
/// on it, opens a fenced code block. What is behind the fence is left for the info string.
pub proof fn law_fence_opens(
    p: ParserView,
    line: Seq<u8>,
    container: usize,
    all_matched: bool,
    maybe_lazy: bool,
    n: int,
)
    requires
        opening(p, line, container),
        p.tree.len() < usize::MAX,
        p.cursor.indent < 4,
        line[p.cursor.first_nonspace] == 96 || line[p.cursor.first_nonspace] == 126,
        3 <= n,
        p.cursor.first_nonspace + n < line.len(),
        all_bytes(
            line,
            p.cursor.first_nonspace,
            p.cursor.first_nonspace + n,
            line[p.cursor.first_nonspace],
        ),
        forall|k: int|
            p.cursor.first_nonspace + n <= k < line.len() ==> #[trigger] line[k]
                != line[p.cursor.first_nonspace] && line[k] != 0,
    ensures
        p.opened(line, container, all_matched, maybe_lazy) matches Some((q, c)) && {
            let i = p.cursor.first_nonspace;
            &&& appears(
                p,
                q,
                c,
                ValueView::CodeBlock(
                    CodeBlockView {
                        fenced: true,
                        fence_char: line[i],
                        fence_length: n as usize,
                        fence_offset: (i - p.cursor.offset) as usize,
                        info: Seq::empty(),
                        literal: Seq::empty(),
                    },
                ),
                i + 1,
            )
            &&& q.cursor.offset == i + n
        },
{
    let i = p.cursor.first_nonspace;
    reveal(marked_start);
    reveal(ParserView::fence_opened);
    lemma_find_first_nonspace(p.cursor, line);
    lemma_run_is(line, i, line[i], n);
    lemma_find_line_end(line, i + n);
    let j = find_line_end(line, i + n);
    assert(j < line.len()) by {
        if j == line.len() {
            assert(!line_end(line[line.len() - 1]));
        }
    }
    assert(atx_start(line, i) is None) by {
        assert(skip_run(line, i, 35) == i);
    }
    assert(fence_start(line, i) == Some(n));
    lemma_advance_to(p.cursor, line, i + n);
    lemma_appears(
        p.at(p.cursor.advance(line, i + n - p.cursor.offset, false)),
        container,
        ValueView::CodeBlock(fenced_code(line[i], n, i - p.cursor.offset)),
        i + 1,
    );
}

/// In a paragraph, a line of equals signs makes it a heading of the first level, and one of
/// hyphens a heading of the second level. Its text stays.
pub proof fn law_underline_makes_heading(
    p: ParserView,
    line: Seq<u8>,
    container: usize,
    all_matched: bool,
    maybe_lazy: bool,
    n: int,
    end: int,
)
    requires
        opening(p, line, container),
        p.cursor.indent < 4,
        p.value(container) is Paragraph,
        line[p.cursor.first_nonspace] == 61 || line[p.cursor.first_nonspace] == 45,
        1 <= n,
        p.cursor.first_nonspace + n <= end == line.len() - 1,
        all_bytes(
            line,
            p.cursor.first_nonspace,
            p.cursor.first_nonspace + n,
            line[p.cursor.first_nonspace],
        ),
        all_blank(line, p.cursor.first_nonspace + n, end),
    ensures
        p.opened(line, container, all_matched, maybe_lazy) matches Some((q, c)) && {
            let level: u32 = if line[p.cursor.first_nonspace] == 61 {
                1
            } else {
                2
            };
            &&& c == container
            &&& q.tree[c as int].ast == (AstView {
                value: ValueView::Heading(NodeHeading { level, setext: true }),
                ..p.tree[c as int].ast
            })
            &&& q.tree.len() == p.tree.len()
            &&& q.cursor.offset == end
        },
{
    let i = p.cursor.first_nonspace;
    let c = line[i];
    reveal(marked_start);
    reveal(ParserView::underlined);
    lemma_find_first_nonspace(p.cursor, line);
    assert(line[i + n] != c) by {
        if i + n < end {
            assert(line[i + n] == 32 || line[i + n] == 9);
        }
    }
    lemma_run_is(line, i, c, n);
    lemma_blanks_are(line, i + n, end);
    assert(skip_run(line, i, 35) == i);
    assert(atx_start(line, i) is None);
    assert(fence_start(line, i) is None);
    assert(html_start(line, i) is None);
    lemma_advance_to(p.cursor, line, end);
}

/// The line holds nothing but `c`, at least three times, and white space, from `i` up to its end.
pub open spec fn breaks_at(line: Seq<u8>, i: int, a: int, b: int, c: u8) -> bool {
    &&& 0 <= i < a < b < line.len() - 1
    &&& line[i] == c && line[a] == c && line[b] == c
    &&& forall|k: int|
        i <= k < line.len() - 1 ==> #[trigger] line[k] == c || line[k] == 32 || line[k] == 9
}

/// Such a line reaches its end.
proof fn lemma_break_reaches(line: Seq<u8>, i: int, c: u8)
    requires
        0 <= i < line.len(),
        line.last() == 10,
        c != 10,
        forall|k: int|
            i <= k < line.len() - 1 ==> #[trigger] line[k] == c || line[k] == 32 || line[k] == 9,
    ensures
        skip_break(line, i, c) == line.len() - 1,
    decreases line.len() - i,
{
    if i < line.len() - 1 {
        assert(line[i] == c || line[i] == 32 || line[i] == 9);
        lemma_break_reaches(line, i + 1, c);
    }
}

/// Each occurrence counts.
proof fn lemma_occurrences(s: Seq<u8>, i: int, j: int, c: u8)
    requires
        i <= j,
    ensures
        0 <= occurrences(s, i, j, c),
        forall|k: int| i <= k < j && #[trigger] s[k] == c ==> occurrences(s, i, j, c) >= 1
            + occurrences(s, k + 1, j, c),
    decreases j - i,
{
    if i < j {
        lemma_occurrences(s, i + 1, j, c);
    }
}

/// A line of three or more of one of `*`, `_` and `-`, with nothing but white space around them,
/// is a thematic break. In a paragraph hyphens alone underline it; and a line that has left
/// another block behind does not break a paragraph.
pub proof fn law_break_opens(
    p: ParserView,
    line: Seq<u8>,
    container: usize,
    all_matched: bool,
    maybe_lazy: bool,
    a: int,
    b: int,
)
    requires
        opening(p, line, container),
        p.tree.len() < usize::MAX,
        p.cursor.indent < 4,
        line[p.cursor.first_nonspace] == 42 || line[p.cursor.first_nonspace] == 95
            || line[p.cursor.first_nonspace] == 45,
        breaks_at(line, p.cursor.first_nonspace, a, b, line[p.cursor.first_nonspace]),
        p.value(container) is Paragraph ==> all_matched && (line[p.cursor.first_nonspace] == 45
            ==> exists|k: int|
            p.cursor.first_nonspace < k < b && #[trigger] line[k] != 45),
    ensures
        p.opened(line, container, all_matched, maybe_lazy) matches Some((q, c)) && {
            &&& appears(p, q, c, ValueView::ThematicBreak, p.cursor.first_nonspace + 1)
            &&& q.cursor.offset == line.len() - 1
        },
{
    let i = p.cursor.first_nonspace;
    let c = line[i];
    let end = line.len() - 1;
    reveal(marked_start);
    reveal(break_or_item);
    reveal(ParserView::break_opened);
    lemma_find_first_nonspace(p.cursor, line);
    lemma_break_reaches(line, i, c);
    lemma_occurrences(line, i, end, c);
    lemma_occurrences(line, i + 1, end, c);
    lemma_occurrences(line, a + 1, end, c);
    lemma_occurrences(line, b + 1, end, c);
    assert(occurrences(line, i, end, c) >= 1 + occurrences(line, i + 1, end, c));
    assert(occurrences(line, i + 1, end, c) >= 1 + occurrences(line, a + 1, end, c));
    assert(occurrences(line, a + 1, end, c) >= 1 + occurrences(line, b + 1, end, c));
    assert(break_line(line, i) is Some);
    assert(atx_start(line, i) is None) by {
        assert(skip_run(line, i, 35) == i);
    }
    assert(fence_start(line, i) is None);
    assert(html_start(line, i) is None);
    if p.value(container) is Paragraph && c == 45 {
        let k = choose|k: int| i < k < b && #[trigger] line[k] != 45;
        let r = skip_run(line, i, 45);
        lemma_skip_run(line, i, 45);
        assert(r <= k) by {
            if r > k {
                assert(line[k] == 45);
            }
        }
        lemma_skip_blanks(line, r);
        assert(skip_blanks(line, r) <= b) by {
            if skip_blanks(line, r) > b {
                assert(space_or_tab(line[b]));
            }
        }
        assert(setext_line(line, i) is None) by {
            let j = skip_blanks(line, r);
            assert(j < end);
            assert(line[j] == c || line[j] == 32 || line[j] == 9);
        }
    }
    lemma_advance_to(p.cursor, line, end);
    lemma_appears(
        p.at(p.cursor.advance(line, end - p.cursor.offset, false)),
        container,
        ValueView::ThematicBreak,
        i + 1,
    );
}

/// A line that is indented by four columns or more, and not blank, is indented code, unless it
/// may go on with a paragraph. Four columns are taken off.
pub proof fn law_indented_code_opens(
    p: ParserView,
    line: Seq<u8>,
    container: usize,
    all_matched: bool,
)
    requires
        opening(p, line, container),
        p.tree.len() < usize::MAX,
        p.cursor.indent >= 4,
        line[p.cursor.first_nonspace] != 10,
        !(p.value(container) is List),
    ensures
        p.opened(line, container, all_matched, false) matches Some((q, c)) && {
            &&& q.value(c) == ValueView::CodeBlock(
                CodeBlockView {
                    fenced: false,
                    fence_char: 0,
                    fence_length: 0,
                    fence_offset: 0,
                    info: Seq::empty(),
                    literal: Seq::empty(),
                },
            )
            &&& q.cursor.column == p.cursor.column + 4
            &&& q.cursor.offset <= p.cursor.first_nonspace
            &&& appears(p, q, c, q.value(c), q.cursor.offset + 1)
        },
        p.opened(line, container, all_matched, true) is None,
{
    reveal(break_or_item);
    reveal(ParserView::code_opened);
    lemma_find_first_nonspace(p.cursor, line);
    lemma_advance_indent(p.cursor, line, 4);
    lemma_advance_columns(p.cursor, line, 4);
    let c = p.cursor.advance(line, 4, true);
    let i = p.cursor.first_nonspace;
    assert(!p.cursor.blank) by {
        if line_end(line[i]) && i < line.len() - 1 {
            assert(!line_end(line[i]));
        }
    }
    lemma_appears(
        p.at(c),
        container,
        ValueView::CodeBlock(indented_code()),
        c.offset + 1,
    );
}

/// The byte is white space.
pub open spec fn white(b: u8) -> bool {
    b == 32 || b == 9 || b == 10 || b == 11 || b == 12 || b == 13
}

/// The bytes of `name` stand at `i`, in letters of either case.
pub open spec fn named(s: Seq<u8>, i: int, name: Seq<u8>) -> bool {
    &&& 0 <= i
    &&& i + name.len() < s.len()
    &&& forall|k: int|
        0 <= k < name.len() ==> s[i + k] == #[trigger] name[k] || (65 <= s[i + k] <= 90 && s[i + k]
            + 32 == name[k])
}

/// The bytes of `mark` stand at `i`.
pub open spec fn marked(s: Seq<u8>, i: int, mark: Seq<u8>) -> bool {
    &&& 0 <= i
    &&& i + mark.len() <= s.len()
    &&& forall|k: int| 0 <= k < mark.len() ==> s[i + k] == #[trigger] mark[k]
}

/// An element that is not read as Markdown starts with its name at `i`: `script`, `pre` or
/// `style`.
pub open spec fn raw_name(s: Seq<u8>, i: int, name: Seq<u8>) -> bool {
    &&& name == seq![115u8, 99u8, 114u8, 105u8, 112u8, 116u8] || name == seq![112u8, 114u8, 101u8]
        || name == seq![115u8, 116u8, 121u8, 108u8, 101u8]
    &&& named(s, i, name)
    &&& white(s[i + name.len()]) || s[i + name.len()] == 62
}

/// What starts a block of raw HTML of the kinds 1 to 5.
pub open spec fn html_mark(s: Seq<u8>, i: int, kind: u8) -> bool {
    &&& 0 <= i < s.len()
    &&& s[i] == 60
    &&& match kind {
        1 => exists|name: Seq<u8>| #[trigger] raw_name(s, i + 1, name),
        2 => marked(s, i, seq![60u8, 33u8, 45u8, 45u8]),
        3 => marked(s, i, seq![60u8, 63u8]),
        4 => marked(s, i, seq![60u8, 33u8]) && i + 2 < s.len() && 65 <= s[i + 2] <= 90,
        5 => marked(s, i, seq![60u8, 33u8, 91u8, 67u8, 68u8, 65u8, 84u8, 65u8, 91u8]),
        _ => false,
    }
}

/// A name ends where no letter, digit or hyphen follows.
proof fn lemma_name_is(s: Seq<u8>, i: int, name: Seq<u8>, done: int)
    requires
        named(s, i, name),
        0 <= done <= name.len(),
        forall|k: int|
            0 <= k < name.len() ==> 97 <= #[trigger] name[k] <= 122 || 48 <= name[k] <= 57,
        !is_alpha(s[i + name.len()]) && !is_digit(s[i + name.len()]) && s[i + name.len()] != 45,
    ensures
        skip_name(s, i + done) == i + name.len(),
    decreases name.len() - done,
{
    if done < name.len() {
        assert(s[i + done] == name[done] || s[i + done] + 32 == name[done]);
        lemma_name_is(s, i, name, done + 1);
    }
}

/// A name in letters of either case is the name in small letters.
pub proof fn lemma_named(s: Seq<u8>, i: int, name: Seq<u8>)
    requires
        forall|k: int|
            0 <= k < name.len() ==> 97 <= #[trigger] name[k] <= 122 || 48 <= name[k] <= 57,
        i + name.len() < s.len(),
    ensures
        named(s, i, name) == text_at(s, i, name),
{
    if named(s, i, name) {
        assert forall|k: int| 0 <= k < name.len() implies lower(s[i + k]) == #[trigger] name[k] by {
        }
    }
    if text_at(s, i, name) {
        assert forall|k: int| 0 <= k < name.len() implies s[i + k] == #[trigger] name[k] || (65
            <= s[i + k] <= 90 && s[i + k] + 32 == name[k]) by {
            assert(lower(s[i + k]) == name[k]);
        }
    }
}

/// The first kind of raw HTML, by its names.
#[verifier::rlimit(30)]
pub proof fn lemma_raw_names(s: Seq<u8>, i: int)
    requires
        0 <= i,
        i + 1 < s.len(),
    ensures
        ({
            let e = skip_name(s, i + 1);
            (exists|name: Seq<u8>| #[trigger] raw_name(s, i + 1, name)) == (name_among(
                s,
                i + 1,
                e,
                RAW_TAGS@,
                3,
            ) && e < s.len() && (is_space(s[e]) || s[e] == 62))
        }),
{
    lemma_literals();
    let e = skip_name(s, i + 1);
    if exists|name: Seq<u8>| #[trigger] raw_name(s, i + 1, name) {
        let name = choose|name: Seq<u8>| #[trigger] raw_name(s, i + 1, name);
        lemma_name_is(s, i + 1, name, 0);
        lemma_named(s, i + 1, name);
        let k: int = if name.len() == 6 {
            0
        } else if name.len() == 3 {
            1
        } else {
            2
        };
        assert(RAW_TAGS@[k].spec_bytes() == name);
    }
    if name_among(s, i + 1, e, RAW_TAGS@, 3) && e < s.len() && (is_space(s[e]) || s[e] == 62) {
        let k = choose|k: int|
            0 <= k < 3 && e - (i + 1) == (#[trigger] RAW_TAGS@[k]).spec_bytes().len() && text_at(
                s,
                i + 1,
                RAW_TAGS@[k].spec_bytes(),
            );
        let name = RAW_TAGS@[k].spec_bytes();
        assert(k == 0 || k == 1 || k == 2);
        lemma_named(s, i + 1, name);
        assert(raw_name(s, i + 1, name));
    }
}

/// What starts with `!` or `?` is no name.
proof fn lemma_no_raw_name(s: Seq<u8>, i: int)
    requires
        0 <= i,
        i + 1 < s.len(),
        s[i + 1] == 33 || s[i + 1] == 63,
    ensures
        !(name_among(s, i + 1, skip_name(s, i + 1), RAW_TAGS@, 3) && skip_name(s, i + 1) < s.len()
            && (is_space(s[skip_name(s, i + 1)]) || s[skip_name(s, i + 1)] == 62)),
{
    lemma_raw_names(s, i);
    assert forall|name: Seq<u8>| !#[trigger] raw_name(s, i + 1, name) by {
        if raw_name(s, i + 1, name) {
            assert(s[i + 1 + 0] == name[0] || s[i + 1 + 0] + 32 == name[0]);
        }
    }
}

/// A comment is no declaration, nor character data.
pub proof fn lemma_comment_mark(s: Seq<u8>, i: int)
    requires
        0 <= i,
        i + 1 < s.len(),
    ensures
        bytes_at(s, i, "<!--".spec_bytes()) == marked(s, i, seq![60u8, 33u8, 45u8, 45u8]),
        bytes_at(s, i, "<!--".spec_bytes()) ==> i + 2 < s.len() && s[i + 1] == 33 && s[i + 2]
            == 45,
{
    lemma_literals();
    let mark = seq![60u8, 33u8, 45u8, 45u8];
    if marked(s, i, mark) {
        assert(s[i + 1] == mark[1]);
        assert(s[i + 2] == mark[2]);
    }
}

pub proof fn lemma_data_mark(s: Seq<u8>, i: int)
    requires
        0 <= i,
        i + 1 < s.len(),
    ensures
        bytes_at(s, i, "<![CDATA[".spec_bytes()) == marked(
            s,
            i,
            seq![60u8, 33u8, 91u8, 67u8, 68u8, 65u8, 84u8, 65u8, 91u8],
        ),
        bytes_at(s, i, "<![CDATA[".spec_bytes()) ==> i + 2 < s.len() && s[i + 1] == 33 && s[i + 2]
            == 91,
{
    lemma_literals();
    let mark = seq![60u8, 33u8, 91u8, 67u8, 68u8, 65u8, 84u8, 65u8, 91u8];
    if marked(s, i, mark) {
        assert(s[i + 1] == mark[1]);
        assert(s[i + 2] == mark[2]);
    }
}

/// What starts with `!` or `?` is no element.
#[verifier::rlimit(30)]
proof fn lemma_declaration(s: Seq<u8>, i: int)
    requires
        0 <= i,
        i + 1 < s.len(),
        s[i] == 60,
        s[i + 1] == 33 || s[i + 1] == 63,
    ensures
        bytes_at(s, i, "<!--".spec_bytes()) ==> html_start(s, i) == Some(2u8),
        s[i + 1] == 63 ==> html_start(s, i) == Some(3u8),
        i + 2 < s.len() && s[i + 1] == 33 && 65 <= s[i + 2] <= 90 ==> html_start(s, i) == Some(4u8),
        bytes_at(s, i, "<![CDATA[".spec_bytes()) ==> html_start(s, i) == Some(5u8),
{
    lemma_no_raw_name(s, i);
    lemma_comment_mark(s, i);
    lemma_data_mark(s, i);
}

/// The raw HTML of the kinds 1 to 5 is told by its mark alone.
#[verifier::rlimit(30)]
proof fn lemma_html_marks(s: Seq<u8>, i: int, kind: u8)
    requires
        html_mark(s, i, kind),
        i + 1 < s.len(),
    ensures
        html_start(s, i) == Some(kind),
{
    if kind == 1 {
        lemma_raw_names(s, i);
    } else if kind == 2 {
        lemma_comment_mark(s, i);
        lemma_declaration(s, i);
    } else if kind == 3 {
        assert(s[i + 1] == seq![60u8, 63u8][1]);
        lemma_declaration(s, i);
    } else if kind == 4 {
        assert(s[i + 1] == seq![60u8, 33u8][1]);
        lemma_declaration(s, i);
    } else {
        lemma_data_mark(s, i);
        lemma_declaration(s, i);
    }
}

/// A line that starts with the mark of raw HTML of one of the kinds 1 to 5 opens a block of that
/// kind, whatever it stands in, a paragraph too. The line stays as it is.
pub proof fn law_html_opens(
    p: ParserView,
    line: Seq<u8>,
    container: usize,
    all_matched: bool,
    maybe_lazy: bool,
    kind: u8,
)
    requires
        opening(p, line, container),
        p.tree.len() < usize::MAX,
        p.cursor.indent < 4,
        html_mark(line, p.cursor.first_nonspace, kind),
    ensures
        p.opened(line, container, all_matched, maybe_lazy) matches Some((q, c)) && {
            &&& appears(
                p,
                q,
                c,
                ValueView::HtmlBlock(HtmlBlockView { block_type: kind, literal: Seq::empty() }),
                p.cursor.first_nonspace + 1,
            )
            &&& q.cursor == p.cursor
        },
{
    let i = p.cursor.first_nonspace;
    lemma_find_first_nonspace(p.cursor, line);
    assert(i + 1 < line.len()) by {
        assert(line[line.len() - 1] == 10);
    }
    lemma_html_marks(line, i, kind);
    lemma_html_block(p, line, container, all_matched, maybe_lazy, kind);
}

proof fn lemma_html_block(
    p: ParserView,
    line: Seq<u8>,
    container: usize,
    all_matched: bool,
    maybe_lazy: bool,
    kind: u8,
)
    requires
        opening(p, line, container),
        p.tree.len() < usize::MAX,
        p.cursor.indent < 4,
        line[p.cursor.first_nonspace] == 60,
        html_start(line, p.cursor.first_nonspace) == Some(kind) || (html_start(
            line,
            p.cursor.first_nonspace,
        ) is None && kind == 7 && html_start_7(line, p.cursor.first_nonspace) && !(p.value(
            container,
        ) is Paragraph)),
    ensures
        p.opened(line, container, all_matched, maybe_lazy) matches Some((q, c)) && {
            &&& appears(
                p,
                q,
                c,
                ValueView::HtmlBlock(HtmlBlockView { block_type: kind, literal: Seq::empty() }),
                p.cursor.first_nonspace + 1,
            )
            &&& q.cursor == p.cursor
        },
{
    let i = p.cursor.first_nonspace;
    reveal(marked_start);
    reveal(ParserView::html_opened);
    assert(skip_run(line, i, 35) == i);
    assert(atx_start(line, i) is None);
    assert(fence_start(line, i) is None);
    lemma_appears(
        p,
        container,
        ValueView::HtmlBlock(HtmlBlockView { block_type: kind, literal: Seq::empty() }),
        i + 1,
    );
}

/// The tag of an element that forms a block.
#[verifier::rlimit(30)]
proof fn lemma_block_element(s: Seq<u8>, i: int, at: int, name: Seq<u8>, k: int)
    requires
        0 <= i,
        i + 1 < s.len(),
        s[i] == 60,
        0 <= k < 63,
        name == BLOCK_TAGS@[k].spec_bytes(),
        at == if s[i + 1] == 47 {
            i + 2
        } else {
            i + 1
        },
        named(s, at, name),
        name.len() > 0,
        forall|j: int|
            0 <= j < name.len() ==> 97 <= #[trigger] name[j] <= 122 || 48 <= name[j] <= 57,
        ({
            let end = at + name.len();
            white(s[end]) || s[end] == 62 || (s[end] == 47 && end + 1 < s.len() && s[end + 1]
                == 62)
        }),
        !html_mark(s, i, 1),
    ensures
        html_start(s, i) == Some(6u8),
{
    lemma_name_is(s, at, name, 0);
    lemma_named(s, at, name);
    lemma_raw_names(s, i);
    lemma_comment_mark(s, i);
    lemma_data_mark(s, i);
    assert(s[at + 0] == name[0] || s[at + 0] + 32 == name[0]);
    assert(name_among(s, at, at + name.len(), BLOCK_TAGS@, 63));
}

/// A line that starts with the opening or closing tag of an element that forms a block opens a
/// block of the kind 6, whatever it stands in, a paragraph too.
pub proof fn law_block_element_opens(
    p: ParserView,
    line: Seq<u8>,
    container: usize,
    all_matched: bool,
    maybe_lazy: bool,
    k: int,
)
    requires
        opening(p, line, container),
        p.tree.len() < usize::MAX,
        p.cursor.indent < 4,
        0 <= k < 63,
        line[p.cursor.first_nonspace] == 60,
        ({
            let i = p.cursor.first_nonspace;
            let name = BLOCK_TAGS@[k].spec_bytes();
            let at = if line[i + 1] == 47 {
                i + 2
            } else {
                i + 1
            };
            let end = at + name.len();
            &&& named(line, at, name)
            &&& forall|j: int|
                0 <= j < name.len() ==> 97 <= #[trigger] name[j] <= 122 || 48 <= name[j] <= 57
            &&& name.len() > 0
            &&& white(line[end]) || line[end] == 62 || (line[end] == 47 && line[end + 1] == 62)
            &&& !html_mark(line, i, 1)
        }),
    ensures
        p.opened(line, container, all_matched, maybe_lazy) matches Some((q, c)) && {
            &&& appears(
                p,
                q,
                c,
                ValueView::HtmlBlock(HtmlBlockView { block_type: 6, literal: Seq::empty() }),
                p.cursor.first_nonspace + 1,
            )
            &&& q.cursor == p.cursor
        },
{
    let i = p.cursor.first_nonspace;
    let name = BLOCK_TAGS@[k].spec_bytes();
    let at = if line[i + 1] == 47 {
        i + 2
    } else {
        i + 1
    };
    let end = at + name.len();
    lemma_find_first_nonspace(p.cursor, line);
    assert(end < line.len());
    assert(line[end] == 47 ==> end + 1 < line.len()) by {
        if end + 1 == line.len() {
            assert(line.last() == 10);
        }
    }
    assert(i + 1 < line.len());
    lemma_block_element(line, i, at, name, k);
    lemma_html_block(p, line, container, all_matched, maybe_lazy, 6);
}

/// A line that holds one tag and nothing else opens a block of raw HTML, but not within a
/// paragraph, unless its name is one that does so anyway.
pub proof fn law_tag_opens(
    p: ParserView,
    line: Seq<u8>,
    container: usize,
    all_matched: bool,
    maybe_lazy: bool,
    end: int,
)
    requires
        opening(p, line, container),
        p.tree.len() < usize::MAX,
        p.cursor.indent < 4,
        !(p.value(container) is Paragraph),
        ({
            let i = p.cursor.first_nonspace;
            let at = if line[i + 1] == 47 {
                i + 2
            } else {
                i + 1
            };
            &&& line[i] == 60
            &&& at < end < line.len() - 1
            &&& is_alpha(line[at])
            &&& forall|k: int|
                at <= k < end ==> is_alpha(#[trigger] line[k]) || is_digit(line[k]) || line[k] == 45
            &&& line[end] == 62
            &&& forall|k: int| end < k < line.len() ==> white(#[trigger] line[k])
        }),
    ensures
        p.opened(line, container, all_matched, maybe_lazy) matches Some((q, c)) && q.value(
            c,
        ) is HtmlBlock && q.value(c)->HtmlBlock_0.literal.len() == 0 && q.cursor == p.cursor,
{
    let i = p.cursor.first_nonspace;
    let at = if line[i + 1] == 47 {
        i + 2
    } else {
        i + 1
    };
    lemma_find_first_nonspace(p.cursor, line);
    if let Some(kind) = html_start(line, i) {
        lemma_html_block(p, line, container, all_matched, maybe_lazy, kind);
    } else {
        lemma_tag_name(line, at, end);
        assert(skip_spaces(line, end) == end);
        lemma_spaces_to_end(line, end + 1);
        assert(attribute_end(line, end) is None);
        assert(attributes_end(line, end) == end);
        assert(tag_end(line, i + 1) == Some(end + 1));
        assert(html_start_7(line, i));
        lemma_html_block(p, line, container, all_matched, maybe_lazy, 7);
    }
}

proof fn lemma_tag_name(s: Seq<u8>, i: int, end: int)
    requires
        0 <= i <= end < s.len(),
        forall|k: int|
            i <= k < end ==> is_alpha(#[trigger] s[k]) || is_digit(s[k]) || s[k] == 45,
        s[end] == 62,
    ensures
        skip_name(s, i) == end,
    decreases end - i,
{
    if i < end {
        assert(is_alpha(s[i]) || is_digit(s[i]) || s[i] == 45);
        lemma_tag_name(s, i + 1, end);
    }
}

proof fn lemma_spaces_to_end(s: Seq<u8>, i: int)
    requires
        0 <= i <= s.len(),
        forall|k: int| i <= k < s.len() ==> white(#[trigger] s[k]),
    ensures
        skip_spaces(s, i) == s.len(),
    decreases s.len() - i,
{
    if i < s.len() {
        assert(white(s[i]));
        lemma_spaces_to_end(s, i + 1);
    }
}

/// White space of up to five columns behind a list marker is taken whole.
proof fn lemma_padding_whole(c: CursorView, line: Seq<u8>, base: int, j: int)
    requires
        c.within(line.len() as int),
        0 <= c.offset <= j < line.len(),
        all_blank(line, c.offset, j),
        line[j] != 32,
        line[j] != 9,
        base <= c.column,
        column_at(line, c.offset, j, c.column) <= base + 6,
    ensures
        marker_padding(c, line, base).offset == j,
        marker_padding(c, line, base).column == column_at(line, c.offset, j, c.column),
    decreases base + 6 - c.column,
{
    lemma_column_at(line, c.offset, j, c.column);
    if c.offset < j {
        assert(line[c.offset] == 32 || line[c.offset] == 9);
        assert forall|k: int| c.offset <= k < j implies space_or_tab(#[trigger] line[k]) by {
            assert(line[k] == 32 || line[k] == 9);
        }
        lemma_advance_blanks(c, line, 1, j);
        lemma_advance_columns(c, line, 1);
        lemma_advance_within(c, line, 1, true);
        let next = c.advance(line, 1, true);
        lemma_column_at(line, next.offset, j, next.column);
        assert forall|k: int| next.offset <= k < j implies #[trigger] line[k] == 32 || line[k]
            == 9 by {
            assert(space_or_tab(line[k]));
        }
        lemma_padding_whole(next, line, base, j);
    }
}

/// Of more white space, six columns are taken.
proof fn lemma_padding_part(c: CursorView, line: Seq<u8>, base: int, j: int)
    requires
        c.within(line.len() as int),
        0 <= c.offset <= j < line.len(),
        all_blank(line, c.offset, j),
        base <= c.column <= base + 6,
        column_at(line, c.offset, j, c.column) > base + 6,
    ensures
        marker_padding(c, line, base).column == base + 6,
    decreases base + 6 - c.column,
{
    lemma_column_at(line, c.offset, j, c.column);
    if c.column < base + 6 {
        assert(c.offset < j);
        assert(line[c.offset] == 32 || line[c.offset] == 9);
        assert forall|k: int| c.offset <= k < j implies space_or_tab(#[trigger] line[k]) by {
            assert(line[k] == 32 || line[k] == 9);
        }
        lemma_advance_blanks(c, line, 1, j);
        lemma_advance_columns(c, line, 1);
        lemma_advance_within(c, line, 1, true);
        let next = c.advance(line, 1, true);
        assert forall|k: int| next.offset <= k < j implies #[trigger] line[k] == 32 || line[k]
            == 9 by {
            assert(space_or_tab(line[k]));
        }
        lemma_padding_part(next, line, base, j);
    }
}

/// The item `c` appears in a list of the same kind: in `container`, if that is such a list, or
/// in a new one. `kind` tells what the marker says of both.
pub open spec fn item_appears(
    p: ParserView,
    container: usize,
    q: ParserView,
    c: usize,
    kind: NodeList,
    column: int,
) -> bool {
    let joins = p.value(container) matches ValueView::List(l) && l.list_type == kind.list_type
        && l.delimiter == kind.delimiter && l.bullet_char == kind.bullet_char;
    &&& q.value(c) == ValueView::Item(kind)
    &&& q.tree[c as int].ast.start_line == p.line_number
    &&& q.tree[c as int].ast.start_column == column as usize
    &&& q.tree[c as int].ast.open
    &&& q.parent(c) matches Some(list) && q.tree[list as int].children.last() == c && if joins {
        &&& list == container
        &&& c == p.tree.len()
        &&& q.tree.len() == p.tree.len() + 1
    } else {
        &&& list == p.tree.len()
        &&& c == p.tree.len() + 1
        &&& q.tree.len() == p.tree.len() + 2
        &&& q.value(list) == ValueView::List(kind)
        &&& q.tree[list as int].children.len() == 1
    }
}

/// Opening an item whose marker ends at `m`, `width` bytes long, where the text starts at `j`.
/// White space of one to four columns belongs to the marker; of more, one column does.
proof fn lemma_item_appears(
    p: ParserView,
    line: Seq<u8>,
    container: usize,
    width: int,
    nl: NodeList,
    j: int,
)
    requires
        opening(p, line, container),
        p.tree.len() + 2 <= usize::MAX,
        1 <= width <= 10,
        p.cursor.first_nonspace + width < j < line.len(),
        all_blank(line, p.cursor.first_nonspace + width, j),
        line[j] != 32,
        line[j] != 9,
        line[j] != 10,
        p.cursor.indent <= usize::MAX,
    ensures
        ({
            let (q, c) = p.item_opened(line, container, width, nl);
            let m = p.cursor.first_nonspace + width;
            let start = column_at(line, p.cursor.offset, m, p.cursor.column);
            let gap = column_at(line, m, j, start) - start;
            let padding = if gap <= 4 {
                width + gap
            } else {
                width + 1
            };
            &&& item_appears(
                p,
                container,
                q,
                c,
                NodeList {
                    padding: padding as usize,
                    marker_offset: p.cursor.indent as usize,
                    ..nl
                },
                p.cursor.first_nonspace + 1,
            )
            &&& gap <= 4 ==> q.cursor.offset == j
            &&& gap > 4 ==> q.cursor.column == start + 1
        }),
{
    reveal(ParserView::item_opened);
    let i = p.cursor.first_nonspace;
    let m = i + width;
    lemma_find_first_nonspace(p.cursor, line);
    lemma_advance_to(p.cursor, line, m);
    lemma_advance_bytes(p.cursor, line, m - p.cursor.offset);
    let c = p.cursor.advance(line, m - p.cursor.offset, false);
    let start = c.column;
    lemma_column_at(line, m, j, start);
    let gap = column_at(line, m, j, start) - start;
    assert(line[m] == 32 || line[m] == 9);
    lemma_advance_one(c, line);
    if gap <= 6 {
        lemma_padding_whole(c, line, start, j);
    } else {
        lemma_padding_part(c, line, start, j);
    }
    let (d, padding) = item_contents(c, line, width);
    assert(gap <= 4 ==> !line_end(line[j])) by {
        if line_end(line[j]) && j < line.len() - 1 {
            assert(!line_end(line[j]));
        }
    }
    let list = NodeList {
        padding: padding as usize,
        marker_offset: p.cursor.indent as usize,
        ..nl
    };
    let a = p.at(d);
    let continues = match p.value(container) {
        ValueView::List(mnl) => same_kind(list, mnl),
        _ => false,
    };
    if continues {
        lemma_appears(a, container, ValueView::Item(list), i + 1);
        assert(p.value(container).may_hold(ValueView::Item(list)));
        lemma_stays(a, container, ValueView::Item(list));
    } else {
        lemma_appears(a, container, ValueView::List(list), i + 1);
        let (q, parent) = a.child_added(container, ValueView::List(list), i + 1);
        lemma_appears(q, parent, ValueView::Item(list), i + 1);
        lemma_stays(q, parent, ValueView::Item(list));
    }
}

/// A block that may hold another one gets it.
proof fn lemma_stays(p: ParserView, parent: usize, value: ValueView)
    requires
        p.ok(),
        parent < p.tree.len() < usize::MAX,
        p.value(parent).may_hold(value),
    ensures
        ({
            let (q, c) = p.child_added(parent, value, 0);
            &&& p.climbed(parent, value) == (p, parent)
            &&& q.parent(c) == Some(parent)
        }),
{
}

/// A bullet with white space and text behind it opens an item of a bullet list, unless the line
/// is a thematic break. `other` is a byte that shows that it is none.
pub proof fn law_bullet_opens(
    p: ParserView,
    line: Seq<u8>,
    container: usize,
    all_matched: bool,
    maybe_lazy: bool,
    j: int,
    other: int,
)
    requires
        opening(p, line, container),
        p.tree.len() + 2 <= usize::MAX,
        p.cursor.indent <= usize::MAX,
        p.cursor.indent < 4 || p.value(container) is List,
        line[p.cursor.first_nonspace] == 42 || line[p.cursor.first_nonspace] == 45
            || line[p.cursor.first_nonspace] == 43,
        p.cursor.first_nonspace + 1 < j <= other < line.len() - 1,
        all_blank(line, p.cursor.first_nonspace + 1, j),
        line[j] != 32 && line[j] != 9,
        line[other] != 32 && line[other] != 9 && line[other] != line[p.cursor.first_nonspace],
    ensures
        p.opened(line, container, all_matched, maybe_lazy) matches Some((q, c)) && {
            let i = p.cursor.first_nonspace;
            let start = column_at(line, p.cursor.offset, i + 1, p.cursor.column);
            let gap = column_at(line, i + 1, j, start) - start;
            &&& item_appears(
                p,
                container,
                q,
                c,
                NodeList {
                    list_type: ListType::Bullet,
                    marker_offset: p.cursor.indent as usize,
                    padding: (if gap <= 4 {
                        1 + gap
                    } else {
                        2
                    }) as usize,
                    start: 1,
                    delimiter: ListDelimType::Period,
                    bullet_char: line[i],
                    tight: false,
                },
                i + 1,
            )
            &&& gap <= 4 ==> q.cursor.offset == j
            &&& gap > 4 ==> q.cursor.column == start + 1
        },
{
    let i = p.cursor.first_nonspace;
    let b = line[i];
    reveal(marked_start);
    reveal(break_or_item);
    lemma_find_first_nonspace(p.cursor, line);
    assert(line[i + 1] == 32 || line[i + 1] == 9);
    assert(!line_end(line[j]) && !line_end(line[other]));
    lemma_run_is(line, i, b, 1);
    lemma_blanks_are(line, i + 1, j);
    assert(skip_run(line, i, 35) == i);
    assert(atx_start(line, i) is None);
    assert(fence_start(line, i) is None);
    assert(html_start(line, i) is None);
    assert(setext_line(line, i) is None);
    lemma_no_break(line, i, b, other);
    assert(break_line(line, i) is None);
    lemma_item_appears(
        p,
        line,
        container,
        1,
        NodeList {
            list_type: ListType::Bullet,
            marker_offset: 0,
            padding: 0,
            start: 1,
            delimiter: ListDelimType::Period,
            bullet_char: b,
            tight: false,
        },
        j,
    );
}

/// What would be a break stops before another byte.
proof fn lemma_no_break(s: Seq<u8>, i: int, c: u8, other: int)
    requires
        0 <= i <= other < s.len() - 1,
        s[other] != c && s[other] != 32 && s[other] != 9,
        forall|k: int| 0 <= k < s.len() - 1 ==> !line_end(#[trigger] s[k]),
    ensures
        skip_break(s, i, c) <= other,
        !line_end(s[skip_break(s, i, c)]),
    decreases other - i,
{
    if i < other && (s[i] == c || space_or_tab(s[i])) {
        lemma_no_break(s, i + 1, c, other);
    } else {
        assert(!line_end(s[i]));
    }
}

/// The number that decimal digits write.
pub open spec fn decimal(digits: Seq<u8>) -> nat
    decreases digits.len(),
{
    if digits.len() == 0 {
        0
    } else {
        (10 * decimal(digits.drop_last()) + (digits.last() - 48)) as nat
    }
}

pub proof fn lemma_decimal(s: Seq<u8>, i: int, n: int)
    requires
        0 <= i,
        0 <= n,
        i + n <= s.len(),
        forall|k: int| i <= k < i + n ==> 48 <= #[trigger] s[k] <= 57,
    ensures
        digits_value(s, i, n) == decimal(s.subrange(i, i + n)),
    decreases n,
{
    if n > 0 {
        lemma_decimal(s, i, n - 1);
        assert(s.subrange(i, i + n).drop_last() =~= s.subrange(i, i + n - 1));
        assert(48 <= s[i + n - 1] <= 57);
    }
}

proof fn lemma_digits_are(s: Seq<u8>, i: int, n: int, max: int)
    requires
        0 <= i,
        0 <= n <= max,
        i + n < s.len(),
        forall|k: int| i <= k < i + n ==> 48 <= #[trigger] s[k] <= 57,
        !(48 <= s[i + n] <= 57),
    ensures
        digit_count(s, i, max) == n,
    decreases n,
{
    if n > 0 {
        assert(48 <= s[i] <= 57);
        lemma_digits_are(s, i + 1, n - 1, max - 1);
    }
}

/// A number of one to nine digits, a period or a closing parenthesis, and white space and text
/// behind it open an item of an ordered list that counts from that number. A paragraph is
/// interrupted only by the number one.
pub proof fn law_number_opens(
    p: ParserView,
    line: Seq<u8>,
    container: usize,
    all_matched: bool,
    maybe_lazy: bool,
    n: int,
    j: int,
)
    requires
        opening(p, line, container),
        p.tree.len() + 2 <= usize::MAX,
        p.cursor.indent <= usize::MAX,
        p.cursor.indent < 4 || p.value(container) is List,
        1 <= n <= 9,
        p.cursor.first_nonspace + n + 1 < j < line.len() - 1,
        forall|k: int|
            p.cursor.first_nonspace <= k < p.cursor.first_nonspace + n ==> 48 <= #[trigger] line[k]
                <= 57,
        line[p.cursor.first_nonspace + n] == 46 || line[p.cursor.first_nonspace + n] == 41,
        all_blank(line, p.cursor.first_nonspace + n + 1, j),
        line[j] != 32 && line[j] != 9,
    ensures
        ({
            let i = p.cursor.first_nonspace;
            let number = decimal(line.subrange(i, i + n));
            let start = column_at(line, p.cursor.offset, i + n + 1, p.cursor.column);
            let gap = column_at(line, i + n + 1, j, start) - start;
            if p.value(container) is Paragraph && number != 1 {
                p.block_start(line, container, all_matched, maybe_lazy) == BlockStart::Other
            } else {
                p.opened(line, container, all_matched, maybe_lazy) matches Some((q, c)) && {
                    &&& item_appears(
                        p,
                        container,
                        q,
                        c,
                        NodeList {
                            list_type: ListType::Ordered,
                            marker_offset: p.cursor.indent as usize,
                            padding: (if gap <= 4 {
                                n + 1 + gap
                            } else {
                                n + 2
                            }) as usize,
                            start: number as usize,
                            delimiter: if line[i + n] == 46 {
                                ListDelimType::Period
                            } else {
                                ListDelimType::Paren
                            },
                            bullet_char: 0,
                            tight: false,
                        },
                        i + 1,
                    )
                    &&& gap <= 4 ==> q.cursor.offset == j
                    &&& gap > 4 ==> q.cursor.column == start + 1
                }
            }
        }),
{
    let i = p.cursor.first_nonspace;
    reveal(marked_start);
    reveal(break_or_item);
    lemma_find_first_nonspace(p.cursor, line);
    assert(48 <= line[i] <= 57);
    assert(line[i + n + 1] == 32 || line[i + n + 1] == 9);
    assert(!line_end(line[j]));
    lemma_digits_are(line, i, n, 9);
    lemma_decimal(line, i, n);
    lemma_blanks_are(line, i + n + 1, j);
    assert(skip_run(line, i, 35) == i);
    assert(atx_start(line, i) is None);
    assert(fence_start(line, i) is None);
    assert(html_start(line, i) is None);
    assert(setext_line(line, i) is None);
    assert(break_line(line, i) is None);
    lemma_item_appears(
        p,
        line,
        container,
        n + 1,
        NodeList {
            list_type: ListType::Ordered,
            marker_offset: 0,
            padding: 0,
            start: digits_value(line, i, n) as usize,
            delimiter: if line[i + n] == 46 {
                ListDelimType::Period
            } else {
                ListDelimType::Paren
            },
            bullet_char: 0,
            tight: false,
        },
        j,
    );
}

/// A bullet with nothing behind it opens an empty item, whose text would start one column behind
/// the bullet. It does not interrupt a paragraph.
pub proof fn law_empty_bullet(
    p: ParserView,
    line: Seq<u8>,
    container: usize,
    all_matched: bool,
    maybe_lazy: bool,
)
    requires
        opening(p, line, container),
        p.tree.len() + 2 <= usize::MAX,
        p.cursor.indent <= usize::MAX,
        p.cursor.indent < 4,
        line[p.cursor.first_nonspace] == 42 || line[p.cursor.first_nonspace] == 43,
        p.cursor.first_nonspace + 1 < line.len(),
        all_blank(line, p.cursor.first_nonspace + 1, line.len() - 1),
    ensures
        p.value(container) is Paragraph ==> p.block_start(
            line,
            container,
            all_matched,
            maybe_lazy,
        ) == BlockStart::Other,
        !(p.value(container) is Paragraph) ==> (p.opened(
            line,
            container,
            all_matched,
            maybe_lazy,
        ) matches Some((q, c)) && q.value(c) is Item && q.value(c)->Item_0.padding == 2
            && q.value(c)->Item_0.bullet_char == line[p.cursor.first_nonspace]),
{
    let i = p.cursor.first_nonspace;
    let b = line[i];
    let end = line.len() - 1;
    reveal(marked_start);
    reveal(break_or_item);
    reveal(ParserView::item_opened);
    lemma_find_first_nonspace(p.cursor, line);
    assert(line[i + 1] == 32 || line[i + 1] == 9 || line[i + 1] == 10) by {
        if i + 1 < end {
            assert(line[i + 1] == 32 || line[i + 1] == 9);
        }
    }
    lemma_run_is(line, i, b, 1);
    lemma_blanks_are(line, i + 1, end);
    assert(skip_run(line, i, 35) == i);
    assert(atx_start(line, i) is None);
    assert(fence_start(line, i) is None);
    assert(html_start(line, i) is None);
    assert(setext_line(line, i) is None);
    lemma_one_mark(line, i + 1, b);
    assert(break_line(line, i) is None) by {
        lemma_break_reaches_blank(line, i + 1, b);
        assert(occurrences(line, i + 1, end, b) == 0);
        assert(occurrences(line, i, end, b) == 1);
        assert(skip_break(line, i, b) == end);
    }
    if !(p.value(container) is Paragraph) {
        lemma_advance_to(p.cursor, line, i + 1);
        let c = p.cursor.advance(line, i + 1 - p.cursor.offset, false);
        lemma_column_at(line, i + 1, end, c.column);
        let gap = column_at(line, i + 1, end, c.column) - c.column;
        if gap <= 6 {
            lemma_padding_whole(c, line, c.column, end);
        } else {
            lemma_padding_part(c, line, c.column, end);
        }
        let (d, padding) = item_contents(c, line, 1);
        assert(padding == 2);
        let (_, nl) = list_marker(line, i, false)->0;
        let list = NodeList { padding: 2, marker_offset: p.cursor.indent as usize, ..nl };
        let a = p.at(d);
        lemma_appears(a, container, ValueView::Item(list), i + 1);
        lemma_appears(a, container, ValueView::List(list), i + 1);
        let (q, parent) = a.child_added(container, ValueView::List(list), i + 1);
        lemma_appears(q, parent, ValueView::Item(list), i + 1);
    }
}

proof fn lemma_one_mark(s: Seq<u8>, i: int, c: u8)
    requires
        0 <= i < s.len(),
        all_blank(s, i, s.len() - 1),
        c != 32,
        c != 9,
    ensures
        forall|j: int| i <= j <= s.len() - 1 ==> #[trigger] occurrences(s, i, j, c) == 0,
    decreases s.len() - i,
{
    if i < s.len() - 1 {
        assert(s[i] == 32 || s[i] == 9);
        lemma_one_mark(s, i + 1, c);
        assert forall|j: int| i <= j <= s.len() - 1 implies #[trigger] occurrences(s, i, j, c)
            == 0 by {
            if i < j {
                assert(occurrences(s, i + 1, j, c) == 0);
            }
        }
    }
}

proof fn lemma_break_reaches_blank(s: Seq<u8>, i: int, c: u8)
    requires
        0 <= i < s.len(),
        all_blank(s, i, s.len() - 1),
        s.last() == 10,
        c != 10,
    ensures
        skip_break(s, i, c) == s.len() - 1,
    decreases s.len() - i,
{
    if i < s.len() - 1 {
        assert(s[i] == 32 || s[i] == 9);
        lemma_break_reaches_blank(s, i + 1, c);
    }
}

/// Nothing but its own mark opens a block.
pub proof fn law_marks_are_needed(
    p: ParserView,
    line: Seq<u8>,
    container: usize,
    all_matched: bool,
    maybe_lazy: bool,
)
    requires
        opening(p, line, container),
        p.tree.len() + 2 <= usize::MAX,
    ensures
        p.opened(line, container, all_matched, maybe_lazy) matches Some((q, c)) ==> {
            let i = p.cursor.first_nonspace;
            match q.value(c) {
                ValueView::BlockQuote => p.cursor.indent < 4 && line[i] == 62,
                ValueView::Heading(nh) => {
                    &&& p.cursor.indent < 4
                    &&& if nh.setext {
                        &&& c == container && p.value(c) is Paragraph
                        &&& line[i] == 61 && nh.level == 1 || line[i] == 45 && nh.level == 2
                    } else {
                        &&& 1 <= nh.level <= 6
                        &&& i + nh.level < line.len()
                        &&& all_bytes(line, i, i + nh.level, 35)
                        &&& line[i + nh.level] == 32 || line[i + nh.level] == 9 || line[i
                            + nh.level] == 10
                    }
                },
                ValueView::CodeBlock(ncb) => if ncb.fenced {
                    &&& p.cursor.indent < 4
                    &&& line[i] == 96 || line[i] == 126
                    &&& ncb.fence_char == line[i]
                    &&& line[i + 1] == line[i] && line[i + 2] == line[i]
                } else {
                    p.cursor.indent >= 4 && !maybe_lazy && line[i] != 10
                },
                ValueView::HtmlBlock(nhb) => {
                    &&& p.cursor.indent < 4
                    &&& line[i] == 60
                    &&& 1 <= nhb.block_type <= 7
                    &&& nhb.block_type == 7 ==> !(p.value(container) is Paragraph)
                },
                ValueView::ThematicBreak => {
                    &&& p.cursor.indent < 4
                    &&& line[i] == 42 || line[i] == 95 || line[i] == 45
                    &&& forall|k: int|
                        i <= k < line.len() - 1 ==> #[trigger] line[k] == line[i] || line[k] == 32
                            || line[k] == 9
                    &&& p.value(container) is Paragraph ==> all_matched
                },
                ValueView::Item(nl) => {
                    &&& p.cursor.indent < 4 || p.value(container) is List
                    &&& nl.list_type == ListType::Bullet ==> (line[i] == 42 || line[i] == 45
                        || line[i] == 43) && white(line[i + 1]) && nl.bullet_char == line[i]
                    &&& nl.list_type == ListType::Ordered ==> 48 <= line[i] <= 57
                },
                ValueView::Table(_) => p.options.ext_table && p.value(container) is Paragraph,
                ValueView::TableRow(_) => p.options.ext_table && p.value(container) is Table,
                _ => false,
            }
        },
{
    let i = p.cursor.first_nonspace;
    let end = line.len() - 1;
    reveal(marked_start);
    reveal(break_or_item);
    lemma_find_first_nonspace(p.cursor, line);
    assert forall|c: CursorView, value: ValueView, column: int|
        ({
            let (q, n) = #[trigger] p.at(c).child_added(container, value, column);
            q.value(n) == value
        }) by {
        lemma_appears(p.at(c), container, value, column);
    }
    match p.block_start(line, container, all_matched, maybe_lazy) {
        BlockStart::BlockQuote => {
            reveal(ParserView::quote_opened);
        },
        BlockStart::Heading(_) => {
            reveal(ParserView::heading_opened);
            lemma_skip_run(line, i, 35);
            lemma_atx_start(line, i);
        },
        BlockStart::CodeFence(n) => {
            reveal(ParserView::fence_opened);
            lemma_skip_run(line, i, line[i]);
            lemma_fence_start(line, i);
            assert(line[i + 1] == line[i] && line[i + 2] == line[i]);
        },
        BlockStart::HtmlBlock(_) => {
            reveal(ParserView::html_opened);
            assert(p.at(p.cursor) == p);
        },
        BlockStart::Underline(_) => {
            reveal(ParserView::underlined);
        },
        BlockStart::ThematicBreak => {
            reveal(ParserView::break_opened);
            lemma_skip_break(line, i, line[i]);
            let j = skip_break(line, i, line[i]);
            assert(j == end) by {
                if j < end {
                    assert(!line_end(line[j]));
                }
            }
        },
        BlockStart::ListItem(matched, nl) => {
            lemma_list_marker(line, i, p.value(container) is Paragraph);
            lemma_item_value(p, line, container, matched, nl);
        },
        BlockStart::IndentedCode => {
            reveal(ParserView::code_opened);
        },
        BlockStart::Other => {
            reveal(ParserView::table_opened);
            lemma_table_value(p, line, container);
        },
    }
}

pub proof fn lemma_skip_break(s: Seq<u8>, i: int, c: u8)
    requires
        0 <= i <= s.len(),
    ensures
        i <= skip_break(s, i, c) <= s.len(),
        forall|k: int|
            i <= k < skip_break(s, i, c) ==> #[trigger] s[k] == c || s[k] == 32 || s[k] == 9,
    decreases s.len() - i,
{
    if i < s.len() && (s[i] == c || space_or_tab(s[i])) {
        lemma_skip_break(s, i + 1, c);
    }
}

pub proof fn lemma_item_value(
    p: ParserView,
    line: Seq<u8>,
    container: usize,
    matched: int,
    nl: NodeList,
)
    requires
        opening(p, line, container),
        p.tree.len() + 2 <= usize::MAX,
        1 <= matched,
        p.cursor.first_nonspace + matched < line.len(),
    ensures
        ({
            let (q, c) = p.item_opened(line, container, matched, nl);
            &&& q.value(c) is Item
            &&& q.value(c)->Item_0 == (NodeList {
                padding: q.value(c)->Item_0.padding,
                marker_offset: q.value(c)->Item_0.marker_offset,
                ..nl
            })
        }),
{
    reveal(ParserView::item_opened);
    let i = p.cursor.first_nonspace;
    let (d, padding) = item_contents(
        p.cursor.advance(line, i + matched - p.cursor.offset, false),
        line,
        matched,
    );
    let list = NodeList {
        padding: padding as usize,
        marker_offset: p.cursor.indent as usize,
        ..nl
    };
    let a = p.at(d);
    lemma_appears(a, container, ValueView::Item(list), i + 1);
    lemma_appears(a, container, ValueView::List(list), i + 1);
    let (q, parent) = a.child_added(container, ValueView::List(list), i + 1);
    lemma_appears(q, parent, ValueView::Item(list), i + 1);
}

pub proof fn lemma_table_value(p: ParserView, line: Seq<u8>, container: usize)
    requires
        opening(p, line, container),
        p.tree.len() + 2 <= usize::MAX,
    ensures
        p.table_opened(line, container) matches Some((q, c)) ==> match p.value(container) {
            ValueView::Paragraph => q.value(c) is Table,
            ValueView::Table(_) => q.value(c) is TableRow,
            _ => false,
        },
{
    reveal(ParserView::table_opened);
    let i = p.cursor.first_nonspace;
    let column = (i + 1) as usize;
    lemma_parent(p.tree, container);
    match p.table_opened(line, container) {
        Some((q, c)) => match p.value(container) {
            ValueView::Paragraph => {
                let header = p.tree[container as int].ast.content;
                let (aligns, cells) = table_opened(header, line.skip(i))->0;
                let table = new_block(ValueView::Table(aligns), p.line_number, column);
                let row = new_block(ValueView::TableRow(true), p.line_number, column);
                let t = replaced(p.tree, container, table);
                let n = p.tree.len() as usize;
                lemma_replaced_ok(p.tree, container, table);
                let u = appended(t, n, row);
                assert(u[n as int].ast == table);
                lemma_cells_kept(u, (n + 1) as usize, p.line_number, column, cells);
                assert(q.tree[n as int].ast == table);
            },
            ValueView::Table(aligns) => {
                let cells = cells_fitted(row_cells(line.skip(i))->0, aligns.len());
                let row = new_block(ValueView::TableRow(false), p.line_number, column);
                let n = p.tree.len() as usize;
                let t = appended(p.tree, container, row);
                lemma_cells_kept(t, n, p.line_number, column, cells);
                assert(q.tree[n as int].ast == row);
            },
            _ => {},
        },
        None => {},
    }
}

/// Cells are added behind the nodes that are there.
pub proof fn lemma_cells_kept(
    t: Seq<NodeView>,
    p: usize,
    line_number: u32,
    column: usize,
    cells: Seq<Seq<u8>>,
)
    requires
        p < t.len(),
    ensures
        ({
            let u = cells_appended(t, p, line_number, column, cells);
            &&& u.len() == t.len() + cells.len()
            &&& forall|m: int|
                #![trigger u[m]]
                0 <= m < t.len() ==> u[m].ast == t[m].ast && u[m].parent == t[m].parent
            &&& forall|m: int|
                #![trigger u[m]]
                t.len() <= m < u.len() ==> u[m].ast.value is TableCell && u[m].ast.content
                    == cells[m - t.len()] && u[m].parent == Some(p)
        }),
    decreases cells.len(),
{
    if cells.len() > 0 {
        lemma_cells_kept(t, p, line_number, column, cells.drop_last());
    }
}

/// No mark of a block starts with this byte.
pub open spec fn marks_nothing(c: u8) -> bool {
    &&& c != 35 && c != 42 && c != 43 && c != 45 && c != 60 && c != 61 && c != 62 && c != 95
    &&& c != 96 && c != 126
    &&& !(48 <= c <= 57)
}

/// Where no mark stands, nothing starts but a table or indented code.
pub proof fn lemma_nothing_marked(
    p: ParserView,
    line: Seq<u8>,
    container: usize,
    all_matched: bool,
    maybe_lazy: bool,
)
    requires
        opening(p, line, container),
        marks_nothing(line[p.cursor.first_nonspace]),
        p.cursor.indent < 4 || maybe_lazy || line[p.cursor.first_nonspace] == 10,
    ensures
        p.block_start(line, container, all_matched, maybe_lazy) == BlockStart::Other,
{
    let i = p.cursor.first_nonspace;
    reveal(marked_start);
    reveal(break_or_item);
    lemma_find_first_nonspace(p.cursor, line);
    lemma_skip_run(line, i, 35);
    assert(atx_start(line, i) is None);
    assert(digit_count(line, i, 9) == 0);
}

} // verus!
