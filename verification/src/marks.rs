//! What a line has to hold for a block of each kind to open.
use crate::ctype::is_digit;
use crate::cursor::{lemma_find_first_nonspace, CursorView};
use crate::html::{html_start, html_start_7, name_among, skip_name, BLOCK_TAGS};
use crate::list_marker::{
    digit_count, lemma_digit_count, lemma_list_marker, line_feed_follows, list_marker,
    rest_is_blank,
};
use crate::model::{break_or_item, marked_start, BlockStart, ParserView};
use crate::nodes::{ListDelimType, ListType, ValueView};
use crate::preserved::opening;
use crate::scanners::{
    break_line, fence_start, lemma_fence_start, occurrences, setext_line, skip_break, SetextChar,
};
use crate::starting::{
    all_blank, all_bytes, decimal, html_mark, lemma_appears, lemma_comment_mark, lemma_data_mark,
    lemma_decimal, lemma_item_value, lemma_raw_names, lemma_skip_break, lemma_table_value, marked,
    white,
};
use crate::strings::{
    find_line_end, lemma_find_line_end, lemma_skip_blanks, lemma_skip_run, line_end, skip_blanks,
    skip_run, space_or_tab,
};
use vstd::prelude::*;

verus! {

/// The block that has opened tells what was found at the start of the line.
proof fn lemma_start_found(
    p: ParserView,
    line: Seq<u8>,
    container: usize,
    all_matched: bool,
    maybe_lazy: bool,
)
    requires
        opening(p, line, container),
        p.tree.len() + 2 <= usize::MAX,
    ensures
        p.opened(line, container, all_matched, maybe_lazy) matches Some((q, c)) ==> {
            let found = p.block_start(line, container, all_matched, maybe_lazy);
            match q.value(c) {
                ValueView::CodeBlock(ncb) => ncb.fenced ==> match found {
                    BlockStart::CodeFence(m) => ncb.fence_length == m as usize && ncb.fence_char
                        == line[p.cursor.first_nonspace] && ncb.fence_offset == (
                    p.cursor.first_nonspace - p.cursor.offset) as usize,
                    _ => false,
                },
                ValueView::HtmlBlock(nhb) => found == BlockStart::HtmlBlock(nhb.block_type),
                ValueView::Heading(nh) => nh.setext ==> match found {
                    BlockStart::Underline(SetextChar::Equals) => nh.level == 1,
                    BlockStart::Underline(SetextChar::Hyphen) => nh.level == 2,
                    _ => false,
                },
                ValueView::ThematicBreak => found == BlockStart::ThematicBreak,
                ValueView::Item(nl) => match found {
                    BlockStart::ListItem(_, ml) => nl.list_type == ml.list_type && nl.start
                        == ml.start && nl.delimiter == ml.delimiter && nl.bullet_char
                        == ml.bullet_char,
                    _ => false,
                },
                _ => true,
            }
        },
{
    let i = p.cursor.first_nonspace;
    reveal(marked_start);
    reveal(break_or_item);
    lemma_find_first_nonspace(p.cursor, line);
    assert forall|c: CursorView, value: ValueView, column: int|
        ({
            let (q, n) = #[trigger] p.at(c).child_added(container, value, column);
            q.value(n) == value
        }) by {
        lemma_appears(p.at(c), container, value, column);
    }
    match p.block_start(line, container, all_matched, maybe_lazy) {
        BlockStart::BlockQuote => {
            reveal(ParserView::quote_opened);
        },
        BlockStart::Heading(_) => {
            reveal(ParserView::heading_opened);
        },
        BlockStart::CodeFence(_) => {
            reveal(ParserView::fence_opened);
        },
        BlockStart::HtmlBlock(_) => {
            reveal(ParserView::html_opened);
            assert(p.at(p.cursor) == p);
        },
        BlockStart::Underline(_) => {
            reveal(ParserView::underlined);
        },
        BlockStart::ThematicBreak => {
            reveal(ParserView::break_opened);
        },
        BlockStart::ListItem(matched, nl) => {
            lemma_list_marker(line, i, p.value(container) is Paragraph);
            lemma_item_value(p, line, container, matched, nl);
        },
        BlockStart::IndentedCode => {
            reveal(ParserView::code_opened);
        },
        BlockStart::Other => {
            lemma_table_value(p, line, container);
        },
    }
}

/// A fenced code block opens only at a run of three or more backquotes or tildes, which does not
/// occur again on the line. Its length, its character and its indentation are those of the run.
pub proof fn law_fence_is_needed(
    p: ParserView,
    line: Seq<u8>,
    container: usize,
    all_matched: bool,
    maybe_lazy: bool,
)
    requires
        opening(p, line, container),
        p.tree.len() + 2 <= usize::MAX,
    ensures
        p.opened(line, container, all_matched, maybe_lazy) matches Some((q, c)) ==> (q.value(
            c,
        ) matches ValueView::CodeBlock(ncb) ==> ncb.fenced ==> {
            let i = p.cursor.first_nonspace;
            let n = ncb.fence_length;
            &&& p.cursor.indent < 4
            &&& line[i] == 96 || line[i] == 126
            &&& ncb.fence_char == line[i]
            &&& ncb.fence_offset == i - p.cursor.offset
            &&& n >= 3 && i + n < line.len()
            &&& all_bytes(line, i, i + n, line[i])
            &&& forall|k: int| i + n <= k < line.len() ==> #[trigger] line[k] != line[i]
        }),
{
    let i = p.cursor.first_nonspace;
    lemma_find_first_nonspace(p.cursor, line);
    lemma_start_found(p, line, container, all_matched, maybe_lazy);
    reveal(marked_start);
    reveal(break_or_item);
    lemma_fence_start(line, i);
    lemma_skip_run(line, i, line[i]);
    let e = skip_run(line, i, line[i]);
    lemma_find_line_end(line, e);
    let j = find_line_end(line, e);
    if fence_start(line, i) is Some {
        assert(j == line.len() - 1) by {
            if j < line.len() - 1 {
                assert(!line_end(line[j]));
            }
        }
    }
}

/// A paragraph becomes a heading only under a run of equals signs, for the level 1, or of hyphens,
/// for the level 2, with nothing but spaces and tabs behind it.
pub proof fn law_underline_is_needed(
    p: ParserView,
    line: Seq<u8>,
    container: usize,
    all_matched: bool,
    maybe_lazy: bool,
)
    requires
        opening(p, line, container),
        p.tree.len() + 2 <= usize::MAX,
    ensures
        p.opened(line, container, all_matched, maybe_lazy) matches Some((q, c)) ==> (q.value(
            c,
        ) matches ValueView::Heading(nh) ==> nh.setext ==> {
            let i = p.cursor.first_nonspace;
            &&& p.cursor.indent < 4
            &&& p.value(container) is Paragraph
            &&& line[i] == 61 && nh.level == 1 || line[i] == 45 && nh.level == 2
            &&& exists|e: int|
                i < e < line.len() && #[trigger] all_bytes(line, i, e, line[i]) && all_blank(
                    line,
                    e,
                    line.len() - 1,
                )
        }),
{
    let i = p.cursor.first_nonspace;
    lemma_find_first_nonspace(p.cursor, line);
    lemma_start_found(p, line, container, all_matched, maybe_lazy);
    reveal(marked_start);
    reveal(break_or_item);
    if setext_line(line, i) is Some {
        lemma_skip_run(line, i, line[i]);
        let e = skip_run(line, i, line[i]);
        lemma_skip_blanks(line, e);
        let j = skip_blanks(line, e);
        assert(j == line.len() - 1) by {
            if j < line.len() - 1 {
                assert(!line_end(line[j]));
            }
        }
        assert forall|k: int| e <= k < j implies #[trigger] line[k] == 32 || line[k] == 9 by {
            assert(space_or_tab(line[k]));
        }
        assert(all_bytes(line, i, e, line[i]) && all_blank(line, e, line.len() - 1));
    }
}

proof fn lemma_occurs(s: Seq<u8>, i: int, j: int, c: u8) -> (k: int)
    requires
        occurrences(s, i, j, c) >= 1,
    ensures
        i <= k < j,
        s[k] == c,
        occurrences(s, k + 1, j, c) == occurrences(s, i, j, c) - 1,
    decreases j - i,
{
    if i < j && s[i] == c {
        i
    } else if i < j {
        lemma_occurs(s, i + 1, j, c)
    } else {
        i
    }
}

/// A thematic break opens only at a line that holds nothing but one of `*`, `_` and `-`, three
/// times or more, and spaces and tabs.
pub proof fn law_break_is_needed(
    p: ParserView,
    line: Seq<u8>,
    container: usize,
    all_matched: bool,
    maybe_lazy: bool,
)
    requires
        opening(p, line, container),
        p.tree.len() + 2 <= usize::MAX,
    ensures
        p.opened(line, container, all_matched, maybe_lazy) matches Some((q, c)) ==> (q.value(
            c,
        ) is ThematicBreak ==> {
            let i = p.cursor.first_nonspace;
            &&& p.cursor.indent < 4
            &&& line[i] == 42 || line[i] == 95 || line[i] == 45
            &&& forall|k: int|
                i <= k < line.len() - 1 ==> #[trigger] line[k] == line[i] || line[k] == 32
                    || line[k] == 9
            &&& exists|a: int, b: int|
                i < a < b < line.len() && #[trigger] line[a] == line[i] && #[trigger] line[b]
                    == line[i]
        }),
{
    let i = p.cursor.first_nonspace;
    lemma_find_first_nonspace(p.cursor, line);
    lemma_start_found(p, line, container, all_matched, maybe_lazy);
    reveal(marked_start);
    reveal(break_or_item);
    if break_line(line, i) is Some {
        let c = line[i];
        let j = skip_break(line, i, c);
        lemma_skip_break(line, i, c);
        assert(j == line.len() - 1) by {
            if j < line.len() - 1 {
                assert(!line_end(line[j]));
            }
        }
        let k = lemma_occurs(line, i, j, c);
        let a = lemma_occurs(line, k + 1, j, c);
        let b = lemma_occurs(line, a + 1, j, c);
        assert(i < a < b < line.len() && line[a] == line[i] && line[b] == line[i]);
    }
}

/// Raw HTML opens only at the mark of its kind. For the kind 6 that is the tag of an element that
/// forms a block, and for the kind 7 a complete tag that stands alone on the line, and not in a
/// paragraph.
pub proof fn law_html_mark_is_needed(
    p: ParserView,
    line: Seq<u8>,
    container: usize,
    all_matched: bool,
    maybe_lazy: bool,
)
    requires
        opening(p, line, container),
        p.tree.len() + 2 <= usize::MAX,
    ensures
        p.opened(line, container, all_matched, maybe_lazy) matches Some((q, c)) ==> (q.value(
            c,
        ) matches ValueView::HtmlBlock(nhb) ==> {
            let i = p.cursor.first_nonspace;
            &&& p.cursor.indent < 4
            &&& line[i] == 60
            &&& 1 <= nhb.block_type <= 7
            &&& nhb.block_type <= 5 ==> html_mark(line, i, nhb.block_type)
            &&& nhb.block_type == 6 ==> block_tag_at(line, i)
            &&& nhb.block_type == 7 ==> html_start_7(line, i) && !(p.value(
                container,
            ) is Paragraph) && !block_tag_at(line, i)
        }),
{
    let i = p.cursor.first_nonspace;
    lemma_find_first_nonspace(p.cursor, line);
    lemma_start_found(p, line, container, all_matched, maybe_lazy);
    reveal(marked_start);
    reveal(break_or_item);
    if i + 1 < line.len() && line[i] == 60 {
        lemma_html_mark_found(line, i);
    }
}

/// The tag of an element that forms a block stands at `i`.
pub open spec fn block_tag_at(line: Seq<u8>, i: int) -> bool {
    let at = if line[i + 1] == 47 {
        i + 2
    } else {
        i + 1
    };
    let end = skip_name(line, at);
    &&& name_among(line, at, end, BLOCK_TAGS@, 63)
    &&& end < line.len()
    &&& white(line[end]) || line[end] == 62 || (line[end] == 47 && end + 1 < line.len() && line[end
        + 1] == 62)
}

proof fn lemma_html_mark_found(line: Seq<u8>, i: int)
    requires
        0 <= i,
        i + 1 < line.len(),
        line[i] == 60,
    ensures
        html_start(line, i) matches Some(kind) ==> {
            &&& 1 <= kind <= 6
            &&& kind <= 5 ==> html_mark(line, i, kind)
            &&& kind == 6 ==> block_tag_at(line, i)
        },
        html_start(line, i) is None ==> !block_tag_at(line, i),
{
    lemma_raw_names(line, i);
    lemma_comment_mark(line, i);
    lemma_data_mark(line, i);
    if html_start(line, i) == Some(3u8) {
        assert(marked(line, i, seq![60u8, 63u8]));
    }
    if html_start(line, i) == Some(4u8) {
        assert(marked(line, i, seq![60u8, 33u8]));
    }
}

/// Something on the line from `i` on is neither a space nor a tab.
pub open spec fn something_follows(line: Seq<u8>, i: int) -> bool {
    exists|k: int|
        i <= k < line.len() - 1 && #[trigger] line[k] != 32 && line[k] != 9
}

/// A list item opens only at a bullet, or at a number of one to nine digits and a full stop or a
/// parenthesis, with white space behind it. In a paragraph, the number has to be 1, and something
/// has to follow on the line.
pub proof fn law_list_marker_is_needed(
    p: ParserView,
    line: Seq<u8>,
    container: usize,
    all_matched: bool,
    maybe_lazy: bool,
)
    requires
        opening(p, line, container),
        p.tree.len() + 2 <= usize::MAX,
    ensures
        p.opened(line, container, all_matched, maybe_lazy) matches Some((q, c)) ==> (q.value(
            c,
        ) matches ValueView::Item(nl) ==> {
            let i = p.cursor.first_nonspace;
            let para = p.value(container) is Paragraph;
            &&& p.cursor.indent < 4 || p.value(container) is List
            &&& match nl.list_type {
                ListType::Bullet => {
                    &&& line[i] == 42 || line[i] == 45 || line[i] == 43
                    &&& nl.bullet_char == line[i]
                    &&& white(line[i + 1])
                    &&& para ==> something_follows(line, i + 1)
                },
                ListType::Ordered => exists|n: int|
                    #![trigger line[i + n]]
                    {
                        &&& 1 <= n <= 9
                        &&& i + n + 1 < line.len()
                        &&& forall|k: int| i <= k < i + n ==> 48 <= #[trigger] line[k] <= 57
                        &&& nl.start == decimal(line.subrange(i, i + n)) as usize
                        &&& line[i + n] == 46 && nl.delimiter == ListDelimType::Period || line[i
                            + n] == 41 && nl.delimiter == ListDelimType::Paren
                        &&& white(line[i + n + 1])
                        &&& para ==> nl.start == 1 && something_follows(line, i + n + 1)
                    },
            }
        }),
{
    let i = p.cursor.first_nonspace;
    let para = p.value(container) is Paragraph;
    lemma_find_first_nonspace(p.cursor, line);
    lemma_start_found(p, line, container, all_matched, maybe_lazy);
    reveal(marked_start);
    reveal(break_or_item);
    if let Some((matched, nl)) = list_marker(line, i, para) {
        lemma_list_marker(line, i, para);
        lemma_digit_count(line, i, 9);
        let n = digit_count(line, i, 9);
        if line[i] == 42 || line[i] == 45 || line[i] == 43 {
            if para {
                lemma_not_blank(line, i + 1);
            }
        } else {
            assert forall|k: int| i <= k < i + n implies 48 <= #[trigger] line[k] <= 57 by {
                assert(is_digit(line[k]));
            }
            lemma_decimal(line, i, n);
            if para {
                lemma_not_blank(line, i + n + 1);
            }
            assert(matched == n + 1);
            assert(white(line[i + n + 1]));
            assert(line[i + n] == 46 || line[i + n] == 41);
        }
    }
}

proof fn lemma_not_blank(line: Seq<u8>, i: int)
    requires
        0 <= i < line.len(),
        line.last() == 10,
        !rest_is_blank(line, i) || !line_feed_follows(line, i),
    ensures
        line_feed_follows(line, i) || something_follows(line, i),
{
    lemma_skip_blanks(line, i);
    let j = skip_blanks(line, i);
    if j == line.len() {
        assert(space_or_tab(line[line.len() - 1]));
    }
    if line[j] != 10 {
        assert(line[j] != 32 && line[j] != 9);
    }
}

} // verus!
