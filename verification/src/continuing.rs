//! Which open blocks a line goes on with, what it takes off itself in doing so, and where the
//! rest of it goes.
use crate::ctype::lower;
use crate::cursor::{
    column_at, lemma_advance_blanks, lemma_advance_bytes, lemma_advance_columns,
    lemma_advance_indent, lemma_advance_marker, lemma_advance_one, lemma_advance_to,
    lemma_advance_within, lemma_column_at, lemma_find_first_nonspace, line_ok, tab_width,
    CursorView,
};
use crate::html::{html_end, lemma_literals, text_at, text_from};
use crate::model::{fence_indent_skipped, line_text, ParserView};
use crate::nodes::{AstView, ValueView};
use crate::preserved::{lemma_blank_noted, lemma_continued, lemma_finalized, text_ready};
use crate::scanners::fence_end;
use crate::starting::{all_blank, all_bytes, lemma_appears, lemma_blanks_are, lemma_run_is};
use crate::strings::{
    hashtags_chopped, lemma_skip_blanks, lemma_skip_run, line_end, skip_blanks, space_or_tab,
};
use crate::tree::{ancestor, last_child, lemma_ancestor_trans, lemma_child_place, lemma_with_ast_ok};
use vstd::prelude::*;

verus! {

/// The state is one in which it is asked whether the block `n` goes on.
pub open spec fn asked(p: ParserView, line: Seq<u8>, n: usize) -> bool {
    &&& p.ok()
    &&& n < p.tree.len()
    &&& line_ok(line)
    &&& p.cursor.on(line)
    &&& p.cursor.tab_ok(line)
    &&& p.cursor.measured(line)
}

/// A block quote goes on where the line has its mark within three columns. The mark and one space
/// behind it are taken off.
pub proof fn law_quote_goes_on(p: ParserView, line: Seq<u8>, n: usize)
    requires
        asked(p, line, n),
        p.value(n) is BlockQuote,
    ensures
        ({
            let i = p.cursor.first_nonspace;
            let (q, goes_on, left) = p.continued(line, n);
            &&& left
            &&& goes_on == (p.cursor.indent <= 3 && line[i] == 62)
            &&& q.tree == p.tree
            &&& !goes_on ==> q == p
            &&& goes_on && line[i + 1] == 32 ==> q.cursor.offset == i + 2
            &&& goes_on && line[i + 1] != 32 && line[i + 1] != 9 ==> q.cursor.offset == i + 1
            &&& goes_on && line[i + 1] == 9 ==> q.cursor.column == p.cursor.column
                + p.cursor.indent + 2
        }),
{
    let c = p.cursor;
    let i = c.first_nonspace;
    lemma_find_first_nonspace(c, line);
    if c.indent <= 3 && line[i] == 62 {
        lemma_advance_marker(c, line);
        lemma_advance_columns(c, line, c.indent + 1);
        let d = c.advance(line, c.indent + 1, true);
        if space_or_tab(line[d.offset]) {
            lemma_advance_one(d, line);
            if line[i + 1] == 32 {
                assert(d.advance(line, 1, true) == d.step(line, 1, true).0.advance(line, 0, true));
            }
        }
    }
}

/// A list item goes on where the line is indented as far as its text, which is then taken off, or
/// where the line is blank and the item is not empty.
pub proof fn law_item_goes_on(p: ParserView, line: Seq<u8>, n: usize)
    requires
        asked(p, line, n),
        p.value(n) is Item,
    ensures
        ({
            let nl = p.value(n)->Item_0;
            let width = nl.marker_offset + nl.padding;
            let i = p.cursor.first_nonspace;
            let (q, goes_on, left) = p.continued(line, n);
            &&& left
            &&& goes_on == (p.cursor.indent >= width || (line[i] == 10
                && p.tree[n as int].children.len() > 0))
            &&& q.tree == p.tree
            &&& !goes_on ==> q == p
            &&& p.cursor.indent >= width ==> q.cursor.column == p.cursor.column + width
                && q.cursor.offset <= i
            &&& goes_on && p.cursor.indent < width ==> q.cursor.offset == i
        }),
{
    let nl = p.value(n)->Item_0;
    let width = nl.marker_offset + nl.padding;
    let c = p.cursor;
    lemma_find_first_nonspace(c, line);
    lemma_blank_line(c, line);
    lemma_advance_to(c, line, c.first_nonspace);
    if c.indent >= width {
        lemma_advance_indent(c, line, width);
        lemma_advance_columns(c, line, width);
    }
}

/// A line is blank where nothing but its end is behind the indentation.
pub proof fn lemma_blank_line(c: CursorView, line: Seq<u8>)
    requires
        line_ok(line),
        c.on(line),
        c.measured(line),
    ensures
        c.blank == (line[c.first_nonspace] == 10),
{
    lemma_find_first_nonspace(c, line);
    if c.first_nonspace < line.len() - 1 {
        assert(!line_end(line[c.first_nonspace]));
    }
}

/// The line holds nothing but `m` times the character of the fence, and white space.
pub open spec fn closing_fence(line: Seq<u8>, i: int, c: u8, m: int) -> bool {
    &&& 0 <= i
    &&& i + m <= line.len() - 1
    &&& all_bytes(line, i, i + m, c)
    &&& all_blank(line, i + m, line.len() - 1)
}

/// A fence closes fenced code if it is made of the character that opened it, is at least as long,
/// and stands alone within three columns. The block is closed then, and the line is used up.
pub proof fn law_fence_closes(p: ParserView, line: Seq<u8>, n: usize, m: int)
    requires
        asked(p, line, n),
        p.value(n) is CodeBlock,
        p.value(n)->CodeBlock_0.fenced,
        p.value(n)->CodeBlock_0.fence_char == 96 || p.value(n)->CodeBlock_0.fence_char == 126,
        p.cursor.indent <= 3,
        m >= 3,
        m >= p.value(n)->CodeBlock_0.fence_length,
        closing_fence(line, p.cursor.first_nonspace, p.value(n)->CodeBlock_0.fence_char, m),
    ensures
        ({
            let (q, goes_on, left) = p.continued(line, n);
            &&& !goes_on && !left
            &&& !q.tree[n as int].ast.open
            &&& p.parent(n) is Some ==> q.current == p.parent(n)->0
        }),
{
    let c = p.cursor;
    let i = c.first_nonspace;
    let f = p.value(n)->CodeBlock_0.fence_char;
    lemma_find_first_nonspace(c, line);
    assert(line[i] == f);
    assert(line[i + m] != f) by {
        if i + m < line.len() - 1 {
            assert(line[i + m] == 32 || line[i + m] == 9);
        }
    }
    lemma_run_is(line, i, f, m);
    lemma_blanks_are(line, i + m, line.len() - 1);
    assert(fence_end(line, i) == Some(m));
    lemma_finalized(p.at(c.advance(line, m, false)), n);
}

/// Nothing else closes it: every other line leaves the block open and the tree as it is. As much
/// white space is taken off the line as stood before the fence.
pub proof fn law_fence_goes_on(p: ParserView, line: Seq<u8>, n: usize)
    requires
        asked(p, line, n),
        p.value(n) is CodeBlock,
        p.value(n)->CodeBlock_0.fenced,
        p.value(n)->CodeBlock_0.fence_length >= 3,
    ensures
        ({
            let ncb = p.value(n)->CodeBlock_0;
            let (q, goes_on, left) = p.continued(line, n);
            let taken = if ncb.fence_offset <= p.cursor.indent {
                ncb.fence_offset as int
            } else {
                p.cursor.indent
            };
            &&& goes_on == left
            &&& goes_on ==> q.tree == p.tree && q.current == p.current && q.cursor.column
                == p.cursor.column + taken && q.cursor.offset <= p.cursor.first_nonspace
            &&& !goes_on ==> p.cursor.indent <= 3 && exists|m: int|
                m >= ncb.fence_length && #[trigger] closing_fence(
                    line,
                    p.cursor.first_nonspace,
                    ncb.fence_char,
                    m,
                )
        }),
{
    let c = p.cursor;
    let i = c.first_nonspace;
    let ncb = p.value(n)->CodeBlock_0;
    lemma_find_first_nonspace(c, line);
    lemma_continued(p, line, n);
    lemma_fence_indent(c, line, ncb.fence_offset as int, i);
    let (q, goes_on, left) = p.continued(line, n);
    if !goes_on {
        let m = fence_end(line, i)->0;
        lemma_skip_run(line, i, line[i]);
        lemma_skip_blanks(line, i + m);
        let j = skip_blanks(line, i + m);
        assert(j == line.len() - 1) by {
            if j < line.len() - 1 {
                assert(!line_end(line[j]));
            }
        }
        assert(closing_fence(line, i, ncb.fence_char, m)) by {
            assert forall|k: int| i + m <= k < line.len() - 1 implies #[trigger] line[k] == 32
                || line[k] == 9 by {
                assert(space_or_tab(line[k]));
            }
        }
    }
}

proof fn lemma_fence_indent(c: CursorView, line: Seq<u8>, count: int, j: int)
    requires
        line_ok(line),
        c.on(line),
        0 <= count,
        c.offset <= j < line.len(),
        forall|k: int| c.offset <= k < j ==> space_or_tab(#[trigger] line[k]),
        !space_or_tab(line[j]),
    ensures
        ({
            let d = fence_indent_skipped(c, line, count);
            let indent = column_at(line, c.offset, j, c.column) - c.column;
            &&& d.offset <= j
            &&& d.column == c.column + if count <= indent {
                count
            } else {
                indent
            }
        }),
    decreases count,
{
    lemma_column_at(line, c.offset, j, c.column);
    if count > 0 && c.offset < j {
        assert(space_or_tab(line[c.offset]));
        lemma_advance_blanks(c, line, 1, j);
        lemma_advance_columns(c, line, 1);
        lemma_advance_one(c, line);
        lemma_advance_within(c, line, 1, true);
        let next = c.advance(line, 1, true);
        assert forall|k: int| next.offset <= k < j implies space_or_tab(#[trigger] line[k]) by {
        }
        lemma_fence_indent(next, line, count - 1, j);
    }
}

/// Indented code goes on while the line is indented by four columns, which are taken off, and over
/// blank lines.
pub proof fn law_indented_code_goes_on(p: ParserView, line: Seq<u8>, n: usize)
    requires
        asked(p, line, n),
        p.value(n) is CodeBlock,
        !p.value(n)->CodeBlock_0.fenced,
    ensures
        ({
            let i = p.cursor.first_nonspace;
            let (q, goes_on, left) = p.continued(line, n);
            &&& left
            &&& goes_on == (p.cursor.indent >= 4 || line[i] == 10)
            &&& q.tree == p.tree
            &&& !goes_on ==> q == p
            &&& p.cursor.indent >= 4 ==> q.cursor.column == p.cursor.column + 4
            &&& goes_on && p.cursor.indent < 4 ==> q.cursor.offset == i
        }),
{
    let c = p.cursor;
    lemma_find_first_nonspace(c, line);
    lemma_blank_line(c, line);
    lemma_advance_to(c, line, c.first_nonspace);
    if c.indent >= 4 {
        lemma_advance_indent(c, line, 4);
        lemma_advance_columns(c, line, 4);
    }
}

/// The other blocks take nothing off the line. Documents and lists go on; paragraphs go on up to
/// a blank line, and so does raw HTML that no mark of its own ends; headings do not go on, nor
/// do rows and cells; a table goes on while rows follow.
pub proof fn law_others_go_on(p: ParserView, line: Seq<u8>, n: usize)
    requires
        asked(p, line, n),
        !(p.value(n) is BlockQuote),
        !(p.value(n) is Item),
        !(p.value(n) is CodeBlock),
    ensures
        ({
            let blank = line[p.cursor.first_nonspace] == 10;
            let (q, goes_on, left) = p.continued(line, n);
            &&& left && q == p
            &&& match p.value(n) {
                ValueView::Document | ValueView::List(_) => goes_on,
                ValueView::Paragraph => goes_on == !blank,
                ValueView::HtmlBlock(nhb) => goes_on == (nhb.block_type <= 5 || !blank),
                ValueView::Heading(_) | ValueView::TableRow(_) | ValueView::TableCell => !goes_on,
                _ => true,
            }
        }),
{
    lemma_blank_line(p.cursor, line);
}

/// The blocks that go on with a line are those from `container` down to the last one that was
/// found, each the last child of the one above it and open. Either all open blocks go on, or
/// the next one does not.
pub proof fn law_open_blocks_checked(p: ParserView, line: Seq<u8>, container: usize)
    requires
        p.ok(),
        line_ok(line),
        p.cursor.on(line),
        p.cursor.tab_ok(line),
        container < p.tree.len(),
    ensures
        ({
            let (q, last, all, left) = p.open_blocks_checked(line, container);
            &&& ancestor(p.tree, container, last)
            &&& left ==> q.tree == p.tree && q.current == p.current
            &&& last != container ==> p.tree[last as int].ast.open
            &&& all ==> left && (last_child(p.tree, last) matches Some(n)
                ==> !p.tree[n as int].ast.open)
            &&& !all ==> last_child(p.tree, last) is Some && p.tree[last_child(
                p.tree,
                last,
            )->0 as int].ast.open && (exists|m: ParserView|
                m.tree == p.tree && m.cursor.measured(line) && m.cursor.offset >= p.cursor.offset
                    && !(#[trigger] m.continued(line, last_child(p.tree, last)->0)).1)
        }),
    decreases p.tree.len() - container,
{
    assert(ancestor(p.tree, container, container));
    if let Some(n) = last_child(p.tree, container) {
        lemma_child_place(p.tree, container, p.tree[container as int].children.len() - 1);
        if p.tree[n as int].ast.open {
            let m = p.at(p.cursor.find_first_nonspace(line));
            lemma_find_first_nonspace(p.cursor, line);
            lemma_continued(m, line, n);
            let (q, goes_on, left) = m.continued(line, n);
            if goes_on {
                law_open_blocks_checked(q, line, n);
                let last = q.open_blocks_checked(line, n).1;
                lemma_ancestor_trans(p.tree, container, n, last);
            } else {
                assert(!m.continued(line, n).1);
            }
        }
    }
}

/// The text of `n`, and nothing else in the tree, has `more` behind it.
pub open spec fn text_grows(p: ParserView, q: ParserView, n: usize, more: Seq<u8>) -> bool {
    &&& q.tree.len() == p.tree.len()
    &&& q.tree[n as int].ast.content == p.tree[n as int].ast.content + more
    &&& q.tree[n as int].ast == (AstView {
        content: q.tree[n as int].ast.content,
        ..p.tree[n as int].ast
    })
    &&& q.tree[n as int].parent == p.tree[n as int].parent
    &&& q.tree[n as int].children == p.tree[n as int].children
    &&& forall|m: int|
        #![trigger q.tree[m]]
        0 <= m < p.tree.len() && m != n ==> q.tree[m] == p.tree[m]
}

/// What is left of a line is what stands from the cursor on. Of a tab that was consumed in part,
/// the columns up to the next multiple of four are left, as spaces.
pub proof fn law_rest_of_line(c: CursorView, line: Seq<u8>, n: int)
    requires
        c.on(line),
        c.tab_ok(line),
    ensures
        !c.partially_consumed_tab ==> line_text(c, line) == line.skip(c.offset),
        c.partially_consumed_tab && 1 <= n <= 4 && (c.column + n) % 4 == 0 ==> ({
            let t = line_text(c, line);
            &&& t.len() == n + line.len() - c.offset - 1
            &&& t.take(n) == Seq::new(n as nat, |k: int| 32u8)
            &&& t.skip(n) == line.skip(c.offset + 1)
        }),
{
    if c.partially_consumed_tab && 1 <= n <= 4 && (c.column + n) % 4 == 0 {
        assert(tab_width(c.column) == n);
        let pad = Seq::new(n as nat, |k: int| 32u8);
        let t = line_text(c, line);
        if c.offset + 1 < line.len() {
            assert(t =~= pad + line.skip(c.offset + 1));
        } else {
            assert(t =~= pad);
        }
        assert(t.take(n) =~= pad);
        assert(t.skip(n) =~= line.skip(c.offset + 1));
    } else if !c.partially_consumed_tab {
        assert(line_text(c, line) =~= line.skip(c.offset));
    }
}

/// A paragraph takes the line without its indentation.
pub proof fn law_paragraph_takes_text(p: ParserView, container: usize, line: Seq<u8>)
    requires
        text_ready(p, line, container),
        line_ok(line),
        p.cursor.on(line),
        p.cursor.measured(line),
        line[p.cursor.first_nonspace] != 10,
        p.value(container) is Paragraph || (p.value(container) is Heading && p.value(
            container,
        )->Heading_0.setext),
    ensures
        ({
            let (q, rest) = p.text_taken(container, line);
            &&& rest == line
            &&& q.current == container
            &&& text_grows(p, q, container, line.skip(p.cursor.first_nonspace))
        }),
{
    reveal(ParserView::text_taken);
    let c = p.cursor;
    lemma_find_first_nonspace(c, line);
    lemma_blank_line(c, line);
    lemma_advance_to(c, line, c.first_nonspace);
    lemma_advance_bytes(c, line, c.first_nonspace - c.offset);
    let d = c.advance(line, c.first_nonspace - c.offset, false);
    assert(!d.partially_consumed_tab);
    law_rest_of_line(d, line, 1);
}

/// The text of a heading is what stands behind its mark, without what closes it.
pub proof fn law_heading_takes_text(p: ParserView, container: usize, line: Seq<u8>)
    requires
        text_ready(p, line, container),
        line_ok(line),
        p.cursor.on(line),
        p.cursor.measured(line),
        line[p.cursor.first_nonspace] != 10,
        p.value(container) is Heading,
        !p.value(container)->Heading_0.setext,
    ensures
        ({
            let (q, rest) = p.text_taken(container, line);
            let kept = hashtags_chopped(line);
            &&& rest == kept
            &&& q.current == container
            &&& p.cursor.offset <= kept.len() ==> text_grows(
                p,
                q,
                container,
                kept.skip(p.cursor.offset),
            )
            &&& p.cursor.offset >= kept.len() ==> text_grows(p, q, container, Seq::empty())
        }),
{
    reveal(ParserView::text_taken);
    let c = p.cursor;
    lemma_find_first_nonspace(c, line);
    lemma_blank_line(c, line);
    let kept = hashtags_chopped(line);
    assert(c.advance(kept, 0, false) == c);
    if c.offset <= kept.len() {
        assert(line_text(c, kept) =~= kept.skip(c.offset));
    }
    if c.offset >= kept.len() {
        assert(line_text(c, kept) =~= Seq::<u8>::empty());
    }
}

/// Code takes the rest of the line as it is, blank lines too.
pub proof fn law_code_takes_text(p: ParserView, container: usize, line: Seq<u8>)
    requires
        text_ready(p, line, container),
        p.cursor.on(line),
        p.value(container) is CodeBlock,
    ensures
        ({
            let (q, rest) = p.text_taken(container, line);
            &&& rest == line
            &&& q.current == container
            &&& text_grows(p, q, container, line_text(p.cursor, line))
            &&& !p.cursor.partially_consumed_tab ==> text_grows(
                p,
                q,
                container,
                line.skip(p.cursor.offset),
            )
        }),
{
    reveal(ParserView::text_taken);
    law_rest_of_line(p.cursor, line, 1);
}

/// `mark` stands somewhere in the line, from `i` on, in letters of either case.
pub open spec fn holds_mark(line: Seq<u8>, i: int, mark: Seq<u8>) -> bool {
    exists|k: int| i <= k && #[trigger] mark_at(line, k, mark)
}

pub open spec fn mark_at(line: Seq<u8>, k: int, mark: Seq<u8>) -> bool {
    &&& 0 <= k
    &&& k + mark.len() <= line.len()
    &&& forall|j: int|
        0 <= j < mark.len() ==> line[k + j] == #[trigger] mark[j] || (65 <= line[k + j] <= 90
            && line[k + j] + 32 == mark[j])
}

proof fn lemma_mark(line: Seq<u8>, i: int, mark: Seq<u8>)
    requires
        forall|j: int| 0 <= j < mark.len() ==> !(65 <= #[trigger] mark[j] <= 90),
    ensures
        text_from(line, i, mark) == holds_mark(line, i, mark),
{
    assert forall|k: int| #[trigger] text_at(line, k, mark) == mark_at(line, k, mark) by {
        if text_at(line, k, mark) {
            assert forall|j: int| 0 <= j < mark.len() implies line[k + j] == #[trigger] mark[j]
                || (65 <= line[k + j] <= 90 && line[k + j] + 32 == mark[j]) by {
                assert(lower(line[k + j]) == mark[j]);
            }
        }
        if mark_at(line, k, mark) {
            assert forall|j: int| 0 <= j < mark.len() implies lower(line[k + j])
                == #[trigger] mark[j] by {
            }
        }
    }
    if text_from(line, i, mark) {
        let k = choose|k: int| i <= k && #[trigger] text_at(line, k, mark);
        assert(mark_at(line, k, mark));
    }
    if holds_mark(line, i, mark) {
        let k = choose|k: int| i <= k && #[trigger] mark_at(line, k, mark);
        assert(text_at(line, k, mark));
    }
}

/// The line holds what ends raw HTML of this kind: a closing `script`, `pre` or `style` tag,
/// `-->`, `?>`, `>`, or `]]>`. The kinds 6 and 7 end with a blank line only.
pub open spec fn ends_html(line: Seq<u8>, i: int, kind: u8) -> bool {
    match kind {
        1 => holds_mark(line, i, seq![60u8, 47u8, 115u8, 99u8, 114u8, 105u8, 112u8, 116u8, 62u8])
            || holds_mark(line, i, seq![60u8, 47u8, 112u8, 114u8, 101u8, 62u8]) || holds_mark(
            line,
            i,
            seq![60u8, 47u8, 115u8, 116u8, 121u8, 108u8, 101u8, 62u8],
        ),
        2 => holds_mark(line, i, seq![45u8, 45u8, 62u8]),
        3 => holds_mark(line, i, seq![63u8, 62u8]),
        4 => holds_mark(line, i, seq![62u8]),
        5 => holds_mark(line, i, seq![93u8, 93u8, 62u8]),
        _ => false,
    }
}

proof fn lemma_ends_html(line: Seq<u8>, i: int, kind: u8)
    ensures
        html_end(line, i, kind) == ends_html(line, i, kind),
{
    lemma_literals();
    let a = seq![60u8, 47u8, 115u8, 99u8, 114u8, 105u8, 112u8, 116u8, 62u8];
    lemma_mark(line, i, a);
    lemma_mark(line, i, seq![60u8, 47u8, 112u8, 114u8, 101u8, 62u8]);
    lemma_mark(line, i, seq![60u8, 47u8, 115u8, 116u8, 121u8, 108u8, 101u8, 62u8]);
    lemma_mark(line, i, seq![45u8, 45u8, 62u8]);
    lemma_mark(line, i, seq![63u8, 62u8]);
    lemma_mark(line, i, seq![62u8]);
    lemma_mark(line, i, seq![93u8, 93u8, 62u8]);
}

/// Raw HTML takes the rest of the line as it is. The line closes the block if it holds what ends
/// it, which then is part of it; otherwise the block stays open.
pub proof fn law_html_takes_text(p: ParserView, container: usize, line: Seq<u8>)
    requires
        text_ready(p, line, container),
        p.cursor.on(line),
        p.value(container) is HtmlBlock,
        p.tree[container as int].ast.open,
        p.parent(container) is Some,
    ensures
        ({
            let (q, rest) = p.text_taken(container, line);
            let kind = p.value(container)->HtmlBlock_0.block_type;
            let content = p.tree[container as int].ast.content + line_text(p.cursor, line);
            &&& rest == line
            &&& q.tree[container as int].ast.open == !ends_html(
                line,
                p.cursor.first_nonspace,
                kind,
            )
            &&& q.tree[container as int].ast.open ==> q.current == container && text_grows(
                p,
                q,
                container,
                line_text(p.cursor, line),
            )
            &&& !q.tree[container as int].ast.open ==> q.current == p.parent(container)->0
                && q.value(container)->HtmlBlock_0.literal == content
        }),
{
    reveal(ParserView::text_taken);
    reveal(ParserView::html_taken);
    reveal(ParserView::finalized);
    lemma_ends_html(line, p.cursor.first_nonspace, p.value(container)->HtmlBlock_0.block_type);
    let h = p.line_added(container, line);
    lemma_with_ast_ok(p.tree, container, h.tree[container as int].ast);
    lemma_finalized(h, container);
}

/// A blank line changes no text, but in code and raw HTML.
pub proof fn law_blank_line_takes_nothing(p: ParserView, container: usize, line: Seq<u8>)
    requires
        text_ready(p, line, container),
        line_ok(line),
        p.cursor.on(line),
        p.cursor.measured(line),
        line[p.cursor.first_nonspace] == 10,
        !(p.value(container) is CodeBlock),
        !(p.value(container) is HtmlBlock),
    ensures
        ({
            let (q, rest) = p.text_taken(container, line);
            q.tree == p.tree && q.current == container && rest == line
        }),
{
    reveal(ParserView::text_taken);
    lemma_blank_line(p.cursor, line);
}

/// Text that no block takes makes a new paragraph.
pub proof fn law_text_makes_paragraph(p: ParserView, container: usize, line: Seq<u8>)
    requires
        text_ready(p, line, container),
        line_ok(line),
        p.cursor.on(line),
        p.cursor.measured(line),
        p.tree.len() < usize::MAX,
        line[p.cursor.first_nonspace] != 10,
        !(p.value(container) is CodeBlock),
        !(p.value(container) is HtmlBlock),
        !(p.value(container) is Paragraph),
        !(p.value(container) is Heading),
    ensures
        ({
            let (q, rest) = p.text_taken(container, line);
            let n = q.current;
            let ast = q.tree[n as int].ast;
            &&& rest == line
            &&& n == p.tree.len()
            &&& q.tree.len() == p.tree.len() + 1
            &&& ast.value is Paragraph && ast.open
            &&& ast.content == line.skip(p.cursor.first_nonspace)
            &&& ast.start_line == p.line_number
            &&& ast.start_column == (p.cursor.first_nonspace + 1) as usize
            &&& q.parent(n) is Some && q.tree[q.parent(n)->0 as int].children.last() == n
            &&& p.value(container) is Document || p.value(container) is BlockQuote || p.value(
                container,
            ) is Item ==> q.parent(n) == Some(container)
        }),
{
    reveal(ParserView::text_taken);
    let c = p.cursor;
    let i = c.first_nonspace;
    lemma_find_first_nonspace(c, line);
    lemma_blank_line(c, line);
    lemma_advance_to(c, line, i);
    lemma_advance_bytes(c, line, i - c.offset);
    let d = c.advance(line, i - c.offset, false);
    lemma_appears(p, container, ValueView::Paragraph, i + 1);
    let (a, n) = p.child_added(container, ValueView::Paragraph, i + 1);
    law_rest_of_line(d, line, 1);
    assert(Seq::<u8>::empty() + line.skip(i) =~= line.skip(i));
    let q = p.text_taken(container, line).0;
    assert(q.tree[n as int].ast.content == a.tree[n as int].ast.content + line_text(d, line));
}

/// The text of a line that has left the blocks of a paragraph behind, and opens nothing, still
/// goes to the paragraph: nothing is closed.
pub proof fn law_lazy_text(p: ParserView, container: usize, last_matched: usize, line: Seq<u8>)
    requires
        text_ready(p, line, container),
        line_ok(line),
        p.cursor.on(line),
        p.cursor.tab_ok(line),
        p.current != last_matched,
        container == last_matched,
        p.value(p.current) is Paragraph,
        exists|k: int| p.cursor.offset <= k < line.len() - 1 && !(#[trigger] line[k] == 32
            || line[k] == 9),
    ensures
        ({
            let (q, rest) = p.text_added(container, last_matched, line);
            &&& rest == line
            &&& q.current == p.current
            &&& q.tree.len() == p.tree.len()
            &&& q.tree[p.current as int].ast.content == p.tree[p.current as int].ast.content
                + line_text(p.cursor, line)
            &&& forall|m: int|
                #![trigger q.tree[m]]
                0 <= m < p.tree.len() ==> q.tree[m].ast.open == p.tree[m].ast.open
                    && q.tree[m].ast.value == p.tree[m].ast.value && (m != p.current
                    ==> q.tree[m].ast.content == p.tree[m].ast.content)
        }),
{
    reveal(ParserView::text_added);
    let m = p.at(p.cursor.find_first_nonspace(line));
    lemma_find_first_nonspace(p.cursor, line);
    lemma_blank_noted(m, container);
    lemma_blank_line(m.cursor, line);
    let k = choose|k: int| p.cursor.offset <= k < line.len() - 1 && !(#[trigger] line[k] == 32
        || line[k] == 9);
    assert(m.cursor.first_nonspace <= k) by {
        if m.cursor.first_nonspace > k {
            assert(space_or_tab(line[k]));
        }
    }
    let b = m.blank_noted(container);
    assert(b.tree[p.current as int].ast.value == p.tree[p.current as int].ast.value);
    assert(b.is_lazy(container, last_matched));
    assert(b.tree[p.current as int].ast.content == p.tree[p.current as int].ast.content);
    assert(line_text(m.cursor, line) == line_text(p.cursor, line));
    let q = b.line_added(b.current, line);
    assert forall|x: int| #![trigger q.tree[x]] 0 <= x < p.tree.len() implies q.tree[x].ast.open
        == p.tree[x].ast.open && q.tree[x].ast.value == p.tree[x].ast.value && (x != p.current
        ==> q.tree[x].ast.content == p.tree[x].ast.content) by {
        assert(b.tree[x].ast.value == p.tree[x].ast.value);
    }
}

/// In every other case what the line has left behind is closed first.
pub proof fn law_other_text(p: ParserView, container: usize, last_matched: usize, line: Seq<u8>)
    requires
        text_ready(p, line, container),
        p.current == last_matched || container != last_matched || !(p.value(
            p.current,
        ) is Paragraph),
    ensures
        ({
            let b = p.at(p.cursor.find_first_nonspace(line)).blank_noted(container);
            p.text_added(container, last_matched, line) == b.closed_up_to(
                last_matched,
            ).text_taken(container, line)
        }),
{
    reveal(ParserView::text_added);
    let m = p.at(p.cursor.find_first_nonspace(line));
    lemma_blank_noted(m, container);
    assert(m.blank_noted(container).tree[p.current as int].ast.value
        == p.tree[p.current as int].ast.value);
}

} // verus!
