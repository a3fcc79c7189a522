//! What becomes of a whole line.
use crate::continuing::{
    law_lazy_text, law_other_text, law_paragraph_takes_text, law_rest_of_line,
    law_text_makes_paragraph,
};
use crate::cursor::{law_indentation, lemma_find_first_nonspace, line_ok};
use crate::laws::law_left_behind_closed;
use crate::model::{chomped_len, one_line, ParserView, ROOT};
use crate::nodes::ValueView;
use crate::preserved::{lemma_blank_noted, lemma_closed_up_to, lemma_finalized};
use crate::spine::blocks_ok;
use crate::starting::{all_blank, lemma_nothing_marked, marks_nothing};
use crate::strings::line_end;
use crate::tree::{ancestor, last_child, lemma_ancestor_le, lemma_child_place, lemma_parent};
use vstd::prelude::*;

verus! {

/// A line is read from its first byte, at the first column. On the first line, a byte order mark is
/// passed over.
pub proof fn law_line_starts(p: ParserView, line: Seq<u8>)
    requires
        p.line_number < u32::MAX,
    ensures
        ({
            let q = p.line_started(line);
            let mark = line.len() >= 3 && line.take(3) == seq![0xefu8, 0xbbu8, 0xbfu8];
            &&& q.line_number == p.line_number + 1
            &&& q.tree == p.tree && q.current == p.current && q.refmap == p.refmap
            &&& q.cursor.offset == if p.line_number == 0 && mark {
                3int
            } else {
                0int
            }
            &&& q.cursor.column == 0
            &&& !q.cursor.partially_consumed_tab
        }),
{
    if line.len() >= 3 {
        let head = line.take(3);
        if line[0] == 0xef && line[1] == 0xbb && line[2] == 0xbf {
            assert(head =~= seq![0xefu8, 0xbbu8, 0xbfu8]);
        } else {
            assert(head[0] == line[0] && head[1] == line[1] && head[2] == line[2]);
        }
    }
}

/// A line whose first byte that is no space or tab stands at `j` and marks nothing. It is not the
/// first line of the input.
pub open spec fn plain_line(p: ParserView, line: Seq<u8>, j: int) -> bool {
    &&& p.ok()
    &&& 0 < p.line_number < u32::MAX
    &&& line_ok(line)
    &&& 0 <= j < line.len()
    &&& all_blank(line, 0, j)
    &&& line[j] != 32 && line[j] != 9
    &&& marks_nothing(line[j])
}

/// The cursor at the start of such a line, measured.
proof fn lemma_plain_line(p: ParserView, line: Seq<u8>, j: int)
    requires
        plain_line(p, line, j),
    ensures
        ({
            let s = p.line_started(line);
            let c = s.cursor.find_first_nonspace(line);
            &&& s.cursor.offset == 0 && s.cursor.column == 0 && !s.cursor.partially_consumed_tab
            &&& s.cursor.on(line) && s.cursor.tab_ok(line)
            &&& c.offset == 0 && c.column == 0 && !c.partially_consumed_tab
            &&& c.on(line) && c.tab_ok(line) && c.measured(line)
            &&& c.first_nonspace == j
            &&& c.blank == (line[j] == 10)
            &&& c.find_first_nonspace(line) == c
            &&& s.ok()
        }),
{
    let s = p.line_started(line);
    law_indentation(s.cursor, line, j);
    lemma_find_first_nonspace(s.cursor, line);
    if j < line.len() - 1 {
        assert(!line_end(line[j]));
    }
}

/// Where no block is open but the document, text starts a paragraph, if it is indented by less than
/// four spaces.
pub proof fn law_text_line_starts_paragraph(p: ParserView, line: Seq<u8>, j: int)
    requires
        plain_line(p, line, j),
        j < 4,
        forall|k: int| 0 <= k < j ==> #[trigger] line[k] == 32,
        line[j] != 10,
        p.tree.len() < usize::MAX,
        p.current == ROOT,
        last_child(p.tree, ROOT) matches Some(c) ==> !p.tree[c as int].ast.open,
    ensures
        ({
            let q = p.line_read(line);
            let n = q.current;
            let ast = q.tree[n as int].ast;
            &&& n == p.tree.len() && q.tree.len() == p.tree.len() + 1
            &&& ast.value is Paragraph && ast.open
            &&& ast.content == line.skip(j)
            &&& ast.start_line == p.line_number + 1 && ast.start_column == j + 1
            &&& q.parent(n) == Some(ROOT) && q.tree[ROOT as int].children.last() == n
            &&& q.last_line_length == line.len() - 1
        }),
{
    reveal(ParserView::line_read);
    lemma_plain_line(p, line, j);
    let s = p.line_started(line);
    let m = s.at(s.cursor.find_first_nonspace(line));
    law_indentation(s.cursor, line, j);
    lemma_parent(p.tree, ROOT);
    assert(s.open_blocks_checked(line, ROOT) == (s, ROOT, true, true));
    lemma_nothing_marked(m, line, ROOT, true, false);
    assert(m.opened(line, ROOT, true, false) is None) by {
        reveal(ParserView::table_opened);
    }
    assert(s.new_blocks_opened(line, ROOT, true, false) == (m, ROOT));
    law_other_text(m, ROOT, ROOT, line);
    assert(m.at(m.cursor.find_first_nonspace(line)) == m);
    let b = m.blank_noted(ROOT);
    lemma_blank_noted(m, ROOT);
    assert(b.value(ROOT) is Document);
    assert(b.closed_up_to(ROOT) == b);
    law_text_makes_paragraph(b, ROOT, line);
    lemma_whole_line(line);
}

/// A line's length does not count the line feed.
proof fn lemma_whole_line(line: Seq<u8>)
    requires
        line_ok(line),
    ensures
        chomped_len(line) == line.len() - 1,
{
    if line.len() > 1 {
        assert(!line_end(line[line.len() - 2]));
    }
}

/// `n` is a paragraph that is open, last in `above`, and the current block.
pub open spec fn paragraph_open(p: ParserView, above: usize, n: usize) -> bool {
    &&& above < p.tree.len() && n < p.tree.len()
    &&& p.value(n) is Paragraph
    &&& p.tree[n as int].ast.open
    &&& p.tree[n as int].children.len() == 0
    &&& p.current == n
    &&& p.parent(n) == Some(above)
    &&& last_child(p.tree, above) == Some(n)
}

/// A line of text goes on with the paragraph that is open, without its indentation, however far it
/// is indented.
pub proof fn law_text_line_continues_paragraph(p: ParserView, line: Seq<u8>, j: int, n: usize)
    requires
        plain_line(p, line, j),
        line[j] != 10,
        !p.options.ext_table,
        paragraph_open(p, ROOT, n),
    ensures
        ({
            let q = p.line_read(line);
            let ast = q.tree[n as int].ast;
            &&& q.current == n
            &&& q.tree.len() == p.tree.len()
            &&& ast.value is Paragraph && ast.open
            &&& ast.content == p.tree[n as int].ast.content + line.skip(j)
            &&& q.parent(n) == p.parent(n)
            &&& q.last_line_length == line.len() - 1
        }),
{
    reveal(ParserView::line_read);
    lemma_plain_line(p, line, j);
    lemma_child_place(p.tree, ROOT, p.tree[ROOT as int].children.len() - 1);
    let s = p.line_started(line);
    let m = s.at(s.cursor.find_first_nonspace(line));
    assert(m.at(m.cursor.find_first_nonspace(line)) == m);
    assert(m.continued(line, n) == (m, true, true));
    assert(m.open_blocks_checked(line, n) == (m, n, true, true));
    assert(s.open_blocks_checked(line, ROOT) == (m, n, true, true));
    lemma_nothing_marked(m, line, n, true, true);
    assert(m.new_blocks_opened(line, n, true, true) == (m, n));
    law_other_text(m, n, n, line);
    let b = m.blank_noted(n);
    lemma_blank_noted(m, n);
    assert(b.tree[n as int].ast.content == p.tree[n as int].ast.content);
    assert(b.closed_up_to(n) == b);
    law_paragraph_takes_text(b, n, line);
    lemma_whole_line(line);
}

/// A blank line closes the paragraph that is open, and nothing takes it.
pub proof fn law_blank_line_closes_paragraph(p: ParserView, line: Seq<u8>, n: usize)
    requires
        plain_line(p, line, line.len() - 1),
        paragraph_open(p, ROOT, n),
    ensures
        ({
            let q = p.line_read(line);
            &&& q.current == ROOT
            &&& q.tree.len() == p.tree.len()
            &&& !q.tree[n as int].ast.open
            &&& q.tree[ROOT as int].ast.content == p.tree[ROOT as int].ast.content
        }),
{
    reveal(ParserView::line_read);
    reveal(ParserView::text_added);
    reveal(ParserView::text_taken);
    let j = line.len() - 1;
    lemma_plain_line(p, line, j);
    lemma_child_place(p.tree, ROOT, p.tree[ROOT as int].children.len() - 1);
    let s = p.line_started(line);
    let m = s.at(s.cursor.find_first_nonspace(line));
    assert(m.at(m.cursor.find_first_nonspace(line)) == m);
    assert(m.continued(line, n) == (m, false, true));
    assert(s.open_blocks_checked(line, ROOT) == (m, ROOT, false, true));
    lemma_nothing_marked(m, line, ROOT, false, true);
    assert(m.opened(line, ROOT, false, true) is None) by {
        reveal(ParserView::table_opened);
    }
    assert(m.new_blocks_opened(line, ROOT, false, true) == (m, ROOT));
    let b = m.blank_noted(ROOT);
    lemma_blank_noted(m, ROOT);
    assert(b.tree[ROOT as int].ast.content == p.tree[ROOT as int].ast.content);
    assert(b.tree[n as int].ast.value == p.tree[n as int].ast.value);
    assert(b.parent(n) == Some(ROOT));
    lemma_finalized(b, n);
    let f = b.finalized(n);
    let d = ParserView { current: ROOT, ..f };
    assert(d.closed_up_to(ROOT) == d);
    assert(b.closed_up_to(ROOT) == d);
    assert(d.tree[ROOT as int].ast == b.tree[ROOT as int].ast);
}

/// A line of text without the mark of the quote that is open still goes on with the paragraph in
/// the quote, as it stands. Both stay open.
pub proof fn law_text_line_is_lazy(p: ParserView, line: Seq<u8>, j: int, quote: usize, n: usize)
    requires
        plain_line(p, line, j),
        line[j] != 10,
        quote < p.tree.len(),
        p.value(quote) is BlockQuote,
        p.tree[quote as int].ast.open,
        last_child(p.tree, ROOT) == Some(quote),
        paragraph_open(p, quote, n),
    ensures
        ({
            let q = p.line_read(line);
            &&& q.current == n
            &&& q.tree.len() == p.tree.len()
            &&& q.tree[n as int].ast.open && q.tree[quote as int].ast.open
            &&& q.tree[n as int].ast.content == p.tree[n as int].ast.content + line
        }),
{
    reveal(ParserView::line_read);
    lemma_plain_line(p, line, j);
    lemma_child_place(p.tree, ROOT, p.tree[ROOT as int].children.len() - 1);
    lemma_child_place(p.tree, quote, p.tree[quote as int].children.len() - 1);
    let s = p.line_started(line);
    let m = s.at(s.cursor.find_first_nonspace(line));
    assert(m.at(m.cursor.find_first_nonspace(line)) == m);
    assert(m.continued(line, quote) == (m, false, true));
    assert(s.open_blocks_checked(line, ROOT) == (m, ROOT, false, true));
    lemma_nothing_marked(m, line, ROOT, false, true);
    assert(m.opened(line, ROOT, false, true) is None) by {
        reveal(ParserView::table_opened);
    }
    assert(m.new_blocks_opened(line, ROOT, false, true) == (m, ROOT));
    if j == line.len() - 1 {
        assert(line.last() == 10);
    }
    assert(!(line[j] == 32 || line[j] == 9));
    law_lazy_text(m, ROOT, ROOT, line);
    assert(line.skip(0) =~= line);
    law_rest_of_line(m.cursor, line, 1);
}

/// Within code and raw HTML, nothing opens.
pub proof fn law_nothing_opens_in_code(
    p: ParserView,
    line: Seq<u8>,
    container: usize,
    all_matched: bool,
    maybe_lazy: bool,
)
    requires
        p.value(container) is CodeBlock || p.value(container) is HtmlBlock,
    ensures
        p.new_blocks_opened(line, container, all_matched, maybe_lazy) == (p, container),
{
}

/// Behind a block that opens, the line goes on opening blocks within it, unless the block takes
/// what is left of the line as text. What opens there does not go on with a paragraph.
pub proof fn law_blocks_open_in_turn(
    p: ParserView,
    line: Seq<u8>,
    container: usize,
    all_matched: bool,
    maybe_lazy: bool,
)
    requires
        !(p.value(container) is CodeBlock),
        !(p.value(container) is HtmlBlock),
    ensures
        ({
            let m = p.at(p.cursor.find_first_nonspace(line));
            let r = p.new_blocks_opened(line, container, all_matched, maybe_lazy);
            match m.opened(line, container, all_matched, maybe_lazy) {
                None => r == (m, container),
                Some((q, c)) => match q.value(c) {
                    ValueView::Paragraph
                    | ValueView::Heading(_)
                    | ValueView::CodeBlock(_)
                    | ValueView::HtmlBlock(_) => r == (q, c),
                    _ => p.cursor.offset < q.cursor.offset <= line.len() ==> r
                        == q.new_blocks_opened(line, c, all_matched, false),
                },
            }
        }),
{
}

/// A line that is complete is read with one line feed behind it, whatever ended it, and with all
/// that was known of it before. Nothing is known of the next line then.
pub proof fn law_line_completed(p: ParserView, text: Seq<u8>)
    requires
        one_line(p.linebuf),
        one_line(text),
    ensures
        p.line_completed(text) == (ParserView { linebuf: Seq::empty(), ..p }).line_read(
            p.linebuf + text + seq![10u8],
        ),
{
    let s = p.linebuf + text;
    if s.len() > 0 {
        if text.len() > 0 {
            assert(s.last() == text[text.len() - 1]);
        } else {
            assert(s.last() == p.linebuf[p.linebuf.len() - 1]);
        }
    }
    assert(s.push(10) =~= s + seq![10u8]);
}

/// At the end of the input, what is known of a last line is read as a line first.
pub proof fn law_last_line_is_read(p: ParserView)
    requires
        p.linebuf.len() > 0,
        p.line_completed(Seq::empty()).linebuf.len() == 0,
    ensures
        p.document_closed() == p.line_completed(Seq::empty()).document_closed(),
{
}

/// At the end of the input, every block from the current one up to the document is closed.
pub proof fn law_input_ends(p: ParserView)
    requires
        p.linebuf.len() == 0,
        p.ok(),
        blocks_ok(p.tree),
        ancestor(p.tree, ROOT, p.current),
    ensures
        p.document_closed().current == ROOT,
        !p.document_closed().tree[ROOT as int].ast.open,
        forall|a: usize| #[trigger]
            ancestor(p.tree, a, p.current) ==> !p.document_closed().tree[a as int].ast.open,
{
    law_left_behind_closed(p, ROOT);
    let d = p.closed_up_to(ROOT);
    lemma_closed_up_to(p, ROOT);
    lemma_finalized(d, ROOT);
    let q = p.document_closed();
    assert forall|a: usize| #[trigger] ancestor(p.tree, a, p.current) implies !q.tree[
        a as int
    ].ast.open by {
        lemma_ancestor_le(p.tree, a, p.current);
        if a > ROOT {
            assert(q.tree[a as int].ast == d.tree[a as int].ast);
        }
    }
}

} // verus!
