//! Whether the last piece of the input ended in a carriage return matters only to the start of
//! the next piece: no step in between looks at it.
use crate::cursor::CursorView;
use crate::model::{item_contents, BlockStart, ParserView, ROOT};
use crate::nodes::{HtmlBlockView, NodeList, ValueView};
use crate::scanners::fence_end;
use crate::tree::last_child;
use vstd::prelude::*;

verus! {

/// The state as it is when the last piece of the input ended in a carriage return, or did not.
pub open spec fn flagged(p: ParserView, cr: bool) -> ParserView {
    ParserView { last_buffer_ended_with_cr: cr, ..p }
}

proof fn lemma_finalized_flagged(p: ParserView, cr: bool, n: usize)
    ensures
        flagged(p, cr).finalized(n) == flagged(p.finalized(n), cr),
{
    reveal(ParserView::finalized);
}

proof fn lemma_climbed_flagged(p: ParserView, cr: bool, parent: usize, value: ValueView)
    ensures
        ({
            let (q, place) = p.climbed(parent, value);
            flagged(p, cr).climbed(parent, value) == (flagged(q, cr), place)
        }),
    decreases parent,
{
    if let Some(q) = p.parent(parent) {
        if q < parent && !p.value(parent).may_hold(value) {
            lemma_finalized_flagged(p, cr, parent);
            lemma_climbed_flagged(p.finalized(parent), cr, q, value);
        }
    }
}

proof fn lemma_child_added_flagged(
    p: ParserView,
    cr: bool,
    parent: usize,
    value: ValueView,
    column: int,
)
    ensures
        ({
            let (q, n) = p.child_added(parent, value, column);
            flagged(p, cr).child_added(parent, value, column) == (flagged(q, cr), n)
        }),
{
    lemma_climbed_flagged(p, cr, parent, value);
}

proof fn lemma_item_flagged(
    p: ParserView,
    cr: bool,
    line: Seq<u8>,
    container: usize,
    matched: int,
    nl: NodeList,
)
    ensures
        ({
            let (q, n) = p.item_opened(line, container, matched, nl);
            flagged(p, cr).item_opened(line, container, matched, nl) == (flagged(q, cr), n)
        }),
{
    reveal(ParserView::item_opened);
    let i = p.cursor.first_nonspace;
    let (c, padding) = item_contents(
        p.cursor.advance(line, i + matched - p.cursor.offset, false),
        line,
        matched,
    );
    let list = NodeList {
        padding: padding as usize,
        marker_offset: p.cursor.indent as usize,
        ..nl
    };
    let q = p.at(c);
    assert(flagged(p, cr).at(c) == flagged(q, cr));
    lemma_child_added_flagged(q, cr, container, ValueView::List(list), i + 1);
    lemma_child_added_flagged(q, cr, container, ValueView::Item(list), i + 1);
    let (r, parent) = q.child_added(container, ValueView::List(list), i + 1);
    lemma_child_added_flagged(r, cr, parent, ValueView::Item(list), i + 1);
}

proof fn lemma_opened_flagged(
    p: ParserView,
    cr: bool,
    line: Seq<u8>,
    container: usize,
    all_matched: bool,
    maybe_lazy: bool,
)
    ensures
        flagged(p, cr).opened(line, container, all_matched, maybe_lazy) == match p.opened(
            line,
            container,
            all_matched,
            maybe_lazy,
        ) {
            Some((q, n)) => Some((flagged(q, cr), n)),
            None => None,
        },
{
    assert forall|c: CursorView, value: ValueView, column: int| flagged(p, cr).at(c).child_added(
        container,
        value,
        column,
    ) == (
        flagged((#[trigger] p.at(c).child_added(container, value, column)).0, cr),
        p.at(c).child_added(container, value, column).1,
    ) by {
        assert(flagged(p, cr).at(c) == flagged(p.at(c), cr));
        lemma_child_added_flagged(p.at(c), cr, container, value, column);
    }
    match p.block_start(line, container, all_matched, maybe_lazy) {
        BlockStart::BlockQuote => {
            reveal(ParserView::quote_opened);
        },
        BlockStart::Heading(_) => {
            reveal(ParserView::heading_opened);
        },
        BlockStart::CodeFence(_) => {
            reveal(ParserView::fence_opened);
        },
        BlockStart::HtmlBlock(block_type) => {
            reveal(ParserView::html_opened);
            lemma_child_added_flagged(
                p,
                cr,
                container,
                ValueView::HtmlBlock(HtmlBlockView { block_type, literal: Seq::empty() }),
                p.cursor.first_nonspace + 1,
            );
        },
        BlockStart::Underline(_) => {
            reveal(ParserView::underlined);
        },
        BlockStart::ThematicBreak => {
            reveal(ParserView::break_opened);
        },
        BlockStart::ListItem(matched, nl) => {
            lemma_item_flagged(p, cr, line, container, matched, nl);
        },
        BlockStart::IndentedCode => {
            reveal(ParserView::code_opened);
        },
        BlockStart::Other => {
            reveal(ParserView::table_opened);
        },
    }
}

proof fn lemma_new_blocks_flagged(
    p: ParserView,
    cr: bool,
    line: Seq<u8>,
    container: usize,
    all_matched: bool,
    maybe_lazy: bool,
)
    ensures
        ({
            let (q, n) = p.new_blocks_opened(line, container, all_matched, maybe_lazy);
            flagged(p, cr).new_blocks_opened(line, container, all_matched, maybe_lazy) == (
                flagged(q, cr),
                n,
            )
        }),
    decreases line.len() - p.cursor.offset,
{
    if !(p.value(container) is CodeBlock || p.value(container) is HtmlBlock) {
        let m = p.at(p.cursor.find_first_nonspace(line));
        lemma_opened_flagged(m, cr, line, container, all_matched, maybe_lazy);
        if let Some((q, c)) = m.opened(line, container, all_matched, maybe_lazy) {
            if p.cursor.offset < q.cursor.offset <= line.len() {
                lemma_new_blocks_flagged(q, cr, line, c, all_matched, false);
            }
        }
    }
}

proof fn lemma_continued_flagged(p: ParserView, cr: bool, line: Seq<u8>, n: usize)
    ensures
        ({
            let (q, goes_on, left) = p.continued(line, n);
            flagged(p, cr).continued(line, n) == (flagged(q, cr), goes_on, left)
        }),
{
    if let ValueView::CodeBlock(_) = p.value(n) {
        let c = p.cursor;
        if let Some(matched) = fence_end(line, c.first_nonspace) {
            let q = p.at(c.advance(line, matched, false));
            assert(flagged(p, cr).at(c.advance(line, matched, false)) == flagged(q, cr));
            lemma_finalized_flagged(q, cr, n);
        }
        let q = p.at(c.advance(line, 0, false));
        assert(flagged(p, cr).at(c.advance(line, 0, false)) == flagged(q, cr));
        lemma_finalized_flagged(q, cr, n);
    }
}

proof fn lemma_open_blocks_flagged(p: ParserView, cr: bool, line: Seq<u8>, container: usize)
    ensures
        ({
            let (q, n, all_matched, left) = p.open_blocks_checked(line, container);
            flagged(p, cr).open_blocks_checked(line, container) == (
                flagged(q, cr),
                n,
                all_matched,
                left,
            )
        }),
    decreases p.tree.len() - container,
{
    if let Some(n) = last_child(p.tree, container) {
        if container < n < p.tree.len() && p.tree[n as int].ast.open {
            let m = p.at(p.cursor.find_first_nonspace(line));
            let (q, goes_on, left) = m.continued(line, n);
            lemma_continued_flagged(m, cr, line, n);
            if goes_on && q.tree.len() == p.tree.len() {
                lemma_open_blocks_flagged(q, cr, line, n);
            }
        }
    }
}

proof fn lemma_closed_flagged(p: ParserView, cr: bool, top: usize)
    ensures
        flagged(p, cr).closed_up_to(top) == flagged(p.closed_up_to(top), cr),
    decreases p.current,
{
    if p.current != top {
        if let Some(q) = p.parent(p.current) {
            if q < p.current {
                lemma_finalized_flagged(p, cr, p.current);
                lemma_closed_flagged(
                    ParserView { current: q, ..p.finalized(p.current) },
                    cr,
                    top,
                );
            }
        }
    }
}

proof fn lemma_text_taken_flagged(p: ParserView, cr: bool, container: usize, line: Seq<u8>)
    ensures
        ({
            let (q, rest) = p.text_taken(container, line);
            flagged(p, cr).text_taken(container, line) == (flagged(q, cr), rest)
        }),
{
    reveal(ParserView::text_taken);
    reveal(ParserView::html_taken);
    lemma_child_added_flagged(
        p,
        cr,
        container,
        ValueView::Paragraph,
        p.cursor.first_nonspace + 1,
    );
    lemma_finalized_flagged(p.line_added(container, line), cr, container);
}

proof fn lemma_text_added_flagged(
    p: ParserView,
    cr: bool,
    container: usize,
    last_matched: usize,
    line: Seq<u8>,
)
    ensures
        ({
            let (q, rest) = p.text_added(container, last_matched, line);
            flagged(p, cr).text_added(container, last_matched, line) == (flagged(q, cr), rest)
        }),
{
    reveal(ParserView::text_added);
    reveal(ParserView::blank_noted);
    let b = p.at(p.cursor.find_first_nonspace(line)).blank_noted(container);
    lemma_closed_flagged(b, cr, last_matched);
    lemma_text_taken_flagged(b.closed_up_to(last_matched), cr, container, line);
}

proof fn lemma_line_read_flagged(p: ParserView, cr: bool, line: Seq<u8>)
    ensures
        flagged(p, cr).line_read(line) == flagged(p.line_read(line), cr),
{
    reveal(ParserView::line_read);
    let s = p.line_started(line);
    lemma_open_blocks_flagged(s, cr, line, ROOT);
    let (a, last_matched, all_matched, left) = s.open_blocks_checked(line, ROOT);
    if left {
        let lazy = a.value(a.current) is Paragraph;
        lemma_new_blocks_flagged(a, cr, line, last_matched, all_matched, lazy);
        let (o, container) = a.new_blocks_opened(line, last_matched, all_matched, lazy);
        lemma_text_added_flagged(o, cr, container, last_matched, line);
    }
}

proof fn lemma_inlines_flagged(p: ParserView, cr: bool, k: int, end: int)
    ensures
        flagged(p, cr).inlines_processed(k, end) == flagged(p.inlines_processed(k, end), cr),
    decreases end - k,
{
    if k < end {
        let q = if p.parent(k as usize) is Some && p.value(k as usize).inlines_held() {
            p.inlines_parsed(k as usize)
        } else {
            p
        };
        lemma_inlines_flagged(q, cr, k + 1, end);
    }
}

/// A carriage return at the very end of the input does not show in the document.
pub proof fn lemma_finished_flagged(p: ParserView, cr: bool)
    ensures
        flagged(p, cr).finished() == flagged(p.finished(), cr),
{
    let e = ParserView { linebuf: Seq::empty(), ..p };
    let s = p.linebuf + Seq::<u8>::empty();
    lemma_line_read_flagged(e, cr, s);
    lemma_line_read_flagged(e, cr, s.push(10));
    let q = if p.linebuf.len() > 0 {
        p.line_completed(Seq::empty())
    } else {
        p
    };
    lemma_closed_flagged(q, cr, ROOT);
    lemma_finalized_flagged(q.closed_up_to(ROOT), cr, ROOT);
    let d = p.document_closed();
    lemma_inlines_flagged(d, cr, 0, d.tree.len() as int);
}

} // verus!
