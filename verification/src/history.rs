//! What the parser carries along: its settings, the buffer, and every reference definition that
//! it has found.
use crate::inlines::SyntaxView;
use crate::model::{defined, references_taken, BlockStart, ParserView, ROOT};
use crate::nodes::{LinkView, NodeList, ValueView};
use crate::references::definition;
use crate::tree::last_child;
use vstd::prelude::*;

verus! {

/// The references of the first map are in the second one, in the same meaning.
pub open spec fn references_kept(
    m: Map<Seq<u8>, LinkView>,
    n: Map<Seq<u8>, LinkView>,
) -> bool {
    forall|label: Seq<u8>| #[trigger]
        m.contains_key(label) ==> n.contains_key(label) && n[label] == m[label]
}

/// The second state has the settings and the buffer of the first one, and all its references, in
/// the same meaning.
pub open spec fn carried(p: ParserView, q: ParserView) -> bool {
    &&& q.linebuf == p.linebuf
    &&& q.last_buffer_ended_with_cr == p.last_buffer_ended_with_cr
    &&& q.options == p.options
    &&& q.syntax == p.syntax
    &&& references_kept(p.refmap, q.refmap)
}

/// The first definition of a label counts: the definitions that a paragraph starts with leave
/// all references that are known before as they are.
pub proof fn lemma_references_taken(
    syntax: SyntaxView,
    s: Seq<u8>,
    refmap: Map<Seq<u8>, LinkView>,
)
    ensures
        references_kept(refmap, references_taken(syntax, s, refmap).1),
    decreases s.len(),
{
    if let Some(d) = definition(s) {
        if 0 < d.end <= s.len() {
            let next = defined(syntax, refmap, d);
            lemma_references_taken(syntax, s.skip(d.end), next);
            assert(references_kept(refmap, next));
            let last = references_taken(syntax, s, refmap).1;
            assert(last == references_taken(syntax, s.skip(d.end), next).1);
            assert forall|label: Seq<u8>| #[trigger] refmap.contains_key(label) implies
                last.contains_key(label) && last[label] == refmap[label] by {
                assert(next.contains_key(label));
            }
        }
    }
}

proof fn lemma_finalized_carried(p: ParserView, n: usize)
    ensures
        carried(p, p.finalized(n)),
{
    reveal(ParserView::finalized);
    let ast = p.closed(p.tree[n as int].ast);
    lemma_references_taken(p.syntax, ast.content, p.refmap);
}

proof fn lemma_climbed_carried(p: ParserView, parent: usize, value: ValueView)
    ensures
        carried(p, p.climbed(parent, value).0),
    decreases parent,
{
    if let Some(q) = p.parent(parent) {
        if q < parent && !p.value(parent).may_hold(value) {
            lemma_finalized_carried(p, parent);
            lemma_climbed_carried(p.finalized(parent), q, value);
        }
    }
}

proof fn lemma_item_carried(
    p: ParserView,
    line: Seq<u8>,
    container: usize,
    matched: int,
    nl: NodeList,
)
    ensures
        carried(p, p.item_opened(line, container, matched, nl).0),
{
    reveal(ParserView::item_opened);
    assert forall|q: ParserView, parent: usize, value: ValueView, column: int| carried(
        q,
        (#[trigger] q.child_added(parent, value, column)).0,
    ) by {
        lemma_climbed_carried(q, parent, value);
    }
}

proof fn lemma_opened_carried(
    p: ParserView,
    line: Seq<u8>,
    container: usize,
    all_matched: bool,
    maybe_lazy: bool,
)
    ensures
        p.opened(line, container, all_matched, maybe_lazy) matches Some((q, _)) ==> carried(p, q),
{
    assert forall|q: ParserView, parent: usize, value: ValueView, column: int| carried(
        q,
        (#[trigger] q.child_added(parent, value, column)).0,
    ) by {
        lemma_climbed_carried(q, parent, value);
    }
    match p.block_start(line, container, all_matched, maybe_lazy) {
        BlockStart::BlockQuote => {
            reveal(ParserView::quote_opened);
        },
        BlockStart::Heading(_) => {
            reveal(ParserView::heading_opened);
        },
        BlockStart::CodeFence(_) => {
            reveal(ParserView::fence_opened);
        },
        BlockStart::HtmlBlock(_) => {
            reveal(ParserView::html_opened);
        },
        BlockStart::Underline(_) => {
            reveal(ParserView::underlined);
        },
        BlockStart::ThematicBreak => {
            reveal(ParserView::break_opened);
        },
        BlockStart::ListItem(matched, nl) => {
            lemma_item_carried(p, line, container, matched, nl);
        },
        BlockStart::IndentedCode => {
            reveal(ParserView::code_opened);
        },
        BlockStart::Other => {
            reveal(ParserView::table_opened);
        },
    }
}

proof fn lemma_new_blocks_carried(
    p: ParserView,
    line: Seq<u8>,
    container: usize,
    all_matched: bool,
    maybe_lazy: bool,
)
    ensures
        carried(p, p.new_blocks_opened(line, container, all_matched, maybe_lazy).0),
    decreases line.len() - p.cursor.offset,
{
    if !(p.value(container) is CodeBlock || p.value(container) is HtmlBlock) {
        let m = p.at(p.cursor.find_first_nonspace(line));
        lemma_opened_carried(m, line, container, all_matched, maybe_lazy);
        if let Some((q, c)) = m.opened(line, container, all_matched, maybe_lazy) {
            if p.cursor.offset < q.cursor.offset <= line.len() {
                lemma_new_blocks_carried(q, line, c, all_matched, false);
            }
        }
    }
}

proof fn lemma_open_blocks_carried(p: ParserView, line: Seq<u8>, container: usize)
    ensures
        carried(p, p.open_blocks_checked(line, container).0),
    decreases p.tree.len() - container,
{
    if let Some(n) = last_child(p.tree, container) {
        if container < n < p.tree.len() && p.tree[n as int].ast.open {
            let m = p.at(p.cursor.find_first_nonspace(line));
            let (q, goes_on, left) = m.continued(line, n);
            assert(carried(m, q)) by {
                assert forall|x: ParserView| carried(x, #[trigger] x.finalized(n)) by {
                    lemma_finalized_carried(x, n);
                }
            }
            if goes_on && q.tree.len() == p.tree.len() {
                lemma_open_blocks_carried(q, line, n);
            }
        }
    }
}

proof fn lemma_closed_carried(p: ParserView, top: usize)
    ensures
        carried(p, p.closed_up_to(top)),
    decreases p.current,
{
    if p.current != top {
        if let Some(q) = p.parent(p.current) {
            if q < p.current {
                lemma_finalized_carried(p, p.current);
                lemma_closed_carried(
                    ParserView { current: q, ..p.finalized(p.current) },
                    top,
                );
            }
        }
    }
}

proof fn lemma_text_taken_carried(p: ParserView, container: usize, line: Seq<u8>)
    ensures
        carried(p, p.text_taken(container, line).0),
{
    reveal(ParserView::text_taken);
    reveal(ParserView::html_taken);
    lemma_climbed_carried(p, container, ValueView::Paragraph);
    lemma_finalized_carried(p.line_added(container, line), container);
}

/// A line changes neither the settings nor the buffer, and keeps every reference.
pub proof fn lemma_line_read_carried(p: ParserView, line: Seq<u8>)
    ensures
        carried(p, p.line_read(line)),
{
    reveal(ParserView::line_read);
    reveal(ParserView::text_added);
    reveal(ParserView::blank_noted);
    let s = p.line_started(line);
    lemma_open_blocks_carried(s, line, ROOT);
    let (a, last_matched, all_matched, left) = s.open_blocks_checked(line, ROOT);
    if left {
        let lazy = a.value(a.current) is Paragraph;
        lemma_new_blocks_carried(a, line, last_matched, all_matched, lazy);
        let (o, container) = a.new_blocks_opened(line, last_matched, all_matched, lazy);
        let b = o.at(o.cursor.find_first_nonspace(line)).blank_noted(container);
        lemma_closed_carried(b, last_matched);
        lemma_text_taken_carried(b.closed_up_to(last_matched), container, line);
    }
}

/// Neither does the end of the input.
pub proof fn lemma_document_closed_carried(p: ParserView)
    ensures
        p.document_closed().options == p.options,
        p.document_closed().syntax == p.syntax,
        references_kept(p.refmap, p.document_closed().refmap),
{
    let e = ParserView { linebuf: Seq::empty(), ..p };
    let s = p.linebuf + Seq::<u8>::empty();
    lemma_line_read_carried(e, s);
    lemma_line_read_carried(e, s.push(10));
    let q = if p.linebuf.len() > 0 {
        p.line_completed(Seq::empty())
    } else {
        p
    };
    lemma_closed_carried(q, ROOT);
    lemma_finalized_carried(q.closed_up_to(ROOT), ROOT);
}

/// Reading the texts changes only the tree.
pub proof fn lemma_inlines_processed_carried(p: ParserView, k: int, end: int)
    ensures
        p.inlines_processed(k, end).refmap == p.refmap,
    decreases end - k,
{
    if k < end {
        let q = if p.parent(k as usize) is Some && p.value(k as usize).inlines_held() {
            p.inlines_parsed(k as usize)
        } else {
            p
        };
        lemma_inlines_processed_carried(q, k + 1, end);
    }
}

} // verus!
