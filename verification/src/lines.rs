//! Every line leaves the open blocks in order.
use crate::consolidate::consolidated;
use crate::cursor::{lemma_advance_to, lemma_find_first_nonspace, line_ok, CODE_INDENT};
use crate::list_marker::same_kind;
use crate::model::{
    cells_appended, cells_fitted, fenced_code, indented_code, item_contents, line_text, BlockStart,
    ParserView, ROOT,
};
use crate::nodes::{new_block, AstView, HtmlBlockView, NodeHeading, NodeList, ValueView};
use crate::preserved::{
    lemma_blank_noted, lemma_block_start, lemma_child_added, lemma_climbed, lemma_finalized,
    lemma_inlines_parsed, lemma_item_contents, opening,
};
use crate::scanners::{lemma_atx_start, lemma_fence_start, SetextChar};
use crate::spine::{
    all_closed, attached, blocks_ok, fork_kept, forked, holds, info_read, lemma_above,
    lemma_ancestor_all, lemma_forked_appended, lemma_forked_closed, lemma_forked_detached,
    lemma_forked_end, lemma_forked_part, lemma_forked_same, lemma_forked_start, open_block,
    same_blocks, spine, table_part, value_ok,
};
use crate::strings::{
    find_line_end, lemma_find_line_end, line_end, rtrimmed, skip_run, space_or_tab,
};
use crate::table::{row_cells, table_opened};
use crate::tree::{
    ancestor, appended, detached, lemma_ancestor_chain, lemma_ancestor_le, lemma_detached_ok,
    lemma_forest_closed, lemma_parent, lemma_replaced_ok, lemma_with_ast_ok, replaced, tree_ok,
    NodeView,
};
use vstd::prelude::*;

verus! {

/// The document may hold a block of this value, and so may quotes and list items.
pub open spec fn goes_anywhere(v: ValueView) -> bool {
    v.is_block() && !(v is Document) && !(v is Item) && !table_part(v)
}

/// The blocks that are closed to make place for a new one are those that it cannot go into, and
/// a place is always found.
pub proof fn lemma_climbed_forked(
    p: ParserView,
    container: usize,
    value: ValueView,
    matched: usize,
    first_new: nat,
)
    requires
        p.ok(),
        forked(p.tree, p.current, matched, container, first_new),
        goes_anywhere(value) || holds(p.value(container), value),
    ensures
        ({
            let (q, c) = p.climbed(container, value);
            &&& forked(q.tree, p.current, matched, c, first_new)
            &&& holds(q.value(c), value)
        }),
    decreases container,
{
    reveal(forked);
    if !p.value(container).may_hold(value) {
        assert(container != ROOT) by {
            reveal(blocks_ok);
        }
        lemma_forked_closed(p, matched, container, first_new);
        lemma_finalized(p, container);
        lemma_parent(p.tree, container);
        lemma_climbed_forked(
            p.finalized(container),
            p.parent(container)->0,
            value,
            matched,
            first_new,
        );
    }
}

/// A new block becomes the container.
pub proof fn lemma_child_added_forked(
    p: ParserView,
    container: usize,
    value: ValueView,
    column: int,
    matched: usize,
    first_new: nat,
)
    requires
        p.ok(),
        forked(p.tree, p.current, matched, container, first_new),
        goes_anywhere(value) || holds(p.value(container), value),
        value_ok(value),
        p.child_added(container, value, column).0.tree.len() <= usize::MAX,
    ensures
        ({
            let (q, c) = p.child_added(container, value, column);
            forked(q.tree, p.current, matched, c, first_new)
        }),
{
    assert(container < p.tree.len()) by {
        reveal(forked);
    }
    lemma_climbed(p, container, value);
    lemma_climbed_forked(p, container, value, matched, first_new);
    let (q, c) = p.climbed(container, value);
    lemma_forked_appended(
        q.tree,
        p.current,
        matched,
        c,
        first_new,
        new_block(value, q.line_number, column as usize),
    );
}

/// Cells in a row of a table change nothing about the open blocks.
proof fn lemma_cells_forked(
    t: Seq<NodeView>,
    current: usize,
    matched: usize,
    container: usize,
    first_new: nat,
    row: usize,
    line_number: u32,
    column: usize,
    cells: Seq<Seq<u8>>,
)
    requires
        forked(t, current, matched, container, first_new),
        t.len() + cells.len() <= usize::MAX,
        row < t.len(),
        t[row as int].ast.value is TableRow,
    ensures
        forked(
            cells_appended(t, row, line_number, column, cells),
            current,
            matched,
            container,
            first_new,
        ),
        cells_appended(t, row, line_number, column, cells).len() == t.len() + cells.len(),
        cells_appended(t, row, line_number, column, cells)[row as int].ast == t[row as int].ast,
    decreases cells.len(),
{
    if cells.len() > 0 {
        lemma_cells_forked(
            t,
            current,
            matched,
            container,
            first_new,
            row,
            line_number,
            column,
            cells.drop_last(),
        );
        lemma_forked_part(
            cells_appended(t, row, line_number, column, cells.drop_last()),
            current,
            matched,
            container,
            first_new,
            row,
            AstView {
                content: cells.last(),
                ..new_block(ValueView::TableCell, line_number, column)
            },
        );
    }
}

/// A table, or a row of one, becomes the container.
pub proof fn lemma_table_forked(
    p: ParserView,
    line: Seq<u8>,
    container: usize,
    matched: usize,
    first_new: nat,
)
    requires
        p.ok(),
        forked(p.tree, p.current, matched, container, first_new),
        p.table_opened(line, container) matches Some((q, _)) ==> q.tree.len() <= usize::MAX,
    ensures
        p.table_opened(line, container) matches Some((q, c)) ==> forked(
            q.tree,
            p.current,
            matched,
            c,
            first_new,
        ),
{
    reveal(ParserView::table_opened);
    let i = p.cursor.first_nonspace;
    let column = (i + 1) as usize;
    assert(container < p.tree.len()) by {
        reveal(forked);
    }
    lemma_parent(p.tree, container);
    match p.table_opened(line, container) {
        Some((q, c)) => match p.value(container) {
            ValueView::Paragraph => {
                let header = p.tree[container as int].ast.content;
                let (aligns, cells) = table_opened(header, line.skip(i))->0;
                let parent = p.parent(container)->0;
                let table = new_block(ValueView::Table(aligns), p.line_number, column);
                let row = new_block(ValueView::TableRow(true), p.line_number, column);
                let d = detached(p.tree, container);
                let v = appended(d, parent, table);
                let t = replaced(p.tree, container, table);
                let u = appended(t, p.tree.len() as usize, row);
                lemma_detached_ok(p.tree, container);
                lemma_forked_detached(p.tree, p.current, matched, container, first_new);
                assert(holds(d[parent as int].ast.value, table.value)) by {
                    reveal(forked);
                    reveal(blocks_ok);
                    assert(d[parent as int].ast == p.tree[parent as int].ast);
                    assert(p.tree[container as int].parent == Some(parent));
                }
                crate::preserved::lemma_cells_len(
                    u,
                    (p.tree.len() + 1) as usize,
                    p.line_number,
                    column,
                    cells,
                );
                lemma_forked_appended(d, p.current, matched, parent, first_new, table);
                lemma_replaced_ok(p.tree, container, table);
                assert(same_blocks(v, t)) by {
                    assert forall|n: int| #![trigger t[n]] 0 <= n < t.len() implies t[n].ast
                        == v[n].ast && t[n].parent == v[n].parent by {
                        if n < p.tree.len() {
                            assert(d[n].ast == p.tree[n].ast);
                        }
                    }
                }
                lemma_forked_same(
                    v,
                    t,
                    p.current,
                    matched,
                    p.tree.len() as usize,
                    first_new,
                );
                lemma_forked_part(
                    t,
                    p.current,
                    matched,
                    p.tree.len() as usize,
                    first_new,
                    p.tree.len() as usize,
                    row,
                );
                lemma_cells_forked(
                    u,
                    p.current,
                    matched,
                    p.tree.len() as usize,
                    first_new,
                    (p.tree.len() + 1) as usize,
                    p.line_number,
                    column,
                    cells,
                );
            },
            ValueView::Table(aligns) => {
                let cells = cells_fitted(row_cells(line.skip(i))->0, aligns.len());
                let row = new_block(ValueView::TableRow(false), p.line_number, column);
                let t = appended(p.tree, container, row);
                crate::preserved::lemma_cells_len(
                    t,
                    p.tree.len() as usize,
                    p.line_number,
                    column,
                    cells,
                );
                lemma_forked_appended(p.tree, p.current, matched, container, first_new, row);
                lemma_cells_forked(
                    t,
                    p.current,
                    matched,
                    p.tree.len() as usize,
                    first_new,
                    p.tree.len() as usize,
                    p.line_number,
                    column,
                    cells,
                );
            },
            _ => {},
        },
        None => {},
    }
}

/// A heading that was a paragraph stays the container.
pub proof fn lemma_underlined_forked(
    p: ParserView,
    line: Seq<u8>,
    container: usize,
    sc: SetextChar,
    matched: usize,
    first_new: nat,
)
    requires
        p.ok(),
        forked(p.tree, p.current, matched, container, first_new),
        p.value(container) is Paragraph,
    ensures
        forked(
            p.underlined(line, container, sc).0.tree,
            p.current,
            matched,
            container,
            first_new,
        ),
{
    reveal(ParserView::underlined);
    assert(container < p.tree.len()) by {
        reveal(forked);
    }
    let u = p.underlined(line, container, sc).0.tree;
    lemma_with_ast_ok(p.tree, container, u[container as int].ast);
    lemma_forked_same(p.tree, u, p.current, matched, container, first_new);
}

/// A list item becomes the container, in a list that is there or in a new one.
pub proof fn lemma_item_forked(
    p: ParserView,
    line: Seq<u8>,
    container: usize,
    length: int,
    nl: NodeList,
    matched: usize,
    first_new: nat,
)
    requires
        opening(p, line, container),
        forked(p.tree, p.current, matched, container, first_new),
        1 <= length <= 10,
        p.cursor.first_nonspace + length < line.len(),
        nl.start < 1000000000,
        p.item_opened(line, container, length, nl).0.tree.len() <= usize::MAX,
    ensures
        forked(
            p.item_opened(line, container, length, nl).0.tree,
            p.current,
            matched,
            p.item_opened(line, container, length, nl).1,
            first_new,
        ),
{
    reveal(ParserView::item_opened);
    assert(container < p.tree.len()) by {
        reveal(forked);
    }
    let i = p.cursor.first_nonspace;
    let c = p.cursor.advance(line, i + length - p.cursor.offset, false);
    lemma_find_first_nonspace(p.cursor, line);
    lemma_advance_to(p.cursor, line, i + length);
    lemma_item_contents(c, line, length);
    let (d, padding) = item_contents(c, line, length);
    let list = NodeList {
        padding: padding as usize,
        marker_offset: p.cursor.indent as usize,
        ..nl
    };
    let a = p.at(d);
    let continues = match p.value(container) {
        ValueView::List(mnl) => same_kind(list, mnl),
        _ => false,
    };
    if continues {
        lemma_child_added_forked(
            a,
            container,
            ValueView::Item(list),
            i + 1,
            matched,
            first_new,
        );
    } else {
        let (q, parent) = a.child_added(container, ValueView::List(list), i + 1);
        lemma_climbed(a, container, ValueView::List(list));
        lemma_parent(p.tree, container);
        if q.tree.len() > usize::MAX {
            assert(q.value(parent) == ValueView::List(list));
            assert(q.climbed(parent, ValueView::Item(list)) == (q, parent));
        }
        lemma_child_added(a, container, ValueView::List(list), i + 1);
        lemma_child_added_forked(
            a,
            container,
            ValueView::List(list),
            i + 1,
            matched,
            first_new,
        );
        lemma_child_added_forked(q, parent, ValueView::Item(list), i + 1, matched, first_new);
    }
}

/// Whatever block the line opens next becomes the container.
pub proof fn lemma_opened_forked(
    p: ParserView,
    line: Seq<u8>,
    container: usize,
    all_matched: bool,
    maybe_lazy: bool,
    matched: usize,
    first_new: nat,
)
    requires
        opening(p, line, container),
        forked(p.tree, p.current, matched, container, first_new),
        p.opened(line, container, all_matched, maybe_lazy) matches Some((q, _)) ==> q.tree.len()
            <= usize::MAX,
    ensures
        p.opened(line, container, all_matched, maybe_lazy) matches Some((q, c)) ==> forked(
            q.tree,
            p.current,
            matched,
            c,
            first_new,
        ),
{
    let i = p.cursor.first_nonspace;
    lemma_find_first_nonspace(p.cursor, line);
    lemma_block_start(p, line, container, all_matched, maybe_lazy);
    match p.block_start(line, container, all_matched, maybe_lazy) {
        BlockStart::BlockQuote => {
            reveal(ParserView::quote_opened);
            let d = p.cursor.advance(line, i + 1 - p.cursor.offset, false);
            let c = if space_or_tab(line[d.offset]) {
                d.advance(line, 1, true)
            } else {
                d
            };
            lemma_child_added_forked(
                p.at(c),
                container,
                ValueView::BlockQuote,
                i + 1,
                matched,
                first_new,
            );
        },
        BlockStart::Heading(length) => {
            reveal(ParserView::heading_opened);
            lemma_atx_start(line, i);
            lemma_child_added_forked(
                p.at(p.cursor.advance(line, i + length - p.cursor.offset, false)),
                container,
                ValueView::Heading(
                    NodeHeading { level: (skip_run(line, i, 35) - i) as u32, setext: false },
                ),
                i + 1,
                matched,
                first_new,
            );
        },
        BlockStart::CodeFence(length) => {
            reveal(ParserView::fence_opened);
            lemma_fence_start(line, i);
            lemma_child_added_forked(
                p.at(p.cursor.advance(line, i + length - p.cursor.offset, false)),
                container,
                ValueView::CodeBlock(fenced_code(line[i], length, i - p.cursor.offset)),
                i + 1,
                matched,
                first_new,
            );
        },
        BlockStart::HtmlBlock(t) => {
            reveal(ParserView::html_opened);
            lemma_child_added_forked(
                p,
                container,
                ValueView::HtmlBlock(HtmlBlockView { block_type: t, literal: Seq::empty() }),
                i + 1,
                matched,
                first_new,
            );
        },
        BlockStart::Underline(sc) => {
            lemma_underlined_forked(p, line, container, sc, matched, first_new);
            reveal(ParserView::underlined);
        },
        BlockStart::ThematicBreak => {
            reveal(ParserView::break_opened);
            lemma_child_added_forked(
                p.at(p.cursor.advance(line, line.len() - 1 - p.cursor.offset, false)),
                container,
                ValueView::ThematicBreak,
                i + 1,
                matched,
                first_new,
            );
        },
        BlockStart::ListItem(length, nl) => {
            lemma_item_forked(p, line, container, length, nl, matched, first_new);
        },
        BlockStart::IndentedCode => {
            reveal(ParserView::code_opened);
            let c = p.cursor.advance(line, CODE_INDENT as int, true);
            lemma_child_added_forked(
                p.at(c),
                container,
                ValueView::CodeBlock(indented_code()),
                c.offset + 1,
                matched,
                first_new,
            );
        },
        BlockStart::Other => {
            if p.options.ext_table && p.cursor.indent < CODE_INDENT {
                lemma_table_forked(p, line, container, matched, first_new);
            }
        },
    }
}

/// A line end in a text is found, whatever follows.
pub proof fn lemma_line_end_found(s: Seq<u8>, k: int, i: int)
    requires
        0 <= i <= k < s.len(),
        line_end(s[k]),
    ensures
        find_line_end(s, i) <= k,
    decreases k - i,
{
    if i < k && !line_end(s[i]) {
        lemma_line_end_found(s, k, i + 1);
    }
}

/// More text leaves what is known of the info string as it is, and the rest of a line, which
/// ends in a line feed, completes it.
pub proof fn lemma_line_added_info(p: ParserView, n: usize, line: Seq<u8>)
    requires
        p.ok(),
        n < p.tree.len(),
        p.tree[n as int].ast.open,
    ensures
        same_blocks(p.tree, p.line_added(n, line).tree),
        tree_ok(p.line_added(n, line).tree),
        line_ok(line) && p.cursor.on(line) && p.cursor.tab_ok(line) ==> info_read(
            p.line_added(n, line).tree[n as int].ast,
        ),
{
    let q = p.line_added(n, line);
    let old_content = p.tree[n as int].ast.content;
    let text = line_text(p.cursor, line);
    let content = old_content + text;
    lemma_with_ast_ok(p.tree, n, q.tree[n as int].ast);
    lemma_find_line_end(old_content, 0);
    let e = find_line_end(old_content, 0);
    if e < old_content.len() {
        assert(content[e] == old_content[e]);
        lemma_line_end_found(content, e, 0);
    }
    if line_ok(line) && p.cursor.on(line) && p.cursor.tab_ok(line) {
        assert(text.last() == 10);
        assert(content[content.len() - 1] == 10);
        lemma_line_end_found(content, content.len() - 1, 0);
    }
}

/// The container is an open block in the tree.
pub proof fn lemma_forked_facts(p: ParserView, matched: usize, container: usize, first_new: nat)
    requires
        forked(p.tree, p.current, matched, container, first_new),
    ensures
        tree_ok(p.tree),
        blocks_ok(p.tree),
        container < p.tree.len(),
        matched <= p.current < p.tree.len(),
        attached(p.tree, container),
        ancestor(p.tree, matched, p.current),
        p.tree[container as int].ast.open,
        !(p.value(container) is CodeBlock) ==> info_read(p.tree[container as int].ast),
        p.current != matched ==> p.tree[p.current as int].ast.open,
        p.current != matched ==> p.current != container,
        p.current != matched ==> info_read(p.tree[p.current as int].ast),
{
    reveal(forked);
    assert(ancestor(p.tree, container, container));
    assert(ancestor(p.tree, p.current, p.current));
}

/// Everything above the current block is open, and in the tree.
pub proof fn lemma_spine_facts(p: ParserView, n: usize)
    requires
        spine(p.tree, p.current),
        n == ROOT || ancestor(p.tree, n, p.current),
    ensures
        ancestor(p.tree, n, p.current),
        n < p.tree.len(),
        p.tree[n as int].ast.open,
        info_read(p.tree[n as int].ast),
{
    reveal(spine);
    assert(ancestor(p.tree, n, p.current));
    lemma_ancestor_le(p.tree, n, p.current);
}

/// An open last child of an open block is part of a table, or one of the open blocks itself.
pub proof fn lemma_spine_child(p: ParserView, container: usize, n: usize)
    requires
        spine(p.tree, p.current),
        ancestor(p.tree, container, p.current),
        n < p.tree.len(),
        p.parent(n) == Some(container),
        p.tree[n as int].ast.open,
    ensures
        table_part(p.value(n)) || ancestor(p.tree, n, p.current),
        info_read(p.tree[n as int].ast),
        value_ok(p.value(n)),
{
    reveal(spine);
    let t = p.tree;
    lemma_parent(t, n);
    assert(ancestor(t, ROOT, container)) by {
        lemma_ancestor_le(t, container, p.current);
        lemma_ancestor_chain(t, ROOT, container, p.current);
    }
    assert(attached(t, n));
    assert(value_ok(t[n as int].ast.value)) by {
        reveal(blocks_ok);
    }
}

/// A code block that is closed by its fence was the current block, and the one above it is the
/// current block then.
pub proof fn lemma_spine_closed(p: ParserView, n: usize)
    requires
        p.ok(),
        spine(p.tree, p.current),
        ancestor(p.tree, n, p.current),
        p.value(n) is CodeBlock,
    ensures
        p.parent(n) is Some,
        spine(p.finalized(n).tree, p.parent(n)->0),
{
    reveal(spine);
    if n != p.current {
        lemma_above(p.tree, n, p.current);
    }
    lemma_forked_start(p.tree, n, n);
    lemma_forked_closed(p, n, n, p.tree.len());
    let u = p.finalized(n).tree;
    let q = p.parent(n)->0;
    lemma_finalized(p, n);
    lemma_parent(p.tree, n);
    assert(ancestor(p.tree, q, q));
    assert(ancestor(p.tree, q, n));
    lemma_above(p.tree, q, n);
    assert(u[q as int].ast == p.tree[q as int].ast);
    lemma_forked_end(u, n, q, p.tree.len());
}

/// Noting blank lines changes no block.
pub proof fn lemma_blank_noted_same(p: ParserView, container: usize)
    requires
        p.ok(),
        container < p.tree.len(),
    ensures
        same_blocks(p.tree, p.blank_noted(container).tree),
{
    lemma_blank_noted(p, container);
    let t = p.tree;
    let u = p.blank_noted(container).tree;
    assert forall|n: int| #![trigger u[n]] 0 <= n < t.len() implies {
        &&& u[n].parent == t[n].parent
        &&& u[n].children == t[n].children
        &&& u[n].ast.open == t[n].ast.open
        &&& u[n].ast.value == t[n].ast.value
        &&& info_read(t[n].ast) ==> info_read(u[n].ast)
        &&& u[n].ast.content == t[n].ast.content
    } by {}
}

/// What the line has left behind is closed, and `container` takes the rest of it.
pub open spec fn is_taking(p: ParserView, container: usize) -> bool {
    exists|first_new: nat| #[trigger]
        forked(p.tree, p.current, p.current, container, first_new)
}

/// The open blocks stay in order from one block that the line opens to the next.
pub proof fn lemma_fork_kept(
    start: ParserView,
    first: usize,
    p: ParserView,
    c: usize,
    q: ParserView,
    d: usize,
    line: Seq<u8>,
    all_matched: bool,
    maybe_lazy: bool,
)
    requires
        fork_kept(start, first, p, c),
        opening(p, line, c),
        p.opened(line, c, all_matched, maybe_lazy) == Some((q, d)),
        q.tree.len() <= usize::MAX,
        q.current == p.current,
    ensures
        fork_kept(start, first, q, d),
{
    assert forall|matched: usize, first_new: nat| #[trigger]
        forked(start.tree, start.current, matched, first, first_new) implies forked(
        q.tree,
        q.current,
        matched,
        d,
        first_new,
    ) by {
        lemma_opened_forked(p, line, c, all_matched, maybe_lazy, matched, first_new);
    }
}

/// Inline nodes are not open.
pub proof fn lemma_inlines_closed(p: ParserView, n: usize)
    requires
        p.ok(),
        n < p.tree.len(),
        all_closed(p.tree),
        p.inlines_parsed(n).tree.len() <= usize::MAX,
    ensures
        all_closed(p.inlines_parsed(n).tree),
{
    let t = p.tree;
    let u = p.inlines_parsed(n).tree;
    lemma_inlines_parsed(p, n);
    let f = (p.syntax.inlines)(rtrimmed(t[n as int].ast.content), p.refmap, p.options);
    lemma_forest_closed(t, n, consolidated(p.syntax, p.options.ext_autolink, f));
    assert forall|m: usize| #![trigger u[m as int]] m < u.len() && attached(u, m) implies
        !open_block(u, m) by {
        if m < t.len() {
            assert(u[m as int].ast == t[m as int].ast);
            assert forall|k: int| 0 <= k < t.len() implies #[trigger] t[k].parent
                == u[k].parent by {
                assert(u[k].ast == t[k].ast);
            }
            lemma_ancestor_all(t, u, ROOT, m);
        }
    }
}

} // verus!
