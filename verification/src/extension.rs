//! Without the table extension, there are no tables.
use crate::cursor::{lemma_find_first_nonspace, line_ok};
use crate::document::{subtree, DocumentView};
use crate::inlines::{inline_forest, inline_node, InlineView};
use crate::list_marker::same_kind;
use crate::model::{item_contents, no_tables, BlockStart, ParserView};
use crate::nesting::{blocks_nested, goes_into};
use crate::nodes::{new_inline, NodeList, ValueView};
use crate::preserved::{
    lemma_blank_noted, lemma_child_added, lemma_climbed, lemma_closed_up_to, lemma_continued,
    lemma_finalized, opening, same_variant, text_ready,
};
use crate::spine::table_part;
use crate::tree::{
    appended, forest_appended, inline_appended, last_child, lemma_child_place, lemma_forest_grows,
    lemma_inline_grows, lemma_parent, lemma_with_ast_ok, tree_ok, NodeView,
};
use vstd::prelude::*;

verus! {

/// If the extension is off, and there was no table before, there is none after.
pub open spec fn tables_kept(p: ParserView, q: ParserView) -> bool {
    !p.options.ext_table && no_tables(p.tree) ==> no_tables(q.tree)
}

/// Closing a block makes no table.
pub proof fn lemma_finalized_tables(p: ParserView, n: usize)
    requires
        p.ok(),
        n < p.tree.len(),
    ensures
        tables_kept(p, p.finalized(n)),
{
    lemma_finalized(p, n);
    let u = p.finalized(n).tree;
    if no_tables(p.tree) {
        assert forall|m: int| #![trigger u[m]] 0 <= m < u.len() implies !(
        u[m].ast.value is Table) by {
            assert(!(p.tree[m].ast.value is Table));
        }
    }
}

proof fn lemma_climbed_tables(p: ParserView, parent: usize, value: ValueView)
    requires
        p.ok(),
        parent < p.tree.len(),
    ensures
        tables_kept(p, p.climbed(parent, value).0),
    decreases parent,
{
    lemma_parent(p.tree, parent);
    if let Some(q) = p.parent(parent) {
        if !p.value(parent).may_hold(value) {
            lemma_finalized(p, parent);
            lemma_finalized_tables(p, parent);
            lemma_climbed_tables(p.finalized(parent), q, value);
        }
    }
}

proof fn lemma_child_added_tables(p: ParserView, parent: usize, value: ValueView, column: int)
    requires
        p.ok(),
        parent < p.tree.len(),
        !(value is Table),
    ensures
        tables_kept(p, p.child_added(parent, value, column).0),
{
    lemma_climbed(p, parent, value);
    lemma_climbed_tables(p, parent, value);
    let (q, c) = p.climbed(parent, value);
    let t = q.tree;
    let u = p.child_added(parent, value, column).0.tree;
    if no_tables(t) {
        assert forall|m: int| #![trigger u[m]] 0 <= m < u.len() implies !(
        u[m].ast.value is Table) by {
            if m < t.len() {
                assert(!(t[m].ast.value is Table));
            }
        }
    }
}

/// Without the extension, no line opens a table.
pub proof fn lemma_opened_tables(
    p: ParserView,
    line: Seq<u8>,
    container: usize,
    all_matched: bool,
    maybe_lazy: bool,
)
    requires
        opening(p, line, container),
        p.opened(line, container, all_matched, maybe_lazy) matches Some((q, _)) ==> q.tree.len()
            <= usize::MAX,
    ensures
        p.opened(line, container, all_matched, maybe_lazy) matches Some((q, _)) ==> tables_kept(
            p,
            q,
        ),
{
    assert forall|q: ParserView, value: ValueView, column: int|
        q.ok() && q.tree == p.tree && !(value is Table) implies tables_kept(
        q,
        (#[trigger] q.child_added(container, value, column)).0,
    ) by {
        lemma_child_added_tables(q, container, value, column);
    }
    match p.block_start(line, container, all_matched, maybe_lazy) {
        BlockStart::BlockQuote => {
            reveal(ParserView::quote_opened);
        },
        BlockStart::Heading(_) => {
            reveal(ParserView::heading_opened);
        },
        BlockStart::CodeFence(_) => {
            reveal(ParserView::fence_opened);
        },
        BlockStart::HtmlBlock(_) => {
            reveal(ParserView::html_opened);
        },
        BlockStart::Underline(sc) => {
            reveal(ParserView::underlined);
            let u = p.underlined(line, container, sc).0.tree;
            if no_tables(p.tree) {
                assert forall|m: int| #![trigger u[m]] 0 <= m < u.len() implies !(
                u[m].ast.value is Table) by {
                    assert(!(p.tree[m].ast.value is Table));
                }
            }
        },
        BlockStart::ThematicBreak => {
            reveal(ParserView::break_opened);
        },
        BlockStart::ListItem(matched, nl) => {
            lemma_item_tables(p, line, container, matched, nl);
        },
        BlockStart::IndentedCode => {
            reveal(ParserView::code_opened);
        },
        BlockStart::Other => {},
    }
}

proof fn lemma_item_tables(
    p: ParserView,
    line: Seq<u8>,
    container: usize,
    matched: int,
    nl: NodeList,
)
    requires
        p.ok(),
        container < p.tree.len(),
        p.item_opened(line, container, matched, nl).0.tree.len() <= usize::MAX,
    ensures
        tables_kept(p, p.item_opened(line, container, matched, nl).0),
{
    reveal(ParserView::item_opened);
    let i = p.cursor.first_nonspace;
    let c = p.cursor.advance(line, i + matched - p.cursor.offset, false);
    let (d, padding) = item_contents(c, line, matched);
    let list = NodeList {
        padding: padding as usize,
        marker_offset: p.cursor.indent as usize,
        ..nl
    };
    let a = p.at(d);
    let continues = match p.value(container) {
        ValueView::List(mnl) => same_kind(list, mnl),
        _ => false,
    };
    if continues {
        lemma_child_added_tables(a, container, ValueView::Item(list), i + 1);
    } else {
        let (q, parent) = a.child_added(container, ValueView::List(list), i + 1);
        lemma_climbed(a, container, ValueView::List(list));
        lemma_parent(p.tree, container);
        if q.tree.len() > usize::MAX {
            assert(q.value(parent) == ValueView::List(list));
            assert(q.climbed(parent, ValueView::Item(list)) == (q, parent));
        }
        lemma_child_added(a, container, ValueView::List(list), i + 1);
        lemma_child_added_tables(a, container, ValueView::List(list), i + 1);
        lemma_child_added_tables(q, parent, ValueView::Item(list), i + 1);
    }
}

/// The blocks that go on stay what they are.
pub proof fn lemma_open_blocks_tables(p: ParserView, line: Seq<u8>, container: usize)
    requires
        p.ok(),
        line_ok(line),
        p.cursor.on(line),
        p.cursor.tab_ok(line),
        container < p.tree.len(),
    ensures
        tables_kept(p, p.open_blocks_checked(line, container).0),
    decreases p.tree.len() - container,
{
    if let Some(n) = last_child(p.tree, container) {
        lemma_child_place(p.tree, container, p.tree[container as int].children.len() - 1);
        if p.tree[n as int].ast.open {
            let m = p.at(p.cursor.find_first_nonspace(line));
            lemma_find_first_nonspace(p.cursor, line);
            lemma_continued(m, line, n);
            let (q, goes_on, left) = m.continued(line, n);
            if goes_on {
                lemma_open_blocks_tables(q, line, n);
            } else if !left {
                lemma_finalized_tables(m.at(q.cursor), n);
            }
        }
    }
}

/// Neither does closing several.
pub proof fn lemma_closed_tables(p: ParserView, top: usize)
    requires
        p.ok(),
    ensures
        tables_kept(p, p.closed_up_to(top)),
{
    lemma_closed_up_to(p, top);
    let q = p.closed_up_to(top);
    if no_tables(p.tree) {
        assert forall|m: int| #![trigger q.tree[m]] 0 <= m < q.tree.len() implies !(
        q.tree[m].ast.value is Table) by {
            lemma_parent(p.tree, 0);
            assert(!(p.tree[m].ast.value is Table));
            assert(same_variant(p.value(m as usize), q.value(m as usize)));
        }
    }
}

proof fn lemma_line_added_tables(p: ParserView, n: usize, line: Seq<u8>)
    requires
        n < p.tree.len(),
    ensures
        tables_kept(p, p.line_added(n, line)),
{
    let u = p.line_added(n, line).tree;
    if no_tables(p.tree) {
        assert forall|m: int| #![trigger u[m]] 0 <= m < u.len() implies !(
        u[m].ast.value is Table) by {
            assert(!(p.tree[m].ast.value is Table));
        }
    }
}

/// Text makes no table.
pub proof fn lemma_text_added_tables(
    p: ParserView,
    container: usize,
    last_matched: usize,
    line: Seq<u8>,
)
    requires
        text_ready(p, line, container),
        p.text_added(container, last_matched, line).0.tree.len() <= usize::MAX,
    ensures
        tables_kept(p, p.text_added(container, last_matched, line).0),
{
    reveal(ParserView::text_added);
    reveal(ParserView::text_taken);
    reveal(ParserView::html_taken);
    let m = p.at(p.cursor.find_first_nonspace(line));
    let b = m.blank_noted(container);
    lemma_blank_noted(m, container);
    if no_tables(p.tree) {
        assert forall|k: int| #![trigger b.tree[k]] 0 <= k < b.tree.len() implies !(
        b.tree[k].ast.value is Table) by {
            assert(!(p.tree[k].ast.value is Table));
        }
    }
    lemma_line_added_tables(b, b.current, line);
    lemma_closed_up_to(b, last_matched);
    lemma_closed_tables(b, last_matched);
    let c = b.closed_up_to(last_matched);
    lemma_line_added_tables(c, container, line);
    let column = c.cursor.first_nonspace + 1;
    lemma_climbed(c, container, ValueView::Paragraph);
    lemma_parent(c.tree, container);
    lemma_child_added_tables(c, container, ValueView::Paragraph, column);
    let (d, n) = c.child_added(container, ValueView::Paragraph, column);
    assert(n < d.tree.len());
    assert forall|q: ParserView, x: usize| x < q.tree.len() implies tables_kept(
        q,
        #[trigger] q.line_added(x, line),
    ) by {
        lemma_line_added_tables(q, x, line);
    }
    let h = c.line_added(container, line);
    lemma_with_ast_ok(c.tree, container, h.tree[container as int].ast);
    lemma_finalized_tables(h, container);
}

proof fn lemma_inline_tables(t: Seq<NodeView>, p: usize, x: InlineView)
    requires
        no_tables(t),
        p < t.len(),
        inline_node(x),
        inline_appended(t, p, x).len() <= usize::MAX,
    ensures
        no_tables(inline_appended(t, p, x)),
    decreases x,
{
    let u = appended(t, p, new_inline(x.value));
    lemma_forest_grows(u, t.len() as usize, x.children);
    assert forall|m: int| #![trigger u[m]] 0 <= m < u.len() implies !(u[m].ast.value is Table) by {
        if m < t.len() {
            assert(!(t[m].ast.value is Table));
        }
    }
    lemma_forest_tables(u, t.len() as usize, x.children);
}

/// Inline nodes are no tables.
pub proof fn lemma_forest_tables(t: Seq<NodeView>, p: usize, f: Seq<InlineView>)
    requires
        no_tables(t),
        p < t.len(),
        inline_forest(f),
        forest_appended(t, p, f).len() <= usize::MAX,
    ensures
        no_tables(forest_appended(t, p, f)),
    decreases f,
{
    if f.len() > 0 {
        let d = f.drop_last();
        let u = forest_appended(t, p, d);
        lemma_forest_grows(t, p, d);
        lemma_inline_grows(u, p, f.last());
        lemma_forest_tables(t, p, d);
        lemma_inline_tables(u, p, f.last());
    }
}

/// There is no table in the document, nor any part of one.
pub open spec fn without_tables(d: DocumentView) -> bool
    decreases d,
{
    &&& !(d.ast.value is Table) && !table_part(d.ast.value)
    &&& forall|k: int| 0 <= k < d.children.len() ==> without_tables(#[trigger] d.children[k])
}

/// Where there is no table in the tree, there is nothing of one in the document.
pub proof fn lemma_subtree_tables(t: Seq<NodeView>, n: usize)
    requires
        tree_ok(t),
        blocks_nested(t),
        no_tables(t),
        n < t.len(),
        !table_part(t[n as int].ast.value),
    ensures
        without_tables(subtree(t, n)),
    decreases t.len() - n,
{
    let d = subtree(t, n);
    assert(!(t[n as int].ast.value is Table));
    assert forall|k: int| 0 <= k < d.children.len() implies without_tables(
        #[trigger] d.children[k],
    ) by {
        lemma_child_place(t, n, k);
        let c = t[n as int].children[k];
        assert(t[c as int].parent == Some(n));
        assert(goes_into(t[n as int].ast.value, t[c as int].ast.value));
        lemma_subtree_tables(t, c);
    }
}

} // verus!
