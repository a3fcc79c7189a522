//! In the finished document, every node is below one that may hold it.
use crate::document::{subtree, DocumentView};
use crate::inlines::{inline_forest, inline_node, InlineView};
use crate::list_marker::same_kind;
use crate::nodes::{new_inline, ValueView};
use crate::spine::{blocks_ok, holds, value_ok};
use crate::tree::{
    appended, forest_appended, inline_appended, lemma_child_place, lemma_forest_closed,
    lemma_forest_grows, lemma_inline_grows, lemma_parent, tree_ok, NodeView,
};
use vstd::prelude::*;

verus! {

/// A node of the first value may be the parent of one of the second: a block where it may be
/// held, and an inline node in a block with text or in another inline node.
pub open spec fn goes_into(a: ValueView, b: ValueView) -> bool {
    if b.is_block() {
        holds(a, b)
    } else {
        a.inlines_held() || !a.is_block()
    }
}

/// Every node is below one that it goes into, and the values of the blocks are in range.
pub open spec fn blocks_nested(t: Seq<NodeView>) -> bool {
    forall|n: int|
        #![trigger t[n]]
        0 <= n < t.len() ==> {
            &&& t[n].ast.value.is_block() ==> value_ok(t[n].ast.value)
            &&& t[n].parent matches Some(p) ==> p < t.len() && goes_into(
                t[p as int].ast.value,
                t[n].ast.value,
            )
        }
}

/// The same of a document.
pub open spec fn well_nested(d: DocumentView) -> bool
    decreases d,
{
    &&& d.ast.value.is_block() ==> value_ok(d.ast.value)
    &&& forall|k: int|
        0 <= k < d.children.len() ==> goes_into(d.ast.value, d.children[k].ast.value)
            && well_nested(#[trigger] d.children[k])
}

/// The lists of a document hold items and nothing else, each of the list's own kind, and items
/// are in lists only.
pub proof fn law_lists_hold_items(d: DocumentView, k: int)
    requires
        well_nested(d),
        0 <= k < d.children.len(),
    ensures
        d.ast.value matches ValueView::List(l) ==> {
            &&& d.children[k].ast.value is Item
            &&& same_kind(d.children[k].ast.value->Item_0, l)
        },
        d.children[k].ast.value is Item ==> d.ast.value is List,
        well_nested(d.children[k]),
{
    assert(goes_into(d.ast.value, d.children[k].ast.value));
}

/// The headings of a document have levels from one to six, and those that are underlined one or
/// two.
pub proof fn law_heading_levels(d: DocumentView)
    requires
        well_nested(d),
    ensures
        d.ast.value matches ValueView::Heading(nh) ==> 1 <= nh.level <= 6 && (nh.setext
            ==> nh.level <= 2),
        forall|k: int| 0 <= k < d.children.len() ==> well_nested(#[trigger] d.children[k]),
{
}

/// What is nested in the tree is nested in the document.
pub proof fn lemma_subtree_nested(t: Seq<NodeView>, n: usize)
    requires
        tree_ok(t),
        blocks_nested(t),
        n < t.len(),
    ensures
        well_nested(subtree(t, n)),
    decreases t.len() - n,
{
    let d = subtree(t, n);
    assert(d.ast == t[n as int].ast);
    assert forall|k: int| 0 <= k < d.children.len() implies goes_into(
        d.ast.value,
        d.children[k].ast.value,
    ) && well_nested(#[trigger] d.children[k]) by {
        lemma_child_place(t, n, k);
        let c = t[n as int].children[k];
        assert(t[c as int].parent == Some(n));
        lemma_subtree_nested(t, c);
    }
}

/// Where every node is a block, they are nested.
pub proof fn lemma_blocks_nested(t: Seq<NodeView>)
    requires
        tree_ok(t),
        blocks_ok(t),
    ensures
        blocks_nested(t),
{
    reveal(blocks_ok);
    assert forall|n: int| #![trigger t[n]] 0 <= n < t.len() implies {
        &&& t[n].ast.value.is_block() ==> value_ok(t[n].ast.value)
        &&& t[n].parent matches Some(p) ==> p < t.len() && goes_into(
            t[p as int].ast.value,
            t[n].ast.value,
        )
    } by {
        lemma_parent(t, 0);
        lemma_parent(t, n as usize);
        assert(value_ok(t[n].ast.value));
    }
}

/// An inline node in the tree is no block, and leaves the others where they are.
proof fn lemma_inline_nested(t: Seq<NodeView>, p: usize, x: InlineView)
    requires
        blocks_nested(t),
        p < t.len(),
        t[p as int].ast.value.inlines_held() || !t[p as int].ast.value.is_block(),
        inline_node(x),
        inline_appended(t, p, x).len() <= usize::MAX,
    ensures
        blocks_nested(inline_appended(t, p, x)),
    decreases x,
{
    let u = appended(t, p, new_inline(x.value));
    lemma_forest_grows(u, t.len() as usize, x.children);
    assert forall|n: int| #![trigger u[n]] 0 <= n < u.len() implies {
        &&& u[n].ast.value.is_block() ==> value_ok(u[n].ast.value)
        &&& u[n].parent matches Some(q) ==> q < u.len() && goes_into(
            u[q as int].ast.value,
            u[n].ast.value,
        )
    } by {
        if n < t.len() {
            assert(u[n].ast == t[n].ast && u[n].parent == t[n].parent);
            if let Some(q) = t[n].parent {
                assert(u[q as int].ast == t[q as int].ast);
            }
        } else {
            assert(u[p as int].ast == t[p as int].ast);
        }
    }
    lemma_forest_nested(u, t.len() as usize, x.children);
}

/// The same of several inline nodes.
pub proof fn lemma_forest_nested(t: Seq<NodeView>, p: usize, f: Seq<InlineView>)
    requires
        blocks_nested(t),
        p < t.len(),
        t[p as int].ast.value.inlines_held() || !t[p as int].ast.value.is_block(),
        inline_forest(f),
        forest_appended(t, p, f).len() <= usize::MAX,
    ensures
        blocks_nested(forest_appended(t, p, f)),
    decreases f,
{
    if f.len() > 0 {
        let u = forest_appended(t, p, f.drop_last());
        lemma_forest_closed(t, p, f.drop_last());
        lemma_inline_grows(u, p, f.last());
        lemma_forest_nested(t, p, f.drop_last());
        assert(u[p as int].ast == t[p as int].ast);
        lemma_inline_nested(u, p, f.last());
    }
}

} // verus!
