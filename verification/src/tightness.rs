//! Where a list is loose: which blocks remember a blank line, and which of these part the things
//! in a list.
use crate::model::{blank_cleared_above, ParserView};
use crate::nodes::{AstView, ValueView};
use crate::tree::{
    ancestor, blank_line_ends, block_is_loose, item_is_loose, last_child, lemma_ancestor_le,
    lemma_child_place, lemma_parent, lemma_with_ast_ok, list_is_loose, tree_ok, with_ast, NodeView,
};
use vstd::prelude::*;

verus! {

/// `above` is a list or an item, and `n` is the last thing in it.
pub open spec fn ends_with(t: Seq<NodeView>, above: usize, n: usize) -> bool {
    let node = t[above as int];
    &&& node.ast.value is List || node.ast.value is Item
    &&& node.children.len() > 0
    &&& n == node.children.last()
}

/// The nodes lead from the first one down to one that a blank line ends: each of the others is a
/// list or an item, and the next one is the last thing in it.
pub open spec fn leads_to_blank(t: Seq<NodeView>, path: Seq<usize>) -> bool {
    &&& path.len() > 0
    &&& forall|m: int| 0 <= m < path.len() ==> #[trigger] path[m] < t.len()
    &&& forall|m: int, n: int|
        0 <= m < path.len() - 1 && n == m + 1 ==> ends_with(
            t,
            #[trigger] path[m],
            #[trigger] path[n],
        )
    &&& t[path.last() as int].ast.last_line_blank
}

proof fn lemma_path_ends(t: Seq<NodeView>, path: Seq<usize>)
    requires
        tree_ok(t),
        leads_to_blank(t, path),
    ensures
        blank_line_ends(t, path[0]),
    decreases path.len(),
{
    if path.len() > 1 {
        let rest = path.skip(1);
        let n = path[0];
        assert(ends_with(t, path[0], path[1]));
        lemma_child_place(t, n, t[n as int].children.len() - 1);
        assert(rest.last() == path.last());
        assert forall|m: int, k: int| 0 <= m < rest.len() - 1 && k == m + 1 implies ends_with(
            t,
            #[trigger] rest[m],
            #[trigger] rest[k],
        ) by {
            assert(path[m + 1] == rest[m]);
            assert(path[k + 1] == rest[k]);
        }
        lemma_path_ends(t, rest);
        assert(rest[0] == path[1]);
    } else {
        assert(path.last() == path[0]);
    }
}

proof fn lemma_ending_path(t: Seq<NodeView>, n: usize) -> (path: Seq<usize>)
    requires
        tree_ok(t),
        n < t.len(),
        blank_line_ends(t, n),
    ensures
        leads_to_blank(t, path),
        path[0] == n,
    decreases t.len() - n,
{
    if t[n as int].ast.last_line_blank {
        seq![n]
    } else {
        let c = last_child(t, n)->0;
        let rest = lemma_ending_path(t, c);
        let path = seq![n] + rest;
        assert(path.last() == rest.last());
        assert forall|m: int| 0 <= m < path.len() implies #[trigger] path[m] < t.len() by {
            if m > 0 {
                assert(path[m] == rest[m - 1]);
            }
        }
        assert forall|m: int, k: int| 0 <= m < path.len() - 1 && k == m + 1 implies ends_with(
            t,
            #[trigger] path[m],
            #[trigger] path[k],
        ) by {
            assert(path[k] == rest[k - 1]);
            if m > 0 {
                assert(path[m] == rest[m - 1]);
            }
        }
        path
    }
}

/// A list is loose if a blank line ends a block within one of its items and something comes
/// behind that, be it in the same item or in the next one. The blank line may end something that
/// is last in the block, as far down as lists and items reach.
pub proof fn law_blank_within_loosens(
    p: ParserView,
    n: usize,
    k: int,
    j: int,
    path: Seq<usize>,
)
    requires
        p.ok(),
        n < p.tree.len(),
        p.value(n) is List,
        0 <= k < p.tree[n as int].children.len(),
        0 <= j < p.tree[p.tree[n as int].children[k] as int].children.len(),
        leads_to_blank(p.tree, path),
        path[0] == p.tree[p.tree[n as int].children[k] as int].children[j],
        k + 1 < p.tree[n as int].children.len() || j + 1
            < p.tree[p.tree[n as int].children[k] as int].children.len(),
    ensures
        p.finalized(n).value(n) matches ValueView::List(nl) && !nl.tight,
{
    reveal(ParserView::finalized);
    lemma_path_ends(p.tree, path);
    assert(block_is_loose(p.tree, n, k, j));
    assert(item_is_loose(p.tree, n, k));
    assert(list_is_loose(p.tree, n));
}

/// A list is loose if a blank line ends one of its items and another one follows.
pub proof fn law_blank_between_loosens(p: ParserView, n: usize, k: int)
    requires
        p.ok(),
        n < p.tree.len(),
        p.value(n) is List,
        0 <= k < p.tree[n as int].children.len() - 1,
        p.tree[p.tree[n as int].children[k] as int].ast.last_line_blank,
    ensures
        p.finalized(n).value(n) matches ValueView::List(nl) && !nl.tight,
{
    reveal(ParserView::finalized);
    assert(item_is_loose(p.tree, n, k));
    assert(list_is_loose(p.tree, n));
}

/// A list that is loose holds a blank line between two things: one of its items ends in it and
/// another item follows, or what is last in a block within an item ends in it and something
/// follows the block. A blank line that ends the list does not count.
pub proof fn law_loose_list_holds_blank(p: ParserView, n: usize)
    requires
        p.ok(),
        n < p.tree.len(),
        p.value(n) is List,
    ensures
        ({
            let items = p.tree[n as int].children;
            let loose = (p.finalized(n).value(n) matches ValueView::List(nl) && !nl.tight);
            loose ==> exists|k: int|
                #![trigger items[k]]
                {
                    let blocks = p.tree[items[k] as int].children;
                    &&& 0 <= k < items.len()
                    &&& (p.tree[items[k] as int].ast.last_line_blank && k + 1 < items.len())
                        || exists|j: int, path: Seq<usize>|
                        #![trigger blocks[j], leads_to_blank(p.tree, path)]
                        0 <= j < blocks.len() && leads_to_blank(p.tree, path) && path[0]
                            == blocks[j] && (k + 1 < items.len() || j + 1 < blocks.len())
                }
        }),
        p.finalized(n).value(n) is List,
{
    reveal(ParserView::finalized);
    let t = p.tree;
    let items = t[n as int].children;
    if list_is_loose(t, n) {
        let k = choose|k: int| #[trigger] item_is_loose(t, n, k);
        let blocks = t[items[k] as int].children;
        lemma_child_place(t, n, k);
        assert(items[k] == t[n as int].children[k]);
        if !(t[items[k] as int].ast.last_line_blank && k + 1 < items.len()) {
            let j = choose|j: int| #[trigger] block_is_loose(t, n, k, j);
            lemma_child_place(t, items[k], j);
            let path = lemma_ending_path(t, blocks[j]);
            assert(path[0] == blocks[j] && leads_to_blank(t, path));
        }
    }
}

proof fn lemma_ancestor_same(t: Seq<NodeView>, u: Seq<NodeView>, a: usize, n: usize)
    requires
        tree_ok(t),
        n < t.len(),
        t.len() == u.len(),
        forall|m: int| 0 <= m < t.len() ==> (#[trigger] u[m]).parent == t[m].parent,
    ensures
        ancestor(u, a, n) == ancestor(t, a, n),
    decreases n,
{
    assert(u[n as int].parent == t[n as int].parent);
    lemma_parent(t, n);
    if let Some(q) = t[n as int].parent {
        lemma_ancestor_same(t, u, a, q);
    }
}

/// The node is as it was, but for whether a blank line ends it.
pub open spec fn remembers(before: NodeView, after: NodeView, blank: bool) -> bool {
    &&& after.ast == AstView { last_line_blank: blank, ..before.ast }
    &&& after.parent == before.parent
    &&& after.children == before.children
}

proof fn lemma_blank_cleared(t: Seq<NodeView>, n: usize)
    requires
        tree_ok(t),
        n < t.len(),
    ensures
        ({
            let u = blank_cleared_above(t, n);
            &&& u.len() == t.len()
            &&& forall|m: int|
                #![trigger u[m]]
                0 <= m < t.len() ==> remembers(
                    t[m],
                    u[m],
                    t[m].ast.last_line_blank && !(m != n && ancestor(t, m as usize, n)),
                )
        }),
    decreases n,
{
    lemma_parent(t, n);
    let u = blank_cleared_above(t, n);
    if let Some(q) = t[n as int].parent {
        let v = with_ast(t, q, AstView { last_line_blank: false, ..t[q as int].ast });
        lemma_with_ast_ok(t, q, AstView { last_line_blank: false, ..t[q as int].ast });
        lemma_blank_cleared(v, q);
        assert forall|m: int| #![trigger u[m]] 0 <= m < t.len() implies remembers(
            t[m],
            u[m],
            t[m].ast.last_line_blank && !(m != n && ancestor(t, m as usize, n)),
        ) by {
            lemma_ancestor_same(t, v, m as usize, q);
            if m == n {
                if ancestor(t, n, q) {
                    lemma_ancestor_le(t, n, q);
                }
            }
            assert(remembers(
                v[m],
                u[m],
                v[m].ast.last_line_blank && !(m != q && ancestor(v, m as usize, q)),
            ));
        }
    } else {
        assert forall|m: int| #![trigger u[m]] 0 <= m < t.len() implies remembers(
            t[m],
            u[m],
            t[m].ast.last_line_blank && !(m != n && ancestor(t, m as usize, n)),
        ) by {
            assert(m != n ==> !ancestor(t, m as usize, n));
        }
    }
}

/// After a blank line, the innermost block that goes on remembers it, and so does the last thing
/// in that block; after another line, the block forgets it. Quotes, headings, breaks and fenced
/// code never remember one, nor does an item that starts on the line. Everything above the block
/// forgets, and everything else stays as it is.
pub proof fn law_blank_remembered(p: ParserView, container: usize)
    requires
        p.ok(),
        container < p.tree.len(),
    ensures
        ({
            let t = p.tree;
            let node = t[container as int];
            let u = p.blank_noted(container).tree;
            let forgets = match node.ast.value {
                ValueView::BlockQuote => true,
                ValueView::Heading(_) => true,
                ValueView::ThematicBreak => true,
                ValueView::CodeBlock(ncb) => ncb.fenced,
                ValueView::Item(_) => node.children.len() == 0 && node.ast.start_line
                    == p.line_number,
                _ => false,
            };
            &&& u.len() == t.len()
            &&& remembers(node, u[container as int], p.cursor.blank && !forgets)
            &&& forall|m: int|
                #![trigger u[m]]
                0 <= m < t.len() && m != container ==> remembers(
                    t[m],
                    u[m],
                    !ancestor(t, m as usize, container) && (t[m].ast.last_line_blank || (
                    p.cursor.blank && node.children.len() > 0 && m == node.children.last())),
                )
        }),
{
    reveal(ParserView::blank_noted);
    let t = p.tree;
    let node = t[container as int];
    let v = match last_child(t, container) {
        Some(c) => if p.cursor.blank {
            with_ast(t, c, AstView { last_line_blank: true, ..t[c as int].ast })
        } else {
            t
        },
        None => t,
    };
    if node.children.len() > 0 {
        let c = node.children.last();
        lemma_child_place(t, container, node.children.len() - 1);
        lemma_with_ast_ok(t, c, AstView { last_line_blank: true, ..t[c as int].ast });
        if ancestor(t, c, container) {
            lemma_ancestor_le(t, c, container);
        }
    }
    let ast = AstView {
        last_line_blank: p.blank_remembered(container),
        ..v[container as int].ast
    };
    let w = with_ast(v, container, ast);
    lemma_with_ast_ok(v, container, ast);
    lemma_blank_cleared(w, container);
    let u = p.blank_noted(container).tree;
    assert(u == blank_cleared_above(w, container));
    assert(u[container as int].parent == w[container as int].parent);
    assert forall|m: int| #![trigger u[m]] 0 <= m < t.len() && m != container implies remembers(
        t[m],
        u[m],
        !ancestor(t, m as usize, container) && (t[m].ast.last_line_blank || (p.cursor.blank
            && node.children.len() > 0 && m == node.children.last())),
    ) by {
        lemma_ancestor_same(t, w, m as usize, container);
    }
}

} // verus!
