//! The tree of nodes. Nodes are numbered in the order in which they are made, and a node that is
//! taken out of the tree keeps its number.
use crate::inlines::{forest_view, inline_view, Inline, InlineView};
use crate::nodes::{
    make_inline, new_inline, Ast, AstView, InlineValue, NodeCodeBlock, NodeHtmlBlock, NodeLink,
    NodeValue, TableAlignment,
};
use crate::strings::copy_range;
use vstd::prelude::*;

verus! {

#[derive(Debug)]
pub struct TreeNode {
    pub ast: Ast,
    pub parent: Option<usize>,
    pub children: Vec<usize>,
}

pub struct NodeView {
    pub ast: AstView,
    pub parent: Option<usize>,
    pub children: Seq<usize>,
}

impl View for TreeNode {
    type V = NodeView;

    open spec fn view(&self) -> NodeView {
        NodeView { ast: self.ast@, parent: self.parent, children: self.children@ }
    }
}

#[derive(Debug)]
pub struct Tree {
    pub nodes: Vec<TreeNode>,
}

impl View for Tree {
    type V = Seq<NodeView>;

    open spec fn view(&self) -> Seq<NodeView> {
        Seq::new(self.nodes@.len(), |i: int| self.nodes@[i]@)
    }
}

/// Parents and children agree on each other, numbers grow downwards, and no child occurs twice.
#[verifier::opaque]
pub open spec fn tree_ok(t: Seq<NodeView>) -> bool {
    &&& t.len() <= usize::MAX
    &&& forall|n: int, k: int|
        #![trigger t[n].children[k]]
        0 <= n < t.len() && 0 <= k < t[n].children.len() ==> {
            &&& n < t[n].children[k] < t.len()
            &&& t[t[n].children[k] as int].parent == Some(n as usize)
        }
    &&& forall|n: int, j: int, k: int|
        #![trigger t[n].children[j], t[n].children[k]]
        0 <= n < t.len() && 0 <= j < k < t[n].children.len() ==> t[n].children[j]
            != t[n].children[k]
    &&& forall|n: int|
        #![trigger t[n].parent]
        0 <= n < t.len() ==> match t[n].parent {
            Some(p) => p < n && t[p as int].children.contains(n as usize),
            None => true,
        }
}

/// The tree with other contents in node `n`.
pub open spec fn with_ast(t: Seq<NodeView>, n: usize, ast: AstView) -> Seq<NodeView> {
    t.update(n as int, NodeView { ast, ..t[n as int] })
}

/// The tree with a new last child of `p`.
pub open spec fn appended(t: Seq<NodeView>, p: usize, ast: AstView) -> Seq<NodeView> {
    t.update(
        p as int,
        NodeView { children: t[p as int].children.push(t.len() as usize), ..t[p as int] },
    ).push(NodeView { ast, parent: Some(p), children: Seq::empty() })
}

/// The place of `n` among its siblings.
pub open spec fn child_index(t: Seq<NodeView>, n: usize) -> int {
    t[t[n as int].parent->0 as int].children.index_of(n)
}

/// The tree without `n`.
pub open spec fn detached(t: Seq<NodeView>, n: usize) -> Seq<NodeView> {
    match t[n as int].parent {
        None => t,
        Some(p) => t.update(
            p as int,
            NodeView {
                children: t[p as int].children.remove(child_index(t, n)),
                ..t[p as int]
            },
        ).update(n as int, NodeView { parent: None, ..t[n as int] }),
    }
}

/// The tree with a new node in the place of `n`.
pub open spec fn replaced(t: Seq<NodeView>, n: usize, ast: AstView) -> Seq<NodeView> {
    match t[n as int].parent {
        None => t,
        Some(p) => t.update(
            p as int,
            NodeView {
                children: t[p as int].children.update(child_index(t, n), t.len() as usize),
                ..t[p as int]
            },
        ).update(n as int, NodeView { parent: None, ..t[n as int] }).push(
            NodeView { ast, parent: Some(p), children: Seq::empty() },
        ),
    }
}

pub open spec fn last_child(t: Seq<NodeView>, n: usize) -> Option<usize> {
    if t[n as int].children.len() > 0 {
        Some(t[n as int].children.last())
    } else {
        None
    }
}

pub open spec fn first_child(t: Seq<NodeView>, n: usize) -> Option<usize> {
    if t[n as int].children.len() > 0 {
        Some(t[n as int].children[0])
    } else {
        None
    }
}

pub open spec fn next_sibling(t: Seq<NodeView>, n: usize) -> Option<usize> {
    match t[n as int].parent {
        None => None,
        Some(p) => {
            let k = child_index(t, n) + 1;
            if k < t[p as int].children.len() {
                Some(t[p as int].children[k])
            } else {
                None
            }
        },
    }
}

/// `a` is `n`, or lies above it.
pub open spec fn ancestor(t: Seq<NodeView>, a: usize, n: usize) -> bool
    decreases n,
{
    a == n || match t[n as int].parent {
        Some(p) => p < n && ancestor(t, a, p),
        None => false,
    }
}

/// The node's last line is blank or, for a list or an item, that of the last thing in it.
pub open spec fn blank_line_ends(t: Seq<NodeView>, n: usize) -> bool
    decreases t.len() - n,
{
    t[n as int].ast.last_line_blank || ((t[n as int].ast.value is List
        || t[n as int].ast.value is Item) && match last_child(t, n) {
        Some(c) => n < c < t.len() && blank_line_ends(t, c),
        None => false,
    })
}

/// Two things in the list have a blank line between them: two of its items, or two of the
/// blocks directly within one.
pub open spec fn list_is_loose(t: Seq<NodeView>, n: usize) -> bool {
    exists|k: int| #[trigger] item_is_loose(t, n, k)
}

/// A blank line follows the item in the place `k`, or a block within it, and something else
/// comes behind that.
pub open spec fn item_is_loose(t: Seq<NodeView>, n: usize, k: int) -> bool {
    let items = t[n as int].children;
    0 <= k < items.len() && ((t[items[k] as int].ast.last_line_blank && k + 1 < items.len())
        || exists|j: int| #[trigger] block_is_loose(t, n, k, j))
}

/// A blank line ends the block in the place `j` of the item in the place `k`, and something
/// comes behind it.
pub open spec fn block_is_loose(t: Seq<NodeView>, n: usize, k: int, j: int) -> bool {
    let items = t[n as int].children;
    let blocks = t[items[k] as int].children;
    0 <= j < blocks.len() && blank_line_ends(t, blocks[j]) && (k + 1 < items.len() || j + 1
        < blocks.len())
}

/// The tree with an inline node, and everything below it, as the last child of `p`.
pub open spec fn inline_appended(t: Seq<NodeView>, p: usize, x: InlineView) -> Seq<NodeView>
    decreases x,
{
    forest_appended(appended(t, p, new_inline(x.value)), t.len() as usize, x.children)
}

/// The tree with inline nodes as the last children of `p`.
pub open spec fn forest_appended(t: Seq<NodeView>, p: usize, f: Seq<InlineView>) -> Seq<NodeView>
    decreases f,
{
    if f.len() == 0 {
        t
    } else {
        inline_appended(forest_appended(t, p, f.drop_last()), p, f.last())
    }
}

/// A node alone is a tree.
pub proof fn lemma_start(t: Seq<NodeView>, ast: AstView)
    requires
        t == seq![NodeView { ast, parent: None, children: Seq::empty() }],
    ensures
        tree_ok(t),
{
    reveal(tree_ok);
}

/// A parent has a smaller number.
pub proof fn lemma_parent(t: Seq<NodeView>, n: usize)
    requires
        tree_ok(t),
        n < t.len(),
    ensures
        t[n as int].parent matches Some(p) ==> p < n,
        t.len() <= usize::MAX,
{
    reveal(tree_ok);
    assert(t[n as int].parent matches Some(p) ==> p < n);
}

pub proof fn lemma_child_index(t: Seq<NodeView>, n: usize)
    requires
        tree_ok(t),
        n < t.len(),
        t[n as int].parent is Some,
    ensures
        t[n as int].parent->0 < n,
        0 <= child_index(t, n) < t[t[n as int].parent->0 as int].children.len(),
        t[t[n as int].parent->0 as int].children[child_index(t, n)] == n,
{
    reveal(tree_ok);
    assert(t[n as int].parent matches Some(p));
}

/// A child stands in one place only.
pub proof fn lemma_child_place(t: Seq<NodeView>, p: usize, k: int)
    requires
        tree_ok(t),
        p < t.len(),
        0 <= k < t[p as int].children.len(),
    ensures
        t[t[p as int].children[k] as int].parent == Some(p),
        p < t[p as int].children[k] < t.len(),
        child_index(t, t[p as int].children[k]) == k,
{
    reveal(tree_ok);
    let c = t[p as int].children[k];
    assert(t[c as int].parent == Some(p));
    lemma_child_index(t, c);
    let i = child_index(t, c);
    if i < k {
        assert(t[p as int].children[i] < t[p as int].children[k]);
    } else if k < i {
        assert(t[p as int].children[k] < t[p as int].children[i]);
    }
}

pub proof fn lemma_with_ast_ok(t: Seq<NodeView>, n: usize, ast: AstView)
    requires
        tree_ok(t),
        n < t.len(),
    ensures
        tree_ok(with_ast(t, n, ast)),
{
    reveal(tree_ok);
    let u = with_ast(t, n, ast);
    assert forall|m: int| 0 <= m < u.len() implies #[trigger] u[m].children == t[m].children
        && u[m].parent == t[m].parent by {}
    assert forall|m: int| #![trigger u[m].parent] 0 <= m < u.len() implies match u[m].parent {
        Some(p) => p < m && u[p as int].children.contains(m as usize),
        None => true,
    } by {
        assert(t[m].parent == u[m].parent);
    }
}

/// Of two changes to the contents of one node, the second counts.
pub proof fn lemma_with_ast_twice(t: Seq<NodeView>, n: usize, a: AstView, b: AstView)
    requires
        n < t.len(),
    ensures
        with_ast(with_ast(t, n, a), n, b) == with_ast(t, n, b),
{
    assert(with_ast(with_ast(t, n, a), n, b) =~= with_ast(t, n, b));
}

pub proof fn lemma_appended_ok(t: Seq<NodeView>, p: usize, ast: AstView)
    requires
        tree_ok(t),
        p < t.len() < usize::MAX,
    ensures
        tree_ok(appended(t, p, ast)),
{
    reveal(tree_ok);
    let u = appended(t, p, ast);
    let c = t.len() as usize;
    assert forall|n: int, k: int|
        #![trigger u[n].children[k]]
        0 <= n < u.len() && 0 <= k < u[n].children.len() implies {
        &&& n < u[n].children[k] < u.len()
        &&& u[u[n].children[k] as int].parent == Some(n as usize)
    } by {
        if n < t.len() && k < t[n].children.len() {
            assert(u[n].children[k] == t[n].children[k]);
        }
    }
    assert forall|n: int, j: int, k: int|
        #![trigger u[n].children[j], u[n].children[k]]
        0 <= n < u.len() && 0 <= j < k < u[n].children.len() implies u[n].children[j]
        != u[n].children[k] by {
        assert(u[n].children[j] == t[n].children[j]);
        if k < t[n].children.len() {
            assert(u[n].children[k] == t[n].children[k]);
        }
    }
    assert forall|m: int| #![trigger u[m].parent] 0 <= m < u.len() implies match u[m].parent {
        Some(q) => q < m && u[q as int].children.contains(m as usize),
        None => true,
    } by {
        if m < t.len() {
            assert(t[m].parent == u[m].parent);
            if let Some(q) = t[m].parent {
                let i = t[q as int].children.index_of(m as usize);
                assert(u[q as int].children[i] == m as usize);
            }
        } else {
            assert(u[p as int].children.last() == c);
        }
    }
}

/// A new node in the place of another one leaves all other nodes where they are.
pub proof fn lemma_replaced_ok(t: Seq<NodeView>, n: usize, ast: AstView)
    requires
        tree_ok(t),
        n < t.len() < usize::MAX,
        t[n as int].parent is Some,
    ensures
        ({
            let u = replaced(t, n, ast);
            let p = t[n as int].parent->0;
            &&& tree_ok(u)
            &&& u.len() == t.len() + 1
            &&& u[t.len() as int] == (NodeView { ast, parent: Some(p), children: Seq::empty() })
            &&& u[n as int].parent is None
            &&& forall|m: int|
                #![trigger u[m]]
                0 <= m < t.len() ==> u[m].ast == t[m].ast && (m != n ==> u[m].parent
                    == t[m].parent) && (m != p ==> u[m].children == t[m].children)
        }),
{
    reveal(tree_ok);
    let u = replaced(t, n, ast);
    let p = t[n as int].parent->0;
    let i = child_index(t, n);
    let c = t.len() as usize;
    lemma_child_index(t, n);
    assert(p < n && t[p as int].children[i] == n) by {
        assert(t[n as int].parent == Some(p));
    }
    assert(u[p as int].children == t[p as int].children.update(i, c));
    assert forall|m: int, k: int|
        #![trigger u[m].children[k]]
        0 <= m < u.len() && 0 <= k < u[m].children.len() implies {
        &&& m < u[m].children[k] < u.len()
        &&& u[u[m].children[k] as int].parent == Some(m as usize)
        &&& !(m == p && k == i) ==> u[m].children[k] == t[m].children[k]
        &&& m == p && k == i ==> u[m].children[k] == c
    } by {
        if !(m == p && k == i) {
            assert(u[m].children[k] == t[m].children[k]);
            assert(t[t[m].children[k] as int].parent == Some(m as usize));
            if t[m].children[k] == n {
                assert(m == p);
                if k < i {
                    assert(t[p as int].children[k] != t[p as int].children[i]);
                } else {
                    assert(t[p as int].children[i] != t[p as int].children[k]);
                }
            }
        }
    }
    assert forall|m: int, j: int, k: int|
        #![trigger u[m].children[j], u[m].children[k]]
        0 <= m < u.len() && 0 <= j < k < u[m].children.len() implies u[m].children[j]
        != u[m].children[k] by {
        assert(m < t.len());
        assert(t[m].children[j] < t.len() && t[m].children[k] < t.len());
        assert(t[m].children[j] != t[m].children[k]);
    }
    assert forall|m: int| #![trigger u[m].parent] 0 <= m < u.len() implies match u[m].parent {
        Some(q) => q < m && u[q as int].children.contains(m as usize),
        None => true,
    } by {
        if m == c {
            assert(u[p as int].children[i] == c);
        } else if m != n {
            assert(t[m].parent == u[m].parent);
            if let Some(q) = t[m].parent {
                lemma_child_index(t, m as usize);
                let x = child_index(t, m as usize);
                assert(u[q as int].children[x] == m as usize);
            }
        }
    }
}

pub proof fn lemma_detached_ok(t: Seq<NodeView>, n: usize)
    requires
        tree_ok(t),
        n < t.len(),
    ensures
        tree_ok(detached(t, n)),
        detached(t, n).len() == t.len(),
        detached(t, n)[n as int].parent is None,
        detached(t, n)[n as int].ast == t[n as int].ast,
        detached(t, n)[n as int].children == t[n as int].children,
        forall|m: int|
            #![trigger detached(t, n)[m]]
            0 <= m < t.len() ==> detached(t, n)[m].ast == t[m].ast && (m != n ==> detached(
                t,
                n,
            )[m].parent == t[m].parent) && (Some(m as usize) != t[n as int].parent ==> detached(
                t,
                n,
            )[m].children == t[m].children),
{
    reveal(tree_ok);
    if let Some(p) = t[n as int].parent {
        let u = detached(t, n);
        let i = child_index(t, n);
        lemma_child_index(t, n);
        let old_children = t[p as int].children;
        assert(u[p as int].children == old_children.remove(i));
        assert forall|m: int, k: int|
            #![trigger u[m].children[k]]
            0 <= m < u.len() && 0 <= k < u[m].children.len() implies {
            &&& m < u[m].children[k] < u.len()
            &&& u[u[m].children[k] as int].parent == Some(m as usize)
            &&& u[m].children[k] == t[m].children[if m == p && k >= i {
                k + 1
            } else {
                k
            }]
        } by {
            let kk = if m == p && k >= i {
                k + 1
            } else {
                k
            };
            assert(u[m].children[k] == t[m].children[kk]);
            assert(t[t[m].children[kk] as int].parent == Some(m as usize));
            if t[m].children[kk] == n {
                assert(m == p);
                if kk < i {
                    assert(t[p as int].children[kk] != t[p as int].children[i]);
                } else {
                    assert(t[p as int].children[i] != t[p as int].children[kk]);
                }
            }
        }
        assert forall|m: int, j: int, k: int|
            #![trigger u[m].children[j], u[m].children[k]]
            0 <= m < u.len() && 0 <= j < k < u[m].children.len() implies u[m].children[j]
            != u[m].children[k] by {
            let jj = if m == p && j >= i {
                j + 1
            } else {
                j
            };
            let kk = if m == p && k >= i {
                k + 1
            } else {
                k
            };
            assert(u[m].children[j] == t[m].children[jj]);
            assert(u[m].children[k] == t[m].children[kk]);
        }
        assert forall|m: int| #![trigger u[m].parent] 0 <= m < u.len() implies match u[m].parent {
            Some(q) => q < m && u[q as int].children.contains(m as usize),
            None => true,
        } by {
            if m != n {
                assert(t[m].parent == u[m].parent);
                if let Some(q) = t[m].parent {
                    lemma_child_index(t, m as usize);
                    let x = child_index(t, m as usize);
                    if q == p {
                        if x < i {
                            assert(u[q as int].children[x] == m as usize);
                        } else {
                            assert(x > i);
                            assert(u[q as int].children[x - 1] == m as usize);
                        }
                    } else {
                        assert(u[q as int].children[x] == m as usize);
                    }
                }
            }
        }
    }
}

/// Inline nodes are new nodes behind all others.
pub proof fn lemma_inline_appended(t: Seq<NodeView>, p: usize, x: InlineView)
    requires
        tree_ok(t),
        p < t.len(),
        inline_appended(t, p, x).len() <= usize::MAX,
    ensures
        tree_ok(inline_appended(t, p, x)),
        t.len() < inline_appended(t, p, x).len(),
        old_nodes_kept(t, inline_appended(t, p, x), p),
    decreases x,
{
    let u = appended(t, p, new_inline(x.value));
    lemma_parent(t, p);
    lemma_forest_grows(u, t.len() as usize, x.children);
    lemma_appended_ok(t, p, new_inline(x.value));
    lemma_forest_appended(u, t.len() as usize, x.children);
    let w = inline_appended(t, p, x);
    assert forall|m: int| 0 <= m < t.len() implies #[trigger] w[m].ast == t[m].ast && w[m].parent
        == t[m].parent && (m != p ==> w[m].children == t[m].children) by {
        assert(w[m].ast == u[m].ast);
    }
}

pub proof fn lemma_forest_appended(t: Seq<NodeView>, p: usize, f: Seq<InlineView>)
    requires
        tree_ok(t),
        p < t.len(),
        forest_appended(t, p, f).len() <= usize::MAX,
    ensures
        tree_ok(forest_appended(t, p, f)),
        t.len() <= forest_appended(t, p, f).len(),
        old_nodes_kept(t, forest_appended(t, p, f), p),
    decreases f,
{
    if f.len() > 0 {
        let u = forest_appended(t, p, f.drop_last());
        lemma_forest_grows(t, p, f.drop_last());
        lemma_inline_grows(u, p, f.last());
        lemma_forest_appended(t, p, f.drop_last());
        lemma_inline_appended(u, p, f.last());
        let w = forest_appended(t, p, f);
        assert forall|m: int| 0 <= m < t.len() implies #[trigger] w[m].ast == t[m].ast
            && w[m].parent == t[m].parent && (m != p ==> w[m].children == t[m].children) by {
            assert(w[m].ast == u[m].ast);
        }
    }
}

/// The nodes of `t` are the same in `u`, but for the children of `p`.
pub open spec fn old_nodes_kept(t: Seq<NodeView>, u: Seq<NodeView>, p: usize) -> bool {
    forall|m: int|
        0 <= m < t.len() ==> #[trigger] u[m].ast == t[m].ast && u[m].parent == t[m].parent && (m
            != p ==> u[m].children == t[m].children)
}

/// An inline node adds nodes to the tree.
pub proof fn lemma_inline_grows(t: Seq<NodeView>, p: usize, x: InlineView)
    requires
        p < t.len(),
    ensures
        t.len() < inline_appended(t, p, x).len(),
    decreases x,
{
    lemma_forest_grows(appended(t, p, new_inline(x.value)), t.len() as usize, x.children);
}

pub proof fn lemma_forest_grows(t: Seq<NodeView>, p: usize, f: Seq<InlineView>)
    requires
        p < t.len(),
    ensures
        t.len() <= forest_appended(t, p, f).len(),
    decreases f,
{
    if f.len() > 0 {
        lemma_forest_grows(t, p, f.drop_last());
        lemma_inline_grows(forest_appended(t, p, f.drop_last()), p, f.last());
    }
}

/// Inline nodes are not open.
pub proof fn lemma_inline_closed(t: Seq<NodeView>, p: usize, x: InlineView)
    requires
        p < t.len(),
    ensures
        forall|m: int|
            t.len() <= m < inline_appended(t, p, x).len() ==> !(#[trigger] inline_appended(
                t,
                p,
                x,
            )[m]).ast.open,
        forall|m: int|
            0 <= m < t.len() ==> (#[trigger] inline_appended(t, p, x)[m]).ast == t[m].ast,
        t.len() < inline_appended(t, p, x).len(),
    decreases x,
{
    let u = appended(t, p, new_inline(x.value));
    lemma_forest_closed(u, t.len() as usize, x.children);
    let w = inline_appended(t, p, x);
    assert forall|m: int| 0 <= m < u.len() implies (#[trigger] w[m]).ast == u[m].ast by {}
}

pub proof fn lemma_forest_closed(t: Seq<NodeView>, p: usize, f: Seq<InlineView>)
    requires
        p < t.len(),
    ensures
        forall|m: int|
            t.len() <= m < forest_appended(t, p, f).len() ==> !(#[trigger] forest_appended(
                t,
                p,
                f,
            )[m]).ast.open,
        forall|m: int|
            0 <= m < t.len() ==> (#[trigger] forest_appended(t, p, f)[m]).ast == t[m].ast,
        t.len() <= forest_appended(t, p, f).len(),
    decreases f,
{
    if f.len() > 0 {
        let u = forest_appended(t, p, f.drop_last());
        lemma_forest_closed(t, p, f.drop_last());
        lemma_inline_closed(u, p, f.last());
        let w = forest_appended(t, p, f);
        assert forall|m: int| 0 <= m < u.len() implies (#[trigger] w[m]).ast == u[m].ast by {}
    }
}

/// Ancestors have smaller numbers.
pub proof fn lemma_ancestor_le(t: Seq<NodeView>, a: usize, n: usize)
    requires
        ancestor(t, a, n),
    ensures
        a <= n,
    decreases n,
{
    if a != n {
        lemma_ancestor_le(t, a, t[n as int].parent->0);
    }
}

pub proof fn lemma_ancestor_trans(t: Seq<NodeView>, a: usize, b: usize, n: usize)
    requires
        ancestor(t, a, b),
        ancestor(t, b, n),
    ensures
        ancestor(t, a, n),
    decreases n,
{
    if b != n {
        lemma_ancestor_trans(t, a, b, t[n as int].parent->0);
    }
}

/// Of two ancestors of one node, the one with the smaller number lies above the other.
pub proof fn lemma_ancestor_chain(t: Seq<NodeView>, a: usize, b: usize, n: usize)
    requires
        ancestor(t, a, n),
        ancestor(t, b, n),
        a <= b,
    ensures
        ancestor(t, a, b),
    decreases n,
{
    if b == n {
    } else if a == n {
        lemma_ancestor_le(t, b, n);
    } else {
        lemma_ancestor_chain(t, a, b, t[n as int].parent->0);
    }
}

impl NodeValue {
    pub fn duplicate(&self) -> (r: NodeValue)
        ensures
            r@ == self@,
    {
        match self {
            NodeValue::Document => NodeValue::Document,
            NodeValue::BlockQuote => NodeValue::BlockQuote,
            NodeValue::List(nl) => NodeValue::List(*nl),
            NodeValue::Item(nl) => NodeValue::Item(*nl),
            NodeValue::CodeBlock(ncb) => NodeValue::CodeBlock(
                NodeCodeBlock {
                    fenced: ncb.fenced,
                    fence_char: ncb.fence_char,
                    fence_length: ncb.fence_length,
                    fence_offset: ncb.fence_offset,
                    info: copy_bytes(&ncb.info),
                    literal: copy_bytes(&ncb.literal),
                },
            ),
            NodeValue::HtmlBlock(nhb) => NodeValue::HtmlBlock(
                NodeHtmlBlock { block_type: nhb.block_type, literal: copy_bytes(&nhb.literal) },
            ),
            NodeValue::Paragraph => NodeValue::Paragraph,
            NodeValue::Heading(nh) => NodeValue::Heading(*nh),
            NodeValue::ThematicBreak => NodeValue::ThematicBreak,
            NodeValue::Table(aligns) => {
                let mut copy: Vec<TableAlignment> = Vec::new();
                let mut i: usize = 0;
                while i < aligns.len()
                    invariant
                        i <= aligns@.len(),
                        copy@ == aligns@.take(i as int),
                    decreases aligns@.len() - i,
                {
                    copy.push(aligns[i]);
                    i += 1;
                    assert(copy@ =~= aligns@.take(i as int));
                }
                assert(copy@ =~= aligns@);
                NodeValue::Table(copy)
            },
            NodeValue::TableRow(header) => NodeValue::TableRow(*header),
            NodeValue::TableCell => NodeValue::TableCell,
            NodeValue::Text(text) => NodeValue::Text(copy_bytes(text)),
            NodeValue::SoftBreak => NodeValue::SoftBreak,
            NodeValue::LineBreak => NodeValue::LineBreak,
            NodeValue::Code(text) => NodeValue::Code(copy_bytes(text)),
            NodeValue::HtmlInline(text) => NodeValue::HtmlInline(copy_bytes(text)),
            NodeValue::Emph => NodeValue::Emph,
            NodeValue::Strong => NodeValue::Strong,
            NodeValue::Strikethrough => NodeValue::Strikethrough,
            NodeValue::Link(link) => NodeValue::Link(link.duplicate()),
            NodeValue::Image(link) => NodeValue::Image(link.duplicate()),
        }
    }
}

impl InlineValue {
    /// The value as that of a node in a tree.
    pub fn to_node(&self) -> (r: NodeValue)
        ensures
            r@ == self@,
    {
        match self {
            InlineValue::Text(text) => NodeValue::Text(copy_bytes(text)),
            InlineValue::SoftBreak => NodeValue::SoftBreak,
            InlineValue::LineBreak => NodeValue::LineBreak,
            InlineValue::Code(text) => NodeValue::Code(copy_bytes(text)),
            InlineValue::HtmlInline(text) => NodeValue::HtmlInline(copy_bytes(text)),
            InlineValue::Emph => NodeValue::Emph,
            InlineValue::Strong => NodeValue::Strong,
            InlineValue::Strikethrough => NodeValue::Strikethrough,
            InlineValue::Link(link) => NodeValue::Link(link.duplicate()),
            InlineValue::Image(link) => NodeValue::Image(link.duplicate()),
        }
    }

    pub fn duplicate(&self) -> (r: InlineValue)
        ensures
            r@ == self@,
    {
        match self {
            InlineValue::Text(text) => InlineValue::Text(copy_bytes(text)),
            InlineValue::SoftBreak => InlineValue::SoftBreak,
            InlineValue::LineBreak => InlineValue::LineBreak,
            InlineValue::Code(text) => InlineValue::Code(copy_bytes(text)),
            InlineValue::HtmlInline(text) => InlineValue::HtmlInline(copy_bytes(text)),
            InlineValue::Emph => InlineValue::Emph,
            InlineValue::Strong => InlineValue::Strong,
            InlineValue::Strikethrough => InlineValue::Strikethrough,
            InlineValue::Link(link) => InlineValue::Link(link.duplicate()),
            InlineValue::Image(link) => InlineValue::Image(link.duplicate()),
        }
    }
}

impl NodeLink {
    pub fn duplicate(&self) -> (r: NodeLink)
        ensures
            r@ == self@,
    {
        NodeLink { url: copy_bytes(&self.url), title: copy_bytes(&self.title) }
    }
}

pub fn copy_bytes(v: &Vec<u8>) -> (r: Vec<u8>)
    ensures
        r@ == v@,
{
    let r: Vec<u8> = copy_range(v.as_slice(), 0, v.len());
    assert(r@ =~= v@);
    r
}

impl Tree {
    /// A tree of one node.
    pub fn new(ast: Ast) -> (r: Tree)
        ensures
            r@ == seq![NodeView { ast: ast@, parent: None, children: Seq::empty() }],
    {
        let mut nodes: Vec<TreeNode> = Vec::new();
        nodes.push(TreeNode { ast, parent: None, children: Vec::new() });
        let r: Tree = Tree { nodes };
        assert(r@ =~= seq![NodeView { ast: ast@, parent: None, children: Seq::empty() }]);
        r
    }

    pub fn len(&self) -> (r: usize)
        ensures
            r == self@.len(),
    {
        self.nodes.len()
    }

    pub fn ast(&self, n: usize) -> (r: &Ast)
        requires
            n < self@.len(),
        ensures
            r@ == self@[n as int].ast,
    {
        &self.nodes[n].ast
    }

    pub fn ast_mut(&mut self, n: usize) -> (r: &mut Ast)
        requires
            n < old(self)@.len(),
        ensures
            r@ == old(self)@[n as int].ast,
            final(self)@ == with_ast(old(self)@, n, final(r)@),
    {
        let r: &mut Ast = &mut self.nodes[n].ast;
        r
    }

    pub fn parent(&self, n: usize) -> (r: Option<usize>)
        requires
            n < self@.len(),
        ensures
            r == self@[n as int].parent,
    {
        self.nodes[n].parent
    }

    pub fn children(&self, n: usize) -> (r: &Vec<usize>)
        requires
            n < self@.len(),
        ensures
            r@ == self@[n as int].children,
    {
        &self.nodes[n].children
    }

    pub fn last_child(&self, n: usize) -> (r: Option<usize>)
        requires
            n < self@.len(),
        ensures
            r == last_child(self@, n),
    {
        let c: &Vec<usize> = &self.nodes[n].children;
        if c.len() > 0 {
            Some(c[c.len() - 1])
        } else {
            None
        }
    }

    pub fn first_child(&self, n: usize) -> (r: Option<usize>)
        requires
            n < self@.len(),
        ensures
            r == first_child(self@, n),
    {
        let c: &Vec<usize> = &self.nodes[n].children;
        if c.len() > 0 {
            Some(c[0])
        } else {
            None
        }
    }

    fn place(&self, n: usize, p: usize) -> (r: usize)
        requires
            tree_ok(self@),
            n < self@.len(),
            self@[n as int].parent == Some(p),
        ensures
            r == child_index(self@, n),
            r < self@[p as int].children.len(),
    {
        proof {
            lemma_child_index(self@, n);
        }
        let c: &Vec<usize> = &self.nodes[p].children;
        let len: usize = c.len();
        let mut i: usize = 0;
        assert(c@ == self@[p as int].children);
        while c[i] != n
            invariant
                tree_ok(self@),
                p < self@.len(),
                c@ == self@[p as int].children,
                i <= child_index(self@, n) < c@.len() == len,
                c@[child_index(self@, n)] == n,
            decreases c@.len() - i,
        {
            i += 1;
        }
        proof {
            lemma_child_place(self@, p, i as int);
        }
        i
    }

    pub fn next_sibling(&self, n: usize) -> (r: Option<usize>)
        requires
            tree_ok(self@),
            n < self@.len(),
        ensures
            r == next_sibling(self@, n),
    {
        match self.nodes[n].parent {
            None => None,
            Some(p) => {
                proof {
                    lemma_child_index(self@, n);
                }
                let i: usize = self.place(n, p);
                let c: &Vec<usize> = &self.nodes[p].children;
                assert(c@ == self@[p as int].children);
                if c.len() - i > 1 {
                    Some(c[i + 1])
                } else {
                    None
                }
            },
        }
    }

    /// Makes a new last child of `p`.
    pub fn append(&mut self, p: usize, ast: Ast) -> (r: usize)
        requires
            p < old(self)@.len(),
        ensures
            final(self)@ == appended(old(self)@, p, ast@),
            r == old(self)@.len(),
            final(self)@.len() <= usize::MAX,
    {
        let ghost t = self@;
        let id: usize = self.nodes.len();
        self.nodes.push(TreeNode { ast, parent: Some(p), children: Vec::new() });
        self.nodes[p].children.push(id);
        assert(self@ =~= appended(t, p, ast@));
        assert(self.nodes.len() <= usize::MAX);
        id
    }

    /// Takes `n` out of the tree.
    pub fn detach(&mut self, n: usize)
        requires
            tree_ok(old(self)@),
            n < old(self)@.len(),
        ensures
            final(self)@ == detached(old(self)@, n),
    {
        let ghost t = self@;
        match self.nodes[n].parent {
            None => {},
            Some(p) => {
                proof {
                    lemma_child_index(t, n);
                }
                let i: usize = self.place(n, p);
                self.nodes[p].children.remove(i);
                self.nodes[n].parent = None;
                assert(self@ =~= detached(t, n));
            },
        }
    }

    /// Puts a new node in the place of `n`, a child of `p`.
    pub fn replace(&mut self, n: usize, p: usize, ast: Ast) -> (r: usize)
        requires
            tree_ok(old(self)@),
            n < old(self)@.len(),
            old(self)@[n as int].parent == Some(p),
        ensures
            final(self)@ == replaced(old(self)@, n, ast@),
            r == old(self)@.len(),
            final(self)@.len() == old(self)@.len() + 1,
            final(self)@.len() <= usize::MAX,
    {
        let ghost t = self@;
        proof {
            lemma_parent(t, n);
            lemma_child_index(t, n);
        }
        let i: usize = self.place(n, p);
        let id: usize = self.nodes.len();
        self.nodes[p].children.set(i, id);
        self.nodes[n].parent = None;
        self.nodes.push(TreeNode { ast, parent: Some(p), children: Vec::new() });
        assert(self@ =~= replaced(t, n, ast@));
        assert(self.nodes.len() <= usize::MAX);
        id
    }

    pub fn last_child_is_open(&self, n: usize) -> (r: bool)
        requires
            tree_ok(self@),
            n < self@.len(),
        ensures
            r == (match last_child(self@, n) {
                Some(c) => self@[c as int].ast.open,
                None => false,
            }),
    {
        match self.last_child(n) {
            Some(c) => {
                proof {
                    lemma_child_place(self@, n, self@[n as int].children.len() - 1);
                }
                self.ast(c).open
            },
            None => false,
        }
    }

    pub fn ends_with_blank_line(&self, n: usize) -> (r: bool)
        requires
            tree_ok(self@),
            n < self@.len(),
        ensures
            r == blank_line_ends(self@, n),
    {
        let mut m: usize = n;
        loop
            invariant
                tree_ok(self@),
                m < self@.len(),
                blank_line_ends(self@, n) == blank_line_ends(self@, m),
            decreases self@.len() - m,
        {
            let ast: &Ast = self.ast(m);
            if ast.last_line_blank {
                return true;
            }
            match &ast.value {
                NodeValue::List(_) | NodeValue::Item(_) => match self.last_child(m) {
                    Some(c) => {
                        proof {
                            lemma_child_place(self@, m, self@[m as int].children.len() - 1);
                        }
                        m = c;
                    },
                    None => {
                        return false;
                    },
                },
                _ => {
                    return false;
                },
            }
        }
    }

    /// Whether nothing in the list is followed by a blank line and by something else.
    pub fn is_tight(&self, n: usize) -> (r: bool)
        requires
            tree_ok(self@),
            n < self@.len(),
        ensures
            r == !list_is_loose(self@, n),
    {
        let items: &Vec<usize> = self.children(n);
        let mut k: usize = 0;
        while k < items.len()
            invariant
                tree_ok(self@),
                n < self@.len(),
                items@ == self@[n as int].children,
                k <= items@.len(),
                forall|i: int| 0 <= i < k ==> !#[trigger] item_is_loose(self@, n, i),
            decreases items@.len() - k,
        {
            let item: usize = items[k];
            let more: bool = items.len() - k > 1;
            proof {
                lemma_child_place(self@, n, k as int);
            }
            if self.ast(item).last_line_blank && more {
                assert(item_is_loose(self@, n, k as int));
                return false;
            }
            let blocks: &Vec<usize> = self.children(item);
            let mut j: usize = 0;
            while j < blocks.len()
                invariant
                    tree_ok(self@),
                    n < self@.len(),
                    item < self@.len(),
                    items@ == self@[n as int].children,
                    k < items@.len(),
                    item == items@[k as int],
                    more == (k + 1 < items@.len()),
                    blocks@ == self@[item as int].children,
                    j <= blocks@.len(),
                    forall|i: int|
                        0 <= i < j ==> !#[trigger] block_is_loose(self@, n, k as int, i),
                decreases blocks@.len() - j,
            {
                proof {
                    lemma_child_place(self@, item, j as int);
                }
                let last: bool = blocks.len() - j == 1;
                if self.ends_with_blank_line(blocks[j]) && (more || !last) {
                    assert(block_is_loose(self@, n, k as int, j as int));
                    assert(item_is_loose(self@, n, k as int));
                    return false;
                }
                j += 1;
            }
            k += 1;
        }
        true
    }

    /// Makes `f` the last children of `p`.
    pub fn append_forest(&mut self, p: usize, f: &Vec<Inline>)
        requires
            p < old(self)@.len(),
        ensures
            final(self)@ == forest_appended(old(self)@, p, forest_view(f@)),
            old(self)@.len() <= final(self)@.len(),
            final(self)@.len() <= usize::MAX,
        decreases f,
    {
        let ghost t = self@;
        let ghost views = forest_view(f@);
        let mut i: usize = 0;
        assert(views.take(0) =~= Seq::<InlineView>::empty());
        while i < f.len()
            invariant
                i <= f@.len(),
                views == forest_view(f@),
                p < t.len() <= self@.len(),
                self@ == forest_appended(t, p, views.take(i as int)),
            decreases f@.len() - i,
        {
            let ghost before = self@;
            let x: &Inline = &f[i];
            let id: usize = self.append(p, make_inline(x.value.to_node()));
            assert(decreases_to!(f => f@[i as int].children));
            self.append_forest(id, &x.children);
            proof {
                let v = inline_view(f@[i as int]);
                assert(v.children =~= forest_view(x.children@));
                assert(views.take(i + 1).drop_last() =~= views.take(i as int));
                assert(views.take(i + 1).last() == v);
                assert(self@ == inline_appended(before, p, v));
            }
            i += 1;
        }
        assert(views.take(i as int) =~= views);
        assert(self.nodes.len() <= usize::MAX);
    }
}

} // verus!
