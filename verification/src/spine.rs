//! The open blocks. Between two lines they are the current block and those above it; while a
//! line is read, those that the line goes on with or opens come first, and what it leaves behind
//! is closed at its end.
use crate::list_marker::same_kind;
use crate::model::{ParserView, ROOT};
use crate::nodes::{AstView, ValueView};
use crate::preserved::lemma_finalized;
use crate::strings::{blank_text, find_line_end};
use crate::tree::{
    ancestor, appended, detached, lemma_ancestor_chain, lemma_ancestor_le, lemma_ancestor_trans,
    lemma_appended_ok, lemma_detached_ok, lemma_parent, tree_ok, NodeView,
};
use vstd::prelude::*;

verus! {

/// A row or a cell of a table. These are made whole, and not closed one by one.
pub open spec fn table_part(v: ValueView) -> bool {
    v is TableRow || v is TableCell
}

/// The value is that of a block, and its fields are in range: headings have levels from one to
/// six, and those that are underlined one or two; a fence is at least three characters long, the
/// number of a list has at most nine digits, and the contents of a list item stand two to
/// fourteen columns behind its marker.
pub open spec fn value_ok(v: ValueView) -> bool {
    match v {
        ValueView::Heading(nh) => 1 <= nh.level <= 6 && (nh.setext ==> nh.level <= 2),
        ValueView::CodeBlock(ncb) => ncb.fenced ==> 3 <= ncb.fence_length,
        ValueView::HtmlBlock(nhb) => 1 <= nhb.block_type <= 7,
        ValueView::List(nl) | ValueView::Item(nl) => nl.start < 1000000000 && 2 <= nl.padding
            <= 14,
        _ => v.is_block(),
    }
}

/// A block of the first value may hold one of the second; a list holds items of its own kind.
pub open spec fn holds(a: ValueView, b: ValueView) -> bool {
    &&& a.may_hold(b)
    &&& a matches ValueView::List(l) ==> (b matches ValueView::Item(nl) ==> same_kind(l, nl))
}

/// Every node is a block that its parent may hold, and the first one is the document.
#[verifier::opaque]
pub open spec fn blocks_ok(t: Seq<NodeView>) -> bool {
    &&& t.len() > 0
    &&& t[ROOT as int].parent is None
    &&& t[ROOT as int].ast.value is Document
    &&& forall|n: int|
        #![trigger t[n]]
        0 <= n < t.len() ==> value_ok(t[n].ast.value) && match t[n].parent {
            Some(p) => holds(t[p as int].ast.value, t[n].ast.value),
            None => true,
        }
}

/// The node is in the tree.
pub open spec fn attached(t: Seq<NodeView>, n: usize) -> bool {
    ancestor(t, ROOT, n)
}

/// The node is an open block, other than a part of a table.
pub open spec fn open_block(t: Seq<NodeView>, n: usize) -> bool {
    t[n as int].ast.open && !table_part(t[n as int].ast.value)
}

/// If the block is fenced code, the line of its info string has been read.
pub open spec fn info_read(ast: AstView) -> bool {
    ast.value matches ValueView::CodeBlock(ncb) ==> ncb.fenced ==> find_line_end(ast.content, 0)
        < ast.content.len()
}

/// The node and everything above it is open.
pub open spec fn path_open(t: Seq<NodeView>, n: usize) -> bool {
    forall|a: usize| #[trigger] ancestor(t, a, n) ==> t[a as int].ast.open
}

/// If the block is a paragraph that is closed, there is something in it.
pub open spec fn text_kept(ast: AstView) -> bool {
    ast.value is Paragraph && !ast.open ==> !blank_text(ast.content)
}

/// The open blocks of the tree are `current` and those above it.
#[verifier::opaque]
pub open spec fn spine(t: Seq<NodeView>, current: usize) -> bool {
    &&& tree_ok(t)
    &&& blocks_ok(t)
    &&& current < t.len()
    &&& attached(t, current)
    &&& path_open(t, current)
    &&& forall|n: usize|
        #![trigger t[n as int]]
        n < t.len() && attached(t, n) && open_block(t, n) ==> ancestor(t, n, current)
    &&& forall|n: usize|
        #![trigger t[n as int]]
        n < t.len() && t[n as int].ast.open ==> info_read(t[n as int].ast)
    &&& forall|n: usize|
        #![trigger t[n as int]]
        n < t.len() && attached(t, n) ==> text_kept(t[n as int].ast)
}

/// While a line is read: `matched` is the innermost block that goes on with the line, and lies
/// above `current`; `container` is the innermost one that the line has opened since, and the
/// nodes from `first_new` on are those that the line has made. Everything from `container`
/// upwards is open, and so is everything from `current` up to `matched`, but not necessarily
/// `matched` itself; no other block is open.
#[verifier::opaque]
pub open spec fn forked(
    t: Seq<NodeView>,
    current: usize,
    matched: usize,
    container: usize,
    first_new: nat,
) -> bool {
    &&& tree_ok(t)
    &&& blocks_ok(t)
    &&& container < t.len()
    &&& matched <= current < first_new <= t.len()
    &&& attached(t, container)
    &&& forall|a: usize| #[trigger]
        ancestor(t, a, container) ==> t[a as int].ast.open && (a <= matched || a >= first_new)
    &&& ancestor(t, matched, current)
    &&& forall|a: usize| #[trigger]
        ancestor(t, a, current) && a > matched ==> t[a as int].ast.open
    &&& forall|n: usize|
        #![trigger t[n as int]]
        n < t.len() && attached(t, n) && open_block(t, n) ==> ancestor(t, n, container) || (
        ancestor(t, n, current) && n > matched)
    &&& forall|n: usize|
        #![trigger t[n as int]]
        n < t.len() && n != container && t[n as int].ast.open ==> info_read(t[n as int].ast)
    &&& forall|n: usize|
        #![trigger t[n as int]]
        n < t.len() && attached(t, n) ==> text_kept(t[n as int].ast)
}

/// A block that holds no other blocks.
pub open spec fn is_leaf(v: ValueView) -> bool {
    v is Paragraph || v is Heading || v is CodeBlock || v is HtmlBlock || v is ThematicBreak
        || v is TableCell
}

/// Such a block has no children.
pub proof fn lemma_leaf(t: Seq<NodeView>, n: usize)
    requires
        blocks_ok(t),
        n < t.len(),
        is_leaf(t[n as int].ast.value),
    ensures
        forall|m: int| 0 <= m < t.len() ==> #[trigger] t[m].parent != Some(n),
{
    reveal(blocks_ok);
    assert forall|m: int| 0 <= m < t.len() implies #[trigger] t[m].parent != Some(n) by {
        assert(value_ok(t[m].ast.value));
    }
}

/// Where no parent changes, nothing comes to lie above another node.
pub proof fn lemma_ancestor_all(t: Seq<NodeView>, u: Seq<NodeView>, a: usize, n: usize)
    requires
        tree_ok(t),
        n < t.len(),
        forall|m: int| 0 <= m < t.len() ==> #[trigger] t[m].parent == u[m].parent,
    ensures
        ancestor(u, a, n) == ancestor(t, a, n),
    decreases n,
{
    lemma_parent(t, n);
    assert(t[n as int].parent == u[n as int].parent);
    if let Some(p) = t[n as int].parent {
        lemma_ancestor_all(t, u, a, p);
    }
}

/// The same where the parent of one node without children changes.
proof fn lemma_ancestor_except(t: Seq<NodeView>, u: Seq<NodeView>, x: usize, a: usize, n: usize)
    requires
        tree_ok(t),
        n < t.len(),
        n != x,
        forall|m: int| 0 <= m < t.len() && m != x ==> #[trigger] t[m].parent == u[m].parent,
        forall|m: int| 0 <= m < t.len() ==> #[trigger] t[m].parent != Some(x),
    ensures
        ancestor(u, a, n) == ancestor(t, a, n),
    decreases n,
{
    lemma_parent(t, n);
    assert(t[n as int].parent == u[n as int].parent);
    if let Some(p) = t[n as int].parent {
        lemma_ancestor_except(t, u, x, a, p);
    }
}

/// A new node lies below its parent and what is above that; nothing else changes.
proof fn lemma_ancestor_appended(t: Seq<NodeView>, p: usize, ast: AstView)
    requires
        tree_ok(t),
        p < t.len() < usize::MAX,
    ensures
        ({
            let u = appended(t, p, ast);
            let c = t.len() as usize;
            &&& forall|a: usize, n: usize|
                n < t.len() ==> #[trigger] ancestor(u, a, n) == ancestor(t, a, n)
            &&& forall|a: usize| #[trigger] ancestor(u, a, c) == (a == c || ancestor(t, a, p))
        }),
{
    let u = appended(t, p, ast);
    let c = t.len() as usize;
    assert forall|a: usize, n: usize| n < t.len() implies #[trigger] ancestor(u, a, n)
        == ancestor(t, a, n) by {
        lemma_ancestor_all(t, u, a, n);
    }
    assert forall|a: usize| #[trigger] ancestor(u, a, c) == (a == c || ancestor(t, a, p)) by {
        assert(u[c as int].parent == Some(p));
        assert(ancestor(u, a, p) == ancestor(t, a, p));
    }
}

/// Nothing lies above a node whose parent is gone but the node itself; nothing else changes.
proof fn lemma_ancestor_detached(t: Seq<NodeView>, x: usize)
    requires
        tree_ok(t),
        x < t.len(),
        forall|m: int| 0 <= m < t.len() ==> #[trigger] t[m].parent != Some(x),
    ensures
        forall|a: usize, n: usize|
            n < t.len() && n != x ==> #[trigger] ancestor(detached(t, x), a, n) == ancestor(
                t,
                a,
                n,
            ),
        forall|a: usize| #[trigger] ancestor(detached(t, x), a, x) == (a == x),
{
    let u = detached(t, x);
    lemma_detached_ok(t, x);
    assert forall|m: int| 0 <= m < t.len() && m != x implies #[trigger] t[m].parent
        == u[m].parent by {
        assert(u[m].ast == t[m].ast);
    }
    assert forall|a: usize, n: usize| n < t.len() && n != x implies #[trigger] ancestor(u, a, n)
        == ancestor(t, a, n) by {
        lemma_ancestor_except(t, u, x, a, n);
    }
}

/// Closing a block takes no other block out of the tree.
pub proof fn lemma_ancestor_finalized(p: ParserView, x: usize)
    requires
        p.ok(),
        blocks_ok(p.tree),
        x < p.tree.len(),
    ensures
        ({
            let t = p.tree;
            let u = p.finalized(x).tree;
            &&& forall|a: usize, n: usize|
                n < t.len() && n != x ==> #[trigger] ancestor(u, a, n) == ancestor(t, a, n)
            &&& forall|a: usize| #[trigger] ancestor(u, a, x) ==> ancestor(t, a, x)
            &&& blocks_ok(u)
        }),
{
    let t = p.tree;
    let u = p.finalized(x).tree;
    lemma_finalized(p, x);
    assert forall|m: int| 0 <= m < t.len() && m != x implies #[trigger] t[m].parent
        == u[m].parent by {
        assert(u[m].ast == t[m].ast);
    }
    if p.value(x) is Paragraph {
        lemma_leaf(t, x);
        assert forall|a: usize, n: usize| n < t.len() && n != x implies #[trigger] ancestor(
            u,
            a,
            n,
        ) == ancestor(t, a, n) by {
            lemma_ancestor_except(t, u, x, a, n);
        }
        lemma_parent(t, x);
        assert forall|a: usize| #[trigger] ancestor(u, a, x) implies ancestor(t, a, x) by {
            if a != x {
                let q = t[x as int].parent->0;
                assert(u[x as int].parent == Some(q));
                lemma_ancestor_except(t, u, x, a, q);
            }
        }
    } else {
        assert(u[x as int].parent == t[x as int].parent);
        assert forall|a: usize, n: usize| n < t.len() implies #[trigger] ancestor(u, a, n)
            == ancestor(t, a, n) by {
            lemma_ancestor_all(t, u, a, n);
        }
    }
    reveal(blocks_ok);
    assert forall|n: int| #![trigger u[n]] 0 <= n < u.len() implies value_ok(u[n].ast.value)
        && match u[n].parent {
        Some(q) => holds(u[q as int].ast.value, u[n].ast.value),
        None => true,
    } by {
        lemma_parent(t, n as usize);
        if n == x {
            assert(t[n].ast == t[x as int].ast);
        } else {
            assert(u[n].ast == t[n].ast);
            assert(t[n].parent == u[n].parent);
        }
        if let Some(q) = u[n].parent {
            assert(t[n].parent == Some(q));
            if q != x {
                assert(u[q as int].ast == t[q as int].ast);
            }
        }
    }
}

/// The step from a block to the one above it, once it is closed.
pub proof fn lemma_forked_closed(
    p: ParserView,
    matched: usize,
    container: usize,
    first_new: nat,
)
    requires
        p.ok(),
        forked(p.tree, p.current, matched, container, first_new),
        container != ROOT,
    ensures
        p.parent(container) is Some,
        forked(
            p.finalized(container).tree,
            p.current,
            matched,
            p.parent(container)->0,
            first_new,
        ),
{
    reveal(forked);
    let t = p.tree;
    let u = p.finalized(container).tree;
    lemma_finalized(p, container);
    lemma_ancestor_finalized(p, container);
    lemma_parent(t, container);
    assert(ancestor(t, container, container));
    let q = p.parent(container)->0;
    assert(ancestor(t, q, q));
    assert forall|a: usize| #[trigger] ancestor(u, a, q) implies u[a as int].ast.open && (a
        <= matched || a >= first_new) by {
        assert(ancestor(t, a, q));
        assert(ancestor(t, a, container));
        lemma_ancestor_le(t, a, q);
        assert(u[a as int].ast == t[a as int].ast);
    }
    assert(attached(u, q)) by {
        assert(ancestor(t, ROOT, q));
        assert(ancestor(u, ROOT, q) == ancestor(t, ROOT, q));
    }
    lemma_ancestor_le(t, matched, p.current);
    if p.current == container {
        assert(matched == container);
        assert(ancestor(u, matched, p.current));
    } else {
        assert(ancestor(u, matched, p.current) == ancestor(t, matched, p.current));
    }
    assert forall|a: usize| #[trigger] ancestor(u, a, p.current) && a > matched implies u[a as
        int].ast.open by {
        assert(ancestor(t, a, p.current));
        lemma_ancestor_le(t, a, p.current);
        assert(a != container);
        assert(u[a as int].ast == t[a as int].ast);
    }
    assert forall|n: usize|
        #![trigger u[n as int]]
        n < u.len() && attached(u, n) && open_block(u, n) implies ancestor(u, n, q) || (ancestor(
        u,
        n,
        p.current,
    ) && n > matched) by {
        assert(n != container);
        assert(u[n as int].ast == t[n as int].ast);
        assert(ancestor(u, ROOT, n) == ancestor(t, ROOT, n));
        if ancestor(t, n, container) {
            assert(ancestor(t, n, q));
            assert(ancestor(u, n, q) == ancestor(t, n, q));
        } else {
            if p.current == container {
                lemma_ancestor_le(t, n, p.current);
            } else {
                assert(ancestor(u, n, p.current) == ancestor(t, n, p.current));
            }
        }
    }
    assert forall|n: usize|
        #![trigger u[n as int]]
        n < u.len() && n != q && u[n as int].ast.open implies info_read(u[n as int].ast) by {
        assert(n != container);
        assert(u[n as int].ast == t[n as int].ast);
    }
    assert forall|n: usize| #![trigger u[n as int]] n < u.len() && attached(u, n) implies
        text_kept(u[n as int].ast) by {
        if n != container {
            assert(u[n as int].ast == t[n as int].ast);
            assert(ancestor(u, ROOT, n) == ancestor(t, ROOT, n));
        }
    }
}

/// The step from the current block to the one above it, once it is closed.
pub proof fn lemma_forked_left(p: ParserView, matched: usize, container: usize, first_new: nat)
    requires
        p.ok(),
        forked(p.tree, p.current, matched, container, first_new),
        p.current != matched,
    ensures
        p.parent(p.current) is Some,
        p.tree[p.current as int].ast.open,
        forked(
            p.finalized(p.current).tree,
            p.parent(p.current)->0,
            matched,
            container,
            first_new,
        ),
{
    reveal(forked);
    let t = p.tree;
    let x = p.current;
    let u = p.finalized(x).tree;
    lemma_finalized(p, x);
    lemma_ancestor_finalized(p, x);
    lemma_parent(t, x);
    assert(ancestor(t, x, x));
    lemma_ancestor_le(t, matched, x);
    let q = p.parent(x)->0;
    assert(ancestor(t, matched, q));
    lemma_ancestor_le(t, matched, q);
    assert(!ancestor(t, x, container));
    assert(ancestor(t, container, container));
    assert(container != x);
    assert forall|a: usize| #[trigger] ancestor(u, a, container) implies u[a as int].ast.open && (
    a <= matched || a >= first_new) by {
        assert(ancestor(t, a, container));
        lemma_ancestor_le(t, a, container);
        assert(u[a as int].ast == t[a as int].ast);
    }
    assert(attached(u, container)) by {
        assert(ancestor(u, ROOT, container) == ancestor(t, ROOT, container));
    }
    assert(ancestor(u, matched, q) == ancestor(t, matched, q));
    assert forall|a: usize| #[trigger] ancestor(u, a, q) && a > matched implies u[a as
        int].ast.open by {
        assert(ancestor(t, a, q));
        assert(ancestor(t, a, x));
        lemma_ancestor_le(t, a, q);
        assert(u[a as int].ast == t[a as int].ast);
    }
    assert forall|n: usize|
        #![trigger u[n as int]]
        n < u.len() && attached(u, n) && open_block(u, n) implies ancestor(u, n, container) || (
    ancestor(u, n, q) && n > matched) by {
        assert(n != x);
        assert(u[n as int].ast == t[n as int].ast);
        assert(ancestor(u, ROOT, n) == ancestor(t, ROOT, n));
        assert(ancestor(u, n, container) == ancestor(t, n, container));
        assert(ancestor(u, n, q) == ancestor(t, n, q));
    }
    assert forall|n: usize|
        #![trigger u[n as int]]
        n < u.len() && n != container && u[n as int].ast.open implies info_read(
        u[n as int].ast,
    ) by {
        assert(n != x);
        assert(u[n as int].ast == t[n as int].ast);
    }
    assert forall|n: usize| #![trigger u[n as int]] n < u.len() && attached(u, n) implies
        text_kept(u[n as int].ast) by {
        if n != x {
            assert(u[n as int].ast == t[n as int].ast);
            assert(ancestor(u, ROOT, n) == ancestor(t, ROOT, n));
        }
    }
}

/// A new block becomes the container.
pub proof fn lemma_forked_appended(
    t: Seq<NodeView>,
    current: usize,
    matched: usize,
    container: usize,
    first_new: nat,
    ast: AstView,
)
    requires
        forked(t, current, matched, container, first_new),
        t.len() < usize::MAX,
        ast.open,
        value_ok(ast.value),
        holds(t[container as int].ast.value, ast.value),
    ensures
        forked(
            appended(t, container, ast),
            current,
            matched,
            t.len() as usize,
            first_new,
        ),
{
    reveal(forked);
    let u = appended(t, container, ast);
    let c = t.len() as usize;
    lemma_appended_ok(t, container, ast);
    lemma_ancestor_appended(t, container, ast);
    lemma_blocks_appended(t, container, ast);
    assert forall|a: usize| #[trigger] ancestor(u, a, c) implies u[a as int].ast.open && (a
        <= matched || a >= first_new) by {
        if a != c {
            assert(ancestor(t, a, container));
            lemma_ancestor_le(t, a, container);
            assert(u[a as int].ast == t[a as int].ast);
        }
    }
    assert(attached(u, c)) by {
        assert(ancestor(u, ROOT, c) == (ROOT == c || ancestor(t, ROOT, container)));
    }
    assert(ancestor(u, matched, current) == ancestor(t, matched, current));
    assert forall|a: usize| #[trigger] ancestor(u, a, current) && a > matched implies u[a as
        int].ast.open by {
        assert(ancestor(t, a, current));
        lemma_ancestor_le(t, a, current);
        assert(u[a as int].ast == t[a as int].ast);
    }
    assert forall|n: usize|
        #![trigger u[n as int]]
        n < u.len() && attached(u, n) && open_block(u, n) implies ancestor(u, n, c) || (ancestor(
        u,
        n,
        current,
    ) && n > matched) by {
        if n == c {
            assert(ancestor(u, c, c));
        } else {
            assert(u[n as int].ast == t[n as int].ast);
            assert(ancestor(u, ROOT, n) == ancestor(t, ROOT, n));
            assert(ancestor(u, n, c) == (n == c || ancestor(t, n, container)));
            assert(ancestor(u, n, current) == ancestor(t, n, current));
        }
    }
    assert forall|n: usize|
        #![trigger u[n as int]]
        n < u.len() && n != c && u[n as int].ast.open implies info_read(u[n as int].ast) by {
        assert(u[n as int].ast == t[n as int].ast);
        if n == container {
            assert(!(t[n as int].ast.value is CodeBlock));
        }
    }
    assert forall|n: usize| #![trigger u[n as int]] n < u.len() && attached(u, n) implies
        text_kept(u[n as int].ast) by {
        if n != c {
            assert(u[n as int].ast == t[n as int].ast);
            assert(ancestor(u, ROOT, n) == ancestor(t, ROOT, n));
        }
    }
}

/// A new node of a table changes nothing about the open blocks.
pub proof fn lemma_forked_part(
    t: Seq<NodeView>,
    current: usize,
    matched: usize,
    container: usize,
    first_new: nat,
    x: usize,
    ast: AstView,
)
    requires
        forked(t, current, matched, container, first_new),
        t.len() < usize::MAX,
        x < t.len(),
        table_part(ast.value),
        holds(t[x as int].ast.value, ast.value),
    ensures
        forked(appended(t, x, ast), current, matched, container, first_new),
{
    reveal(forked);
    let u = appended(t, x, ast);
    let c = t.len() as usize;
    lemma_appended_ok(t, x, ast);
    lemma_ancestor_appended(t, x, ast);
    lemma_blocks_appended(t, x, ast);
    assert forall|a: usize| #[trigger] ancestor(u, a, container) implies u[a as int].ast.open && (
    a <= matched || a >= first_new) by {
        assert(ancestor(t, a, container));
        lemma_ancestor_le(t, a, container);
        assert(u[a as int].ast == t[a as int].ast);
    }
    assert(attached(u, container)) by {
        assert(ancestor(u, ROOT, container) == ancestor(t, ROOT, container));
    }
    assert(ancestor(u, matched, current) == ancestor(t, matched, current));
    assert forall|a: usize| #[trigger] ancestor(u, a, current) && a > matched implies u[a as
        int].ast.open by {
        assert(ancestor(t, a, current));
        lemma_ancestor_le(t, a, current);
        assert(u[a as int].ast == t[a as int].ast);
    }
    assert forall|n: usize|
        #![trigger u[n as int]]
        n < u.len() && attached(u, n) && open_block(u, n) implies ancestor(u, n, container) || (
    ancestor(u, n, current) && n > matched) by {
        assert(n != c);
        assert(u[n as int].ast == t[n as int].ast);
        assert(ancestor(u, ROOT, n) == ancestor(t, ROOT, n));
        assert(ancestor(u, n, container) == ancestor(t, n, container));
        assert(ancestor(u, n, current) == ancestor(t, n, current));
    }
    assert forall|n: usize|
        #![trigger u[n as int]]
        n < u.len() && n != container && u[n as int].ast.open implies info_read(
        u[n as int].ast,
    ) by {
        if n != c {
            assert(u[n as int].ast == t[n as int].ast);
        }
    }
    assert forall|n: usize| #![trigger u[n as int]] n < u.len() && attached(u, n) implies
        text_kept(u[n as int].ast) by {
        if n != c {
            assert(u[n as int].ast == t[n as int].ast);
            assert(ancestor(u, ROOT, n) == ancestor(t, ROOT, n));
        }
    }
}

/// A block goes where it may be held.
proof fn lemma_blocks_appended(t: Seq<NodeView>, x: usize, ast: AstView)
    requires
        tree_ok(t),
        blocks_ok(t),
        x < t.len() < usize::MAX,
        value_ok(ast.value),
        holds(t[x as int].ast.value, ast.value),
    ensures
        blocks_ok(appended(t, x, ast)),
{
    reveal(blocks_ok);
    let u = appended(t, x, ast);
    assert forall|n: int| #![trigger u[n]] 0 <= n < u.len() implies value_ok(u[n].ast.value)
        && match u[n].parent {
        Some(q) => holds(u[q as int].ast.value, u[n].ast.value),
        None => true,
    } by {
        if n < t.len() {
            assert(u[n].ast == t[n].ast);
            assert(u[n].parent == t[n].parent);
            lemma_parent(t, n as usize);
            if let Some(q) = t[n].parent {
                assert(u[q as int].ast == t[q as int].ast);
            }
        } else {
            assert(u[x as int].ast == t[x as int].ast);
        }
    }
}

/// The container leaves the tree, and the block above it takes its place.
pub proof fn lemma_forked_detached(
    t: Seq<NodeView>,
    current: usize,
    matched: usize,
    container: usize,
    first_new: nat,
)
    requires
        forked(t, current, matched, container, first_new),
        t[container as int].ast.value is Paragraph,
        t[container as int].parent is Some,
    ensures
        forked(
            detached(t, container),
            current,
            matched,
            t[container as int].parent->0,
            first_new,
        ),
{
    reveal(forked);
    let u = detached(t, container);
    let q = t[container as int].parent->0;
    lemma_leaf(t, container);
    lemma_parent(t, container);
    lemma_detached_ok(t, container);
    lemma_ancestor_detached(t, container);
    assert(container != ROOT) by {
        reveal(blocks_ok);
    }
    assert(ancestor(t, container, container));
    assert(ancestor(t, q, q));
    assert(ancestor(t, q, container));
    assert(blocks_ok(u)) by {
        reveal(blocks_ok);
        assert(u[ROOT as int].ast == t[ROOT as int].ast);
        assert forall|n: int| #![trigger u[n]] 0 <= n < u.len() implies value_ok(u[n].ast.value)
            && match u[n].parent {
            Some(m) => holds(u[m as int].ast.value, u[n].ast.value),
            None => true,
        } by {
            assert(u[n].ast == t[n].ast);
            lemma_parent(t, n as usize);
            if let Some(m) = t[n].parent {
                assert(u[m as int].ast == t[m as int].ast);
            }
        }
    }
    assert forall|a: usize| #[trigger] ancestor(u, a, q) implies u[a as int].ast.open && (a
        <= matched || a >= first_new) by {
        assert(ancestor(t, a, q));
        assert(ancestor(t, a, container));
        lemma_ancestor_le(t, a, q);
        assert(u[a as int].ast == t[a as int].ast);
    }
    assert(attached(u, q)) by {
        assert(ancestor(t, ROOT, q));
        assert(ancestor(u, ROOT, q) == ancestor(t, ROOT, q));
    }
    lemma_ancestor_le(t, matched, current);
    if current == container {
        assert(matched == container);
        assert(ancestor(u, matched, current));
    } else {
        assert(ancestor(u, matched, current) == ancestor(t, matched, current));
    }
    assert forall|a: usize| #[trigger] ancestor(u, a, current) && a > matched implies u[a as
        int].ast.open by {
        if current == container {
            assert(ancestor(u, a, container) == (a == container));
        }
        assert(ancestor(t, a, current));
        lemma_ancestor_le(t, a, current);
        assert(u[a as int].ast == t[a as int].ast);
    }
    assert forall|n: usize|
        #![trigger u[n as int]]
        n < u.len() && attached(u, n) && open_block(u, n) implies ancestor(u, n, q) || (ancestor(
        u,
        n,
        current,
    ) && n > matched) by {
        assert(ancestor(u, ROOT, container) == (ROOT == container));
        assert(n != container);
        assert(u[n as int].ast == t[n as int].ast);
        assert(ancestor(u, ROOT, n) == ancestor(t, ROOT, n));
        if ancestor(t, n, container) {
            assert(ancestor(t, n, q));
            assert(ancestor(u, n, q) == ancestor(t, n, q));
        } else {
            if current == container {
                lemma_ancestor_le(t, n, current);
            } else {
                assert(ancestor(u, n, current) == ancestor(t, n, current));
            }
        }
    }
    assert forall|n: usize|
        #![trigger u[n as int]]
        n < u.len() && n != q && u[n as int].ast.open implies info_read(u[n as int].ast) by {
        assert(u[n as int].ast == t[n as int].ast);
    }
    assert forall|n: usize| #![trigger u[n as int]] n < u.len() && attached(u, n) implies
        text_kept(u[n as int].ast) by {
        assert(ancestor(u, ROOT, container) == (ROOT == container));
        assert(u[n as int].ast == t[n as int].ast);
        assert(ancestor(u, ROOT, n) == ancestor(t, ROOT, n));
    }
}

/// Only the texts, the marks of blank lines and the order of children differ in the two trees,
/// and a paragraph may have become a heading. What was known of the info strings is still known.
pub open spec fn same_blocks(t: Seq<NodeView>, u: Seq<NodeView>) -> bool {
    &&& t.len() == u.len()
    &&& forall|n: int|
        #![trigger u[n]]
        0 <= n < t.len() ==> {
            &&& u[n].parent == t[n].parent
            &&& u[n].ast.open == t[n].ast.open
            &&& u[n].ast.value == t[n].ast.value || (t[n].ast.value is Paragraph
                && u[n].ast.value is Heading && value_ok(u[n].ast.value))
            &&& info_read(t[n].ast) ==> info_read(u[n].ast)
            &&& !t[n].ast.open ==> u[n].ast.content == t[n].ast.content
        }
}

/// Such changes do not matter to the open blocks.
pub proof fn lemma_forked_same(
    t: Seq<NodeView>,
    u: Seq<NodeView>,
    current: usize,
    matched: usize,
    container: usize,
    first_new: nat,
)
    requires
        forked(t, current, matched, container, first_new),
        same_blocks(t, u),
        tree_ok(u),
    ensures
        forked(u, current, matched, container, first_new),
{
    reveal(forked);
    lemma_blocks_same(t, u);
    assert forall|m: int| 0 <= m < t.len() implies #[trigger] t[m].parent == u[m].parent by {
        assert(u[m].parent == t[m].parent);
    }
    assert forall|a: usize, n: usize| n < t.len() implies #[trigger] ancestor(u, a, n)
        == ancestor(t, a, n) by {
        lemma_ancestor_all(t, u, a, n);
    }
    assert forall|a: usize| #[trigger] ancestor(u, a, container) implies u[a as int].ast.open && (
    a <= matched || a >= first_new) by {
        assert(ancestor(t, a, container));
        lemma_ancestor_le(t, a, container);
        assert(u[a as int].ast.open == t[a as int].ast.open);
    }
    assert(ancestor(u, ROOT, container) == ancestor(t, ROOT, container));
    assert(ancestor(u, matched, current) == ancestor(t, matched, current));
    assert forall|a: usize| #[trigger] ancestor(u, a, current) && a > matched implies u[a as
        int].ast.open by {
        assert(ancestor(t, a, current));
        lemma_ancestor_le(t, a, current);
        assert(u[a as int].ast.open == t[a as int].ast.open);
    }
    assert forall|n: usize|
        #![trigger u[n as int]]
        n < u.len() && attached(u, n) && open_block(u, n) implies ancestor(u, n, container) || (
    ancestor(u, n, current) && n > matched) by {
        assert(ancestor(u, ROOT, n) == ancestor(t, ROOT, n));
        assert(ancestor(u, n, container) == ancestor(t, n, container));
        assert(ancestor(u, n, current) == ancestor(t, n, current));
        assert(open_block(t, n));
    }
    assert forall|n: usize|
        #![trigger u[n as int]]
        n < u.len() && n != container && u[n as int].ast.open implies info_read(
        u[n as int].ast,
    ) by {
        assert(t[n as int].ast.open);
    }
    assert forall|n: usize| #![trigger u[n as int]] n < u.len() && attached(u, n) implies
        text_kept(u[n as int].ast) by {
        assert(ancestor(u, ROOT, n) == ancestor(t, ROOT, n));
        assert(text_kept(t[n as int].ast));
    }
}

proof fn lemma_blocks_same(t: Seq<NodeView>, u: Seq<NodeView>)
    requires
        tree_ok(t),
        blocks_ok(t),
        same_blocks(t, u),
    ensures
        blocks_ok(u),
{
    assert forall|n: int|
        #![trigger u[n]]
        0 <= n < t.len() && u[n].ast.value != t[n].ast.value implies forall|m: int|
        0 <= m < t.len() ==> #[trigger] t[m].parent != Some(n as usize) by {
        lemma_parent(t, 0);
        lemma_leaf(t, n as usize);
    }
    reveal(blocks_ok);
    assert(u[ROOT as int].parent == t[ROOT as int].parent);
    assert forall|n: int| #![trigger u[n]] 0 <= n < u.len() implies value_ok(u[n].ast.value)
        && match u[n].parent {
        Some(q) => holds(u[q as int].ast.value, u[n].ast.value),
        None => true,
    } by {
        assert(value_ok(t[n].ast.value));
        lemma_parent(t, n as usize);
        if let Some(q) = t[n].parent {
            assert(u[q as int].parent == t[q as int].parent);
            if u[q as int].ast.value != t[q as int].ast.value {
                assert(t[n].parent != Some(q as int as usize));
            }
        }
    }
}

/// At the start of a line, `matched` being one of the open blocks.
pub proof fn lemma_forked_start(t: Seq<NodeView>, current: usize, matched: usize)
    requires
        spine(t, current),
        ancestor(t, matched, current),
    ensures
        forked(t, current, matched, matched, t.len()),
{
    reveal(forked);
    reveal(spine);
    lemma_ancestor_le(t, matched, current);
    assert(ancestor(t, ROOT, matched)) by {
        lemma_ancestor_chain(t, ROOT, matched, current);
    }
    assert forall|a: usize| #[trigger] ancestor(t, a, matched) implies t[a as int].ast.open && (a
        <= matched || a >= t.len()) by {
        lemma_ancestor_trans(t, a, matched, current);
        lemma_ancestor_le(t, a, matched);
    }
    assert forall|n: usize|
        #![trigger t[n as int]]
        n < t.len() && attached(t, n) && open_block(t, n) implies ancestor(t, n, matched) || (
    ancestor(t, n, current) && n > matched) by {
        assert(ancestor(t, n, current));
        if n <= matched {
            lemma_ancestor_chain(t, n, matched, current);
        }
    }
}

/// At the end of a line, when what it has left behind is closed.
pub proof fn lemma_forked_end(
    t: Seq<NodeView>,
    matched: usize,
    container: usize,
    first_new: nat,
)
    requires
        forked(t, matched, matched, container, first_new),
        info_read(t[container as int].ast),
    ensures
        spine(t, container),
{
    reveal(forked);
    reveal(spine);
    assert forall|n: usize|
        #![trigger t[n as int]]
        n < t.len() && attached(t, n) && open_block(t, n) implies ancestor(t, n, container) by {
        if ancestor(t, n, matched) {
            lemma_ancestor_le(t, n, matched);
        }
    }
}

/// At the end of a line that goes on with a paragraph, and opens nothing.
pub proof fn lemma_forked_lazy(t: Seq<NodeView>, current: usize, matched: usize, first_new: nat)
    requires
        forked(t, current, matched, matched, first_new),
        info_read(t[matched as int].ast),
    ensures
        spine(t, current),
{
    reveal(forked);
    reveal(spine);
    assert(ancestor(t, ROOT, current)) by {
        lemma_ancestor_trans(t, ROOT, matched, current);
    }
    assert forall|a: usize| #[trigger] ancestor(t, a, current) implies t[a as int].ast.open by {
        if a <= matched {
            lemma_ancestor_chain(t, a, matched, current);
        }
    }
    assert forall|n: usize|
        #![trigger t[n as int]]
        n < t.len() && attached(t, n) && open_block(t, n) implies ancestor(t, n, current) by {
        if ancestor(t, n, matched) {
            lemma_ancestor_trans(t, n, matched, current);
        }
    }
}

/// The open blocks are in order, with `container` as the innermost one that the line has opened.
pub open spec fn is_forked(p: ParserView, container: usize) -> bool {
    forked_at(p.tree, p.current, container)
}

/// The same of the tree alone.
#[verifier::opaque]
pub open spec fn forked_at(t: Seq<NodeView>, current: usize, container: usize) -> bool {
    exists|matched: usize, first_new: nat| #[trigger]
        forked(t, current, matched, container, first_new)
}

/// The open blocks are in order in the second state as they were in the first one.
pub open spec fn fork_kept(p: ParserView, c: usize, q: ParserView, d: usize) -> bool {
    forall|matched: usize, first_new: nat| #[trigger]
        forked(p.tree, p.current, matched, c, first_new) ==> forked(
            q.tree,
            q.current,
            matched,
            d,
            first_new,
        )
}

/// What is above another block is no block that holds none.
pub proof fn lemma_above(t: Seq<NodeView>, a: usize, n: usize)
    requires
        tree_ok(t),
        blocks_ok(t),
        n < t.len(),
        ancestor(t, a, n),
        a != n,
    ensures
        !is_leaf(t[a as int].ast.value),
    decreases n,
{
    lemma_parent(t, n);
    let p = t[n as int].parent->0;
    if p == a {
        if is_leaf(t[a as int].ast.value) {
            lemma_leaf(t, a);
        }
    } else {
        lemma_above(t, a, p);
    }
}

/// The first node lies above everything in the tree.
pub proof fn lemma_spine_start(t: Seq<NodeView>, ast: AstView)
    requires
        t == seq![NodeView { ast, parent: None, children: Seq::empty() }],
        ast.open,
        ast.value is Document,
        tree_ok(t),
    ensures
        spine(t, ROOT),
{
    reveal(spine);
    reveal(blocks_ok);
    assert forall|a: usize| #[trigger] ancestor(t, a, ROOT) implies t[a as int].ast.open by {
        lemma_ancestor_le(t, a, ROOT);
    }
    assert forall|n: usize|
        #![trigger t[n as int]]
        n < t.len() && attached(t, n) && open_block(t, n) implies ancestor(t, n, ROOT) by {
        assert(n == ROOT);
    }
}

/// No block in the tree is open, but for the parts of tables.
pub open spec fn all_closed(t: Seq<NodeView>) -> bool {
    forall|n: usize| #![trigger t[n as int]]
        n < t.len() && attached(t, n) ==> !open_block(t, n)
}

/// No paragraph in the tree is blank.
pub open spec fn no_blank_paragraph(t: Seq<NodeView>) -> bool {
    forall|n: usize| #![trigger t[n as int]]
        n < t.len() && attached(t, n) && t[n as int].ast.value is Paragraph ==> !blank_text(
            t[n as int].ast.content,
        )
}

/// With the document, the last open block is closed.
pub proof fn lemma_all_closed(p: ParserView)
    requires
        p.ok(),
        spine(p.tree, ROOT),
    ensures
        all_closed(p.finalized(ROOT).tree),
        no_blank_paragraph(p.finalized(ROOT).tree),
{
    reveal(spine);
    let t = p.tree;
    let u = p.finalized(ROOT).tree;
    lemma_finalized(p, ROOT);
    lemma_ancestor_finalized(p, ROOT);
    assert forall|n: usize| #![trigger u[n as int]] n < u.len() && attached(u, n) implies
        !open_block(u, n) by {
        if n != ROOT {
            assert(u[n as int].ast == t[n as int].ast);
            assert(ancestor(u, ROOT, n) == ancestor(t, ROOT, n));
            if open_block(t, n) {
                assert(ancestor(t, n, ROOT));
                lemma_ancestor_le(t, n, ROOT);
            }
        }
    }
    assert forall|n: usize| #![trigger u[n as int]]
        n < u.len() && attached(u, n) && u[n as int].ast.value is Paragraph implies !blank_text(
        u[n as int].ast.content,
    ) by {
        assert(!open_block(u, n));
        if n != ROOT {
            assert(u[n as int].ast == t[n as int].ast);
            assert(ancestor(u, ROOT, n) == ancestor(t, ROOT, n));
        }
    }
}

/// Where the open blocks were in order, and that was kept, they are in order.
pub proof fn lemma_forks_go_on(p: ParserView, c: usize, q: ParserView, d: usize)
    requires
        is_forked(p, c),
        fork_kept(p, c, q, d),
    ensures
        is_forked(q, d),
{
    reveal(forked_at);
    let (matched, first_new): (usize, nat) = choose|matched: usize, first_new: nat| #[trigger]
        forked(p.tree, p.current, matched, c, first_new);
    assert(forked(q.tree, q.current, matched, d, first_new));
}

/// Where every block is closed, there is no path of open blocks.
pub proof fn lemma_not_open(t: Seq<NodeView>)
    requires
        all_closed(t),
        t.len() > 0,
        t[0].ast.value is Document,
    ensures
        forall|n: usize| !#[trigger] spine(t, n),
{
    reveal(spine);
    assert(attached(t, ROOT));
    assert(!open_block(t, ROOT)) by {
        assert(t[ROOT as int] == t[0]);
    }
}

} // verus!
