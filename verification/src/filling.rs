//! What the texts of blocks are read for: at the end of the input, every block that holds text
//! gets the inline nodes that its text gives.
use crate::consolidate::consolidated;
use crate::inlines::InlineView;
use crate::model::ParserView;
use crate::nodes::new_inline;
use crate::preserved::lemma_inlines_parsed;
use crate::strings::rtrimmed;
use crate::tree::{
    appended, forest_appended, inline_appended, lemma_appended_ok, lemma_forest_appended,
    lemma_forest_grows, lemma_inline_appended, lemma_inline_grows, tree_ok, NodeView,
};
use vstd::prelude::*;

verus! {

/// The node `n` is the inline node `x`, and so are the nodes below it, all numbered from `from` on.
pub open spec fn node_holds(t: Seq<NodeView>, n: usize, x: InlineView, from: int) -> bool
    decreases x,
{
    &&& from <= n < t.len()
    &&& t[n as int].ast == new_inline(x.value)
    &&& t[n as int].children.len() == x.children.len()
    &&& forall|j: int|
        0 <= j < x.children.len() ==> node_holds(
            t,
            t[n as int].children[j],
            #[trigger] x.children[j],
            from,
        )
}

/// The same of a list of nodes, in their order.
pub open spec fn forest_holds(
    t: Seq<NodeView>,
    nodes: Seq<usize>,
    f: Seq<InlineView>,
    from: int,
) -> bool {
    &&& nodes.len() == f.len()
    &&& forall|j: int| 0 <= j < f.len() ==> node_holds(t, nodes[j], #[trigger] f[j], from)
}

/// Nodes that stay as they are hold what they held.
proof fn lemma_holds_kept(
    t: Seq<NodeView>,
    u: Seq<NodeView>,
    n: usize,
    x: InlineView,
    from: int,
    low: int,
)
    requires
        node_holds(t, n, x, from),
        0 <= low <= from,
        t.len() <= u.len(),
        forall|m: int|
            from <= m < t.len() ==> (#[trigger] u[m]).ast == t[m].ast && u[m].children
                == t[m].children,
    ensures
        node_holds(u, n, x, low),
    decreases x,
{
    assert(u[n as int].ast == t[n as int].ast);
    assert forall|j: int| 0 <= j < x.children.len() implies node_holds(
        u,
        u[n as int].children[j],
        #[trigger] x.children[j],
        low,
    ) by {
        lemma_holds_kept(t, u, t[n as int].children[j], x.children[j], from, low);
    }
}

proof fn lemma_inline_holds(t: Seq<NodeView>, p: usize, x: InlineView)
    requires
        tree_ok(t),
        p < t.len(),
        inline_appended(t, p, x).len() <= usize::MAX,
    ensures
        inline_appended(t, p, x)[p as int].children == t[p as int].children.push(t.len() as usize),
        node_holds(inline_appended(t, p, x), t.len() as usize, x, t.len() as int),
    decreases x,
{
    let c = t.len() as usize;
    let u = appended(t, p, new_inline(x.value));
    let w = inline_appended(t, p, x);
    lemma_forest_grows(u, c, x.children);
    lemma_appended_ok(t, p, new_inline(x.value));
    lemma_forest_appended(u, c, x.children);
    lemma_forest_holds(u, c, x.children);
    assert(w[p as int].ast == u[p as int].ast);
    assert(w[c as int].ast == u[c as int].ast);
    let nodes = w[c as int].children;
    assert(nodes.skip(0) =~= nodes);
    assert(u[c as int].children.len() == 0);
    assert forall|j: int| 0 <= j < x.children.len() implies node_holds(
        w,
        nodes[j],
        #[trigger] x.children[j],
        t.len() as int,
    ) by {
        lemma_holds_kept(w, w, nodes[j], x.children[j], u.len() as int, t.len() as int);
    }
}

proof fn lemma_forest_holds(t: Seq<NodeView>, p: usize, f: Seq<InlineView>)
    requires
        tree_ok(t),
        p < t.len(),
        forest_appended(t, p, f).len() <= usize::MAX,
    ensures
        ({
            let w = forest_appended(t, p, f);
            let n = t[p as int].children.len() as int;
            &&& w[p as int].children.len() == n + f.len()
            &&& w[p as int].children.take(n) == t[p as int].children
            &&& forest_holds(w, w[p as int].children.skip(n), f, t.len() as int)
        }),
    decreases f,
{
    let w = forest_appended(t, p, f);
    let n = t[p as int].children.len() as int;
    if f.len() == 0 {
        assert(w[p as int].children.take(n) =~= t[p as int].children);
    } else {
        let d = f.drop_last();
        let u = forest_appended(t, p, d);
        lemma_forest_grows(t, p, d);
        lemma_inline_grows(u, p, f.last());
        lemma_forest_appended(t, p, d);
        lemma_forest_holds(t, p, d);
        lemma_inline_appended(u, p, f.last());
        lemma_inline_holds(u, p, f.last());
        let before = u[p as int].children;
        let after = w[p as int].children;
        assert(after.take(n) =~= before.take(n));
        let nodes = after.skip(n);
        assert forall|j: int| 0 <= j < f.len() implies node_holds(
            w,
            nodes[j],
            #[trigger] f[j],
            t.len() as int,
        ) by {
            assert forall|m: int| t.len() <= m < u.len() implies (#[trigger] w[m]).ast == u[m].ast
                && w[m].children == u[m].children by {
                assert(w[m].ast == u[m].ast);
            }
            if j < d.len() {
                assert(d[j] == f[j]);
                assert(nodes[j] == before.skip(n)[j]);
                lemma_holds_kept(u, w, nodes[j], f[j], t.len() as int, t.len() as int);
            } else {
                assert(nodes[j] == u.len());
                lemma_holds_kept(w, w, nodes[j], f[j], u.len() as int, t.len() as int);
            }
        }
    }
}

/// The inline nodes that the text of `n` gives: the text is read without the white space at its
/// end, and runs of texts are made one.
pub open spec fn inlines_of_text(p: ParserView, n: usize) -> Seq<InlineView> {
    consolidated(
        p.syntax,
        p.options.ext_autolink,
        (p.syntax.inlines)(rtrimmed(p.tree[n as int].ast.content), p.refmap, p.options),
    )
}

/// Whether the text of `n` is read: `n` is a paragraph, a heading or a table cell, and still in
/// the tree.
pub open spec fn text_is_read(p: ParserView, n: usize) -> bool {
    &&& p.parent(n) is Some
    &&& p.value(n) is Paragraph || p.value(n) is Heading || p.value(n) is TableCell
}

/// `q` has the nodes of `p`, and the blocks from `k` up to `end` have their inline nodes.
pub open spec fn texts_read(p: ParserView, q: ParserView, k: int, end: int) -> bool {
    &&& p.tree.len() <= q.tree.len()
    &&& forall|m: int|
        #![trigger q.tree[m]]
        0 <= m < p.tree.len() ==> {
            let before = p.tree[m].children;
            let after = q.tree[m].children;
            &&& q.tree[m].ast == p.tree[m].ast
            &&& q.tree[m].parent == p.tree[m].parent
            &&& if k <= m < end && text_is_read(p, m as usize) {
                &&& after.len() >= before.len()
                &&& after.take(before.len() as int) == before
                &&& forest_holds(
                    q.tree,
                    after.skip(before.len() as int),
                    inlines_of_text(p, m as usize),
                    end,
                )
            } else {
                after == before
            }
        }
}

proof fn lemma_texts_read(p: ParserView, k: int, end: int)
    requires
        p.ok(),
        0 <= k <= end <= p.tree.len(),
        p.inlines_processed(k, end).tree.len() <= usize::MAX,
    ensures
        texts_read(p, p.inlines_processed(k, end), k, end),
    decreases end - k,
{
    let q = p.inlines_processed(k, end);
    if k < end {
        let n = k as usize;
        let read = text_is_read(p, n);
        let r = if read {
            p.inlines_parsed(n)
        } else {
            p
        };
        let f = inlines_of_text(p, n);
        if read {
            lemma_forest_grows(p.tree, n, f);
        }
        lemma_processed_grows(r, k + 1, end);
        if read {
            lemma_inlines_parsed(p, n);
            lemma_forest_holds(p.tree, n, f);
        }
        lemma_texts_read(r, k + 1, end);
        assert forall|m: int| #![trigger q.tree[m]] 0 <= m < p.tree.len() implies {
            let before = p.tree[m].children;
            let after = q.tree[m].children;
            &&& q.tree[m].ast == p.tree[m].ast
            &&& q.tree[m].parent == p.tree[m].parent
            &&& if k <= m < end && text_is_read(p, m as usize) {
                &&& after.len() >= before.len()
                &&& after.take(before.len() as int) == before
                &&& forest_holds(
                    q.tree,
                    after.skip(before.len() as int),
                    inlines_of_text(p, m as usize),
                    end,
                )
            } else {
                after == before
            }
        } by {
            assert(q.tree[m].ast == r.tree[m].ast);
            assert(r.tree[m].ast == p.tree[m].ast);
            if m == k && read {
                let before = p.tree[m].children;
                let after = q.tree[m].children;
                assert(after == r.tree[m].children);
                let nodes = after.skip(before.len() as int);
                assert forall|i: int| p.tree.len() <= i < r.tree.len() implies (
                #[trigger] q.tree[i]).ast == r.tree[i].ast && q.tree[i].children
                    == r.tree[i].children by {}
                assert forall|j: int| 0 <= j < f.len() implies node_holds(
                    q.tree,
                    nodes[j],
                    #[trigger] f[j],
                    end,
                ) by {
                    lemma_holds_kept(r.tree, q.tree, nodes[j], f[j], p.tree.len() as int, end);
                }
            }
        }
    }
}

proof fn lemma_processed_grows(p: ParserView, k: int, end: int)
    requires
        0 <= k,
        end <= p.tree.len() || end <= k,
    ensures
        p.tree.len() <= p.inlines_processed(k, end).tree.len(),
    decreases end - k,
{
    if k < end {
        let r = if p.parent(k as usize) is Some && p.value(k as usize).inlines_held() {
            p.inlines_parsed(k as usize)
        } else {
            p
        };
        if p.parent(k as usize) is Some && p.value(k as usize).inlines_held() {
            lemma_forest_grows(p.tree, k as usize, inlines_of_text(p, k as usize));
        }
        lemma_processed_grows(r, k + 1, end);
    }
}

/// At the end of the input, every paragraph, heading and table cell that is in the tree gets the
/// inline nodes that its text gives, behind what it holds, in their order and with everything
/// below them. Nothing else changes: no other node gets any, and no node's own contents change.
pub proof fn law_every_text_is_read(p: ParserView)
    requires
        p.document_closed().ok(),
        p.finished().tree.len() <= usize::MAX,
    ensures
        ({
            let d = p.document_closed();
            texts_read(d, p.finished(), 0, d.tree.len() as int)
        }),
{
    let d = p.document_closed();
    lemma_texts_read(d, 0, d.tree.len() as int);
}

} // verus!
