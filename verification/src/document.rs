//! The finished document, in an arena.
use crate::nodes::{Ast, AstView};
use crate::spine::{all_closed, attached, open_block, table_part};
use crate::tree::{copy_bytes, lemma_child_place, tree_ok, NodeView, Tree};
use typed_arena::Arena;
use vstd::prelude::*;

verus! {

/// The arena of the crate `typed_arena`. Nothing is known of what it holds.
#[verifier::external_type_specification]
#[verifier::external_body]
#[verifier::reject_recursive_types(T)]
pub struct ExArena<T>(typed_arena::Arena<T>);

/// `typed_arena::Arena::alloc` moves the value into the arena and hands out a reference to it:
/// behind the reference stands the value that was given.
pub assume_specification<T>[ Arena::<T>::alloc ](arena: &Arena<T>, value: T) -> (r: &mut T)
    ensures
        *r == value,
;

/// A node of the finished document.
pub struct AstNode<'a> {
    pub data: Ast,
    pub children: Vec<&'a AstNode<'a>>,
}

/// A node of a document, with everything below it.
pub struct DocumentView {
    pub ast: AstView,
    pub children: Seq<DocumentView>,
}

impl<'a> View for AstNode<'a> {
    type V = DocumentView;

    open spec fn view(&self) -> DocumentView {
        node_view(*self)
    }
}

pub open spec fn node_view(x: AstNode) -> DocumentView
    decreases x,
{
    DocumentView {
        ast: x.data@,
        children: Seq::new(
            x.children@.len(),
            |i: int|
                if 0 <= i < x.children@.len() {
                    node_view(*x.children@[i])
                } else {
                    arbitrary()
                },
        ),
    }
}

/// The node `n` of the tree, with everything below it.
pub open spec fn subtree(t: Seq<NodeView>, n: usize) -> DocumentView
    decreases t.len() - n,
{
    DocumentView {
        ast: t[n as int].ast,
        children: Seq::new(
            t[n as int].children.len(),
            |k: int|
                if n < t[n as int].children[k] < t.len() {
                    subtree(t, t[n as int].children[k])
                } else {
                    arbitrary()
                },
        ),
    }
}

/// No node is open, but for the parts of tables.
pub open spec fn is_done(d: DocumentView) -> bool
    decreases d,
{
    &&& !d.ast.open || table_part(d.ast.value)
    &&& forall|k: int| 0 <= k < d.children.len() ==> is_done(#[trigger] d.children[k])
}

/// Where every block in the tree is closed, the document is done.
pub proof fn lemma_subtree_done(t: Seq<NodeView>, n: usize)
    requires
        tree_ok(t),
        all_closed(t),
        n < t.len(),
        attached(t, n),
    ensures
        is_done(subtree(t, n)),
    decreases t.len() - n,
{
    let d = subtree(t, n);
    assert(!open_block(t, n)) by {
        assert(t[n as int].ast == d.ast);
    }
    assert forall|k: int| 0 <= k < d.children.len() implies is_done(#[trigger] d.children[k]) by {
        lemma_child_place(t, n, k);
        lemma_subtree_done(t, t[n as int].children[k]);
    }
}

impl Ast {
    pub fn duplicate(&self) -> (r: Ast)
        ensures
            r@ == self@,
    {
        Ast {
            value: self.value.duplicate(),
            content: copy_bytes(&self.content),
            start_line: self.start_line,
            start_column: self.start_column,
            end_line: self.end_line,
            end_column: self.end_column,
            open: self.open,
            last_line_blank: self.last_line_blank,
        }
    }
}

/// Puts the node `n`, with everything below it, into the arena.
pub fn export<'a>(arena: &'a Arena<AstNode<'a>>, tree: &Tree, n: usize) -> (r: &'a AstNode<'a>)
    requires
        tree_ok(tree@),
        n < tree@.len(),
    ensures
        r@ == subtree(tree@, n),
    decreases tree@.len() - n,
{
    let ghost t = tree@;
    let numbers: &Vec<usize> = tree.children(n);
    let mut children: Vec<&'a AstNode<'a>> = Vec::new();
    let mut i: usize = 0;
    while i < numbers.len()
        invariant
            tree_ok(t),
            t == tree@,
            n < t.len(),
            numbers@ == t[n as int].children,
            i <= numbers@.len(),
            children@.len() == i,
            forall|k: int|
                0 <= k < i ==> node_view(*#[trigger] children@[k]) == subtree(
                    t,
                    t[n as int].children[k],
                ),
        decreases numbers@.len() - i,
    {
        proof {
            lemma_child_place(t, n, i as int);
        }
        let child: &'a AstNode<'a> = export(arena, tree, numbers[i]);
        children.push(child);
        i += 1;
    }
    let node: AstNode<'a> = AstNode { data: tree.ast(n).duplicate(), children };
    proof {
        assert forall|k: int| 0 <= k < numbers@.len() implies #[trigger] node_view(
            node,
        ).children[k] == subtree(t, n).children[k] by {
            lemma_child_place(t, n, k);
            assert(node_view(*children@[k]) == subtree(t, t[n as int].children[k]));
        }
        assert(node_view(node).children =~= subtree(t, n).children);
    }
    arena.alloc(node)
}

} // verus!
