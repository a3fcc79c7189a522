//! What becomes of a list of inline nodes, taken apart: the nodes between texts, the texts between
//! nodes, and the text at the end, in which bare links become links.
use crate::consolidate::{
    autolinks_after, autolinks_link, consolidated, first_two_joined, forest_size, is_bracket,
    lemma_first_two_joined, lemma_sizes, plain_text, text_node, valid_autolink,
};
use crate::inlines::{AutolinkView, InlineView, SyntaxView};
use crate::nodes::ValueView;
use vstd::prelude::*;

verus! {

/// What is below a link or an image stays as it is. What is below any other node that is no text
/// becomes what it would become alone, with bare links or without, as in the list itself.
pub proof fn law_nodes_alone(syntax: SyntaxView, ext_autolink: bool, x: InlineView)
    requires
        !(x.value is Text),
    ensures
        ({
            let r = consolidated(syntax, ext_autolink, seq![x]);
            &&& r.len() == 1
            &&& r[0].value == x.value
            &&& x.value is Link || x.value is Image ==> r[0].children == x.children
            &&& !(x.value is Link) && !(x.value is Image) ==> r[0].children == consolidated(
                syntax,
                ext_autolink,
                x.children,
            )
        }),
{
    let f = seq![x];
    assert(f.skip(1) =~= Seq::<InlineView>::empty());
    assert(consolidated(syntax, ext_autolink, f.skip(1)) =~= Seq::<InlineView>::empty());
}

/// A node that is no text parts a list: what comes behind it does not depend on what comes before
/// it, and the node itself becomes what it would become alone.
pub proof fn law_parted_by_nodes(
    syntax: SyntaxView,
    ext_autolink: bool,
    a: Seq<InlineView>,
    x: InlineView,
    b: Seq<InlineView>,
)
    requires
        !(x.value is Text),
    ensures
        ({
            let before = consolidated(syntax, ext_autolink, a + seq![x]);
            &&& consolidated(syntax, ext_autolink, a + seq![x] + b) == before + consolidated(
                syntax,
                ext_autolink,
                b,
            )
            &&& before.len() > 0
            &&& seq![before.last()] == consolidated(syntax, ext_autolink, seq![x])
        }),
    decreases forest_size(a),
{
    let none = Seq::<InlineView>::empty();
    let f = a + seq![x];
    let g = f + b;
    assert(consolidated(syntax, ext_autolink, none) =~= none);
    if a.len() == 0 {
        assert(f =~= seq![x]);
        assert(g.skip(1) =~= b);
        assert(f.skip(1) =~= none);
        law_nodes_alone(syntax, ext_autolink, x);
        assert(g[0] == x);
        let r = consolidated(syntax, ext_autolink, f);
        assert(seq![r.last()] =~= r);
        assert(consolidated(syntax, ext_autolink, g) =~= r + consolidated(
            syntax,
            ext_autolink,
            b,
        ));
    } else {
        lemma_sizes(a);
        assert(f[0] == a[0] && g[0] == a[0]);
        if a.len() > 1 && a[0].value is Text && a[1].value is Text {
            lemma_first_two_joined(a);
            law_parted_by_nodes(syntax, ext_autolink, first_two_joined(a), x, b);
            assert(f[1] == a[1] && g[1] == a[1]);
            assert(first_two_joined(f) =~= first_two_joined(a) + seq![x]);
            assert(first_two_joined(g) =~= first_two_joined(a) + seq![x] + b);
        } else {
            let rest = a.skip(1);
            law_parted_by_nodes(syntax, ext_autolink, rest, x, b);
            assert(f.skip(1) =~= rest + seq![x]);
            assert(g.skip(1) =~= rest + seq![x] + b);
            assert(f.len() > 1 && g.len() > 1);
            assert(f[1] == if a.len() > 1 {
                a[1]
            } else {
                x
            });
            assert(g[1] == f[1]);
            let tail = consolidated(syntax, ext_autolink, rest + seq![x]);
            let r = consolidated(syntax, ext_autolink, f);
            assert(r == seq![r[0]] + tail);
            assert(r.last() == tail.last());
            assert(consolidated(syntax, ext_autolink, g) =~= r + consolidated(
                syntax,
                ext_autolink,
                b,
            ));
        }
    }
}

/// The nodes are texts, with nothing below them.
pub open spec fn all_texts(f: Seq<InlineView>) -> bool {
    forall|k: int|
        0 <= k < f.len() ==> (#[trigger] f[k]).value is Text && f[k].children.len() == 0
}

/// A run of texts, joined one by one, is one text.
proof fn lemma_texts_joined(
    syntax: SyntaxView,
    ext_autolink: bool,
    run: Seq<InlineView>,
    b: Seq<InlineView>,
)
    requires
        run.len() > 0,
        all_texts(run),
    ensures
        consolidated(syntax, ext_autolink, run + b) == consolidated(
            syntax,
            ext_autolink,
            seq![text_node(plain_text(run))] + b,
        ),
    decreases run.len(),
{
    let none = Seq::<InlineView>::empty();
    let no_bytes = Seq::<u8>::empty();
    let f = run + b;
    let text = run[0].value->Text_0;
    assert(plain_text(none) =~= no_bytes);
    assert(run[0].children =~= none);
    assert(plain_text(run) =~= text + plain_text(run.skip(1)));
    if run.len() == 1 {
        assert(run.skip(1) =~= none);
        assert(plain_text(run) =~= text);
        assert(run =~= seq![text_node(plain_text(run))]);
    } else {
        let joined = first_two_joined(run);
        assert forall|k: int| 0 <= k < joined.len() implies (
        #[trigger] joined[k]).value is Text && joined[k].children.len() == 0 by {
            if k > 0 {
                assert(joined[k] == run[k + 1]);
            }
        }
        lemma_texts_joined(syntax, ext_autolink, joined, b);
        assert(first_two_joined(f) =~= joined + b);
        assert(f[0] == run[0] && f[1] == run[1]);
        let rest = run.skip(1);
        assert(rest.skip(1) =~= joined.skip(1));
        assert(rest[0].children =~= none);
        assert(joined[0].children =~= none);
        assert(plain_text(rest) =~= run[1].value->Text_0 + plain_text(rest.skip(1)));
        assert(plain_text(joined) =~= joined[0].value->Text_0 + plain_text(joined.skip(1)));
        assert(plain_text(joined) =~= plain_text(run));
    }
}

/// A run of texts before another node becomes one text, which holds all of them, in their order.
/// No bare link in it becomes a link.
pub proof fn law_texts_before_a_node(
    syntax: SyntaxView,
    ext_autolink: bool,
    run: Seq<InlineView>,
    x: InlineView,
)
    requires
        run.len() > 0,
        all_texts(run),
        !(x.value is Text),
    ensures
        consolidated(syntax, ext_autolink, run + seq![x]) == seq![text_node(plain_text(run))]
            + consolidated(syntax, ext_autolink, seq![x]),
{
    lemma_texts_joined(syntax, ext_autolink, run, seq![x]);
    let t = text_node(plain_text(run));
    let f = seq![t] + seq![x];
    assert(f.skip(1) =~= seq![x]);
    assert(f[1] == x);
    assert(t.children =~= Seq::<InlineView>::empty());
    assert(consolidated(syntax, ext_autolink, t.children) =~= Seq::<InlineView>::empty());
}

/// A run of texts at the end becomes one text, which holds all of them, in their order. With bare
/// links, the first one in it becomes a link: the text before it comes first, the link follows, and
/// the text behind it, if there is any, is treated in the same way.
pub proof fn law_texts_at_the_end(syntax: SyntaxView, ext_autolink: bool, run: Seq<InlineView>)
    requires
        run.len() > 0,
        all_texts(run),
    ensures
        ({
            let text = plain_text(run);
            let r = consolidated(syntax, ext_autolink, run);
            match (syntax.autolink)(text) {
                Some(a) => if ext_autolink && 0 <= a.start <= a.end <= text.len() && 0 < a.end {
                    r == seq![text_node(text.take(a.start)), a.link] + if a.end < text.len() {
                        consolidated(syntax, true, seq![text_node(text.skip(a.end))])
                    } else {
                        Seq::empty()
                    }
                } else {
                    r == seq![text_node(text)]
                },
                None => r == seq![text_node(text)],
            }
        }),
{
    let none = Seq::<InlineView>::empty();
    let text = plain_text(run);
    let t = text_node(text);
    let f = seq![t];
    lemma_texts_joined(syntax, ext_autolink, run, none);
    assert(run + none =~= run);
    assert(f + none =~= f);
    assert(f.skip(1) =~= none);
    assert(t.children =~= none);
    assert(consolidated(syntax, ext_autolink, none) =~= none);
    let r = consolidated(syntax, ext_autolink, f);
    if let Some(a) = (syntax.autolink)(text) {
        if ext_autolink && 0 <= a.start <= a.end <= text.len() && 0 < a.end {
            let rest = text.skip(a.end);
            let u = text_node(rest);
            let g = seq![u];
            assert(g.skip(1) =~= none);
            assert(u.children =~= none);
            assert(r =~= seq![text_node(text.take(a.start))] + autolinks_after(syntax, a, text));
            if a.end < text.len() {
                let more = consolidated(syntax, true, g);
                match valid_autolink(syntax, rest) {
                    Some(b) => {
                        assert(more =~= seq![text_node(rest.take(b.start))] + autolinks_after(
                            syntax,
                            b,
                            rest,
                        ));
                    },
                    None => {
                        assert(more =~= seq![u]);
                    },
                }
                assert(autolinks_after(syntax, a, text) =~= seq![a.link] + more);
                assert(r =~= seq![text_node(text.take(a.start)), a.link] + more);
            } else {
                assert(r =~= seq![text_node(text.take(a.start)), a.link] + none);
            }
        } else {
            assert(r =~= seq![t]);
        }
    } else {
        assert(r =~= seq![t]);
    }
}

/// A text that comes last holds no bare link, here and below, but for what is below links and
/// images.
pub open spec fn bare_links_gone(syntax: SyntaxView, f: Seq<InlineView>) -> bool
    decreases f,
{
    f.len() == 0 || {
        &&& f.len() == 1 && f[0].value is Text ==> valid_autolink(
            syntax,
            f[0].value->Text_0,
        ) is None
        &&& f[0].value is Link || f[0].value is Image || bare_links_gone(syntax, f[0].children)
        &&& bare_links_gone(syntax, f.skip(1))
    }
}

proof fn lemma_autolinks_gone(syntax: SyntaxView, a: AutolinkView, text: Seq<u8>)
    requires
        autolinks_link(syntax),
        is_bracket(a.link.value),
    ensures
        bare_links_gone(syntax, autolinks_after(syntax, a, text)),
        autolinks_after(syntax, a, text).len() > 0,
    decreases text.len(),
{
    let none = Seq::<InlineView>::empty();
    let f = autolinks_after(syntax, a, text);
    let rest = text.skip(a.end);
    assert(bare_links_gone(syntax, none));
    if 0 < a.end < text.len() {
        match valid_autolink(syntax, rest) {
            Some(b) => {
                assert((syntax.autolink)(rest) == Some(b));
                lemma_autolinks_gone(syntax, b, rest);
                let tail = autolinks_after(syntax, b, rest);
                let g = seq![text_node(rest.take(b.start))] + tail;
                assert(g.skip(1) =~= tail);
                assert(bare_links_gone(syntax, g));
                assert(f.skip(1) =~= g);
                assert(f[0] == a.link);
            },
            None => {
                let g = seq![text_node(rest)];
                assert(g.skip(1) =~= none);
                assert(bare_links_gone(syntax, g));
                assert(f.skip(1) =~= g);
                assert(f[0] == a.link);
            },
        }
    } else {
        assert(f.skip(1) =~= none);
    }
}

/// With bare links, no text that comes last in its list holds one afterwards, however deep the
/// list lies, but for what is below links and images.
pub proof fn law_bare_links_gone(syntax: SyntaxView, f: Seq<InlineView>)
    requires
        autolinks_link(syntax),
    ensures
        bare_links_gone(syntax, consolidated(syntax, true, f)),
        f.len() > 0 ==> consolidated(syntax, true, f).len() > 0,
    decreases forest_size(f),
{
    let none = Seq::<InlineView>::empty();
    assert(bare_links_gone(syntax, none));
    if f.len() > 0 {
        lemma_sizes(f);
        let x = f[0];
        let rest = f.skip(1);
        law_bare_links_gone(syntax, x.children);
        law_bare_links_gone(syntax, rest);
        let r = consolidated(syntax, true, f);
        let tail = consolidated(syntax, true, rest);
        match x.value {
            ValueView::Text(text) => if f.len() > 1 && f[1].value is Text {
                lemma_first_two_joined(f);
                law_bare_links_gone(syntax, first_two_joined(f));
            } else if f.len() == 1 {
                match valid_autolink(syntax, text) {
                    Some(a) => {
                        assert((syntax.autolink)(text) == Some(a));
                        lemma_autolinks_gone(syntax, a, text);
                        assert(r.skip(1) =~= autolinks_after(syntax, a, text));
                    },
                    None => {
                        assert(r.skip(1) =~= none);
                    },
                }
            } else {
                assert(r.skip(1) =~= tail);
            },
            _ => {
                assert(r.skip(1) =~= tail);
            },
        }
    }
}

} // verus!
