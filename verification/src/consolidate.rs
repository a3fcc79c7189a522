//! Runs of texts among inline nodes are made one, and bare links in them become links.
use crate::inlines::{
    forest_view, inline_view, syntax_view, Autolink, AutolinkView, Inline, InlineSyntax, InlineView,
    SyntaxView,
};
use crate::nodes::{InlineValue, ValueView};
use crate::strings::{copy_range, push_range};
use crate::tree::copy_bytes;
use vstd::prelude::*;
use vstd::slice::slice_subrange;

verus! {

/// The number of nodes in an inline node.
pub open spec fn inline_size(x: InlineView) -> nat
    decreases x,
{
    1 + forest_size(x.children)
}

/// The number of nodes in a list of inline nodes.
pub open spec fn forest_size(f: Seq<InlineView>) -> nat
    decreases f,
{
    if f.len() == 0 {
        0
    } else {
        inline_size(f[0]) + forest_size(f.skip(1))
    }
}

/// The bare link that a text holds, if its place lies within the text.
pub open spec fn valid_autolink(syntax: SyntaxView, text: Seq<u8>) -> Option<AutolinkView> {
    match (syntax.autolink)(text) {
        Some(a) => if 0 <= a.start <= a.end <= text.len() && 0 < a.end {
            Some(a)
        } else {
            None
        },
        None => None,
    }
}

/// What follows the text before the first bare link: the link, and what the rest gives.
pub open spec fn autolinks_after(syntax: SyntaxView, a: AutolinkView, text: Seq<u8>) -> Seq<
    InlineView,
>
    decreases text.len(),
{
    let rest = text.skip(a.end);
    if 0 < a.end < text.len() {
        seq![a.link] + match valid_autolink(syntax, rest) {
            Some(b) => seq![text_node(rest.take(b.start))] + autolinks_after(syntax, b, rest),
            None => seq![text_node(rest)],
        }
    } else {
        seq![a.link]
    }
}

pub open spec fn text_node(text: Seq<u8>) -> InlineView {
    InlineView { value: ValueView::Text(text), children: Seq::empty() }
}

/// The inline nodes with every run of texts made one. In a text that comes last, bare links
/// become links if `ext_autolink` is set. What is below links and images stays as it is.
pub open spec fn consolidated(
    syntax: SyntaxView,
    ext_autolink: bool,
    f: Seq<InlineView>,
) -> Seq<InlineView>
    decreases forest_size(f),
    via consolidated_decreases
{
    if f.len() == 0 {
        f
    } else {
        let x = f[0];
        let below = InlineView {
            children: consolidated(syntax, ext_autolink, x.children),
            ..x
        };
        match x.value {
            ValueView::Text(text) => if f.len() > 1 && f[1].value is Text {
                consolidated(
                    syntax,
                    ext_autolink,
                    seq![
                        InlineView {
                            value: ValueView::Text(text + f[1].value->Text_0),
                            children: x.children,
                        },
                    ] + f.skip(2),
                )
            } else if f.len() == 1 && ext_autolink {
                match valid_autolink(syntax, text) {
                    Some(a) => seq![
                        InlineView { value: ValueView::Text(text.take(a.start)), ..below },
                    ] + autolinks_after(syntax, a, text),
                    None => seq![below],
                }
            } else {
                seq![below] + consolidated(syntax, ext_autolink, f.skip(1))
            },
            ValueView::Link(_) | ValueView::Image(_) => seq![x] + consolidated(
                syntax,
                ext_autolink,
                f.skip(1),
            ),
            _ => seq![below] + consolidated(syntax, ext_autolink, f.skip(1)),
        }
    }
}

#[via_fn]
proof fn consolidated_decreases(syntax: SyntaxView, ext_autolink: bool, f: Seq<InlineView>) {
    if f.len() > 0 {
        assert(forest_size(f) == inline_size(f[0]) + forest_size(f.skip(1)));
        assert(inline_size(f[0]) == 1 + forest_size(f[0].children));
        if f.len() > 1 && f[0].value is Text && f[1].value is Text {
            let rest = f.skip(1);
            assert(forest_size(rest) == inline_size(rest[0]) + forest_size(rest.skip(1)));
            assert(rest.skip(1) =~= f.skip(2));
            let merged = InlineView {
                value: ValueView::Text(f[0].value->Text_0 + f[1].value->Text_0),
                children: f[0].children,
            };
            let g = seq![merged] + f.skip(2);
            assert(g[0] == merged);
            assert(g.skip(1) =~= f.skip(2));
            assert(forest_size(g) == inline_size(merged) + forest_size(g.skip(1)));
            assert(inline_size(merged) == inline_size(f[0]));
            assert(inline_size(rest[0]) > 0);
        }
    }
}

/// A link or an image, below which nothing is looked for.
pub open spec fn is_bracket(v: ValueView) -> bool {
    v is Link || v is Image
}

/// No two texts follow one another, here and below, but for what is below links and images.
pub open spec fn texts_apart(f: Seq<InlineView>) -> bool
    decreases f,
{
    f.len() == 0 || {
        &&& !(f.len() > 1 && f[0].value is Text && f[1].value is Text)
        &&& is_bracket(f[0].value) || texts_apart(f[0].children)
        &&& texts_apart(f.skip(1))
    }
}

/// What is found in place of a bare link is a link.
pub open spec fn autolinks_link(syntax: SyntaxView) -> bool {
    forall|text: Seq<u8>|
        (#[trigger] (syntax.autolink)(text)) matches Some(a) ==> is_bracket(a.link.value)
}

/// The texts have no nodes below them.
pub open spec fn texts_plain(f: Seq<InlineView>) -> bool
    decreases f,
{
    f.len() == 0 || {
        &&& f[0].value is Text ==> f[0].children.len() == 0
        &&& texts_plain(f[0].children)
        &&& texts_plain(f.skip(1))
    }
}

/// The texts of the nodes, one after the other.
pub open spec fn plain_text(f: Seq<InlineView>) -> Seq<u8>
    decreases f,
{
    if f.len() == 0 {
        Seq::empty()
    } else {
        let own = match f[0].value {
            ValueView::Text(text) => text,
            _ => Seq::empty(),
        };
        own + plain_text(f[0].children) + plain_text(f.skip(1))
    }
}

/// The two texts at the start of the list made one.
pub open spec fn first_two_joined(f: Seq<InlineView>) -> Seq<InlineView> {
    seq![
        InlineView {
            value: ValueView::Text(f[0].value->Text_0 + f[1].value->Text_0),
            children: f[0].children,
        },
    ] + f.skip(2)
}

/// Joining two texts makes the list smaller.
pub proof fn lemma_first_two_joined(f: Seq<InlineView>)
    requires
        f.len() > 1,
    ensures
        forest_size(first_two_joined(f)) < forest_size(f),
        first_two_joined(f)[0].children == f[0].children,
        first_two_joined(f).skip(1) == f.skip(1).skip(1),
{
    let g = first_two_joined(f);
    let rest = f.skip(1);
    assert(rest.skip(1) =~= f.skip(2));
    assert(g.skip(1) =~= f.skip(2));
    assert(forest_size(f) == inline_size(f[0]) + forest_size(rest));
    assert(forest_size(rest) == inline_size(rest[0]) + forest_size(rest.skip(1)));
    assert(forest_size(g) == inline_size(g[0]) + forest_size(g.skip(1)));
    assert(inline_size(g[0]) == 1 + forest_size(g[0].children));
    assert(inline_size(f[0]) == 1 + forest_size(f[0].children));
}

/// The parts of a list are smaller than it.
pub proof fn lemma_sizes(f: Seq<InlineView>)
    requires
        f.len() > 0,
    ensures
        forest_size(f[0].children) < forest_size(f),
        forest_size(f.skip(1)) < forest_size(f),
{
    assert(forest_size(f) == inline_size(f[0]) + forest_size(f.skip(1)));
    assert(inline_size(f[0]) == 1 + forest_size(f[0].children));
}

/// The first node is of the same kind as before.
proof fn lemma_consolidated_head(syntax: SyntaxView, ext_autolink: bool, f: Seq<InlineView>)
    requires
        f.len() > 0,
    ensures
        consolidated(syntax, ext_autolink, f).len() > 0,
        (consolidated(syntax, ext_autolink, f)[0].value is Text) == (f[0].value is Text),
    decreases forest_size(f),
{
    if f.len() > 1 && f[0].value is Text && f[1].value is Text {
        lemma_first_two_joined(f);
        lemma_consolidated_head(syntax, ext_autolink, first_two_joined(f));
        assert(first_two_joined(f)[0].value is Text);
    }
}

/// Bare links come one after the other, with texts between them.
proof fn lemma_autolinks_apart(syntax: SyntaxView, a: AutolinkView, text: Seq<u8>)
    requires
        autolinks_link(syntax),
        is_bracket(a.link.value),
    ensures
        texts_apart(autolinks_after(syntax, a, text)),
        autolinks_after(syntax, a, text).len() > 0,
        is_bracket(autolinks_after(syntax, a, text)[0].value),
    decreases text.len(),
{
    let f = autolinks_after(syntax, a, text);
    let rest = text.skip(a.end);
    let none = Seq::<InlineView>::empty();
    assert(texts_apart(none));
    if 0 < a.end < text.len() {
        match valid_autolink(syntax, rest) {
            Some(b) => {
                assert((syntax.autolink)(rest) == Some(b));
                lemma_autolinks_apart(syntax, b, rest);
                let head = text_node(rest.take(b.start));
                let tail = autolinks_after(syntax, b, rest);
                let g = seq![head] + tail;
                assert(g.skip(1) =~= tail);
                assert(g[1] == tail[0]);
                assert(texts_apart(g));
                assert(f.skip(1) =~= g);
                assert(f[0] == a.link);
            },
            None => {
                let g = seq![text_node(rest)];
                assert(g.skip(1) =~= none);
                assert(texts_apart(g));
                assert(f.skip(1) =~= g);
                assert(f[0] == a.link);
            },
        }
    } else {
        assert(f.skip(1) =~= none);
    }
}

/// Afterwards, no two texts follow one another.
pub proof fn law_texts_apart(syntax: SyntaxView, ext_autolink: bool, f: Seq<InlineView>)
    requires
        ext_autolink ==> autolinks_link(syntax),
    ensures
        texts_apart(consolidated(syntax, ext_autolink, f)),
    decreases forest_size(f),
{
    if f.len() > 0 {
        lemma_sizes(f);
        let x = f[0];
        let rest = f.skip(1);
        let none = Seq::<InlineView>::empty();
        assert(texts_apart(none));
        law_texts_apart(syntax, ext_autolink, x.children);
        law_texts_apart(syntax, ext_autolink, rest);
        let r = consolidated(syntax, ext_autolink, f);
        let tail = consolidated(syntax, ext_autolink, rest);
        if rest.len() > 0 {
            lemma_consolidated_head(syntax, ext_autolink, rest);
            assert(rest[0] == f[1]);
        }
        match x.value {
            ValueView::Text(text) => if f.len() > 1 && f[1].value is Text {
                lemma_first_two_joined(f);
                law_texts_apart(syntax, ext_autolink, first_two_joined(f));
            } else if f.len() == 1 && ext_autolink {
                match valid_autolink(syntax, text) {
                    Some(a) => {
                        assert((syntax.autolink)(text) == Some(a));
                        lemma_autolinks_apart(syntax, a, text);
                        let links = autolinks_after(syntax, a, text);
                        assert(r.skip(1) =~= links);
                        assert(r[1] == links[0]);
                    },
                    None => {
                        assert(r.skip(1) =~= none);
                    },
                }
            } else {
                assert(r.skip(1) =~= tail);
                assert(tail.len() > 0 ==> r[1] == tail[0]);
            },
            _ => {
                assert(r.skip(1) =~= tail);
            },
        }
    }
}

/// Without bare links, it does not matter what is one.
pub proof fn law_autolinks_need_the_extension(
    a: SyntaxView,
    b: SyntaxView,
    f: Seq<InlineView>,
)
    ensures
        consolidated(a, false, f) == consolidated(b, false, f),
    decreases forest_size(f),
{
    if f.len() > 0 {
        lemma_sizes(f);
        law_autolinks_need_the_extension(a, b, f[0].children);
        law_autolinks_need_the_extension(a, b, f.skip(1));
        if f.len() > 1 && f[0].value is Text && f[1].value is Text {
            lemma_first_two_joined(f);
            law_autolinks_need_the_extension(a, b, first_two_joined(f));
        }
    }
}

/// Where no two texts follow one another, there is nothing to do.
proof fn lemma_apart_fixed(syntax: SyntaxView, f: Seq<InlineView>)
    requires
        texts_apart(f),
    ensures
        consolidated(syntax, false, f) == f,
    decreases forest_size(f),
{
    if f.len() > 0 {
        lemma_sizes(f);
        if !is_bracket(f[0].value) {
            lemma_apart_fixed(syntax, f[0].children);
        }
        lemma_apart_fixed(syntax, f.skip(1));
        assert(seq![f[0]] + f.skip(1) =~= f);
    }
}

/// Without bare links, doing it twice is doing it once.
pub proof fn law_consolidated_once(syntax: SyntaxView, f: Seq<InlineView>)
    ensures
        consolidated(syntax, false, consolidated(syntax, false, f)) == consolidated(
            syntax,
            false,
            f,
        ),
{
    law_texts_apart(syntax, false, f);
    lemma_apart_fixed(syntax, consolidated(syntax, false, f));
}

/// Without bare links, no text is lost and none is moved.
pub proof fn law_text_kept(syntax: SyntaxView, f: Seq<InlineView>)
    requires
        texts_plain(f),
    ensures
        plain_text(consolidated(syntax, false, f)) == plain_text(f),
    decreases forest_size(f),
{
    if f.len() > 0 {
        lemma_sizes(f);
        let x = f[0];
        let rest = f.skip(1);
        let r = consolidated(syntax, false, f);
        let tail = consolidated(syntax, false, rest);
        law_text_kept(syntax, x.children);
        law_text_kept(syntax, rest);
        match x.value {
            ValueView::Text(text) => if f.len() > 1 && f[1].value is Text {
                let g = first_two_joined(f);
                lemma_first_two_joined(f);
                assert(rest[0] == f[1]);
                assert(texts_plain(rest));
                assert(rest[0].children.len() == 0 && texts_plain(rest.skip(1)));
                assert(texts_plain(g[0].children));
                assert(texts_plain(g));
                law_text_kept(syntax, g);
                let more = f[1].value->Text_0;
                let none = Seq::<u8>::empty();
                assert(plain_text(f[0].children) =~= none);
                assert(plain_text(f[1].children) =~= none);
                assert(plain_text(rest) =~= more + none + plain_text(rest.skip(1)));
                assert(plain_text(g) =~= (text + more) + none + plain_text(g.skip(1)));
                assert(plain_text(f) =~= text + none + plain_text(rest));
                assert(plain_text(g) =~= plain_text(f));
            } else {
                assert(r.skip(1) =~= tail);
            },
            _ => {
                assert(r.skip(1) =~= tail);
            },
        }
    }
}

/// One more inline node in a list.
proof fn lemma_forest_push(f: Seq<Inline>, x: Inline)
    ensures
        forest_view(f.push(x)) == forest_view(f).push(inline_view(x)),
{
    assert(forest_view(f.push(x)) =~= forest_view(f).push(inline_view(x)));
}

fn make_text(text: Vec<u8>) -> (r: Inline)
    ensures
        inline_view(r) == text_node(text@),
{
    let r: Inline = Inline { value: InlineValue::Text(text), children: Vec::new() };
    assert(inline_view(r).children =~= Seq::<InlineView>::empty());
    r
}

/// The first bare link in `text`, if its place lies within the text.
fn find_autolink<S: InlineSyntax>(syntax: &S, text: &[u8]) -> (r: Option<Autolink>)
    ensures
        match r {
            Some(a) => valid_autolink(syntax_view(syntax), text@) == Some(a@) && a.start
                <= a.end <= text@.len() && 0 < a.end,
            None => valid_autolink(syntax_view(syntax), text@) is None,
        },
{
    match syntax.process_autolinks(text) {
        Some(a) => if a.start <= a.end && a.end <= text.len() && 0 < a.end {
            Some(a)
        } else {
            None
        },
        None => None,
    }
}

/// Adds the bare link `a` of `text`, and what the rest of the text gives.
fn push_autolinks<S: InlineSyntax>(syntax: &S, a: Autolink, text: Vec<u8>, out: &mut Vec<Inline>)
    requires
        a.end <= text@.len(),
        0 < a.end,
    ensures
        forest_view(final(out)@) == forest_view(old(out)@) + autolinks_after(
            syntax_view(syntax),
            a@,
            text@,
        ),
{
    let ghost sv = syntax_view(syntax);
    let ghost before = forest_view(out@);
    let ghost av = a@;
    let len: usize = text.len();
    let mut next: Autolink = a;
    let mut base: usize = 0;
    assert(text@.skip(0) =~= text@);
    loop
        invariant
            sv == syntax_view(syntax),
            before == forest_view(old(out)@),
            av == a@,
            len == text@.len(),
            base < base + next.end <= len,
            forest_view(out@) + autolinks_after(sv, next@, text@.skip(base as int)) == before
                + autolinks_after(sv, av, text@),
        decreases len - base,
    {
        let ghost done = forest_view(out@);
        let ghost here = text@.skip(base as int);
        let ghost nv = next@;
        let end: usize = base + next.end;
        proof {
            lemma_forest_push(out@, next.link);
        }
        out.push(next.link);
        if end == len {
            assert(forest_view(out@) =~= done + autolinks_after(sv, nv, here));
            return ;
        }
        let rest: &[u8] = slice_subrange(text.as_slice(), end, len);
        assert(rest@ =~= here.skip(nv.end));
        assert(rest@ =~= text@.skip(end as int));
        match find_autolink(syntax, rest) {
            Some(b) => {
                let head: Inline = make_text(copy_range(rest, 0, b.start));
                assert(rest@.subrange(0, b.start as int) =~= rest@.take(b.start as int));
                proof {
                    lemma_forest_push(out@, head);
                }
                out.push(head);
                assert(forest_view(out@) + autolinks_after(sv, b@, rest@) =~= done
                    + autolinks_after(sv, nv, here));
                next = b;
                base = end;
            },
            None => {
                let last: Inline = make_text(copy_range(rest, 0, rest.len()));
                assert(rest@.subrange(0, rest@.len() as int) =~= rest@);
                proof {
                    lemma_forest_push(out@, last);
                }
                out.push(last);
                assert(forest_view(out@) =~= done + autolinks_after(sv, nv, here));
                return ;
            },
        }
    }
}

/// Makes every run of texts one text, all the way down, and finds bare links in the texts that
/// come last.
pub fn consolidate_text_nodes<S: InlineSyntax>(
    syntax: &S,
    ext_autolink: bool,
    f: &Vec<Inline>,
) -> (r: Vec<Inline>)
    ensures
        forest_view(r@) == consolidated(syntax_view(syntax), ext_autolink, forest_view(f@)),
    decreases f,
{
    let ghost sv = syntax_view(syntax);
    let ghost views = forest_view(f@);
    let mut out: Vec<Inline> = Vec::new();
    let mut i: usize = 0;
    assert(forest_view(out@) =~= Seq::<InlineView>::empty());
    assert(views.skip(0) =~= views);
    while i < f.len()
        invariant
            i <= f@.len(),
            sv == syntax_view(syntax),
            views == forest_view(f@),
            consolidated(sv, ext_autolink, views) == forest_view(out@) + consolidated(
                sv,
                ext_autolink,
                views.skip(i as int),
            ),
        decreases f@.len() - i,
    {
        let ghost before = forest_view(out@);
        let ghost rest = views.skip(i as int);
        let x: &Inline = &f[i];
        let ghost xv = inline_view(*x);
        assert(rest[0] == xv);
        assert(rest.skip(1) =~= views.skip(i + 1));
        assert(decreases_to!(f => f@[i as int].children));
        assert(xv.children =~= forest_view(x.children@));
        match &x.value {
            InlineValue::Text(first) => {
                let mut text: Vec<u8> = copy_bytes(first);
                let mut j: usize = i + 1;
                let ghost g = rest;
                assert(rest =~= seq![
                    InlineView { value: ValueView::Text(text@), children: xv.children },
                ] + views.skip(j as int));
                while j < f.len() && is_text(&f[j])
                    invariant
                        i < j <= f@.len(),
                        views == forest_view(f@),
                        consolidated(sv, ext_autolink, rest) == consolidated(
                            sv,
                            ext_autolink,
                            seq![
                                InlineView {
                                    value: ValueView::Text(text@),
                                    children: xv.children,
                                },
                            ] + views.skip(j as int),
                        ),
                    decreases f@.len() - j,
                {
                    let ghost h = seq![
                        InlineView { value: ValueView::Text(text@), children: xv.children },
                    ] + views.skip(j as int);
                    let ghost adj = inline_view(f@[j as int]);
                    assert(h[1] == adj);
                    assert(h.skip(2) =~= views.skip(j + 1));
                    match &f[j].value {
                        InlineValue::Text(more) => {
                            push_range(&mut text, more.as_slice(), 0, more.len());
                            assert(more@.subrange(0, more@.len() as int) =~= more@);
                            assert(text@ == h[0].value->Text_0 + adj.value->Text_0);
                        },
                        _ => {},
                    }
                    j += 1;
                }
                let ghost h = seq![
                    InlineView { value: ValueView::Text(text@), children: xv.children },
                ] + views.skip(j as int);
                assert(h.skip(1) =~= views.skip(j as int));
                assert(j < f@.len() ==> h[1] == inline_view(f@[j as int]));
                let children: Vec<Inline> = consolidate_text_nodes(
                    syntax,
                    ext_autolink,
                    &x.children,
                );
                if j == f.len() && ext_autolink {
                    match find_autolink(syntax, text.as_slice()) {
                        Some(a) => {
                            let head: Inline = Inline {
                                value: InlineValue::Text(copy_range(text.as_slice(), 0, a.start)),
                                children,
                            };
                            assert(text@.subrange(0, a.start as int) =~= text@.take(
                                a.start as int,
                            ));
                            assert(inline_view(head).children =~= forest_view(children@));
                            proof {
                                lemma_forest_push(out@, head);
                            }
                            let ghost av = a@;
                            out.push(head);
                            push_autolinks(syntax, a, text, &mut out);
                            assert(forest_view(out@) =~= before + consolidated(
                                sv,
                                ext_autolink,
                                h,
                            ));
                            return out;
                        },
                        None => {},
                    }
                }
                let below: Inline = Inline { value: InlineValue::Text(text), children };
                assert(inline_view(below).children =~= forest_view(children@));
                proof {
                    lemma_forest_push(out@, below);
                    assert(consolidated(sv, ext_autolink, Seq::<InlineView>::empty())
                        =~= Seq::<InlineView>::empty());
                    assert(h.len() == 1 ==> views.skip(j as int) =~= Seq::<InlineView>::empty());
                }
                out.push(below);
                assert(forest_view(out@) + consolidated(sv, ext_autolink, views.skip(j as int))
                    =~= before + consolidated(sv, ext_autolink, h));
                i = j;
            },
            InlineValue::Link(_) | InlineValue::Image(_) => {
                let copy: Inline = duplicate(x);
                proof {
                    lemma_forest_push(out@, copy);
                }
                out.push(copy);
                i += 1;
                assert(forest_view(out@) + consolidated(sv, ext_autolink, views.skip(i as int))
                    =~= before + consolidated(sv, ext_autolink, rest));
            },
            _ => {
                let children: Vec<Inline> = consolidate_text_nodes(
                    syntax,
                    ext_autolink,
                    &x.children,
                );
                let below: Inline = Inline { value: x.value.duplicate(), children };
                assert(inline_view(below).children =~= forest_view(children@));
                proof {
                    lemma_forest_push(out@, below);
                }
                out.push(below);
                i += 1;
                assert(forest_view(out@) + consolidated(sv, ext_autolink, views.skip(i as int))
                    =~= before + consolidated(sv, ext_autolink, rest));
            },
        }
    }
    assert(views.skip(i as int) =~= Seq::<InlineView>::empty());
    assert(consolidated(sv, ext_autolink, views.skip(i as int)) =~= Seq::<InlineView>::empty());
    assert(forest_view(out@) + Seq::<InlineView>::empty() =~= forest_view(out@));
    out
}

fn is_text(x: &Inline) -> (r: bool)
    ensures
        r == (inline_view(*x).value is Text),
{
    match &x.value {
        InlineValue::Text(_) => true,
        _ => false,
    }
}

/// A copy of an inline node and everything below it.
fn duplicate(x: &Inline) -> (r: Inline)
    ensures
        inline_view(r) == inline_view(*x),
    decreases x,
{
    let mut children: Vec<Inline> = Vec::new();
    let mut i: usize = 0;
    while i < x.children.len()
        invariant
            i <= x.children@.len(),
            forest_view(children@) == forest_view(x.children@).take(i as int),
        decreases x.children@.len() - i,
    {
        assert(decreases_to!(x => x.children@[i as int]));
        let copy: Inline = duplicate(&x.children[i]);
        proof {
            lemma_forest_push(children@, copy);
        }
        children.push(copy);
        i += 1;
        assert(forest_view(children@) =~= forest_view(x.children@).take(i as int));
    }
    let r: Inline = Inline { value: x.value.duplicate(), children };
    assert(inline_view(r).children =~= inline_view(*x).children) by {
        assert(forest_view(children@) =~= forest_view(x.children@));
        assert(inline_view(r).children =~= forest_view(children@));
        assert(inline_view(*x).children =~= forest_view(x.children@));
    }
    r
}

} // verus!
