//! What a block is once it is closed: where it ends, what its text has become, and what it has
//! defined.
use crate::inlines::{info_cleaned, title_cleaned, url_cleaned, SyntaxView};
use crate::model::{chomped_len, defined, references_taken, ParserView};
use crate::nodes::{AstView, CodeBlockView, HtmlBlockView, LinkView, NodeList, ValueView};
use crate::references::{after_line_end, definition, DefinitionView};
use crate::strings::{
    blank_text, find_line_end, law_blank_lines_dropped, law_trimmed, lemma_find_line_end, line_end,
    trim_ended, unescaped, white_space,
};
use crate::tree::{
    child_index, lemma_child_index, lemma_with_ast_ok, lemma_with_ast_twice, with_ast,
};
use vstd::prelude::*;

verus! {

/// The bytes end a line, or there are none.
pub open spec fn line_ending(e: Seq<u8>) -> bool {
    e =~= seq![] || e =~= seq![10u8] || e =~= seq![13u8] || e =~= seq![13u8, 10u8]
}

/// A line's length is that of its text, whatever ends it.
pub proof fn law_line_length(text: Seq<u8>, e: Seq<u8>)
    requires
        line_ending(e),
        text.len() > 0 ==> text.last() != 10 && text.last() != 13,
    ensures
        chomped_len(text + e) == text.len(),
{
    let s = text + e;
    if e.len() == 0 {
        assert(s =~= text);
    } else {
        assert(s.last() == e.last());
        if e.len() == 2 {
            assert(s[s.len() - 2] == 13);
        }
        if text.len() > 0 {
            assert(s[text.len() - 1] == text.last());
        }
    }
}

/// A block that is closed ends where the line before ended. If the line that is being read is its
/// last one, or there is none, it ends there: a document, a fenced code block and an underlined
/// heading do. What is known of its start stays, and so does whether a blank line ends it.
pub proof fn law_closed_where(p: ParserView, n: usize, text: Seq<u8>, e: Seq<u8>)
    requires
        p.ok(),
        n < p.tree.len(),
        p.linebuf == text + e,
        line_ending(e),
        text.len() > 0 ==> text.last() != 10 && text.last() != 13,
        p.linebuf.len() <= usize::MAX,
        p.line_number > 0 || p.linebuf.len() == 0,
    ensures
        ({
            let before = p.tree[n as int].ast;
            let ast = p.finalized(n).tree[n as int].ast;
            let last_line = match before.value {
                ValueView::Document => true,
                ValueView::CodeBlock(ncb) => ncb.fenced,
                ValueView::Heading(nh) => nh.setext,
                _ => false,
            };
            &&& !ast.open
            &&& ast.start_line == before.start_line && ast.start_column == before.start_column
            &&& ast.last_line_blank == before.last_line_blank
            &&& p.linebuf.len() == 0 ==> ast.end_line == p.line_number && ast.end_column
                == p.last_line_length
            &&& p.linebuf.len() > 0 && last_line ==> ast.end_line == p.line_number
                && ast.end_column == text.len()
            &&& p.linebuf.len() > 0 && !last_line ==> ast.end_line == p.line_number - 1
                && ast.end_column == p.last_line_length
        }),
{
    reveal(ParserView::finalized);
    law_line_length(text, e);
    let before = p.tree[n as int].ast;
    if before.value is Paragraph {
        let (content, refmap) = references_taken(p.syntax, before.content, p.refmap);
        let t = with_ast(p.tree, n, AstView { content, ..p.closed(before) });
        lemma_with_ast_ok(p.tree, n, AstView { content, ..p.closed(before) });
        if t[n as int].parent is Some {
            lemma_child_index(t, n);
        }
    }
}

/// Fenced code is what follows its first line. That line, cleaned up, is the info string.
pub proof fn law_fenced_code_closed(
    p: ParserView,
    n: usize,
    info: Seq<u8>,
    e: Seq<u8>,
    body: Seq<u8>,
)
    requires
        p.ok(),
        n < p.tree.len(),
        p.value(n) is CodeBlock,
        p.value(n)->CodeBlock_0.fenced,
        p.tree[n as int].ast.content == info + e + body,
        forall|k: int| 0 <= k < info.len() ==> #[trigger] info[k] != 10 && info[k] != 13,
        line_ending(e),
        e.len() == 0 ==> body.len() == 0,
        e =~= seq![13u8] ==> body.len() == 0 || body[0] != 10,
    ensures
        ({
            let ast = p.finalized(n).tree[n as int].ast;
            &&& ast.content.len() == 0
            &&& ast.value == ValueView::CodeBlock(
                CodeBlockView {
                    info: info_cleaned(p.syntax, info),
                    literal: body,
                    ..p.value(n)->CodeBlock_0
                },
            )
        }),
{
    reveal(ParserView::finalized);
    let s = info + e + body;
    let f = find_line_end(s, 0);
    lemma_find_line_end(s, 0);
    let m = info.len() as int;
    assert forall|k: int| 0 <= k < m implies !line_end(#[trigger] s[k]) by {
        assert(s[k] == info[k]);
    }
    if f < m {
        assert(!line_end(s[f]));
    }
    if e.len() > 0 {
        assert(s[m] == e[0]);
        if e.len() == 1 && body.len() > 0 {
            assert(s[m + 1] == body[0]);
        }
        if e.len() == 2 {
            assert(s[m + 1] == e[1]);
        }
    }
    assert(f == m);
    assert(s.take(m) =~= info);
    assert(after_line_end(s, m) == m + e.len());
    assert(s.skip(m + e.len()) =~= body);
}

/// Indented code loses the blank lines at its end, and ends in one line feed.
pub proof fn law_indented_code_closed(p: ParserView, n: usize, s: Seq<u8>, k: int, w: Seq<u8>)
    requires
        p.ok(),
        n < p.tree.len(),
        p.value(n) is CodeBlock,
        !p.value(n)->CodeBlock_0.fenced,
        p.tree[n as int].ast.content == s + w,
        0 <= k < s.len(),
        s[k] != 32 && s[k] != 9 && s[k] != 10 && s[k] != 13,
        forall|m: int| k < m < s.len() ==> #[trigger] s[m] == 32 || s[m] == 9,
        w.len() > 0,
        w[0] == 10 || w[0] == 13,
        forall|m: int|
            0 <= m < w.len() ==> #[trigger] w[m] == 32 || w[m] == 9 || w[m] == 10 || w[m] == 13,
    ensures
        ({
            let ast = p.finalized(n).tree[n as int].ast;
            &&& ast.content.len() == 0
            &&& ast.value == ValueView::CodeBlock(
                CodeBlockView { literal: s + seq![10u8], ..p.value(n)->CodeBlock_0 },
            )
        }),
{
    reveal(ParserView::finalized);
    law_blank_lines_dropped(s, k, w);
    assert(s.push(10) =~= s + seq![10u8]);
}

/// Raw HTML is the text that was gathered for it, all of it.
pub proof fn law_html_closed(p: ParserView, n: usize)
    requires
        p.ok(),
        n < p.tree.len(),
        p.value(n) is HtmlBlock,
    ensures
        ({
            let ast = p.finalized(n).tree[n as int].ast;
            &&& ast.content.len() == 0
            &&& ast.value == ValueView::HtmlBlock(
                HtmlBlockView {
                    block_type: p.value(n)->HtmlBlock_0.block_type,
                    literal: p.tree[n as int].ast.content,
                },
            )
        }),
{
    reveal(ParserView::finalized);
}

/// Of a list, only whether it is tight changes. Any other block keeps its value and its text.
pub proof fn law_others_closed(p: ParserView, n: usize)
    requires
        p.ok(),
        n < p.tree.len(),
        !(p.value(n) is CodeBlock),
        !(p.value(n) is HtmlBlock),
        !(p.value(n) is Paragraph),
    ensures
        ({
            let before = p.tree[n as int].ast;
            let ast = p.finalized(n).tree[n as int].ast;
            &&& ast.content == before.content
            &&& !(before.value is List) ==> ast.value == before.value
            &&& before.value matches ValueView::List(nl) ==> ast.value matches ValueView::List(
                ml,
            ) && ml == NodeList { tight: ml.tight, ..nl }
            &&& p.finalized(n).refmap == p.refmap
        }),
{
    reveal(ParserView::finalized);
}

/// A paragraph that does not start with a definition keeps its text. If that is blank, the
/// paragraph leaves the tree, and its siblings stay in their order.
pub proof fn law_paragraph_closed(p: ParserView, n: usize)
    requires
        p.ok(),
        n < p.tree.len(),
        p.value(n) is Paragraph,
        p.parent(n) is Some,
        definition(p.tree[n as int].ast.content) is None,
    ensures
        ({
            let q = p.finalized(n);
            let content = p.tree[n as int].ast.content;
            let above = p.parent(n)->0;
            let siblings = p.tree[above as int].children;
            &&& q.refmap == p.refmap
            &&& q.tree[n as int].ast.content == content
            &&& q.value(n) is Paragraph
            &&& !blank_text(content) ==> q.parent(n) == Some(above)
                && q.tree[above as int].children == siblings
            &&& blank_text(content) ==> q.parent(n) is None && exists|k: int|
                #![trigger siblings[k]]
                0 <= k < siblings.len() && siblings[k] == n && q.tree[above as int].children
                    == siblings.take(k) + siblings.skip(k + 1)
        }),
{
    reveal(ParserView::finalized);
    let before = p.tree[n as int].ast;
    let ast = AstView { content: before.content, ..p.closed(before) };
    let t = with_ast(p.tree, n, ast);
    lemma_with_ast_ok(p.tree, n, ast);
    lemma_child_index(p.tree, n);
    lemma_child_index(t, n);
    let above = p.parent(n)->0;
    let siblings = p.tree[above as int].children;
    let k = child_index(t, n);
    assert(t[above as int].children == siblings);
    assert(siblings.remove(k) =~= siblings.take(k) + siblings.skip(k + 1));
    if blank_text(before.content) {
        assert(siblings[k] == n);
        assert(p.finalized(n).tree[above as int].children == siblings.remove(k));
    }
}

/// A definition at the start of a paragraph is taken off it, and closing goes on with the rest.
pub proof fn law_definition_taken(p: ParserView, n: usize, d: DefinitionView)
    requires
        p.ok(),
        n < p.tree.len(),
        p.value(n) is Paragraph,
        definition(p.tree[n as int].ast.content) == Some(d),
        0 < d.end <= p.tree[n as int].ast.content.len(),
    ensures
        ({
            let before = p.tree[n as int].ast;
            let rest = ParserView {
                tree: with_ast(
                    p.tree,
                    n,
                    AstView { content: before.content.skip(d.end), ..before },
                ),
                refmap: defined(p.syntax, p.refmap, d),
                ..p
            };
            p.finalized(n) == rest.finalized(n)
        }),
{
    reveal(ParserView::finalized);
    let before = p.tree[n as int].ast;
    let cut = AstView { content: before.content.skip(d.end), ..before };
    let (content, refmap) = references_taken(p.syntax, before.content, p.refmap);
    assert(references_taken(p.syntax, cut.content, defined(p.syntax, p.refmap, d)) == (
        content,
        refmap,
    ));
    lemma_with_ast_twice(p.tree, n, cut, AstView { content, ..p.closed(before) });
    assert(AstView { content, ..p.closed(cut) } == AstView { content, ..p.closed(before) });
}

/// A definition adds one reference, under the normalized form of its label. If that form is empty
/// or has a reference already, nothing is added. No other reference changes.
pub proof fn law_defined(
    syntax: SyntaxView,
    refmap: Map<Seq<u8>, LinkView>,
    d: DefinitionView,
    key: Seq<u8>,
)
    ensures
        ({
            let m = defined(syntax, refmap, d);
            let label = (syntax.label)(d.label);
            &&& key != label ==> m.contains_key(key) == refmap.contains_key(key)
            &&& refmap.contains_key(key) ==> m.contains_key(key) && m[key] == refmap[key]
            &&& label.len() == 0 ==> m == refmap
            &&& label.len() > 0 && !refmap.contains_key(label) ==> m.contains_key(label)
                && m[label].url == url_cleaned(syntax, d.url) && m[label].title == title_cleaned(
                syntax,
                d.title,
            )
        }),
{
}

/// A link destination loses the white space around it and its angle brackets. Then character
/// references and escapes are resolved, in this order.
pub proof fn law_url_cleaned(syntax: SyntaxView, a: Seq<u8>, s: Seq<u8>, b: Seq<u8>)
    requires
        white_space(a),
        white_space(b),
        trim_ended(s),
    ensures
        s.len() == 0 ==> url_cleaned(syntax, a + s + b).len() == 0,
        s.len() > 0 && !(s[0] == 60 && s.last() == 62) ==> url_cleaned(syntax, a + s + b)
            == unescaped((syntax.entities)(s)),
        url_cleaned(syntax, a + (seq![60u8] + s + seq![62u8]) + b) == unescaped(
            (syntax.entities)(s),
        ),
{
    law_trimmed(a, s, b);
    let t = seq![60u8] + s + seq![62u8];
    assert(t.last() == 62);
    law_trimmed(a, t, b);
    assert(t.subrange(1, t.len() - 1) =~= s);
}

/// A title loses its delimiters. Then character references and escapes are resolved, in this
/// order.
pub proof fn law_title_cleaned(syntax: SyntaxView, open: u8, s: Seq<u8>, close: u8)
    requires
        open == 34 && close == 34 || open == 39 && close == 39 || open == 40 && close == 41,
    ensures
        title_cleaned(syntax, seq![open] + s + seq![close]) == unescaped((syntax.entities)(s)),
        title_cleaned(syntax, Seq::empty()).len() == 0,
{
    let t = seq![open] + s + seq![close];
    assert(t.last() == close);
    assert(t.subrange(1, t.len() - 1) =~= s);
}

/// An info string has its character references resolved first. Then the white space around it
/// goes, and the escapes are resolved.
pub proof fn law_info_cleaned(
    syntax: SyntaxView,
    info: Seq<u8>,
    a: Seq<u8>,
    s: Seq<u8>,
    b: Seq<u8>,
)
    requires
        (syntax.entities)(info) == a + s + b,
        white_space(a),
        white_space(b),
        trim_ended(s),
    ensures
        info_cleaned(syntax, info) == unescaped(s),
{
    law_trimmed(a, s, b);
}

} // verus!
