//! The texts of a document are UTF-8, as the input is: every step keeps them so.
use crate::consolidate::{
    autolinks_after, consolidated, first_two_joined, forest_size, lemma_first_two_joined,
    lemma_sizes, text_node, valid_autolink,
};
use crate::ctype::{is_space, lower};
use crate::cursor::{
    lemma_advance_indent, lemma_advance_marker, lemma_advance_one, lemma_advance_to,
    lemma_advance_within, lemma_find_first_nonspace, line_ok, tab_width, CursorView, CODE_INDENT,
};
use crate::document::{subtree, DocumentView};
use crate::inlines::{
    inline_forest, inline_node, label_folded, syntax_view, title_cleaned, title_delimiters,
    url_cleaned, AutolinkView, InlineSyntax, InlineView, PlainText, SyntaxView,
};
use crate::list_marker::{lemma_list_marker, same_kind};
use crate::model::{
    break_or_item, cells_appended, cells_fitted, code_finished, defined, fence_indent_skipped,
    fenced_code, indented_code, item_contents, line_text, marked_start, marker_padding,
    references_taken, BlockStart, ParserView,
};
use crate::nodes::{
    new_block, new_inline, AstView, CodeBlockView, HtmlBlockView, LinkView, NodeHeading, NodeList,
    ValueView,
};
use crate::options::ComrakOptions;
use crate::preserved::{
    lemma_blank_noted, lemma_block_start, lemma_cells_len, lemma_child_added, lemma_climbed,
    lemma_closed_up_to, lemma_continued, lemma_finalized, opening, same_variant, text_ready,
};
use crate::references::{definition, DefinitionView};
use crate::scanners::{atx_start, fence_start, lemma_atx_start, lemma_fence_start};
use crate::strings::{
    blank_lines_dropped, find_line_end, hashtags_chopped, lemma_skip_blanks, lemma_skip_run,
    rtrimmed, skip_run, space_or_tab, trimmed,
};
use crate::table::{row_cells, table_opened};
use crate::tree::{
    appended, detached, forest_appended, inline_appended, last_child, lemma_child_place,
    lemma_detached_ok, lemma_forest_grows, lemma_inline_grows, lemma_parent, lemma_replaced_ok,
    lemma_with_ast_ok, list_is_loose, replaced, tree_ok, with_ast, NodeView,
};
use crate::utf8::{
    all_utf8, char_start, is_utf8, lemma_utf8_around, lemma_utf8_ascii, lemma_utf8_blank_lines,
    lemma_utf8_chopped, lemma_utf8_cut, lemma_utf8_definition, lemma_utf8_empty, lemma_utf8_first,
    lemma_utf8_first_line, lemma_utf8_joined, lemma_utf8_mark, lemma_utf8_onward, lemma_utf8_part,
    lemma_utf8_push, lemma_utf8_row, lemma_utf8_rtrimmed, lemma_utf8_trimmed, lemma_utf8_unescaped,
};
use vstd::prelude::*;

verus! {

pub open spec fn link_utf8(link: LinkView) -> bool {
    is_utf8(link.url) && is_utf8(link.title)
}

/// The labels, destinations and titles of all references are UTF-8.
pub open spec fn refs_utf8(m: Map<Seq<u8>, LinkView>) -> bool {
    forall|label: Seq<u8>| #[trigger]
        m.contains_key(label) ==> is_utf8(label) && link_utf8(m[label])
}

/// The texts in the value are UTF-8. Of those that the rules for inline nodes have a part in,
/// this is said only where the rules `keep` texts UTF-8.
pub open spec fn value_utf8(v: ValueView, keep: bool) -> bool {
    match v {
        ValueView::CodeBlock(ncb) => is_utf8(ncb.literal) && (keep ==> is_utf8(ncb.info)),
        ValueView::HtmlBlock(nhb) => is_utf8(nhb.literal),
        ValueView::Text(text) | ValueView::Code(text) | ValueView::HtmlInline(text) => keep
            ==> is_utf8(text),
        ValueView::Link(link) | ValueView::Image(link) => keep ==> link_utf8(link),
        _ => true,
    }
}

pub open spec fn ast_utf8(ast: AstView, keep: bool) -> bool {
    is_utf8(ast.content) && value_utf8(ast.value, keep)
}

/// The texts of all nodes are UTF-8.
#[verifier::opaque]
pub open spec fn tree_utf8(t: Seq<NodeView>, keep: bool) -> bool {
    forall|n: int| #![trigger t[n]] 0 <= n < t.len() ==> ast_utf8(t[n].ast, keep)
}

/// The texts of a document are UTF-8.
pub open spec fn document_utf8(d: DocumentView, keep: bool) -> bool
    decreases d,
{
    &&& ast_utf8(d.ast, keep)
    &&& forall|k: int|
        0 <= k < d.children.len() ==> document_utf8(#[trigger] d.children[k], keep)
}

/// The texts of an inline node, and of everything below it, are UTF-8.
pub open spec fn inline_utf8(x: InlineView) -> bool
    decreases x,
{
    &&& value_utf8(x.value, true)
    &&& forall|k: int| 0 <= k < x.children.len() ==> inline_utf8(#[trigger] x.children[k])
}

pub open spec fn forest_utf8(f: Seq<InlineView>) -> bool {
    forall|k: int| 0 <= k < f.len() ==> inline_utf8(#[trigger] f[k])
}

/// The rules for inline nodes keep texts UTF-8: where they are given UTF-8, they give UTF-8, and
/// a bare link starts and ends where a character does.
#[verifier::opaque]
pub open spec fn keeps_utf8(syntax: SyntaxView) -> bool {
    &&& forall|text: Seq<u8>|
        is_utf8(text) ==> is_utf8(#[trigger] (syntax.entities)(text))
    &&& forall|label: Seq<u8>| is_utf8(label) ==> is_utf8(#[trigger] (syntax.label)(label))
    &&& forall|text: Seq<u8>, refmap: Map<Seq<u8>, LinkView>, options: ComrakOptions|
        is_utf8(text) && refs_utf8(refmap) ==> forest_utf8(
            #[trigger] (syntax.inlines)(text, refmap, options),
        )
    &&& forall|text: Seq<u8>|
        is_utf8(text) ==> ((#[trigger] valid_autolink(syntax, text)) matches Some(a) ==> {
            &&& inline_utf8(a.link)
            &&& char_start(text, a.start)
            &&& char_start(text, a.end)
        })
}

/// The texts that the parser holds are UTF-8.
pub open spec fn texts_utf8(p: ParserView) -> bool {
    &&& tree_utf8(p.tree, keeps_utf8(p.syntax))
    &&& keeps_utf8(p.syntax) ==> refs_utf8(p.refmap)
    &&& is_utf8(p.linebuf)
}

/// So is the line that it reads, of which it stands at the start of a character.
pub open spec fn line_utf8(p: ParserView, line: Seq<u8>) -> bool {
    texts_utf8(p) && is_utf8(line) && char_start(line, p.cursor.offset)
}

proof fn lemma_ast_utf8(t: Seq<NodeView>, keep: bool, n: usize)
    requires
        tree_utf8(t, keep),
        n < t.len(),
    ensures
        ast_utf8(t[n as int].ast, keep),
{
    reveal(tree_utf8);
}

proof fn lemma_with_ast_utf8(t: Seq<NodeView>, keep: bool, n: usize, ast: AstView)
    requires
        tree_utf8(t, keep),
        n < t.len(),
        ast_utf8(ast, keep),
    ensures
        tree_utf8(with_ast(t, n, ast), keep),
{
    reveal(tree_utf8);
    let u = with_ast(t, n, ast);
    assert forall|m: int| #![trigger u[m]] 0 <= m < u.len() implies ast_utf8(u[m].ast, keep) by {
        assert(ast_utf8(t[m].ast, keep));
    }
}

proof fn lemma_appended_utf8(t: Seq<NodeView>, keep: bool, p: usize, ast: AstView)
    requires
        tree_utf8(t, keep),
        p < t.len(),
        ast_utf8(ast, keep),
    ensures
        tree_utf8(appended(t, p, ast), keep),
{
    reveal(tree_utf8);
    let u = appended(t, p, ast);
    assert forall|m: int| #![trigger u[m]] 0 <= m < u.len() implies ast_utf8(u[m].ast, keep) by {
        if m < t.len() {
            assert(ast_utf8(t[m].ast, keep));
        }
    }
}

/// Where no text has changed.
proof fn lemma_same_utf8(t: Seq<NodeView>, keep: bool, u: Seq<NodeView>)
    requires
        tree_utf8(t, keep),
        u.len() == t.len(),
        forall|m: int|
            #![trigger u[m]]
            0 <= m < t.len() ==> u[m].ast.content == t[m].ast.content && u[m].ast.value
                == t[m].ast.value,
    ensures
        tree_utf8(u, keep),
{
    reveal(tree_utf8);
    assert forall|m: int| #![trigger u[m]] 0 <= m < u.len() implies ast_utf8(u[m].ast, keep) by {
        assert(ast_utf8(t[m].ast, keep));
    }
}

/// The text of a block that has just been opened is empty.
proof fn lemma_new_block_utf8(value: ValueView, keep: bool, line_number: u32, column: usize)
    requires
        value_utf8(value, keep),
    ensures
        ast_utf8(new_block(value, line_number, column), keep),
        ast_utf8(new_inline(value), keep),
{
    lemma_utf8_empty();
}

proof fn lemma_url_utf8(syntax: SyntaxView, url: Seq<u8>)
    requires
        keeps_utf8(syntax),
        is_utf8(url),
    ensures
        is_utf8(url_cleaned(syntax, url)),
{
    reveal(keeps_utf8);
    let t = trimmed(url);
    lemma_utf8_trimmed(url);
    lemma_utf8_empty();
    if t.len() > 0 {
        if t[0] == 60 && t.last() == 62 && t.len() > 1 {
            lemma_utf8_inner(t);
            lemma_utf8_unescaped((syntax.entities)(t.subrange(1, t.len() - 1)));
        } else {
            lemma_utf8_unescaped((syntax.entities)(t));
        }
    }
}

/// A text without the ASCII characters at either end.
proof fn lemma_utf8_inner(t: Seq<u8>)
    requires
        is_utf8(t),
        t.len() > 1,
        t[0] < 128,
        t.last() < 128,
    ensures
        is_utf8(t.subrange(1, t.len() - 1)),
{
    lemma_utf8_around(t, 0);
    lemma_utf8_around(t, t.len() - 1);
    lemma_utf8_part(t, 1, t.len() - 1);
}

proof fn lemma_title_utf8(syntax: SyntaxView, title: Seq<u8>)
    requires
        keeps_utf8(syntax),
        is_utf8(title),
    ensures
        is_utf8(title_cleaned(syntax, title)),
{
    reveal(keeps_utf8);
    lemma_utf8_empty();
    if title.len() > 0 {
        if title.len() > 1 && title_delimiters(title[0], title.last()) {
            lemma_utf8_inner(title);
            lemma_utf8_unescaped((syntax.entities)(title.subrange(1, title.len() - 1)));
        } else {
            lemma_utf8_unescaped((syntax.entities)(title));
        }
    }
}

/// A definition adds texts to the references.
proof fn lemma_defined_utf8(
    syntax: SyntaxView,
    refmap: Map<Seq<u8>, LinkView>,
    d: DefinitionView,
)
    requires
        keeps_utf8(syntax),
        refs_utf8(refmap),
        is_utf8(d.label),
        is_utf8(d.url),
        is_utf8(d.title),
    ensures
        refs_utf8(defined(syntax, refmap, d)),
{
    lemma_url_utf8(syntax, d.url);
    lemma_title_utf8(syntax, d.title);
    assert(is_utf8((syntax.label)(d.label))) by {
        reveal(keeps_utf8);
    }
    let m = defined(syntax, refmap, d);
    assert forall|label: Seq<u8>| #[trigger] m.contains_key(label) implies is_utf8(label)
        && link_utf8(m[label]) by {
        if refmap.contains_key(label) {
            assert(m[label] == refmap[label]);
        }
    }
}

/// What is left of a paragraph behind its definitions is a text.
proof fn lemma_references_utf8(
    syntax: SyntaxView,
    s: Seq<u8>,
    refmap: Map<Seq<u8>, LinkView>,
)
    requires
        is_utf8(s),
        keeps_utf8(syntax) ==> refs_utf8(refmap),
    ensures
        is_utf8(references_taken(syntax, s, refmap).0),
        keeps_utf8(syntax) ==> refs_utf8(references_taken(syntax, s, refmap).1),
    decreases s.len(),
{
    if let Some(d) = definition(s) {
        if 0 < d.end <= s.len() {
            lemma_utf8_definition(s);
            lemma_utf8_cut(s, d.end);
            if keeps_utf8(syntax) {
                lemma_defined_utf8(syntax, refmap, d);
            }
            lemma_references_utf8(syntax, s.skip(d.end), defined(syntax, refmap, d));
        }
    }
}

proof fn lemma_code_utf8(syntax: SyntaxView, ncb: CodeBlockView, content: Seq<u8>)
    requires
        is_utf8(content),
        value_utf8(ValueView::CodeBlock(ncb), keeps_utf8(syntax)),
    ensures
        value_utf8(
            ValueView::CodeBlock(code_finished(syntax, ncb, content)),
            keeps_utf8(syntax),
        ),
{
    if ncb.fenced {
        let e = find_line_end(content, 0);
        lemma_utf8_first_line(content);
        if keeps_utf8(syntax) {
            let info = (syntax.entities)(content.take(e));
            assert(is_utf8(info)) by {
                reveal(keeps_utf8);
            }
            lemma_utf8_trimmed(info);
            lemma_utf8_unescaped(trimmed(info));
        }
    } else {
        lemma_utf8_blank_lines(content);
        lemma_utf8_push(blank_lines_dropped(content), 10);
    }
}

/// Closing a block keeps the texts UTF-8.
pub proof fn lemma_finalized_utf8(p: ParserView, n: usize)
    requires
        texts_utf8(p),
        p.ok(),
        n < p.tree.len(),
    ensures
        texts_utf8(p.finalized(n)),
{
    reveal(ParserView::finalized);
    let keep = keeps_utf8(p.syntax);
    let ast = p.closed(p.tree[n as int].ast);
    lemma_ast_utf8(p.tree, keep, n);
    lemma_utf8_empty();
    match ast.value {
        ValueView::Paragraph => {
            lemma_references_utf8(p.syntax, ast.content, p.refmap);
            let (content, refmap) = references_taken(p.syntax, ast.content, p.refmap);
            let next = AstView { content, ..ast };
            lemma_with_ast_utf8(p.tree, keep, n, next);
            let t = with_ast(p.tree, n, next);
            lemma_with_ast_ok(p.tree, n, next);
            lemma_detached_ok(t, n);
            lemma_same_utf8(t, keep, detached(t, n));
        },
        ValueView::CodeBlock(ncb) => {
            lemma_code_utf8(p.syntax, ncb, ast.content);
            lemma_with_ast_utf8(
                p.tree,
                keep,
                n,
                AstView {
                    value: ValueView::CodeBlock(code_finished(p.syntax, ncb, ast.content)),
                    content: Seq::empty(),
                    ..ast
                },
            );
        },
        ValueView::HtmlBlock(nhb) => {
            lemma_with_ast_utf8(
                p.tree,
                keep,
                n,
                AstView {
                    value: ValueView::HtmlBlock(HtmlBlockView { literal: ast.content, ..nhb }),
                    content: Seq::empty(),
                    ..ast
                },
            );
        },
        ValueView::List(nl) => {
            lemma_with_ast_utf8(
                p.tree,
                keep,
                n,
                AstView {
                    value: ValueView::List(
                        NodeList { tight: !list_is_loose(p.tree, n), ..nl },
                    ),
                    ..ast
                },
            );
        },
        _ => {
            lemma_with_ast_utf8(p.tree, keep, n, ast);
        },
    }
}

proof fn lemma_climbed_utf8(p: ParserView, parent: usize, value: ValueView)
    requires
        texts_utf8(p),
        p.ok(),
        parent < p.tree.len(),
    ensures
        texts_utf8(p.climbed(parent, value).0),
    decreases parent,
{
    lemma_parent(p.tree, parent);
    if let Some(q) = p.parent(parent) {
        if !p.value(parent).may_hold(value) {
            lemma_finalized(p, parent);
            lemma_finalized_utf8(p, parent);
            lemma_climbed_utf8(p.finalized(parent), q, value);
        }
    }
}

proof fn lemma_child_utf8(p: ParserView, parent: usize, value: ValueView, column: int)
    requires
        texts_utf8(p),
        p.ok(),
        parent < p.tree.len(),
        value_utf8(value, keeps_utf8(p.syntax)),
    ensures
        texts_utf8(p.child_added(parent, value, column).0),
        p.child_added(parent, value, column).0.cursor == p.cursor,
{
    let keep = keeps_utf8(p.syntax);
    lemma_climbed(p, parent, value);
    lemma_climbed_utf8(p, parent, value);
    let (q, place) = p.climbed(parent, value);
    lemma_new_block_utf8(value, keep, q.line_number, column as usize);
    lemma_appended_utf8(
        q.tree,
        keep,
        place,
        new_block(value, q.line_number, column as usize),
    );
}

/// The same where the line has been read up to `c`.
proof fn lemma_opener_utf8(
    p: ParserView,
    line: Seq<u8>,
    c: CursorView,
    container: usize,
    value: ValueView,
    column: int,
)
    requires
        line_utf8(p, line),
        p.ok(),
        container < p.tree.len(),
        char_start(line, c.offset),
        value_utf8(value, keeps_utf8(p.syntax)),
    ensures
        line_utf8(p.at(c).child_added(container, value, column).0, line),
{
    lemma_child_utf8(p.at(c), container, value, column);
}

/// A column of white space leads from one character to the next, or stays on a tab.
proof fn lemma_one_utf8(c: CursorView, line: Seq<u8>)
    requires
        line_ok(line),
        is_utf8(line),
        c.on(line),
        char_start(line, c.offset),
        space_or_tab(line[c.offset]),
    ensures
        char_start(line, c.advance(line, 1, true).offset),
        c.advance(line, 1, true).on(line),
{
    lemma_advance_one(c, line);
    lemma_advance_within(c, line, 1, true);
    lemma_utf8_onward(line, c.offset, c.advance(line, 1, true).offset);
}

/// The first byte behind the indentation starts a character.
proof fn lemma_nonspace_utf8(c: CursorView, line: Seq<u8>)
    requires
        is_utf8(line),
        c.within(line.len() as int),
        c.measured(line),
        char_start(line, c.offset),
    ensures
        char_start(line, c.first_nonspace),
        forall|k: int|
            c.offset <= k < c.first_nonspace ==> space_or_tab(#[trigger] line[k]),
{
    lemma_find_first_nonspace(c, line);
    if c.offset < c.first_nonspace {
        assert(space_or_tab(line[c.first_nonspace - 1]));
    }
    lemma_utf8_onward(line, c.offset, c.first_nonspace);
}

/// Columns of the indentation lead from one character to another.
proof fn lemma_indent_utf8(c: CursorView, line: Seq<u8>, count: int)
    requires
        line_ok(line),
        is_utf8(line),
        c.on(line),
        c.measured(line),
        char_start(line, c.offset),
        0 <= count <= c.indent,
    ensures
        char_start(line, c.advance(line, count, true).offset),
{
    lemma_nonspace_utf8(c, line);
    lemma_advance_indent(c, line, count);
    lemma_advance_within(c, line, count, true);
    let j = c.advance(line, count, true).offset;
    if c.offset < j {
        assert(space_or_tab(line[j - 1]));
    }
    lemma_utf8_onward(line, c.offset, j);
}

proof fn lemma_padding_utf8(c: CursorView, line: Seq<u8>, base: int)
    requires
        line_ok(line),
        is_utf8(line),
        c.on(line),
        char_start(line, c.offset),
    ensures
        char_start(line, marker_padding(c, line, base).offset),
        marker_padding(c, line, base) != c ==> space_or_tab(line[c.offset]),
    decreases 6 + base - c.column,
{
    if c.column - base <= 5 && space_or_tab(line[c.offset]) {
        let next = c.advance(line, 1, true);
        lemma_one_utf8(c, line);
        if c.column < next.column <= base + 6 {
            lemma_padding_utf8(next, line, base);
        }
    }
}

/// The contents of a list item start with a character.
proof fn lemma_contents_utf8(c: CursorView, line: Seq<u8>, matched: int)
    requires
        line_ok(line),
        is_utf8(line),
        c.on(line),
        char_start(line, c.offset),
    ensures
        char_start(line, item_contents(c, line, matched).0.offset),
{
    lemma_padding_utf8(c, line, c.column);
    if space_or_tab(line[c.offset]) {
        lemma_one_utf8(c, line);
    }
}

proof fn lemma_quote_utf8(p: ParserView, line: Seq<u8>, container: usize)
    requires
        opening(p, line, container),
        line_utf8(p, line),
        line[p.cursor.first_nonspace] == 62,
    ensures
        line_utf8(p.quote_opened(line, container).0, line),
{
    reveal(ParserView::quote_opened);
    let i = p.cursor.first_nonspace;
    lemma_find_first_nonspace(p.cursor, line);
    lemma_utf8_around(line, i);
    lemma_advance_to(p.cursor, line, i + 1);
    let c = p.cursor.advance(line, i + 1 - p.cursor.offset, false);
    assert(i != line.len() - 1);
    if space_or_tab(line[c.offset]) {
        lemma_one_utf8(c, line);
        let d = c.advance(line, 1, true);
        lemma_opener_utf8(p, line, d, container, ValueView::BlockQuote, i + 1);
    } else {
        lemma_opener_utf8(p, line, c, container, ValueView::BlockQuote, i + 1);
    }
}

proof fn lemma_heading_utf8(p: ParserView, line: Seq<u8>, container: usize, matched: int)
    requires
        opening(p, line, container),
        line_utf8(p, line),
        atx_start(line, p.cursor.first_nonspace) == Some(matched),
    ensures
        line_utf8(p.heading_opened(line, container, matched).0, line),
{
    reveal(ParserView::heading_opened);
    let i = p.cursor.first_nonspace;
    lemma_find_first_nonspace(p.cursor, line);
    lemma_atx_start(line, i);
    let h = skip_run(line, i, 35);
    lemma_skip_run(line, i, 35);
    lemma_skip_blanks(line, h);
    assert(line[i + matched - 1] < 128) by {
        if space_or_tab(line[h]) {
            assert(space_or_tab(line[i + matched - 1]));
        }
    }
    lemma_utf8_around(line, i + matched - 1);
    lemma_advance_to(p.cursor, line, i + matched);
    lemma_opener_utf8(
        p,
        line,
        p.cursor.advance(line, i + matched - p.cursor.offset, false),
        container,
        ValueView::Heading(
            NodeHeading { level: (skip_run(line, i, 35) - i) as u32, setext: false },
        ),
        i + 1,
    );
}

proof fn lemma_fence_utf8(p: ParserView, line: Seq<u8>, container: usize, matched: int)
    requires
        opening(p, line, container),
        line_utf8(p, line),
        fence_start(line, p.cursor.first_nonspace) == Some(matched),
    ensures
        line_utf8(p.fence_opened(line, container, matched).0, line),
{
    reveal(ParserView::fence_opened);
    let i = p.cursor.first_nonspace;
    lemma_find_first_nonspace(p.cursor, line);
    lemma_fence_start(line, i);
    lemma_skip_run(line, i, line[i]);
    assert(line[i + matched - 1] == line[i]);
    lemma_utf8_around(line, i + matched - 1);
    lemma_advance_to(p.cursor, line, i + matched);
    lemma_utf8_empty();
    lemma_opener_utf8(
        p,
        line,
        p.cursor.advance(line, i + matched - p.cursor.offset, false),
        container,
        ValueView::CodeBlock(fenced_code(line[i], matched, i - p.cursor.offset)),
        i + 1,
    );
}

proof fn lemma_item_utf8(
    p: ParserView,
    line: Seq<u8>,
    container: usize,
    matched: int,
    nl: NodeList,
)
    requires
        opening(p, line, container),
        line_utf8(p, line),
        1 <= matched,
        p.cursor.first_nonspace + matched < line.len(),
        line[p.cursor.first_nonspace + matched] < 128,
        p.item_opened(line, container, matched, nl).0.tree.len() <= usize::MAX,
    ensures
        line_utf8(p.item_opened(line, container, matched, nl).0, line),
{
    reveal(ParserView::item_opened);
    let i = p.cursor.first_nonspace;
    lemma_find_first_nonspace(p.cursor, line);
    lemma_advance_to(p.cursor, line, i + matched);
    let c = p.cursor.advance(line, i + matched - p.cursor.offset, false);
    lemma_contents_utf8(c, line, matched);
    let (d, padding) = item_contents(c, line, matched);
    let list = NodeList {
        padding: padding as usize,
        marker_offset: p.cursor.indent as usize,
        ..nl
    };
    let a = p.at(d);
    let continues = match p.value(container) {
        ValueView::List(mnl) => same_kind(list, mnl),
        _ => false,
    };
    if continues {
        lemma_opener_utf8(p, line, d, container, ValueView::Item(list), i + 1);
    } else {
        let (q, parent) = a.child_added(container, ValueView::List(list), i + 1);
        lemma_climbed(a, container, ValueView::List(list));
        lemma_parent(p.tree, container);
        if q.tree.len() > usize::MAX {
            assert(q.value(parent) == ValueView::List(list));
            assert(q.climbed(parent, ValueView::Item(list)) == (q, parent));
        }
        lemma_child_added(a, container, ValueView::List(list), i + 1);
        lemma_opener_utf8(p, line, d, container, ValueView::List(list), i + 1);
        lemma_child_utf8(q, parent, ValueView::Item(list), i + 1);
    }
}

proof fn lemma_cells_utf8(
    t: Seq<NodeView>,
    keep: bool,
    p: usize,
    line_number: u32,
    column: usize,
    cells: Seq<Seq<u8>>,
)
    requires
        tree_utf8(t, keep),
        p < t.len(),
        all_utf8(cells),
    ensures
        tree_utf8(cells_appended(t, p, line_number, column, cells), keep),
    decreases cells.len(),
{
    if cells.len() > 0 {
        let d = cells.drop_last();
        assert forall|k: int| 0 <= k < d.len() implies is_utf8(#[trigger] d[k]) by {
            assert(d[k] == cells[k]);
        }
        assert(is_utf8(cells[cells.len() - 1]));
        lemma_cells_utf8(t, keep, p, line_number, column, d);
        lemma_cells_len(t, p, line_number, column, d);
        lemma_appended_utf8(
            cells_appended(t, p, line_number, column, d),
            keep,
            p,
            AstView {
                content: cells.last(),
                ..new_block(ValueView::TableCell, line_number, column)
            },
        );
    }
}

proof fn lemma_replaced_utf8(t: Seq<NodeView>, keep: bool, n: usize, ast: AstView)
    requires
        tree_ok(t),
        n < t.len() < usize::MAX,
        t[n as int].parent is Some,
        tree_utf8(t, keep),
        ast_utf8(ast, keep),
    ensures
        tree_utf8(replaced(t, n, ast), keep),
{
    reveal(tree_utf8);
    lemma_replaced_ok(t, n, ast);
    let u = replaced(t, n, ast);
    assert forall|m: int| #![trigger u[m]] 0 <= m < u.len() implies ast_utf8(u[m].ast, keep) by {
        if m < t.len() {
            assert(ast_utf8(t[m].ast, keep));
        }
    }
}

proof fn lemma_table_utf8(p: ParserView, line: Seq<u8>, container: usize)
    requires
        opening(p, line, container),
        line_utf8(p, line),
        p.table_opened(line, container) matches Some((q, _)) ==> q.tree.len() <= usize::MAX,
    ensures
        p.table_opened(line, container) matches Some((q, _)) ==> line_utf8(q, line),
{
    reveal(ParserView::table_opened);
    let keep = keeps_utf8(p.syntax);
    let i = p.cursor.first_nonspace;
    let column = (i + 1) as usize;
    lemma_find_first_nonspace(p.cursor, line);
    lemma_nonspace_utf8(p.cursor, line);
    lemma_utf8_cut(line, i);
    lemma_utf8_row(line.skip(i));
    lemma_advance_to(p.cursor, line, line.len() - 1);
    lemma_parent(p.tree, container);
    lemma_ast_utf8(p.tree, keep, container);
    match p.table_opened(line, container) {
        Some((q, c)) => match p.value(container) {
            ValueView::Paragraph => {
                let header = p.tree[container as int].ast.content;
                lemma_utf8_row(header);
                let (aligns, cells) = table_opened(header, line.skip(i))->0;
                let table = new_block(ValueView::Table(aligns), p.line_number, column);
                let row = new_block(ValueView::TableRow(true), p.line_number, column);
                let t = replaced(p.tree, container, table);
                let n = p.tree.len() as usize;
                let u = appended(t, n, row);
                assert(p.parent(container) is Some);
                assert(u.len() == p.tree.len() + 2);
                lemma_cells_len(u, (n + 1) as usize, p.line_number, column, cells);
                lemma_new_block_utf8(ValueView::Table(aligns), keep, p.line_number, column);
                lemma_new_block_utf8(ValueView::TableRow(true), keep, p.line_number, column);
                lemma_replaced_ok(p.tree, container, table);
                lemma_replaced_utf8(p.tree, keep, container, table);
                lemma_appended_utf8(t, keep, n, row);
                lemma_cells_utf8(u, keep, (n + 1) as usize, p.line_number, column, cells);
            },
            ValueView::Table(aligns) => {
                let found = row_cells(line.skip(i))->0;
                let cells = cells_fitted(found, aligns.len());
                lemma_utf8_empty();
                assert forall|k: int| 0 <= k < cells.len() implies is_utf8(
                    #[trigger] cells[k],
                ) by {
                    if k < found.len() {
                        assert(is_utf8(found[k]));
                    }
                }
                let row = new_block(ValueView::TableRow(false), p.line_number, column);
                let n = p.tree.len() as usize;
                let t = appended(p.tree, container, row);
                lemma_new_block_utf8(ValueView::TableRow(false), keep, p.line_number, column);
                lemma_appended_utf8(p.tree, keep, container, row);
                lemma_cells_len(t, n, p.line_number, column, cells);
                lemma_cells_utf8(t, keep, n, p.line_number, column, cells);
            },
            _ => {},
        },
        None => {},
    }
}

/// Opening a block keeps the texts UTF-8, and leaves the line at the start of a character.
pub proof fn lemma_opened_utf8(
    p: ParserView,
    line: Seq<u8>,
    container: usize,
    all_matched: bool,
    maybe_lazy: bool,
)
    requires
        opening(p, line, container),
        line_utf8(p, line),
        p.opened(line, container, all_matched, maybe_lazy) matches Some((q, _)) ==> q.tree.len()
            <= usize::MAX,
    ensures
        p.opened(line, container, all_matched, maybe_lazy) matches Some((q, _)) ==> line_utf8(
            q,
            line,
        ),
{
    let i = p.cursor.first_nonspace;
    let end = line.len() - 1;
    let keep = keeps_utf8(p.syntax);
    lemma_block_start(p, line, container, all_matched, maybe_lazy);
    lemma_find_first_nonspace(p.cursor, line);
    lemma_advance_to(p.cursor, line, end);
    match p.block_start(line, container, all_matched, maybe_lazy) {
        BlockStart::BlockQuote => {
            lemma_quote_utf8(p, line, container);
        },
        BlockStart::Heading(matched) => {
            lemma_heading_utf8(p, line, container, matched);
        },
        BlockStart::CodeFence(matched) => {
            lemma_fence_utf8(p, line, container, matched);
        },
        BlockStart::HtmlBlock(block_type) => {
            reveal(ParserView::html_opened);
            lemma_utf8_empty();
            lemma_child_utf8(
                p,
                container,
                ValueView::HtmlBlock(HtmlBlockView { block_type, literal: Seq::empty() }),
                i + 1,
            );
        },
        BlockStart::Underline(sc) => {
            reveal(ParserView::underlined);
            let q = p.underlined(line, container, sc).0;
            lemma_ast_utf8(p.tree, keep, container);
            lemma_with_ast_utf8(p.tree, keep, container, q.tree[container as int].ast);
        },
        BlockStart::ThematicBreak => {
            reveal(ParserView::break_opened);
            lemma_opener_utf8(
                p,
                line,
                p.cursor.advance(line, end - p.cursor.offset, false),
                container,
                ValueView::ThematicBreak,
                i + 1,
            );
        },
        BlockStart::ListItem(matched, nl) => {
            assert(line[i + matched] < 128) by {
                reveal(marked_start);
                reveal(break_or_item);
                lemma_list_marker(line, i, p.value(container) is Paragraph);
            }
            lemma_item_utf8(p, line, container, matched, nl);
        },
        BlockStart::IndentedCode => {
            reveal(ParserView::code_opened);
            let c = p.cursor.advance(line, CODE_INDENT as int, true);
            lemma_indent_utf8(p.cursor, line, CODE_INDENT as int);
            lemma_utf8_empty();
            lemma_opener_utf8(
                p,
                line,
                c,
                container,
                ValueView::CodeBlock(indented_code()),
                c.offset + 1,
            );
        },
        BlockStart::Other => {
            if p.options.ext_table && p.cursor.indent < CODE_INDENT {
                lemma_table_utf8(p, line, container);
            }
        },
    }
}

proof fn lemma_fence_indent_utf8(c: CursorView, line: Seq<u8>, i: int)
    requires
        line_ok(line),
        is_utf8(line),
        c.on(line),
        char_start(line, c.offset),
    ensures
        char_start(line, fence_indent_skipped(c, line, i).offset),
    decreases i,
{
    if i > 0 && space_or_tab(line[c.offset]) {
        lemma_one_utf8(c, line);
        lemma_fence_indent_utf8(c.advance(line, 1, true), line, i - 1);
    }
}

/// A block that goes on leaves the line at the start of a character.
proof fn lemma_continued_utf8(p: ParserView, line: Seq<u8>, n: usize)
    requires
        p.ok(),
        n < p.tree.len(),
        line_ok(line),
        p.cursor.on(line),
        p.cursor.tab_ok(line),
        p.cursor.measured(line),
        line_utf8(p, line),
    ensures
        ({
            let (q, goes_on, left) = p.continued(line, n);
            texts_utf8(q) && (left ==> line_utf8(q, line))
        }),
{
    let c = p.cursor;
    lemma_find_first_nonspace(c, line);
    lemma_nonspace_utf8(c, line);
    lemma_advance_to(c, line, c.first_nonspace);
    lemma_continued(p, line, n);
    match p.value(n) {
        ValueView::BlockQuote => if c.indent <= 3 && line[c.first_nonspace] == 62 {
            lemma_advance_marker(c, line);
            lemma_utf8_around(line, c.first_nonspace);
            let d = c.advance(line, c.indent + 1, true);
            if space_or_tab(line[d.offset]) {
                lemma_one_utf8(d, line);
            }
        },
        ValueView::Item(nl) => if c.indent >= nl.marker_offset + nl.padding {
            lemma_indent_utf8(c, line, nl.marker_offset + nl.padding);
        },
        ValueView::CodeBlock(ncb) => {
            if !ncb.fenced {
                if c.indent >= CODE_INDENT {
                    lemma_indent_utf8(c, line, CODE_INDENT as int);
                }
            } else {
                lemma_fence_indent_utf8(c, line, ncb.fence_offset as int);
                let (q, goes_on, left) = p.continued(line, n);
                if !left {
                    lemma_finalized_utf8(p.at(q.cursor), n);
                }
            }
        },
        _ => {},
    }
}

/// The blocks that go on keep their texts.
pub proof fn lemma_open_blocks_utf8(p: ParserView, line: Seq<u8>, container: usize)
    requires
        p.ok(),
        line_ok(line),
        p.cursor.on(line),
        p.cursor.tab_ok(line),
        container < p.tree.len(),
        line_utf8(p, line),
    ensures
        ({
            let (q, _, _, left) = p.open_blocks_checked(line, container);
            texts_utf8(q) && (left ==> line_utf8(q, line))
        }),
    decreases p.tree.len() - container,
{
    if let Some(n) = last_child(p.tree, container) {
        lemma_child_place(p.tree, container, p.tree[container as int].children.len() - 1);
        if p.tree[n as int].ast.open {
            let m = p.at(p.cursor.find_first_nonspace(line));
            lemma_find_first_nonspace(p.cursor, line);
            lemma_continued(m, line, n);
            lemma_continued_utf8(m, line, n);
            let (q, goes_on, left) = m.continued(line, n);
            if goes_on {
                lemma_open_blocks_utf8(q, line, n);
            }
        }
    }
}

/// Closing blocks keeps the texts UTF-8.
pub proof fn lemma_closed_utf8(p: ParserView, top: usize)
    requires
        p.ok(),
        texts_utf8(p),
    ensures
        texts_utf8(p.closed_up_to(top)),
    decreases p.current,
{
    if p.current != top {
        lemma_parent(p.tree, p.current);
        if let Some(q) = p.parent(p.current) {
            lemma_finalized(p, p.current);
            lemma_finalized_utf8(p, p.current);
            lemma_closed_utf8(ParserView { current: q, ..p.finalized(p.current) }, top);
        }
    }
}

/// What a line gives from the cursor on is a text.
proof fn lemma_line_text_utf8(c: CursorView, line: Seq<u8>)
    requires
        is_utf8(line),
        0 <= c.offset,
        c.offset < line.len() ==> char_start(line, c.offset),
        c.partially_consumed_tab && c.offset < line.len() ==> line[c.offset] == 9,
    ensures
        is_utf8(line_text(c, line)),
{
    let start = if c.partially_consumed_tab {
        c.offset + 1
    } else {
        c.offset
    };
    let pad = if c.partially_consumed_tab {
        Seq::new(tab_width(c.column) as nat, |k: int| 32u8)
    } else {
        Seq::empty()
    };
    lemma_utf8_ascii(pad);
    if start < line.len() {
        if c.partially_consumed_tab {
            lemma_utf8_around(line, c.offset);
        }
        lemma_utf8_cut(line, start);
        lemma_utf8_joined(pad, line.skip(start));
    }
}

proof fn lemma_line_added_utf8(p: ParserView, n: usize, line: Seq<u8>)
    requires
        texts_utf8(p),
        n < p.tree.len(),
        is_utf8(line),
        0 <= p.cursor.offset,
        p.cursor.offset < line.len() ==> char_start(line, p.cursor.offset),
        p.cursor.partially_consumed_tab && p.cursor.offset < line.len()
            ==> line[p.cursor.offset] == 9,
    ensures
        texts_utf8(p.line_added(n, line)),
{
    let keep = keeps_utf8(p.syntax);
    let ast = p.tree[n as int].ast;
    lemma_ast_utf8(p.tree, keep, n);
    lemma_line_text_utf8(p.cursor, line);
    lemma_utf8_joined(ast.content, line_text(p.cursor, line));
    lemma_with_ast_utf8(
        p.tree,
        keep,
        n,
        AstView { content: ast.content + line_text(p.cursor, line), ..ast },
    );
}

proof fn lemma_text_taken_utf8(p: ParserView, container: usize, line: Seq<u8>)
    requires
        text_ready(p, line, container),
        p.cursor.measured(line),
        line_utf8(p, line),
        p.text_taken(container, line).0.tree.len() <= usize::MAX,
    ensures
        texts_utf8(p.text_taken(container, line).0),
{
    reveal(ParserView::text_taken);
    reveal(ParserView::html_taken);
    let c = p.cursor;
    let i = c.first_nonspace;
    lemma_find_first_nonspace(c, line);
    lemma_nonspace_utf8(c, line);
    lemma_advance_to(c, line, i);
    let moved = c.advance(line, i - c.offset, false);
    match p.value(container) {
        ValueView::CodeBlock(_) => {
            lemma_line_added_utf8(p, container, line);
        },
        ValueView::HtmlBlock(_) => {
            lemma_line_added_utf8(p, container, line);
            let h = p.line_added(container, line);
            lemma_with_ast_ok(p.tree, container, h.tree[container as int].ast);
            lemma_finalized_utf8(h, container);
        },
        v => if c.blank {
        } else if v.lines_accepted() {
            let chops = v is Heading && !v->Heading_0.setext;
            if chops {
                lemma_utf8_chopped(line);
                let rest = hashtags_chopped(line);
                assert(c.advance(rest, i - c.offset, false) == c);
                lemma_line_added_utf8(p.at(c), container, rest);
            } else {
                lemma_line_added_utf8(p.at(moved), container, line);
            }
        } else {
            let column = i + 1;
            lemma_climbed(p, container, ValueView::Paragraph);
            lemma_parent(p.tree, container);
            lemma_child_utf8(p, container, ValueView::Paragraph, column);
            let (d, n) = p.child_added(container, ValueView::Paragraph, column);
            lemma_line_added_utf8(d.at(moved), n, line);
        },
    }
}

/// The text of a line goes to a text.
pub proof fn lemma_text_added_utf8(
    p: ParserView,
    container: usize,
    last_matched: usize,
    line: Seq<u8>,
)
    requires
        text_ready(p, line, container),
        line_utf8(p, line),
        p.text_added(container, last_matched, line).0.tree.len() <= usize::MAX,
    ensures
        texts_utf8(p.text_added(container, last_matched, line).0),
{
    reveal(ParserView::text_added);
    let keep = keeps_utf8(p.syntax);
    let m = p.at(p.cursor.find_first_nonspace(line));
    let b = m.blank_noted(container);
    lemma_find_first_nonspace(p.cursor, line);
    lemma_blank_noted(m, container);
    lemma_same_utf8(m.tree, keep, b.tree);
    if b.is_lazy(container, last_matched) {
        lemma_line_added_utf8(b, b.current, line);
    } else {
        let c = b.closed_up_to(last_matched);
        lemma_closed_up_to(b, last_matched);
        lemma_closed_utf8(b, last_matched);
        assert(b.value(container) == p.value(container));
        assert(same_variant(b.value(container), c.value(container)));
        lemma_text_taken_utf8(c, container, line);
    }
}

/// A line starts with a character, and so does what follows a byte order mark.
pub proof fn lemma_line_started_utf8(p: ParserView, line: Seq<u8>)
    requires
        texts_utf8(p),
        is_utf8(line),
    ensures
        line_utf8(p.line_started(line), line),
{
    lemma_utf8_first(line);
    if line.len() >= 3 && line[0] == 0xef {
        lemma_utf8_mark(line);
    }
}

proof fn lemma_autolinks_utf8(syntax: SyntaxView, a: AutolinkView, text: Seq<u8>)
    requires
        keeps_utf8(syntax),
        is_utf8(text),
        inline_utf8(a.link),
        char_start(text, a.end),
    ensures
        forest_utf8(autolinks_after(syntax, a, text)),
    decreases text.len(),
{
    let rest = text.skip(a.end);
    if 0 < a.end < text.len() {
        lemma_utf8_cut(text, a.end);
        if let Some(b) = valid_autolink(syntax, rest) {
            assert(inline_utf8(b.link) && char_start(rest, b.start) && char_start(
                rest,
                b.end,
            )) by {
                reveal(keeps_utf8);
            }
            lemma_utf8_cut(rest, b.start);
            lemma_autolinks_utf8(syntax, b, rest);
            assert(inline_utf8(text_node(rest.take(b.start))));
        } else {
            assert(inline_utf8(text_node(rest)));
        }
    }
}

/// Joining texts, and finding bare links in them, keeps them UTF-8.
proof fn lemma_consolidated_utf8(
    syntax: SyntaxView,
    ext_autolink: bool,
    f: Seq<InlineView>,
)
    requires
        keeps_utf8(syntax),
        forest_utf8(f),
    ensures
        forest_utf8(consolidated(syntax, ext_autolink, f)),
    decreases forest_size(f),
{
    if f.len() > 0 {
        lemma_sizes(f);
        let x = f[0];
        assert(inline_utf8(x));
        assert(forest_utf8(x.children));
        lemma_consolidated_utf8(syntax, ext_autolink, x.children);
        lemma_consolidated_utf8(syntax, ext_autolink, f.skip(1));
        let children = consolidated(syntax, ext_autolink, x.children);
        let below = InlineView { children, ..x };
        assert(inline_utf8(below));
        if let ValueView::Text(text) = x.value {
            if f.len() > 1 && f[1].value is Text {
                let g = first_two_joined(f);
                lemma_first_two_joined(f);
                assert(inline_utf8(f[1]));
                lemma_utf8_joined(text, f[1].value->Text_0);
                assert(inline_utf8(g[0])) by {
                    assert(g[0].children == x.children);
                }
                assert forall|k: int| 0 <= k < g.len() implies inline_utf8(#[trigger] g[k]) by {
                    if k > 0 {
                        assert(g[k] == f[k + 1]);
                    }
                }
                lemma_consolidated_utf8(syntax, ext_autolink, g);
            } else if f.len() == 1 && ext_autolink {
                if let Some(a) = valid_autolink(syntax, text) {
                    assert(inline_utf8(a.link) && char_start(text, a.start) && char_start(
                        text,
                        a.end,
                    )) by {
                        reveal(keeps_utf8);
                    }
                    lemma_utf8_cut(text, a.start);
                    lemma_autolinks_utf8(syntax, a, text);
                    let head = InlineView { value: ValueView::Text(text.take(a.start)), ..below };
                    assert(inline_utf8(head));
                }
            }
        }
    }
}

proof fn lemma_inline_appended_utf8(t: Seq<NodeView>, keep: bool, p: usize, x: InlineView)
    requires
        tree_utf8(t, keep),
        p < t.len(),
        inline_node(x),
        keep ==> inline_utf8(x),
        inline_appended(t, p, x).len() <= usize::MAX,
    ensures
        tree_utf8(inline_appended(t, p, x), keep),
    decreases x,
{
    let u = appended(t, p, new_inline(x.value));
    lemma_forest_grows(u, t.len() as usize, x.children);
    lemma_new_block_utf8(x.value, keep, 0, 0);
    lemma_appended_utf8(t, keep, p, new_inline(x.value));
    lemma_forest_appended_utf8(u, keep, t.len() as usize, x.children);
}

/// Inline nodes bring their texts into the tree.
proof fn lemma_forest_appended_utf8(
    t: Seq<NodeView>,
    keep: bool,
    p: usize,
    f: Seq<InlineView>,
)
    requires
        tree_utf8(t, keep),
        p < t.len(),
        inline_forest(f),
        keep ==> forest_utf8(f),
        forest_appended(t, p, f).len() <= usize::MAX,
    ensures
        tree_utf8(forest_appended(t, p, f), keep),
    decreases f,
{
    if f.len() > 0 {
        let d = f.drop_last();
        let u = forest_appended(t, p, d);
        lemma_forest_grows(t, p, d);
        lemma_inline_grows(u, p, f.last());
        lemma_forest_appended_utf8(t, keep, p, d);
        lemma_inline_appended_utf8(u, keep, p, f.last());
    }
}

/// Reading a text for inline nodes keeps the texts UTF-8.
pub proof fn lemma_inlines_utf8(p: ParserView, n: usize)
    requires
        texts_utf8(p),
        n < p.tree.len(),
        p.inlines_parsed(n).tree.len() <= usize::MAX,
        inline_forest(
            consolidated(
                p.syntax,
                p.options.ext_autolink,
                (p.syntax.inlines)(
                    rtrimmed(p.tree[n as int].ast.content),
                    p.refmap,
                    p.options,
                ),
            ),
        ),
    ensures
        texts_utf8(p.inlines_parsed(n)),
{
    let keep = keeps_utf8(p.syntax);
    let text = rtrimmed(p.tree[n as int].ast.content);
    let f = (p.syntax.inlines)(text, p.refmap, p.options);
    lemma_ast_utf8(p.tree, keep, n);
    lemma_utf8_rtrimmed(p.tree[n as int].ast.content);
    if keep {
        assert(forest_utf8(f)) by {
            reveal(keeps_utf8);
        }
        lemma_consolidated_utf8(p.syntax, p.options.ext_autolink, f);
    }
    lemma_forest_appended_utf8(
        p.tree,
        keep,
        n,
        consolidated(p.syntax, p.options.ext_autolink, f),
    );
}

/// The texts of the tree are those of the document.
pub proof fn lemma_subtree_utf8(t: Seq<NodeView>, keep: bool, n: usize)
    requires
        tree_ok(t),
        tree_utf8(t, keep),
        n < t.len(),
    ensures
        document_utf8(subtree(t, n), keep),
    decreases t.len() - n,
{
    let d = subtree(t, n);
    lemma_ast_utf8(t, keep, n);
    assert forall|k: int| 0 <= k < d.children.len() implies document_utf8(
        #[trigger] d.children[k],
        keep,
    ) by {
        lemma_child_place(t, n, k);
        lemma_subtree_utf8(t, keep, t[n as int].children[k]);
    }
}

/// Before any input, the only text is an empty one.
pub proof fn lemma_start_utf8(options: ComrakOptions, syntax: SyntaxView)
    ensures
        texts_utf8(ParserView::start(options, syntax)),
{
    reveal(tree_utf8);
    lemma_utf8_empty();
}

/// Folding a label keeps it a text; the first `e` bytes are none of ASCII.
proof fn lemma_utf8_folded_from(s: Seq<u8>, after_space: bool, e: int)
    requires
        is_utf8(s),
        0 <= e <= s.len(),
        label_folded(s, after_space) == s.take(e) + label_folded(
            s.skip(e),
            after_space && e == 0,
        ),
    ensures
        is_utf8(label_folded(s, after_space)),
    decreases s.len(), s.len() - e,
{
    let t = s.skip(e);
    let b = after_space && e == 0;
    if e == s.len() {
        assert(label_folded(t, b) =~= Seq::<u8>::empty());
        assert(label_folded(s, after_space) =~= s);
    } else if s[e] >= 128 {
        assert(t.skip(1) =~= s.skip(e + 1));
        assert(label_folded(s, after_space) =~= s.take(e + 1) + label_folded(
            s.skip(e + 1),
            false,
        ));
        lemma_utf8_folded_from(s, after_space, e + 1);
    } else {
        lemma_utf8_around(s, e);
        lemma_utf8_cut(s, e);
        lemma_utf8_cut(s, e + 1);
        let rest = s.skip(e + 1);
        assert(t.skip(1) =~= rest);
        lemma_utf8_folded(rest, true);
        lemma_utf8_folded(rest, false);
        let c = if is_space(t[0]) {
            32u8
        } else {
            lower(t[0])
        };
        lemma_utf8_ascii(seq![c]);
        lemma_utf8_joined(seq![c], label_folded(rest, is_space(t[0])));
        lemma_utf8_joined(s.take(e), label_folded(t, b));
    }
}

proof fn lemma_utf8_folded(s: Seq<u8>, after_space: bool)
    requires
        is_utf8(s),
    ensures
        is_utf8(label_folded(s, after_space)),
    decreases s.len(), s.len() + 1,
{
    assert(s.skip(0) =~= s);
    assert(s.take(0) + label_folded(s, after_space) =~= label_folded(s, after_space));
    lemma_utf8_folded_from(s, after_space, 0);
}

/// The plainest rules keep texts UTF-8.
pub proof fn law_plain_text_utf8(s: &PlainText)
    ensures
        keeps_utf8(syntax_view(s)),
{
    reveal(keeps_utf8);
    let v = syntax_view(s);
    assert forall|label: Seq<u8>| is_utf8(label) implies is_utf8(#[trigger] (v.label)(label)) by {
        lemma_utf8_trimmed(label);
        lemma_utf8_folded(trimmed(label), false);
        assert((v.label)(label) == s.label_normalized(label));
    }
    assert forall|text: Seq<u8>, refmap: Map<Seq<u8>, LinkView>, options: ComrakOptions|
        is_utf8(text) && refs_utf8(refmap) implies forest_utf8(
        #[trigger] (v.inlines)(text, refmap, options),
    ) by {
        let f = (v.inlines)(text, refmap, options);
        assert(f == s.inlines_of(text, refmap, options));
        if text.len() > 0 {
            assert(inline_utf8(f[0]));
        }
    }
    assert forall|text: Seq<u8>| is_utf8(text) implies is_utf8(
        #[trigger] (v.entities)(text),
    ) by {
        assert((v.entities)(text) == s.entities_decoded(text));
    }
    assert forall|text: Seq<u8>| #[trigger] valid_autolink(v, text) is None by {
        assert((v.autolink)(text) == s.autolink_in(text));
    }
}

} // verus!
