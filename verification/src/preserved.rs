//! What the steps of the parser leave as it was.
use crate::consolidate::consolidated;
use crate::cursor::{
    lemma_advance_bytes, lemma_advance_indent, lemma_advance_marker, lemma_advance_one,
    lemma_advance_tab, lemma_advance_to, lemma_advance_within, lemma_find_first_nonspace, line_ok,
    CursorView, CODE_INDENT,
};
use crate::html::lemma_html_start;
use crate::list_marker::{lemma_list_marker, same_kind};
use crate::model::{
    blank_cleared_above, break_or_item, cells_appended, cells_fitted, fence_indent_skipped,
    fenced_code, indented_code, item_contents, line_stop, marked_start, marker_padding,
    references_taken, BlockStart, ParserView, ROOT,
};
use crate::nodes::{
    new_block, AstView, CodeBlockView, HtmlBlockView, NodeHeading, NodeList, ValueView,
};
use crate::scanners::{
    atx_start, break_line, fence_end, fence_start, lemma_atx_start, lemma_break_line,
    lemma_fence_end, lemma_fence_start, SetextChar,
};
use crate::strings::{blank_text, line_end, rtrimmed, skip_blanks, skip_run, space_or_tab};
use crate::table::{row_cells, skip_row_spaces, table_opened, table_start};
use crate::tree::{
    appended, detached, last_child, lemma_appended_ok, lemma_child_place, lemma_detached_ok,
    lemma_forest_appended, lemma_parent, lemma_replaced_ok, lemma_with_ast_ok, old_nodes_kept,
    replaced, tree_ok, with_ast, NodeView,
};
use vstd::prelude::*;

verus! {

/// The second value is what closing a block of the first one may make of it: the texts of code
/// and HTML are known then, and whether a list is tight.
pub open spec fn same_variant(a: ValueView, b: ValueView) -> bool {
    match a {
        ValueView::List(x) => b is List && b->List_0 == (NodeList { tight: b->List_0.tight, ..x }),
        ValueView::CodeBlock(x) => b is CodeBlock && b->CodeBlock_0 == (CodeBlockView {
            info: b->CodeBlock_0.info,
            literal: b->CodeBlock_0.literal,
            ..x
        }),
        ValueView::HtmlBlock(x) => b is HtmlBlock && b->HtmlBlock_0 == (HtmlBlockView {
            literal: b->HtmlBlock_0.literal,
            ..x
        }),
        _ => a == b,
    }
}

/// Everything but the tree and the references is the same in both states.
pub open spec fn same_beside_tree(p: ParserView, q: ParserView) -> bool {
    q == (ParserView { tree: q.tree, refmap: q.refmap, ..p })
}

/// Closing a block changes nothing else but the children of its parent, and a paragraph that
/// leaves the tree.
pub proof fn lemma_finalized(p: ParserView, n: usize)
    requires
        p.ok(),
        n < p.tree.len(),
    ensures
        p.finalized(n).ok(),
        p.finalized(n).tree.len() == p.tree.len(),
        same_beside_tree(p, p.finalized(n)),
        same_variant(p.value(n), p.finalized(n).value(n)),
        forall|m: int|
            #![trigger p.finalized(n).tree[m]]
            0 <= m < p.tree.len() && m != n ==> {
                &&& p.finalized(n).tree[m].ast == p.tree[m].ast
                &&& p.finalized(n).tree[m].parent == p.tree[m].parent
                &&& Some(m as usize) != p.parent(n) ==> p.finalized(n).tree[m].children
                    == p.tree[m].children
            },
        p.finalized(n).tree[n as int].children == p.tree[n as int].children,
        !p.finalized(n).tree[n as int].ast.open,
        p.finalized(n).parent(n) == p.parent(n) || p.finalized(n).parent(n) is None,
        p.value(n) is Paragraph ==> p.finalized(n).parent(n) is None || !blank_text(
            p.finalized(n).tree[n as int].ast.content,
        ),
        !(p.value(n) is Paragraph) ==> p.finalized(n).parent(n) == p.parent(n),
        !(p.value(n) is Paragraph) ==> forall|m: int|
            #![trigger p.finalized(n).tree[m]]
            0 <= m < p.tree.len() ==> p.finalized(n).tree[m].children == p.tree[m].children,
{
    reveal(ParserView::finalized);
    let q = p.finalized(n);
    let ast = p.closed(p.tree[n as int].ast);
    lemma_with_ast_ok(p.tree, n, q.tree[n as int].ast);
    if let ValueView::Paragraph = ast.value {
        let (content, refmap) = references_taken(p.syntax, ast.content, p.refmap);
        let t = with_ast(p.tree, n, AstView { content, ..ast });
        lemma_with_ast_ok(p.tree, n, AstView { content, ..ast });
        if blank_text(content) {
            lemma_detached_ok(t, n);
            assert(q.tree == detached(t, n));
            assert(q.tree[ROOT as int].ast == t[ROOT as int].ast);
        }
    }
}

/// Looking for the place of a new block closes blocks on the way up and changes nothing else.
pub proof fn lemma_climbed(p: ParserView, parent: usize, value: ValueView)
    requires
        p.ok(),
        parent < p.tree.len(),
    ensures
        p.climbed(parent, value).0.ok(),
        p.climbed(parent, value).0.tree.len() == p.tree.len(),
        same_beside_tree(p, p.climbed(parent, value).0),
        p.climbed(parent, value).1 <= parent,
    decreases parent,
{
    if let Some(q) = p.parent(parent) {
        lemma_parent(p.tree, parent);
        if q < parent && !p.value(parent).may_hold(value) {
            lemma_finalized(p, parent);
            lemma_climbed(p.finalized(parent), q, value);
        }
    }
}

/// A new block leaves the other blocks as they are, but for those that are closed to make place.
pub proof fn lemma_child_added(p: ParserView, parent: usize, value: ValueView, column: int)
    requires
        p.ok(),
        parent < p.tree.len() < usize::MAX,
    ensures
        ({
            let (q, n) = p.child_added(parent, value, column);
            &&& q.ok()
            &&& n == p.tree.len()
            &&& q.tree.len() == p.tree.len() + 1
            &&& same_beside_tree(p, q)
            &&& q.value(n) == value
        }),
{
    lemma_climbed(p, parent, value);
    let (q, m) = p.climbed(parent, value);
    lemma_appended_ok(q.tree, m, new_block(value, q.line_number, column as usize));
}

/// The white space before a line of fenced code is consumed, and the line goes on behind it.
pub proof fn lemma_fence_indent_skipped(c: CursorView, line: Seq<u8>, i: int)
    requires
        line_ok(line),
        c.on(line),
    ensures
        fence_indent_skipped(c, line, i).on(line),
        c.tab_ok(line) ==> fence_indent_skipped(c, line, i).tab_ok(line),
        fence_indent_skipped(c, line, i).offset >= c.offset,
    decreases i,
{
    if i > 0 && space_or_tab(line[c.offset]) {
        lemma_advance_one(c, line);
        lemma_advance_within(c, line, 1, true);
        lemma_fence_indent_skipped(c.advance(line, 1, true), line, i - 1);
    }
}

/// A block that goes on leaves the tree as it is and the line on a byte, and it is no heading.
pub proof fn lemma_continued(p: ParserView, line: Seq<u8>, n: usize)
    requires
        p.ok(),
        n < p.tree.len(),
        line_ok(line),
        p.cursor.on(line),
        p.cursor.tab_ok(line),
        p.cursor.measured(line),
    ensures
        ({
            let (q, goes_on, left) = p.continued(line, n);
            &&& q.ok()
            &&& q.cursor.tab_ok(line)
            &&& q.tree.len() == p.tree.len()
            &&& q.cursor.within(line.len() as int)
            &&& q.cursor.offset >= p.cursor.offset
            &&& goes_on ==> q == p.at(q.cursor) && left && q.cursor.on(line) && !(p.value(
                n,
            ) is Heading)
            &&& left ==> q == p.at(q.cursor) && q.cursor.on(line)
            &&& !left ==> p.value(n) is CodeBlock && q == (ParserView {
                current: match p.parent(n) {
                    Some(m) => m,
                    None => ROOT,
                },
                ..p.at(q.cursor).finalized(n)
            })
            &&& lines_as_before(ParserView { current: q.current, ..p }, q)
        }),
{
    let c = p.cursor;
    lemma_find_first_nonspace(c, line);
    match p.value(n) {
        ValueView::BlockQuote => if c.indent <= 3 && line[c.first_nonspace] == 62 {
            lemma_advance_marker(c, line);
            let d = c.advance(line, c.indent + 1, true);
            if space_or_tab(line[d.offset]) {
                lemma_advance_one(d, line);
                lemma_advance_within(d, line, 1, true);
            }
        },
        ValueView::Item(nl) => if c.indent >= nl.marker_offset + nl.padding {
            lemma_advance_indent(c, line, nl.marker_offset + nl.padding);
            lemma_advance_within(c, line, nl.marker_offset + nl.padding, true);
        } else {
            lemma_advance_to(c, line, c.first_nonspace);
        },
        ValueView::CodeBlock(ncb) => {
            lemma_fence_end(line, c.first_nonspace);
            if !ncb.fenced {
                lemma_advance_to(c, line, c.first_nonspace);
                if c.indent >= CODE_INDENT {
                    lemma_advance_indent(c, line, CODE_INDENT as int);
                    lemma_advance_within(c, line, CODE_INDENT as int, true);
                }
            } else {
                lemma_fence_indent_skipped(c, line, ncb.fence_offset as int);
                let matched = if c.indent <= 3 && line[c.first_nonspace] == ncb.fence_char {
                    match fence_end(line, c.first_nonspace) {
                        Some(m) => m,
                        None => 0,
                    }
                } else {
                    0
                };
                lemma_advance_within(c, line, matched, false);
                lemma_advance_tab(c, line, matched, false);
                let q = p.at(c.advance(line, matched, false));
                lemma_finalized(q, n);
                lemma_parent(p.tree, n);
            }
        },
        _ => {},
    }
}

/// Table cells are new nodes behind all others.
pub proof fn lemma_cells_appended(
    t: Seq<NodeView>,
    p: usize,
    line_number: u32,
    column: usize,
    cells: Seq<Seq<u8>>,
)
    requires
        tree_ok(t),
        p < t.len(),
        t.len() + cells.len() <= usize::MAX,
    ensures
        ({
            let u = cells_appended(t, p, line_number, column, cells);
            &&& tree_ok(u)
            &&& u.len() == t.len() + cells.len()
            &&& forall|m: int|
                #![trigger u[m]]
                0 <= m < t.len() ==> u[m].ast == t[m].ast && u[m].parent == t[m].parent && (m
                    != p ==> u[m].children == t[m].children)
            &&& forall|m: int|
                #![trigger u[m]]
                t.len() <= m < u.len() ==> u[m].ast == (AstView {
                    content: cells[m - t.len()],
                    ..new_block(ValueView::TableCell, line_number, column)
                }) && u[m].parent == Some(p) && u[m].children.len() == 0
        }),
    decreases cells.len(),
{
    if cells.len() > 0 {
        lemma_cells_appended(t, p, line_number, column, cells.drop_last());
        let u = cells_appended(t, p, line_number, column, cells.drop_last());
        lemma_appended_ok(
            u,
            p,
            AstView {
                content: cells.last(),
                ..new_block(ValueView::TableCell, line_number, column)
            },
        );
    }
}

/// The line is over for a block of this value: it takes the rest as it is.
pub open spec fn takes_rest(v: ValueView) -> bool {
    v.lines_accepted() || v is HtmlBlock
}

/// How the state `q` in which a line has opened the block `c` relates to the state `p` before.
/// Unless the block takes the rest of the line, the cursor has moved on, to a byte of the line.
/// The text of a heading starts where the cursor is.
pub open spec fn opened_ok(p: ParserView, q: ParserView, c: usize, line: Seq<u8>) -> bool {
    &&& q.ok()
    &&& c < q.tree.len()
    &&& p.tree.len() <= q.tree.len()
    &&& q == (ParserView { tree: q.tree, refmap: q.refmap, cursor: q.cursor, ..p })
    &&& q.cursor.within(line.len() as int)
    &&& p.cursor.offset <= q.cursor.offset
    &&& !takes_rest(q.value(c)) ==> q.cursor.on(line) && p.cursor.offset < q.cursor.offset
    &&& q.value(c) is Heading && !q.value(c)->Heading_0.setext ==> skip_blanks(
        line,
        q.cursor.offset,
    ) == q.cursor.offset && !q.cursor.partially_consumed_tab
    &&& q.cursor.tab_ok(line)
    &&& q.value(c) is CodeBlock ==> q.cursor.on(line)
}

/// The state is one in which `container` may take the rest of the line.
pub open spec fn text_ready(p: ParserView, line: Seq<u8>, container: usize) -> bool {
    &&& p.ok()
    &&& container < p.tree.len()
    &&& p.cursor.within(line.len() as int)
    &&& p.value(container) is Heading && !p.value(container)->Heading_0.setext ==> skip_blanks(
        line,
        p.cursor.offset,
    ) == p.cursor.offset && !p.cursor.partially_consumed_tab
    &&& p.cursor.tab_ok(line)
    &&& p.value(container) is CodeBlock ==> p.cursor.on(line)
}

/// Nothing has changed but the tree, the references and the cursor.
pub open spec fn lines_as_before(p: ParserView, q: ParserView) -> bool {
    &&& p.tree.len() <= q.tree.len()
    &&& q == (ParserView { tree: q.tree, refmap: q.refmap, cursor: q.cursor, ..p })
}

/// The state is one in which a block may be opened.
pub open spec fn opening(p: ParserView, line: Seq<u8>, container: usize) -> bool {
    &&& p.ok()
    &&& line_ok(line)
    &&& p.cursor.on(line)
    &&& p.cursor.tab_ok(line)
    &&& p.cursor.measured(line)
    &&& container < p.tree.len()
}

/// What holds when a block quote has been opened.
pub proof fn lemma_quote_opened(p: ParserView, line: Seq<u8>, container: usize)
    requires
        opening(p, line, container),
        line[p.cursor.first_nonspace] == 62,
        p.quote_opened(line, container).0.tree.len() <= usize::MAX,
    ensures
        opened_ok(
            p,
            p.quote_opened(line, container).0,
            p.quote_opened(line, container).1,
            line,
        ),
{
    reveal(ParserView::quote_opened);
    let i = p.cursor.first_nonspace;
    lemma_find_first_nonspace(p.cursor, line);
    lemma_advance_to(p.cursor, line, i + 1);
    let c = p.cursor.advance(line, i + 1 - p.cursor.offset, false);
    assert(i != line.len() - 1);
    if space_or_tab(line[c.offset]) {
        lemma_advance_one(c, line);
        lemma_advance_within(c, line, 1, true);
        lemma_child_len(p.at(c.advance(line, 1, true)), container, ValueView::BlockQuote, i + 1);
    } else {
        lemma_child_len(p.at(c), container, ValueView::BlockQuote, i + 1);
    }
}

/// The same for a new block whose number is known to fit.
proof fn lemma_child_len(p: ParserView, parent: usize, value: ValueView, column: int)
    requires
        p.ok(),
        parent < p.tree.len(),
        p.child_added(parent, value, column).0.tree.len() <= usize::MAX,
    ensures
        ({
            let (q, n) = p.child_added(parent, value, column);
            &&& q.ok()
            &&& n == p.tree.len()
            &&& q.tree.len() == p.tree.len() + 1
            &&& same_beside_tree(p, q)
            &&& q.value(n) == value
        }),
{
    lemma_climbed(p, parent, value);
    lemma_parent(p.tree, parent);
    lemma_child_added(p, parent, value, column);
}

/// What holds when a heading has been opened.
pub proof fn lemma_heading_opened(p: ParserView, line: Seq<u8>, container: usize, matched: int)
    requires
        opening(p, line, container),
        atx_start(line, p.cursor.first_nonspace) == Some(matched),
        p.heading_opened(line, container, matched).0.tree.len() <= usize::MAX,
    ensures
        opened_ok(
            p,
            p.heading_opened(line, container, matched).0,
            p.heading_opened(line, container, matched).1,
            line,
        ),
{
    reveal(ParserView::heading_opened);
    let i = p.cursor.first_nonspace;
    lemma_find_first_nonspace(p.cursor, line);
    lemma_atx_start(line, i);
    lemma_advance_to(p.cursor, line, i + matched);
    lemma_advance_bytes(p.cursor, line, i + matched - p.cursor.offset);
    lemma_child_len(
        p.at(p.cursor.advance(line, i + matched - p.cursor.offset, false)),
        container,
        ValueView::Heading(
            NodeHeading { level: (skip_run(line, i, 35) - i) as u32, setext: false },
        ),
        i + 1,
    );
}

/// What holds when a fenced code block has been opened.
pub proof fn lemma_fence_opened(p: ParserView, line: Seq<u8>, container: usize, matched: int)
    requires
        opening(p, line, container),
        fence_start(line, p.cursor.first_nonspace) == Some(matched),
        p.fence_opened(line, container, matched).0.tree.len() <= usize::MAX,
    ensures
        opened_ok(
            p,
            p.fence_opened(line, container, matched).0,
            p.fence_opened(line, container, matched).1,
            line,
        ),
{
    reveal(ParserView::fence_opened);
    let i = p.cursor.first_nonspace;
    lemma_find_first_nonspace(p.cursor, line);
    lemma_fence_start(line, i);
    lemma_advance_to(p.cursor, line, i + matched);
    lemma_child_len(
        p.at(p.cursor.advance(line, i + matched - p.cursor.offset, false)),
        container,
        ValueView::CodeBlock(fenced_code(line[i], matched, i - p.cursor.offset)),
        i + 1,
    );
}

/// What holds when a block of raw HTML has been opened.
pub proof fn lemma_html_opened(p: ParserView, line: Seq<u8>, container: usize, t: u8)
    requires
        opening(p, line, container),
        p.html_opened(container, t).0.tree.len() <= usize::MAX,
    ensures
        opened_ok(p, p.html_opened(container, t).0, p.html_opened(container, t).1, line),
{
    reveal(ParserView::html_opened);
    lemma_child_len(
        p,
        container,
        ValueView::HtmlBlock(HtmlBlockView { block_type: t, literal: Seq::empty() }),
        p.cursor.first_nonspace + 1,
    );
}

/// What holds when a paragraph has become a heading.
pub proof fn lemma_underlined(p: ParserView, line: Seq<u8>, container: usize, sc: SetextChar)
    requires
        opening(p, line, container),
        p.value(container) is Paragraph,
    ensures
        opened_ok(
            p,
            p.underlined(line, container, sc).0,
            p.underlined(line, container, sc).1,
            line,
        ),
{
    reveal(ParserView::underlined);
    let q = p.underlined(line, container, sc).0;
    lemma_find_first_nonspace(p.cursor, line);
    lemma_advance_to(p.cursor, line, line.len() - 1);
    lemma_with_ast_ok(p.tree, container, q.tree[container as int].ast);
}

/// What holds when a thematic break has been made.
pub proof fn lemma_break_opened(p: ParserView, line: Seq<u8>, container: usize)
    requires
        opening(p, line, container),
        break_line(line, p.cursor.first_nonspace) is Some,
        p.break_opened(line, container).0.tree.len() <= usize::MAX,
    ensures
        opened_ok(
            p,
            p.break_opened(line, container).0,
            p.break_opened(line, container).1,
            line,
        ),
{
    reveal(ParserView::break_opened);
    lemma_find_first_nonspace(p.cursor, line);
    lemma_break_line(line, p.cursor.first_nonspace);
    lemma_advance_to(p.cursor, line, line.len() - 1);
    lemma_child_len(
        p.at(p.cursor.advance(line, line.len() - 1 - p.cursor.offset, false)),
        container,
        ValueView::ThematicBreak,
        p.cursor.first_nonspace + 1,
    );
}

/// The white space behind a list marker is consumed, and the line goes on behind it.
pub proof fn lemma_marker_padding(c: CursorView, line: Seq<u8>, base: int)
    requires
        line_ok(line),
        c.on(line),
        base <= c.column <= base + 6,
    ensures
        marker_padding(c, line, base).on(line),
        c.tab_ok(line) ==> marker_padding(c, line, base).tab_ok(line),
        c.offset <= marker_padding(c, line, base).offset,
        c.column <= marker_padding(c, line, base).column <= base + 6,
        marker_padding(c, line, base).first_nonspace == c.first_nonspace,
        marker_padding(c, line, base).indent == c.indent,
    decreases 6 + base - c.column,
{
    if c.column - base <= 5 && space_or_tab(line[c.offset]) {
        lemma_advance_one(c, line);
        lemma_advance_within(c, line, 1, true);
        lemma_marker_padding(c.advance(line, 1, true), line, base);
    }
}

/// The contents of an item start on a byte of the line, at most six columns behind the marker.
pub proof fn lemma_item_contents(c: CursorView, line: Seq<u8>, matched: int)
    requires
        line_ok(line),
        c.on(line),
        matched >= 0,
    ensures
        item_contents(c, line, matched).0.on(line),
        c.tab_ok(line) ==> item_contents(c, line, matched).0.tab_ok(line),
        c.offset <= item_contents(c, line, matched).0.offset,
        matched < item_contents(c, line, matched).1 <= matched + 4,
{
    lemma_marker_padding(c, line, c.column);
    if space_or_tab(line[c.offset]) {
        lemma_advance_one(c, line);
        lemma_advance_within(c, line, 1, true);
    }
}

/// What holds when a list item has been opened.
pub proof fn lemma_item_opened(
    p: ParserView,
    line: Seq<u8>,
    container: usize,
    matched: int,
    nl: NodeList,
)
    requires
        opening(p, line, container),
        p.cursor.first_nonspace + matched < line.len(),
        1 <= matched,
        p.item_opened(line, container, matched, nl).0.tree.len() <= usize::MAX,
    ensures
        opened_ok(
            p,
            p.item_opened(line, container, matched, nl).0,
            p.item_opened(line, container, matched, nl).1,
            line,
        ),
{
    reveal(ParserView::item_opened);
    let i = p.cursor.first_nonspace;
    lemma_find_first_nonspace(p.cursor, line);
    lemma_advance_to(p.cursor, line, i + matched);
    let c = p.cursor.advance(line, i + matched - p.cursor.offset, false);
    lemma_item_contents(c, line, matched);
    let (d, padding) = item_contents(c, line, matched);
    let list = NodeList {
        padding: padding as usize,
        marker_offset: p.cursor.indent as usize,
        ..nl
    };
    let a = p.at(d);
    let continues = match p.value(container) {
        ValueView::List(mnl) => same_kind(list, mnl),
        _ => false,
    };
    if continues {
        lemma_child_len(a, container, ValueView::Item(list), i + 1);
    } else {
        let (q, parent) = a.child_added(container, ValueView::List(list), i + 1);
        lemma_climbed(a, container, ValueView::List(list));
        if q.tree.len() <= usize::MAX {
            lemma_child_len(a, container, ValueView::List(list), i + 1);
            lemma_child_len(q, parent, ValueView::Item(list), i + 1);
        } else {
            lemma_parent(p.tree, container);
            assert(q.value(parent) == ValueView::List(list));
            assert(q.climbed(parent, ValueView::Item(list)) == (q, parent));
        }
    }
}

/// What holds when an indented code block has been opened.
pub proof fn lemma_code_opened(p: ParserView, line: Seq<u8>, container: usize)
    requires
        opening(p, line, container),
        p.cursor.indent >= CODE_INDENT,
        p.code_opened(line, container).0.tree.len() <= usize::MAX,
    ensures
        opened_ok(p, p.code_opened(line, container).0, p.code_opened(line, container).1, line),
{
    reveal(ParserView::code_opened);
    lemma_advance_indent(p.cursor, line, CODE_INDENT as int);
    lemma_advance_within(p.cursor, line, CODE_INDENT as int, true);
    let c = p.cursor.advance(line, CODE_INDENT as int, true);
    lemma_child_len(
        p.at(c),
        container,
        ValueView::CodeBlock(indented_code()),
        c.offset + 1,
    );
}

/// Nothing but the end of the line is no delimiter row.
proof fn lemma_no_table_start(s: Seq<u8>)
    requires
        s.len() > 0,
        s[0] == 10,
    ensures
        !table_start(s),
{
    assert(skip_row_spaces(s, 0) == 0);
    assert(skip_run(s, 0, 45) == 0);
}

/// What holds when the line is part of a table.
pub proof fn lemma_table_opened(p: ParserView, line: Seq<u8>, container: usize)
    requires
        opening(p, line, container),
        p.table_opened(line, container) matches Some((q, _)) ==> q.tree.len() <= usize::MAX,
    ensures
        p.table_opened(line, container) matches Some((q, c)) ==> opened_ok(p, q, c, line) && !(
        q.value(c) is Heading),
{
    reveal(ParserView::table_opened);
    let i = p.cursor.first_nonspace;
    let column = (i + 1) as usize;
    lemma_find_first_nonspace(p.cursor, line);
    lemma_advance_to(p.cursor, line, line.len() - 1);
    lemma_parent(p.tree, container);
    match p.table_opened(line, container) {
        Some((q, c)) => match p.value(container) {
            ValueView::Paragraph => {
                let header = p.tree[container as int].ast.content;
                let (aligns, cells) = table_opened(header, line.skip(i))->0;
                if line[i] == 10 {
                    lemma_no_table_start(line.skip(i));
                }
                let parent = p.parent(container)->0;
                let table = new_block(ValueView::Table(aligns), p.line_number, column);
                let row = new_block(ValueView::TableRow(true), p.line_number, column);
                let t = replaced(p.tree, container, table);
                let u = appended(t, p.tree.len() as usize, row);
                lemma_cells_len(
                    u,
                    (p.tree.len() + 1) as usize,
                    p.line_number,
                    column,
                    cells,
                );
                lemma_replaced_ok(p.tree, container, table);
                lemma_appended_ok(t, p.tree.len() as usize, row);
                lemma_cells_appended(
                    u,
                    (p.tree.len() + 1) as usize,
                    p.line_number,
                    column,
                    cells,
                );
                assert(q.tree[ROOT as int].ast == p.tree[ROOT as int].ast);
                assert(q.tree[c as int].ast == table);
            },
            ValueView::Table(aligns) => {
                let cells = cells_fitted(row_cells(line.skip(i))->0, aligns.len());
                let row = new_block(ValueView::TableRow(false), p.line_number, column);
                let t = appended(p.tree, container, row);
                lemma_cells_len(t, p.tree.len() as usize, p.line_number, column, cells);
                lemma_appended_ok(p.tree, container, row);
                lemma_cells_appended(t, p.tree.len() as usize, p.line_number, column, cells);
                assert(q.tree[ROOT as int].ast == p.tree[ROOT as int].ast);
                assert(q.tree[c as int].ast == row);
            },
            _ => {},
        },
        None => {},
    }
}

/// Each cell is one node more.
pub proof fn lemma_cells_len(
    t: Seq<NodeView>,
    p: usize,
    line_number: u32,
    column: usize,
    cells: Seq<Seq<u8>>,
)
    requires
        p < t.len(),
    ensures
        cells_appended(t, p, line_number, column, cells).len() == t.len() + cells.len(),
    decreases cells.len(),
{
    if cells.len() > 0 {
        lemma_cells_len(t, p, line_number, column, cells.drop_last());
    }
}

/// What is known of the block that a line opens.
pub proof fn lemma_block_start(
    p: ParserView,
    line: Seq<u8>,
    container: usize,
    all_matched: bool,
    maybe_lazy: bool,
)
    requires
        opening(p, line, container),
    ensures
        ({
            let i = p.cursor.first_nonspace;
            match p.block_start(line, container, all_matched, maybe_lazy) {
                BlockStart::BlockQuote => line[i] == 62,
                BlockStart::Heading(matched) => atx_start(line, i) == Some(matched),
                BlockStart::CodeFence(matched) => fence_start(line, i) == Some(matched),
                BlockStart::HtmlBlock(t) => 1 <= t <= 7,
                BlockStart::Underline(_) => p.value(container) is Paragraph,
                BlockStart::ThematicBreak => break_line(line, i) is Some,
                BlockStart::ListItem(matched, nl) => 1 <= matched <= 10 && i + matched < line.len()
                    && nl.start < 1000000000,
                BlockStart::IndentedCode => p.cursor.indent >= CODE_INDENT,
                BlockStart::Other => true,
            }
        }),
{
    reveal(marked_start);
    reveal(break_or_item);
    lemma_find_first_nonspace(p.cursor, line);
    lemma_html_start(line, p.cursor.first_nonspace);
    lemma_list_marker(line, p.cursor.first_nonspace, p.value(container) is Paragraph);
}

/// Clearing the marks of blank lines changes nothing else.
pub proof fn lemma_blank_cleared_above(t: Seq<NodeView>, n: usize)
    requires
        tree_ok(t),
        n < t.len(),
    ensures
        ({
            let u = blank_cleared_above(t, n);
            &&& tree_ok(u)
            &&& u.len() == t.len()
            &&& forall|m: int|
                #![trigger u[m]]
                0 <= m < t.len() ==> u[m] == (NodeView {
                    ast: AstView {
                        last_line_blank: u[m].ast.last_line_blank,
                        ..t[m].ast
                    },
                    ..t[m]
                })
        }),
    decreases n,
{
    lemma_parent(t, n);
    if let Some(p) = t[n as int].parent {
        let ast = AstView { last_line_blank: false, ..t[p as int].ast };
        lemma_with_ast_ok(t, p, ast);
        lemma_blank_cleared_above(with_ast(t, p, ast), p);
    }
}

/// Noting blank lines changes nothing else.
pub proof fn lemma_blank_noted(p: ParserView, container: usize)
    requires
        p.ok(),
        container < p.tree.len(),
    ensures
        ({
            let q = p.blank_noted(container);
            &&& q.ok()
            &&& q.tree.len() == p.tree.len()
            &&& q == (ParserView { tree: q.tree, ..p })
            &&& forall|m: int|
                #![trigger q.tree[m]]
                0 <= m < p.tree.len() ==> q.tree[m] == (NodeView {
                    ast: AstView {
                        last_line_blank: q.tree[m].ast.last_line_blank,
                        ..p.tree[m].ast
                    },
                    ..p.tree[m]
                })
        }),
{
    reveal(ParserView::blank_noted);
    let t = match last_child(p.tree, container) {
        Some(c) => if p.cursor.blank {
            with_ast(
                p.tree,
                c,
                AstView { last_line_blank: true, ..p.tree[c as int].ast },
            )
        } else {
            p.tree
        },
        None => p.tree,
    };
    if let Some(c) = last_child(p.tree, container) {
        lemma_child_place(p.tree, container, p.tree[container as int].children.len() - 1);
        lemma_with_ast_ok(
            p.tree,
            c,
            AstView { last_line_blank: true, ..p.tree[c as int].ast },
        );
    }
    let ast = AstView {
        last_line_blank: p.blank_remembered(container),
        ..t[container as int].ast
    };
    lemma_with_ast_ok(t, container, ast);
    lemma_blank_cleared_above(with_ast(t, container, ast), container);
    let q = p.blank_noted(container);
    assert(q.tree == blank_cleared_above(with_ast(t, container, ast), container));
    assert(q.tree[ROOT as int].ast.value == p.tree[ROOT as int].ast.value);
}

/// Closing the blocks up to `top` keeps what every node is.
pub proof fn lemma_closed_up_to(p: ParserView, top: usize)
    requires
        p.ok(),
    ensures
        ({
            let q = p.closed_up_to(top);
            &&& q.ok()
            &&& q.tree.len() == p.tree.len()
            &&& q == (ParserView { tree: q.tree, refmap: q.refmap, current: q.current, ..p })
            &&& forall|m: usize|
                m < p.tree.len() ==> same_variant(p.value(m), #[trigger] q.value(m))
        }),
    decreases p.current,
{
    if p.current != top {
        lemma_parent(p.tree, p.current);
        if let Some(q) = p.parent(p.current) {
            lemma_finalized(p, p.current);
            let f = p.finalized(p.current);
            let next = ParserView { current: q, ..f };
            lemma_closed_up_to(next, top);
            let r = next.closed_up_to(top);
            assert forall|m: usize| m < p.tree.len() implies same_variant(
                p.value(m),
                #[trigger] r.value(m),
            ) by {
                assert(same_variant(next.value(m), r.value(m)));
                assert(f.tree[m as int] == next.tree[m as int]);
            }
        }
    }
}

/// What lies before the end of a piece of a line.
pub proof fn lemma_line_stop(s: Seq<u8>, i: int)
    requires
        0 <= i <= s.len(),
    ensures
        i <= line_stop(s, i) <= s.len(),
        forall|k: int|
            i <= k < line_stop(s, i) ==> !line_end(#[trigger] s[k]) && s[k] != 0,
        line_stop(s, i) < s.len() ==> line_end(s[line_stop(s, i)]) || s[line_stop(s, i)] == 0,
    decreases s.len() - i,
{
    if i < s.len() && !line_end(s[i]) && s[i] != 0 {
        lemma_line_stop(s, i + 1);
    }
}

/// The end of a piece does not depend on where the text is cut before it.
pub proof fn lemma_line_stop_skip(s: Seq<u8>, i: int, k: int)
    requires
        0 <= i,
        0 <= k,
        i + k <= s.len(),
    ensures
        line_stop(s.skip(i), k) + i == line_stop(s, i + k),
    decreases s.len() - i - k,
{
    if i + k < s.len() {
        assert(s.skip(i)[k] == s[i + k]);
        if !line_end(s[i + k]) && s[i + k] != 0 {
            lemma_line_stop_skip(s, i, k + 1);
        }
    }
}

/// Reading inline nodes keeps the tree whole.
pub proof fn lemma_inlines_parsed(p: ParserView, n: usize)
    requires
        p.ok(),
        n < p.tree.len(),
        p.inlines_parsed(n).tree.len() <= usize::MAX,
    ensures
        p.inlines_parsed(n).ok(),
        p.tree.len() <= p.inlines_parsed(n).tree.len(),
        old_nodes_kept(p.tree, p.inlines_parsed(n).tree, n),
{
    let f = (p.syntax.inlines)(
        rtrimmed(p.tree[n as int].ast.content),
        p.refmap,
        p.options,
    );
    let g = consolidated(p.syntax, p.options.ext_autolink, f);
    lemma_forest_appended(p.tree, n, g);
    assert(p.inlines_parsed(n).tree[ROOT as int].ast == p.tree[ROOT as int].ast);
}

} // verus!
