//! The parser: it takes the input in pieces, and keeps the tree of blocks and what it knows of
//! the line that it stands in.
use crate::consolidate::consolidate_text_nodes;
use crate::cursor::{
    lemma_advance_bytes, lemma_advance_indent, lemma_advance_marker, lemma_advance_one,
    lemma_advance_to, lemma_advance_within, lemma_find_first_nonspace, length_ok, line_ok, Cursor,
    CODE_INDENT, TAB_STOP,
};
use crate::document::{export, is_done, lemma_subtree_done, subtree, AstNode};
use crate::extension::{
    lemma_closed_tables, lemma_finalized_tables, lemma_forest_tables, lemma_open_blocks_tables,
    lemma_opened_tables, lemma_subtree_tables, lemma_text_added_tables, tables_kept, without_tables,
};
use crate::html::{html_block_end, html_block_start, html_block_start_7};
use crate::inlines::{
    clean_info, clean_title, clean_url, forest_view, lemma_inline_forest, syntax_view, Inline,
    InlineSyntax,
};
use crate::laws::lemma_total_lines;
use crate::lines::{
    goes_anywhere, is_taking, lemma_blank_noted_same, lemma_child_added_forked, lemma_fork_kept,
    lemma_forked_facts, lemma_inlines_closed, lemma_line_added_info, lemma_spine_child,
    lemma_spine_closed, lemma_spine_facts,
};
use crate::list_marker::{lists_match, parse_list_marker};
use crate::model::{
    blank_cleared_above, break_or_item, cells_appended, cells_fitted, chomped_len, code_finished,
    defined, fence_indent_skipped, fenced_code, indented_code, item_contents, line_count, line_stop,
    line_text, lines_fit, marked_start, marker_padding, no_tables, one_line, piece_end,
    references_taken, replacement, total_lines, BlockStart, ParserView, ROOT,
};
use crate::nesting::{
    blocks_nested, lemma_blocks_nested, lemma_forest_nested, lemma_subtree_nested, well_nested,
};
use crate::nodes::{
    make_block, Ast, AstView, HtmlBlockView, ListDelimType, ListType, NodeCodeBlock, NodeHeading,
    NodeHtmlBlock, NodeList, NodeValue, ValueView,
};
use crate::options::ComrakOptions;
use crate::preserved::{
    lemma_blank_noted, lemma_block_start, lemma_break_opened, lemma_child_added, lemma_climbed,
    lemma_closed_up_to, lemma_code_opened, lemma_continued, lemma_fence_opened, lemma_finalized,
    lemma_heading_opened, lemma_html_opened, lemma_inlines_parsed, lemma_item_contents,
    lemma_item_opened, lemma_line_stop, lemma_line_stop_skip, lemma_quote_opened,
    lemma_table_opened, lemma_underlined, lines_as_before, opened_ok, opening, same_beside_tree,
    same_variant, text_ready,
};
use crate::references::{definition, scan_definition, skip_line_end, RefMap, Reference};
use crate::scanners::{
    atx_heading_start, atx_start, break_line, close_code_fence, fence_start, lemma_atx_start,
    lemma_fence_end, lemma_fence_start, open_code_fence, setext_heading_line, thematic_break,
    SetextChar,
};
use crate::spine::{
    all_closed, blocks_ok, fork_kept, forked, forked_at, holds, info_read, is_forked, lemma_above,
    lemma_all_closed, lemma_ancestor_finalized, lemma_forked_closed, lemma_forked_end,
    lemma_forked_lazy, lemma_forked_left, lemma_forked_same, lemma_forked_start, lemma_forks_go_on,
    lemma_not_open, lemma_spine_start, no_blank_paragraph, spine, value_ok,
};
use crate::strings::{
    after_run, blank_text, chop_trailing_hashtags, copy_range, is_blank, is_line_end_char,
    is_space_or_tab, line_end_from, push_range, remove_trailing_blank_lines, rtrim, space_or_tab,
};
use crate::table::{cells_view, row, try_opening_header};
use crate::texts::{
    document_utf8, keeps_utf8, lemma_closed_utf8, lemma_finalized_utf8, lemma_inlines_utf8,
    lemma_line_started_utf8, lemma_open_blocks_utf8, lemma_opened_utf8, lemma_start_utf8,
    lemma_subtree_utf8, lemma_text_added_utf8, line_utf8, texts_utf8, tree_utf8,
};
use crate::tree::{
    ancestor, copy_bytes, detached, lemma_appended_ok, lemma_child_place, lemma_parent,
    lemma_replaced_ok, lemma_start, lemma_with_ast_ok, lemma_with_ast_twice, tree_ok, with_ast,
    Tree,
};
use crate::unwrap::{unwrap_into, unwrap_into_2};
use crate::utf8::{
    is_utf8, lemma_utf8_around, lemma_utf8_cut, lemma_utf8_empty, lemma_utf8_joined,
    lemma_utf8_onward, lemma_utf8_push, lemma_utf8_replacement, lemma_utf8_str,
};
use typed_arena::Arena;
use vstd::prelude::*;
use vstd::string::StringSliceAdditionalSpecFns;

verus! {

/// The parser. What it knows is in its view; the arena is where the finished document goes.
pub struct Parser<'a, 'o, S: InlineSyntax> {
    arena: &'a Arena<AstNode<'a>>,
    tree: Tree,
    refmap: RefMap,
    current: usize,
    line_number: u32,
    cursor: Cursor,
    last_line_length: usize,
    linebuf: Vec<u8>,
    last_buffer_ended_with_cr: bool,
    options: &'o ComrakOptions,
    syntax: &'o S,
}

impl<'a, 'o, S: InlineSyntax> View for Parser<'a, 'o, S> {
    type V = ParserView;

    closed spec fn view(&self) -> ParserView {
        ParserView {
            tree: self.tree@,
            refmap: self.refmap@,
            current: self.current,
            line_number: self.line_number,
            cursor: self.cursor@,
            last_line_length: self.last_line_length,
            linebuf: self.linebuf@,
            last_buffer_ended_with_cr: self.last_buffer_ended_with_cr,
            options: *self.options,
            syntax: syntax_view(self.syntax),
        }
    }
}

/// The block that a line opens next.
enum Opener {
    BlockQuote,
    Heading(usize),
    CodeFence(usize),
    HtmlBlock(u8),
    Underline(SetextChar),
    ThematicBreak,
    ListItem(usize, NodeList),
    IndentedCode,
    Other,
}

impl View for Opener {
    type V = BlockStart;

    closed spec fn view(&self) -> BlockStart {
        match *self {
            Opener::BlockQuote => BlockStart::BlockQuote,
            Opener::Heading(matched) => BlockStart::Heading(matched as int),
            Opener::CodeFence(matched) => BlockStart::CodeFence(matched as int),
            Opener::HtmlBlock(block_type) => BlockStart::HtmlBlock(block_type),
            Opener::Underline(sc) => BlockStart::Underline(sc),
            Opener::ThematicBreak => BlockStart::ThematicBreak,
            Opener::ListItem(matched, nl) => BlockStart::ListItem(matched as int, nl),
            Opener::IndentedCode => BlockStart::IndentedCode,
            Opener::Other => BlockStart::Other,
        }
    }
}

/// Finds the block that the line opens at `i` by its first characters.
fn find_marked_start(line: &[u8], i: usize, paragraph: bool) -> (r: Option<Opener>)
    requires
        line_ok(line@),
        i < line@.len(),
    ensures
        match r {
            Some(opener) => marked_start(line@, i as int, paragraph) == Some(opener@),
            None => marked_start(line@, i as int, paragraph) is None,
        },
{
    proof {
        reveal(marked_start);
    }
    let mut matched: usize = 0;
    let mut block_type: u8 = 0;
    let mut sc: SetextChar = SetextChar::Equals;
    if line[i] == 62 {
        Some(Opener::BlockQuote)
    } else if unwrap_into(atx_heading_start(line, i), &mut matched) {
        Some(Opener::Heading(matched))
    } else if unwrap_into(open_code_fence(line, i), &mut matched) {
        Some(Opener::CodeFence(matched))
    } else if unwrap_into(html_block_start(line, i), &mut block_type) || (!paragraph
        && unwrap_into(html_block_start_7(line, i), &mut block_type)) {
        Some(Opener::HtmlBlock(block_type))
    } else if paragraph && unwrap_into(setext_heading_line(line, i), &mut sc) {
        Some(Opener::Underline(sc))
    } else {
        None
    }
}

/// Finds the thematic break or list item that the line opens at `i`.
fn find_break_or_item(
    line: &[u8],
    i: usize,
    paragraph: bool,
    list: bool,
    indented: bool,
    may_break: bool,
) -> (r: Option<Opener>)
    requires
        line_ok(line@),
        i < line@.len(),
    ensures
        ({
            let start = break_or_item(
                line@,
                i as int,
                paragraph,
                list,
                indented,
                may_break,
            );
            match r {
                Some(opener) => start == Some(opener@),
                None => start is None,
            }
        }),
{
    proof {
        reveal(break_or_item);
    }
    let mut matched: usize = 0;
    if !indented && may_break && unwrap_into(thematic_break(line, i), &mut matched) {
        return Some(Opener::ThematicBreak);
    }
    let mut nl: NodeList = NodeList {
        list_type: ListType::Bullet,
        marker_offset: 0,
        padding: 0,
        start: 0,
        delimiter: ListDelimType::Period,
        bullet_char: 0,
        tight: false,
    };
    if (!indented || list) && unwrap_into_2(
        parse_list_marker(line, i, paragraph),
        &mut matched,
        &mut nl,
    ) {
        Some(Opener::ListItem(matched, nl))
    } else {
        None
    }
}

/// The length of the text without the line end.
fn chomp(s: &[u8]) -> (r: usize)
    ensures
        r == chomped_len(s@),
{
    let mut n: usize = s.len();
    if n > 0 && s[n - 1] == 10 {
        n -= 1;
    }
    if n > 0 && s[n - 1] == 13 {
        n -= 1;
    }
    n
}

impl<'a, 'o, S: InlineSyntax> Parser<'a, 'o, S> {
    /// Takes the reference definition that the text starts with, and tells where it ends.
    fn parse_reference_inline(&mut self, content: &[u8]) -> (r: Option<usize>)
        ensures
            match r {
                Some(end) => definition(content@) is Some && end == definition(content@)->0.end
                    && 0 < end <= content@.len() && final(self)@ == (ParserView {
                    refmap: defined(old(self)@.syntax, old(self)@.refmap, definition(content@)->0),
                    ..old(self)@
                }),
                None => definition(content@) is None && final(self)@ == old(self)@,
            },
    {
        match scan_definition(content) {
            Some(d) => {
                let label: Vec<u8> = self.syntax.normalize_reference_label(d.label.as_slice());
                if label.len() > 0 {
                    let url: Vec<u8> = clean_url(self.syntax, d.url.as_slice());
                    let title: Vec<u8> = clean_title(self.syntax, d.title.as_slice());
                    self.refmap.insert(label, Reference { url, title });
                }
                Some(d.end)
            },
            None => None,
        }
    }

    /// Takes the reference definitions that the text starts with, and gives back the rest.
    fn take_references(&mut self, content: Vec<u8>) -> (r: Vec<u8>)
        ensures
            ({
                let (rest, refmap) = references_taken(
                    old(self)@.syntax,
                    content@,
                    old(self)@.refmap,
                );
                r@ == rest && final(self)@ == (ParserView { refmap, ..old(self)@ })
            }),
    {
        let mut rest: Vec<u8> = content;
        loop
            invariant
                self@ == (ParserView { refmap: self@.refmap, ..old(self)@ }),
                references_taken(old(self)@.syntax, rest@, self@.refmap) == references_taken(
                    old(self)@.syntax,
                    content@,
                    old(self)@.refmap,
                ),
            decreases rest@.len(),
        {
            match self.parse_reference_inline(rest.as_slice()) {
                Some(end) => {
                    let next: Vec<u8> = copy_range(rest.as_slice(), end, rest.len());
                    assert(next@ =~= rest@.skip(end as int));
                    rest = next;
                },
                None => {
                    return rest;
                },
            }
        }
    }

    /// Notes that `n` takes no more lines, and where it ends.
    fn close(&mut self, n: usize)
        requires
            n < old(self)@.tree.len(),
            old(self)@.linebuf.len() == 0 || old(self)@.line_number > 0,
        ensures
            final(self)@ == (ParserView {
                tree: with_ast(
                    old(self)@.tree,
                    n,
                    old(self)@.closed(old(self)@.tree[n as int].ast),
                ),
                ..old(self)@
            }),
    {
        let own_line: bool = match &self.tree.ast(n).value {
            NodeValue::Document => true,
            NodeValue::CodeBlock(ncb) => ncb.fenced,
            NodeValue::Heading(nh) => nh.setext,
            _ => false,
        };
        let (end_line, end_column): (u32, usize) = if self.linebuf.len() == 0 {
            (self.line_number, self.last_line_length)
        } else if own_line {
            (self.line_number, chomp(self.linebuf.as_slice()))
        } else {
            (self.line_number - 1, self.last_line_length)
        };
        let ast: &mut Ast = self.tree.ast_mut(n);
        ast.open = false;
        ast.end_line = end_line;
        ast.end_column = end_column;
    }

    /// Takes the reference definitions out of the paragraph `n`, and the paragraph out of the
    /// tree if nothing is left.
    fn finish_paragraph(&mut self, n: usize)
        requires
            old(self)@.ok(),
            n < old(self)@.tree.len(),
        ensures
            ({
                let ast = old(self)@.tree[n as int].ast;
                let (content, refmap) = references_taken(
                    old(self)@.syntax,
                    ast.content,
                    old(self)@.refmap,
                );
                let t = with_ast(old(self)@.tree, n, AstView { content, ..ast });
                final(self)@ == (ParserView {
                    tree: if blank_text(content) {
                        detached(t, n)
                    } else {
                        t
                    },
                    refmap,
                    ..old(self)@
                })
            }),
    {
        let mut content: Vec<u8> = Vec::new();
        std::mem::swap(&mut content, &mut self.tree.ast_mut(n).content);
        let rest: Vec<u8> = self.take_references(content);
        let blank: bool = is_blank(rest.as_slice());
        self.tree.ast_mut(n).content = rest;
        proof {
            let ast = old(self)@.tree[n as int].ast;
            assert(self@.tree =~= with_ast(old(self)@.tree, n, AstView { content: rest@, ..ast }));
            lemma_with_ast_ok(old(self)@.tree, n, AstView { content: rest@, ..ast });
        }
        if blank {
            self.tree.detach(n);
        }
    }

    /// Makes the text of the code block `n` its info string and its literal.
    fn finish_code_block(&mut self, n: usize)
        requires
            n < old(self)@.tree.len(),
            old(self)@.value(n) is CodeBlock,
        ensures
            ({
                let ast = old(self)@.tree[n as int].ast;
                let ncb = code_finished(old(self)@.syntax, ast.value->CodeBlock_0, ast.content);
                final(self)@ == (ParserView {
                    tree: with_ast(
                        old(self)@.tree,
                        n,
                        AstView {
                            value: ValueView::CodeBlock(ncb),
                            content: Seq::empty(),
                            ..ast
                        },
                    ),
                    ..old(self)@
                })
            }),
    {
        let ast: &mut Ast = self.tree.ast_mut(n);
        let mut content: Vec<u8> = Vec::new();
        std::mem::swap(&mut content, &mut ast.content);
        match &mut ast.value {
            NodeValue::CodeBlock(ncb) => {
                if !ncb.fenced {
                    remove_trailing_blank_lines(&mut content);
                    content.push(10);
                    ncb.literal = content;
                } else {
                    let pos: usize = line_end_from(content.as_slice(), 0);
                    let info: Vec<u8> = copy_range(content.as_slice(), 0, pos);
                    assert(info@ =~= content@.take(pos as int));
                    ncb.info = clean_info(self.syntax, info.as_slice());
                    let start: usize = skip_line_end(content.as_slice(), pos);
                    let literal: Vec<u8> = copy_range(content.as_slice(), start, content.len());
                    assert(literal@ =~= content@.skip(start as int));
                    ncb.literal = literal;
                }
            },
            _ => {},
        }
    }

    /// Makes the text of the HTML block `n` its literal.
    fn finish_html_block(&mut self, n: usize)
        requires
            n < old(self)@.tree.len(),
            old(self)@.value(n) is HtmlBlock,
        ensures
            ({
                let ast = old(self)@.tree[n as int].ast;
                final(self)@ == (ParserView {
                    tree: with_ast(
                        old(self)@.tree,
                        n,
                        AstView {
                            value: ValueView::HtmlBlock(
                                HtmlBlockView {
                                    literal: ast.content,
                                    ..ast.value->HtmlBlock_0
                                },
                            ),
                            content: Seq::empty(),
                            ..ast
                        },
                    ),
                    ..old(self)@
                })
            }),
    {
        let ast: &mut Ast = self.tree.ast_mut(n);
        let mut content: Vec<u8> = Vec::new();
        std::mem::swap(&mut content, &mut ast.content);
        match &mut ast.value {
            NodeValue::HtmlBlock(nhb) => {
                nhb.literal = content;
            },
            _ => {},
        }
    }

    /// Notes whether the list `n` is tight.
    fn finish_list(&mut self, n: usize, tight: bool)
        requires
            n < old(self)@.tree.len(),
            old(self)@.value(n) is List,
        ensures
            ({
                let ast = old(self)@.tree[n as int].ast;
                final(self)@ == (ParserView {
                    tree: with_ast(
                        old(self)@.tree,
                        n,
                        AstView {
                            value: ValueView::List(NodeList { tight, ..ast.value->List_0 }),
                            ..ast
                        },
                    ),
                    ..old(self)@
                })
            }),
    {
        let ast: &mut Ast = self.tree.ast_mut(n);
        match &mut ast.value {
            NodeValue::List(nl) => {
                nl.tight = tight;
            },
            _ => {},
        }
    }

    /// Closes the block `n`, and tells its parent.
    fn finalize(&mut self, n: usize) -> (r: Option<usize>)
        requires
            old(self)@.ok(),
            n < old(self)@.tree.len(),
            old(self)@.tree[n as int].ast.open,
            info_read(old(self)@.tree[n as int].ast),
            old(self)@.linebuf.len() == 0 || old(self)@.line_number > 0,
        ensures
            final(self)@ == old(self)@.finalized(n),
            final(self)@.ok(),
            r == old(self)@.parent(n),
    {
        let ghost before = self@;
        let ghost ast = before.closed(before.tree[n as int].ast);
        proof {
            reveal(ParserView::finalized);
            lemma_finalized(before, n);
            lemma_with_ast_ok(before.tree, n, ast);
        }
        let parent: Option<usize> = self.tree.parent(n);
        let tight: bool = match &self.tree.ast(n).value {
            NodeValue::List(_) => self.tree.is_tight(n),
            _ => false,
        };
        self.close(n);
        match &self.tree.ast(n).value {
            NodeValue::Paragraph => {
                self.finish_paragraph(n);
                proof {
                    let (content, refmap) = references_taken(
                        before.syntax,
                        ast.content,
                        before.refmap,
                    );
                    lemma_with_ast_twice(before.tree, n, ast, AstView { content, ..ast });
                }
            },
            NodeValue::CodeBlock(_) => {
                self.finish_code_block(n);
                proof {
                    lemma_with_ast_twice(before.tree, n, ast, self@.tree[n as int].ast);
                }
            },
            NodeValue::HtmlBlock(_) => {
                self.finish_html_block(n);
                proof {
                    lemma_with_ast_twice(before.tree, n, ast, self@.tree[n as int].ast);
                }
            },
            NodeValue::List(_) => {
                self.finish_list(n, tight);
                proof {
                    lemma_with_ast_twice(before.tree, n, ast, self@.tree[n as int].ast);
                }
            },
            _ => {},
        }
        parent
    }

    /// Makes a new block, in `parent` or the nearest block above it that may hold it; the blocks
    /// below that one are closed.
    fn add_child(&mut self, parent: usize, value: NodeValue, start_column: usize) -> (r: usize)
        requires
            old(self)@.ok(),
            is_forked(old(self)@, parent),
            !(old(self)@.value(parent) is CodeBlock),
            goes_anywhere(value@) || holds(old(self)@.value(parent), value@),
            value_ok(value@),
            old(self)@.linebuf.len() == 0 || old(self)@.line_number > 0,
        ensures
            (final(self)@, r) == old(self)@.child_added(parent, value@, start_column as int),
            final(self)@.ok(),
            r < final(self)@.tree.len() == old(self)@.tree.len() + 1,
            same_beside_tree(old(self)@, final(self)@),
            fork_kept(old(self)@, parent, final(self)@, r),
            is_forked(final(self)@, r),
            final(self)@.value(r) == value@,
    {
        proof {
            reveal(forked_at);
        }
        let ghost (m, f): (usize, nat) = choose|m: usize, f: nat| #[trigger]
            forked(self@.tree, self@.current, m, parent, f);
        proof {
            lemma_forked_facts(self@, m, parent, f);
            lemma_climbed(self@, parent, value@);
        }
        let mut p: usize = parent;
        while !self.tree.ast(p).value.can_contain_type(&value)
            invariant
                self@.ok(),
                p < self@.tree.len(),
                !(self@.value(p) is CodeBlock),
                self@.linebuf.len() == 0 || self@.line_number > 0,
                self@.tree.len() == old(self)@.tree.len(),
                same_beside_tree(old(self)@, self@),
                forked(self@.tree, self@.current, m, p, f),
                goes_anywhere(value@) || holds(self@.value(p), value@),
                self@.climbed(p, value@) == old(self)@.climbed(parent, value@),
            decreases p,
        {
            proof {
                lemma_forked_facts(self@, m, p, f);
                lemma_forked_closed(self@, m, p, f);
                lemma_finalized(self@, p);
                lemma_parent(self@.tree, p);
            }
            let ghost before = self@;
            let ghost x = p;
            p = self.finalize(p).unwrap();
            proof {
                assert(ancestor(before.tree, p, p));
                assert(ancestor(before.tree, p, x));
                lemma_above(before.tree, p, x);
                assert(self@.tree[p as int].ast == before.tree[p as int].ast);
            }
        }
        let child: Ast = make_block(value, self.line_number, start_column);
        let r: usize = self.tree.append(p, child);
        proof {
            lemma_child_added(old(self)@, parent, value@, start_column as int);
            assert forall|matched: usize, first_new: nat| #[trigger]
                forked(
                    old(self)@.tree,
                    old(self)@.current,
                    matched,
                    parent,
                    first_new,
                ) implies forked(self@.tree, self@.current, matched, r, first_new) by {
                lemma_child_added_forked(
                    old(self)@,
                    parent,
                    value@,
                    start_column as int,
                    matched,
                    first_new,
                );
            }
        }
        r
    }

    /// Adds what is left of the line to the text of `n`.
    fn add_line(&mut self, n: usize, line: &[u8])
        requires
            old(self)@.ok(),
            n < old(self)@.tree.len(),
            old(self)@.tree[n as int].ast.open,
            old(self)@.cursor.partially_consumed_tab ==> old(self)@.cursor.offset < line@.len(),
        ensures
            final(self)@ == old(self)@.line_added(n, line@),
            final(self)@.ok(),
    {
        let ghost before = self@;
        let len: usize = line.len();
        let mut text: Vec<u8> = Vec::new();
        if self.cursor.partially_consumed_tab {
            self.cursor.offset += 1;
            let chars_to_tab: usize = TAB_STOP - (self.cursor.column % TAB_STOP);
            let mut i: usize = 0;
            while i < chars_to_tab
                invariant
                    i <= chars_to_tab,
                    text@ == Seq::new(i as nat, |k: int| 32u8),
                decreases chars_to_tab - i,
            {
                text.push(32);
                i += 1;
                assert(text@ =~= Seq::new(i as nat, |k: int| 32u8));
            }
        }
        if self.cursor.offset < len {
            push_range(&mut text, line, self.cursor.offset, len);
            assert(line@.subrange(self.cursor.offset as int, line@.len() as int) =~= line@.skip(
                self.cursor.offset as int,
            ));
        }
        assert(text@ =~= line_text(before.cursor, line@));
        let ast: &mut Ast = self.tree.ast_mut(n);
        push_range(&mut ast.content, text.as_slice(), 0, text.len());
        assert(text@.subrange(0, text@.len() as int) =~= text@);
        proof {
            lemma_with_ast_ok(before.tree, n, self@.tree[n as int].ast);
        }
    }

    /// Consumes the marker of a block quote, if the line has it.
    fn parse_block_quote_prefix(&mut self, line: &[u8]) -> (r: bool)
        requires
            line_ok(line@),
            old(self)@.cursor.on(line@),
            old(self)@.cursor.measured(line@),
        ensures
            (final(self)@, r) == old(self)@.quote_continued(line@),
    {
        proof {
            lemma_find_first_nonspace(self@.cursor, line@);
        }
        let indent: usize = self.cursor.indent;
        if indent <= 3 && line[self.cursor.first_nonspace] == 62 {
            proof {
                lemma_advance_marker(self@.cursor, line@);
            }
            self.cursor.advance_offset(line, indent + 1, true);
            if is_space_or_tab(line[self.cursor.offset]) {
                proof {
                    lemma_advance_one(self@.cursor, line@);
                }
                self.cursor.advance_offset(line, 1, true);
            }
            return true;
        }
        false
    }

    /// Consumes the indentation of a list item, if the line belongs to it.
    fn parse_node_item_prefix(&mut self, line: &[u8], container: usize, nl: NodeList) -> (r: bool)
        requires
            line_ok(line@),
            old(self)@.cursor.on(line@),
            old(self)@.cursor.measured(line@),
            container < old(self)@.tree.len(),
        ensures
            (final(self)@, r) == old(self)@.item_continued(line@, container, nl),
    {
        proof {
            lemma_find_first_nonspace(self@.cursor, line@);
        }
        let indent: usize = self.cursor.indent;
        if indent >= nl.marker_offset && indent - nl.marker_offset >= nl.padding {
            let count: usize = nl.marker_offset + nl.padding;
            proof {
                lemma_advance_indent(self@.cursor, line@, count as int);
            }
            self.cursor.advance_offset(line, count, true);
            true
        } else if self.cursor.blank && self.tree.first_child(container).is_some() {
            let offset: usize = self.cursor.first_nonspace - self.cursor.offset;
            proof {
                lemma_advance_to(self@.cursor, line@, self@.cursor.first_nonspace);
            }
            self.cursor.advance_offset(line, offset, false);
            true
        } else {
            false
        }
    }

    /// Consumes the indentation of a code block, or its closing fence, which closes it and uses up
    /// the line.
    fn parse_code_block_prefix(
        &mut self,
        line: &[u8],
        container: usize,
        should_continue: &mut bool,
    ) -> (r: bool)
        requires
            old(self)@.ok(),
            line_ok(line@),
            old(self)@.cursor.on(line@),
            old(self)@.cursor.measured(line@),
            container < old(self)@.tree.len(),
            old(self)@.value(container) is CodeBlock,
            old(self)@.parent(container) is Some,
            old(self)@.tree[container as int].ast.open,
            info_read(old(self)@.tree[container as int].ast),
            old(self)@.linebuf.len() == 0 || old(self)@.line_number > 0,
            *old(should_continue),
        ensures
            (final(self)@, r, *final(should_continue)) == old(self)@.code_continued(
                line@,
                container,
                old(self)@.value(container)->CodeBlock_0,
            ),
    {
        proof {
            lemma_find_first_nonspace(self@.cursor, line@);
            lemma_fence_end(line@, self@.cursor.first_nonspace);
        }
        let (fenced, fence_char, fence_length, fence_offset): (bool, u8, usize, usize) =
            match &self.tree.ast(container).value {
            NodeValue::CodeBlock(ncb) => (
                ncb.fenced,
                ncb.fence_char,
                ncb.fence_length,
                ncb.fence_offset,
            ),
            _ => (false, 0, 0, 0),
        };
        if !fenced {
            if self.cursor.indent >= CODE_INDENT {
                proof {
                    lemma_advance_indent(self@.cursor, line@, CODE_INDENT as int);
                }
                self.cursor.advance_offset(line, CODE_INDENT, true);
                return true;
            } else if self.cursor.blank {
                let offset: usize = self.cursor.first_nonspace - self.cursor.offset;
                proof {
                    lemma_advance_to(self@.cursor, line@, self@.cursor.first_nonspace);
                }
                self.cursor.advance_offset(line, offset, false);
                return true;
            }
            return false;
        }
        let matched: usize = if self.cursor.indent <= 3 && line[self.cursor.first_nonspace]
            == fence_char {
            match close_code_fence(line, self.cursor.first_nonspace) {
                Some(m) => m,
                None => 0,
            }
        } else {
            0
        };
        if matched >= fence_length {
            *should_continue = false;
            proof {
                lemma_advance_to(self@.cursor, line@, self@.cursor.offset + matched);
            }
            self.cursor.advance_offset(line, matched, false);
            self.current = self.finalize(container).unwrap();
            return false;
        }
        let mut i: usize = fence_offset;
        while i > 0 && is_space_or_tab(line[self.cursor.offset])
            invariant
                line_ok(line@),
                self@.cursor.on(line@),
                self@ == old(self)@.at(self@.cursor),
                fence_indent_skipped(self@.cursor, line@, i as int) == fence_indent_skipped(
                    old(self)@.cursor,
                    line@,
                    fence_offset as int,
                ),
            decreases i,
        {
            proof {
                lemma_advance_one(self@.cursor, line@);
            }
            self.cursor.advance_offset(line, 1, true);
            i -= 1;
        }
        true
    }

    /// Tells whether a block of raw HTML of the kind `t` goes on with this line.
    fn parse_html_block_prefix(&self, t: u8) -> (r: bool)
        requires
            1 <= t <= 7,
        ensures
            r == (t <= 5 || !self@.cursor.blank),
    {
        match t {
            1 | 2 | 3 | 4 | 5 => true,
            _ => !self.cursor.blank,
        }
    }

    /// Finds the open blocks that go on with this line. Gives back the innermost one of them,
    /// unless the line is used up, and tells whether they are all there were.
    fn check_open_blocks(&mut self, line: &[u8], all_matched: &mut bool) -> (r: Option<usize>)
        requires
            old(self)@.ok(),
            spine(old(self)@.tree, old(self)@.current),
            line_ok(line@),
            old(self)@.cursor.on(line@),
            old(self)@.cursor.tab_ok(line@),
            old(self)@.linebuf.len() == 0 || old(self)@.line_number > 0,
        ensures
            ({
                let (p, container, matched, left) = old(self)@.open_blocks_checked(line@, ROOT);
                &&& final(self)@ == p
                &&& *final(all_matched) == matched
                &&& r == if left {
                    Some(container)
                } else {
                    None
                }
            }),
            final(self)@.ok(),
            lines_as_before(
                ParserView { current: final(self)@.current, ..old(self)@ },
                final(self)@,
            ),
            match r {
                Some(n) => {
                    &&& n < final(self)@.tree.len()
                    &&& final(self)@.cursor.on(line@)
                    &&& final(self)@.cursor.tab_ok(line@)
                    &&& !(final(self)@.value(n) is Heading)
                    &&& forked(
                        final(self)@.tree,
                        final(self)@.current,
                        n,
                        n,
                        final(self)@.tree.len(),
                    )
                    &&& info_read(final(self)@.tree[n as int].ast)
                },
                None => spine(final(self)@.tree, final(self)@.current),
            },
    {
        let mut container: usize = ROOT;
        let mut should_continue: bool = true;
        *all_matched = false;
        proof {
            lemma_spine_facts(self@, ROOT);
        }
        while self.tree.last_child_is_open(container)
            invariant
                self@.ok(),
                spine(self@.tree, self@.current),
                ancestor(self@.tree, container, self@.current),
                line_ok(line@),
                self@.cursor.on(line@),
                self@.cursor.tab_ok(line@),
                lines_as_before(ParserView { current: self@.current, ..old(self)@ }, self@),
                old(self)@.linebuf.len() == 0 || old(self)@.line_number > 0,
                container < self@.tree.len(),
                !(self@.value(container) is Heading),
                should_continue,
                !*all_matched,
                self@.open_blocks_checked(line@, container) == old(self)@.open_blocks_checked(
                    line@,
                    ROOT,
                ),
            decreases self@.tree.len() - container,
        {
            proof {
                lemma_child_place(
                    self@.tree,
                    container,
                    self@.tree[container as int].children.len() - 1,
                );
                lemma_find_first_nonspace(self@.cursor, line@);
            }
            let n: usize = self.tree.last_child(container).unwrap();
            self.cursor.find_first_nonspace(line);
            let ghost p = self@;
            proof {
                lemma_continued(p, line@, n);
                lemma_spine_child(p, container, n);
            }
            let goes_on: bool = match &self.tree.ast(n).value {
                NodeValue::BlockQuote => self.parse_block_quote_prefix(line),
                NodeValue::Item(nl) => {
                    let nl: NodeList = *nl;
                    self.parse_node_item_prefix(line, n, nl)
                },
                NodeValue::CodeBlock(_) => self.parse_code_block_prefix(
                    line,
                    n,
                    &mut should_continue,
                ),
                NodeValue::Heading(_) => false,
                NodeValue::HtmlBlock(nhb) => self.parse_html_block_prefix(nhb.block_type),
                NodeValue::Paragraph => !self.cursor.blank,
                NodeValue::Table(_) => {
                    let rest: Vec<u8> = copy_range(line, self.cursor.first_nonspace, line.len());
                    assert(rest@ =~= line@.skip(self@.cursor.first_nonspace));
                    crate::table::matches(rest.as_slice())
                },
                NodeValue::TableRow(_) => false,
                NodeValue::TableCell => false,
                _ => true,
            };
            assert((self@, goes_on, should_continue) == p.continued(line@, n));
            if !goes_on {
                if should_continue {
                    proof {
                        lemma_forked_start(self@.tree, self@.current, container);
                        lemma_spine_facts(self@, container);
                    }
                    return Some(container);
                }
                proof {
                    lemma_spine_closed(p.at(self@.cursor), n);
                }
                return None;
            }
            container = n;
        }
        *all_matched = true;
        proof {
            lemma_forked_start(self@.tree, self@.current, container);
            lemma_spine_facts(self@, container);
        }
        Some(container)
    }

    /// Opens a block quote.
    fn open_block_quote(&mut self, container: usize, line: &[u8]) -> (r: usize)
        requires
            opening(old(self)@, line@, container),
            is_forked(old(self)@, container),
            !(old(self)@.value(container) is CodeBlock),
            line@[old(self)@.cursor.first_nonspace] == 62,
            old(self)@.linebuf.len() == 0 || old(self)@.line_number > 0,
        ensures
            (final(self)@, r) == old(self)@.quote_opened(line@, container),
            opened_ok(old(self)@, final(self)@, r, line@),
    {
        let ghost before = self@;
        proof {
            reveal(ParserView::quote_opened);
            lemma_find_first_nonspace(before.cursor, line@);
            assert(before.cursor.first_nonspace != line@.len() - 1);
            lemma_advance_to(before.cursor, line@, before.cursor.first_nonspace + 1);
        }
        let i: usize = self.cursor.first_nonspace;
        let offset: usize = i + 1 - self.cursor.offset;
        self.cursor.advance_offset(line, offset, false);
        if is_space_or_tab(line[self.cursor.offset]) {
            proof {
                lemma_advance_one(self@.cursor, line@);
            }
            self.cursor.advance_offset(line, 1, true);
        }
        let r: usize = self.add_child(container, NodeValue::BlockQuote, i + 1);
        proof {
            lemma_quote_opened(before, line@, container);
        }
        r
    }

    /// Opens a heading whose start is `matched` bytes long.
    fn open_heading(&mut self, container: usize, line: &[u8], matched: usize) -> (r: usize)
        requires
            opening(old(self)@, line@, container),
            is_forked(old(self)@, container),
            !(old(self)@.value(container) is CodeBlock),
            atx_start(line@, old(self)@.cursor.first_nonspace) == Some(matched as int),
            old(self)@.linebuf.len() == 0 || old(self)@.line_number > 0,
        ensures
            (final(self)@, r) == old(self)@.heading_opened(line@, container, matched as int),
            opened_ok(old(self)@, final(self)@, r, line@),
    {
        let ghost before = self@;
        proof {
            reveal(ParserView::heading_opened);
            lemma_find_first_nonspace(before.cursor, line@);
            lemma_atx_start(line@, before.cursor.first_nonspace);
            lemma_advance_to(before.cursor, line@, before.cursor.first_nonspace + matched);
        }
        let i: usize = self.cursor.first_nonspace;
        let offset: usize = i + matched - self.cursor.offset;
        self.cursor.advance_offset(line, offset, false);
        let level: usize = after_run(line, i, 35) - i;
        let r: usize = self.add_child(
            container,
            NodeValue::Heading(NodeHeading { level: level as u32, setext: false }),
            i + 1,
        );
        proof {
            lemma_heading_opened(before, line@, container, matched as int);
        }
        r
    }

    /// Opens a fenced code block whose fence is `matched` bytes long.
    fn open_fence(&mut self, container: usize, line: &[u8], matched: usize) -> (r: usize)
        requires
            opening(old(self)@, line@, container),
            is_forked(old(self)@, container),
            !(old(self)@.value(container) is CodeBlock),
            fence_start(line@, old(self)@.cursor.first_nonspace) == Some(matched as int),
            old(self)@.linebuf.len() == 0 || old(self)@.line_number > 0,
        ensures
            (final(self)@, r) == old(self)@.fence_opened(line@, container, matched as int),
            opened_ok(old(self)@, final(self)@, r, line@),
    {
        let ghost before = self@;
        proof {
            reveal(ParserView::fence_opened);
            lemma_find_first_nonspace(before.cursor, line@);
            lemma_fence_start(line@, before.cursor.first_nonspace);
            lemma_advance_to(before.cursor, line@, before.cursor.first_nonspace + matched);
        }
        let i: usize = self.cursor.first_nonspace;
        let offset: usize = self.cursor.offset;
        let ncb: NodeCodeBlock = NodeCodeBlock {
            fenced: true,
            fence_char: line[i],
            fence_length: matched,
            fence_offset: i - offset,
            info: Vec::new(),
            literal: Vec::new(),
        };
        assert(ncb@ == fenced_code(line@[i as int], matched as int, i - offset));
        self.cursor.advance_offset(line, i + matched - offset, false);
        let r: usize = self.add_child(container, NodeValue::CodeBlock(ncb), i + 1);
        proof {
            lemma_fence_opened(before, line@, container, matched as int);
        }
        r
    }

    /// Opens a block of raw HTML.
    fn open_html_block(&mut self, container: usize, line: &[u8], block_type: u8) -> (r: usize)
        requires
            opening(old(self)@, line@, container),
            1 <= block_type <= 7,
            is_forked(old(self)@, container),
            !(old(self)@.value(container) is CodeBlock),
            old(self)@.linebuf.len() == 0 || old(self)@.line_number > 0,
        ensures
            (final(self)@, r) == old(self)@.html_opened(container, block_type),
            opened_ok(old(self)@, final(self)@, r, line@),
    {
        let ghost before = self@;
        proof {
            reveal(ParserView::html_opened);
            lemma_find_first_nonspace(before.cursor, line@);
        }
        let nhb: NodeHtmlBlock = NodeHtmlBlock { block_type, literal: Vec::new() };
        assert(nhb@ == (HtmlBlockView { block_type, literal: Seq::empty() }));
        let r: usize = self.add_child(
            container,
            NodeValue::HtmlBlock(nhb),
            self.cursor.first_nonspace + 1,
        );
        proof {
            lemma_html_opened(before, line@, container, block_type);
        }
        r
    }

    /// Makes the paragraph a heading.
    fn underline(&mut self, container: usize, line: &[u8], sc: SetextChar)
        requires
            opening(old(self)@, line@, container),
            old(self)@.value(container) is Paragraph,
        ensures
            (final(self)@, container) == old(self)@.underlined(line@, container, sc),
            opened_ok(old(self)@, final(self)@, container, line@),
    {
        let ghost before = self@;
        proof {
            reveal(ParserView::underlined);
            lemma_advance_to(before.cursor, line@, line@.len() - 1);
            lemma_underlined(before, line@, container, sc);
        }
        let level: u32 = match sc {
            SetextChar::Equals => 1,
            SetextChar::Hyphen => 2,
        };
        self.tree.ast_mut(container).value =
        NodeValue::Heading(NodeHeading { level, setext: true });
        let adv: usize = line.len() - 1 - self.cursor.offset;
        self.cursor.advance_offset(line, adv, false);
    }

    /// Makes a thematic break.
    fn open_thematic_break(&mut self, container: usize, line: &[u8]) -> (r: usize)
        requires
            opening(old(self)@, line@, container),
            is_forked(old(self)@, container),
            !(old(self)@.value(container) is CodeBlock),
            break_line(line@, old(self)@.cursor.first_nonspace) is Some,
            old(self)@.linebuf.len() == 0 || old(self)@.line_number > 0,
        ensures
            (final(self)@, r) == old(self)@.break_opened(line@, container),
            opened_ok(old(self)@, final(self)@, r, line@),
    {
        let ghost before = self@;
        proof {
            reveal(ParserView::break_opened);
            lemma_find_first_nonspace(before.cursor, line@);
            lemma_advance_to(before.cursor, line@, line@.len() - 1);
        }
        let i: usize = self.cursor.first_nonspace;
        let adv: usize = line.len() - 1 - self.cursor.offset;
        self.cursor.advance_offset(line, adv, false);
        let r: usize = self.add_child(container, NodeValue::ThematicBreak, i + 1);
        proof {
            lemma_break_opened(before, line@, container);
        }
        r
    }

    /// Goes on to the contents of a list item, and tells how far they are from the start of the
    /// marker.
    fn skip_marker_padding(&mut self, line: &[u8], matched: usize) -> (r: usize)
        requires
            line_ok(line@),
            old(self)@.cursor.on(line@),
            matched <= line@.len(),
        ensures
            final(self)@ == old(self)@.at(
                item_contents(old(self)@.cursor, line@, matched as int).0,
            ),
            r == item_contents(old(self)@.cursor, line@, matched as int).1,
    {
        let save: Cursor = self.cursor;
        let ghost c = self@.cursor;
        while self.cursor.column - save.column <= 5 && is_space_or_tab(line[self.cursor.offset])
            invariant
                line_ok(line@),
                self@ == old(self)@.at(self@.cursor),
                self@.cursor.on(line@),
                c == save@,
                c == old(self)@.cursor,
                c.column <= self@.cursor.column <= c.column + 6,
                self@.cursor.column > c.column ==> space_or_tab(line@[c.offset]),
                c.offset <= self@.cursor.offset,
                self@.cursor.column == c.column ==> self@.cursor == c,
                marker_padding(self@.cursor, line@, c.column) == marker_padding(
                    c,
                    line@,
                    c.column,
                ),
            decreases 6 + c.column - self@.cursor.column,
        {
            proof {
                lemma_advance_one(self@.cursor, line@);
                lemma_advance_within(self@.cursor, line@, 1, true);
            }
            self.cursor.advance_offset(line, 1, true);
        }
        let i: usize = self.cursor.column - save.column;
        assert(self@.cursor == marker_padding(c, line@, c.column));
        if i >= 5 || i < 1 || is_line_end_char(line[self.cursor.offset]) {
            self.cursor = save;
            if i > 0 {
                proof {
                    lemma_advance_one(c, line@);
                }
                self.cursor.advance_offset(line, 1, true);
            }
            matched + 1
        } else {
            matched + i
        }
    }

    /// Opens a list item, and a list around it if the container is none of its kind.
    fn open_list_item(
        &mut self,
        container: usize,
        line: &[u8],
        matched: usize,
        marker: NodeList,
    ) -> (r: usize)
        requires
            opening(old(self)@, line@, container),
            is_forked(old(self)@, container),
            !(old(self)@.value(container) is CodeBlock),
            old(self)@.cursor.first_nonspace + matched < line@.len(),
            1 <= matched <= 10,
            marker.start < 1000000000,
            old(self)@.linebuf.len() == 0 || old(self)@.line_number > 0,
        ensures
            (final(self)@, r) == old(self)@.item_opened(
                line@,
                container,
                matched as int,
                marker,
            ),
            opened_ok(old(self)@, final(self)@, r, line@),
    {
        let ghost before = self@;
        proof {
            reveal(ParserView::item_opened);
            lemma_find_first_nonspace(before.cursor, line@);
            lemma_advance_to(before.cursor, line@, before.cursor.first_nonspace + matched);
        }
        let i: usize = self.cursor.first_nonspace;
        let marker_offset: usize = self.cursor.indent;
        let offset: usize = i + matched - self.cursor.offset;
        self.cursor.advance_offset(line, offset, false);
        proof {
            lemma_item_contents(self@.cursor, line@, matched as int);
        }
        let padding: usize = self.skip_marker_padding(line, matched);
        let nl: NodeList = NodeList { padding, marker_offset, ..marker };
        let continues: bool = match &self.tree.ast(container).value {
            NodeValue::List(mnl) => lists_match(&nl, mnl),
            _ => false,
        };
        let list: usize = if continues {
            container
        } else {
            self.add_child(container, NodeValue::List(nl), i + 1)
        };
        let r: usize = self.add_child(list, NodeValue::Item(nl), i + 1);
        proof {
            lemma_item_opened(before, line@, container, matched as int, marker);
        }
        r
    }

    /// Opens an indented code block.
    fn open_indented_code(&mut self, container: usize, line: &[u8]) -> (r: usize)
        requires
            opening(old(self)@, line@, container),
            is_forked(old(self)@, container),
            !(old(self)@.value(container) is CodeBlock),
            old(self)@.cursor.indent >= CODE_INDENT,
            old(self)@.linebuf.len() == 0 || old(self)@.line_number > 0,
        ensures
            (final(self)@, r) == old(self)@.code_opened(line@, container),
            opened_ok(old(self)@, final(self)@, r, line@),
    {
        let ghost before = self@;
        proof {
            reveal(ParserView::code_opened);
            lemma_advance_indent(before.cursor, line@, CODE_INDENT as int);
        }
        self.cursor.advance_offset(line, CODE_INDENT, true);
        let ncb: NodeCodeBlock = NodeCodeBlock {
            fenced: false,
            fence_char: 0,
            fence_length: 0,
            fence_offset: 0,
            info: Vec::new(),
            literal: Vec::new(),
        };
        assert(ncb@ == indented_code());
        let r: usize = self.add_child(
            container,
            NodeValue::CodeBlock(ncb),
            self.cursor.offset + 1,
        );
        proof {
            lemma_code_opened(before, line@, container);
        }
        r
    }

    /// Makes table cells of these texts, as the last children of `row`. Where there are fewer
    /// than `count` texts, the other cells are empty.
    fn add_cells(&mut self, row: usize, column: usize, cells: &Vec<Vec<u8>>, count: usize)
        requires
            row < old(self)@.tree.len() <= usize::MAX,
        ensures
            final(self)@ == (ParserView {
                tree: cells_appended(
                    old(self)@.tree,
                    row,
                    old(self)@.line_number,
                    column,
                    cells_fitted(cells_view(cells@), count as nat),
                ),
                ..old(self)@
            }),
            final(self)@.tree.len() <= usize::MAX,
    {
        let ghost fitted = cells_fitted(cells_view(cells@), count as nat);
        let mut i: usize = 0;
        assert(fitted.take(0) =~= Seq::<Seq<u8>>::empty());
        while i < count
            invariant
                i <= count,
                row < old(self)@.tree.len() <= self@.tree.len() <= usize::MAX,
                fitted == cells_fitted(cells_view(cells@), count as nat),
                self@ == (ParserView {
                    tree: cells_appended(
                        old(self)@.tree,
                        row,
                        old(self)@.line_number,
                        column,
                        fitted.take(i as int),
                    ),
                    ..old(self)@
                }),
            decreases count - i,
        {
            let mut ast: Ast = make_block(NodeValue::TableCell, self.line_number, column);
            if i < cells.len() {
                ast.content = copy_bytes(&cells[i]);
            }
            assert(ast@.content =~= fitted[i as int]);
            self.tree.append(row, ast);
            i += 1;
            assert(fitted.take(i as int).drop_last() =~= fitted.take(i - 1));
        }
        assert(fitted.take(i as int) =~= fitted);
    }

    /// Takes the line as part of a table, if it is: the delimiter row under a paragraph, which
    /// becomes a table, or a row of a table.
    fn try_opening_block(&mut self, container: usize, line: &[u8]) -> (r: Option<usize>)
        requires
            opening(old(self)@, line@, container),
        ensures
            match r {
                Some(c) => old(self)@.table_opened(line@, container) == Some((final(self)@, c))
                    && opened_ok(old(self)@, final(self)@, c, line@),
                None => old(self)@.table_opened(line@, container) is None && final(self)@ == old(
                    self,
                )@,
            },
    {
        let ghost before = self@;
        proof {
            reveal(ParserView::table_opened);
            lemma_find_first_nonspace(before.cursor, line@);
            lemma_advance_to(before.cursor, line@, line@.len() - 1);
        }
        let len: usize = line.len();
        let i: usize = self.cursor.first_nonspace;
        let column: usize = i + 1;
        let adv: usize = len - 1 - self.cursor.offset;
        let rest: Vec<u8> = copy_range(line, i, len);
        assert(rest@ =~= line@.skip(i as int));
        match &self.tree.ast(container).value {
            NodeValue::Paragraph => {
                let parent: usize = match self.tree.parent(container) {
                    Some(parent) => parent,
                    None => {
                        return None;
                    },
                };
                let header: &Vec<u8> = &self.tree.ast(container).content;
                match try_opening_header(header.as_slice(), rest.as_slice()) {
                    Some((aligns, cells)) => {
                        let ghost av = aligns@;
                        let table: Ast = make_block(
                            NodeValue::Table(aligns),
                            self.line_number,
                            column,
                        );
                        let row: Ast = make_block(
                            NodeValue::TableRow(true),
                            self.line_number,
                            column,
                        );
                        let t: usize = self.tree.replace(container, parent, table);
                        proof {
                            lemma_replaced_ok(before.tree, container, table@);
                        }
                        let ghost mid = self@.tree;
                        let h: usize = self.tree.append(t, row);
                        proof {
                            lemma_appended_ok(mid, t, row@);
                            assert(cells_fitted(cells_view(cells@), cells@.len())
                                =~= cells_view(cells@));
                        }
                        self.add_cells(h, column, &cells, cells.len());
                        self.cursor.advance_offset(line, adv, false);
                        proof {
                            lemma_table_opened(before, line@, container);
                        }
                        Some(t)
                    },
                    None => None,
                }
            },
            NodeValue::Table(aligns) => {
                if self.cursor.blank {
                    return None;
                }
                let count: usize = aligns.len();
                match row(rest.as_slice()) {
                    Some(cells) => {
                        let ast: Ast = make_block(
                            NodeValue::TableRow(false),
                            self.line_number,
                            column,
                        );
                        let h: usize = self.tree.append(container, ast);
                        proof {
                            lemma_appended_ok(before.tree, container, ast@);
                        }
                        self.add_cells(h, column, &cells, count);
                        self.cursor.advance_offset(line, adv, false);
                        proof {
                            lemma_table_opened(before, line@, container);
                        }
                        Some(h)
                    },
                    None => None,
                }
            },
            _ => None,
        }
    }

    /// Finds the block that the line opens at the cursor.
    fn find_block_start(
        &self,
        container: usize,
        line: &[u8],
        all_matched: bool,
        maybe_lazy: bool,
    ) -> (r: Opener)
        requires
            opening(self@, line@, container),
        ensures
            r@ == self@.block_start(line@, container, all_matched, maybe_lazy),
    {
        let (paragraph, list): (bool, bool) = match &self.tree.ast(container).value {
            NodeValue::Paragraph => (true, false),
            NodeValue::List(_) => (false, true),
            _ => (false, false),
        };
        let indented: bool = self.cursor.indent >= CODE_INDENT;
        let i: usize = self.cursor.first_nonspace;
        proof {
            lemma_find_first_nonspace(self@.cursor, line@);
        }
        if !indented {
            match find_marked_start(line, i, paragraph) {
                Some(opener) => {
                    return opener;
                },
                None => {},
            }
        }
        match find_break_or_item(line, i, paragraph, list, indented, all_matched || !paragraph) {
            Some(opener) => opener,
            None => if indented && !maybe_lazy && !self.cursor.blank {
                Opener::IndentedCode
            } else {
                Opener::Other
            },
        }
    }

    /// Opens the next block that the line opens, if it does, and gives it back.
    fn open_next_block(
        &mut self,
        container: usize,
        line: &[u8],
        all_matched: bool,
        maybe_lazy: bool,
    ) -> (r: Option<usize>)
        requires
            opening(old(self)@, line@, container),
            is_forked(old(self)@, container),
            !(old(self)@.value(container) is CodeBlock),
            old(self)@.linebuf.len() == 0 || old(self)@.line_number > 0,
        ensures
            match r {
                Some(c) => old(self)@.opened(line@, container, all_matched, maybe_lazy) == Some(
                    (final(self)@, c),
                ) && opened_ok(old(self)@, final(self)@, c, line@),
                None => old(self)@.opened(line@, container, all_matched, maybe_lazy) is None
                    && final(self)@ == old(self)@,
            },
    {
        let opener: Opener = self.find_block_start(container, line, all_matched, maybe_lazy);
        proof {
            lemma_block_start(self@, line@, container, all_matched, maybe_lazy);
        }
        match opener {
            Opener::BlockQuote => Some(self.open_block_quote(container, line)),
            Opener::Heading(matched) => Some(self.open_heading(container, line, matched)),
            Opener::CodeFence(matched) => Some(self.open_fence(container, line, matched)),
            Opener::HtmlBlock(block_type) => Some(
                self.open_html_block(container, line, block_type),
            ),
            Opener::Underline(sc) => {
                self.underline(container, line, sc);
                Some(container)
            },
            Opener::ThematicBreak => Some(self.open_thematic_break(container, line)),
            Opener::ListItem(matched, nl) => Some(
                self.open_list_item(container, line, matched, nl),
            ),
            Opener::IndentedCode => Some(self.open_indented_code(container, line)),
            Opener::Other => {
                if self.cursor.indent < CODE_INDENT && self.options.ext_table {
                    self.try_opening_block(container, line)
                } else {
                    None
                }
            },
        }
    }

    /// Opens all the blocks that the line opens behind those that go on, and makes `container`
    /// the innermost one of them.
    fn open_new_blocks(&mut self, container: &mut usize, line: &[u8], all_matched: bool)
        requires
            old(self)@.ok(),
            line_ok(line@),
            old(self)@.cursor.on(line@),
            old(self)@.cursor.tab_ok(line@),
            *old(container) < old(self)@.tree.len(),
            !(old(self)@.value(*old(container)) is Heading),
            is_forked(old(self)@, *old(container)),
            old(self)@.linebuf.len() == 0 || old(self)@.line_number > 0,
            line_utf8(old(self)@, line@),
        ensures
            (final(self)@, *final(container)) == old(self)@.new_blocks_opened(
                line@,
                *old(container),
                all_matched,
                old(self)@.value(old(self)@.current) is Paragraph,
            ),
            text_ready(final(self)@, line@, *final(container)),
            lines_as_before(old(self)@, final(self)@),
            fork_kept(old(self)@, *old(container), final(self)@, *final(container)),
            tables_kept(old(self)@, final(self)@),
            line_utf8(final(self)@, line@),
    {
        let mut maybe_lazy: bool = match &self.tree.ast(self.current).value {
            NodeValue::Paragraph => true,
            _ => false,
        };
        loop
            invariant
                line_ok(line@),
                self@.cursor.on(line@),
                text_ready(self@, line@, *container),
                lines_as_before(old(self)@, self@),
                is_forked(old(self)@, *old(container)),
                fork_kept(old(self)@, *old(container), self@, *container),
                tables_kept(old(self)@, self@),
                line_utf8(self@, line@),
                old(self)@.linebuf.len() == 0 || old(self)@.line_number > 0,
                self@.new_blocks_opened(line@, *container, all_matched, maybe_lazy) == old(
                    self,
                )@.new_blocks_opened(
                    line@,
                    *old(container),
                    all_matched,
                    old(self)@.value(old(self)@.current) is Paragraph,
                ),
            decreases line@.len() - self@.cursor.offset,
        {
            match &self.tree.ast(*container).value {
                NodeValue::CodeBlock(_) | NodeValue::HtmlBlock(_) => {
                    return ;
                },
                _ => {},
            }
            proof {
                lemma_find_first_nonspace(self@.cursor, line@);
            }
            self.cursor.find_first_nonspace(line);
            let ghost p = self@;
            let ghost c = *container;
            proof {
                assert(fork_kept(old(self)@, *old(container), p, c));
                lemma_forks_go_on(old(self)@, *old(container), p, c);
            }
            match self.open_next_block(*container, line, all_matched, maybe_lazy) {
                Some(opened) => {
                    *container = opened;
                    proof {
                        lemma_opened_tables(p, line@, c, all_matched, maybe_lazy);
                        lemma_opened_utf8(p, line@, c, all_matched, maybe_lazy);
                        lemma_fork_kept(
                            old(self)@,
                            *old(container),
                            p,
                            c,
                            self@,
                            opened,
                            line@,
                            all_matched,
                            maybe_lazy,
                        );
                    }
                },
                None => {
                    return ;
                },
            }
            match &self.tree.ast(*container).value {
                NodeValue::HtmlBlock(_) => {
                    return ;
                },
                value => {
                    if value.accepts_lines() {
                        return ;
                    }
                },
            }
            maybe_lazy = false;
        }
    }

    /// Notes for `container`, its last child and everything above it whether they end in a
    /// blank line.
    fn note_blank(&mut self, container: usize)
        requires
            old(self)@.ok(),
            container < old(self)@.tree.len(),
        ensures
            final(self)@ == old(self)@.blank_noted(container),
    {
        let ghost before = self@;
        proof {
            reveal(ParserView::blank_noted);
        }
        let remembered: bool = self.cursor.blank && match &self.tree.ast(container).value {
            NodeValue::BlockQuote | NodeValue::Heading(_) | NodeValue::ThematicBreak => false,
            NodeValue::CodeBlock(ncb) => !ncb.fenced,
            NodeValue::Item(_) => self.tree.first_child(container).is_some()
                || self.tree.ast(container).start_line != self.line_number,
            _ => true,
        };
        if self.cursor.blank {
            match self.tree.last_child(container) {
                Some(last) => {
                    proof {
                        lemma_child_place(
                            before.tree,
                            container,
                            before.tree[container as int].children.len() - 1,
                        );
                        lemma_with_ast_ok(
                            before.tree,
                            last,
                            AstView { last_line_blank: true, ..before.tree[last as int].ast },
                        );
                    }
                    self.tree.ast_mut(last).last_line_blank = true;
                },
                None => {},
            }
        }
        let ghost t = self@.tree;
        self.tree.ast_mut(container).last_line_blank = remembered;
        let ghost u = self@.tree;
        proof {
            lemma_with_ast_ok(
                t,
                container,
                AstView { last_line_blank: remembered, ..t[container as int].ast },
            );
            assert(before.blank_noted(container).tree == blank_cleared_above(u, container));
        }
        let mut tmp: usize = container;
        loop
            invariant
                tree_ok(self@.tree),
                tmp < self@.tree.len(),
                before == old(self)@,
                before.blank_noted(container) == (ParserView {
                    tree: before.blank_noted(container).tree,
                    ..before
                }),
                self@ == (ParserView { tree: self@.tree, ..before }),
                blank_cleared_above(self@.tree, tmp) == before.blank_noted(container).tree,
            decreases tmp,
        {
            proof {
                lemma_parent(self@.tree, tmp);
            }
            match self.tree.parent(tmp) {
                Some(parent) => {
                    proof {
                        lemma_with_ast_ok(
                            self@.tree,
                            parent,
                            AstView {
                                last_line_blank: false,
                                ..self@.tree[parent as int].ast
                            },
                        );
                    }
                    self.tree.ast_mut(parent).last_line_blank = false;
                    tmp = parent;
                },
                None => {
                    return ;
                },
            }
        }
    }

    /// Closes everything from the current block up to `top`, but not `top` itself.
    fn close_up_to(&mut self, top: usize)
        requires
            old(self)@.ok(),
            exists|container: usize, first_new: nat| #[trigger]
                forked(old(self)@.tree, old(self)@.current, top, container, first_new),
            old(self)@.linebuf.len() == 0 || old(self)@.line_number > 0,
        ensures
            final(self)@ == old(self)@.closed_up_to(top),
            final(self)@.current == top,
            forall|container: usize, first_new: nat| #[trigger]
                forked(old(self)@.tree, old(self)@.current, top, container, first_new) ==> forked(
                    final(self)@.tree,
                    top,
                    top,
                    container,
                    first_new,
                ),
    {
        let ghost (c, f): (usize, nat) = choose|c: usize, f: nat| #[trigger]
            forked(self@.tree, self@.current, top, c, f);
        while self.current != top
            invariant
                self@.ok(),
                self@.linebuf.len() == 0 || self@.line_number > 0,
                self@.closed_up_to(top) == old(self)@.closed_up_to(top),
                forked(self@.tree, self@.current, top, c, f),
                forall|container: usize, first_new: nat| #[trigger]
                    forked(
                        old(self)@.tree,
                        old(self)@.current,
                        top,
                        container,
                        first_new,
                    ) ==> forked(self@.tree, self@.current, top, container, first_new),
            decreases self@.current,
        {
            let ghost before = self@;
            proof {
                lemma_forked_facts(before, top, c, f);
                lemma_parent(before.tree, before.current);
                lemma_finalized(before, before.current);
                lemma_forked_left(before, top, c, f);
            }
            self.current = self.finalize(self.current).unwrap();
            proof {
                assert forall|container: usize, first_new: nat| #[trigger]
                    forked(
                        old(self)@.tree,
                        old(self)@.current,
                        top,
                        container,
                        first_new,
                    ) implies forked(self@.tree, self@.current, top, container, first_new) by {
                    lemma_forked_left(before, top, container, first_new);
                }
            }
        }
    }

    /// Gives the line to the HTML block, and closes that if the line ends it.
    fn take_html(&mut self, container: usize, line: &[u8], block_type: u8)
        requires
            old(self)@.ok(),
            container < old(self)@.tree.len(),
            old(self)@.cursor.first_nonspace <= line@.len(),
            old(self)@.cursor.partially_consumed_tab ==> old(self)@.cursor.offset < line@.len(),
            old(self)@.value(container) is HtmlBlock,
            is_taking(old(self)@, container),
            old(self)@.linebuf.len() == 0 || old(self)@.line_number > 0,
        ensures
            final(self)@ == old(self)@.html_taken(container, line@, block_type),
            final(self)@.ok(),
            lines_as_before(
                ParserView { current: final(self)@.current, ..old(self)@ },
                final(self)@,
            ),
            spine(final(self)@.tree, final(self)@.current),
    {
        let ghost f: nat = choose|f: nat| #[trigger]
            forked(self@.tree, self@.current, self@.current, container, f);
        let ghost matched = self@.current;
        proof {
            reveal(ParserView::html_taken);
        }
        proof {
            lemma_forked_facts(self@, matched, container, f);
            lemma_line_added_info(self@, container, line@);
        }
        self.add_line(container, line);
        proof {
            lemma_forked_same(old(self)@.tree, self@.tree, matched, matched, container, f);
            lemma_forked_facts(self@, matched, container, f);
        }
        if html_block_end(line, self.cursor.first_nonspace, block_type) {
            let ghost before = self@;
            proof {
                lemma_parent(self@.tree, container);
                lemma_finalized(self@, container);
                lemma_forked_closed(self@, matched, container, f);
            }
            self.current = self.finalize(container).unwrap();
            proof {
                let q = self@.current;
                assert(ancestor(before.tree, q, q));
                assert(ancestor(before.tree, q, container));
                lemma_above(before.tree, q, container);
                assert(self@.tree[q as int].ast == before.tree[q as int].ast);
                lemma_forked_end(self@.tree, matched, q, f);
            }
        } else {
            self.current = container;
            proof {
                lemma_forked_end(self@.tree, matched, container, f);
            }
        }
    }

    /// Gives what is left of the line to `container`, or to a new paragraph in it. The line
    /// loses the closing sequence of a heading.
    fn take_text(&mut self, container: usize, line: &mut Vec<u8>)
        requires
            text_ready(old(self)@, old(line)@, container),
            line_ok(old(line)@),
            old(self)@.cursor.measured(old(line)@),
            is_taking(old(self)@, container),
            old(self)@.linebuf.len() == 0 || old(self)@.line_number > 0,
        ensures
            (final(self)@, final(line)@) == old(self)@.text_taken(container, old(line)@),
            final(self)@.ok(),
            lines_as_before(
                ParserView { current: final(self)@.current, ..old(self)@ },
                final(self)@,
            ),
            spine(final(self)@.tree, final(self)@.current),
    {
        let ghost before = self@;
        let ghost f: nat = choose|f: nat| #[trigger]
            forked(self@.tree, self@.current, self@.current, container, f);
        let ghost matched = self@.current;
        proof {
            reveal(ParserView::text_taken);
            lemma_forked_facts(before, matched, container, f);
            lemma_find_first_nonspace(before.cursor, line@);
            lemma_advance_to(before.cursor, line@, before.cursor.first_nonspace);
            lemma_advance_bytes(
                before.cursor,
                line@,
                before.cursor.first_nonspace - before.cursor.offset,
            );
        }
        let i: usize = self.cursor.first_nonspace;
        let count: usize = i - self.cursor.offset;
        match &self.tree.ast(container).value {
            NodeValue::CodeBlock(_) => {
                self.add_line(container, line.as_slice());
                self.current = container;
                proof {
                    lemma_line_added_info(before, container, line@);
                    lemma_forked_same(before.tree, self@.tree, matched, matched, container, f);
                    lemma_forked_end(self@.tree, matched, container, f);
                }
            },
            NodeValue::HtmlBlock(nhb) => {
                let block_type: u8 = nhb.block_type;
                self.take_html(container, line.as_slice(), block_type);
            },
            value => {
                if self.cursor.blank {
                    self.current = container;
                    proof {
                        lemma_forked_end(self@.tree, matched, container, f);
                    }
                } else if value.accepts_lines() {
                    match value {
                        NodeValue::Heading(nh) => {
                            if !nh.setext {
                                chop_trailing_hashtags(line);
                            }
                        },
                        _ => {},
                    }
                    if count > 0 {
                        self.cursor.advance_offset(line.as_slice(), count, false);
                    }
                    let ghost moved = self@;
                    self.add_line(container, line.as_slice());
                    self.current = container;
                    proof {
                        lemma_line_added_info(moved, container, line@);
                        lemma_forked_same(
                            moved.tree,
                            self@.tree,
                            matched,
                            matched,
                            container,
                            f,
                        );
                        lemma_forked_end(self@.tree, matched, container, f);
                    }
                } else {
                    proof {
                        reveal(forked_at);
                    }
                    let n: usize = self.add_child(container, NodeValue::Paragraph, i + 1);
                    self.cursor.advance_offset(line.as_slice(), count, false);
                    let ghost moved = self@;
                    proof {
                        lemma_forked_facts(moved, matched, n, f);
                    }
                    self.add_line(n, line.as_slice());
                    self.current = n;
                    proof {
                        lemma_line_added_info(moved, n, line@);
                        lemma_forked_same(moved.tree, self@.tree, matched, matched, n, f);
                        lemma_forked_end(self@.tree, matched, n, f);
                    }
                }
            },
        }
    }

    /// Puts the text of the line where it belongs: into a paragraph that the blocks of the line
    /// have left behind, or into `container`.
    fn add_text_to_container(
        &mut self,
        container: usize,
        last_matched_container: usize,
        line: &mut Vec<u8>,
    )
        requires
            text_ready(old(self)@, old(line)@, container),
            line_ok(old(line)@),
            exists|first_new: nat| #[trigger]
                forked(
                    old(self)@.tree,
                    old(self)@.current,
                    last_matched_container,
                    container,
                    first_new,
                ),
            old(self)@.linebuf.len() == 0 || old(self)@.line_number > 0,
        ensures
            (final(self)@, final(line)@) == old(self)@.text_added(
                container,
                last_matched_container,
                old(line)@,
            ),
            final(self)@.ok(),
            lines_as_before(
                ParserView { current: final(self)@.current, ..old(self)@ },
                final(self)@,
            ),
            spine(final(self)@.tree, final(self)@.current),
    {
        let ghost f: nat = choose|f: nat| #[trigger]
            forked(self@.tree, self@.current, last_matched_container, container, f);
        proof {
            reveal(ParserView::text_added);
            lemma_find_first_nonspace(self@.cursor, line@);
        }
        self.cursor.find_first_nonspace(line.as_slice());
        let ghost p = self@;
        proof {
            lemma_blank_noted(p, container);
            lemma_blank_noted_same(p, container);
        }
        self.note_blank(container);
        let ghost q = self@;
        proof {
            lemma_forked_same(p.tree, q.tree, p.current, last_matched_container, container, f);
            lemma_forked_facts(q, last_matched_container, container, f);
        }
        let paragraph: bool = match &self.tree.ast(self.current).value {
            NodeValue::Paragraph => true,
            _ => false,
        };
        if self.current != last_matched_container && container == last_matched_container
            && !self.cursor.blank && paragraph {
            self.add_line(self.current, line.as_slice());
            proof {
                lemma_above(q.tree, last_matched_container, q.current);
                lemma_line_added_info(q, q.current, line@);
                lemma_forked_same(
                    q.tree,
                    self@.tree,
                    q.current,
                    last_matched_container,
                    container,
                    f,
                );
                assert(self@.tree[container as int].ast == q.tree[container as int].ast);
                lemma_forked_lazy(self@.tree, q.current, last_matched_container, f);
            }
        } else {
            proof {
                lemma_closed_up_to(q, last_matched_container);
            }
            self.close_up_to(last_matched_container);
            assert(same_variant(q.value(container), self@.value(container)));
            assert(q.tree[container as int].ast.value == p.tree[container as int].ast.value);
            self.take_text(container, line);
        }
    }

    /// Goes to the start of the next line, behind the byte order mark that the first line may
    /// have.
    fn start_line(&mut self, line: &[u8])
        requires
            old(self)@.line_number < u32::MAX,
            line_ok(line@),
        ensures
            final(self)@ == old(self)@.line_started(line@),
            final(self)@.cursor.on(line@),
            final(self)@.cursor.tab_ok(line@),
    {
        self.cursor.offset = 0;
        self.cursor.column = 0;
        self.cursor.blank = false;
        self.cursor.partially_consumed_tab = false;
        if self.line_number == 0 && line.len() >= 3 && line[0] == 0xef && line[1] == 0xbb
            && line[2] == 0xbf {
            self.cursor.offset = 3;
        }
        self.line_number += 1;
    }

    /// Reads a line, which is given without its end.
    fn process_line(&mut self, text: Vec<u8>)
        requires
            old(self)@.ok(),
            spine(old(self)@.tree, old(self)@.current),
            old(self)@.linebuf.len() == 0,
            old(self)@.line_number < u32::MAX,
            one_line(text@),
            length_ok(text@.len() as int + 1),
            texts_utf8(old(self)@),
            is_utf8(text@),
        ensures
            final(self)@ == old(self)@.line_processed(text@),
            final(self)@.ok(),
            spine(final(self)@.tree, final(self)@.current),
            tables_kept(old(self)@, final(self)@),
            texts_utf8(final(self)@),
            final(self)@.linebuf.len() == 0,
            final(self)@.line_number == old(self)@.line_number + 1,
            final(self)@.last_buffer_ended_with_cr == old(self)@.last_buffer_ended_with_cr,
            final(self)@.options == old(self)@.options,
            final(self)@.syntax == old(self)@.syntax,
    {
        let mut line: Vec<u8> = text;
        if line.len() == 0 || !is_line_end_char(line[line.len() - 1]) {
            line.push(10);
        }
        assert(line@ == text@.push(10));
        assert(line_ok(line@));
        let ghost full = line@;
        proof {
            lemma_utf8_push(text@, 10);
            lemma_line_started_utf8(self@, full);
        }
        self.start_line(line.as_slice());
        let ghost started = self@;
        proof {
            lemma_open_blocks_tables(started, full, ROOT);
            lemma_open_blocks_utf8(started, full, ROOT);
        }
        let mut all_matched: bool = true;
        let checked: Option<usize> = self.check_open_blocks(line.as_slice(), &mut all_matched);
        let ghost p = self@;
        if let Some(last_matched_container) = checked {
            let mut container: usize = last_matched_container;
            proof {
                reveal(forked_at);
            }
            self.open_new_blocks(&mut container, line.as_slice(), all_matched);
            let ghost opened = self@;
            self.add_text_to_container(container, last_matched_container, &mut line);
            proof {
                lemma_text_added_tables(opened, container, last_matched_container, full);
                lemma_text_added_utf8(opened, container, last_matched_container, full);
            }
        }
        self.last_line_length = chomp(line.as_slice());
        proof {
            reveal(ParserView::line_read);
        }
    }

    /// A parser without input. The finished document goes into the arena.
    pub fn new(
        arena: &'a Arena<AstNode<'a>>,
        options: &'o ComrakOptions,
        syntax: &'o S,
    ) -> (r: Parser<'a, 'o, S>)
        ensures
            r@ == ParserView::start(*options, syntax_view(syntax)),
            r@.ready(),
    {
        let root: Ast = make_block(NodeValue::Document, 0, 0);
        let r: Parser<'a, 'o, S> = Parser {
            arena,
            tree: Tree::new(root),
            refmap: RefMap::new(),
            current: ROOT,
            line_number: 0,
            cursor: Cursor::start(),
            last_line_length: 0,
            linebuf: Vec::new(),
            last_buffer_ended_with_cr: false,
            options,
            syntax,
        };
        proof {
            lemma_start(r@.tree, root@);
            lemma_spine_start(r@.tree, root@);
            lemma_start_utf8(*options, syntax_view(syntax));
        }
        r
    }

    /// Takes a piece of the input. Lines that end in it are read; what follows the last line end
    /// waits for the next piece or, if `eof` is set, is the last line.
    pub fn feed(&mut self, buffer: &str, eof: bool)
        requires
            old(self)@.ready(),
            old(self)@.fits(buffer.spec_bytes(), eof),
            old(self)@.last_buffer_ended_with_cr ==> buffer.spec_bytes().len() > 0,
        ensures
            final(self)@ == old(self)@.fed(buffer.spec_bytes(), eof),
            final(self)@.ready(),
            final(self)@.line_number == old(self)@.line_number + line_count(
                old(self)@.unread(buffer.spec_bytes()),
                eof,
            ),
            length_ok(final(self)@.linebuf.len() as int + 1),
            final(self)@.options == old(self)@.options,
            final(self)@.syntax == old(self)@.syntax,
    {
        let bytes: &[u8] = buffer.as_bytes();
        let ghost s = bytes@;
        let len: usize = bytes.len();
        let mut i: usize = 0;
        if self.last_buffer_ended_with_cr && bytes[0] == 10 {
            i = 1;
        }
        self.last_buffer_ended_with_cr = false;
        assert(s.skip(0) =~= s);
        proof {
            lemma_utf8_str(buffer);
            if i == 1 {
                lemma_utf8_around(s, 0);
                lemma_utf8_cut(s, 1);
            }
        }
        while i < len
            invariant
                s == bytes@,
                s == buffer.spec_bytes(),
                len == s.len(),
                i <= len,
                is_utf8(s.skip(i as int)),
                self@.ready(),
                self@.options == old(self)@.options,
                self@.syntax == old(self)@.syntax,
                self@.line_number + line_count(s.skip(i as int), eof) == old(self)@.line_number
                    + line_count(old(self)@.unread(s), eof),
                old(self)@.line_number + line_count(old(self)@.unread(s), eof) <= u32::MAX,
                lines_fit(self@.linebuf.len() as int, s.skip(i as int)),
                self@.text_fed(s.skip(i as int), eof) == old(self)@.fed(s, eof),
            decreases len - i,
        {
            i = self.feed_piece(bytes, i, eof);
        }
        assert(s.skip(i as int).len() == 0);
    }

    /// Takes the input from `i` on up to the next line end or zero byte, and tells where the rest
    /// starts.
    fn feed_piece(&mut self, bytes: &[u8], i: usize, eof: bool) -> (r: usize)
        requires
            i < bytes@.len(),
            is_utf8(bytes@.skip(i as int)),
            old(self)@.ready(),
            old(self)@.line_number + line_count(bytes@.skip(i as int), eof) <= u32::MAX,
            lines_fit(old(self)@.linebuf.len() as int, bytes@.skip(i as int)),
        ensures
            final(self)@ == old(self)@.piece_fed(bytes@.skip(i as int), eof),
            r == i + piece_end(bytes@.skip(i as int)),
            i < r <= bytes@.len(),
            is_utf8(bytes@.skip(r as int)),
            final(self)@.ready(),
            final(self)@.options == old(self)@.options,
            final(self)@.syntax == old(self)@.syntax,
            final(self)@.line_number + line_count(bytes@.skip(r as int), eof) == old(
                self,
            )@.line_number + line_count(bytes@.skip(i as int), eof),
            lines_fit(final(self)@.linebuf.len() as int, bytes@.skip(r as int)),
            final(self)@.text_fed(bytes@.skip(r as int), eof) == old(self)@.text_fed(
                bytes@.skip(i as int),
                eof,
            ),
    {
        let ghost s = bytes@;
        let ghost t = bytes@.skip(i as int);
        let len: usize = bytes.len();
        let mut e: usize = i;
        proof {
            lemma_line_stop_skip(s, i as int, 0);
            lemma_line_stop(s, i as int);
        }
        while e < len && !is_line_end_char(bytes[e]) && bytes[e] != 0
            invariant
                i <= e <= len,
                s == bytes@,
                len == s.len(),
                line_stop(s, i as int) == line_stop(s, e as int),
            decreases len - e,
        {
            e += 1;
        }
        assert(s.subrange(i as int, e as int) =~= t.take(e - i));
        assert(one_line(t.take(e - i)));
        proof {
            lemma_utf8_cut(t, e - i);
        }
        if (e < len && is_line_end_char(bytes[e])) || (e >= len && eof) {
            self.complete_line(bytes, i, e);
        } else {
            self.buffer(bytes, i, e, e < len);
            assert(e >= len ==> t.take(e - i) =~= t);
        }
        let mut j: usize = e;
        if j < len && bytes[j] == 0 {
            j += 1;
        }
        if j < len && bytes[j] == 13 {
            j += 1;
            if j == len {
                self.last_buffer_ended_with_cr = true;
            }
        }
        if j < len && bytes[j] == 10 {
            j += 1;
        }
        proof {
            lemma_utf8_onward(t, e - i, j - i);
            lemma_utf8_cut(t, j - i);
        }
        assert(t.skip(j - i) =~= s.skip(j as int));
        assert(j == i + piece_end(t));
        assert(self@ == old(self)@.piece_fed(t, eof));
        j
    }

    /// Reads the line that is complete with the bytes from `i` up to `e`.
    fn complete_line(&mut self, bytes: &[u8], i: usize, e: usize)
        requires
            i <= e <= bytes@.len(),
            old(self)@.ready(),
            one_line(bytes@.subrange(i as int, e as int)),
            is_utf8(bytes@.subrange(i as int, e as int)),
            old(self)@.line_number < u32::MAX,
            length_ok(old(self)@.linebuf.len() + (e - i) + 1),
        ensures
            final(self)@ == old(self)@.line_completed(bytes@.subrange(i as int, e as int)),
            final(self)@.ready(),
            final(self)@.linebuf.len() == 0,
            final(self)@.line_number == old(self)@.line_number + 1,
            final(self)@.options == old(self)@.options,
            final(self)@.syntax == old(self)@.syntax,
    {
        proof {
            lemma_utf8_empty();
            lemma_utf8_joined(self@.linebuf, bytes@.subrange(i as int, e as int));
        }
        let mut line: Vec<u8> = Vec::new();
        std::mem::swap(&mut line, &mut self.linebuf);
        push_range(&mut line, bytes, i, e);
        self.process_line(line);
    }

    /// Keeps the bytes from `i` up to `e` as part of a line, and what stands for the zero byte
    /// behind them, if there is one.
    fn buffer(&mut self, bytes: &[u8], i: usize, e: usize, zero: bool)
        requires
            i <= e <= bytes@.len(),
            old(self)@.ready(),
            one_line(bytes@.subrange(i as int, e as int)),
            is_utf8(bytes@.subrange(i as int, e as int)),
        ensures
            final(self)@ == old(self)@.buffered(
                if zero {
                    bytes@.subrange(i as int, e as int) + replacement()
                } else {
                    bytes@.subrange(i as int, e as int)
                },
            ),
            final(self)@.ready(),
    {
        proof {
            let part = bytes@.subrange(i as int, e as int);
            lemma_utf8_replacement();
            lemma_utf8_joined(self@.linebuf, part);
            lemma_utf8_joined(part, replacement());
            lemma_utf8_joined(self@.linebuf, part + replacement());
        }
        push_range(&mut self.linebuf, bytes, i, e);
        if zero {
            self.linebuf.push(0xef);
            self.linebuf.push(0xbf);
            self.linebuf.push(0xbd);
            assert(self.linebuf@ =~= old(self)@.linebuf + (bytes@.subrange(i as int, e as int)
                + replacement()));
        }
    }

    /// Ends the input, and gives back the document.
    pub fn finish(&mut self) -> (r: &'a AstNode<'a>)
        requires
            old(self)@.ready(),
            old(self)@.linebuf.len() > 0 ==> old(self)@.line_number < u32::MAX,
            length_ok(old(self)@.linebuf.len() as int + 1),
        ensures
            final(self)@ == old(self)@.finished(),
            r@ == subtree(final(self)@.tree, ROOT),
            r@.ast.value is Document,
            is_done(r@),
            final(self)@.ok(),
            all_closed(final(self)@.tree),
            old(self)@.document_closed().ok(),
            no_blank_paragraph(old(self)@.document_closed().tree),
            blocks_ok(old(self)@.document_closed().tree),
            well_nested(r@),
            tree_utf8(old(self)@.document_closed().tree, keeps_utf8(old(self)@.syntax)),
            document_utf8(r@, keeps_utf8(old(self)@.syntax)),
            old(self)@.options.ext_table || no_tables(old(self)@.document_closed().tree),
            old(self)@.options.ext_table || without_tables(r@),
            final(self)@.linebuf.len() == 0,
            final(self)@.current == ROOT,
            !final(self)@.ready(),
    {
        proof {
            lemma_utf8_empty();
        }
        if self.linebuf.len() > 0 {
            let mut line: Vec<u8> = Vec::new();
            std::mem::swap(&mut line, &mut self.linebuf);
            assert(line@ + Seq::<u8>::empty() =~= line@);
            self.process_line(line);
        }
        self.finalize_document();
        proof {
            lemma_subtree_done(self@.tree, ROOT);
            lemma_subtree_nested(self@.tree, ROOT);
            lemma_subtree_utf8(self@.tree, keeps_utf8(self@.syntax), ROOT);
            if !self@.options.ext_table {
                lemma_subtree_tables(self@.tree, ROOT);
            }
            lemma_not_open(self@.tree);
        }
        export(self.arena, &self.tree, ROOT)
    }

    /// Closes every block, and reads the texts for inline nodes.
    fn finalize_document(&mut self)
        requires
            old(self)@.ok(),
            spine(old(self)@.tree, old(self)@.current),
            old(self)@.linebuf.len() == 0,
            texts_utf8(old(self)@),
            old(self)@.options.ext_table || no_tables(old(self)@.tree),
        ensures
            all_closed(final(self)@.tree),
            texts_utf8(final(self)@),
            old(self)@.options.ext_table || no_tables(final(self)@.tree),
            final(self)@.options == old(self)@.options,
            final(self)@.syntax == old(self)@.syntax,
            ({
                let p = old(self)@.closed_up_to(ROOT).finalized(ROOT);
                &&& final(self)@ == p.inlines_processed(0, p.tree.len() as int)
                &&& p.ok()
                &&& no_blank_paragraph(p.tree)
                &&& blocks_ok(p.tree)
                &&& tree_utf8(p.tree, keeps_utf8(old(self)@.syntax))
                &&& old(self)@.options.ext_table || no_tables(p.tree)
            }),
            final(self)@.ok(),
            blocks_nested(final(self)@.tree),
            final(self)@.linebuf == old(self)@.linebuf,
            final(self)@.current == ROOT,
    {
        proof {
            lemma_spine_facts(self@, ROOT);
            lemma_forked_start(self@.tree, self@.current, ROOT);
            lemma_closed_up_to(self@, ROOT);
            lemma_closed_utf8(self@, ROOT);
            lemma_closed_tables(self@, ROOT);
        }
        let ghost f = self@.tree.len();
        self.close_up_to(ROOT);
        proof {
            lemma_forked_facts(self@, ROOT, ROOT, f);
            lemma_forked_end(self@.tree, ROOT, ROOT, f);
            lemma_all_closed(self@);
            lemma_finalized(self@, ROOT);
            lemma_ancestor_finalized(self@, ROOT);
            lemma_finalized_utf8(self@, ROOT);
            lemma_finalized_tables(self@, ROOT);
        }
        self.finalize(ROOT);
        proof {
            lemma_blocks_nested(self@.tree);
        }
        self.process_inlines();
    }

    /// Reads the texts of all nodes in the tree that hold inline nodes.
    fn process_inlines(&mut self)
        requires
            old(self)@.ok(),
            all_closed(old(self)@.tree),
            blocks_nested(old(self)@.tree),
            texts_utf8(old(self)@),
            old(self)@.options.ext_table || no_tables(old(self)@.tree),
        ensures
            texts_utf8(final(self)@),
            old(self)@.options.ext_table || no_tables(final(self)@.tree),
            final(self)@.options == old(self)@.options,
            final(self)@.syntax == old(self)@.syntax,
            final(self)@ == old(self)@.inlines_processed(0, old(self)@.tree.len() as int),
            final(self)@.ok(),
            all_closed(final(self)@.tree),
            blocks_nested(final(self)@.tree),
            final(self)@.linebuf == old(self)@.linebuf,
            final(self)@.current == old(self)@.current,
    {
        let count: usize = self.tree.len();
        let mut k: usize = 0;
        while k < count
            invariant
                self@.ok(),
                all_closed(self@.tree),
                blocks_nested(self@.tree),
                texts_utf8(self@),
                old(self)@.options.ext_table || no_tables(self@.tree),
                self@.options == old(self)@.options,
                self@.syntax == old(self)@.syntax,
                self@.linebuf == old(self)@.linebuf,
                self@.current == old(self)@.current,
                k <= count <= self@.tree.len(),
                self@.inlines_processed(k as int, count as int) == old(self)@.inlines_processed(
                    0,
                    count as int,
                ),
            decreases count - k,
        {
            if self.tree.parent(k).is_some() && self.tree.ast(k).value.contains_inlines() {
                self.parse_inlines(k);
            }
            k += 1;
        }
    }

    /// Makes the inline nodes that the text of `n` gives its children.
    fn parse_inlines(&mut self, n: usize)
        requires
            old(self)@.ok(),
            all_closed(old(self)@.tree),
            blocks_nested(old(self)@.tree),
            n < old(self)@.tree.len(),
            old(self)@.value(n).inlines_held(),
            texts_utf8(old(self)@),
            old(self)@.options.ext_table || no_tables(old(self)@.tree),
        ensures
            texts_utf8(final(self)@),
            old(self)@.options.ext_table || no_tables(final(self)@.tree),
            final(self)@ == old(self)@.inlines_parsed(n),
            final(self)@.ok(),
            all_closed(final(self)@.tree),
            blocks_nested(final(self)@.tree),
            old(self)@.tree.len() <= final(self)@.tree.len(),
    {
        let mut text: Vec<u8> = copy_bytes(&self.tree.ast(n).content);
        rtrim(&mut text);
        let parsed: Vec<Inline> = self.syntax.parse_inlines(
            text.as_slice(),
            &self.refmap,
            self.options,
        );
        let inlines: Vec<Inline> = consolidate_text_nodes(
            self.syntax,
            self.options.ext_autolink,
            &parsed,
        );
        self.tree.append_forest(n, &inlines);
        proof {
            lemma_inlines_parsed(old(self)@, n);
            lemma_inlines_closed(old(self)@, n);
            lemma_inline_forest(inlines@);
            lemma_forest_nested(old(self)@.tree, n, forest_view(inlines@));
            if !old(self)@.options.ext_table {
                lemma_forest_tables(old(self)@.tree, n, forest_view(inlines@));
            }
            lemma_inlines_utf8(old(self)@, n);
        }
    }
}

/// Parses a document.
pub fn parse_document<'a, S: InlineSyntax>(
    arena: &'a Arena<AstNode<'a>>,
    buffer: &str,
    options: &ComrakOptions,
    syntax: &S,
) -> (r: &'a AstNode<'a>)
    requires
        total_lines(buffer.spec_bytes()) <= u32::MAX,
        lines_fit(0, buffer.spec_bytes()),
    ensures
        ({
            let p = ParserView::start(*options, syntax_view(syntax)).fed(
                buffer.spec_bytes(),
                true,
            );
            &&& r@ == subtree(p.finished().tree, ROOT)
            &&& p.finished().tree.len() <= usize::MAX
            &&& p.document_closed().ok()
            &&& blocks_ok(p.document_closed().tree)
            &&& no_blank_paragraph(p.document_closed().tree)
            &&& tree_utf8(p.document_closed().tree, keeps_utf8(syntax_view(syntax)))
            &&& options.ext_table || no_tables(p.document_closed().tree)
        }),
        r@.ast.value is Document,
        is_done(r@),
        well_nested(r@),
        document_utf8(r@, keeps_utf8(syntax_view(syntax))),
        options.ext_table || without_tables(r@),
{
    let mut parser: Parser<'a, '_, S> = Parser::new(arena, options, syntax);
    proof {
        lemma_total_lines(parser@, buffer.spec_bytes());
    }
    parser.feed(buffer, true);
    parser.finish()
}

} // verus!
