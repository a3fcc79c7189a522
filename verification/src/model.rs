//! What the parser does, as functions from one state to the next.
use crate::consolidate::consolidated;
use crate::cursor::{length_ok, tab_width, CursorView, CODE_INDENT};
use crate::html::{html_end, html_start, html_start_7};
use crate::inlines::{info_cleaned, title_cleaned, url_cleaned, SyntaxView};
use crate::list_marker::{list_marker, same_kind};
use crate::nodes::{
    new_block, AstView, CodeBlockView, HtmlBlockView, LinkView, NodeHeading, NodeList, ValueView,
};
use crate::options::ComrakOptions;
use crate::references::{after_line_end, definition, or_inserted, DefinitionView};
use crate::scanners::{atx_start, break_line, fence_end, fence_start, setext_line, SetextChar};
use crate::spine::spine;
use crate::strings::{
    blank_lines_dropped, blank_text, find_line_end, hashtags_chopped, line_end, rtrimmed, skip_run,
    space_or_tab,
};
use crate::table::{row_cells, table_opened};
use crate::texts::texts_utf8;
use crate::tree::{
    appended, detached, first_child, forest_appended, last_child, list_is_loose, replaced, tree_ok,
    with_ast, NodeView,
};
use vstd::prelude::*;

verus! {

/// The number of the document's node.
pub const ROOT: usize = 0;

/// The state of the parser.
pub struct ParserView {
    pub tree: Seq<NodeView>,
    pub refmap: Map<Seq<u8>, LinkView>,
    pub current: usize,
    pub line_number: u32,
    pub cursor: CursorView,
    pub last_line_length: usize,
    pub linebuf: Seq<u8>,
    pub last_buffer_ended_with_cr: bool,
    pub options: ComrakOptions,
    pub syntax: SyntaxView,
}

/// The block that a line opens next.
pub enum BlockStart {
    BlockQuote,
    /// With the length of the match.
    Heading(int),
    /// With the length of the fence.
    CodeFence(int),
    /// With the kind of the block.
    HtmlBlock(u8),
    /// The paragraph becomes a heading.
    Underline(SetextChar),
    ThematicBreak,
    /// With the length of the marker.
    ListItem(int, NodeList),
    IndentedCode,
    /// None of these; it may still be part of a table.
    Other,
}

/// The length of the text without the line feed, and the carriage return before it, at its end.
pub open spec fn chomped_len(s: Seq<u8>) -> int {
    let a = if s.len() > 0 && s.last() == 10 {
        s.len() - 1
    } else {
        s.len() as int
    };
    if a > 0 && s[a - 1] == 13 {
        a - 1
    } else {
        a
    }
}

/// The references with a definition added to them.
pub open spec fn defined(
    syntax: SyntaxView,
    refmap: Map<Seq<u8>, LinkView>,
    d: DefinitionView,
) -> Map<Seq<u8>, LinkView> {
    let label = (syntax.label)(d.label);
    if label.len() > 0 {
        or_inserted(
            refmap,
            label,
            LinkView {
                url: url_cleaned(syntax, d.url),
                title: title_cleaned(syntax, d.title),
            },
        )
    } else {
        refmap
    }
}

/// What is left of a paragraph behind the reference definitions that it starts with, and the
/// references with those added.
pub open spec fn references_taken(
    syntax: SyntaxView,
    s: Seq<u8>,
    refmap: Map<Seq<u8>, LinkView>,
) -> (Seq<u8>, Map<Seq<u8>, LinkView>)
    decreases s.len(),
{
    match definition(s) {
        Some(d) => if 0 < d.end <= s.len() {
            references_taken(syntax, s.skip(d.end), defined(syntax, refmap, d))
        } else {
            (s, refmap)
        },
        None => (s, refmap),
    }
}

/// The code block that its text gives: that of a fenced one starts with the info string's line.
pub open spec fn code_finished(
    syntax: SyntaxView,
    ncb: CodeBlockView,
    content: Seq<u8>,
) -> CodeBlockView {
    if ncb.fenced {
        let e = find_line_end(content, 0);
        CodeBlockView {
            info: info_cleaned(syntax, content.take(e)),
            literal: content.skip(after_line_end(content, e)),
            ..ncb
        }
    } else {
        CodeBlockView { literal: blank_lines_dropped(content).push(10), ..ncb }
    }
}

/// A fenced code block that has just been opened.
pub open spec fn fenced_code(fence_char: u8, length: int, offset: int) -> CodeBlockView {
    CodeBlockView {
        fenced: true,
        fence_char,
        fence_length: length as usize,
        fence_offset: offset as usize,
        info: Seq::empty(),
        literal: Seq::empty(),
    }
}

/// An indented code block that has just been opened.
pub open spec fn indented_code() -> CodeBlockView {
    CodeBlockView {
        fenced: false,
        fence_char: 0,
        fence_length: 0,
        fence_offset: 0,
        info: Seq::empty(),
        literal: Seq::empty(),
    }
}

/// The tree in which nothing above `n` ends in a blank line.
pub open spec fn blank_cleared_above(t: Seq<NodeView>, n: usize) -> Seq<NodeView>
    decreases n,
{
    match t[n as int].parent {
        Some(p) => if p < n {
            blank_cleared_above(
                with_ast(t, p, AstView { last_line_blank: false, ..t[p as int].ast }),
                p,
            )
        } else {
            t
        },
        None => t,
    }
}

/// The tree with table cells of these texts as the last children of `p`.
pub open spec fn cells_appended(
    t: Seq<NodeView>,
    p: usize,
    line_number: u32,
    column: usize,
    cells: Seq<Seq<u8>>,
) -> Seq<NodeView>
    decreases cells.len(),
{
    if cells.len() == 0 {
        t
    } else {
        appended(
            cells_appended(t, p, line_number, column, cells.drop_last()),
            p,
            AstView {
                content: cells.last(),
                ..new_block(ValueView::TableCell, line_number, column)
            },
        )
    }
}

/// The cells of a row, brought to the number `n`.
pub open spec fn cells_fitted(cells: Seq<Seq<u8>>, n: nat) -> Seq<Seq<u8>> {
    Seq::new(
        n,
        |k: int|
            if k < cells.len() {
                cells[k]
            } else {
                Seq::empty()
            },
    )
}

/// The text that a line gives from the cursor on. What is left of a tab that was consumed in
/// part becomes spaces.
pub open spec fn line_text(c: CursorView, line: Seq<u8>) -> Seq<u8> {
    let start = if c.partially_consumed_tab {
        c.offset + 1
    } else {
        c.offset
    };
    let pad = if c.partially_consumed_tab {
        Seq::new(tab_width(c.column) as nat, |k: int| 32u8)
    } else {
        Seq::empty()
    };
    if start < line.len() {
        pad + line.skip(start)
    } else {
        pad
    }
}

/// The cursor behind the white space that follows a list marker, of which it takes no more than
/// six columns from `base` on.
pub open spec fn marker_padding(c: CursorView, line: Seq<u8>, base: int) -> CursorView
    decreases 6 + base - c.column,
{
    if c.column - base <= 5 && 0 <= c.offset < line.len() && space_or_tab(line[c.offset]) {
        let next = c.advance(line, 1, true);
        if c.column < next.column <= base + 6 {
            marker_padding(next, line, base)
        } else {
            next
        }
    } else {
        c
    }
}

/// The cursor at the start of an item's contents, and the padding between marker and contents,
/// where the cursor stands behind a marker of the length `matched`. Too much white space belongs
/// to the contents, except for one column.
pub open spec fn item_contents(c: CursorView, line: Seq<u8>, matched: int) -> (CursorView, int) {
    let padded = marker_padding(c, line, c.column);
    let i = padded.column - c.column;
    if i >= 5 || i < 1 || line_end(line[padded.offset]) {
        (
            if i > 0 {
                c.advance(line, 1, true)
            } else {
                c
            },
            matched + 1,
        )
    } else {
        (padded, matched + i)
    }
}

/// The cursor after the white space before a line of a fenced code block, as much of it as the
/// fence had.
pub open spec fn fence_indent_skipped(c: CursorView, line: Seq<u8>, i: int) -> CursorView
    decreases i,
{
    if i > 0 && 0 <= c.offset < line.len() && space_or_tab(line[c.offset]) {
        fence_indent_skipped(c.advance(line, 1, true), line, i - 1)
    } else {
        c
    }
}

/// The block that a line without indentation opens at `i`, if it is one of these, of which the
/// first counts. `paragraph` tells that the line goes on with a paragraph otherwise.
#[verifier::opaque]
pub open spec fn marked_start(line: Seq<u8>, i: int, paragraph: bool) -> Option<BlockStart> {
    if line[i] == 62 {
        Some(BlockStart::BlockQuote)
    } else if atx_start(line, i) is Some {
        Some(BlockStart::Heading(atx_start(line, i)->0))
    } else if fence_start(line, i) is Some {
        Some(BlockStart::CodeFence(fence_start(line, i)->0))
    } else if html_start(line, i) is Some {
        Some(BlockStart::HtmlBlock(html_start(line, i)->0))
    } else if !paragraph && html_start_7(line, i) {
        Some(BlockStart::HtmlBlock(7))
    } else if paragraph && setext_line(line, i) is Some {
        Some(BlockStart::Underline(setext_line(line, i)->0))
    } else {
        None
    }
}

/// The thematic break or list item that a line opens at `i`, if it does. `may_break` tells that
/// it may be a break; where the line is indented, it can only be an item of a list that is open
/// there, which `list` tells.
#[verifier::opaque]
pub open spec fn break_or_item(
    line: Seq<u8>,
    i: int,
    paragraph: bool,
    list: bool,
    indented: bool,
    may_break: bool,
) -> Option<BlockStart> {
    if !indented && may_break && break_line(line, i) is Some {
        Some(BlockStart::ThematicBreak)
    } else if (!indented || list) && list_marker(line, i, paragraph) is Some {
        let (matched, nl) = list_marker(line, i, paragraph)->0;
        Some(BlockStart::ListItem(matched, nl))
    } else {
        None
    }
}

impl ParserView {
    pub open spec fn value(self, n: usize) -> ValueView {
        self.tree[n as int].ast.value
    }

    pub open spec fn parent(self, n: usize) -> Option<usize> {
        self.tree[n as int].parent
    }

    /// The tree hangs together, its first node is the document, and the current block is one of
    /// its nodes.
    pub open spec fn ok(self) -> bool {
        &&& tree_ok(self.tree)
        &&& self.current < self.tree.len() <= usize::MAX
        &&& self.value(ROOT) is Document
    }

    /// The state before any input.
    pub open spec fn start(options: ComrakOptions, syntax: SyntaxView) -> ParserView {
        ParserView {
            tree: seq![
                NodeView {
                    ast: new_block(ValueView::Document, 0, 0),
                    parent: None,
                    children: Seq::empty(),
                },
            ],
            refmap: Map::empty(),
            current: ROOT,
            line_number: 0,
            cursor: CursorView {
                offset: 0,
                column: 0,
                first_nonspace: 0,
                first_nonspace_column: 0,
                indent: 0,
                blank: false,
                partially_consumed_tab: false,
            },
            last_line_length: 0,
            linebuf: Seq::empty(),
            last_buffer_ended_with_cr: false,
            options,
            syntax,
        }
    }

    /// The state is one between two pieces of the input: the open blocks are in order, and what
    /// is known of the next line is part of one. Tables need the extension, and texts are UTF-8.
    pub open spec fn ready(self) -> bool {
        &&& self.ok()
        &&& spine(self.tree, self.current)
        &&& one_line(self.linebuf)
        &&& self.options.ext_table || no_tables(self.tree)
        &&& texts_utf8(self)
    }

    pub open spec fn at(self, cursor: CursorView) -> ParserView {
        ParserView { cursor, ..self }
    }

    /// The contents of a block that is closed at this point.
    pub open spec fn closed(self, ast: AstView) -> AstView {
        let own_line = match ast.value {
            ValueView::Document => true,
            ValueView::CodeBlock(ncb) => ncb.fenced,
            ValueView::Heading(nh) => nh.setext,
            _ => false,
        };
        if self.linebuf.len() == 0 {
            AstView {
                open: false,
                end_line: self.line_number,
                end_column: self.last_line_length,
                ..ast
            }
        } else if own_line {
            AstView {
                open: false,
                end_line: self.line_number,
                end_column: chomped_len(self.linebuf) as usize,
                ..ast
            }
        } else {
            AstView {
                open: false,
                end_line: (self.line_number - 1) as u32,
                end_column: self.last_line_length,
                ..ast
            }
        }
    }

    /// The state in which `n` is closed. A paragraph gives up the reference definitions at its
    /// start, and leaves the tree if nothing else is in it; code and HTML blocks get their
    /// text; a list learns whether it is tight.
    #[verifier::opaque]
    pub open spec fn finalized(self, n: usize) -> ParserView {
        let ast = self.closed(self.tree[n as int].ast);
        match ast.value {
            ValueView::Paragraph => {
                let (content, refmap) = references_taken(self.syntax, ast.content, self.refmap);
                let t = with_ast(self.tree, n, AstView { content, ..ast });
                ParserView {
                    tree: if blank_text(content) {
                        detached(t, n)
                    } else {
                        t
                    },
                    refmap,
                    ..self
                }
            },
            ValueView::CodeBlock(ncb) => ParserView {
                tree: with_ast(
                    self.tree,
                    n,
                    AstView {
                        value: ValueView::CodeBlock(
                            code_finished(self.syntax, ncb, ast.content),
                        ),
                        content: Seq::empty(),
                        ..ast
                    },
                ),
                ..self
            },
            ValueView::HtmlBlock(nhb) => ParserView {
                tree: with_ast(
                    self.tree,
                    n,
                    AstView {
                        value: ValueView::HtmlBlock(
                            HtmlBlockView { literal: ast.content, ..nhb },
                        ),
                        content: Seq::empty(),
                        ..ast
                    },
                ),
                ..self
            },
            ValueView::List(nl) => ParserView {
                tree: with_ast(
                    self.tree,
                    n,
                    AstView {
                        value: ValueView::List(
                            NodeList { tight: !list_is_loose(self.tree, n), ..nl },
                        ),
                        ..ast
                    },
                ),
                ..self
            },
            _ => ParserView { tree: with_ast(self.tree, n, ast), ..self },
        }
    }

    /// The nearest node from `parent` upwards that may hold `value`, with everything below it
    /// closed.
    pub open spec fn climbed(self, parent: usize, value: ValueView) -> (ParserView, usize)
        decreases parent,
    {
        match self.parent(parent) {
            Some(q) => if q < parent && !self.value(parent).may_hold(value) {
                self.finalized(parent).climbed(q, value)
            } else {
                (self, parent)
            },
            None => (self, parent),
        }
    }

    /// The state with a new block in the nearest place for it, and its number.
    pub open spec fn child_added(
        self,
        parent: usize,
        value: ValueView,
        start_column: int,
    ) -> (ParserView, usize) {
        let (p, q) = self.climbed(parent, value);
        (
            ParserView {
                tree: appended(
                    p.tree,
                    q,
                    new_block(value, p.line_number, start_column as usize),
                ),
                ..p
            },
            p.tree.len() as usize,
        )
    }

    /// The block that the line opens at the cursor, whose indentation has been measured. Where
    /// several would do, the first of these counts.
    pub open spec fn block_start(
        self,
        line: Seq<u8>,
        container: usize,
        all_matched: bool,
        maybe_lazy: bool,
    ) -> BlockStart {
        let i = self.cursor.first_nonspace;
        let indented = self.cursor.indent >= CODE_INDENT;
        let v = self.value(container);
        let other = break_or_item(
            line,
            i,
            v is Paragraph,
            v is List,
            indented,
            all_matched || !(v is Paragraph),
        );
        if !indented && marked_start(line, i, v is Paragraph) is Some {
            marked_start(line, i, v is Paragraph)->0
        } else if other is Some {
            other->0
        } else if indented && !maybe_lazy && !self.cursor.blank {
            BlockStart::IndentedCode
        } else {
            BlockStart::Other
        }
    }

    /// The state in which a block quote is open at the cursor.
    #[verifier::opaque]
    pub open spec fn quote_opened(self, line: Seq<u8>, container: usize) -> (ParserView, usize) {
        let i = self.cursor.first_nonspace;
        let c = self.cursor.advance(line, i + 1 - self.cursor.offset, false);
        let d = if space_or_tab(line[c.offset]) {
            c.advance(line, 1, true)
        } else {
            c
        };
        self.at(d).child_added(container, ValueView::BlockQuote, i + 1)
    }

    /// The state in which a heading is open at the cursor.
    #[verifier::opaque]
    pub open spec fn heading_opened(
        self,
        line: Seq<u8>,
        container: usize,
        matched: int,
    ) -> (ParserView, usize) {
        let i = self.cursor.first_nonspace;
        self.at(self.cursor.advance(line, i + matched - self.cursor.offset, false)).child_added(
            container,
            ValueView::Heading(
                NodeHeading { level: (skip_run(line, i, 35) - i) as u32, setext: false },
            ),
            i + 1,
        )
    }

    /// The state in which a fenced code block is open at the cursor.
    #[verifier::opaque]
    pub open spec fn fence_opened(
        self,
        line: Seq<u8>,
        container: usize,
        matched: int,
    ) -> (ParserView, usize) {
        let i = self.cursor.first_nonspace;
        self.at(self.cursor.advance(line, i + matched - self.cursor.offset, false)).child_added(
            container,
            ValueView::CodeBlock(fenced_code(line[i], matched, i - self.cursor.offset)),
            i + 1,
        )
    }

    /// The state in which a block of raw HTML is open at the cursor.
    #[verifier::opaque]
    pub open spec fn html_opened(self, container: usize, block_type: u8) -> (ParserView, usize) {
        self.child_added(
            container,
            ValueView::HtmlBlock(HtmlBlockView { block_type, literal: Seq::empty() }),
            self.cursor.first_nonspace + 1,
        )
    }

    /// The state in which the paragraph has become a heading.
    #[verifier::opaque]
    pub open spec fn underlined(
        self,
        line: Seq<u8>,
        container: usize,
        sc: SetextChar,
    ) -> (ParserView, usize) {
        let level: u32 = match sc {
            SetextChar::Equals => 1,
            SetextChar::Hyphen => 2,
        };
        let ast = self.tree[container as int].ast;
        (
            ParserView {
                tree: with_ast(
                    self.tree,
                    container,
                    AstView {
                        value: ValueView::Heading(NodeHeading { level, setext: true }),
                        ..ast
                    },
                ),
                cursor: self.cursor.advance(line, line.len() - 1 - self.cursor.offset, false),
                ..self
            },
            container,
        )
    }

    /// The state with a thematic break in it.
    #[verifier::opaque]
    pub open spec fn break_opened(self, line: Seq<u8>, container: usize) -> (ParserView, usize) {
        self.at(
            self.cursor.advance(line, line.len() - 1 - self.cursor.offset, false),
        ).child_added(container, ValueView::ThematicBreak, self.cursor.first_nonspace + 1)
    }

    /// The state in which a list item is open at the cursor, and a list around it, which is a
    /// new one unless the container is a list of the same kind.
    #[verifier::opaque]
    pub open spec fn item_opened(
        self,
        line: Seq<u8>,
        container: usize,
        matched: int,
        nl: NodeList,
    ) -> (ParserView, usize) {
        let i = self.cursor.first_nonspace;
        let (c, padding) = item_contents(
            self.cursor.advance(line, i + matched - self.cursor.offset, false),
            line,
            matched,
        );
        let list = NodeList {
            padding: padding as usize,
            marker_offset: self.cursor.indent as usize,
            ..nl
        };
        let p = self.at(c);
        let continues = match self.value(container) {
            ValueView::List(mnl) => same_kind(list, mnl),
            _ => false,
        };
        let (q, parent) = if continues {
            (p, container)
        } else {
            p.child_added(container, ValueView::List(list), i + 1)
        };
        q.child_added(parent, ValueView::Item(list), i + 1)
    }

    /// The state in which an indented code block is open at the cursor.
    #[verifier::opaque]
    pub open spec fn code_opened(self, line: Seq<u8>, container: usize) -> (ParserView, usize) {
        let c = self.cursor.advance(line, CODE_INDENT as int, true);
        self.at(c).child_added(
            container,
            ValueView::CodeBlock(indented_code()),
            c.offset + 1,
        )
    }

    /// The state in which the line is part of a table, if it is: under a paragraph that makes a
    /// header, a delimiter row turns it into a table; within a table, the line is a row.
    #[verifier::opaque]
    pub open spec fn table_opened(self, line: Seq<u8>, container: usize) -> Option<
        (ParserView, usize),
    > {
        let i = self.cursor.first_nonspace;
        let column = (i + 1) as usize;
        let done = self.cursor.advance(line, line.len() - 1 - self.cursor.offset, false);
        match self.value(container) {
            ValueView::Paragraph => match (
                self.parent(container),
                table_opened(self.tree[container as int].ast.content, line.skip(i)),
            ) {
                (Some(_), Some((aligns, cells))) => {
                    let table = self.tree.len() as usize;
                    let header = (self.tree.len() + 1) as usize;
                    let t = replaced(
                        self.tree,
                        container,
                        new_block(ValueView::Table(aligns), self.line_number, column),
                    );
                    let u = appended(
                        t,
                        table,
                        new_block(ValueView::TableRow(true), self.line_number, column),
                    );
                    Some(
                        (
                            ParserView {
                                tree: cells_appended(u, header, self.line_number, column, cells),
                                cursor: done,
                                ..self
                            },
                            table,
                        ),
                    )
                },
                _ => None,
            },
            ValueView::Table(aligns) => match row_cells(line.skip(i)) {
                Some(cells) => if self.cursor.blank {
                    None
                } else {
                    let row = self.tree.len() as usize;
                    let t = appended(
                        self.tree,
                        container,
                        new_block(ValueView::TableRow(false), self.line_number, column),
                    );
                    Some(
                        (
                            ParserView {
                                tree: cells_appended(
                                    t,
                                    row,
                                    self.line_number,
                                    column,
                                    cells_fitted(cells, aligns.len()),
                                ),
                                cursor: done,
                                ..self
                            },
                            row,
                        ),
                    )
                },
                None => None,
            },
            _ => None,
        }
    }

    /// The state after the next block that the line opens, and the innermost block then, if it
    /// opens one.
    pub open spec fn opened(
        self,
        line: Seq<u8>,
        container: usize,
        all_matched: bool,
        maybe_lazy: bool,
    ) -> Option<(ParserView, usize)> {
        match self.block_start(line, container, all_matched, maybe_lazy) {
            BlockStart::BlockQuote => Some(self.quote_opened(line, container)),
            BlockStart::Heading(matched) => Some(self.heading_opened(line, container, matched)),
            BlockStart::CodeFence(matched) => Some(self.fence_opened(line, container, matched)),
            BlockStart::HtmlBlock(t) => Some(self.html_opened(container, t)),
            BlockStart::Underline(sc) => Some(self.underlined(line, container, sc)),
            BlockStart::ThematicBreak => Some(self.break_opened(line, container)),
            BlockStart::ListItem(matched, nl) => Some(
                self.item_opened(line, container, matched, nl),
            ),
            BlockStart::IndentedCode => Some(self.code_opened(line, container)),
            BlockStart::Other => if self.options.ext_table && self.cursor.indent < CODE_INDENT {
                self.table_opened(line, container)
            } else {
                None
            },
        }
    }

    /// The state after all the blocks that the line opens, and the innermost block then. Within
    /// code and HTML nothing opens, and behind a block that takes lines nothing does either.
    pub open spec fn new_blocks_opened(
        self,
        line: Seq<u8>,
        container: usize,
        all_matched: bool,
        maybe_lazy: bool,
    ) -> (ParserView, usize)
        decreases line.len() - self.cursor.offset,
    {
        if self.value(container) is CodeBlock || self.value(container) is HtmlBlock {
            (self, container)
        } else {
            let p = self.at(self.cursor.find_first_nonspace(line));
            match p.opened(line, container, all_matched, maybe_lazy) {
                None => (p, container),
                Some((q, c)) => if q.value(c).lines_accepted() || q.value(c) is HtmlBlock {
                    (q, c)
                } else if self.cursor.offset < q.cursor.offset <= line.len() {
                    q.new_blocks_opened(line, c, all_matched, false)
                } else {
                    (q, c)
                },
            }
        }
    }

    /// Whether a block quote goes on: the line has its marker, of which a space or tab is part.
    pub open spec fn quote_continued(self, line: Seq<u8>) -> (ParserView, bool) {
        let c = self.cursor;
        if c.indent <= 3 && line[c.first_nonspace] == 62 {
            let d = c.advance(line, c.indent + 1, true);
            let e = if space_or_tab(line[d.offset]) {
                d.advance(line, 1, true)
            } else {
                d
            };
            (self.at(e), true)
        } else {
            (self, false)
        }
    }

    /// Whether the list item `n` goes on: the line is indented as far as its contents, or it is
    /// blank and the item is not empty.
    pub open spec fn item_continued(self, line: Seq<u8>, n: usize, nl: NodeList) -> (
        ParserView,
        bool,
    ) {
        let c = self.cursor;
        if c.indent >= nl.marker_offset + nl.padding {
            (self.at(c.advance(line, nl.marker_offset + nl.padding, true)), true)
        } else if c.blank && first_child(self.tree, n) is Some {
            (self.at(c.advance(line, c.first_nonspace - c.offset, false)), true)
        } else {
            (self, false)
        }
    }

    /// Whether the open block `n` goes on with this line: the state then, whether it does, and
    /// whether anything is left of the line. The indentation has been measured.
    pub open spec fn continued(self, line: Seq<u8>, n: usize) -> (ParserView, bool, bool) {
        let c = self.cursor;
        match self.value(n) {
            ValueView::BlockQuote => {
                let (p, goes_on) = self.quote_continued(line);
                (p, goes_on, true)
            },
            ValueView::Item(nl) => {
                let (p, goes_on) = self.item_continued(line, n, nl);
                (p, goes_on, true)
            },
            ValueView::CodeBlock(ncb) => self.code_continued(line, n, ncb),
            ValueView::Heading(_) => (self, false, true),
            ValueView::HtmlBlock(nhb) => (self, nhb.block_type <= 5 || !c.blank, true),
            ValueView::Paragraph => (self, !c.blank, true),
            ValueView::Table(_) => (self, row_cells(line.skip(c.first_nonspace)) is Some, true),
            ValueView::TableRow(_) => (self, false, true),
            ValueView::TableCell => (self, false, true),
            _ => (self, true, true),
        }
    }

    /// The same for a code block. Indented code goes on while the indentation does, and over
    /// blank lines. Fenced code goes on up to a fence of the same character that is at least as
    /// long, which closes it.
    pub open spec fn code_continued(
        self,
        line: Seq<u8>,
        n: usize,
        ncb: CodeBlockView,
    ) -> (ParserView, bool, bool) {
        let c = self.cursor;
        let matched = if c.indent <= 3 && line[c.first_nonspace] == ncb.fence_char {
            match fence_end(line, c.first_nonspace) {
                Some(m) => m,
                None => 0,
            }
        } else {
            0
        };
        if !ncb.fenced {
            if c.indent >= CODE_INDENT {
                (self.at(c.advance(line, CODE_INDENT as int, true)), true, true)
            } else if c.blank {
                (self.at(c.advance(line, c.first_nonspace - c.offset, false)), true, true)
            } else {
                (self, false, true)
            }
        } else if matched >= ncb.fence_length {
            let p = self.at(c.advance(line, matched, false));
            let parent = match self.parent(n) {
                Some(q) => q,
                None => ROOT,
            };
            (ParserView { current: parent, ..p.finalized(n) }, false, false)
        } else {
            (self.at(fence_indent_skipped(c, line, ncb.fence_offset as int)), true, true)
        }
    }

    /// The open blocks below `container` that go on with this line: the state behind them, the
    /// innermost one, whether all do, and whether anything is left of the line.
    pub open spec fn open_blocks_checked(self, line: Seq<u8>, container: usize) -> (
        ParserView,
        usize,
        bool,
        bool,
    )
        decreases self.tree.len() - container,
    {
        match last_child(self.tree, container) {
            Some(n) => if container < n < self.tree.len() && self.tree[n as int].ast.open {
                let p = self.at(self.cursor.find_first_nonspace(line));
                let (q, goes_on, left) = p.continued(line, n);
                if goes_on && q.tree.len() == self.tree.len() {
                    q.open_blocks_checked(line, n)
                } else {
                    (q, container, false, left)
                }
            } else {
                (self, container, true, true)
            },
            None => (self, container, true, true),
        }
    }

    /// The state with the rest of the line in the text of `n`.
    pub open spec fn line_added(self, n: usize, line: Seq<u8>) -> ParserView {
        let ast = self.tree[n as int].ast;
        ParserView {
            tree: with_ast(
                self.tree,
                n,
                AstView { content: ast.content + line_text(self.cursor, line), ..ast },
            ),
            cursor: CursorView {
                offset: if self.cursor.partially_consumed_tab {
                    self.cursor.offset + 1
                } else {
                    self.cursor.offset
                },
                ..self.cursor
            },
            ..self
        }
    }

    /// The state in which everything from the current block up to `top`, but not `top` itself,
    /// is closed.
    pub open spec fn closed_up_to(self, top: usize) -> ParserView
        decreases self.current,
    {
        if self.current == top {
            self
        } else {
            match self.parent(self.current) {
                Some(q) => if q < self.current {
                    ParserView { current: q, ..self.finalized(self.current) }.closed_up_to(top)
                } else {
                    self
                },
                None => self,
            }
        }
    }

    /// Whether `n` remembers that a blank line was the last one in it.
    pub open spec fn blank_remembered(self, n: usize) -> bool {
        self.cursor.blank && match self.value(n) {
            ValueView::BlockQuote | ValueView::Heading(_) | ValueView::ThematicBreak => false,
            ValueView::CodeBlock(ncb) => !ncb.fenced,
            ValueView::Item(_) => first_child(self.tree, n) is Some
                || self.tree[n as int].ast.start_line != self.line_number,
            _ => true,
        }
    }

    /// The state in which `container`, its last child and everything above it know whether they
    /// end in a blank line.
    #[verifier::opaque]
    pub open spec fn blank_noted(self, container: usize) -> ParserView {
        let t = match last_child(self.tree, container) {
            Some(c) => if self.cursor.blank {
                with_ast(
                    self.tree,
                    c,
                    AstView { last_line_blank: true, ..self.tree[c as int].ast },
                )
            } else {
                self.tree
            },
            None => self.tree,
        };
        let u = with_ast(
            t,
            container,
            AstView {
                last_line_blank: self.blank_remembered(container),
                ..t[container as int].ast
            },
        );
        ParserView { tree: blank_cleared_above(u, container), ..self }
    }

    /// The text of the line goes to a paragraph that the line's blocks have left behind.
    pub open spec fn is_lazy(self, container: usize, last_matched: usize) -> bool {
        self.current != last_matched && container == last_matched && !self.cursor.blank
            && self.value(self.current) is Paragraph
    }

    /// The state in which the HTML block has taken the line. The line may be its last one.
    #[verifier::opaque]
    pub open spec fn html_taken(
        self,
        container: usize,
        line: Seq<u8>,
        block_type: u8,
    ) -> ParserView {
        let p = self.line_added(container, line);
        if html_end(line, self.cursor.first_nonspace, block_type) {
            let parent = match p.parent(container) {
                Some(q) => q,
                None => ROOT,
            };
            ParserView { current: parent, ..p.finalized(container) }
        } else {
            ParserView { current: container, ..p }
        }
    }

    /// The state in which `container` has taken what is left of the line, with what it made of
    /// the line.
    #[verifier::opaque]
    pub open spec fn text_taken(self, container: usize, line: Seq<u8>) -> (ParserView, Seq<u8>) {
        let c = self.cursor;
        match self.value(container) {
            ValueView::CodeBlock(_) => (
                ParserView { current: container, ..self.line_added(container, line) },
                line,
            ),
            ValueView::HtmlBlock(nhb) => (
                self.html_taken(container, line, nhb.block_type),
                line,
            ),
            v => if c.blank {
                (ParserView { current: container, ..self }, line)
            } else if v.lines_accepted() {
                let rest = match v {
                    ValueView::Heading(nh) => if nh.setext {
                        line
                    } else {
                        hashtags_chopped(line)
                    },
                    _ => line,
                };
                let p = self.at(c.advance(rest, c.first_nonspace - c.offset, false));
                (ParserView { current: container, ..p.line_added(container, rest) }, rest)
            } else {
                let (p, n) = self.child_added(
                    container,
                    ValueView::Paragraph,
                    c.first_nonspace + 1,
                );
                let q = p.at(c.advance(line, c.first_nonspace - c.offset, false));
                (ParserView { current: n, ..q.line_added(n, line) }, line)
            },
        }
    }

    /// The state in which the line's text is where it belongs, and what became of the line.
    #[verifier::opaque]
    pub open spec fn text_added(
        self,
        container: usize,
        last_matched: usize,
        line: Seq<u8>,
    ) -> (ParserView, Seq<u8>) {
        let p = self.at(self.cursor.find_first_nonspace(line)).blank_noted(container);
        if p.is_lazy(container, last_matched) {
            (p.line_added(p.current, line), line)
        } else {
            p.closed_up_to(last_matched).text_taken(container, line)
        }
    }

    /// The state at the start of a line. A byte order mark before the first line is skipped.
    pub open spec fn line_started(self, line: Seq<u8>) -> ParserView {
        let bom = self.line_number == 0 && line.len() >= 3 && line[0] == 0xef && line[1] == 0xbb
            && line[2] == 0xbf;
        ParserView {
            cursor: CursorView {
                offset: if bom {
                    3
                } else {
                    0
                },
                column: 0,
                blank: false,
                partially_consumed_tab: false,
                ..self.cursor
            },
            line_number: (self.line_number + 1) as u32,
            ..self
        }
    }

    /// The state after the line, which ends in a line feed, has been read.
    #[verifier::opaque]
    pub open spec fn line_read(self, line: Seq<u8>) -> ParserView {
        let (p, last_matched, all_matched, left) = self.line_started(line).open_blocks_checked(
            line,
            ROOT,
        );
        let (q, rest) = if left {
            let (opened, container) = p.new_blocks_opened(
                line,
                last_matched,
                all_matched,
                p.value(p.current) is Paragraph,
            );
            opened.text_added(container, last_matched, line)
        } else {
            (p, line)
        };
        ParserView { last_line_length: chomped_len(rest) as usize, ..q }
    }

    /// The state after a line that is given without its end.
    pub open spec fn line_processed(self, text: Seq<u8>) -> ParserView {
        self.line_read(
            if text.len() == 0 || !line_end(text.last()) {
                text.push(10)
            } else {
                text
            },
        )
    }
}

/// The first index from `i` on that holds a line end or a zero byte, or the length.
pub open spec fn line_stop(s: Seq<u8>, i: int) -> int
    decreases s.len() - i,
{
    if 0 <= i < s.len() && !line_end(s[i]) && s[i] != 0 {
        line_stop(s, i + 1)
    } else {
        i
    }
}

/// The first piece of the text completes a line.
pub open spec fn line_done(s: Seq<u8>, eof: bool) -> bool {
    let e = line_stop(s, 0);
    if e < s.len() {
        line_end(s[e])
    } else {
        eof
    }
}

/// The index behind the first piece of the text, which ends at a zero byte or with the line.
pub open spec fn piece_stop(s: Seq<u8>) -> int {
    let e = line_stop(s, 0);
    if e < s.len() && s[e] == 0 {
        e + 1
    } else {
        e
    }
}

/// The index behind the first piece of the text and the line end that follows it.
pub open spec fn piece_end(s: Seq<u8>) -> int {
    let a = piece_stop(s);
    let b = if a < s.len() && s[a] == 13 {
        a + 1
    } else {
        a
    };
    if b < s.len() && s[b] == 10 {
        b + 1
    } else {
        b
    }
}

/// The first piece of the text is all of it, but for a carriage return.
pub open spec fn ends_with_cr(s: Seq<u8>) -> bool {
    piece_stop(s) + 1 == s.len() && s[piece_stop(s)] == 13
}

/// The number of lines that the text completes.
pub open spec fn line_count(s: Seq<u8>, eof: bool) -> nat
    decreases s.len(),
{
    if s.len() == 0 {
        0
    } else {
        let n: nat = if line_done(s, eof) {
            1
        } else {
            0
        };
        if 0 < piece_end(s) <= s.len() {
            n + line_count(s.skip(piece_end(s)), eof)
        } else {
            n
        }
    }
}

/// The text ends within a line, in a zero byte or without one.
pub open spec fn ends_within_line(s: Seq<u8>) -> bool
    decreases s.len(),
{
    s.len() > 0 && if 0 < piece_end(s) < s.len() {
        ends_within_line(s.skip(piece_end(s)))
    } else {
        !line_done(s, false)
    }
}

/// The number of lines of a whole text.
pub open spec fn total_lines(s: Seq<u8>) -> nat {
    line_count(s, false) + if ends_within_line(s) {
        1nat
    } else {
        0
    }
}

/// Behind `n` bytes of a line, no line of the text is too long for its columns to be counted.
pub open spec fn lines_fit(n: int, s: Seq<u8>) -> bool
    decreases s.len(),
{
    if s.len() == 0 {
        length_ok(n + 1)
    } else {
        let e = line_stop(s, 0);
        length_ok(n + e + 1) && (e < s.len() && 0 < piece_end(s) <= s.len() ==> lines_fit(
            if s[e] == 0 {
                n + e + 3
            } else {
                0
            },
            s.skip(piece_end(s)),
        ))
    }
}

/// No node is a table.
pub open spec fn no_tables(t: Seq<NodeView>) -> bool {
    forall|n: int| #![trigger t[n]] 0 <= n < t.len() ==> !(t[n].ast.value is Table)
}

/// No line ends within the text, and it holds no zero byte.
pub open spec fn one_line(s: Seq<u8>) -> bool {
    forall|k: int| 0 <= k < s.len() ==> !line_end(#[trigger] s[k]) && s[k] != 0
}

/// The UTF-8 bytes of U+FFFD, which stands for a zero byte.
pub open spec fn replacement() -> Seq<u8> {
    seq![0xefu8, 0xbfu8, 0xbdu8]
}

impl ParserView {
    /// The state with `text` behind what is known of the line.
    pub open spec fn buffered(self, text: Seq<u8>) -> ParserView {
        ParserView { linebuf: self.linebuf + text, ..self }
    }

    /// The state after the line that is complete with `text`.
    pub open spec fn line_completed(self, text: Seq<u8>) -> ParserView {
        ParserView { linebuf: Seq::empty(), ..self }.line_processed(self.linebuf + text)
    }

    /// The state after the first piece of the text.
    pub open spec fn piece_fed(self, s: Seq<u8>, eof: bool) -> ParserView {
        let e = line_stop(s, 0);
        let p = if line_done(s, eof) {
            self.line_completed(s.take(e))
        } else if e < s.len() {
            self.buffered(s.take(e) + replacement())
        } else {
            self.buffered(s)
        };
        if ends_with_cr(s) {
            ParserView { last_buffer_ended_with_cr: true, ..p }
        } else {
            p
        }
    }

    /// The state after the text, as far as it holds whole lines or, at the end of the input, all
    /// of it.
    pub open spec fn text_fed(self, s: Seq<u8>, eof: bool) -> ParserView
        decreases s.len(),
    {
        if s.len() == 0 {
            self
        } else {
            let p = self.piece_fed(s, eof);
            if 0 < piece_end(s) <= s.len() {
                p.text_fed(s.skip(piece_end(s)), eof)
            } else {
                p
            }
        }
    }

    /// The piece of the input without the line feed that belongs to a carriage return at the end
    /// of the piece before.
    pub open spec fn unread(self, s: Seq<u8>) -> Seq<u8> {
        if self.last_buffer_ended_with_cr && s.len() > 0 && s[0] == 10 {
            s.skip(1)
        } else {
            s
        }
    }

    /// The state after a piece of the input.
    pub open spec fn fed(self, s: Seq<u8>, eof: bool) -> ParserView {
        ParserView { last_buffer_ended_with_cr: false, ..self }.text_fed(self.unread(s), eof)
    }

    /// The piece of the input does not exceed what can be counted: the lines, and the columns of
    /// one line.
    pub open spec fn fits(self, s: Seq<u8>, eof: bool) -> bool {
        &&& self.line_number + line_count(self.unread(s), eof) <= u32::MAX
        &&& lines_fit(self.linebuf.len() as int, self.unread(s))
    }

    /// The state in which every block is closed.
    pub open spec fn document_closed(self) -> ParserView {
        let p = if self.linebuf.len() > 0 {
            self.line_completed(Seq::empty())
        } else {
            self
        };
        p.closed_up_to(ROOT).finalized(ROOT)
    }

    /// The state in which the text of `n` has been read for inline nodes.
    pub open spec fn inlines_parsed(self, n: usize) -> ParserView {
        let f = (self.syntax.inlines)(
            rtrimmed(self.tree[n as int].ast.content),
            self.refmap,
            self.options,
        );
        ParserView {
            tree: forest_appended(
                self.tree,
                n,
                consolidated(self.syntax, self.options.ext_autolink, f),
            ),
            ..self
        }
    }

    /// The state in which this has been done for the nodes from `k` up to `end` that are in the
    /// tree and hold inline nodes.
    pub open spec fn inlines_processed(self, k: int, end: int) -> ParserView
        decreases end - k,
    {
        if k < end {
            let p = if self.parent(k as usize) is Some && self.value(k as usize).inlines_held() {
                self.inlines_parsed(k as usize)
            } else {
                self
            };
            p.inlines_processed(k + 1, end)
        } else {
            self
        }
    }

    /// The state at the end of the input.
    pub open spec fn finished(self) -> ParserView {
        let p = self.document_closed();
        p.inlines_processed(0, p.tree.len() as int)
    }
}

} // verus!
