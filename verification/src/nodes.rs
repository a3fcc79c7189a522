//! The values that the nodes of a document hold, and the rules that they follow.
use vstd::prelude::*;

verus! {

#[derive(Clone, Copy, PartialEq, Eq, Structural, Debug)]
pub enum ListType {
    Bullet,
    Ordered,
}

#[derive(Clone, Copy, PartialEq, Eq, Structural, Debug)]
pub enum ListDelimType {
    Period,
    Paren,
}

/// A list, or the item of one. `marker_offset` and `padding` tell how far the contents of an
/// item are indented.
#[derive(Clone, Copy, PartialEq, Eq, Structural, Debug)]
pub struct NodeList {
    pub list_type: ListType,
    pub marker_offset: usize,
    pub padding: usize,
    pub start: usize,
    pub delimiter: ListDelimType,
    pub bullet_char: u8,
    pub tight: bool,
}

#[derive(Clone, Copy, PartialEq, Eq, Structural, Debug)]
pub struct NodeHeading {
    pub level: u32,
    pub setext: bool,
}

#[derive(Clone, Copy, PartialEq, Eq, Structural, Debug)]
pub enum TableAlignment {
    Unset,
    Left,
    Center,
    Right,
}

/// Text is held as UTF-8 bytes.
#[derive(Debug)]
pub struct NodeCodeBlock {
    pub fenced: bool,
    pub fence_char: u8,
    pub fence_length: usize,
    pub fence_offset: usize,
    pub info: Vec<u8>,
    pub literal: Vec<u8>,
}

#[derive(Debug)]
pub struct NodeHtmlBlock {
    pub block_type: u8,
    pub literal: Vec<u8>,
}

#[derive(Debug)]
pub struct NodeLink {
    pub url: Vec<u8>,
    pub title: Vec<u8>,
}

#[derive(Debug)]
pub enum NodeValue {
    Document,
    BlockQuote,
    List(NodeList),
    Item(NodeList),
    CodeBlock(NodeCodeBlock),
    HtmlBlock(NodeHtmlBlock),
    Paragraph,
    Heading(NodeHeading),
    ThematicBreak,
    Table(Vec<TableAlignment>),
    TableRow(bool),
    TableCell,
    Text(Vec<u8>),
    SoftBreak,
    LineBreak,
    Code(Vec<u8>),
    HtmlInline(Vec<u8>),
    Emph,
    Strong,
    Strikethrough,
    Link(NodeLink),
    Image(NodeLink),
}

/// The values that inline nodes have.
#[derive(Debug)]
pub enum InlineValue {
    Text(Vec<u8>),
    SoftBreak,
    LineBreak,
    Code(Vec<u8>),
    HtmlInline(Vec<u8>),
    Emph,
    Strong,
    Strikethrough,
    Link(NodeLink),
    Image(NodeLink),
}

/// What a node holds: its value, the text that is gathered for it, the place it came from, and
/// whether it still takes more lines.
#[derive(Debug)]
pub struct Ast {
    pub value: NodeValue,
    pub content: Vec<u8>,
    pub start_line: u32,
    pub start_column: usize,
    pub end_line: u32,
    pub end_column: usize,
    pub open: bool,
    pub last_line_blank: bool,
}

pub struct CodeBlockView {
    pub fenced: bool,
    pub fence_char: u8,
    pub fence_length: usize,
    pub fence_offset: usize,
    pub info: Seq<u8>,
    pub literal: Seq<u8>,
}

pub struct HtmlBlockView {
    pub block_type: u8,
    pub literal: Seq<u8>,
}

pub struct LinkView {
    pub url: Seq<u8>,
    pub title: Seq<u8>,
}

/// A node's value over sequences of bytes.
pub enum ValueView {
    Document,
    BlockQuote,
    List(NodeList),
    Item(NodeList),
    CodeBlock(CodeBlockView),
    HtmlBlock(HtmlBlockView),
    Paragraph,
    Heading(NodeHeading),
    ThematicBreak,
    Table(Seq<TableAlignment>),
    TableRow(bool),
    TableCell,
    Text(Seq<u8>),
    SoftBreak,
    LineBreak,
    Code(Seq<u8>),
    HtmlInline(Seq<u8>),
    Emph,
    Strong,
    Strikethrough,
    Link(LinkView),
    Image(LinkView),
}

/// A node's contents over sequences of bytes.
pub struct AstView {
    pub value: ValueView,
    pub content: Seq<u8>,
    pub start_line: u32,
    pub start_column: usize,
    pub end_line: u32,
    pub end_column: usize,
    pub open: bool,
    pub last_line_blank: bool,
}

impl View for NodeCodeBlock {
    type V = CodeBlockView;

    open spec fn view(&self) -> CodeBlockView {
        CodeBlockView {
            fenced: self.fenced,
            fence_char: self.fence_char,
            fence_length: self.fence_length,
            fence_offset: self.fence_offset,
            info: self.info@,
            literal: self.literal@,
        }
    }
}

impl View for NodeHtmlBlock {
    type V = HtmlBlockView;

    open spec fn view(&self) -> HtmlBlockView {
        HtmlBlockView { block_type: self.block_type, literal: self.literal@ }
    }
}

impl View for NodeLink {
    type V = LinkView;

    open spec fn view(&self) -> LinkView {
        LinkView { url: self.url@, title: self.title@ }
    }
}

impl View for NodeValue {
    type V = ValueView;

    open spec fn view(&self) -> ValueView {
        match self {
            NodeValue::Document => ValueView::Document,
            NodeValue::BlockQuote => ValueView::BlockQuote,
            NodeValue::List(nl) => ValueView::List(*nl),
            NodeValue::Item(nl) => ValueView::Item(*nl),
            NodeValue::CodeBlock(ncb) => ValueView::CodeBlock(ncb@),
            NodeValue::HtmlBlock(nhb) => ValueView::HtmlBlock(nhb@),
            NodeValue::Paragraph => ValueView::Paragraph,
            NodeValue::Heading(nh) => ValueView::Heading(*nh),
            NodeValue::ThematicBreak => ValueView::ThematicBreak,
            NodeValue::Table(aligns) => ValueView::Table(aligns@),
            NodeValue::TableRow(header) => ValueView::TableRow(*header),
            NodeValue::TableCell => ValueView::TableCell,
            NodeValue::Text(text) => ValueView::Text(text@),
            NodeValue::SoftBreak => ValueView::SoftBreak,
            NodeValue::LineBreak => ValueView::LineBreak,
            NodeValue::Code(text) => ValueView::Code(text@),
            NodeValue::HtmlInline(text) => ValueView::HtmlInline(text@),
            NodeValue::Emph => ValueView::Emph,
            NodeValue::Strong => ValueView::Strong,
            NodeValue::Strikethrough => ValueView::Strikethrough,
            NodeValue::Link(link) => ValueView::Link(link@),
            NodeValue::Image(link) => ValueView::Image(link@),
        }
    }
}

impl View for InlineValue {
    type V = ValueView;

    open spec fn view(&self) -> ValueView {
        match self {
            InlineValue::Text(text) => ValueView::Text(text@),
            InlineValue::SoftBreak => ValueView::SoftBreak,
            InlineValue::LineBreak => ValueView::LineBreak,
            InlineValue::Code(text) => ValueView::Code(text@),
            InlineValue::HtmlInline(text) => ValueView::HtmlInline(text@),
            InlineValue::Emph => ValueView::Emph,
            InlineValue::Strong => ValueView::Strong,
            InlineValue::Strikethrough => ValueView::Strikethrough,
            InlineValue::Link(link) => ValueView::Link(link@),
            InlineValue::Image(link) => ValueView::Image(link@),
        }
    }
}

impl View for Ast {
    type V = AstView;

    open spec fn view(&self) -> AstView {
        AstView {
            value: self.value@,
            content: self.content@,
            start_line: self.start_line,
            start_column: self.start_column,
            end_line: self.end_line,
            end_column: self.end_column,
            open: self.open,
            last_line_blank: self.last_line_blank,
        }
    }
}

impl ValueView {
    /// The value belongs to a block.
    pub open spec fn is_block(self) -> bool {
        match self {
            ValueView::Document
            | ValueView::BlockQuote
            | ValueView::List(_)
            | ValueView::Item(_)
            | ValueView::CodeBlock(_)
            | ValueView::HtmlBlock(_)
            | ValueView::Paragraph
            | ValueView::Heading(_)
            | ValueView::ThematicBreak
            | ValueView::Table(_)
            | ValueView::TableRow(_)
            | ValueView::TableCell => true,
            _ => false,
        }
    }

    /// The lines of the text go to the block as they are.
    pub open spec fn lines_accepted(self) -> bool {
        self is Paragraph || self is Heading || self is CodeBlock
    }

    /// The block's text is read for inline elements.
    pub open spec fn inlines_held(self) -> bool {
        self is Paragraph || self is Heading || self is TableCell
    }

    /// A node of this value may hold a child of the value `child`.
    pub open spec fn may_hold(self, child: ValueView) -> bool {
        if child is Document {
            false
        } else {
            match self {
                ValueView::Document | ValueView::BlockQuote | ValueView::Item(_) => {
                    child.is_block() && !(child is Item) && !(child is TableRow)
                        && !(child is TableCell)
                },
                ValueView::List(_) => child is Item,
                ValueView::Table(_) => child is TableRow,
                ValueView::TableRow(_) => child is TableCell,
                ValueView::Paragraph
                | ValueView::Heading(_)
                | ValueView::TableCell
                | ValueView::Emph
                | ValueView::Strong
                | ValueView::Strikethrough
                | ValueView::Link(_)
                | ValueView::Image(_) => !child.is_block(),
                _ => false,
            }
        }
    }
}

impl NodeValue {
    pub fn block(&self) -> (r: bool)
        ensures
            r == self@.is_block(),
    {
        match self {
            NodeValue::Document
            | NodeValue::BlockQuote
            | NodeValue::List(_)
            | NodeValue::Item(_)
            | NodeValue::CodeBlock(_)
            | NodeValue::HtmlBlock(_)
            | NodeValue::Paragraph
            | NodeValue::Heading(_)
            | NodeValue::ThematicBreak
            | NodeValue::Table(_)
            | NodeValue::TableRow(_)
            | NodeValue::TableCell => true,
            _ => false,
        }
    }

    pub fn accepts_lines(&self) -> (r: bool)
        ensures
            r == self@.lines_accepted(),
    {
        match self {
            NodeValue::Paragraph | NodeValue::Heading(_) | NodeValue::CodeBlock(_) => true,
            _ => false,
        }
    }

    pub fn contains_inlines(&self) -> (r: bool)
        ensures
            r == self@.inlines_held(),
    {
        match self {
            NodeValue::Paragraph | NodeValue::Heading(_) | NodeValue::TableCell => true,
            _ => false,
        }
    }

    pub fn can_contain_type(&self, child: &NodeValue) -> (r: bool)
        ensures
            r == self@.may_hold(child@),
    {
        match child {
            NodeValue::Document => {
                return false;
            },
            _ => {},
        }
        match self {
            NodeValue::Document | NodeValue::BlockQuote | NodeValue::Item(_) => {
                child.block() && match child {
                    NodeValue::Item(_) | NodeValue::TableRow(_) | NodeValue::TableCell => false,
                    _ => true,
                }
            },
            NodeValue::List(_) => match child {
                NodeValue::Item(_) => true,
                _ => false,
            },
            NodeValue::Table(_) => match child {
                NodeValue::TableRow(_) => true,
                _ => false,
            },
            NodeValue::TableRow(_) => match child {
                NodeValue::TableCell => true,
                _ => false,
            },
            NodeValue::Paragraph
            | NodeValue::Heading(_)
            | NodeValue::TableCell
            | NodeValue::Emph
            | NodeValue::Strong
            | NodeValue::Strikethrough
            | NodeValue::Link(_)
            | NodeValue::Image(_) => !child.block(),
            _ => false,
        }
    }
}

/// The contents of a block that has just been opened.
pub open spec fn new_block(value: ValueView, start_line: u32, start_column: usize) -> AstView {
    AstView {
        value,
        content: Seq::empty(),
        start_line,
        start_column,
        end_line: 0,
        end_column: 0,
        open: true,
        last_line_blank: false,
    }
}

/// The contents of an inline node. Inline nodes take no lines.
pub open spec fn new_inline(value: ValueView) -> AstView {
    AstView {
        value,
        content: Seq::empty(),
        start_line: 0,
        start_column: 0,
        end_line: 0,
        end_column: 0,
        open: false,
        last_line_blank: false,
    }
}

pub fn make_block(value: NodeValue, start_line: u32, start_column: usize) -> (r: Ast)
    ensures
        r@ == new_block(value@, start_line, start_column),
{
    Ast {
        value,
        content: Vec::new(),
        start_line,
        start_column,
        end_line: 0,
        end_column: 0,
        open: true,
        last_line_blank: false,
    }
}

pub fn make_inline(value: NodeValue) -> (r: Ast)
    ensures
        r@ == new_inline(value@),
{
    Ast {
        value,
        content: Vec::new(),
        start_line: 0,
        start_column: 0,
        end_line: 0,
        end_column: 0,
        open: false,
        last_line_blank: false,
    }
}

/// Nothing holds a document. Lists hold items, tables rows, and rows cells; nothing else does, and
/// they hold nothing else. Documents, quotes and items hold every other block. Paragraphs,
/// headings, cells and the inline nodes that enclose others hold inline nodes, and no blocks. The
/// rest holds nothing.
pub proof fn law_who_holds_what(v: ValueView, child: ValueView)
    ensures
        child is Document ==> !v.may_hold(child),
        child is Item ==> v.may_hold(child) == v is List,
        child is TableRow ==> v.may_hold(child) == v is Table,
        child is TableCell ==> v.may_hold(child) == v is TableRow,
        child is BlockQuote || child is List || child is CodeBlock || child is HtmlBlock
            || child is Paragraph || child is Heading || child is ThematicBreak || child is Table
            ==> v.may_hold(child) == (v is Document || v is BlockQuote || v is Item),
        child is Text || child is SoftBreak || child is LineBreak || child is Code
            || child is HtmlInline || child is Emph || child is Strong || child is Strikethrough
            || child is Link || child is Image ==> v.may_hold(child) == (v is Paragraph
            || v is Heading || v is TableCell || v is Emph || v is Strong || v is Strikethrough
            || v is Link || v is Image),
{
}

/// Lines go as text to paragraphs, headings and code; a block's text is read for inline nodes if
/// the block may hold a text. Blocks are what inline nodes are not.
pub proof fn law_text_of_blocks(v: ValueView, text: Seq<u8>)
    ensures
        v.lines_accepted() == (v is Paragraph || v is Heading || v is CodeBlock),
        v.inlines_held() == (v.is_block() && v.may_hold(ValueView::Text(text))),
        !v.is_block() == (v is Text || v is SoftBreak || v is LineBreak || v is Code
            || v is HtmlInline || v is Emph || v is Strong || v is Strikethrough || v is Link
            || v is Image),
{
}

} // verus!
