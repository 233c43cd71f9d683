//! The document tree: blocks that hold blocks or inlines, inlines that nest.
//!
//! Each executable type has a mathematical view in which strings are
//! sequences of characters and child lists are sequences of views. All
//! contracts of the library speak of the views.

use vstd::prelude::*;

verus! {

/// Column alignment of a table.
#[derive(Clone, Copy, Debug, PartialEq, Eq)]
pub enum Alignment {
    Unaligned,
    Left,
    Center,
    Right,
}

/// Inline content.
#[derive(Debug, PartialEq, Eq)]
pub enum Inline {
    Text(String),
    Emphasis(Vec<Inline>),
    Strong(Vec<Inline>),
    Strikethrough(Vec<Inline>),
    Link { destination: String, title: String, children: Vec<Inline> },
    Image { destination: String, title: String, alt: String },
    CodeSpan(String),
    RawHtmlInline(String),
    SoftBreak,
    LineBreak,
}

/// Block content.
#[derive(Debug, PartialEq, Eq)]
pub enum Block {
    Paragraph(Vec<Inline>),
    Heading { level: u8, children: Vec<Inline> },
    List { ordered: bool, start: Option<u64>, tight: bool, items: Vec<Block> },
    ListItem(Vec<Block>),
    BlockQuote(Vec<Block>),
    CodeBlock { info: String, literal: String },
    Table { alignments: Vec<Alignment>, rows: Vec<Block> },
    TableRow(Vec<Block>),
    TableCell { is_header: bool, children: Vec<Inline> },
    ThematicBreak,
    RawHtmlBlock(String),
}

/// A document: the blocks at its root.
#[derive(Debug, PartialEq, Eq)]
pub struct Document {
    pub blocks: Vec<Block>,
}

/// Mathematical view of `Inline`.
pub ghost enum InlineView {
    Text(Seq<char>),
    Emphasis(Seq<InlineView>),
    Strong(Seq<InlineView>),
    Strikethrough(Seq<InlineView>),
    Link { destination: Seq<char>, title: Seq<char>, children: Seq<InlineView> },
    Image { destination: Seq<char>, title: Seq<char>, alt: Seq<char> },
    CodeSpan(Seq<char>),
    RawHtmlInline(Seq<char>),
    SoftBreak,
    LineBreak,
}

/// Mathematical view of `Block`.
pub ghost enum BlockView {
    Paragraph(Seq<InlineView>),
    Heading { level: u8, children: Seq<InlineView> },
    List { ordered: bool, start: Option<u64>, tight: bool, items: Seq<BlockView> },
    ListItem(Seq<BlockView>),
    BlockQuote(Seq<BlockView>),
    CodeBlock { info: Seq<char>, literal: Seq<char> },
    Table { alignments: Seq<Alignment>, rows: Seq<BlockView> },
    TableRow(Seq<BlockView>),
    TableCell { is_header: bool, children: Seq<InlineView> },
    ThematicBreak,
    RawHtmlBlock(Seq<char>),
}

/// Mathematical view of `Document`.
pub ghost struct DocumentView {
    pub blocks: Seq<BlockView>,
}

/// The views of a sequence of inlines.
pub open spec fn inline_views(s: Seq<Inline>) -> Seq<InlineView>
    decreases s,
{
    Seq::new(s.len(), |i: int| if 0 <= i < s.len() { s[i].view() } else { InlineView::SoftBreak })
}

/// The views of a sequence of blocks.
pub open spec fn block_views(s: Seq<Block>) -> Seq<BlockView>
    decreases s,
{
    Seq::new(s.len(), |i: int| if 0 <= i < s.len() { s[i].view() } else { BlockView::ThematicBreak })
}

impl View for Inline {
    type V = InlineView;

    open spec fn view(&self) -> InlineView
        decreases self,
    {
        match self {
            Inline::Text(s) => InlineView::Text(s@),
            Inline::Emphasis(c) => InlineView::Emphasis(inline_views(c@)),
            Inline::Strong(c) => InlineView::Strong(inline_views(c@)),
            Inline::Strikethrough(c) => InlineView::Strikethrough(inline_views(c@)),
            Inline::Link { destination, title, children } => InlineView::Link {
                destination: destination@,
                title: title@,
                children: inline_views(children@),
            },
            Inline::Image { destination, title, alt } => InlineView::Image {
                destination: destination@,
                title: title@,
                alt: alt@,
            },
            Inline::CodeSpan(s) => InlineView::CodeSpan(s@),
            Inline::RawHtmlInline(s) => InlineView::RawHtmlInline(s@),
            Inline::SoftBreak => InlineView::SoftBreak,
            Inline::LineBreak => InlineView::LineBreak,
        }
    }
}

impl View for Block {
    type V = BlockView;

    open spec fn view(&self) -> BlockView
        decreases self,
    {
        match self {
            Block::Paragraph(c) => BlockView::Paragraph(inline_views(c@)),
            Block::Heading { level, children } => BlockView::Heading {
                level: *level,
                children: inline_views(children@),
            },
            Block::List { ordered, start, tight, items } => BlockView::List {
                ordered: *ordered,
                start: *start,
                tight: *tight,
                items: block_views(items@),
            },
            Block::ListItem(c) => BlockView::ListItem(block_views(c@)),
            Block::BlockQuote(c) => BlockView::BlockQuote(block_views(c@)),
            Block::CodeBlock { info, literal } => BlockView::CodeBlock {
                info: info@,
                literal: literal@,
            },
            Block::Table { alignments, rows } => BlockView::Table {
                alignments: alignments@,
                rows: block_views(rows@),
            },
            Block::TableRow(c) => BlockView::TableRow(block_views(c@)),
            Block::TableCell { is_header, children } => BlockView::TableCell {
                is_header: *is_header,
                children: inline_views(children@),
            },
            Block::ThematicBreak => BlockView::ThematicBreak,
            Block::RawHtmlBlock(s) => BlockView::RawHtmlBlock(s@),
        }
    }
}

impl View for Document {
    type V = DocumentView;

    open spec fn view(&self) -> DocumentView {
        DocumentView { blocks: block_views(self.blocks@) }
    }
}

} // verus!
