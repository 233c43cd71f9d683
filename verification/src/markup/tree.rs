//! The document as tokens, and the tokens as a document.

use vstd::prelude::*;
use crate::markup::kind::TagKind;
use crate::markup::token::TokenView;
use crate::model::{Alignment, BlockView, DocumentView, InlineView};
use crate::number::{decimal, number_of};

verus! {

/// Where a sequence of blocks stands: in a document, a quote or an item
/// of a list; in a list; in a table; in a row of a table.
#[derive(Clone, Copy, Debug, PartialEq, Eq, Structural)]
pub enum Context {
    Blocks,
    Items,
    Rows,
    Cells,
}

/// The kinds of block that may stand in a context: the items of a list
/// in a list only, the rows of a table in a table only, the cells of a
/// row in a row only, and every other block wherever blocks stand.
pub open spec fn allowed(ctx: Context, k: TagKind) -> bool {
    match ctx {
        Context::Blocks => k == TagKind::Paragraph || k == TagKind::Heading || k == TagKind::List
            || k == TagKind::BlockQuote || k == TagKind::CodeBlock || k == TagKind::Table || k
            == TagKind::ThematicBreak || k == TagKind::RawHtmlBlock,
        Context::Items => k == TagKind::ListItem,
        Context::Rows => k == TagKind::TableRow,
        Context::Cells => k == TagKind::TableCell,
    }
}

/// The context in which the children of a block stand.
pub open spec fn child_context(k: TagKind) -> Context {
    if k == TagKind::List {
        Context::Items
    } else if k == TagKind::Table {
        Context::Rows
    } else if k == TagKind::TableRow {
        Context::Cells
    } else {
        Context::Blocks
    }
}

/// How a truth value is written.
pub open spec fn bool_text(b: bool) -> Seq<char> {
    if b {
        seq!['t', 'r', 'u', 'e']
    } else {
        seq!['f', 'a', 'l', 's', 'e']
    }
}

/// The truth value that a text stands for.
pub open spec fn bool_of(s: Seq<char>) -> Option<bool> {
    if s == bool_text(true) {
        Some(true)
    } else if s == bool_text(false) {
        Some(false)
    } else {
        None
    }
}

/// The level of a heading that a text stands for: a number from 1 to 6.
pub open spec fn level_of(s: Seq<char>) -> Option<u8> {
    match number_of(s) {
        Some(n) => if 1 <= n <= 6 {
            Some(n as u8)
        } else {
            None
        },
        None => None,
    }
}

/// How the first number of a list is written: the empty text where the
/// list has none.
pub open spec fn start_text(start: Option<u64>) -> Seq<char> {
    match start {
        Some(n) => decimal(n as nat),
        None => Seq::empty(),
    }
}

/// The first number of a list that a text stands for.
pub open spec fn start_of(s: Seq<char>) -> Option<Option<u64>> {
    if s.len() == 0 {
        Some(None)
    } else {
        match number_of(s) {
            Some(n) => if n <= u64::MAX {
                Some(Some(n as u64))
            } else {
                None
            },
            None => None,
        }
    }
}

/// The letter for the alignment of a column.
pub open spec fn alignment_char(a: Alignment) -> char {
    match a {
        Alignment::Unaligned => '-',
        Alignment::Left => 'l',
        Alignment::Center => 'c',
        Alignment::Right => 'r',
    }
}

/// The alignment that a letter stands for.
pub open spec fn alignment_of(c: char) -> Option<Alignment> {
    if c == '-' {
        Some(Alignment::Unaligned)
    } else if c == 'l' {
        Some(Alignment::Left)
    } else if c == 'c' {
        Some(Alignment::Center)
    } else if c == 'r' {
        Some(Alignment::Right)
    } else {
        None
    }
}

/// How the alignments of the columns of a table are written: one letter
/// for each column.
pub open spec fn alignments_text(a: Seq<Alignment>) -> Seq<char> {
    Seq::new(a.len(), |i: int| alignment_char(a[i]))
}

/// The alignments that a text stands for.
pub open spec fn alignments_of(s: Seq<char>) -> Option<Seq<Alignment>>
    decreases s.len(),
{
    if s.len() == 0 {
        Some(Seq::empty())
    } else {
        match (alignment_of(s[0]), alignments_of(s.skip(1))) {
            (Some(a), Some(rest)) => Some(seq![a] + rest),
            _ => None,
        }
    }
}

/// A text as tokens: none where it is empty.
pub open spec fn text_tokens(s: Seq<char>) -> Seq<TokenView> {
    if s.len() > 0 {
        seq![TokenView::Text(s)]
    } else {
        Seq::empty()
    }
}

/// An element as tokens: its start, what it holds, its end.
pub open spec fn element(k: TagKind, attributes: Seq<Seq<char>>, inner: Seq<TokenView>) -> Seq<
    TokenView,
> {
    seq![TokenView::Start(k, attributes)] + inner + seq![TokenView::End(k)]
}

/// An inline as tokens.
pub open spec fn flatten_inline(x: InlineView) -> Seq<TokenView>
    decreases x,
{
    match x {
        InlineView::Text(s) => text_tokens(s),
        InlineView::Emphasis(c) => element(TagKind::Emphasis, Seq::empty(), flatten_inlines(c)),
        InlineView::Strong(c) => element(TagKind::Strong, Seq::empty(), flatten_inlines(c)),
        InlineView::Strikethrough(c) => element(
            TagKind::Strikethrough,
            Seq::empty(),
            flatten_inlines(c),
        ),
        InlineView::Link { destination, title, children } => element(
            TagKind::Link,
            seq![destination, title],
            flatten_inlines(children),
        ),
        InlineView::Image { destination, title, alt } => seq![
            TokenView::Start(TagKind::Image, seq![destination, title, alt]),
        ],
        InlineView::CodeSpan(s) => element(TagKind::CodeSpan, Seq::empty(), text_tokens(s)),
        InlineView::RawHtmlInline(s) => element(
            TagKind::RawHtmlInline,
            Seq::empty(),
            text_tokens(s),
        ),
        InlineView::SoftBreak => seq![TokenView::Start(TagKind::SoftBreak, Seq::empty())],
        InlineView::LineBreak => seq![TokenView::Start(TagKind::LineBreak, Seq::empty())],
    }
}

/// A sequence of inlines as tokens.
pub open spec fn flatten_inlines(xs: Seq<InlineView>) -> Seq<TokenView>
    decreases xs,
{
    if xs.len() == 0 {
        Seq::empty()
    } else {
        flatten_inline(xs[0]) + flatten_inlines(xs.skip(1))
    }
}

/// A block as tokens.
pub open spec fn flatten_block(b: BlockView) -> Seq<TokenView>
    decreases b,
{
    match b {
        BlockView::Paragraph(c) => element(TagKind::Paragraph, Seq::empty(), flatten_inlines(c)),
        BlockView::Heading { level, children } => element(
            TagKind::Heading,
            seq![decimal(level as nat)],
            flatten_inlines(children),
        ),
        BlockView::List { ordered, start, tight, items } => element(
            TagKind::List,
            seq![bool_text(ordered), start_text(start), bool_text(tight)],
            flatten_blocks(items),
        ),
        BlockView::ListItem(c) => element(TagKind::ListItem, Seq::empty(), flatten_blocks(c)),
        BlockView::BlockQuote(c) => element(TagKind::BlockQuote, Seq::empty(), flatten_blocks(c)),
        BlockView::CodeBlock { info, literal } => element(
            TagKind::CodeBlock,
            seq![info],
            text_tokens(literal),
        ),
        BlockView::Table { alignments, rows } => element(
            TagKind::Table,
            seq![alignments_text(alignments)],
            flatten_blocks(rows),
        ),
        BlockView::TableRow(c) => element(TagKind::TableRow, Seq::empty(), flatten_blocks(c)),
        BlockView::TableCell { is_header, children } => element(
            TagKind::TableCell,
            seq![bool_text(is_header)],
            flatten_inlines(children),
        ),
        BlockView::ThematicBreak => seq![TokenView::Start(TagKind::ThematicBreak, Seq::empty())],
        BlockView::RawHtmlBlock(s) => element(TagKind::RawHtmlBlock, Seq::empty(), text_tokens(s)),
    }
}

/// A sequence of blocks as tokens.
pub open spec fn flatten_blocks(bs: Seq<BlockView>) -> Seq<TokenView>
    decreases bs,
{
    if bs.len() == 0 {
        Seq::empty()
    } else {
        flatten_block(bs[0]) + flatten_blocks(bs.skip(1))
    }
}

/// A document as tokens: its blocks, inside a root element where that is
/// asked for; no token at all for a document without blocks.
pub open spec fn flatten_document(doc: DocumentView, wrap: bool) -> Seq<TokenView> {
    if doc.blocks.len() == 0 {
        Seq::empty()
    } else if wrap {
        element(TagKind::Document, Seq::empty(), flatten_blocks(doc.blocks))
    } else {
        flatten_blocks(doc.blocks)
    }
}

/// Whether a token begins an inline.
pub open spec fn inline_start(t: TokenView) -> bool {
    match t {
        TokenView::Text(_) => true,
        TokenView::Start(k, _) => k.is_inline(),
        TokenView::End(_) => false,
    }
}

/// Whether a token begins a block that may stand in the context.
pub open spec fn block_start(t: TokenView, ctx: Context) -> bool {
    match t {
        TokenView::Start(k, _) => allowed(ctx, k),
        _ => false,
    }
}

/// The literal text of a protected element, read from the tokens behind
/// its start: the text, and the number of tokens up to and with the end
/// of the element.
pub open spec fn literal_of(ts: Seq<TokenView>, k: TagKind) -> Option<(Seq<char>, int)> {
    if ts.len() >= 1 && ts[0] == TokenView::End(k) {
        Some((Seq::empty(), 1))
    } else if ts.len() >= 2 && ts[0] is Text && ts[1] == TokenView::End(k) {
        Some((ts[0]->Text_0, 2))
    } else {
        None
    }
}

/// The inline that an element with inlines in it stands for.
pub open spec fn inline_element(k: TagKind, a: Seq<Seq<char>>, c: Seq<InlineView>) -> Option<
    InlineView,
> {
    if k == TagKind::Emphasis {
        Some(InlineView::Emphasis(c))
    } else if k == TagKind::Strong {
        Some(InlineView::Strong(c))
    } else if k == TagKind::Strikethrough {
        Some(InlineView::Strikethrough(c))
    } else if k == TagKind::Link && a.len() == 2 {
        Some(InlineView::Link { destination: a[0], title: a[1], children: c })
    } else {
        None
    }
}

/// The inline that an element with literal text in it stands for.
pub open spec fn inline_literal(k: TagKind, s: Seq<char>) -> Option<InlineView> {
    if k == TagKind::CodeSpan {
        Some(InlineView::CodeSpan(s))
    } else if k == TagKind::RawHtmlInline {
        Some(InlineView::RawHtmlInline(s))
    } else {
        None
    }
}

/// The inline that a void element stands for.
pub open spec fn inline_void(k: TagKind, a: Seq<Seq<char>>) -> Option<InlineView> {
    if k == TagKind::Image && a.len() == 3 {
        Some(InlineView::Image { destination: a[0], title: a[1], alt: a[2] })
    } else if k == TagKind::SoftBreak {
        Some(InlineView::SoftBreak)
    } else if k == TagKind::LineBreak {
        Some(InlineView::LineBreak)
    } else {
        None
    }
}

/// Reads one inline from the front of the tokens: the inline, and the
/// number of tokens read.
pub open spec fn build_inline(ts: Seq<TokenView>) -> Option<(InlineView, int)>
    decreases ts.len(), 0int,
{
    if ts.len() == 0 {
        None
    } else {
        match ts[0] {
            TokenView::Text(s) => Some((InlineView::Text(s), 1)),
            TokenView::End(_) => None,
            TokenView::Start(k, a) => {
                if k.is_void() {
                    match inline_void(k, a) {
                        Some(x) => Some((x, 1)),
                        None => None,
                    }
                } else if k.is_protected() {
                    match literal_of(ts.skip(1), k) {
                        Some((s, n)) => match inline_literal(k, s) {
                            Some(x) => Some((x, 1 + n)),
                            None => None,
                        },
                        None => None,
                    }
                } else if k.is_inline() {
                    match build_inlines(ts.skip(1)) {
                        Some((c, n)) => if 0 <= n && 1 + n < ts.len() && ts[1 + n] == TokenView::End(k) {
                            match inline_element(k, a, c) {
                                Some(x) => Some((x, n + 2)),
                                None => None,
                            }
                        } else {
                            None
                        },
                        None => None,
                    }
                } else {
                    None
                }
            },
        }
    }
}

/// Reads inlines from the front of the tokens, as many as there are: the
/// inlines, and the number of tokens read.
pub open spec fn build_inlines(ts: Seq<TokenView>) -> Option<(Seq<InlineView>, int)>
    decreases ts.len(), 1int,
{
    if ts.len() == 0 || !inline_start(ts[0]) {
        Some((Seq::empty(), 0))
    } else {
        match build_inline(ts) {
            Some((x, n)) => if 0 < n <= ts.len() {
                match build_inlines(ts.skip(n)) {
                    Some((xs, m)) => Some((seq![x] + xs, n + m)),
                    None => None,
                }
            } else {
                None
            },
            None => None,
        }
    }
}

/// The block that an element with inlines in it stands for.
pub open spec fn block_of_inlines(k: TagKind, a: Seq<Seq<char>>, c: Seq<InlineView>) -> Option<
    BlockView,
> {
    if k == TagKind::Paragraph {
        Some(BlockView::Paragraph(c))
    } else if k == TagKind::Heading && a.len() == 1 {
        match level_of(a[0]) {
            Some(level) => Some(BlockView::Heading { level, children: c }),
            None => None,
        }
    } else if k == TagKind::TableCell && a.len() == 1 {
        match bool_of(a[0]) {
            Some(is_header) => Some(BlockView::TableCell { is_header, children: c }),
            None => None,
        }
    } else {
        None
    }
}

/// The block that an element with blocks in it stands for.
pub open spec fn block_of_blocks(k: TagKind, a: Seq<Seq<char>>, c: Seq<BlockView>) -> Option<
    BlockView,
> {
    if k == TagKind::BlockQuote {
        Some(BlockView::BlockQuote(c))
    } else if k == TagKind::ListItem {
        Some(BlockView::ListItem(c))
    } else if k == TagKind::TableRow {
        Some(BlockView::TableRow(c))
    } else if k == TagKind::List && a.len() == 3 {
        match (bool_of(a[0]), start_of(a[1]), bool_of(a[2])) {
            (Some(ordered), Some(start), Some(tight)) => Some(
                BlockView::List { ordered, start, tight, items: c },
            ),
            _ => None,
        }
    } else if k == TagKind::Table && a.len() == 1 {
        match alignments_of(a[0]) {
            Some(alignments) => Some(BlockView::Table { alignments, rows: c }),
            None => None,
        }
    } else {
        None
    }
}

/// The block that an element with literal text in it stands for.
pub open spec fn block_literal(k: TagKind, a: Seq<Seq<char>>, s: Seq<char>) -> Option<BlockView> {
    if k == TagKind::CodeBlock && a.len() == 1 {
        Some(BlockView::CodeBlock { info: a[0], literal: s })
    } else if k == TagKind::RawHtmlBlock {
        Some(BlockView::RawHtmlBlock(s))
    } else {
        None
    }
}

/// Whether the blocks of a kind hold inlines.
pub open spec fn holds_inlines(k: TagKind) -> bool {
    k == TagKind::Paragraph || k == TagKind::Heading || k == TagKind::TableCell
}

/// Reads one block from the front of the tokens: the block, and the
/// number of tokens read.
pub open spec fn build_block(ts: Seq<TokenView>) -> Option<(BlockView, int)>
    decreases ts.len(), 0int,
{
    if ts.len() == 0 {
        None
    } else {
        match ts[0] {
            TokenView::Start(k, a) => {
                if k.is_inline() || k == TagKind::Document {
                    None
                } else if k == TagKind::ThematicBreak {
                    Some((BlockView::ThematicBreak, 1))
                } else if k.is_protected() {
                    match literal_of(ts.skip(1), k) {
                        Some((s, n)) => match block_literal(k, a, s) {
                            Some(b) => Some((b, 1 + n)),
                            None => None,
                        },
                        None => None,
                    }
                } else if holds_inlines(k) {
                    match build_inlines(ts.skip(1)) {
                        Some((c, n)) => if 0 <= n && 1 + n < ts.len() && ts[1 + n] == TokenView::End(k) {
                            match block_of_inlines(k, a, c) {
                                Some(b) => Some((b, n + 2)),
                                None => None,
                            }
                        } else {
                            None
                        },
                        None => None,
                    }
                } else {
                    match build_blocks(ts.skip(1), child_context(k)) {
                        Some((c, n)) => if 0 <= n && 1 + n < ts.len() && ts[1 + n] == TokenView::End(k) {
                            match block_of_blocks(k, a, c) {
                                Some(b) => Some((b, n + 2)),
                                None => None,
                            }
                        } else {
                            None
                        },
                        None => None,
                    }
                }
            },
            _ => None,
        }
    }
}

/// Reads blocks from the front of the tokens, as many as there are of
/// those that may stand in the context: the blocks, and the number of
/// tokens read.
pub open spec fn build_blocks(ts: Seq<TokenView>, ctx: Context) -> Option<(Seq<BlockView>, int)>
    decreases ts.len(), 1int,
{
    if ts.len() == 0 || !block_start(ts[0], ctx) {
        Some((Seq::empty(), 0))
    } else {
        match build_block(ts) {
            Some((b, n)) => if 0 < n <= ts.len() {
                match build_blocks(ts.skip(n), ctx) {
                    Some((bs, m)) => Some((seq![b] + bs, n + m)),
                    None => None,
                }
            } else {
                None
            },
            None => None,
        }
    }
}

/// The document that the tokens stand for: blocks from the first token to
/// the last, inside a root element where one is expected. No token at all
/// stands for the document without blocks.
pub open spec fn build_document(ts: Seq<TokenView>, wrapped: bool) -> Option<DocumentView> {
    if ts.len() == 0 {
        Some(DocumentView { blocks: Seq::empty() })
    } else if wrapped {
        if ts[0] == TokenView::Start(TagKind::Document, Seq::empty()) {
            match build_blocks(ts.skip(1), Context::Blocks) {
                Some((bs, n)) => if n + 2 == ts.len() && ts[1 + n] == TokenView::End(
                    TagKind::Document,
                ) {
                    Some(DocumentView { blocks: bs })
                } else {
                    None
                },
                None => None,
            }
        } else {
            None
        }
    } else {
        match build_blocks(ts, Context::Blocks) {
            Some((bs, n)) => if n == ts.len() {
                Some(DocumentView { blocks: bs })
            } else {
                None
            },
            None => None,
        }
    }
}

} // verus!
