//! A well-formed document is read back from its tokens, and its tokens are
//! read back from their text.

use vstd::prelude::*;
use crate::markup::kind::TagKind;
use crate::markup::lexer_laws::{lemma_lex_tokens_text, lemma_tokens_ok_concat, tokens_ok};
use crate::markup::reader::document_in;
use crate::markup::token::TokenView;
use crate::markup::tree::{
    alignment_char, alignment_of, alignments_of, alignments_text, allowed, block_start, bool_of,
    bool_text, build_block, build_blocks, build_document, build_inline, build_inlines,
    child_context, Context, element, flatten_block, flatten_blocks, flatten_document,
    flatten_inline, flatten_inlines, inline_start, level_of, literal_of, start_of, start_text,
    text_tokens,
};
use crate::markup::writer::markup_of;
use crate::model::{Alignment, BlockView, DocumentView, InlineView};
use crate::number::{decimal, lemma_number_of_decimal};

verus! {

/// The kind of element that stands for a block.
pub open spec fn block_kind(b: BlockView) -> TagKind {
    match b {
        BlockView::Paragraph(_) => TagKind::Paragraph,
        BlockView::Heading { .. } => TagKind::Heading,
        BlockView::List { .. } => TagKind::List,
        BlockView::ListItem(_) => TagKind::ListItem,
        BlockView::BlockQuote(_) => TagKind::BlockQuote,
        BlockView::CodeBlock { .. } => TagKind::CodeBlock,
        BlockView::Table { .. } => TagKind::Table,
        BlockView::TableRow(_) => TagKind::TableRow,
        BlockView::TableCell { .. } => TagKind::TableCell,
        BlockView::ThematicBreak => TagKind::ThematicBreak,
        BlockView::RawHtmlBlock(_) => TagKind::RawHtmlBlock,
    }
}

/// An inline is well-formed: a text is not empty, and what it holds is
/// well-formed.
pub open spec fn inline_ok(x: InlineView) -> bool
    decreases x,
{
    match x {
        InlineView::Text(s) => s.len() > 0,
        InlineView::Emphasis(c) => inlines_ok(c),
        InlineView::Strong(c) => inlines_ok(c),
        InlineView::Strikethrough(c) => inlines_ok(c),
        InlineView::Link { children, .. } => inlines_ok(children),
        _ => true,
    }
}

/// Inlines are well-formed: each of them is, and no text follows a text.
pub open spec fn inlines_ok(xs: Seq<InlineView>) -> bool
    decreases xs,
{
    if xs.len() == 0 {
        true
    } else {
        &&& inline_ok(xs[0])
        &&& (xs.len() > 1 && xs[0] is Text ==> !(xs[1] is Text))
        &&& inlines_ok(xs.skip(1))
    }
}

/// A block is well-formed: the level of a heading is one of 1 to 6, a
/// list holds items, a table rows and a row cells, and what it holds is
/// well-formed.
pub open spec fn block_ok(b: BlockView) -> bool
    decreases b,
{
    match b {
        BlockView::Paragraph(c) => inlines_ok(c),
        BlockView::Heading { level, children } => 1 <= level <= 6 && inlines_ok(children),
        BlockView::List { items, .. } => blocks_ok(items, Context::Items),
        BlockView::ListItem(c) => blocks_ok(c, Context::Blocks),
        BlockView::BlockQuote(c) => blocks_ok(c, Context::Blocks),
        BlockView::Table { rows, .. } => blocks_ok(rows, Context::Rows),
        BlockView::TableRow(c) => blocks_ok(c, Context::Cells),
        BlockView::TableCell { children, .. } => inlines_ok(children),
        _ => true,
    }
}

/// Blocks are well-formed in a context: each of them is, and each may
/// stand in the context.
pub open spec fn blocks_ok(bs: Seq<BlockView>, ctx: Context) -> bool
    decreases bs,
{
    if bs.len() == 0 {
        true
    } else {
        &&& allowed(ctx, block_kind(bs[0]))
        &&& block_ok(bs[0])
        &&& blocks_ok(bs.skip(1), ctx)
    }
}

/// A document is well-formed.
pub open spec fn document_ok(doc: DocumentView) -> bool {
    blocks_ok(doc.blocks, Context::Blocks)
}

/// A truth value is read back.
pub proof fn lemma_bool_of(b: bool)
    ensures
        bool_of(bool_text(b)) == Some(b),
{
    assert(bool_text(true).len() != bool_text(false).len());
}

/// The alignments of a table are read back.
pub proof fn lemma_alignments_of(a: Seq<Alignment>)
    ensures
        alignments_of(alignments_text(a)) == Some(a),
    decreases a.len(),
{
    if a.len() > 0 {
        lemma_alignments_of(a.skip(1));
        assert(alignments_text(a).skip(1) =~= alignments_text(a.skip(1)));
        assert(alignment_of(alignment_char(a[0])) == Some(a[0]));
        assert(seq![a[0]] + a.skip(1) =~= a);
    } else {
        assert(a =~= Seq::<Alignment>::empty());
    }
}

/// The level of a heading is read back.
pub proof fn lemma_level_of(level: u8)
    requires
        1 <= level <= 6,
    ensures
        level_of(decimal(level as nat)) == Some(level),
{
    lemma_number_of_decimal(level as nat);
}

/// The first number of a list is read back.
pub proof fn lemma_start_of(start: Option<u64>)
    ensures
        start_of(start_text(start)) == Some(start),
{
    if let Some(n) = start {
        lemma_number_of_decimal(n as nat);
    }
}

/// The literal text of a protected element is read back.
pub proof fn lemma_literal_of(s: Seq<char>, k: TagKind, post: Seq<TokenView>)
    ensures
        literal_of(text_tokens(s) + seq![TokenView::End(k)] + post, k) == Some(
            (s, text_tokens(s).len() as int + 1),
        ),
{
    let ts = text_tokens(s) + seq![TokenView::End(k)] + post;
    if s.len() > 0 {
        assert(ts[0] == TokenView::Text(s));
        assert(ts[1] == TokenView::End(k));
    } else {
        assert(ts[0] == TokenView::End(k));
        assert(s =~= Seq::<char>::empty());
    }
}

/// The tokens of an inline are not empty and begin an inline.
#[verifier::rlimit(40)]
pub proof fn lemma_flatten_inline_start(x: InlineView)
    requires
        inline_ok(x),
    ensures
        flatten_inline(x).len() > 0,
        inline_start(flatten_inline(x)[0]),
        flatten_inline(x)[0] is Text <==> x is Text,
        flatten_inline(x).last() is Text <==> x is Text,
{
}

/// An inline is read back from its tokens, whatever follows them.
#[verifier::rlimit(40)]
pub proof fn lemma_build_inline(x: InlineView, post: Seq<TokenView>)
    requires
        inline_ok(x),
    ensures
        build_inline(flatten_inline(x) + post) == Some((x, flatten_inline(x).len() as int)),
    decreases x, 0int,
{
    let ts = flatten_inline(x) + post;
    match x {
        InlineView::Text(s) => {
            assert(ts[0] == TokenView::Text(s));
        },
        InlineView::Emphasis(c) => {
            lemma_build_container(TagKind::Emphasis, Seq::empty(), c, post);
        },
        InlineView::Strong(c) => {
            lemma_build_container(TagKind::Strong, Seq::empty(), c, post);
        },
        InlineView::Strikethrough(c) => {
            lemma_build_container(TagKind::Strikethrough, Seq::empty(), c, post);
        },
        InlineView::Link { destination, title, children } => {
            lemma_build_container(TagKind::Link, seq![destination, title], children, post);
        },
        InlineView::Image { destination, title, alt } => {
            assert(ts[0] == TokenView::Start(TagKind::Image, seq![destination, title, alt]));
        },
        InlineView::CodeSpan(s) => {
            let k = TagKind::CodeSpan;
            assert(ts[0] == TokenView::Start(k, Seq::empty()));
            assert(ts.skip(1) =~= text_tokens(s) + seq![TokenView::End(k)] + post);
            lemma_literal_of(s, k, post);
        },
        InlineView::RawHtmlInline(s) => {
            let k = TagKind::RawHtmlInline;
            assert(ts[0] == TokenView::Start(k, Seq::empty()));
            assert(ts.skip(1) =~= text_tokens(s) + seq![TokenView::End(k)] + post);
            lemma_literal_of(s, k, post);
        },
        InlineView::SoftBreak => {
            assert(ts[0] == TokenView::Start(TagKind::SoftBreak, Seq::empty()));
        },
        InlineView::LineBreak => {
            assert(ts[0] == TokenView::Start(TagKind::LineBreak, Seq::empty()));
        },
    }
}

/// The inlines of an element are read back from the tokens of the element,
/// up to its end.
proof fn lemma_build_container(
    k: TagKind,
    a: Seq<Seq<char>>,
    c: Seq<InlineView>,
    post: Seq<TokenView>,
)
    requires
        inlines_ok(c),
    ensures
        build_inlines((element(k, a, flatten_inlines(c)) + post).skip(1)) == Some(
            (c, flatten_inlines(c).len() as int),
        ),
        (element(k, a, flatten_inlines(c)) + post)[0] == TokenView::Start(k, a),
        (element(k, a, flatten_inlines(c)) + post)[1 + flatten_inlines(c).len() as int] == TokenView::End(
            k,
        ),
        element(k, a, flatten_inlines(c)).len() == flatten_inlines(c).len() + 2,
    decreases c, 2int,
{
    let inner = flatten_inlines(c);
    let ts = element(k, a, inner) + post;
    let rest = seq![TokenView::End(k)] + post;
    assert(ts.skip(1) =~= inner + rest);
    assert(rest[0] == TokenView::End(k));
    lemma_build_inlines(c, rest);
    assert(ts[1 + inner.len() as int] == rest[0]);
}

/// Inlines are read back from their tokens, where what follows begins no
/// inline.
pub proof fn lemma_build_inlines(xs: Seq<InlineView>, post: Seq<TokenView>)
    requires
        inlines_ok(xs),
        post.len() == 0 || !inline_start(post[0]),
    ensures
        build_inlines(flatten_inlines(xs) + post) == Some((xs, flatten_inlines(xs).len() as int)),
    decreases xs, 1int,
{
    let ts = flatten_inlines(xs) + post;
    if xs.len() == 0 {
        assert(ts =~= post);
        assert(xs =~= Seq::<InlineView>::empty());
    } else {
        let head = flatten_inline(xs[0]);
        let tail = flatten_inlines(xs.skip(1));
        lemma_flatten_inline_start(xs[0]);
        assert(ts =~= head + (tail + post));
        assert(ts[0] == head[0]);
        lemma_build_inline(xs[0], tail + post);
        assert(ts.skip(head.len() as int) =~= tail + post);
        lemma_build_inlines(xs.skip(1), post);
        assert(seq![xs[0]] + xs.skip(1) =~= xs);
    }
}

/// The tokens of a block are not empty and begin with the start of its
/// element.
#[verifier::rlimit(40)]
pub proof fn lemma_flatten_block_start(b: BlockView)
    ensures
        flatten_block(b).len() > 0,
        flatten_block(b)[0] is Start,
        flatten_block(b)[0]->Start_0 == block_kind(b),
        !(flatten_block(b).last() is Text),
{
}

/// The blocks of an element are read back from the tokens of the element,
/// up to its end.
proof fn lemma_build_children(
    k: TagKind,
    a: Seq<Seq<char>>,
    c: Seq<BlockView>,
    post: Seq<TokenView>,
)
    requires
        blocks_ok(c, child_context(k)),
    ensures
        build_blocks((element(k, a, flatten_blocks(c)) + post).skip(1), child_context(k)) == Some(
            (c, flatten_blocks(c).len() as int),
        ),
        (element(k, a, flatten_blocks(c)) + post)[0] == TokenView::Start(k, a),
        (element(k, a, flatten_blocks(c)) + post)[1 + flatten_blocks(c).len() as int] == TokenView::End(k),
        element(k, a, flatten_blocks(c)).len() == flatten_blocks(c).len() + 2,
    decreases c, 2int,
{
    let inner = flatten_blocks(c);
    let ts = element(k, a, inner) + post;
    let rest = seq![TokenView::End(k)] + post;
    assert(ts.skip(1) =~= inner + rest);
    assert(rest[0] == TokenView::End(k));
    lemma_build_blocks(c, child_context(k), rest);
    assert(ts[1 + inner.len() as int] == rest[0]);
}

/// A block is read back from its tokens, whatever follows them.
#[verifier::rlimit(40)]
pub proof fn lemma_build_block(b: BlockView, post: Seq<TokenView>)
    requires
        block_ok(b),
    ensures
        build_block(flatten_block(b) + post) == Some((b, flatten_block(b).len() as int)),
    decreases b, 0int,
{
    let ts = flatten_block(b) + post;
    match b {
        BlockView::Paragraph(c) => {
            lemma_build_container(TagKind::Paragraph, Seq::empty(), c, post);
        },
        BlockView::Heading { level, children } => {
            lemma_level_of(level);
            lemma_build_container(TagKind::Heading, seq![decimal(level as nat)], children, post);
        },
        BlockView::List { ordered, start, tight, items } => {
            lemma_bool_of(ordered);
            lemma_bool_of(tight);
            lemma_start_of(start);
            lemma_build_children(
                TagKind::List,
                seq![bool_text(ordered), start_text(start), bool_text(tight)],
                items,
                post,
            );
        },
        BlockView::ListItem(c) => {
            lemma_build_children(TagKind::ListItem, Seq::empty(), c, post);
        },
        BlockView::BlockQuote(c) => {
            lemma_build_children(TagKind::BlockQuote, Seq::empty(), c, post);
        },
        BlockView::CodeBlock { info, literal } => {
            let k = TagKind::CodeBlock;
            assert(ts[0] == TokenView::Start(k, seq![info]));
            assert(ts.skip(1) =~= text_tokens(literal) + seq![TokenView::End(k)] + post);
            lemma_literal_of(literal, k, post);
        },
        BlockView::Table { alignments, rows } => {
            lemma_alignments_of(alignments);
            lemma_build_children(TagKind::Table, seq![alignments_text(alignments)], rows, post);
        },
        BlockView::TableRow(c) => {
            lemma_build_children(TagKind::TableRow, Seq::empty(), c, post);
        },
        BlockView::TableCell { is_header, children } => {
            lemma_bool_of(is_header);
            lemma_build_container(TagKind::TableCell, seq![bool_text(is_header)], children, post);
        },
        BlockView::ThematicBreak => {
            assert(ts[0] == TokenView::Start(TagKind::ThematicBreak, Seq::empty()));
        },
        BlockView::RawHtmlBlock(s) => {
            let k = TagKind::RawHtmlBlock;
            assert(ts[0] == TokenView::Start(k, Seq::empty()));
            assert(ts.skip(1) =~= text_tokens(s) + seq![TokenView::End(k)] + post);
            lemma_literal_of(s, k, post);
        },
    }
}

/// Blocks are read back from their tokens, where what follows begins no
/// block of the context.
pub proof fn lemma_build_blocks(bs: Seq<BlockView>, ctx: Context, post: Seq<TokenView>)
    requires
        blocks_ok(bs, ctx),
        post.len() == 0 || !block_start(post[0], ctx),
    ensures
        build_blocks(flatten_blocks(bs) + post, ctx) == Some((bs, flatten_blocks(bs).len() as int)),
    decreases bs, 1int,
{
    let ts = flatten_blocks(bs) + post;
    if bs.len() == 0 {
        assert(ts =~= post);
        assert(bs =~= Seq::<BlockView>::empty());
    } else {
        let head = flatten_block(bs[0]);
        let tail = flatten_blocks(bs.skip(1));
        lemma_flatten_block_start(bs[0]);
        assert(ts =~= head + (tail + post));
        assert(ts[0] == head[0]);
        lemma_build_block(bs[0], tail + post);
        assert(ts.skip(head.len() as int) =~= tail + post);
        lemma_build_blocks(bs.skip(1), ctx, post);
        assert(seq![bs[0]] + bs.skip(1) =~= bs);
    }
}

/// A well-formed document is read back from its tokens.
pub proof fn lemma_build_document(doc: DocumentView, wrap: bool)
    requires
        document_ok(doc),
    ensures
        build_document(flatten_document(doc, wrap), wrap) == Some(doc),
{
    let bs = doc.blocks;
    if bs.len() == 0 {
        assert(bs =~= Seq::<BlockView>::empty());
    } else {
        lemma_flatten_block_start(bs[0]);
        let inner = flatten_blocks(bs);
        assert(inner.len() > 0);
        if wrap {
            let k = TagKind::Document;
            let ts = element(k, Seq::empty(), inner);
            let rest = seq![TokenView::End(k)];
            assert(ts.skip(1) =~= inner + rest);
            assert(rest[0] == TokenView::End(k));
            lemma_build_blocks(bs, Context::Blocks, rest);
            assert(ts[0] == TokenView::Start(k, Seq::empty()));
            assert(ts[1 + inner.len() as int] == rest[0]);
        } else {
            lemma_build_blocks(bs, Context::Blocks, Seq::empty());
            assert(inner + Seq::<TokenView>::empty() =~= inner);
        }
    }
}

/// The tokens of an element are well-formed where its start is and what
/// it holds is.
pub proof fn lemma_element_ok(k: TagKind, a: Seq<Seq<char>>, inner: Seq<TokenView>)
    requires
        tokens_ok(inner),
        a.len() == k.attribute_names().len(),
        !k.is_void(),
    ensures
        tokens_ok(element(k, a, inner)),
{
    let start = seq![TokenView::Start(k, a)];
    let end = seq![TokenView::End(k)];
    assert(tokens_ok(start)) by {
        assert(tokens_ok(start.skip(1)));
    }
    assert(tokens_ok(end)) by {
        assert(tokens_ok(end.skip(1)));
    }
    assert(start.last() == start[0]);
    lemma_tokens_ok_concat(start, inner);
    assert((start + inner).len() > 0);
    lemma_tokens_ok_concat(start + inner, end);
}

/// The tokens of a text are well-formed.
pub proof fn lemma_text_tokens_ok(s: Seq<char>)
    ensures
        tokens_ok(text_tokens(s)),
{
    if s.len() > 0 {
        assert(tokens_ok(text_tokens(s).skip(1)));
    }
}

/// A single start of a void element is well-formed.
pub proof fn lemma_void_ok(k: TagKind, a: Seq<Seq<char>>)
    requires
        a.len() == k.attribute_names().len(),
    ensures
        tokens_ok(seq![TokenView::Start(k, a)]),
{
    assert(tokens_ok(seq![TokenView::Start(k, a)].skip(1)));
}

/// The tokens of a well-formed inline are well-formed.
#[verifier::rlimit(40)]
pub proof fn lemma_flatten_inline_ok(x: InlineView)
    requires
        inline_ok(x),
    ensures
        tokens_ok(flatten_inline(x)),
    decreases x, 0int,
{
    match x {
        InlineView::Text(s) => {
            lemma_text_tokens_ok(s);
        },
        InlineView::Emphasis(c) => {
            lemma_flatten_inlines_ok(c);
            lemma_element_ok(TagKind::Emphasis, Seq::empty(), flatten_inlines(c));
        },
        InlineView::Strong(c) => {
            lemma_flatten_inlines_ok(c);
            lemma_element_ok(TagKind::Strong, Seq::empty(), flatten_inlines(c));
        },
        InlineView::Strikethrough(c) => {
            lemma_flatten_inlines_ok(c);
            lemma_element_ok(TagKind::Strikethrough, Seq::empty(), flatten_inlines(c));
        },
        InlineView::Link { destination, title, children } => {
            lemma_flatten_inlines_ok(children);
            lemma_element_ok(TagKind::Link, seq![destination, title], flatten_inlines(children));
        },
        InlineView::Image { destination, title, alt } => {
            lemma_void_ok(TagKind::Image, seq![destination, title, alt]);
        },
        InlineView::CodeSpan(s) => {
            lemma_text_tokens_ok(s);
            lemma_element_ok(TagKind::CodeSpan, Seq::empty(), text_tokens(s));
        },
        InlineView::RawHtmlInline(s) => {
            lemma_text_tokens_ok(s);
            lemma_element_ok(TagKind::RawHtmlInline, Seq::empty(), text_tokens(s));
        },
        InlineView::SoftBreak => {
            lemma_void_ok(TagKind::SoftBreak, Seq::empty());
        },
        InlineView::LineBreak => {
            lemma_void_ok(TagKind::LineBreak, Seq::empty());
        },
    }
}

/// The tokens of well-formed inlines are well-formed, and begin with a
/// text only where the inlines do.
pub proof fn lemma_flatten_inlines_ok(xs: Seq<InlineView>)
    requires
        inlines_ok(xs),
    ensures
        tokens_ok(flatten_inlines(xs)),
        xs.len() > 0 ==> flatten_inlines(xs).len() > 0 && (flatten_inlines(xs)[0] is Text
            <==> xs[0] is Text),
        xs.len() == 0 ==> flatten_inlines(xs).len() == 0,
    decreases xs, 1int,
{
    if xs.len() > 0 {
        let head = flatten_inline(xs[0]);
        let tail = flatten_inlines(xs.skip(1));
        lemma_flatten_inline_ok(xs[0]);
        lemma_flatten_inline_start(xs[0]);
        lemma_flatten_inlines_ok(xs.skip(1));
        if xs.len() > 1 {
            assert(xs.skip(1)[0] == xs[1]);
        }
        lemma_tokens_ok_concat(head, tail);
        assert((head + tail)[0] == head[0]);
    }
}

/// The tokens of a well-formed block are well-formed.
#[verifier::rlimit(40)]
pub proof fn lemma_flatten_block_ok(b: BlockView)
    requires
        block_ok(b),
    ensures
        tokens_ok(flatten_block(b)),
    decreases b, 0int,
{
    match b {
        BlockView::Paragraph(c) => {
            lemma_flatten_inlines_ok(c);
            lemma_element_ok(TagKind::Paragraph, Seq::empty(), flatten_inlines(c));
        },
        BlockView::Heading { level, children } => {
            lemma_flatten_inlines_ok(children);
            lemma_element_ok(
                TagKind::Heading,
                seq![decimal(level as nat)],
                flatten_inlines(children),
            );
        },
        BlockView::List { ordered, start, tight, items } => {
            lemma_flatten_blocks_ok(items, Context::Items);
            lemma_element_ok(
                TagKind::List,
                seq![bool_text(ordered), start_text(start), bool_text(tight)],
                flatten_blocks(items),
            );
        },
        BlockView::ListItem(c) => {
            lemma_flatten_blocks_ok(c, Context::Blocks);
            lemma_element_ok(TagKind::ListItem, Seq::empty(), flatten_blocks(c));
        },
        BlockView::BlockQuote(c) => {
            lemma_flatten_blocks_ok(c, Context::Blocks);
            lemma_element_ok(TagKind::BlockQuote, Seq::empty(), flatten_blocks(c));
        },
        BlockView::CodeBlock { info, literal } => {
            lemma_text_tokens_ok(literal);
            lemma_element_ok(TagKind::CodeBlock, seq![info], text_tokens(literal));
        },
        BlockView::Table { alignments, rows } => {
            lemma_flatten_blocks_ok(rows, Context::Rows);
            lemma_element_ok(
                TagKind::Table,
                seq![alignments_text(alignments)],
                flatten_blocks(rows),
            );
        },
        BlockView::TableRow(c) => {
            lemma_flatten_blocks_ok(c, Context::Cells);
            lemma_element_ok(TagKind::TableRow, Seq::empty(), flatten_blocks(c));
        },
        BlockView::TableCell { is_header, children } => {
            lemma_flatten_inlines_ok(children);
            lemma_element_ok(
                TagKind::TableCell,
                seq![bool_text(is_header)],
                flatten_inlines(children),
            );
        },
        BlockView::ThematicBreak => {
            lemma_void_ok(TagKind::ThematicBreak, Seq::empty());
        },
        BlockView::RawHtmlBlock(s) => {
            lemma_text_tokens_ok(s);
            lemma_element_ok(TagKind::RawHtmlBlock, Seq::empty(), text_tokens(s));
        },
    }
}

/// The tokens of well-formed blocks are well-formed, and hold no text at
/// either end.
pub proof fn lemma_flatten_blocks_ok(bs: Seq<BlockView>, ctx: Context)
    requires
        blocks_ok(bs, ctx),
    ensures
        tokens_ok(flatten_blocks(bs)),
        flatten_blocks(bs).len() > 0 ==> !(flatten_blocks(bs)[0] is Text),
    decreases bs, 1int,
{
    if bs.len() > 0 {
        let head = flatten_block(bs[0]);
        let tail = flatten_blocks(bs.skip(1));
        lemma_flatten_block_ok(bs[0]);
        lemma_flatten_block_start(bs[0]);
        lemma_flatten_blocks_ok(bs.skip(1), ctx);
        lemma_tokens_ok_concat(head, tail);
        assert((head + tail)[0] == head[0]);
    }
}

/// The tokens of a well-formed document are well-formed.
pub proof fn lemma_flatten_document_ok(doc: DocumentView, wrap: bool)
    requires
        document_ok(doc),
    ensures
        tokens_ok(flatten_document(doc, wrap)),
{
    lemma_flatten_blocks_ok(doc.blocks, Context::Blocks);
    if doc.blocks.len() > 0 && wrap {
        lemma_element_ok(TagKind::Document, Seq::empty(), flatten_blocks(doc.blocks));
    }
}

/// Reading the markup of a well-formed document gives the document back:
/// every node with its kind, its attributes and its text, in its place.
pub proof fn lemma_markup_round_trip(doc: DocumentView, wrap: bool)
    requires
        document_ok(doc),
    ensures
        document_in(markup_of(doc, wrap), wrap) == Some(doc),
{
    lemma_flatten_document_ok(doc, wrap);
    lemma_lex_tokens_text(flatten_document(doc, wrap));
    lemma_build_document(doc, wrap);
}

} // verus!
