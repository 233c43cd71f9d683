//! Reading markup as a document.

use vstd::prelude::*;
use crate::markup::kind::TagKind;
use crate::markup::lexer::{lex, read_tokens};
use crate::markup::token::{Token, token_views, TokenView};
use crate::markup::tree::{
    alignments_of, allowed, block_literal, block_of_blocks, block_of_inlines, block_start, bool_of,
    bool_text, build_block, build_blocks, build_document, build_inline, build_inlines,
    child_context, Context, holds_inlines, inline_start, level_of, literal_of, start_of,
};
use crate::model::{
    Alignment, Block, block_views, BlockView, Document, DocumentView, Inline, inline_views,
    InlineView,
};
use crate::number::from_decimal;
use crate::text::{chars_of, rows, string_of};

verus! {

/// Why markup could not be read.
#[derive(Clone, Copy, Debug, PartialEq, Eq)]
pub enum DecodeError {
    /// The markup is not well-formed: a tag is not closed or not of the
    /// vocabulary, an attribute is missing or has no proper value, or an
    /// element stands where its kind is not allowed.
    Malformed,
}

/// The document that markup stands for; nothing where the markup is not
/// well-formed.
pub open spec fn document_in(markup: Seq<char>, wrapped: bool) -> Option<DocumentView> {
    match lex(markup) {
        Some(ts) => build_document(ts, wrapped),
        None => None,
    }
}

/// What reading nodes gave, after the nodes that were read before them.
pub open spec fn nodes_after<T>(nodes: Seq<T>, length: int, rest: Option<(Seq<T>, int)>) -> Option<
    (Seq<T>, int),
> {
    match rest {
        Some((more, n)) => Some((nodes + more, length + n)),
        None => None,
    }
}

/// Computes `bool_of`.
fn read_bool(s: &Vec<char>) -> (r: Option<bool>)
    ensures
        r == bool_of(s@),
{
    let t = vec!['t', 'r', 'u', 'e'];
    let f = vec!['f', 'a', 'l', 's', 'e'];
    proof {
        assert(t@ =~= bool_text(true));
        assert(f@ =~= bool_text(false));
    }
    if crate::text::same_chars(s, &t) {
        Some(true)
    } else if crate::text::same_chars(s, &f) {
        Some(false)
    } else {
        None
    }
}

/// Computes `level_of`.
fn read_level(s: &Vec<char>) -> (r: Option<u8>)
    ensures
        r == level_of(s@),
{
    match from_decimal(s) {
        Some(n) => {
            if 1 <= n && n <= 6 {
                Some(n as u8)
            } else {
                None
            }
        },
        None => None,
    }
}

/// Computes `start_of`.
fn read_start(s: &Vec<char>) -> (r: Option<Option<u64>>)
    ensures
        r == start_of(s@),
{
    if s.len() == 0 {
        Some(None)
    } else {
        match from_decimal(s) {
            Some(n) => Some(Some(n)),
            None => None,
        }
    }
}

/// Computes `alignments_of`.
fn read_alignments(s: &Vec<char>) -> (r: Option<Vec<Alignment>>)
    ensures
        match r {
            Some(a) => alignments_of(s@) == Some(a@),
            None => alignments_of(s@) is None,
        },
{
    let mut out: Vec<Alignment> = Vec::new();
    let mut i: usize = 0;
    proof {
        assert(s@.skip(0) =~= s@);
        if let Some(all) = alignments_of(s@) {
            assert(out@ + all =~= all);
        }
    }
    while i < s.len()
        invariant
            i <= s.len(),
            alignments_of(s@) == crate::text::prepend(out@, alignments_of(s@.skip(i as int))),
        decreases s.len() - i,
    {
        let ghost rest = s@.skip(i as int);
        let ghost before = out@;
        proof {
            assert(rest[0] == s@[i as int]);
            assert(rest.skip(1) =~= s@.skip(i + 1));
        }
        let c = s[i];
        let a = if c == '-' {
            Alignment::Unaligned
        } else if c == 'l' {
            Alignment::Left
        } else if c == 'c' {
            Alignment::Center
        } else if c == 'r' {
            Alignment::Right
        } else {
            return None;
        };
        out.push(a);
        proof {
            if let Some(tail) = alignments_of(rest.skip(1)) {
                assert(out@ + tail =~= before + (seq![a] + tail));
            }
        }
        i += 1;
    }
    proof {
        assert(s@.skip(s@.len() as int) =~= Seq::<char>::empty());
        assert(out@ + Seq::<Alignment>::empty() =~= out@);
    }
    Some(out)
}

/// Whether the token at an index is the end of an element of the kind.
fn is_end(tokens: &Vec<Token>, at: usize, kind: TagKind) -> (r: bool)
    ensures
        r == (at < tokens.len() && token_views(tokens@)[at as int] == TokenView::End(kind)),
{
    if at >= tokens.len() {
        return false;
    }
    match &tokens[at] {
        Token::End(k) => *k == kind,
        _ => false,
    }
}

/// Computes `literal_of` on the tokens from index `from` on: the text and
/// the index behind the end of the element.
fn read_literal(tokens: &Vec<Token>, from: usize, kind: TagKind) -> (r: Option<(String, usize)>)
    requires
        from <= tokens.len(),
    ensures
        match r {
            Some((s, end)) => from < end <= tokens.len() && literal_of(
                token_views(tokens@).skip(from as int),
                kind,
            ) == Some((s@, end - from)),
            None => literal_of(token_views(tokens@).skip(from as int), kind) is None,
        },
{
    let ghost ts = token_views(tokens@).skip(from as int);
    proof {
        if from < tokens.len() {
            assert(ts[0] == token_views(tokens@)[from as int]);
        }
        if from < tokens.len() && tokens.len() - from >= 2 {
            assert(ts[1] == token_views(tokens@)[from + 1]);
        }
    }
    if is_end(tokens, from, kind) {
        return Some((String::new(), from + 1));
    }
    if from < tokens.len() && tokens.len() - from >= 2 && is_end(tokens, from + 1, kind) {
        match &tokens[from] {
            Token::Text(s) => {
                return Some((string_of(s), from + 2));
            },
            _ => {
                return None;
            },
        }
    }
    None
}

/// Computes `build_inline` on the tokens from index `from` on: the inline
/// and the index behind it.
#[verifier::rlimit(40)]
pub fn read_inline(tokens: &Vec<Token>, from: usize) -> (r: Option<(Inline, usize)>)
    requires
        from <= tokens.len(),
    ensures
        match r {
            Some((x, end)) => from < end <= tokens.len() && build_inline(
                token_views(tokens@).skip(from as int),
            ) == Some((x@, end - from)),
            None => build_inline(token_views(tokens@).skip(from as int)) is None,
        },
    decreases tokens.len() - from, 0int,
{
    let ghost tv = token_views(tokens@);
    let ghost ts = tv.skip(from as int);
    if from >= tokens.len() {
        return None;
    }
    proof {
        assert(ts[0] == tokens@[from as int]@);
        assert(ts.skip(1) =~= tv.skip(from + 1));
    }
    match &tokens[from] {
        Token::Text(s) => Some((Inline::Text(string_of(s)), from + 1)),
        Token::End(_) => None,
        Token::Start(kind, a) => {
            let kind = *kind;
            if kind.void() {
                match kind {
                    TagKind::Image => {
                        if a.len() == 3 {
                            Some(
                                (
                                    Inline::Image {
                                        destination: string_of(&a[0]),
                                        title: string_of(&a[1]),
                                        alt: string_of(&a[2]),
                                    },
                                    from + 1,
                                ),
                            )
                        } else {
                            None
                        }
                    },
                    TagKind::SoftBreak => Some((Inline::SoftBreak, from + 1)),
                    TagKind::LineBreak => Some((Inline::LineBreak, from + 1)),
                    _ => None,
                }
            } else if kind.protected() {
                match read_literal(tokens, from + 1, kind) {
                    Some((s, end)) => match kind {
                        TagKind::CodeSpan => Some((Inline::CodeSpan(s), end)),
                        TagKind::RawHtmlInline => Some((Inline::RawHtmlInline(s), end)),
                        _ => None,
                    },
                    None => None,
                }
            } else if kind.inline() {
                match read_inlines(tokens, from + 1) {
                    Some((c, end)) => {
                        proof {
                            if end < tokens.len() {
                                assert(ts[1 + (end - (from + 1))] == tv[end as int]);
                            }
                        }
                        if is_end(tokens, end, kind) {
                            match kind {
                                TagKind::Emphasis => Some((Inline::Emphasis(c), end + 1)),
                                TagKind::Strong => Some((Inline::Strong(c), end + 1)),
                                TagKind::Strikethrough => Some((Inline::Strikethrough(c), end + 1)),
                                TagKind::Link => {
                                    if a.len() == 2 {
                                        Some(
                                            (
                                                Inline::Link {
                                                    destination: string_of(&a[0]),
                                                    title: string_of(&a[1]),
                                                    children: c,
                                                },
                                                end + 1,
                                            ),
                                        )
                                    } else {
                                        None
                                    }
                                },
                                _ => None,
                            }
                        } else {
                            None
                        }
                    },
                    None => None,
                }
            } else {
                None
            }
        },
    }
}

/// Whether the token at an index begins an inline.
fn starts_inline(tokens: &Vec<Token>, at: usize) -> (r: bool)
    requires
        at < tokens.len(),
    ensures
        r == inline_start(token_views(tokens@)[at as int]),
{
    match &tokens[at] {
        Token::Text(_) => true,
        Token::Start(k, _) => k.inline(),
        Token::End(_) => false,
    }
}

/// Computes `build_inlines` on the tokens from index `from` on: the
/// inlines and the index behind them.
pub fn read_inlines(tokens: &Vec<Token>, from: usize) -> (r: Option<(Vec<Inline>, usize)>)
    requires
        from <= tokens.len(),
    ensures
        match r {
            Some((xs, end)) => from <= end <= tokens.len() && build_inlines(
                token_views(tokens@).skip(from as int),
            ) == Some((inline_views(xs@), end - from)),
            None => build_inlines(token_views(tokens@).skip(from as int)) is None,
        },
    decreases tokens.len() - from, 1int,
{
    let ghost tv = token_views(tokens@);
    let ghost whole = build_inlines(tv.skip(from as int));
    let mut out: Vec<Inline> = Vec::new();
    let mut pos: usize = from;
    proof {
        if let Some((all, n)) = whole {
            assert(inline_views(out@) + all =~= all);
        }
    }
    while pos < tokens.len() && starts_inline(tokens, pos)
        invariant
            from <= pos <= tokens.len(),
            tv == token_views(tokens@),
            whole == build_inlines(tv.skip(from as int)),
            whole == nodes_after(inline_views(out@), pos - from, build_inlines(tv.skip(pos as int))),
        decreases tokens.len() - pos,
    {
        let ghost ts = tv.skip(pos as int);
        let ghost before = inline_views(out@);
        proof {
            assert(ts[0] == tv[pos as int]);
        }
        match read_inline(tokens, pos) {
            Some((x, end)) => {
                out.push(x);
                proof {
                    assert(ts.skip(end - pos) =~= tv.skip(end as int));
                    assert(inline_views(out@) =~= before + seq![x@]);
                    if let Some((more, n)) = build_inlines(tv.skip(end as int)) {
                        assert(inline_views(out@) + more =~= before + (seq![x@] + more));
                    }
                }
                pos = end;
            },
            None => {
                return None;
            },
        }
    }
    proof {
        let ts = tv.skip(pos as int);
        if pos < tokens.len() {
            assert(ts[0] == tv[pos as int]);
        }
        assert(build_inlines(ts) == Some((Seq::<InlineView>::empty(), 0int)));
        assert(inline_views(out@) + Seq::<InlineView>::empty() =~= inline_views(out@));
    }
    Some((out, pos))
}

/// Computes `block_of_inlines`.
fn inline_block(kind: TagKind, a: &Vec<Vec<char>>, c: Vec<Inline>) -> (r: Option<Block>)
    ensures
        match r {
            Some(b) => block_of_inlines(kind, rows(a@), inline_views(c@)) == Some(b@),
            None => block_of_inlines(kind, rows(a@), inline_views(c@)) is None,
        },
{
    match kind {
        TagKind::Paragraph => Some(Block::Paragraph(c)),
        TagKind::Heading => {
            if a.len() == 1 {
                match read_level(&a[0]) {
                    Some(level) => Some(Block::Heading { level, children: c }),
                    None => None,
                }
            } else {
                None
            }
        },
        TagKind::TableCell => {
            if a.len() == 1 {
                match read_bool(&a[0]) {
                    Some(is_header) => Some(Block::TableCell { is_header, children: c }),
                    None => None,
                }
            } else {
                None
            }
        },
        _ => None,
    }
}

/// Computes `block_of_blocks`.
fn nested_block(kind: TagKind, a: &Vec<Vec<char>>, c: Vec<Block>) -> (r: Option<Block>)
    ensures
        match r {
            Some(b) => block_of_blocks(kind, rows(a@), block_views(c@)) == Some(b@),
            None => block_of_blocks(kind, rows(a@), block_views(c@)) is None,
        },
{
    match kind {
        TagKind::BlockQuote => Some(Block::BlockQuote(c)),
        TagKind::ListItem => Some(Block::ListItem(c)),
        TagKind::TableRow => Some(Block::TableRow(c)),
        TagKind::List => {
            if a.len() == 3 {
                match (read_bool(&a[0]), read_start(&a[1]), read_bool(&a[2])) {
                    (Some(ordered), Some(start), Some(tight)) => Some(
                        Block::List { ordered, start, tight, items: c },
                    ),
                    _ => None,
                }
            } else {
                None
            }
        },
        TagKind::Table => {
            if a.len() == 1 {
                match read_alignments(&a[0]) {
                    Some(alignments) => Some(Block::Table { alignments, rows: c }),
                    None => None,
                }
            } else {
                None
            }
        },
        _ => None,
    }
}

/// Computes `block_literal`.
fn literal_block(kind: TagKind, a: &Vec<Vec<char>>, s: String) -> (r: Option<Block>)
    ensures
        match r {
            Some(b) => block_literal(kind, rows(a@), s@) == Some(b@),
            None => block_literal(kind, rows(a@), s@) is None,
        },
{
    match kind {
        TagKind::CodeBlock => {
            if a.len() == 1 {
                Some(Block::CodeBlock { info: string_of(&a[0]), literal: s })
            } else {
                None
            }
        },
        TagKind::RawHtmlBlock => Some(Block::RawHtmlBlock(s)),
        _ => None,
    }
}

/// Computes `holds_inlines`.
fn has_inlines(kind: TagKind) -> (r: bool)
    ensures
        r == holds_inlines(kind),
{
    match kind {
        TagKind::Paragraph | TagKind::Heading | TagKind::TableCell => true,
        _ => false,
    }
}

/// Computes `child_context`.
fn context_of_children(kind: TagKind) -> (r: Context)
    ensures
        r == child_context(kind),
{
    match kind {
        TagKind::List => Context::Items,
        TagKind::Table => Context::Rows,
        TagKind::TableRow => Context::Cells,
        _ => Context::Blocks,
    }
}

/// Computes `allowed`.
fn is_allowed(ctx: Context, kind: TagKind) -> (r: bool)
    ensures
        r == allowed(ctx, kind),
{
    match ctx {
        Context::Blocks => match kind {
            TagKind::Paragraph
            | TagKind::Heading
            | TagKind::List
            | TagKind::BlockQuote
            | TagKind::CodeBlock
            | TagKind::Table
            | TagKind::ThematicBreak
            | TagKind::RawHtmlBlock => true,
            _ => false,
        },
        Context::Items => match kind {
            TagKind::ListItem => true,
            _ => false,
        },
        Context::Rows => match kind {
            TagKind::TableRow => true,
            _ => false,
        },
        Context::Cells => match kind {
            TagKind::TableCell => true,
            _ => false,
        },
    }
}

/// Computes `build_block` on the tokens from index `from` on: the block
/// and the index behind it.
#[verifier::rlimit(40)]
pub fn read_block(tokens: &Vec<Token>, from: usize) -> (r: Option<(Block, usize)>)
    requires
        from <= tokens.len(),
    ensures
        match r {
            Some((b, end)) => from < end <= tokens.len() && build_block(
                token_views(tokens@).skip(from as int),
            ) == Some((b@, end - from)),
            None => build_block(token_views(tokens@).skip(from as int)) is None,
        },
    decreases tokens.len() - from, 0int,
{
    let ghost tv = token_views(tokens@);
    let ghost ts = tv.skip(from as int);
    if from >= tokens.len() {
        return None;
    }
    proof {
        assert(ts[0] == tokens@[from as int]@);
        assert(ts.skip(1) =~= tv.skip(from + 1));
    }
    match &tokens[from] {
        Token::Start(kind, a) => {
            let kind = *kind;
            if kind.inline() {
                return None;
            }
            match kind {
                TagKind::Document => {
                    return None;
                },
                TagKind::ThematicBreak => {
                    return Some((Block::ThematicBreak, from + 1));
                },
                _ => {},
            }
            if kind.protected() {
                match read_literal(tokens, from + 1, kind) {
                    Some((s, end)) => match literal_block(kind, a, s) {
                        Some(b) => Some((b, end)),
                        None => None,
                    },
                    None => None,
                }
            } else if has_inlines(kind) {
                match read_inlines(tokens, from + 1) {
                    Some((c, end)) => {
                        proof {
                            if end < tokens.len() {
                                assert(ts[1 + (end - (from + 1))] == tv[end as int]);
                            }
                        }
                        if is_end(tokens, end, kind) {
                            match inline_block(kind, a, c) {
                                Some(b) => Some((b, end + 1)),
                                None => None,
                            }
                        } else {
                            None
                        }
                    },
                    None => None,
                }
            } else {
                match read_blocks(tokens, from + 1, context_of_children(kind)) {
                    Some((c, end)) => {
                        proof {
                            if end < tokens.len() {
                                assert(ts[1 + (end - (from + 1))] == tv[end as int]);
                            }
                        }
                        if is_end(tokens, end, kind) {
                            match nested_block(kind, a, c) {
                                Some(b) => Some((b, end + 1)),
                                None => None,
                            }
                        } else {
                            None
                        }
                    },
                    None => None,
                }
            }
        },
        _ => None,
    }
}

/// Whether the token at an index begins a block of the context.
fn starts_block(tokens: &Vec<Token>, at: usize, ctx: Context) -> (r: bool)
    requires
        at < tokens.len(),
    ensures
        r == block_start(token_views(tokens@)[at as int], ctx),
{
    match &tokens[at] {
        Token::Start(k, _) => is_allowed(ctx, *k),
        _ => false,
    }
}

/// Computes `build_blocks` on the tokens from index `from` on: the blocks
/// and the index behind them.
pub fn read_blocks(tokens: &Vec<Token>, from: usize, ctx: Context) -> (r: Option<
    (Vec<Block>, usize),
>)
    requires
        from <= tokens.len(),
    ensures
        match r {
            Some((bs, end)) => from <= end <= tokens.len() && build_blocks(
                token_views(tokens@).skip(from as int),
                ctx,
            ) == Some((block_views(bs@), end - from)),
            None => build_blocks(token_views(tokens@).skip(from as int), ctx) is None,
        },
    decreases tokens.len() - from, 1int,
{
    let ghost tv = token_views(tokens@);
    let ghost whole = build_blocks(tv.skip(from as int), ctx);
    let mut out: Vec<Block> = Vec::new();
    let mut pos: usize = from;
    proof {
        if let Some((all, n)) = whole {
            assert(block_views(out@) + all =~= all);
        }
    }
    while pos < tokens.len() && starts_block(tokens, pos, ctx)
        invariant
            from <= pos <= tokens.len(),
            tv == token_views(tokens@),
            whole == build_blocks(tv.skip(from as int), ctx),
            whole == nodes_after(
                block_views(out@),
                pos - from,
                build_blocks(tv.skip(pos as int), ctx),
            ),
        decreases tokens.len() - pos,
    {
        let ghost ts = tv.skip(pos as int);
        let ghost before = block_views(out@);
        proof {
            assert(ts[0] == tv[pos as int]);
        }
        match read_block(tokens, pos) {
            Some((b, end)) => {
                out.push(b);
                proof {
                    assert(ts.skip(end - pos) =~= tv.skip(end as int));
                    assert(block_views(out@) =~= before + seq![b@]);
                    if let Some((more, n)) = build_blocks(tv.skip(end as int), ctx) {
                        assert(block_views(out@) + more =~= before + (seq![b@] + more));
                    }
                }
                pos = end;
            },
            None => {
                return None;
            },
        }
    }
    proof {
        let ts = tv.skip(pos as int);
        if pos < tokens.len() {
            assert(ts[0] == tv[pos as int]);
        }
        assert(build_blocks(ts, ctx) == Some((Seq::<BlockView>::empty(), 0int)));
        assert(block_views(out@) + Seq::<BlockView>::empty() =~= block_views(out@));
    }
    Some((out, pos))
}

/// Computes `build_document`.
#[verifier::rlimit(40)]
pub fn read_document(tokens: &Vec<Token>, wrapped: bool) -> (r: Option<Document>)
    ensures
        match r {
            Some(doc) => build_document(token_views(tokens@), wrapped) == Some(doc@),
            None => build_document(token_views(tokens@), wrapped) is None,
        },
{
    let ghost tv = token_views(tokens@);
    if tokens.len() == 0 {
        let blocks: Vec<Block> = Vec::new();
        proof {
            assert(block_views(blocks@) =~= Seq::<BlockView>::empty());
        }
        return Some(Document { blocks });
    }
    proof {
        assert(tv[0] == tokens@[0]@);
        assert(tv.skip(0) =~= tv);
    }
    if wrapped {
        let rooted = match &tokens[0] {
            Token::Start(k, a) => {
                proof {
                    assert(rows(a@).len() == a.len());
                    if a.len() == 0 {
                        assert(rows(a@) =~= Seq::<Seq<char>>::empty());
                    }
                    assert(tv[0] == TokenView::Start(*k, rows(a@)));
                }
                match k {
                    TagKind::Document => a.len() == 0,
                    _ => false,
                }
            },
            _ => false,
        };
        proof {
            assert(rooted == (tv[0] == TokenView::Start(TagKind::Document, Seq::empty())));
        }
        if !rooted {
            return None;
        }
        match read_blocks(tokens, 1, Context::Blocks) {
            Some((blocks, end)) => {
                if end < tokens.len() && tokens.len() - end == 1 && is_end(tokens, end, TagKind::Document) {
                    Some(Document { blocks })
                } else {
                    None
                }
            },
            None => None,
        }
    } else {
        match read_blocks(tokens, 0, Context::Blocks) {
            Some((blocks, end)) => {
                if end == tokens.len() {
                    Some(Document { blocks })
                } else {
                    None
                }
            },
            None => None,
        }
    }
}

/// Reads markup as a document. The elements must be those of the
/// vocabulary, each closed and where its kind may stand, with the
/// attributes of its kind; inside a root element where `unwrap_root` is
/// set. The empty text is the document without blocks.
pub fn read_markup(markup: &str, unwrap_root: bool) -> (r: Result<Document, DecodeError>)
    ensures
        match document_in(markup@, unwrap_root) {
            Some(doc) => r is Ok && r->Ok_0@ == doc,
            None => r == Err::<Document, DecodeError>(DecodeError::Malformed),
        },
{
    let s = chars_of(markup);
    match read_tokens(&s) {
        Some(tokens) => match read_document(&tokens, unwrap_root) {
            Some(doc) => Ok(doc),
            None => Err(DecodeError::Malformed),
        },
        None => Err(DecodeError::Malformed),
    }
}

} // verus!
