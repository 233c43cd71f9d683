//! Writing a document as markup.

use vstd::prelude::*;
use crate::markup::kind::TagKind;
use crate::markup::token::{Token, token_views, tokens_text, TokenView, write_tokens};
use crate::markup::tree::{
    alignment_char, alignments_text, bool_text, element, flatten_block, flatten_blocks,
    flatten_document, flatten_inline, flatten_inlines, start_text, text_tokens,
};
use crate::model::{Alignment, Block, block_views, Document, Inline, inline_views};
use crate::number::to_decimal;
use crate::text::{chars_of, rows, string_of};

verus! {

/// The markup of a document: its tokens as they are written.
pub open spec fn markup_of(doc: crate::model::DocumentView, wrap: bool) -> Seq<char> {
    tokens_text(flatten_document(doc, wrap))
}

/// Computes `bool_text`.
pub fn bool_chars(b: bool) -> (r: Vec<char>)
    ensures
        r@ == bool_text(b),
{
    let r = if b {
        vec!['t', 'r', 'u', 'e']
    } else {
        vec!['f', 'a', 'l', 's', 'e']
    };
    proof {
        assert(r@ =~= bool_text(b));
    }
    r
}

/// Computes `alignments_text`.
pub fn alignment_chars(a: &Vec<Alignment>) -> (r: Vec<char>)
    ensures
        r@ == alignments_text(a@),
{
    let mut out: Vec<char> = Vec::new();
    let mut i: usize = 0;
    while i < a.len()
        invariant
            i <= a.len(),
            out.len() == i,
            forall|j: int| 0 <= j < i ==> out[j] == alignment_char(a[j]),
        decreases a.len() - i,
    {
        let c = match a[i] {
            Alignment::Unaligned => '-',
            Alignment::Left => 'l',
            Alignment::Center => 'c',
            Alignment::Right => 'r',
        };
        out.push(c);
        i += 1;
    }
    proof {
        assert(out@ =~= alignments_text(a@));
    }
    out
}

/// Appends a token.
fn push_token(out: &mut Vec<Token>, token: Token)
    ensures
        token_views(final(out)@) == token_views(old(out)@) + seq![token@],
{
    out.push(token);
    proof {
        assert(token_views(out@) =~= token_views(old(out)@) + seq![token@]);
    }
}

/// Appends the start of an element.
fn push_start(out: &mut Vec<Token>, kind: TagKind, attributes: Vec<Vec<char>>)
    ensures
        token_views(final(out)@) == token_views(old(out)@) + seq![
            TokenView::Start(kind, rows(attributes@)),
        ],
{
    push_token(out, Token::Start(kind, attributes));
}

/// Appends the end of an element.
fn push_end(out: &mut Vec<Token>, kind: TagKind)
    ensures
        token_views(final(out)@) == token_views(old(out)@) + seq![TokenView::End(kind)],
{
    push_token(out, Token::End(kind));
}

/// Appends a text, unless it is empty.
fn push_text(out: &mut Vec<Token>, s: &str)
    ensures
        token_views(final(out)@) == token_views(old(out)@) + text_tokens(s@),
{
    let v = chars_of(s);
    if v.len() > 0 {
        push_token(out, Token::Text(v));
    } else {
        proof {
            assert(token_views(out@) + text_tokens(s@) =~= token_views(out@));
        }
    }
}

/// The attributes of a tag without attributes.
fn no_attributes() -> (r: Vec<Vec<char>>)
    ensures
        rows(r@) == Seq::<Seq<char>>::empty(),
{
    let r: Vec<Vec<char>> = Vec::new();
    proof {
        assert(rows(r@) =~= Seq::<Seq<char>>::empty());
    }
    r
}

/// The attributes of a tag with one attribute.
fn one_attribute(a: Vec<char>) -> (r: Vec<Vec<char>>)
    ensures
        rows(r@) == seq![a@],
{
    let mut r: Vec<Vec<char>> = Vec::new();
    r.push(a);
    proof {
        assert(rows(r@) =~= seq![a@]);
    }
    r
}

/// Appends an element that holds literal text.
fn push_literal(out: &mut Vec<Token>, kind: TagKind, attributes: Vec<Vec<char>>, s: &str)
    ensures
        token_views(final(out)@) == token_views(old(out)@) + element(
            kind,
            rows(attributes@),
            text_tokens(s@),
        ),
{
    let ghost before = token_views(out@);
    push_start(out, kind, attributes);
    push_text(out, s);
    push_end(out, kind);
    proof {
        assert(token_views(out@) =~= before + element(kind, rows(attributes@), text_tokens(s@)));
    }
}

/// Appends an element that holds inlines.
fn push_container(out: &mut Vec<Token>, kind: TagKind, attributes: Vec<Vec<char>>, c: &Vec<Inline>)
    ensures
        token_views(final(out)@) == token_views(old(out)@) + element(
            kind,
            rows(attributes@),
            flatten_inlines(inline_views(c@)),
        ),
    decreases c, 2int,
{
    let ghost before = token_views(out@);
    push_start(out, kind, attributes);
    push_inlines(out, c);
    push_end(out, kind);
    proof {
        assert(token_views(out@) =~= before + element(
            kind,
            rows(attributes@),
            flatten_inlines(inline_views(c@)),
        ));
    }
}

/// Appends the tokens of an inline.
#[verifier::rlimit(40)]
pub fn push_inline(out: &mut Vec<Token>, x: &Inline)
    ensures
        token_views(final(out)@) == token_views(old(out)@) + flatten_inline(x@),
    decreases x, 0int,
{
    match x {
        Inline::Text(s) => {
            push_text(out, s.as_str());
        },
        Inline::Emphasis(c) => {
            push_container(out, TagKind::Emphasis, no_attributes(), c);
        },
        Inline::Strong(c) => {
            push_container(out, TagKind::Strong, no_attributes(), c);
        },
        Inline::Strikethrough(c) => {
            push_container(out, TagKind::Strikethrough, no_attributes(), c);
        },
        Inline::Link { destination, title, children } => {
            let mut a: Vec<Vec<char>> = Vec::new();
            a.push(chars_of(destination.as_str()));
            a.push(chars_of(title.as_str()));
            proof {
                assert(rows(a@) =~= seq![destination@, title@]);
            }
            push_container(out, TagKind::Link, a, children);
        },
        Inline::Image { destination, title, alt } => {
            let mut a: Vec<Vec<char>> = Vec::new();
            a.push(chars_of(destination.as_str()));
            a.push(chars_of(title.as_str()));
            a.push(chars_of(alt.as_str()));
            proof {
                assert(rows(a@) =~= seq![destination@, title@, alt@]);
            }
            push_start(out, TagKind::Image, a);
        },
        Inline::CodeSpan(s) => {
            push_literal(out, TagKind::CodeSpan, no_attributes(), s.as_str());
        },
        Inline::RawHtmlInline(s) => {
            push_literal(out, TagKind::RawHtmlInline, no_attributes(), s.as_str());
        },
        Inline::SoftBreak => {
            push_start(out, TagKind::SoftBreak, no_attributes());
        },
        Inline::LineBreak => {
            push_start(out, TagKind::LineBreak, no_attributes());
        },
    }
}

/// Appends the tokens of a sequence of inlines.
pub fn push_inlines(out: &mut Vec<Token>, xs: &Vec<Inline>)
    ensures
        token_views(final(out)@) == token_views(old(out)@) + flatten_inlines(inline_views(xs@)),
    decreases xs, 1int,
{
    let ghost all = inline_views(xs@);
    let mut i: usize = 0;
    proof {
        assert(all.skip(0) =~= all);
    }
    while i < xs.len()
        invariant
            i <= xs.len(),
            all == inline_views(xs@),
            token_views(out@) + flatten_inlines(all.skip(i as int)) == token_views(old(out)@)
                + flatten_inlines(all),
        decreases xs.len() - i,
    {
        let ghost before = token_views(out@);
        let ghost rest = all.skip(i as int);
        proof {
            assert(rest[0] == xs@[i as int]@);
            assert(rest.skip(1) =~= all.skip(i + 1));
        }
        push_inline(out, &xs[i]);
        proof {
            assert(token_views(out@) + flatten_inlines(all.skip(i + 1)) =~= before + flatten_inlines(
                rest,
            ));
        }
        i += 1;
    }
    proof {
        assert(all.skip(all.len() as int) =~= Seq::<crate::model::InlineView>::empty());
        assert(token_views(out@) + Seq::<TokenView>::empty() =~= token_views(out@));
    }
}

/// Appends an element that holds blocks.
fn push_children(out: &mut Vec<Token>, kind: TagKind, attributes: Vec<Vec<char>>, c: &Vec<Block>)
    ensures
        token_views(final(out)@) == token_views(old(out)@) + element(
            kind,
            rows(attributes@),
            flatten_blocks(block_views(c@)),
        ),
    decreases c, 2int,
{
    let ghost before = token_views(out@);
    push_start(out, kind, attributes);
    push_blocks(out, c);
    push_end(out, kind);
    proof {
        assert(token_views(out@) =~= before + element(
            kind,
            rows(attributes@),
            flatten_blocks(block_views(c@)),
        ));
    }
}

/// Appends the tokens of a block.
#[verifier::rlimit(40)]
pub fn push_block(out: &mut Vec<Token>, b: &Block)
    ensures
        token_views(final(out)@) == token_views(old(out)@) + flatten_block(b@),
    decreases b, 0int,
{
    match b {
        Block::Paragraph(c) => {
            push_container(out, TagKind::Paragraph, no_attributes(), c);
        },
        Block::Heading { level, children } => {
            push_container(out, TagKind::Heading, one_attribute(to_decimal(*level as u128)), children);
        },
        Block::List { ordered, start, tight, items } => {
            let first = match start {
                Some(n) => to_decimal(*n as u128),
                None => Vec::new(),
            };
            let mut a: Vec<Vec<char>> = Vec::new();
            a.push(bool_chars(*ordered));
            a.push(first);
            a.push(bool_chars(*tight));
            proof {
                assert(first@ =~= start_text(*start));
                assert(rows(a@) =~= seq![bool_text(*ordered), start_text(*start), bool_text(*tight)]);
            }
            push_children(out, TagKind::List, a, items);
        },
        Block::ListItem(c) => {
            push_children(out, TagKind::ListItem, no_attributes(), c);
        },
        Block::BlockQuote(c) => {
            push_children(out, TagKind::BlockQuote, no_attributes(), c);
        },
        Block::CodeBlock { info, literal } => {
            push_literal(
                out,
                TagKind::CodeBlock,
                one_attribute(chars_of(info.as_str())),
                literal.as_str(),
            );
        },
        Block::Table { alignments, rows } => {
            push_children(out, TagKind::Table, one_attribute(alignment_chars(alignments)), rows);
        },
        Block::TableRow(c) => {
            push_children(out, TagKind::TableRow, no_attributes(), c);
        },
        Block::TableCell { is_header, children } => {
            push_container(out, TagKind::TableCell, one_attribute(bool_chars(*is_header)), children);
        },
        Block::ThematicBreak => {
            push_start(out, TagKind::ThematicBreak, no_attributes());
        },
        Block::RawHtmlBlock(s) => {
            push_literal(out, TagKind::RawHtmlBlock, no_attributes(), s.as_str());
        },
    }
}

/// Appends the tokens of a sequence of blocks.
pub fn push_blocks(out: &mut Vec<Token>, bs: &Vec<Block>)
    ensures
        token_views(final(out)@) == token_views(old(out)@) + flatten_blocks(block_views(bs@)),
    decreases bs, 1int,
{
    let ghost all = block_views(bs@);
    let mut i: usize = 0;
    proof {
        assert(all.skip(0) =~= all);
    }
    while i < bs.len()
        invariant
            i <= bs.len(),
            all == block_views(bs@),
            token_views(out@) + flatten_blocks(all.skip(i as int)) == token_views(old(out)@)
                + flatten_blocks(all),
        decreases bs.len() - i,
    {
        let ghost before = token_views(out@);
        let ghost rest = all.skip(i as int);
        proof {
            assert(rest[0] == bs@[i as int]@);
            assert(rest.skip(1) =~= all.skip(i + 1));
        }
        push_block(out, &bs[i]);
        proof {
            assert(token_views(out@) + flatten_blocks(all.skip(i + 1)) =~= before + flatten_blocks(
                rest,
            ));
        }
        i += 1;
    }
    proof {
        assert(all.skip(all.len() as int) =~= Seq::<crate::model::BlockView>::empty());
        assert(token_views(out@) + Seq::<TokenView>::empty() =~= token_views(out@));
    }
}

/// The tokens of a document.
pub fn document_tokens(doc: &Document, wrap: bool) -> (r: Vec<Token>)
    ensures
        token_views(r@) == flatten_document(doc@, wrap),
{
    let mut out: Vec<Token> = Vec::new();
    proof {
        assert(token_views(out@) =~= Seq::<TokenView>::empty());
    }
    if doc.blocks.len() == 0 {
        proof {
            assert(doc@.blocks.len() == 0);
        }
    } else if wrap {
        push_children(&mut out, TagKind::Document, no_attributes(), &doc.blocks);
        proof {
            assert(token_views(out@) =~= flatten_document(doc@, wrap));
        }
    } else {
        push_blocks(&mut out, &doc.blocks);
        proof {
            assert(token_views(out@) =~= flatten_document(doc@, wrap));
        }
    }
    out
}

/// Writes a document as markup: each node as the element of its kind,
/// text escaped, the whole inside a root element where `wrap` is set.
pub fn write_markup(doc: &Document, wrap: bool) -> (r: String)
    ensures
        r@ == markup_of(doc@, wrap),
{
    let tokens = document_tokens(doc, wrap);
    let text = write_tokens(&tokens);
    string_of(&text)
}

} // verus!
