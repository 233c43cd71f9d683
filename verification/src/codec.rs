//! Markdown as markup and back: a text of Markdown is read as a document
//! and written as markup, and markup is read as a document and written as
//! Markdown.

use vstd::prelude::*;
use crate::markdown::block::{blocks_of, MAX_BLOCK_DEPTH};
use crate::markdown::laws::lemma_document_of_ok;
use crate::markdown::lines::lines_of;
use crate::markdown::reader::{document_of, read_markdown};
use crate::markdown::render::{markdown_of, render_blocks, unlines, write_markdown};
use crate::markdown::simple::{
    all_simple, lemma_document_of_simple, lemma_simple_text_round_trip, simple_blocks,
    simple_text, SimpleBlock,
};
use crate::markup::kind::kind_named;
use crate::markup::lexer::{lex, Stop, stops};
use crate::markup::lexer_laws::{lemma_closed_vocabulary, tokens_ok};
use crate::markup::reader::{DecodeError, document_in, read_markup};
use crate::markup::token::{tokens_text, TokenView};
use crate::markup::tree::flatten_document;
use crate::markup::tree_laws::lemma_markup_round_trip;
use crate::markup::writer::{markup_of, write_markup};
use crate::model::DocumentView;

verus! {

/// The markup for a text of Markdown.
pub open spec fn encoded(markdown: Seq<char>, wrap: bool) -> Seq<char> {
    markup_of(document_of(markdown), wrap)
}

/// The Markdown for markup; nothing where the markup is not well-formed.
pub open spec fn decoded(markup: Seq<char>, wrapped: bool) -> Option<Seq<char>> {
    match document_in(markup, wrapped) {
        Some(doc) => Some(markdown_of(doc)),
        None => None,
    }
}

/// Encodes a text of Markdown as markup: one element for each block and
/// each inline, text escaped, code and raw HTML in elements of their own;
/// all inside one root element where `wrap_in_root` is set.
pub fn encode(markdown_text: &str, wrap_in_root: bool) -> (r: String)
    ensures
        r@ == encoded(markdown_text@, wrap_in_root),
        document_in(r@, wrap_in_root) == Some(document_of(markdown_text@)),
{
    let doc = read_markdown(markdown_text);
    proof {
        lemma_document_survives(markdown_text@, wrap_in_root);
    }
    write_markup(&doc, wrap_in_root)
}

/// Decodes markup as a text of Markdown. Markup that is not well-formed,
/// or holds a tag that is not of the vocabulary, is refused.
pub fn decode(markup_text: &str, unwrap_root: bool) -> (r: Result<String, DecodeError>)
    ensures
        match decoded(markup_text@, unwrap_root) {
            Some(text) => r is Ok && r->Ok_0@ == text,
            None => r == Err::<String, DecodeError>(DecodeError::Malformed),
        },
{
    match read_markup(markup_text, unwrap_root) {
        Ok(doc) => Ok(write_markdown(&doc)),
        Err(e) => Err(e),
    }
}

/// The document that is read from the markup of a text of Markdown is the
/// document that is read from the text: every block and every inline in
/// its place, the text of every code block, code span and piece of raw
/// HTML character for character.
pub proof fn lemma_document_survives(markdown: Seq<char>, wrap: bool)
    ensures
        document_in(encoded(markdown, wrap), wrap) == Some(document_of(markdown)),
{
    lemma_document_of_ok(markdown);
    lemma_markup_round_trip(document_of(markdown), wrap);
}

/// Decoding what was encoded gives the Markdown of the document that was
/// read from the text, and no failure.
pub proof fn lemma_decode_encode(markdown: Seq<char>, wrap: bool)
    ensures
        decoded(encoded(markdown, wrap), wrap) == Some(markdown_of(document_of(markdown))),
{
    lemma_document_survives(markdown, wrap);
}

/// The empty text is encoded as the empty text and decoded as the empty
/// text.
pub proof fn lemma_empty_text(wrap: bool)
    ensures
        encoded(Seq::empty(), wrap) == Seq::<char>::empty(),
        decoded(Seq::empty(), wrap) == Some(Seq::<char>::empty()),
{
    let none = Seq::<char>::empty();
    assert(lines_of(none) =~= Seq::<Seq<char>>::empty());
    assert(blocks_of(lines_of(none), 0, MAX_BLOCK_DEPTH as nat) =~= Seq::empty());
    let doc = document_of(none);
    assert(flatten_document(doc, wrap) =~= Seq::empty());
    assert(tokens_text(flatten_document(doc, wrap)) =~= none);
    assert(lex(none) == Some(Seq::<crate::markup::token::TokenView>::empty()));
    assert(render_blocks(Seq::empty(), 0, true) =~= Seq::<Seq<char>>::empty());
    assert(unlines(Seq::<Seq<char>>::empty(), 0) =~= none);
}

/// Markup that holds a tag whose name is not of the vocabulary is not
/// decoded, whatever well-formed markup stands before the tag and
/// whatever stands behind it: the vocabulary is closed.
pub proof fn lemma_unknown_tag_refused(
    before: Seq<TokenView>,
    name: Seq<char>,
    rest: Seq<char>,
    wrapped: bool,
)
    requires
        tokens_ok(before),
        kind_named(name) is None,
        name.len() > 0,
        name[0] != '/',
        forall|i: int| 0 <= i < name.len() ==> !stops(Stop::Name, #[trigger] name[i]),
        rest.len() > 0,
        stops(Stop::Name, rest[0]),
    ensures
        decoded(tokens_text(before) + (seq!['<'] + name + rest), wrapped) is None,
{
    lemma_closed_vocabulary(before, name, rest);
}

/// A text of paragraphs and headings that was written, one empty line
/// between each two, comes back from the markup as it went in, and its
/// document is the paragraphs and headings that it was written for.
pub proof fn lemma_simple_text_survives(blocks: Seq<SimpleBlock>, wrap: bool)
    requires
        blocks.len() > 0,
        all_simple(blocks),
    ensures
        decoded(encoded(simple_text(blocks), wrap), wrap) == Some(simple_text(blocks)),
        document_of(simple_text(blocks)) == (DocumentView { blocks: simple_blocks(blocks, 0) }),
{
    lemma_decode_encode(simple_text(blocks), wrap);
    lemma_simple_text_round_trip(blocks);
    lemma_document_of_simple(blocks);
}

} // verus!
