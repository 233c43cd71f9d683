//! What holds of the whole way of a text: from Markdown to the markup
//! that is sent, and from the markup that comes back to Markdown.

use vstd::prelude::*;
use crate::codec::{encoded, lemma_decode_encode};
use crate::config::optional_list_under;
use crate::deepl::Deepl;
use crate::ignore::{
    clear_cut, is_marker, lemma_clear_cut_at_tag, lemma_marker_shape, lemma_strip_apply,
    lemma_strip_split, marker_close, marker_open, strip,
};
use crate::markdown::reader::document_of;
use crate::markdown::render::markdown_of;
use crate::markup::escape::{escape, lemma_escape_clean};
use crate::markup::kind::TagKind;
use crate::markup::lexer_laws::{token_ok, tokens_ok};
use crate::markup::token::{
    attributes_text, tag_close, token_text, tokens_text, TokenView, values_from,
};
use crate::markup::tree::flatten_document;
use crate::markup::tree_laws::lemma_flatten_document_ok;
use crate::text::occurs_at;
use crate::trans::{markdown_received, markup_to_send};

verus! {

/// A text without `<` holds no marker.
pub proof fn lemma_strip_plain(s: Seq<char>)
    requires
        forall|i: int| 0 <= i < s.len() ==> s[i] != '<',
    ensures
        strip(s) == s,
    decreases s.len(),
{
    if s.len() > 0 {
        assert(!occurs_at(s, 0, marker_open())) by {
            if occurs_at(s, 0, marker_open()) {
                assert(s.subrange(0, 12)[0] == s[0]);
            }
        }
        assert(!occurs_at(s, 0, marker_close())) by {
            if occurs_at(s, 0, marker_close()) {
                assert(s.subrange(0, 13)[0] == s[0]);
            }
        }
        let rest = s.skip(1);
        assert forall|i: int| 0 <= i < rest.len() implies rest[i] != '<' by {
            assert(rest[i] == s[i + 1]);
        }
        lemma_strip_plain(rest);
        assert(seq![s[0]] + rest =~= s);
    }
}

/// No name of the vocabulary begins like the name of the marker, and none
/// holds a `<`.
#[verifier::rlimit(40)]
pub proof fn lemma_name_not_marker(k: TagKind)
    ensures
        k.name().len() > 0,
        k.name()[0] != '/',
        k.name()[0] != 'i' || (k.name().len() > 1 && k.name()[1] != 'g'),
        forall|i: int| 0 <= i < k.name().len() ==> k.name()[i] != '<',
{
}

/// The names of the attributes of a kind hold no `<`.
#[verifier::rlimit(40)]
pub proof fn lemma_attribute_names_plain(k: TagKind)
    ensures
        forall|j: int, i: int|
            0 <= j < k.attribute_names().len() && 0 <= i < k.attribute_names()[j].len() ==> (
            #[trigger] k.attribute_names()[j][i]) != '<',
{
}

/// The attributes of a tag as they are written hold no `<`.
#[verifier::rlimit(40)]
pub proof fn lemma_attributes_plain(names: Seq<Seq<char>>, values: Seq<Seq<char>>)
    requires
        forall|j: int, i: int|
            0 <= j < names.len() && 0 <= i < names[j].len() ==> (#[trigger] names[j][i]) != '<',
    ensures
        forall|i: int|
            0 <= i < attributes_text(names, values).len() ==> attributes_text(names, values)[i]
                != '<',
    decreases names.len(),
{
    if names.len() > 0 {
        let value = if values.len() > 0 {
            values[0]
        } else {
            Seq::<char>::empty()
        };
        let head = seq![' '] + names[0] + seq!['=', '"'];
        let middle = escape(value, true);
        let more = attributes_text(names.skip(1), values_from(values, 1));
        let all = attributes_text(names, values);
        assert(all =~= head + middle + seq!['"'] + more);
        lemma_escape_clean(value, true);
        assert forall|j: int, i: int|
            0 <= j < names.skip(1).len() && 0 <= i < names.skip(1)[j].len() implies (
        #[trigger] names.skip(1)[j][i]) != '<' by {
            assert(names.skip(1)[j] == names[j + 1]);
            assert(names[j + 1][i] != '<');
        }
        lemma_attributes_plain(names.skip(1), values_from(values, 1));
        assert forall|i: int| 0 <= i < all.len() implies all[i] != '<' by {
            if i < head.len() {
                assert(all[i] == head[i]);
                if 1 <= i < 1 + names[0].len() {
                    assert(head[i] == names[0][i - 1]);
                }
            } else if i < head.len() + middle.len() {
                assert(all[i] == middle[i - head.len()]);
            } else if i == head.len() + middle.len() {
                assert(all[i] == '"');
            } else {
                assert(all[i] == more[i - head.len() - middle.len() - 1]);
            }
        }
    }
}

/// A tag as it is written begins with `<`, holds no other, ends with `>`,
/// and is no marker.
#[verifier::rlimit(40)]
pub proof fn lemma_tag_text_shape(t: TokenView)
    requires
        !(t is Text),
    ensures
        token_text(t).len() >= 3,
        token_text(t)[0] == '<',
        token_text(t).last() == '>',
        forall|i: int| 1 <= i < token_text(t).len() ==> token_text(t)[i] != '<',
        !occurs_at(token_text(t), 0, marker_open()),
        !occurs_at(token_text(t), 0, marker_close()),
{
    let s = token_text(t);
    match t {
        TokenView::End(k) => {
            let name = k.name();
            lemma_name_not_marker(k);
            assert(s =~= seq!['<', '/'] + name + seq!['>']);
            assert forall|i: int| 1 <= i < s.len() implies s[i] != '<' by {
                if 2 <= i < 2 + name.len() {
                    assert(s[i] == name[i - 2]);
                }
            }
            assert(s[1] == '/');
            assert(s[2] == name[0]);
            if name.len() > 1 {
                assert(s[3] == name[1]);
            } else {
                assert(s[3] == '>');
            }
            if occurs_at(s, 0, marker_open()) {
                assert(s.subrange(0, 12)[1] == s[1]);
            }
            if occurs_at(s, 0, marker_close()) {
                assert(s.subrange(0, 13)[2] == s[2]);
                assert(s.subrange(0, 13)[3] == s[3]);
            }
        },
        TokenView::Start(k, values) => {
            let name = k.name();
            let attrs = attributes_text(k.attribute_names(), values);
            let close = tag_close(k);
            lemma_name_not_marker(k);
            lemma_attribute_names_plain(k);
            lemma_attributes_plain(k.attribute_names(), values);
            assert(s =~= seq!['<'] + name + attrs + close);
            assert forall|i: int| 1 <= i < s.len() implies s[i] != '<' by {
                if i < 1 + name.len() {
                    assert(s[i] == name[i - 1]);
                } else if i < 1 + name.len() + attrs.len() {
                    assert(s[i] == attrs[i - 1 - name.len()]);
                } else {
                    assert(s[i] == close[i - 1 - name.len() - attrs.len()]);
                }
            }
            assert(s.last() == close.last());
            assert(s[1] == name[0]);
            if name.len() > 1 {
                assert(s[2] == name[1]);
            }
            if occurs_at(s, 0, marker_open()) {
                assert(s.subrange(0, 12)[1] == s[1]);
                assert(s.subrange(0, 12)[2] == s[2]);
                if name.len() == 1 {
                    assert(false);
                }
            }
            if occurs_at(s, 0, marker_close()) {
                assert(s.subrange(0, 13)[1] == s[1]);
            }
        },
        TokenView::Text(_) => {},
    }
}

/// A token as it is written holds no marker.
pub proof fn lemma_strip_token(t: TokenView)
    requires
        token_ok(t),
    ensures
        strip(token_text(t)) == token_text(t),
{
    let s = token_text(t);
    match t {
        TokenView::Text(x) => {
            lemma_escape_clean(x, false);
            lemma_strip_plain(s);
        },
        _ => {
            lemma_tag_text_shape(t);
            let rest = s.skip(1);
            assert forall|i: int| 0 <= i < rest.len() implies rest[i] != '<' by {
                assert(rest[i] == s[i + 1]);
            }
            lemma_strip_plain(rest);
            assert(seq![s[0]] + rest =~= s);
        },
    }
}

/// No marker runs across the place behind a `>`.
pub proof fn lemma_clear_cut_behind_tag(s: Seq<char>, p: int)
    requires
        0 < p <= s.len(),
        s[p - 1] == '>',
    ensures
        clear_cut(s, p),
{
    assert forall|u: int, m: Seq<char>| is_marker(m) && u < p < u + m.len() implies !#[trigger] occurs_at(
        s,
        u,
        m,
    ) by {
        lemma_marker_shape(m);
        if occurs_at(s, u, m) {
            assert(s.subrange(u, u + m.len())[p - 1 - u] == s[p - 1]);
        }
    }
}

/// Markup as it is written holds no marker: taking the markers out
/// changes nothing.
#[verifier::rlimit(40)]
pub proof fn lemma_strip_tokens_text(ts: Seq<TokenView>)
    requires
        tokens_ok(ts),
    ensures
        strip(tokens_text(ts)) == tokens_text(ts),
    decreases ts.len(),
{
    if ts.len() > 0 {
        let head = token_text(ts[0]);
        let rest = ts.skip(1);
        let tail = tokens_text(rest);
        let s = head + tail;
        lemma_strip_token(ts[0]);
        lemma_strip_tokens_text(rest);
        let p = head.len() as int;
        if tail.len() == 0 {
            assert(s =~= head);
        } else if head.len() == 0 {
            assert(s =~= tail);
        } else {
            if ts[0] is Text {
                assert(rest.len() > 0);
                assert(rest[0] == ts[1]);
                lemma_tag_text_shape(rest[0]);
                assert(tail[0] == token_text(rest[0])[0]);
                assert(s[p] == tail[0]);
                lemma_clear_cut_at_tag(s, p);
            } else {
                lemma_tag_text_shape(ts[0]);
                assert(s[p - 1] == head.last());
                lemma_clear_cut_behind_tag(s, p);
            }
            lemma_strip_split(s, p);
            assert(s.take(p) =~= head);
            assert(s.skip(p) =~= tail);
        }
    }
}

/// The markup of a well-formed document holds no marker.
pub proof fn lemma_strip_encoded(markdown: Seq<char>, wrap: bool)
    ensures
        strip(encoded(markdown, wrap)) == encoded(markdown, wrap),
{
    crate::markdown::laws::lemma_document_of_ok(markdown);
    lemma_flatten_document_ok(document_of(markdown), wrap);
    lemma_strip_tokens_text(flatten_document(document_of(markdown), wrap));
}

/// Where the service gives back the markup that it was sent, the Markdown
/// that is received is the Markdown of the document that was read from
/// the text, whatever phrases the settings shield: the markers that were
/// put in are taken out, and nothing else is gone.
pub proof fn lemma_untranslated_round_trip(deepl: Deepl, markdown: Seq<char>)
    ensures
        markdown_received(markup_to_send(deepl, markdown)) == Some(
            markdown_of(document_of(markdown)),
        ),
{
    lemma_strip_encoded(markdown, true);
    lemma_decode_encode(markdown, true);
    match optional_list_under(deepl.config@.ignores, deepl.config@.project_name) {
        Some(phrases) => {
            lemma_strip_apply(encoded(markdown, true), phrases);
        },
        None => {},
    }
}

} // verus!
