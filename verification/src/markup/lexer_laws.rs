//! Reading gives back the tokens that were written.

use vstd::prelude::*;
use crate::markup::escape::{escape, lemma_escape_clean, lemma_unescape_escape};
use crate::markup::kind::{kind_named, lemma_kind_named, TagKind};
use crate::markup::lexer::{
    attribute_head, lemma_run_len_is, lex, lex_attributes, lex_end_tag, lex_start_tag, lex_tag,
    Stop, stops,
};
use crate::markup::token::{
    attributes_text, tag_close, token_text, tokens_text, TokenView, values_from,
};
use crate::text::prepend;

verus! {

/// A token as writing expects it: a text is not empty, a start has one
/// value for each attribute of its kind, and only a kind that is not void
/// has an end.
pub open spec fn token_ok(t: TokenView) -> bool {
    match t {
        TokenView::Text(s) => s.len() > 0,
        TokenView::Start(k, a) => a.len() == k.attribute_names().len(),
        TokenView::End(k) => !k.is_void(),
    }
}

/// Tokens as writing expects them: each is well-formed, and no text
/// follows a text.
pub open spec fn tokens_ok(ts: Seq<TokenView>) -> bool
    decreases ts.len(),
{
    if ts.len() == 0 {
        true
    } else {
        &&& token_ok(ts[0])
        &&& (ts.len() > 1 && ts[0] is Text ==> !(ts[1] is Text))
        &&& tokens_ok(ts.skip(1))
    }
}

/// The name of a kind is not empty and holds none of the characters that
/// end a name.
#[verifier::rlimit(40)]
pub proof fn lemma_name_shape(k: TagKind)
    ensures
        k.name().len() > 0,
        forall|i: int| 0 <= i < k.name().len() ==> !stops(Stop::Name, #[trigger] k.name()[i]),
{
}

/// The attributes that were written are read back, whatever follows them.
#[verifier::rlimit(40)]
pub proof fn lemma_lex_attributes(names: Seq<Seq<char>>, values: Seq<Seq<char>>, tail: Seq<char>)
    requires
        values.len() == names.len(),
    ensures
        lex_attributes(attributes_text(names, values) + tail, names) == Some(
            (values, attributes_text(names, values).len() as int),
        ),
    decreases names.len(),
{
    if names.len() == 0 {
        assert(values =~= Seq::<Seq<char>>::empty());
    } else {
        let head = attribute_head(names[0]);
        let value = escape(values[0], true);
        let more = attributes_text(names.skip(1), values_from(values, 1));
        let written = attributes_text(names, values);
        assert(written =~= head + value + seq!['"'] + more);
        let s = written + tail;
        assert(s.subrange(0, head.len() as int) =~= head);
        let rest = s.skip(head.len() as int);
        assert(rest =~= value + (seq!['"'] + more + tail));
        lemma_escape_clean(values[0], true);
        assert forall|i: int| 0 <= i < value.len() implies !stops(Stop::Quote, #[trigger] rest[i]) by {
            assert(rest[i] == value[i]);
        }
        assert(rest[value.len() as int] == '"');
        lemma_run_len_is(rest, Stop::Quote, value.len() as int);
        assert(rest.take(value.len() as int) =~= value);
        lemma_unescape_escape(values[0], true);
        assert(rest.skip(value.len() as int + 1) =~= more + tail);
        assert(values_from(values, 1) =~= values.skip(1));
        lemma_lex_attributes(names.skip(1), values.skip(1), tail);
        assert(seq![values[0]] + values.skip(1) =~= values);
    }
}

/// What follows the name in a start tag begins with a character that ends
/// the name.
proof fn lemma_after_name(k: TagKind, values: Seq<Seq<char>>, tail: Seq<char>)
    ensures
        (attributes_text(k.attribute_names(), values) + tag_close(k) + tail).len() > 0,
        stops(Stop::Name, (attributes_text(k.attribute_names(), values) + tag_close(k) + tail)[0]),
{
    let names = k.attribute_names();
    let written = attributes_text(names, values);
    let all = written + tag_close(k) + tail;
    if names.len() == 0 {
        assert(all[0] == tag_close(k)[0]);
    } else {
        let value = if values.len() > 0 {
            values[0]
        } else {
            Seq::<char>::empty()
        };
        let first = seq![' '] + names[0] + seq!['=', '"'] + escape(value, true) + seq!['"'];
        assert(written =~= first + attributes_text(names.skip(1), values_from(values, 1)));
        assert(all[0] == first[0]);
    }
}

/// The end of an element that was written is read back, whatever follows
/// it.
#[verifier::rlimit(40)]
proof fn lemma_lex_end_tag(k: TagKind, tail: Seq<char>)
    requires
        !k.is_void(),
    ensures
        lex_end_tag(token_text(TokenView::End(k)) + tail) == Some(
            (TokenView::End(k), token_text(TokenView::End(k)).len() as int),
        ),
        token_text(TokenView::End(k)).len() >= 2,
        token_text(TokenView::End(k))[0] == '<',
        token_text(TokenView::End(k))[1] == '/',
{
    let name = k.name();
    lemma_name_shape(k);
    let written = seq!['<', '/'] + name + seq!['>'];
    assert(token_text(TokenView::End(k)) =~= written);
    let s = written + tail;
    let rest = s.skip(2);
    assert(rest =~= name + (seq!['>'] + tail));
    assert forall|i: int| 0 <= i < name.len() implies !stops(Stop::Name, #[trigger] rest[i]) by {
        assert(rest[i] == name[i]);
    }
    assert(rest[name.len() as int] == '>');
    lemma_run_len_is(rest, Stop::Name, name.len() as int);
    assert(rest.take(name.len() as int) =~= name);
    lemma_kind_named(k);
}

/// The start of an element that was written is read back, whatever
/// follows it.
#[verifier::rlimit(40)]
proof fn lemma_lex_start_tag(k: TagKind, values: Seq<Seq<char>>, tail: Seq<char>)
    requires
        values.len() == k.attribute_names().len(),
    ensures
        lex_start_tag(token_text(TokenView::Start(k, values)) + tail) == Some(
            (TokenView::Start(k, values), token_text(TokenView::Start(k, values)).len() as int),
        ),
        token_text(TokenView::Start(k, values)).len() >= 2,
        token_text(TokenView::Start(k, values))[0] == '<',
        token_text(TokenView::Start(k, values))[1] != '/',
{
    let name = k.name();
    let names = k.attribute_names();
    lemma_name_shape(k);
    let attrs = attributes_text(names, values);
    let close = tag_close(k);
    let written = seq!['<'] + name + attrs + close;
    assert(token_text(TokenView::Start(k, values)) =~= written);
    assert(written[1] == name[0]);
    assert(!stops(Stop::Name, name[0]));
    let s = written + tail;
    let rest = s.skip(1);
    let after_name = attrs + close + tail;
    assert(rest =~= name + after_name);
    lemma_after_name(k, values, tail);
    assert forall|i: int| 0 <= i < name.len() implies !stops(Stop::Name, #[trigger] rest[i]) by {
        assert(rest[i] == name[i]);
    }
    assert(rest[name.len() as int] == after_name[0]);
    lemma_run_len_is(rest, Stop::Name, name.len() as int);
    assert(rest.take(name.len() as int) =~= name);
    lemma_kind_named(k);
    assert(rest.skip(name.len() as int) =~= attrs + (close + tail));
    lemma_lex_attributes(names, values, close + tail);
    let after = rest.skip(name.len() as int + attrs.len() as int);
    assert(after =~= close + tail);
    if k.is_void() {
        assert(after[0] == '/' && after[1] == '>');
    } else {
        assert(after[0] == '>');
    }
}

/// A tag that was written is read back, whatever follows it.
pub proof fn lemma_lex_tag(t: TokenView, tail: Seq<char>)
    requires
        token_ok(t),
        !(t is Text),
    ensures
        token_text(t).len() > 0,
        token_text(t)[0] == '<',
        lex_tag(token_text(t) + tail) == Some((t, token_text(t).len() as int)),
{
    let head = token_text(t);
    let s = head + tail;
    match t {
        TokenView::End(k) => {
            lemma_lex_end_tag(k, tail);
            assert(s[1] == head[1]);
        },
        TokenView::Start(k, values) => {
            lemma_lex_start_tag(k, values, tail);
            assert(s[1] == head[1]);
        },
        TokenView::Text(_) => {},
    }
}

/// What was written for tokens that do not begin with a text begins with
/// a tag, or is empty.
pub proof fn lemma_tokens_text_start(ts: Seq<TokenView>)
    requires
        tokens_ok(ts),
        ts.len() > 0 ==> !(ts[0] is Text),
    ensures
        tokens_text(ts).len() > 0 ==> tokens_text(ts)[0] == '<',
        ts.len() == 0 ==> tokens_text(ts).len() == 0,
{
    if ts.len() > 0 {
        lemma_lex_tag(ts[0], tokens_text(ts.skip(1)));
        assert(tokens_text(ts)[0] == token_text(ts[0])[0]);
    }
}

/// Reading what was written gives the tokens back.
#[verifier::rlimit(40)]
pub proof fn lemma_lex_tokens_text(ts: Seq<TokenView>)
    requires
        tokens_ok(ts),
    ensures
        lex(tokens_text(ts)) == Some(ts),
    decreases ts.len(),
{
    if ts.len() > 0 {
        let t = ts[0];
        let rest = ts.skip(1);
        let head = token_text(t);
        let tail = tokens_text(rest);
        let s = head + tail;
        assert(tokens_text(ts) == s);
        lemma_lex_tokens_text(rest);
        match t {
            TokenView::Text(x) => {
                lemma_escape_clean(x, false);
                lemma_tokens_text_start(rest);
                assert(s[0] == head[0]);
                assert forall|i: int| 0 <= i < head.len() implies !stops(Stop::Tag, #[trigger] s[i]) by {
                    assert(s[i] == head[i]);
                }
                if head.len() < s.len() {
                    assert(s[head.len() as int] == tail[0]);
                }
                lemma_run_len_is(s, Stop::Tag, head.len() as int);
                assert(s.take(head.len() as int) =~= head);
                assert(s.skip(head.len() as int) =~= tail);
                lemma_unescape_escape(x, false);
                assert(seq![t] + rest =~= ts);
            },
            _ => {
                lemma_lex_tag(t, tail);
                assert(s[0] == head[0]);
                assert(s.skip(head.len() as int) =~= tail);
                assert(seq![t] + rest =~= ts);
            },
        }
    }
}

/// Tokens that are well-formed stay so when they are put behind others,
/// unless a text would follow a text.
pub proof fn lemma_tokens_ok_concat(a: Seq<TokenView>, b: Seq<TokenView>)
    requires
        tokens_ok(a),
        tokens_ok(b),
        a.len() > 0 && b.len() > 0 ==> !(a.last() is Text && b[0] is Text),
    ensures
        tokens_ok(a + b),
    decreases a.len(),
{
    if a.len() == 0 {
        assert(a + b =~= b);
    } else {
        let all = a + b;
        assert(all[0] == a[0]);
        assert(all.skip(1) =~= a.skip(1) + b);
        if a.len() > 1 {
            assert(all[1] == a[1]);
            assert(a.skip(1).last() == a.last());
        } else {
            assert(a.last() == a[0]);
            if b.len() > 0 {
                assert(all[1] == b[0]);
            }
        }
        lemma_tokens_ok_concat(a.skip(1), b);
    }
}

/// Reading tokens that were written and something behind them gives the
/// tokens and what reading the rest gives, where the rest begins with a
/// tag.
#[verifier::rlimit(40)]
pub proof fn lemma_lex_tokens_then(ts: Seq<TokenView>, rest: Seq<char>)
    requires
        tokens_ok(ts),
        rest.len() > 0,
        rest[0] == '<',
    ensures
        lex(tokens_text(ts) + rest) == prepend(ts, lex(rest)),
    decreases ts.len(),
{
    if ts.len() == 0 {
        assert(tokens_text(ts) + rest =~= rest);
        if let Some(more) = lex(rest) {
            assert(ts + more =~= more);
        }
    } else {
        let t = ts[0];
        let later = ts.skip(1);
        let head = token_text(t);
        let tail = tokens_text(later) + rest;
        let s = head + tail;
        assert(tokens_text(ts) + rest =~= s);
        lemma_lex_tokens_then(later, rest);
        assert(tokens_ok(later));
        match t {
            TokenView::Text(x) => {
                lemma_escape_clean(x, false);
                if later.len() > 0 {
                    assert(later[0] == ts[1]);
                    assert(!(later[0] is Text));
                    assert(token_ok(later[0]));
                    lemma_lex_tag(later[0], tokens_text(later.skip(1)));
                    assert(tokens_text(later)[0] == token_text(later[0])[0]);
                    assert(tail[0] == tokens_text(later)[0]);
                } else {
                    assert(tokens_text(later) =~= Seq::<char>::empty());
                    assert(tail =~= rest);
                }
                assert(tail[0] == '<');
                assert(s[0] == head[0]);
                assert forall|i: int| 0 <= i < head.len() implies !stops(Stop::Tag, #[trigger] s[i]) by {
                    assert(s[i] == head[i]);
                }
                assert(s[head.len() as int] == tail[0]);
                lemma_run_len_is(s, Stop::Tag, head.len() as int);
                assert(s.take(head.len() as int) =~= head);
                assert(s.skip(head.len() as int) =~= tail);
                lemma_unescape_escape(x, false);
            },
            _ => {
                lemma_lex_tag(t, tail);
                assert(s[0] == head[0]);
                assert(s.skip(head.len() as int) =~= tail);
            },
        }
        if let Some(more) = lex(rest) {
            assert(seq![t] + (later + more) =~= ts + more);
        }
    }
}

/// A tag whose name is not of the vocabulary is not read.
pub proof fn lemma_unknown_tag(name: Seq<char>, rest: Seq<char>)
    requires
        kind_named(name) is None,
        name.len() > 0,
        name[0] != '/',
        forall|i: int| 0 <= i < name.len() ==> !stops(Stop::Name, #[trigger] name[i]),
        rest.len() > 0,
        stops(Stop::Name, rest[0]),
    ensures
        lex_tag(seq!['<'] + name + rest) is None,
        lex(seq!['<'] + name + rest) is None,
{
    let s = seq!['<'] + name + rest;
    assert(s[0] == '<');
    assert(s[1] == name[0]);
    let after = s.skip(1);
    assert(after =~= name + rest);
    assert forall|i: int| 0 <= i < name.len() implies !stops(Stop::Name, #[trigger] after[i]) by {
        assert(after[i] == name[i]);
    }
    assert(after[name.len() as int] == rest[0]);
    lemma_run_len_is(after, Stop::Name, name.len() as int);
    assert(after.take(name.len() as int) =~= name);
}

/// The end of an element whose name is not of the vocabulary is not read.
pub proof fn lemma_unknown_end_tag(name: Seq<char>, rest: Seq<char>)
    requires
        kind_named(name) is None,
        forall|i: int| 0 <= i < name.len() ==> !stops(Stop::Name, #[trigger] name[i]),
        rest.len() > 0,
        stops(Stop::Name, rest[0]),
    ensures
        lex(seq!['<', '/'] + name + rest) is None,
{
    let s = seq!['<', '/'] + name + rest;
    assert(s[0] == '<');
    assert(s[1] == '/');
    let after = s.skip(2);
    assert(after =~= name + rest);
    assert forall|i: int| 0 <= i < name.len() implies !stops(Stop::Name, #[trigger] after[i]) by {
        assert(after[i] == name[i]);
    }
    assert(after[name.len() as int] == rest[0]);
    lemma_run_len_is(after, Stop::Name, name.len() as int);
    assert(after.take(name.len() as int) =~= name);
}

/// Markup that holds a tag whose name is not of the vocabulary is not
/// read, whatever well-formed markup stands before the tag and whatever
/// stands behind it.
pub proof fn lemma_closed_vocabulary(ts: Seq<TokenView>, name: Seq<char>, rest: Seq<char>)
    requires
        tokens_ok(ts),
        kind_named(name) is None,
        name.len() > 0,
        name[0] != '/',
        forall|i: int| 0 <= i < name.len() ==> !stops(Stop::Name, #[trigger] name[i]),
        rest.len() > 0,
        stops(Stop::Name, rest[0]),
    ensures
        lex(tokens_text(ts) + (seq!['<'] + name + rest)) is None,
{
    let tag = seq!['<'] + name + rest;
    assert(tag[0] == '<');
    lemma_unknown_tag(name, rest);
    lemma_lex_tokens_then(ts, tag);
}

} // verus!
