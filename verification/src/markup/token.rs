//! Markup as a sequence of tokens: text, the start of an element with the
//! values of its attributes, and the end of an element.

use vstd::prelude::*;
use crate::markup::escape::{escape, escape_into};
use crate::markup::kind::TagKind;
use crate::text::{append_chars, rows};

verus! {

/// A token of markup.
#[derive(Debug, PartialEq, Eq)]
pub enum Token {
    /// Text between tags, as it reads.
    Text(Vec<char>),
    /// The start of an element and the values of its attributes; for a
    /// void kind the whole element.
    Start(TagKind, Vec<Vec<char>>),
    /// The end of an element.
    End(TagKind),
}

/// Mathematical view of `Token`.
pub ghost enum TokenView {
    Text(Seq<char>),
    Start(TagKind, Seq<Seq<char>>),
    End(TagKind),
}

impl View for Token {
    type V = TokenView;

    open spec fn view(&self) -> TokenView {
        match self {
            Token::Text(s) => TokenView::Text(s@),
            Token::Start(k, a) => TokenView::Start(*k, rows(a@)),
            Token::End(k) => TokenView::End(*k),
        }
    }
}

/// The views of a sequence of tokens.
pub open spec fn token_views(ts: Seq<Token>) -> Seq<TokenView> {
    Seq::new(ts.len(), |i: int| ts[i]@)
}

/// The attributes of a tag: for each name a space, the name, and the
/// escaped value between quotation marks. A value that is missing counts
/// as empty.
pub open spec fn attributes_text(names: Seq<Seq<char>>, values: Seq<Seq<char>>) -> Seq<char>
    decreases names.len(),
{
    if names.len() == 0 {
        Seq::empty()
    } else {
        let value = if values.len() > 0 {
            values[0]
        } else {
            Seq::empty()
        };
        seq![' '] + names[0] + seq!['=', '"'] + escape(value, true) + seq!['"'] + attributes_text(
            names.skip(1),
            values_from(values, 1),
        )
    }
}

/// The values from index `k` on; none where there are fewer.
pub open spec fn values_from(values: Seq<Seq<char>>, k: int) -> Seq<Seq<char>> {
    if 0 <= k <= values.len() {
        values.skip(k)
    } else {
        Seq::empty()
    }
}

/// How a tag ends: a void one with `/>`, any other with `>`.
pub open spec fn tag_close(kind: TagKind) -> Seq<char> {
    if kind.is_void() {
        seq!['/', '>']
    } else {
        seq!['>']
    }
}

/// How a token is written.
pub open spec fn token_text(t: TokenView) -> Seq<char> {
    match t {
        TokenView::Text(s) => escape(s, false),
        TokenView::Start(k, a) => seq!['<'] + k.name() + attributes_text(k.attribute_names(), a)
            + tag_close(k),
        TokenView::End(k) => seq!['<', '/'] + k.name() + seq!['>'],
    }
}

/// How a sequence of tokens is written: one token after the other.
pub open spec fn tokens_text(ts: Seq<TokenView>) -> Seq<char>
    decreases ts.len(),
{
    if ts.len() == 0 {
        Seq::empty()
    } else {
        token_text(ts[0]) + tokens_text(ts.skip(1))
    }
}

impl TagKind {
    /// Computes `attribute_names`.
    pub fn attributes(&self) -> (r: Vec<Vec<char>>)
        ensures
            rows(r@) == self.attribute_names(),
    {
        let mut names: Vec<Vec<char>> = Vec::new();
        match self {
            TagKind::Heading => {
                names.push(vec!['l', 'e', 'v', 'e', 'l']);
            },
            TagKind::List => {
                names.push(vec!['o', 'r', 'd', 'e', 'r', 'e', 'd']);
                names.push(vec!['s', 't', 'a', 'r', 't']);
                names.push(vec!['t', 'i', 'g', 'h', 't']);
            },
            TagKind::CodeBlock => {
                names.push(vec!['i', 'n', 'f', 'o']);
            },
            TagKind::Table => {
                names.push(vec!['a', 'l', 'i', 'g', 'n']);
            },
            TagKind::TableCell => {
                names.push(vec!['h', 'e', 'a', 'd', 'e', 'r']);
            },
            TagKind::Link => {
                names.push(vec!['h', 'r', 'e', 'f']);
                names.push(vec!['t', 'i', 't', 'l', 'e']);
            },
            TagKind::Image => {
                names.push(vec!['s', 'r', 'c']);
                names.push(vec!['t', 'i', 't', 'l', 'e']);
                names.push(vec!['a', 'l', 't']);
            },
            _ => {},
        }
        proof {
            let want = self.attribute_names();
            assert(rows(names@).len() == want.len());
            assert forall|i: int| 0 <= i < want.len() implies rows(names@)[i] =~= want[i] by {}
            assert(rows(names@) =~= want);
        }
        names
    }
}

/// Appends the attributes of a tag to `out`.
fn write_attributes(out: &mut Vec<char>, names: &Vec<Vec<char>>, values: &Vec<Vec<char>>)
    ensures
        final(out)@ == old(out)@ + attributes_text(rows(names@), rows(values@)),
{
    let ghost all_names = rows(names@);
    let ghost all_values = rows(values@);
    let empty: Vec<char> = Vec::new();
    let mut k: usize = 0;
    proof {
        assert(all_names.skip(0) =~= all_names);
        assert(values_from(all_values, 0) =~= all_values);
    }
    while k < names.len()
        invariant
            k <= names.len(),
            all_names == rows(names@),
            all_values == rows(values@),
            empty@ == Seq::<char>::empty(),
            out@ + attributes_text(all_names.skip(k as int), values_from(all_values, k as int)) == old(
                out,
            )@ + attributes_text(all_names, all_values),
        decreases names.len() - k,
    {
        let ghost before = out@;
        let ghost rest_names = all_names.skip(k as int);
        let ghost rest_values = values_from(all_values, k as int);
        proof {
            assert(rest_names[0] == names@[k as int]@);
            assert(rest_names.skip(1) =~= all_names.skip(k + 1));
            assert(values_from(rest_values, 1) =~= values_from(all_values, k + 1));
            if k < values.len() {
                assert(rest_values[0] == values@[k as int]@);
            } else {
                assert(rest_values.len() == 0);
            }
        }
        out.push(' ');
        append_chars(out, &names[k]);
        out.push('=');
        out.push('"');
        if k < values.len() {
            escape_into(out, &values[k], true);
        } else {
            escape_into(out, &empty, true);
        }
        out.push('"');
        proof {
            let value = if rest_values.len() > 0 {
                rest_values[0]
            } else {
                Seq::<char>::empty()
            };
            let one = seq![' '] + rest_names[0] + seq!['=', '"'] + escape(value, true) + seq!['"'];
            assert(out@ =~= before + one);
            assert(out@ + attributes_text(all_names.skip(k + 1), values_from(all_values, k + 1))
                =~= before + attributes_text(rest_names, rest_values));
        }
        k += 1;
    }
    proof {
        assert(all_names.skip(names@.len() as int) =~= Seq::<Seq<char>>::empty());
        assert(out@ + Seq::<char>::empty() =~= out@);
    }
}

/// Appends a token as it is written to `out`.
pub fn write_token(out: &mut Vec<char>, token: &Token)
    ensures
        final(out)@ == old(out)@ + token_text(token@),
{
    match token {
        Token::Text(s) => {
            escape_into(out, s, false);
        },
        Token::Start(kind, values) => {
            let ghost before = out@;
            out.push('<');
            append_chars(out, &kind.tag_name());
            write_attributes(out, &kind.attributes(), values);
            if kind.void() {
                out.push('/');
            }
            out.push('>');
            proof {
                assert(out@ =~= before + token_text(token@));
            }
        },
        Token::End(kind) => {
            let ghost before = out@;
            out.push('<');
            out.push('/');
            append_chars(out, &kind.tag_name());
            out.push('>');
            proof {
                assert(out@ =~= before + token_text(token@));
            }
        },
    }
}

/// Writes a sequence of tokens.
pub fn write_tokens(tokens: &Vec<Token>) -> (r: Vec<char>)
    ensures
        r@ == tokens_text(token_views(tokens@)),
{
    let ghost all = token_views(tokens@);
    let mut out: Vec<char> = Vec::new();
    let mut k: usize = 0;
    proof {
        assert(all.skip(0) =~= all);
        assert(out@ + tokens_text(all) =~= tokens_text(all));
    }
    while k < tokens.len()
        invariant
            k <= tokens.len(),
            all == token_views(tokens@),
            out@ + tokens_text(all.skip(k as int)) == tokens_text(all),
        decreases tokens.len() - k,
    {
        let ghost before = out@;
        let ghost rest = all.skip(k as int);
        proof {
            assert(rest[0] == tokens@[k as int]@);
            assert(rest.skip(1) =~= all.skip(k + 1));
        }
        write_token(&mut out, &tokens[k]);
        proof {
            assert(out@ + tokens_text(all.skip(k + 1)) =~= before + tokens_text(rest));
        }
        k += 1;
    }
    proof {
        assert(all.skip(all.len() as int) =~= Seq::<TokenView>::empty());
        assert(out@ + Seq::<char>::empty() =~= out@);
    }
    out
}

} // verus!
