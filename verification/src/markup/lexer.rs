//! Reading markup as a sequence of tokens.

use vstd::prelude::*;
use crate::markup::escape::{unescape, unescape_range};
use crate::markup::kind::{kind_named, kind_of_name};
use crate::markup::token::{Token, token_views, TokenView};
use crate::text::{copy_range, lemma_occurs_at_skip, matches_at, occurs_at, prepend, rows};

verus! {

/// What ends a run of characters.
#[derive(Clone, Copy, Debug, PartialEq, Eq)]
pub enum Stop {
    /// The start of a tag ends a text.
    Tag,
    /// A space, a slash or the end of the tag ends a name.
    Name,
    /// A quotation mark ends the value of an attribute.
    Quote,
}

/// Whether a character ends a run.
pub open spec fn stops(m: Stop, c: char) -> bool {
    match m {
        Stop::Tag => c == '<',
        Stop::Name => c == ' ' || c == '/' || c == '>',
        Stop::Quote => c == '"',
    }
}

/// The number of characters in front of `s` that do not end the run.
pub open spec fn run_len(s: Seq<char>, m: Stop) -> int
    decreases s.len(),
{
    if s.len() > 0 && !stops(m, s[0]) {
        1 + run_len(s.skip(1), m)
    } else {
        0
    }
}

/// What reading some attributes gave, after the attributes that were read
/// before them.
pub open spec fn attributes_after(
    values: Seq<Seq<char>>,
    length: int,
    rest: Option<(Seq<Seq<char>>, int)>,
) -> Option<(Seq<Seq<char>>, int)> {
    match rest {
        Some((more, n)) => Some((values + more, length + n)),
        None => None,
    }
}

/// The text in front of an attribute's value: a space, the name, `="`.
pub open spec fn attribute_head(name: Seq<char>) -> Seq<char> {
    seq![' '] + name + seq!['=', '"']
}

/// Reads the attributes with the given names, in their order, from the
/// front of `s`: the values, and the number of characters read. Each
/// attribute is written as a space, the name, `="`, the escaped value and
/// `"`.
pub open spec fn lex_attributes(s: Seq<char>, names: Seq<Seq<char>>) -> Option<(Seq<Seq<char>>, int)>
    decreases names.len(),
{
    if names.len() == 0 {
        Some((Seq::empty(), 0))
    } else {
        let head = attribute_head(names[0]);
        if !occurs_at(s, 0, head) {
            None
        } else {
            let rest = s.skip(head.len() as int);
            let n = run_len(rest, Stop::Quote);
            if n >= rest.len() {
                None
            } else {
                attributes_after(
                    seq![unescape(rest.take(n))],
                    head.len() + n + 1,
                    lex_attributes(rest.skip(n + 1), names.skip(1)),
                )
            }
        }
    }
}

/// Reads the end of an element from the front of `s`, which begins with
/// `</`: the token, and the number of characters read.
pub open spec fn lex_end_tag(s: Seq<char>) -> Option<(TokenView, int)> {
    let rest = s.skip(2);
    let n = run_len(rest, Stop::Name);
    if n < rest.len() && rest[n] == '>' {
        match kind_named(rest.take(n)) {
            Some(k) => if k.is_void() {
                None
            } else {
                Some((TokenView::End(k), n + 3))
            },
            None => None,
        }
    } else {
        None
    }
}

/// Reads the start of an element from the front of `s`, which begins with
/// `<`: the token, and the number of characters read.
pub open spec fn lex_start_tag(s: Seq<char>) -> Option<(TokenView, int)> {
    let rest = s.skip(1);
    let n = run_len(rest, Stop::Name);
    match kind_named(rest.take(n)) {
        None => None,
        Some(k) => match lex_attributes(rest.skip(n), k.attribute_names()) {
            None => None,
            Some((values, m)) => {
                let after = rest.skip(n + m);
                if k.is_void() {
                    if after.len() >= 2 && after[0] == '/' && after[1] == '>' {
                        Some((TokenView::Start(k, values), 1 + n + m + 2))
                    } else {
                        None
                    }
                } else {
                    if after.len() >= 1 && after[0] == '>' {
                        Some((TokenView::Start(k, values), 1 + n + m + 1))
                    } else {
                        None
                    }
                }
            },
        },
    }
}

/// Reads a tag from the front of `s`, which begins with `<`.
pub open spec fn lex_tag(s: Seq<char>) -> Option<(TokenView, int)> {
    if s.len() >= 2 && s[1] == '/' {
        lex_end_tag(s)
    } else {
        lex_start_tag(s)
    }
}

/// Reads markup as tokens: a tag of the vocabulary with its attributes,
/// or the text up to the next tag with its entities resolved. Nothing
/// where a tag is not closed, is not of the vocabulary, or has not
/// exactly the attributes of its kind.
pub open spec fn lex(s: Seq<char>) -> Option<Seq<TokenView>>
    decreases s.len(),
{
    if s.len() == 0 {
        Some(Seq::empty())
    } else if s[0] == '<' {
        match lex_tag(s) {
            Some((t, n)) => if 0 < n <= s.len() {
                prepend(seq![t], lex(s.skip(n)))
            } else {
                None
            },
            None => None,
        }
    } else {
        let n = run_len(s, Stop::Tag);
        if 0 < n <= s.len() {
            prepend(seq![TokenView::Text(unescape(s.take(n)))], lex(s.skip(n)))
        } else {
            None
        }
    }
}

/// A run is no longer than the text.
pub proof fn lemma_run_len_bound(s: Seq<char>, m: Stop)
    ensures
        0 <= run_len(s, m) <= s.len(),
        forall|i: int| 0 <= i < run_len(s, m) ==> !stops(m, #[trigger] s[i]),
        run_len(s, m) < s.len() ==> stops(m, s[run_len(s, m)]),
    decreases s.len(),
{
    if s.len() > 0 && !stops(m, s[0]) {
        lemma_run_len_bound(s.skip(1), m);
        assert forall|i: int| 0 <= i < run_len(s, m) implies !stops(m, #[trigger] s[i]) by {
            if i > 0 {
                assert(s[i] == s.skip(1)[i - 1]);
            }
        }
    }
}

/// A run of `n` characters that do not end it, followed by the end of the
/// text or by a character that ends it, has length `n`.
pub proof fn lemma_run_len_is(s: Seq<char>, m: Stop, n: int)
    requires
        0 <= n <= s.len(),
        forall|i: int| 0 <= i < n ==> !stops(m, #[trigger] s[i]),
        n < s.len() ==> stops(m, s[n]),
    ensures
        run_len(s, m) == n,
    decreases n,
{
    if n > 0 {
        assert(!stops(m, s[0]));
        assert forall|i: int| 0 <= i < n - 1 implies !stops(m, #[trigger] s.skip(1)[i]) by {
            assert(s.skip(1)[i] == s[i + 1]);
        }
        lemma_run_len_is(s.skip(1), m, n - 1);
    }
}

/// Computes whether a character ends a run.
fn is_stop(m: Stop, c: char) -> (r: bool)
    ensures
        r == stops(m, c),
{
    match m {
        Stop::Tag => c == '<',
        Stop::Name => c == ' ' || c == '/' || c == '>',
        Stop::Quote => c == '"',
    }
}

/// The index at which the run that begins at `from` ends.
pub fn run_end(s: &Vec<char>, from: usize, m: Stop) -> (r: usize)
    requires
        from <= s.len(),
    ensures
        from <= r <= s.len(),
        r - from == run_len(s@.skip(from as int), m),
{
    let mut i: usize = from;
    while i < s.len() && !is_stop(m, s[i])
        invariant
            from <= i <= s.len(),
            forall|j: int| from <= j < i ==> !stops(m, #[trigger] s@[j]),
        decreases s.len() - i,
    {
        i += 1;
    }
    proof {
        let rest = s@.skip(from as int);
        assert forall|j: int| 0 <= j < i - from implies !stops(m, #[trigger] rest[j]) by {
            assert(rest[j] == s@[from + j]);
        }
        lemma_run_len_is(rest, m, i - from);
    }
    i
}

/// Computes `lex_attributes` on the text from index `from` on: the values
/// and the index behind the attributes.
#[verifier::rlimit(40)]
fn read_attributes(s: &Vec<char>, from: usize, names: &Vec<Vec<char>>) -> (r: Option<
    (Vec<Vec<char>>, usize),
>)
    requires
        from <= s.len(),
    ensures
        match r {
            Some((values, end)) => from <= end <= s.len() && lex_attributes(
                s@.skip(from as int),
                rows(names@),
            ) == Some((rows(values@), end - from)),
            None => lex_attributes(s@.skip(from as int), rows(names@)) is None,
        },
{
    let ghost all_names = rows(names@);
    let ghost whole = lex_attributes(s@.skip(from as int), all_names);
    let mut values: Vec<Vec<char>> = Vec::new();
    let mut pos: usize = from;
    let mut k: usize = 0;
    proof {
        assert(all_names.skip(0) =~= all_names);
        let rest = lex_attributes(s@.skip(pos as int), all_names.skip(0));
        if let Some((more, n)) = rest {
            assert(rows(values@) + more =~= more);
        }
    }
    while k < names.len()
        invariant
            k <= names.len(),
            from <= pos <= s.len(),
            all_names == rows(names@),
            whole == lex_attributes(s@.skip(from as int), all_names),
            whole == attributes_after(
                rows(values@),
                pos - from,
                lex_attributes(s@.skip(pos as int), all_names.skip(k as int)),
            ),
        decreases names.len() - k,
    {
        let ghost text = s@.skip(pos as int);
        let ghost rest_names = all_names.skip(k as int);
        let ghost before = rows(values@);
        proof {
            assert(rest_names[0] == names@[k as int]@);
            assert(rest_names.skip(1) =~= all_names.skip(k + 1));
        }
        let mut head: Vec<char> = Vec::new();
        head.push(' ');
        crate::text::append_chars(&mut head, &names[k]);
        head.push('=');
        head.push('"');
        proof {
            assert(head@ =~= attribute_head(rest_names[0]));
            lemma_occurs_at_skip(s@, pos as int, head@);
        }
        if !matches_at(s, pos, &head) {
            return None;
        }
        let start = pos + head.len();
        let end = run_end(s, start, Stop::Quote);
        proof {
            assert(text.skip(head@.len() as int) =~= s@.skip(start as int));
        }
        if end >= s.len() {
            return None;
        }
        let value = unescape_range(s, start, end);
        proof {
            let rest = s@.skip(start as int);
            assert(rest.take(end - start) =~= s@.subrange(start as int, end as int));
            assert(rest.skip(end - start + 1) =~= s@.skip(end + 1));
        }
        values.push(value);
        pos = end + 1;
        k += 1;
        proof {
            assert(rows(values@) =~= before + seq![value@]);
            let tail = lex_attributes(s@.skip(pos as int), all_names.skip(k as int));
            if let Some((more, n)) = tail {
                assert(rows(values@) + more =~= before + (seq![value@] + more));
            }
        }
    }
    proof {
        assert(all_names.skip(names@.len() as int) =~= Seq::<Seq<char>>::empty());
        assert(rows(values@) + Seq::<Seq<char>>::empty() =~= rows(values@));
    }
    Some((values, pos))
}

/// Computes `lex_tag` on the text from index `from` on, which begins with
/// `<`: the token and the index behind the tag.
#[verifier::rlimit(40)]
fn read_tag(s: &Vec<char>, from: usize) -> (r: Option<(Token, usize)>)
    requires
        from < s.len(),
        s@[from as int] == '<',
    ensures
        match r {
            Some((t, end)) => from < end <= s.len() && lex_tag(s@.skip(from as int)) == Some(
                (t@, end - from),
            ),
            None => lex_tag(s@.skip(from as int)) is None,
        },
{
    let ghost text = s@.skip(from as int);
    proof {
        assert(text[0] == s@[from as int]);
        if from + 1 < s.len() {
            assert(text[1] == s@[from + 1]);
        }
    }
    if from + 1 < s.len() && s[from + 1] == '/' {
        let start = from + 2;
        let end = run_end(s, start, Stop::Name);
        proof {
            assert(text.skip(2) =~= s@.skip(start as int));
            let rest = s@.skip(start as int);
            assert(rest.take(end - start) =~= s@.subrange(start as int, end as int));
            if end < s.len() {
                assert(rest[end - start] == s@[end as int]);
            }
        }
        if end < s.len() && s[end] == '>' {
            let name = copy_range(s, start, end);
            match kind_of_name(&name) {
                Some(kind) => {
                    if kind.void() {
                        None
                    } else {
                        Some((Token::End(kind), end + 1))
                    }
                },
                None => None,
            }
        } else {
            None
        }
    } else {
        let start = from + 1;
        let end = run_end(s, start, Stop::Name);
        proof {
            assert(text.skip(1) =~= s@.skip(start as int));
            let rest = s@.skip(start as int);
            assert(rest.take(end - start) =~= s@.subrange(start as int, end as int));
            assert(rest.skip(end - start) =~= s@.skip(end as int));
        }
        let name = copy_range(s, start, end);
        let kind = match kind_of_name(&name) {
            Some(k) => k,
            None => {
                return None;
            },
        };
        let names = kind.attributes();
        let (values, after) = match read_attributes(s, end, &names) {
            Some(found) => found,
            None => {
                return None;
            },
        };
        proof {
            let rest = s@.skip(start as int);
            assert(rest.skip((end - start) + (after - end)) =~= s@.skip(after as int));
            let tail = s@.skip(after as int);
            if after < s.len() {
                assert(tail[0] == s@[after as int]);
            }
            if after < s.len() && s.len() - after >= 2 {
                assert(tail[1] == s@[after + 1]);
            }
        }
        if kind.void() {
            if after < s.len() && s.len() - after >= 2 && s[after] == '/' && s[after + 1] == '>' {
                Some((Token::Start(kind, values), after + 2))
            } else {
                None
            }
        } else {
            if after < s.len() && s[after] == '>' {
                Some((Token::Start(kind, values), after + 1))
            } else {
                None
            }
        }
    }
}

/// Reads markup as tokens: see `lex`.
#[verifier::rlimit(40)]
pub fn read_tokens(s: &Vec<char>) -> (r: Option<Vec<Token>>)
    ensures
        match r {
            Some(tokens) => lex(s@) == Some(token_views(tokens@)),
            None => lex(s@) is None,
        },
{
    let mut tokens: Vec<Token> = Vec::new();
    let mut pos: usize = 0;
    proof {
        assert(s@.skip(0) =~= s@);
        if let Some(all) = lex(s@) {
            assert(token_views(tokens@) + all =~= all);
        }
    }
    while pos < s.len()
        invariant
            pos <= s.len(),
            lex(s@) == prepend(token_views(tokens@), lex(s@.skip(pos as int))),
        decreases s.len() - pos,
    {
        let ghost text = s@.skip(pos as int);
        let ghost before = token_views(tokens@);
        proof {
            assert(text[0] == s@[pos as int]);
        }
        let end: usize;
        if s[pos] == '<' {
            match read_tag(s, pos) {
                Some((token, after)) => {
                    tokens.push(token);
                    end = after;
                    proof {
                        assert(token_views(tokens@) =~= before + seq![token@]);
                    }
                },
                None => {
                    return None;
                },
            }
        } else {
            end = run_end(s, pos, Stop::Tag);
            let content = unescape_range(s, pos, end);
            proof {
                lemma_run_len_bound(text.skip(1), Stop::Tag);
                assert(text.take(end - pos) =~= s@.subrange(pos as int, end as int));
                assert(token_views(tokens@.push(Token::Text(content))) =~= before + seq![
                    TokenView::Text(content@),
                ]);
            }
            tokens.push(Token::Text(content));
        }
        proof {
            assert(text.skip(end - pos) =~= s@.skip(end as int));
            let tail = lex(s@.skip(end as int));
            if let Some(more) = tail {
                let one = token_views(tokens@).last();
                assert(token_views(tokens@) + more =~= before + (seq![one] + more));
            }
        }
        pos = end;
    }
    proof {
        assert(s@.skip(s@.len() as int) =~= Seq::<char>::empty());
        assert(token_views(tokens@) + Seq::<TokenView>::empty() =~= token_views(tokens@));
    }
    Some(tokens)
}

} // verus!
