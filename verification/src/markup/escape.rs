//! Escaping of the characters that have a meaning in markup.

use vstd::prelude::*;
use crate::text::{matches_at, occurs_at};

verus! {

/// The entity for `&`.
pub open spec fn entity_amp() -> Seq<char> {
    seq!['&', 'a', 'm', 'p', ';']
}

/// The entity for `<`.
pub open spec fn entity_lt() -> Seq<char> {
    seq!['&', 'l', 't', ';']
}

/// The entity for `>`.
pub open spec fn entity_gt() -> Seq<char> {
    seq!['&', 'g', 't', ';']
}

/// The entity for `"`.
pub open spec fn entity_quot() -> Seq<char> {
    seq!['&', 'q', 'u', 'o', 't', ';']
}

/// How one character is written in markup: `&`, `<` and `>` as entities;
/// `"` too where `quote` is set, as inside an attribute value.
pub open spec fn escape_char(c: char, quote: bool) -> Seq<char> {
    if c == '&' {
        entity_amp()
    } else if c == '<' {
        entity_lt()
    } else if c == '>' {
        entity_gt()
    } else if quote && c == '"' {
        entity_quot()
    } else {
        seq![c]
    }
}

/// How a text is written in markup.
pub open spec fn escape(s: Seq<char>, quote: bool) -> Seq<char>
    decreases s.len(),
{
    if s.len() == 0 {
        Seq::empty()
    } else {
        escape_char(s[0], quote) + escape(s.skip(1), quote)
    }
}

/// The character that an entity at the front of `s` stands for, and the
/// length of the entity.
pub open spec fn entity_at(s: Seq<char>) -> Option<(char, int)> {
    if occurs_at(s, 0, entity_amp()) {
        Some(('&', 5))
    } else if occurs_at(s, 0, entity_lt()) {
        Some(('<', 4))
    } else if occurs_at(s, 0, entity_gt()) {
        Some(('>', 4))
    } else if occurs_at(s, 0, entity_quot()) {
        Some(('"', 6))
    } else {
        None
    }
}

/// The text that a piece of markup stands for: each of the four entities
/// is replaced by its character, and every other character is kept, an
/// `&` that begins no entity too.
pub open spec fn unescape(s: Seq<char>) -> Seq<char>
    decreases s.len(),
{
    if s.len() == 0 {
        Seq::empty()
    } else {
        match entity_at(s) {
            Some((c, n)) => seq![c] + unescape(s.skip(n)),
            None => seq![s[0]] + unescape(s.skip(1)),
        }
    }
}

/// Appends the escaped form of `s` to `out`.
pub fn escape_into(out: &mut Vec<char>, s: &Vec<char>, quote: bool)
    ensures
        final(out)@ == old(out)@ + escape(s@, quote),
{
    let mut i: usize = 0;
    proof {
        assert(s@.skip(0) =~= s@);
    }
    while i < s.len()
        invariant
            i <= s.len(),
            out@ + escape(s@.skip(i as int), quote) == old(out)@ + escape(s@, quote),
        decreases s.len() - i,
    {
        let ghost before = out@;
        let ghost rest = s@.skip(i as int);
        let c = s[i];
        if c == '&' {
            out.push('&');
            out.push('a');
            out.push('m');
            out.push('p');
            out.push(';');
        } else if c == '<' {
            out.push('&');
            out.push('l');
            out.push('t');
            out.push(';');
        } else if c == '>' {
            out.push('&');
            out.push('g');
            out.push('t');
            out.push(';');
        } else if quote && c == '"' {
            out.push('&');
            out.push('q');
            out.push('u');
            out.push('o');
            out.push('t');
            out.push(';');
        } else {
            out.push(c);
        }
        proof {
            assert(out@ =~= before + escape_char(c, quote));
            assert(rest.skip(1) =~= s@.skip(i + 1));
            assert(out@ + escape(s@.skip(i + 1), quote) =~= before + escape(rest, quote));
        }
        i += 1;
    }
    proof {
        assert(out@ + escape(s@.skip(s@.len() as int), quote) =~= out@);
    }
}

/// Computes `escape`.
pub fn escape_chars(s: &Vec<char>, quote: bool) -> (r: Vec<char>)
    ensures
        r@ == escape(s@, quote),
{
    let mut out: Vec<char> = Vec::new();
    escape_into(&mut out, s, quote);
    proof {
        assert(Seq::<char>::empty() + escape(s@, quote) =~= escape(s@, quote));
    }
    out
}

/// Computes `unescape` of the characters `s[from..to]`.
pub fn unescape_range(s: &Vec<char>, from: usize, to: usize) -> (r: Vec<char>)
    requires
        from <= to <= s.len(),
    ensures
        r@ == unescape(s@.subrange(from as int, to as int)),
{
    let amp = vec!['&', 'a', 'm', 'p', ';'];
    let lt = vec!['&', 'l', 't', ';'];
    let gt = vec!['&', 'g', 't', ';'];
    let quot = vec!['&', 'q', 'u', 'o', 't', ';'];
    proof {
        assert(amp@ =~= entity_amp());
        assert(lt@ =~= entity_lt());
        assert(gt@ =~= entity_gt());
        assert(quot@ =~= entity_quot());
    }
    let ghost whole = s@.subrange(from as int, to as int);
    let mut out: Vec<char> = Vec::new();
    let mut i: usize = from;
    proof {
        assert(whole.skip(0) =~= whole);
    }
    while i < to
        invariant
            from <= i <= to <= s.len(),
            whole == s@.subrange(from as int, to as int),
            amp@ == entity_amp(),
            lt@ == entity_lt(),
            gt@ == entity_gt(),
            quot@ == entity_quot(),
            out@ + unescape(whole.skip(i - from)) == unescape(whole),
        decreases to - i,
    {
        let ghost before = out@;
        let ghost rest = whole.skip(i - from);
        proof {
            lemma_occurs_in_range(s@, from as int, to as int, i as int, entity_amp());
            lemma_occurs_in_range(s@, from as int, to as int, i as int, entity_lt());
            lemma_occurs_in_range(s@, from as int, to as int, i as int, entity_gt());
            lemma_occurs_in_range(s@, from as int, to as int, i as int, entity_quot());
            assert(rest[0] == s@[i as int]);
        }
        let room = to - i;
        let step: usize;
        if room >= 5 && matches_at(s, i, &amp) {
            out.push('&');
            step = 5;
        } else if room >= 4 && matches_at(s, i, &lt) {
            out.push('<');
            step = 4;
        } else if room >= 4 && matches_at(s, i, &gt) {
            out.push('>');
            step = 4;
        } else if room >= 6 && matches_at(s, i, &quot) {
            out.push('"');
            step = 6;
        } else {
            out.push(s[i]);
            step = 1;
        }
        proof {
            assert(rest.skip(step as int) =~= whole.skip(i + step - from));
            assert(out@ + unescape(whole.skip(i + step - from)) =~= before + unescape(rest));
        }
        i += step;
    }
    proof {
        assert(whole.skip(to - from) =~= Seq::<char>::empty());
        assert(out@ + unescape(Seq::<char>::empty()) =~= out@);
    }
    out
}

/// An occurrence at the front of what is left of a range is an occurrence
/// in the whole text that ends inside the range.
pub proof fn lemma_occurs_in_range(s: Seq<char>, from: int, to: int, i: int, pat: Seq<char>)
    requires
        0 <= from <= i <= to <= s.len(),
    ensures
        occurs_at(s.subrange(from, to).skip(i - from), 0, pat) == (i + pat.len() <= to && occurs_at(
            s,
            i,
            pat,
        )),
{
    let rest = s.subrange(from, to).skip(i - from);
    if i + pat.len() <= to {
        assert(rest.subrange(0, pat.len() as int) =~= s.subrange(i, i + pat.len()));
    }
}

/// Unescaping reads one escaped character back, whatever follows it.
pub proof fn lemma_unescape_char(c: char, quote: bool, rest: Seq<char>)
    ensures
        unescape(escape_char(c, quote) + rest) == seq![c] + unescape(rest),
{
    let e = escape_char(c, quote);
    let s = e + rest;
    assert(s.skip(e.len() as int) =~= rest);
    assert(s.subrange(0, e.len() as int) =~= e);
    if c == '&' {
    } else if c == '<' {
        assert(s.len() >= 5 ==> s.subrange(0, 5)[1] == s[1]);
    } else if c == '>' {
        assert(s.len() >= 5 ==> s.subrange(0, 5)[1] == s[1]);
        assert(s.subrange(0, 4)[1] == s[1]);
    } else if quote && c == '"' {
        assert(s.len() >= 5 ==> s.subrange(0, 5)[1] == s[1]);
        assert(s.len() >= 4 ==> s.subrange(0, 4)[1] == s[1]);
    } else {
        assert(s[0] == c);
        assert(s.len() >= 5 ==> s.subrange(0, 5)[0] == s[0]);
        assert(s.len() >= 4 ==> s.subrange(0, 4)[0] == s[0]);
        assert(s.len() >= 6 ==> s.subrange(0, 6)[0] == s[0]);
    }
}

/// Unescaping reads an escaped text back, whatever follows it, as long as
/// what follows is read by itself.
pub proof fn lemma_unescape_escape_then(s: Seq<char>, quote: bool, rest: Seq<char>)
    ensures
        unescape(escape(s, quote) + rest) == s + unescape(rest),
    decreases s.len(),
{
    if s.len() == 0 {
        assert(escape(s, quote) + rest =~= rest);
        assert(s + unescape(rest) =~= unescape(rest));
    } else {
        let tail = escape(s.skip(1), quote) + rest;
        assert(escape(s, quote) + rest =~= escape_char(s[0], quote) + tail);
        lemma_unescape_char(s[0], quote, tail);
        lemma_unescape_escape_then(s.skip(1), quote, rest);
        assert(seq![s[0]] + (s.skip(1) + unescape(rest)) =~= s + unescape(rest));
    }
}

/// Unescaping undoes escaping.
pub proof fn lemma_unescape_escape(s: Seq<char>, quote: bool)
    ensures
        unescape(escape(s, quote)) == s,
{
    lemma_unescape_escape_then(s, quote, Seq::empty());
    assert(escape(s, quote) + Seq::<char>::empty() =~= escape(s, quote));
    assert(unescape(Seq::<char>::empty()) =~= Seq::<char>::empty());
    assert(s + Seq::<char>::empty() =~= s);
}

/// Escaped text holds no `<`, and no `"` where quotes are escaped.
pub proof fn lemma_escape_clean(s: Seq<char>, quote: bool)
    ensures
        forall|i: int| 0 <= i < escape(s, quote).len() ==> escape(s, quote)[i] != '<',
        forall|i: int| 0 <= i < escape(s, quote).len() ==> escape(s, quote)[i] != '>',
        quote ==> forall|i: int| 0 <= i < escape(s, quote).len() ==> escape(s, quote)[i] != '"',
        s.len() > 0 ==> escape(s, quote).len() > 0,
    decreases s.len(),
{
    if s.len() > 0 {
        lemma_escape_clean(s.skip(1), quote);
        let e = escape_char(s[0], quote);
        let t = escape(s.skip(1), quote);
        assert forall|i: int| 0 <= i < (e + t).len() implies (e + t)[i] != '<' && (e + t)[i] != '>' && (
        quote ==> (e + t)[i] != '"') by {
            if i >= e.len() {
                assert((e + t)[i] == t[i - e.len()]);
            }
        }
    }
}

} // verus!
