//! The TOML head of a document: which of its texts are translated, and
//! the head with the translations in their place.

use vstd::prelude::*;
use crate::markdown::lines::{lemma_line_len_bound, line_len};
use crate::text::{chars_of, copy_range, lines, matches_at, occurs_at, spells, string_of};
use crate::toml_value::{
    entries_of, entries_view, parse_value, replace_entry, string_value, text_of, toml_entries,
    toml_parsed, toml_pretty, toml_replaced, toml_string, toml_text, with_value, write_pretty,
};

verus! {

/// Why a head could not be worked on.
#[derive(Clone, Copy, Debug, PartialEq, Eq)]
pub enum TomlError {
    /// The text is no TOML document.
    Invalid,
    /// The document cannot be written as TOML.
    Unwritable,
}

/// The texts of the table `extra` that are translated: the text under
/// `time`.
pub open spec fn extra_fields(entries: Seq<(Seq<char>, toml::Value)>) -> Seq<Seq<char>>
    decreases entries.len(),
{
    if entries.len() == 0 {
        Seq::empty()
    } else {
        let here = if entries[0].0 == "time"@ {
            match toml_text(entries[0].1) {
                Some(t) => seq![t],
                None => Seq::empty(),
            }
        } else {
            Seq::empty()
        };
        here + extra_fields(entries.skip(1))
    }
}

/// The texts that one entry of a head gives to be translated.
pub open spec fn entry_fields(key: Seq<char>, value: toml::Value) -> Seq<Seq<char>> {
    if key == "title"@ || key == "description"@ {
        match toml_text(value) {
            Some(t) => seq![t],
            None => Seq::empty(),
        }
    } else if key == "extra"@ {
        match toml_entries(value) {
            Some(extra) => extra_fields(extra),
            None => Seq::empty(),
        }
    } else {
        Seq::empty()
    }
}

/// The texts of a head that are translated, in the order in which its
/// table is walked: those under `title` and `description`, and the one
/// under `time` in the table `extra`. A value that is no text is passed
/// over.
pub open spec fn head_fields(entries: Seq<(Seq<char>, toml::Value)>) -> Seq<Seq<char>>
    decreases entries.len(),
{
    if entries.len() == 0 {
        Seq::empty()
    } else {
        entry_fields(entries[0].0, entries[0].1) + head_fields(entries.skip(1))
    }
}

/// The texts of a head that are translated; nothing where the head is no
/// TOML document.
pub open spec fn fields_in(text: Seq<char>) -> Option<Seq<Seq<char>>> {
    match toml_parsed(text) {
        Some(root) => match toml_entries(root) {
            Some(entries) => Some(head_fields(entries)),
            None => None,
        },
        None => None,
    }
}

/// The table `extra` with the first of the texts in the place of the text
/// under `time`, and the texts that are left over.
pub open spec fn put_extra(
    extra: toml::Value,
    entries: Seq<(Seq<char>, toml::Value)>,
    texts: Seq<Seq<char>>,
) -> (toml::Value, Seq<Seq<char>>)
    decreases entries.len(),
{
    if entries.len() == 0 {
        (extra, texts)
    } else if entries[0].0 == "time"@ && toml_text(entries[0].1) is Some && texts.len() > 0 {
        put_extra(
            toml_replaced(extra, entries[0].0, toml_string(texts[0])),
            entries.skip(1),
            texts.skip(1),
        )
    } else {
        put_extra(extra, entries.skip(1), texts)
    }
}

/// The head with the texts in the places of the texts that are
/// translated, one after the other in the order of `head_fields`, and the
/// texts that are left over. Where the texts run out, the rest of the
/// head stays as it is.
pub open spec fn put_fields(
    root: toml::Value,
    entries: Seq<(Seq<char>, toml::Value)>,
    texts: Seq<Seq<char>>,
) -> (toml::Value, Seq<Seq<char>>)
    decreases entries.len(),
{
    if entries.len() == 0 {
        (root, texts)
    } else {
        let key = entries[0].0;
        let value = entries[0].1;
        if (key == "title"@ || key == "description"@) && toml_text(value) is Some && texts.len() > 0 {
            put_fields(toml_replaced(root, key, toml_string(texts[0])), entries.skip(1), texts.skip(1))
        } else if key == "extra"@ && toml_entries(value) is Some {
            let done = put_extra(value, toml_entries(value)->0, texts);
            put_fields(toml_replaced(root, key, done.0), entries.skip(1), done.1)
        } else {
            put_fields(root, entries.skip(1), texts)
        }
    }
}

/// The TOML text of a head with the translations in their places.
pub open spec fn translated_head(text: Seq<char>, texts: Seq<Seq<char>>) -> Result<
    Seq<char>,
    TomlError,
> {
    match toml_parsed(text) {
        None => Err(TomlError::Invalid),
        Some(root) => match toml_entries(root) {
            None => Err(TomlError::Invalid),
            Some(entries) => match toml_pretty(put_fields(root, entries, texts).0) {
                Some(t) => Ok(t),
                None => Err(TomlError::Unwritable),
            },
        },
    }
}

/// A key under which a value of a head may be replaced.
pub open spec fn is_translated_key(key: Seq<char>) -> bool {
    key == "title"@ || key == "description"@ || key == "extra"@
}

/// The entries after are the entries before, in their order and under
/// their keys, and each value is as it was unless its key is one under
/// which values are replaced.
pub open spec fn untouched(
    before: Seq<(Seq<char>, toml::Value)>,
    after: Seq<(Seq<char>, toml::Value)>,
) -> bool {
    &&& after.len() == before.len()
    &&& forall|j: int|
        0 <= j < before.len() ==> (#[trigger] after[j]).0 == before[j].0 && (!is_translated_key(
            before[j].0,
        ) ==> after[j].1 == before[j].1)
}

/// The head with the translations in their places keeps every entry of
/// the head, and changes no value but those under `title`, `description`
/// and `extra`.
pub open spec fn keeps_the_rest(text: Seq<char>, texts: Seq<Seq<char>>) -> bool {
    match toml_parsed(text) {
        Some(root) => match toml_entries(root) {
            Some(entries) => match toml_entries(put_fields(root, entries, texts).0) {
                Some(after) => untouched(entries, after),
                None => false,
            },
            None => true,
        },
        None => true,
    }
}

/// A text that was worked out, as a mathematical value.
pub open spec fn written_view(r: Result<String, TomlError>) -> Result<Seq<char>, TomlError> {
    match r {
        Ok(s) => Ok(s@),
        Err(e) => Err(e),
    }
}

/// Computes `extra_fields`.
fn read_extra(entries: &Vec<(String, toml::Value)>) -> (r: Vec<String>)
    ensures
        lines(r@) == extra_fields(entries_view(Some(*entries))->0),
{
    let ghost all = entries_view(Some(*entries))->0;
    let mut out: Vec<String> = Vec::new();
    let mut i: usize = 0;
    proof {
        assert(all.skip(0) =~= all);
        assert(lines(out@) + extra_fields(all) =~= extra_fields(all));
    }
    while i < entries.len()
        invariant
            i <= entries.len(),
            all == entries_view(Some(*entries))->0,
            lines(out@) + extra_fields(all.skip(i as int)) == extra_fields(all),
        decreases entries.len() - i,
    {
        let ghost rest = all.skip(i as int);
        let ghost before = lines(out@);
        proof {
            assert(rest[0] == all[i as int]);
            assert(rest.skip(1) =~= all.skip(i + 1));
        }
        let key = chars_of(entries[i].0.as_str());
        if spells(&key, "time") {
            match text_of(&entries[i].1) {
                Some(t) => {
                    out.push(t);
                    proof {
                        assert(lines(out@) =~= before.push(t@));
                        assert(lines(out@) + extra_fields(rest.skip(1)) =~= before + (seq![t@]
                            + extra_fields(rest.skip(1))));
                    }
                },
                None => {},
            }
        }
        proof {
            assert(lines(out@) + extra_fields(all.skip(i + 1)) =~= before + extra_fields(rest));
        }
        i += 1;
    }
    proof {
        assert(all.skip(all.len() as int) =~= Seq::<(Seq<char>, toml::Value)>::empty());
        assert(lines(out@) + Seq::<Seq<char>>::empty() =~= lines(out@));
    }
    out
}

/// Appends copies of the strings of `src` to `dst`.
fn append_strings(dst: &mut Vec<String>, src: &Vec<String>)
    ensures
        lines(final(dst)@) == lines(old(dst)@) + lines(src@),
{
    let mut i: usize = 0;
    proof {
        assert(lines(src@).take(0) =~= Seq::<Seq<char>>::empty());
        assert(lines(dst@) =~= lines(old(dst)@) + lines(src@).take(0));
    }
    while i < src.len()
        invariant
            i <= src.len(),
            lines(dst@) == lines(old(dst)@) + lines(src@).take(i as int),
        decreases src.len() - i,
    {
        let ghost before = lines(dst@);
        dst.push(src[i].clone());
        proof {
            assert(lines(dst@) =~= before.push(src@[i as int]@));
            assert(lines(src@).take(i + 1) =~= lines(src@).take(i as int).push(src@[i as int]@));
            assert(lines(dst@) =~= lines(old(dst)@) + lines(src@).take(i + 1));
        }
        i += 1;
    }
    proof {
        assert(lines(src@).take(src@.len() as int) =~= lines(src@));
    }
}

/// The texts of a TOML head that are to be translated, in the order in
/// which `translate_toml` takes their translations.
pub fn translatable_fields(toml_frontmatter: &str) -> (r: Result<Vec<String>, TomlError>)
    ensures
        match fields_in(toml_frontmatter@) {
            Some(fields) => r is Ok && lines(r->Ok_0@) == fields,
            None => r == Err::<Vec<String>, TomlError>(TomlError::Invalid),
        },
{
    let root = match parse_value(toml_frontmatter) {
        Ok(v) => v,
        Err(_) => {
            return Err(TomlError::Invalid);
        },
    };
    let entries = match entries_of(&root) {
        Some(e) => e,
        None => {
            return Err(TomlError::Invalid);
        },
    };
    let ghost all = entries_view(Some(entries))->0;
    let mut out: Vec<String> = Vec::new();
    let mut i: usize = 0;
    proof {
        assert(all.skip(0) =~= all);
        assert(lines(out@) + head_fields(all) =~= head_fields(all));
    }
    while i < entries.len()
        invariant
            i <= entries.len(),
            all == entries_view(Some(entries))->0,
            lines(out@) + head_fields(all.skip(i as int)) == head_fields(all),
        decreases entries.len() - i,
    {
        let ghost rest = all.skip(i as int);
        let ghost before = lines(out@);
        proof {
            assert(rest[0] == all[i as int]);
            assert(rest.skip(1) =~= all.skip(i + 1));
        }
        let key = chars_of(entries[i].0.as_str());
        if spells(&key, "title") || spells(&key, "description") {
            match text_of(&entries[i].1) {
                Some(t) => {
                    out.push(t);
                    proof {
                        assert(lines(out@) =~= before.push(t@));
                    }
                },
                None => {},
            }
        } else if spells(&key, "extra") {
            match entries_of(&entries[i].1) {
                Some(extra) => {
                    let found = read_extra(&extra);
                    append_strings(&mut out, &found);
                },
                None => {},
            }
        }
        proof {
            let here = entry_fields(rest[0].0, rest[0].1);
            assert(lines(out@) =~= before + here);
            assert(lines(out@) + head_fields(all.skip(i + 1)) =~= before + (here + head_fields(
                rest.skip(1),
            )));
        }
        i += 1;
    }
    proof {
        assert(all.skip(all.len() as int) =~= Seq::<(Seq<char>, toml::Value)>::empty());
        assert(lines(out@) + Seq::<Seq<char>>::empty() =~= lines(out@));
    }
    Ok(out)
}

/// Computes `put_extra`. `next` is the index of the first text that is
/// not used yet.
fn write_extra(
    extra: toml::Value,
    entries: &Vec<(String, toml::Value)>,
    texts: &Vec<String>,
    next: usize,
) -> (r: (toml::Value, usize))
    requires
        next <= texts.len(),
    ensures
        next <= r.1 <= texts.len(),
        (r.0, lines(texts@).skip(r.1 as int)) == put_extra(
            extra,
            entries_view(Some(*entries))->0,
            lines(texts@).skip(next as int),
        ),
{
    let ghost all = entries_view(Some(*entries))->0;
    let ghost words = lines(texts@);
    let mut value = extra;
    let mut used: usize = next;
    let mut i: usize = 0;
    proof {
        assert(all.skip(0) =~= all);
    }
    while i < entries.len()
        invariant
            i <= entries.len(),
            next <= used <= texts.len(),
            all == entries_view(Some(*entries))->0,
            words == lines(texts@),
            put_extra(value, all.skip(i as int), words.skip(used as int)) == put_extra(
                extra,
                all,
                words.skip(next as int),
            ),
        decreases entries.len() - i,
    {
        let ghost rest = all.skip(i as int);
        proof {
            assert(rest[0] == all[i as int]);
            assert(rest.skip(1) =~= all.skip(i + 1));
            if used < texts.len() {
                assert(words.skip(used as int)[0] == texts@[used as int]@);
                assert(words.skip(used as int).skip(1) =~= words.skip(used + 1));
            }
        }
        let key = chars_of(entries[i].0.as_str());
        if spells(&key, "time") && text_of(&entries[i].1).is_some() && used < texts.len() {
            let replacement = string_value(texts[used].as_str());
            value = replace_entry(value, entries[i].0.as_str(), replacement);
            used += 1;
        }
        i += 1;
    }
    proof {
        assert(all.skip(all.len() as int) =~= Seq::<(Seq<char>, toml::Value)>::empty());
    }
    (value, used)
}

/// The TOML head with the translations in the places of the texts that
/// `translatable_fields` gave, in the crate's pretty form. Where there are
/// fewer translations than texts, the texts that are left stay as they
/// are.
#[verifier::rlimit(40)]
pub fn translate_toml(toml_frontmatter: &str, translated: &Vec<String>) -> (r: Result<
    String,
    TomlError,
>)
    ensures
        written_view(r) == translated_head(toml_frontmatter@, lines(translated@)),
        keeps_the_rest(toml_frontmatter@, lines(translated@)),
{
    let root = match parse_value(toml_frontmatter) {
        Ok(v) => v,
        Err(_) => {
            return Err(TomlError::Invalid);
        },
    };
    let entries = match entries_of(&root) {
        Some(e) => e,
        None => {
            return Err(TomlError::Invalid);
        },
    };
    let ghost all = entries_view(Some(entries))->0;
    let ghost words = lines(translated@);
    let ghost start = root;
    let ghost mut current = all;
    let mut value = root;
    let mut used: usize = 0;
    let mut i: usize = 0;
    proof {
        assert(all.skip(0) =~= all);
        assert(words.skip(0) =~= words);
    }
    while i < entries.len()
        invariant
            i <= entries.len(),
            used <= translated.len(),
            all == entries_view(Some(entries))->0,
            words == lines(translated@),
            put_fields(value, all.skip(i as int), words.skip(used as int)).0 == put_fields(
                start,
                all,
                words,
            ).0,
            toml_entries(value) == Some(current),
            untouched(all, current),
        decreases entries.len() - i,
    {
        let ghost rest = all.skip(i as int);
        proof {
            assert(rest[0] == all[i as int]);
            assert(rest.skip(1) =~= all.skip(i + 1));
            if used < translated.len() {
                assert(words.skip(used as int)[0] == translated@[used as int]@);
                assert(words.skip(used as int).skip(1) =~= words.skip(used + 1));
            }
        }
        let key = chars_of(entries[i].0.as_str());
        if (spells(&key, "title") || spells(&key, "description")) && text_of(&entries[i].1).is_some()
            && used < translated.len() {
            let replacement = string_value(translated[used].as_str());
            value = replace_entry(value, entries[i].0.as_str(), replacement);
            used += 1;
            proof {
                current = with_value(current, all[i as int].0, replacement);
            }
        } else if spells(&key, "extra") {
            match entries_of(&entries[i].1) {
                Some(extra) => {
                    let done = write_extra(entries[i].1.clone(), &extra, translated, used);
                    value = replace_entry(value, entries[i].0.as_str(), done.0);
                    used = done.1;
                    proof {
                        current = with_value(current, all[i as int].0, done.0);
                    }
                },
                None => {},
            }
        }
        i += 1;
    }
    proof {
        assert(all.skip(all.len() as int) =~= Seq::<(Seq<char>, toml::Value)>::empty());
    }
    match write_pretty(&value) {
        Some(text) => Ok(text),
        None => Err(TomlError::Unwritable),
    }
}

/// The two delimiters between which a head stands.
pub open spec fn is_delimiter(d: Seq<char>) -> bool {
    d == seq!['+', '+', '+'] || d == seq!['-', '-', '-']
}

/// The line that begins at index `p` is the delimiter and nothing else.
pub open spec fn delimiter_at(text: Seq<char>, p: int, d: Seq<char>) -> bool {
    occurs_at(text, p, d) && line_len(text, p) == d.len()
}

/// The index at which the first line begins that is the delimiter,
/// searched from the line that begins at index `p`; -1 where there is no
/// such line.
pub open spec fn closing_from(text: Seq<char>, p: int, d: Seq<char>) -> int
    decreases text.len() - p,
{
    if p < 0 || p >= text.len() {
        -1
    } else if delimiter_at(text, p, d) {
        p
    } else {
        let next = p + line_len(text, p) + 1;
        proof {
            lemma_line_len_bound(text, p);
        }
        if next <= text.len() {
            closing_from(text, next, d)
        } else {
            -1
        }
    }
}

/// The parts of a file: the body, the delimiter, and the head where the
/// file has one. A file has a head where its first line is `+++` or
/// `---` and a later line is the same; the head is what stands between
/// the two lines, and the body what stands behind the second. A file
/// without a head is all body, and its delimiter is `+++`.
pub open spec fn file_parts(text: Seq<char>) -> (Seq<char>, Seq<char>, Option<Seq<char>>) {
    let d = text.take(3);
    let close = closing_from(text, 4, d);
    if text.len() >= 4 && is_delimiter(d) && text[3] == '\n' && close >= 4 {
        (
            if close + 4 <= text.len() {
                text.skip(close + 4)
            } else {
                Seq::empty()
            },
            d,
            Some(text.subrange(4, close)),
        )
    } else {
        (text, seq!['+', '+', '+'], None)
    }
}

/// Computes `closing_from`.
fn find_closing(text: &Vec<char>, from: usize, d: &Vec<char>) -> (r: Option<usize>)
    requires
        from <= text.len(),
        d.len() == 3,
    ensures
        match r {
            Some(p) => closing_from(text@, from as int, d@) == p && from <= p && p + 3 <= text.len(),
            None => closing_from(text@, from as int, d@) == -1,
        },
{
    let mut p: usize = from;
    while p < text.len()
        invariant
            from <= p <= text.len(),
            d.len() == 3,
            closing_from(text@, from as int, d@) == closing_from(text@, p as int, d@),
        decreases text.len() - p,
    {
        let mut end: usize = p;
        while end < text.len() && text[end] != '\n'
            invariant
                p <= end <= text.len(),
                line_len(text@, p as int) == (end - p) + line_len(text@, end as int),
            decreases text.len() - end,
        {
            end += 1;
        }
        if end - p == 3 && matches_at(text, p, d) {
            return Some(p);
        }
        if end < text.len() {
            p = end + 1;
        } else {
            return None;
        }
    }
    None
}

/// Splits the text of a file into its body, its delimiter and its head:
/// see `file_parts`.
pub fn read_cmark_with_frontmatter(text: &str) -> (r: (String, String, Option<String>))
    ensures
        r.0@ == file_parts(text@).0,
        r.1@ == file_parts(text@).1,
        match r.2 {
            Some(head) => file_parts(text@).2 == Some(head@),
            None => file_parts(text@).2 is None,
        },
{
    let s = chars_of(text);
    let plus = vec!['+', '+', '+'];
    let minus = vec!['-', '-', '-'];
    proof {
        assert(plus@ =~= seq!['+', '+', '+']);
        assert(minus@ =~= seq!['-', '-', '-']);
    }
    if s.len() >= 4 && s[3] == '\n' {
        let d = copy_range(&s, 0, 3);
        proof {
            assert(d@ =~= s@.take(3));
        }
        if crate::text::same_chars(&d, &plus) || crate::text::same_chars(&d, &minus) {
            match find_closing(&s, 4, &d) {
                Some(close) => {
                    let head = copy_range(&s, 4, close);
                    let body = if s.len() - close >= 4 {
                        copy_range(&s, close + 4, s.len())
                    } else {
                        Vec::new()
                    };
                    proof {
                        if s.len() - close >= 4 {
                            assert(body@ =~= s@.skip(close + 4));
                        }
                    }
                    return (string_of(&body), string_of(&d), Some(string_of(&head)));
                },
                None => {},
            }
        }
    }
    (string_of(&s), string_of(&plus), None)
}

} // verus!
