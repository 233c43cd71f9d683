//! Which of the files that a walk through a directory found are to be
//! translated.

use vstd::prelude::*;
use crate::config::optional_list_under;
use crate::deepl::Deepl;
use crate::matching::{regex_is_match, test_match};
use crate::text::{
    append_range, append_str, chars_of, copy_range, lines, matches_at, occurs_at, prepend,
    string_of, text_view,
};

verus! {

/// A pattern that is no regular expression.
#[derive(Clone, Copy, Debug, PartialEq, Eq)]
pub struct InvalidPattern;

/// A file that the walk found: what the caller knows it by, and its name
/// where the name is text.
#[derive(Debug)]
pub struct Entry<P> {
    pub path: P,
    pub file_name: Option<String>,
}

/// A name that begins with a full stop.
pub open spec fn hidden_name(name: Option<Seq<char>>) -> bool {
    match name {
        Some(n) => n.len() > 0 && n[0] == '.',
        None => false,
    }
}

/// The texts with `|` between each two.
pub open spec fn alternatives(list: Seq<Seq<char>>) -> Seq<char>
    decreases list.len(),
{
    if list.len() == 0 {
        Seq::empty()
    } else if list.len() == 1 {
        list[0]
    } else {
        alternatives(list.drop_last()) + seq!['|'] + list.last()
    }
}

/// The regular expression that the names of the files with one of the
/// extensions match.
pub open spec fn extension_pattern(extensions: Seq<Seq<char>>) -> Seq<char> {
    ".*\\.("@ + alternatives(extensions) + ")$"@
}

/// Whether a name has one of the extensions: every name where there are
/// no extensions to go by, and no name that is not text; nothing where the
/// extensions make no regular expression.
pub open spec fn extension_fits(extensions: Option<Seq<Seq<char>>>, name: Option<Seq<char>>) -> Option<
    bool,
> {
    match extensions {
        None => Some(true),
        Some(list) => match name {
            Some(n) => regex_is_match(extension_pattern(list), n),
            None => match regex_is_match(extension_pattern(list), Seq::empty()) {
                Some(_) => Some(false),
                None => None,
            },
        },
    }
}

/// Whether a file is taken: not a hidden one unless those are asked for,
/// and only one with a fitting extension.
pub open spec fn taken(extensions: Option<Seq<Seq<char>>>, hidden: bool, name: Option<Seq<char>>)
    -> Option<bool> {
    if !hidden && hidden_name(name) {
        Some(false)
    } else {
        extension_fits(extensions, name)
    }
}

/// The files that are taken, in the order of the walk; nothing where the
/// extensions make no regular expression and a file had to be tested
/// against it.
pub open spec fn selected<P>(
    entries: Seq<Entry<P>>,
    extensions: Option<Seq<Seq<char>>>,
    hidden: bool,
) -> Option<Seq<P>>
    decreases entries.len(),
{
    if entries.len() == 0 {
        Some(Seq::empty())
    } else {
        match taken(extensions, hidden, text_view(entries[0].file_name)) {
            None => None,
            Some(true) => prepend(seq![entries[0].path], selected(entries.skip(1), extensions, hidden)),
            Some(false) => selected(entries.skip(1), extensions, hidden),
        }
    }
}

/// An optional list of strings as a mathematical value.
pub open spec fn list_view(list: Option<Vec<String>>) -> Option<Seq<Seq<char>>> {
    match list {
        Some(l) => Some(lines(l@)),
        None => None,
    }
}

/// Whether the name of a file begins with a full stop.
pub fn is_hidden(file_name: &Option<String>) -> (r: bool)
    ensures
        r == hidden_name(text_view(*file_name)),
{
    match file_name {
        Some(name) => {
            let n = chars_of(name.as_str());
            n.len() > 0 && n[0] == '.'
        },
        None => false,
    }
}

/// Computes `extension_pattern`.
pub fn pattern_for(extensions: &Vec<String>) -> (r: String)
    ensures
        r@ == extension_pattern(lines(extensions@)),
{
    let ghost all = lines(extensions@);
    let mut joined: Vec<char> = Vec::new();
    let mut k: usize = 0;
    proof {
        assert(all.take(0) =~= Seq::<Seq<char>>::empty());
    }
    while k < extensions.len()
        invariant
            k <= extensions.len(),
            all == lines(extensions@),
            joined@ == alternatives(all.take(k as int)),
        decreases extensions.len() - k,
    {
        proof {
            let next = all.take(k + 1);
            assert(next.drop_last() =~= all.take(k as int));
            assert(next.last() == extensions@[k as int]@);
            if k == 0 {
                assert(next[0] == next.last());
            }
        }
        let ghost before = joined@;
        if k > 0 {
            joined.push('|');
        }
        append_str(&mut joined, extensions[k].as_str());
        proof {
            if k > 0 {
                assert(joined@ =~= before + seq!['|'] + extensions@[k as int]@);
            } else {
                assert(joined@ =~= extensions@[k as int]@);
            }
        }
        k += 1;
    }
    proof {
        assert(all.take(all.len() as int) =~= all);
    }
    let mut pattern: Vec<char> = Vec::new();
    append_str(&mut pattern, ".*\\.(");
    crate::text::append_chars(&mut pattern, &joined);
    append_str(&mut pattern, ")$");
    proof {
        assert(pattern@ =~= extension_pattern(all));
    }
    string_of(&pattern)
}

/// Whether the name of a file has one of the extensions.
pub fn check_extension(ext: &Option<Vec<String>>, file_name: &Option<String>) -> (r: Result<
    bool,
    InvalidPattern,
>)
    ensures
        match extension_fits(list_view(*ext), text_view(*file_name)) {
            Some(b) => r == Ok::<bool, InvalidPattern>(b),
            None => r is Err,
        },
{
    match ext {
        None => Ok(true),
        Some(list) => {
            let pattern = pattern_for(list);
            match file_name {
                Some(name) => match test_match(pattern.as_str(), name.as_str()) {
                    Some(b) => Ok(b),
                    None => Err(InvalidPattern),
                },
                None => {
                    proof {
                        reveal_strlit("");
                        assert(""@ =~= Seq::<char>::empty());
                    }
                    match test_match(pattern.as_str(), "") {
                        Some(_) => Ok(false),
                        None => Err(InvalidPattern),
                    }
                },
            }
        },
    }
}

/// The files of a walk that are to be translated: those with one of the
/// extensions that the settings name for the project, all files where
/// they name none; hidden files only where `hidden` is set.
pub fn new<P>(deepl: &Deepl, entries: Vec<Entry<P>>, hidden: bool) -> (r: Result<
    Vec<P>,
    InvalidPattern,
>)
    ensures
        match selected(
            entries@,
            optional_list_under(deepl.config@.target_extensions, deepl.config@.project_name),
            hidden,
        ) {
            Some(paths) => r is Ok && r->Ok_0@ == paths,
            None => r is Err,
        },
{
    let extensions = deepl.config.extensions(deepl.config.project());
    let ghost ext = list_view(extensions);
    let mut queue = entries;
    let mut out: Vec<P> = Vec::new();
    proof {
        assert(out@ + selected(entries@, ext, hidden)->0 =~= selected(entries@, ext, hidden)->0);
    }
    while queue.len() > 0
        invariant
            ext == list_view(extensions),
            ext == optional_list_under(deepl.config@.target_extensions, deepl.config@.project_name),
            selected(entries@, ext, hidden) == prepend(out@, selected(queue@, ext, hidden)),
        decreases queue.len(),
    {
        let ghost rest = queue@;
        let ghost before = out@;
        let entry = queue.remove(0);
        proof {
            assert(queue@ =~= rest.skip(1));
            assert(rest[0] == entry);
        }
        if !hidden && is_hidden(&entry.file_name) {
            // a hidden file is passed over
        } else {
            match check_extension(&extensions, &entry.file_name) {
                Ok(true) => {
                    out.push(entry.path);
                    proof {
                        if let Some(tail) = selected(rest.skip(1), ext, hidden) {
                            assert(out@ + tail =~= before + (seq![entry.path] + tail));
                        }
                    }
                },
                Ok(false) => {},
                Err(e) => {
                    return Err(e);
                },
            }
        }
    }
    proof {
        assert(out@ + Seq::<P>::empty() =~= out@);
    }
    Ok(out)
}

/// The index of the first place at or behind `i` at which `pat` occurs in
/// `s`, or -1.
pub open spec fn first_at(s: Seq<char>, pat: Seq<char>, i: int) -> int
    decreases s.len() - i,
{
    if i < 0 || i + pat.len() > s.len() {
        -1
    } else if occurs_at(s, i, pat) {
        i
    } else if i < s.len() {
        first_at(s, pat, i + 1)
    } else {
        -1
    }
}

/// Computes `first_at` from the start of `s`.
pub fn find_first(s: &Vec<char>, pat: &Vec<char>) -> (r: Option<usize>)
    ensures
        match r {
            Some(p) => first_at(s@, pat@, 0) == p && p + pat.len() <= s.len(),
            None => first_at(s@, pat@, 0) == -1,
        },
{
    if pat.len() > s.len() {
        return None;
    }
    let last = s.len() - pat.len();
    let mut i: usize = 0;
    while i < last
        invariant
            pat.len() <= s.len(),
            last == s.len() - pat.len(),
            i <= last,
            first_at(s@, pat@, 0) == first_at(s@, pat@, i as int),
        decreases last - i,
    {
        if matches_at(s, i, pat) {
            return Some(i);
        }
        i += 1;
    }
    if matches_at(s, last, pat) {
        Some(last)
    } else {
        proof {
            reveal_with_fuel(first_at, 2);
        }
        None
    }
}

/// `s` without the first occurrence of `pat`; `s` where `pat` is empty or
/// does not occur.
pub open spec fn without_first(s: Seq<char>, pat: Seq<char>) -> Seq<char> {
    let p = first_at(s, pat, 0);
    if pat.len() == 0 || p < 0 {
        s
    } else {
        s.take(p) + s.skip(p + pat.len())
    }
}

/// Where a file of the input directory goes below the output directory:
/// its path without the first occurrence of the input directory and
/// without the separator in front of what is left. Nothing where nothing
/// is left.
pub open spec fn place_below(path: Seq<char>, input: Seq<char>, separator: char) -> Option<
    Seq<char>,
> {
    let rest = without_first(path, input);
    if rest.len() == 0 {
        None
    } else if rest[0] == separator {
        Some(rest.skip(1))
    } else {
        Some(rest)
    }
}

/// Computes `place_below`.
pub fn output_below(path: &str, input: &str, separator: char) -> (r: Option<String>)
    ensures
        text_view(r) == place_below(path@, input@, separator),
{
    let s = chars_of(path);
    let pat = chars_of(input);
    let found = if pat.len() > 0 {
        find_first(&s, &pat)
    } else {
        None
    };
    let mut rest: Vec<char> = Vec::new();
    match found {
        Some(p) => {
            append_range(&mut rest, &s, 0, p);
            append_range(&mut rest, &s, p + pat.len(), s.len());
            proof {
                assert(s@.subrange(0, p as int) =~= s@.take(p as int));
                assert(s@.subrange(p + pat.len(), s@.len() as int) =~= s@.skip(p + pat.len()));
                assert(rest@ =~= without_first(s@, pat@));
            }
        },
        None => {
            append_range(&mut rest, &s, 0, s.len());
            proof {
                assert(s@.subrange(0, s@.len() as int) =~= s@);
                assert(rest@ =~= without_first(s@, pat@));
            }
        },
    }
    if rest.len() == 0 {
        None
    } else if rest[0] == separator {
        let below = copy_range(&rest, 1, rest.len());
        proof {
            assert(below@ =~= rest@.skip(1));
        }
        Some(string_of(&below))
    } else {
        Some(string_of(&rest))
    }
}

} // verus!
