//! Reading the entries of a glossary from a TOML text.

use vstd::prelude::*;
use crate::config::{entry_under, find_entry};
use crate::entries::string_pairs;
use crate::text::{chars_of, string_of};
use crate::toml_value::{
    entries_of, entries_view, parse_value, toml_entries, toml_parsed, toml_written, write_value,
};

verus! {

/// Why a text gave no glossary.
#[derive(Clone, Copy, Debug, PartialEq, Eq)]
pub enum GlossaryError {
    /// The text is no TOML.
    Invalid,
    /// The text has no `glossaries`.
    NoGlossaries,
    /// `glossaries` has no glossary of the name.
    NoSuchGlossary,
    /// The glossary of the name is no table.
    NotATable,
    /// A term of the glossary cannot be written as TOML.
    Unwritable,
}

/// `s` without its quotation marks.
pub open spec fn unquoted(s: Seq<char>) -> Seq<char>
    decreases s.len(),
{
    if s.len() == 0 {
        Seq::empty()
    } else if s[0] == '"' {
        unquoted(s.skip(1))
    } else {
        seq![s[0]] + unquoted(s.skip(1))
    }
}

/// The entries of a glossary: for each key of the table the key and the
/// TOML text of its value without the quotation marks.
pub open spec fn terms_of(entries: Seq<(Seq<char>, toml::Value)>) -> Result<
    Seq<(Seq<char>, Seq<char>)>,
    GlossaryError,
>
    decreases entries.len(),
{
    if entries.len() == 0 {
        Ok(Seq::empty())
    } else {
        match toml_written(entries[0].1) {
            None => Err(GlossaryError::Unwritable),
            Some(t) => match terms_of(entries.skip(1)) {
                Ok(rest) => Ok(seq![(entries[0].0, unquoted(t))] + rest),
                Err(e) => Err(e),
            },
        }
    }
}

/// The glossary `name` of a document: the table of that name in the table
/// `glossaries`.
pub open spec fn glossary_of(root: toml::Value, name: Seq<char>) -> Result<
    Seq<(Seq<char>, Seq<char>)>,
    GlossaryError,
> {
    match toml_entries(root) {
        None => Err(GlossaryError::Invalid),
        Some(entries) => match entry_under(entries, "glossaries"@) {
            None => Err(GlossaryError::NoGlossaries),
            Some(all) => match toml_entries(all) {
                None => Err(GlossaryError::NoSuchGlossary),
                Some(tables) => match entry_under(tables, name) {
                    None => Err(GlossaryError::NoSuchGlossary),
                    Some(table) => match toml_entries(table) {
                        None => Err(GlossaryError::NotATable),
                        Some(terms) => terms_of(terms),
                    },
                },
            },
        },
    }
}

/// The glossary `name` that a text holds.
pub open spec fn glossary_in(text: Seq<char>, name: Seq<char>) -> Result<
    Seq<(Seq<char>, Seq<char>)>,
    GlossaryError,
> {
    match toml_parsed(text) {
        None => Err(GlossaryError::Invalid),
        Some(root) => glossary_of(root, name),
    }
}

/// What reading a glossary gave, as a mathematical value.
pub open spec fn glossary_view(r: Result<Vec<(String, String)>, GlossaryError>) -> Result<
    Seq<(Seq<char>, Seq<char>)>,
    GlossaryError,
> {
    match r {
        Ok(v) => Ok(string_pairs(v@)),
        Err(e) => Err(e),
    }
}

/// What was gathered so far, followed by what the rest gives, where the
/// rest gives anything.
pub open spec fn terms_after(
    prefix: Seq<(Seq<char>, Seq<char>)>,
    rest: Result<Seq<(Seq<char>, Seq<char>)>, GlossaryError>,
) -> Result<Seq<(Seq<char>, Seq<char>)>, GlossaryError> {
    match rest {
        Ok(r) => Ok(prefix + r),
        Err(e) => Err(e),
    }
}

/// Computes `unquoted`.
pub fn without_quotes(s: &str) -> (r: String)
    ensures
        r@ == unquoted(s@),
{
    let v = chars_of(s);
    let mut out: Vec<char> = Vec::new();
    let mut i: usize = 0;
    proof {
        assert(v@.skip(0) =~= v@);
    }
    while i < v.len()
        invariant
            i <= v.len(),
            out@ + unquoted(v@.skip(i as int)) == unquoted(v@),
        decreases v.len() - i,
    {
        let ghost before = out@;
        let ghost rest = v@.skip(i as int);
        proof {
            assert(rest.skip(1) =~= v@.skip(i + 1));
        }
        if v[i] != '"' {
            out.push(v[i]);
            proof {
                assert(out@ + unquoted(v@.skip(i + 1)) =~= before + unquoted(rest));
            }
        }
        i += 1;
    }
    proof {
        assert(out@ + unquoted(v@.skip(v@.len() as int)) =~= out@);
    }
    string_of(&out)
}

/// Reads the glossary `name` from the TOML text of a file.
pub fn read_glossary(name: &str, text: &str) -> (r: Result<Vec<(String, String)>, GlossaryError>)
    ensures
        glossary_view(r) == glossary_in(text@, name@),
{
    let root = match parse_value(text) {
        Ok(v) => v,
        Err(_) => {
            return Err(GlossaryError::Invalid);
        },
    };
    let entries = match entries_of(&root) {
        Some(e) => e,
        None => {
            return Err(GlossaryError::Invalid);
        },
    };
    let all = match find_entry(&entries, "glossaries") {
        Some(i) => &entries[i].1,
        None => {
            return Err(GlossaryError::NoGlossaries);
        },
    };
    let tables = match entries_of(all) {
        Some(e) => e,
        None => {
            return Err(GlossaryError::NoSuchGlossary);
        },
    };
    let table = match find_entry(&tables, name) {
        Some(i) => &tables[i].1,
        None => {
            return Err(GlossaryError::NoSuchGlossary);
        },
    };
    let terms = match entries_of(table) {
        Some(e) => e,
        None => {
            return Err(GlossaryError::NotATable);
        },
    };
    let ghost list = entries_view(Some(terms))->0;
    let mut glossary: Vec<(String, String)> = Vec::new();
    let mut i: usize = 0;
    proof {
        assert(list.skip(0) =~= list);
        assert(terms_of(list) is Ok ==> string_pairs(glossary@) + terms_of(list)->Ok_0 =~= terms_of(
            list,
        )->Ok_0);
    }
    while i < terms.len()
        invariant
            i <= terms.len(),
            list == entries_view(Some(terms))->0,
            glossary_in(text@, name@) == terms_of(list),
            terms_of(list) == terms_after(string_pairs(glossary@), terms_of(list.skip(i as int))),
        decreases terms.len() - i,
    {
        let ghost rest = list.skip(i as int);
        let ghost before = string_pairs(glossary@);
        proof {
            assert(rest[0] == list[i as int]);
            assert(rest.skip(1) =~= list.skip(i + 1));
        }
        match write_value(&terms[i].1) {
            None => {
                return Err(GlossaryError::Unwritable);
            },
            Some(written) => {
                let term = without_quotes(written.as_str());
                glossary.push((terms[i].0.clone(), term));
                proof {
                    let e = (list[i as int].0, unquoted(written@));
                    assert(string_pairs(glossary@) =~= before.push(e));
                    if let Ok(tail) = terms_of(rest.skip(1)) {
                        assert(string_pairs(glossary@) + tail =~= before + (seq![e] + tail));
                    }
                }
            },
        }
        i += 1;
    }
    proof {
        assert(list.skip(list.len() as int) =~= Seq::<(Seq<char>, toml::Value)>::empty());
        assert(string_pairs(glossary@) + Seq::<(Seq<char>, Seq<char>)>::empty() =~= string_pairs(
            glossary@,
        ));
    }
    Ok(glossary)
}

} // verus!
