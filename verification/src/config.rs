//! The settings of the translator, read from a TOML text.

use vstd::prelude::*;
use crate::deepl::Language;
use crate::text::{
    append_str, chars_of, ends_with, is_suffix, lines, prepend, same_chars, string_of, text_view,
};
use crate::toml_value::{
    entries_of, entries_view, flag_of, items_of, parse_value, text_of, toml_entries, toml_flag,
    toml_items, toml_parsed, toml_text,
};

verus! {

/// Why no settings could be had.
#[derive(Clone, Copy, Debug, PartialEq, Eq)]
pub enum ConfigError {
    /// None of the files that were tried exists.
    NotFound,
    /// A file exists and could not be read.
    Unreadable,
    /// The text is no TOML, or lacks a setting, or holds one of the wrong
    /// type.
    Invalid,
}

/// Why a file gave no text.
#[derive(Clone, Copy, Debug, PartialEq, Eq)]
pub enum ReadFailure {
    /// There is no such file.
    NotFound,
    /// The file is there and could not be read.
    Other,
}

/// The settings of the translator.
#[derive(Clone, Debug)]
pub struct DeeplConfig {
    api_key: String,
    pub project_name: String,
    pub backup_original_text: bool,
    pub target_extensions: Option<Vec<(String, Vec<String>)>>,
    glossaries: Vec<(String, Vec<(String, String)>)>,
    ignores: Option<Vec<(String, Vec<String>)>>,
}

/// Mathematical view of the settings.
pub ghost struct DeeplConfigView {
    pub api_key: Seq<char>,
    pub project_name: Seq<char>,
    pub backup_original_text: bool,
    pub target_extensions: Option<Seq<(Seq<char>, Seq<Seq<char>>)>>,
    pub glossaries: Seq<(Seq<char>, Seq<(Seq<char>, Seq<char>)>)>,
    pub ignores: Option<Seq<(Seq<char>, Seq<Seq<char>>)>>,
}

/// The views of a list of pairs of strings.
pub open spec fn pairs_view(v: Seq<(String, String)>) -> Seq<(Seq<char>, Seq<char>)> {
    Seq::new(v.len(), |i: int| (v[i].0@, v[i].1@))
}

/// The views of a list of named lists of strings.
pub open spec fn named_lists_view(v: Seq<(String, Vec<String>)>) -> Seq<(Seq<char>, Seq<Seq<char>>)> {
    Seq::new(v.len(), |i: int| (v[i].0@, lines(v[i].1@)))
}

/// The views of a list of named lists of pairs of strings.
pub open spec fn named_pairs_view(v: Seq<(String, Vec<(String, String)>)>) -> Seq<
    (Seq<char>, Seq<(Seq<char>, Seq<char>)>),
> {
    Seq::new(v.len(), |i: int| (v[i].0@, pairs_view(v[i].1@)))
}

/// The view of an optional list of named lists.
pub open spec fn optional_lists_view(v: Option<Vec<(String, Vec<String>)>>) -> Option<
    Seq<(Seq<char>, Seq<Seq<char>>)>,
> {
    match v {
        Some(l) => Some(named_lists_view(l@)),
        None => None,
    }
}

impl View for DeeplConfig {
    type V = DeeplConfigView;

    closed spec fn view(&self) -> DeeplConfigView {
        DeeplConfigView {
            api_key: self.api_key@,
            project_name: self.project_name@,
            backup_original_text: self.backup_original_text,
            target_extensions: optional_lists_view(self.target_extensions),
            glossaries: named_pairs_view(self.glossaries@),
            ignores: optional_lists_view(self.ignores),
        }
    }
}

/// The value of the first entry under `key`.
pub open spec fn entry_under(entries: Seq<(Seq<char>, toml::Value)>, key: Seq<char>) -> Option<
    toml::Value,
>
    decreases entries.len(),
{
    if entries.len() == 0 {
        None
    } else if entries[0].0 == key {
        Some(entries[0].1)
    } else {
        entry_under(entries.skip(1), key)
    }
}

/// The texts of values that are all strings.
pub open spec fn texts_of(items: Seq<toml::Value>) -> Option<Seq<Seq<char>>>
    decreases items.len(),
{
    if items.len() == 0 {
        Some(Seq::empty())
    } else {
        match (toml_text(items[0]), texts_of(items.skip(1))) {
            (Some(t), Some(rest)) => Some(seq![t] + rest),
            _ => None,
        }
    }
}

/// The texts of an array of strings.
pub open spec fn string_list(v: toml::Value) -> Option<Seq<Seq<char>>> {
    match toml_items(v) {
        Some(items) => texts_of(items),
        None => None,
    }
}

/// The entries of a table whose values are all arrays of strings.
pub open spec fn lists_of(entries: Seq<(Seq<char>, toml::Value)>) -> Option<
    Seq<(Seq<char>, Seq<Seq<char>>)>,
>
    decreases entries.len(),
{
    if entries.len() == 0 {
        Some(Seq::empty())
    } else {
        match (string_list(entries[0].1), lists_of(entries.skip(1))) {
            (Some(l), Some(rest)) => Some(seq![(entries[0].0, l)] + rest),
            _ => None,
        }
    }
}

/// A table of arrays of strings.
pub open spec fn named_lists(v: toml::Value) -> Option<Seq<(Seq<char>, Seq<Seq<char>>)>> {
    match toml_entries(v) {
        Some(entries) => lists_of(entries),
        None => None,
    }
}

/// The entries of a table whose values are all strings.
pub open spec fn pairs_of(entries: Seq<(Seq<char>, toml::Value)>) -> Option<
    Seq<(Seq<char>, Seq<char>)>,
>
    decreases entries.len(),
{
    if entries.len() == 0 {
        Some(Seq::empty())
    } else {
        match (toml_text(entries[0].1), pairs_of(entries.skip(1))) {
            (Some(t), Some(rest)) => Some(seq![(entries[0].0, t)] + rest),
            _ => None,
        }
    }
}

/// A table of strings.
pub open spec fn string_table(v: toml::Value) -> Option<Seq<(Seq<char>, Seq<char>)>> {
    match toml_entries(v) {
        Some(entries) => pairs_of(entries),
        None => None,
    }
}

/// The entries of a table whose values are all tables of strings.
pub open spec fn tables_of(entries: Seq<(Seq<char>, toml::Value)>) -> Option<
    Seq<(Seq<char>, Seq<(Seq<char>, Seq<char>)>)>,
>
    decreases entries.len(),
{
    if entries.len() == 0 {
        Some(Seq::empty())
    } else {
        match (string_table(entries[0].1), tables_of(entries.skip(1))) {
            (Some(t), Some(rest)) => Some(seq![(entries[0].0, t)] + rest),
            _ => None,
        }
    }
}

/// A table of tables of strings.
pub open spec fn named_tables(v: toml::Value) -> Option<
    Seq<(Seq<char>, Seq<(Seq<char>, Seq<char>)>)>,
> {
    match toml_entries(v) {
        Some(entries) => tables_of(entries),
        None => None,
    }
}

/// A setting that may be left out: nothing where it is left out, and a
/// failure where it is there and is no table of arrays of strings.
pub open spec fn optional_lists(entries: Seq<(Seq<char>, toml::Value)>, key: Seq<char>) -> Option<
    Option<Seq<(Seq<char>, Seq<Seq<char>>)>>,
> {
    match entry_under(entries, key) {
        None => Some(None),
        Some(v) => match named_lists(v) {
            Some(l) => Some(Some(l)),
            None => None,
        },
    }
}

/// The settings that a TOML document holds: `api_key` and `project_name`
/// are strings, `backup_original_text` is a boolean, `glossaries` is a
/// table of tables of strings; `target_extensions` and `ignores` are tables
/// of arrays of strings and may be left out. Other keys are passed over.
pub open spec fn settings_of(root: toml::Value) -> Option<DeeplConfigView> {
    match toml_entries(root) {
        None => None,
        Some(entries) => {
            let api_key = match entry_under(entries, "api_key"@) {
                Some(v) => toml_text(v),
                None => None,
            };
            let project_name = match entry_under(entries, "project_name"@) {
                Some(v) => toml_text(v),
                None => None,
            };
            let backup = match entry_under(entries, "backup_original_text"@) {
                Some(v) => toml_flag(v),
                None => None,
            };
            let glossaries = match entry_under(entries, "glossaries"@) {
                Some(v) => named_tables(v),
                None => None,
            };
            let extensions = optional_lists(entries, "target_extensions"@);
            let ignores = optional_lists(entries, "ignores"@);
            if api_key is Some && project_name is Some && backup is Some && glossaries is Some
                && extensions is Some && ignores is Some {
                Some(
                    DeeplConfigView {
                        api_key: api_key->0,
                        project_name: project_name->0,
                        backup_original_text: backup->0,
                        target_extensions: extensions->0,
                        glossaries: glossaries->0,
                        ignores: ignores->0,
                    },
                )
            } else {
                None
            }
        },
    }
}

/// The settings that a text holds, where it is TOML that holds them.
pub open spec fn settings_in(text: Seq<char>) -> Option<DeeplConfigView> {
    match toml_parsed(text) {
        Some(root) => settings_of(root),
        None => None,
    }
}

/// The outcome of trying the files from index `k` on: the first file that
/// exists decides, by its settings or by its fault.
pub open spec fn search_from(files: Seq<Result<String, ReadFailure>>, k: int) -> Result<
    DeeplConfigView,
    ConfigError,
>
    decreases files.len() - k,
{
    if k < 0 || k >= files.len() {
        Err(ConfigError::NotFound)
    } else {
        match files[k] {
            Ok(text) => match settings_in(text@) {
                Some(c) => Ok(c),
                None => Err(ConfigError::Invalid),
            },
            Err(ReadFailure::NotFound) => search_from(files, k + 1),
            Err(ReadFailure::Other) => Err(ConfigError::Unreadable),
        }
    }
}

/// The outcome of a search as a mathematical value.
pub open spec fn outcome_view(r: Result<DeeplConfig, ConfigError>) -> Result<
    DeeplConfigView,
    ConfigError,
> {
    match r {
        Ok(c) => Ok(c@),
        Err(e) => Err(e),
    }
}

/// Computes `entry_under`.
pub fn find_entry(entries: &Vec<(String, toml::Value)>, key: &str) -> (r: Option<usize>)
    ensures
        match r {
            Some(i) => i < entries.len() && entry_under(entries_view(Some(*entries))->0, key@) == Some(
                entries[i as int].1,
            ),
            None => entry_under(entries_view(Some(*entries))->0, key@) is None,
        },
{
    let wanted = chars_of(key);
    let ghost all = entries_view(Some(*entries))->0;
    let mut i: usize = 0;
    proof {
        assert(all.skip(0) =~= all);
    }
    while i < entries.len()
        invariant
            i <= entries.len(),
            wanted@ == key@,
            all == entries_view(Some(*entries))->0,
            entry_under(all, key@) == entry_under(all.skip(i as int), key@),
        decreases entries.len() - i,
    {
        let name = chars_of(entries[i].0.as_str());
        proof {
            assert(all.skip(i as int)[0] == all[i as int]);
            assert(all.skip(i as int).skip(1) =~= all.skip(i + 1));
        }
        if same_chars(&name, &wanted) {
            return Some(i);
        }
        i += 1;
    }
    None
}

/// Computes `texts_of`.
fn read_texts(items: &Vec<toml::Value>) -> (r: Option<Vec<String>>)
    ensures
        match r {
            Some(v) => texts_of(items@) == Some(lines(v@)),
            None => texts_of(items@) is None,
        },
{
    let mut out: Vec<String> = Vec::new();
    let mut i: usize = 0;
    proof {
        assert(items@.skip(0) =~= items@);
        assert(lines(out@) + texts_of(items@)->0 =~= texts_of(items@)->0);
    }
    while i < items.len()
        invariant
            i <= items.len(),
            texts_of(items@) == prepend(lines(out@), texts_of(items@.skip(i as int))),
        decreases items.len() - i,
    {
        let ghost rest = items@.skip(i as int);
        let ghost before = lines(out@);
        proof {
            assert(rest[0] == items@[i as int]);
            assert(rest.skip(1) =~= items@.skip(i + 1));
        }
        match text_of(&items[i]) {
            Some(t) => {
                out.push(t);
                proof {
                    assert(lines(out@) =~= before.push(t@));
                    if let Some(tail) = texts_of(rest.skip(1)) {
                        assert(lines(out@) + tail =~= before + (seq![t@] + tail));
                    }
                }
            },
            None => {
                return None;
            },
        }
        i += 1;
    }
    proof {
        assert(items@.skip(items@.len() as int) =~= Seq::<toml::Value>::empty());
        assert(lines(out@) + Seq::<Seq<char>>::empty() =~= lines(out@));
    }
    Some(out)
}

/// Computes `string_list`.
fn read_string_list(v: &toml::Value) -> (r: Option<Vec<String>>)
    ensures
        match r {
            Some(l) => string_list(*v) == Some(lines(l@)),
            None => string_list(*v) is None,
        },
{
    match items_of(v) {
        Some(items) => read_texts(&items),
        None => None,
    }
}

/// Computes `named_lists`.
fn read_named_lists(v: &toml::Value) -> (r: Option<Vec<(String, Vec<String>)>>)
    ensures
        match r {
            Some(l) => named_lists(*v) == Some(named_lists_view(l@)),
            None => named_lists(*v) is None,
        },
{
    let found = entries_of(v);
    let entries = match found {
        Some(e) => e,
        None => {
            return None;
        },
    };
    let ghost all = entries_view(Some(entries))->0;
    let mut out: Vec<(String, Vec<String>)> = Vec::new();
    let mut i: usize = 0;
    proof {
        assert(all.skip(0) =~= all);
        assert(named_lists_view(out@) + lists_of(all)->0 =~= lists_of(all)->0);
    }
    while i < entries.len()
        invariant
            i <= entries.len(),
            all == entries_view(Some(entries))->0,
            toml_entries(*v) == Some(all),
            lists_of(all) == prepend(named_lists_view(out@), lists_of(all.skip(i as int))),
        decreases entries.len() - i,
    {
        let ghost rest = all.skip(i as int);
        let ghost before = named_lists_view(out@);
        proof {
            assert(rest[0] == all[i as int]);
            assert(rest.skip(1) =~= all.skip(i + 1));
        }
        match read_string_list(&entries[i].1) {
            Some(l) => {
                let name = entries[i].0.clone();
                out.push((name, l));
                proof {
                    assert(named_lists_view(out@) =~= before.push((all[i as int].0, lines(l@))));
                    if let Some(tail) = lists_of(rest.skip(1)) {
                        assert(named_lists_view(out@) + tail =~= before + (seq![
                            (all[i as int].0, lines(l@)),
                        ] + tail));
                    }
                }
            },
            None => {
                return None;
            },
        }
        i += 1;
    }
    proof {
        assert(all.skip(all.len() as int) =~= Seq::<(Seq<char>, toml::Value)>::empty());
        assert(named_lists_view(out@) + Seq::<(Seq<char>, Seq<Seq<char>>)>::empty() =~= named_lists_view(
            out@,
        ));
    }
    Some(out)
}

/// Computes `string_table`.
fn read_string_table(v: &toml::Value) -> (r: Option<Vec<(String, String)>>)
    ensures
        match r {
            Some(l) => string_table(*v) == Some(pairs_view(l@)),
            None => string_table(*v) is None,
        },
{
    let found = entries_of(v);
    let entries = match found {
        Some(e) => e,
        None => {
            return None;
        },
    };
    let ghost all = entries_view(Some(entries))->0;
    let mut out: Vec<(String, String)> = Vec::new();
    let mut i: usize = 0;
    proof {
        assert(all.skip(0) =~= all);
        assert(pairs_view(out@) + pairs_of(all)->0 =~= pairs_of(all)->0);
    }
    while i < entries.len()
        invariant
            i <= entries.len(),
            all == entries_view(Some(entries))->0,
            toml_entries(*v) == Some(all),
            pairs_of(all) == prepend(pairs_view(out@), pairs_of(all.skip(i as int))),
        decreases entries.len() - i,
    {
        let ghost rest = all.skip(i as int);
        let ghost before = pairs_view(out@);
        proof {
            assert(rest[0] == all[i as int]);
            assert(rest.skip(1) =~= all.skip(i + 1));
        }
        match text_of(&entries[i].1) {
            Some(t) => {
                let name = entries[i].0.clone();
                out.push((name, t));
                proof {
                    assert(pairs_view(out@) =~= before.push((all[i as int].0, t@)));
                    if let Some(tail) = pairs_of(rest.skip(1)) {
                        assert(pairs_view(out@) + tail =~= before + (seq![(all[i as int].0, t@)] + tail));
                    }
                }
            },
            None => {
                return None;
            },
        }
        i += 1;
    }
    proof {
        assert(all.skip(all.len() as int) =~= Seq::<(Seq<char>, toml::Value)>::empty());
        assert(pairs_view(out@) + Seq::<(Seq<char>, Seq<char>)>::empty() =~= pairs_view(out@));
    }
    Some(out)
}

/// Computes `named_tables`.
fn read_named_tables(v: &toml::Value) -> (r: Option<Vec<(String, Vec<(String, String)>)>>)
    ensures
        match r {
            Some(l) => named_tables(*v) == Some(named_pairs_view(l@)),
            None => named_tables(*v) is None,
        },
{
    let found = entries_of(v);
    let entries = match found {
        Some(e) => e,
        None => {
            return None;
        },
    };
    let ghost all = entries_view(Some(entries))->0;
    let mut out: Vec<(String, Vec<(String, String)>)> = Vec::new();
    let mut i: usize = 0;
    proof {
        assert(all.skip(0) =~= all);
        assert(named_pairs_view(out@) + tables_of(all)->0 =~= tables_of(all)->0);
    }
    while i < entries.len()
        invariant
            i <= entries.len(),
            all == entries_view(Some(entries))->0,
            toml_entries(*v) == Some(all),
            tables_of(all) == prepend(named_pairs_view(out@), tables_of(all.skip(i as int))),
        decreases entries.len() - i,
    {
        let ghost rest = all.skip(i as int);
        let ghost before = named_pairs_view(out@);
        proof {
            assert(rest[0] == all[i as int]);
            assert(rest.skip(1) =~= all.skip(i + 1));
        }
        match read_string_table(&entries[i].1) {
            Some(t) => {
                let name = entries[i].0.clone();
                out.push((name, t));
                proof {
                    assert(named_pairs_view(out@) =~= before.push((all[i as int].0, pairs_view(t@))));
                    if let Some(tail) = tables_of(rest.skip(1)) {
                        assert(named_pairs_view(out@) + tail =~= before + (seq![
                            (all[i as int].0, pairs_view(t@)),
                        ] + tail));
                    }
                }
            },
            None => {
                return None;
            },
        }
        i += 1;
    }
    proof {
        assert(all.skip(all.len() as int) =~= Seq::<(Seq<char>, toml::Value)>::empty());
        assert(named_pairs_view(out@) + Seq::<(Seq<char>, Seq<(Seq<char>, Seq<char>)>)>::empty()
            =~= named_pairs_view(out@));
    }
    Some(out)
}

/// Computes `optional_lists`.
fn read_optional_lists(entries: &Vec<(String, toml::Value)>, key: &str) -> (r: Option<
    Option<Vec<(String, Vec<String>)>>,
>)
    ensures
        match r {
            Some(l) => optional_lists(entries_view(Some(*entries))->0, key@) == Some(
                optional_lists_view(l),
            ),
            None => optional_lists(entries_view(Some(*entries))->0, key@) is None,
        },
{
    match find_entry(entries, key) {
        None => Some(None),
        Some(i) => match read_named_lists(&entries[i].1) {
            Some(l) => Some(Some(l)),
            None => None,
        },
    }
}

impl DeeplConfig {
    /// Reads the settings from the TOML text of a settings file.
    #[verifier::rlimit(40)]
    pub fn with_config(text: &str) -> (r: Result<DeeplConfig, ConfigError>)
        ensures
            match settings_in(text@) {
                Some(c) => r is Ok && r->Ok_0@ == c,
                None => r == Err::<DeeplConfig, ConfigError>(ConfigError::Invalid),
            },
    {
        let root = match parse_value(text) {
            Ok(v) => v,
            Err(_) => {
                return Err(ConfigError::Invalid);
            },
        };
        let entries = match entries_of(&root) {
            Some(e) => e,
            None => {
                return Err(ConfigError::Invalid);
            },
        };
        let api_key = match find_entry(&entries, "api_key") {
            Some(i) => text_of(&entries[i].1),
            None => None,
        };
        let project_name = match find_entry(&entries, "project_name") {
            Some(i) => text_of(&entries[i].1),
            None => None,
        };
        let backup = match find_entry(&entries, "backup_original_text") {
            Some(i) => flag_of(&entries[i].1),
            None => None,
        };
        let glossaries = match find_entry(&entries, "glossaries") {
            Some(i) => read_named_tables(&entries[i].1),
            None => None,
        };
        let extensions = read_optional_lists(&entries, "target_extensions");
        let ignores = read_optional_lists(&entries, "ignores");
        match (api_key, project_name, backup, glossaries, extensions, ignores) {
            (Some(api_key), Some(project_name), Some(backup), Some(glossaries), Some(extensions), Some(ignores)) => {
                Ok(
                    DeeplConfig {
                        api_key,
                        project_name,
                        backup_original_text: backup,
                        target_extensions: extensions,
                        glossaries,
                        ignores,
                    },
                )
            },
            _ => Err(ConfigError::Invalid),
        }
    }

    /// Looks for the settings in the files that were tried, in their
    /// order: a file that does not exist is passed over, and the first one
    /// that exists decides.
    pub fn new(files: &Vec<Result<String, ReadFailure>>) -> (r: Result<DeeplConfig, ConfigError>)
        ensures
            outcome_view(r) == search_from(files@, 0),
    {
        let mut k: usize = 0;
        while k < files.len()
            invariant
                k <= files.len(),
                search_from(files@, 0) == search_from(files@, k as int),
            decreases files.len() - k,
        {
            match &files[k] {
                Ok(text) => {
                    return DeeplConfig::with_config(text.as_str());
                },
                Err(ReadFailure::NotFound) => {},
                Err(ReadFailure::Other) => {
                    return Err(ConfigError::Unreadable);
                },
            }
            k += 1;
        }
        Err(ConfigError::NotFound)
    }

    /// Whether the key is one of the free plan.
    pub open spec fn free_plan(self) -> bool {
        is_suffix(self@.api_key, ":fx"@)
    }

    /// Whether the key is one of the free plan: such a key ends in `:fx`.
    pub fn is_free_api_key(&self) -> (r: bool)
        ensures
            r == self.free_plan(),
    {
        let key = chars_of(self.api_key.as_str());
        let mark = chars_of(":fx");
        ends_with(&key, &mark)
    }
}

/// The list under the first name that is `name`.
pub open spec fn list_under(lists: Seq<(Seq<char>, Seq<Seq<char>>)>, name: Seq<char>) -> Option<
    Seq<Seq<char>>,
>
    decreases lists.len(),
{
    if lists.len() == 0 {
        None
    } else if lists[0].0 == name {
        Some(lists[0].1)
    } else {
        list_under(lists.skip(1), name)
    }
}

/// The list under `name` in lists that may be left out.
pub open spec fn optional_list_under(
    lists: Option<Seq<(Seq<char>, Seq<Seq<char>>)>>,
    name: Seq<char>,
) -> Option<Seq<Seq<char>>> {
    match lists {
        Some(l) => list_under(l, name),
        None => None,
    }
}

/// The second part of the first pair whose first part is `key`.
pub open spec fn value_under(pairs: Seq<(Seq<char>, Seq<char>)>, key: Seq<char>) -> Option<Seq<char>>
    decreases pairs.len(),
{
    if pairs.len() == 0 {
        None
    } else if pairs[0].0 == key {
        Some(pairs[0].1)
    } else {
        value_under(pairs.skip(1), key)
    }
}

/// The value under `key` in the first of the tables that holds the key.
pub open spec fn first_value_under(
    tables: Seq<(Seq<char>, Seq<(Seq<char>, Seq<char>)>)>,
    key: Seq<char>,
) -> Option<Seq<char>>
    decreases tables.len(),
{
    if tables.len() == 0 {
        None
    } else {
        match value_under(tables[0].1, key) {
            Some(v) => Some(v),
            None => first_value_under(tables.skip(1), key),
        }
    }
}

/// The key under which the glossary for a pair of languages is kept.
pub open spec fn glossary_key(from: Language, to: Language) -> Seq<char> {
    from.langcode() + "_"@ + to.langcode()
}

/// A copy of a list of strings.
pub fn copy_strings(v: &Vec<String>) -> (r: Vec<String>)
    ensures
        lines(r@) == lines(v@),
{
    let mut out: Vec<String> = Vec::new();
    let mut i: usize = 0;
    while i < v.len()
        invariant
            i <= v.len(),
            out.len() == i,
            forall|j: int| 0 <= j < i ==> out[j]@ == v[j]@,
        decreases v.len() - i,
    {
        out.push(v[i].clone());
        i += 1;
    }
    proof {
        assert(lines(out@) =~= lines(v@));
    }
    out
}

/// Computes `list_under`.
pub fn find_list(lists: &Vec<(String, Vec<String>)>, name: &str) -> (r: Option<Vec<String>>)
    ensures
        match r {
            Some(l) => list_under(named_lists_view(lists@), name@) == Some(lines(l@)),
            None => list_under(named_lists_view(lists@), name@) is None,
        },
{
    let wanted = chars_of(name);
    let ghost all = named_lists_view(lists@);
    let mut i: usize = 0;
    proof {
        assert(all.skip(0) =~= all);
    }
    while i < lists.len()
        invariant
            i <= lists.len(),
            wanted@ == name@,
            all == named_lists_view(lists@),
            list_under(all, name@) == list_under(all.skip(i as int), name@),
        decreases lists.len() - i,
    {
        proof {
            assert(all.skip(i as int)[0] == all[i as int]);
            assert(all.skip(i as int).skip(1) =~= all.skip(i + 1));
        }
        let here = chars_of(lists[i].0.as_str());
        if same_chars(&here, &wanted) {
            return Some(copy_strings(&lists[i].1));
        }
        i += 1;
    }
    None
}

/// Computes `value_under`.
pub fn find_value(pairs: &Vec<(String, String)>, key: &Vec<char>) -> (r: Option<String>)
    ensures
        text_view(r) == value_under(pairs_view(pairs@), key@),
{
    let ghost all = pairs_view(pairs@);
    let mut i: usize = 0;
    proof {
        assert(all.skip(0) =~= all);
    }
    while i < pairs.len()
        invariant
            i <= pairs.len(),
            all == pairs_view(pairs@),
            value_under(all, key@) == value_under(all.skip(i as int), key@),
        decreases pairs.len() - i,
    {
        proof {
            assert(all.skip(i as int)[0] == all[i as int]);
            assert(all.skip(i as int).skip(1) =~= all.skip(i + 1));
        }
        let here = chars_of(pairs[i].0.as_str());
        if same_chars(&here, key) {
            return Some(pairs[i].1.clone());
        }
        i += 1;
    }
    None
}

impl DeeplConfig {
    /// The address under which the service is reached: that of the free
    /// plan for a key of the free plan.
    pub open spec fn base_url(self) -> Seq<char> {
        if self.free_plan() {
            "https://api-free.deepl.com/v2/"@
        } else {
            "https://api.deepl.com/v2/"@
        }
    }

    /// The address of one function of the service.
    pub fn endpoint(&self, api: &str) -> (r: String)
        ensures
            r@ == self.base_url() + api@,
    {
        let mut url: Vec<char> = Vec::new();
        if self.is_free_api_key() {
            append_str(&mut url, "https://api-free.deepl.com/v2/");
        } else {
            append_str(&mut url, "https://api.deepl.com/v2/");
        }
        append_str(&mut url, api);
        proof {
            assert(url@ =~= self.base_url() + api@);
        }
        string_of(&url)
    }

    /// The line by which a request shows the key.
    pub fn authorization(&self) -> (r: String)
        ensures
            r@ == "DeepL-Auth-Key "@ + self@.api_key,
    {
        let mut line: Vec<char> = Vec::new();
        append_str(&mut line, "DeepL-Auth-Key ");
        append_str(&mut line, self.api_key.as_str());
        proof {
            assert(line@ =~= "DeepL-Auth-Key "@ + self@.api_key);
        }
        string_of(&line)
    }

    /// The name of the project.
    pub fn project(&self) -> (r: &str)
        ensures
            r@ == self@.project_name,
    {
        self.project_name.as_str()
    }

    /// Whether the original text is kept in a comment behind the
    /// translation.
    pub fn keeps_original(&self) -> (r: bool)
        ensures
            r == self@.backup_original_text,
    {
        self.backup_original_text
    }

    /// The glossary for a pair of languages: the one that the first
    /// project with such a glossary names.
    pub fn glossary(&self, from_lang: Language, to_lang: Language) -> (r: Option<String>)
        ensures
            text_view(r) == first_value_under(self@.glossaries, glossary_key(from_lang, to_lang)),
    {
        let mut key: Vec<char> = Vec::new();
        append_str(&mut key, from_lang.as_langcode());
        append_str(&mut key, "_");
        append_str(&mut key, to_lang.as_langcode());
        proof {
            assert(key@ =~= glossary_key(from_lang, to_lang));
        }
        let ghost all = named_pairs_view(self.glossaries@);
        let mut i: usize = 0;
        proof {
            assert(all.skip(0) =~= all);
        }
        while i < self.glossaries.len()
            invariant
                i <= self.glossaries.len(),
                all == named_pairs_view(self.glossaries@),
                all == self@.glossaries,
                key@ == glossary_key(from_lang, to_lang),
                first_value_under(all, key@) == first_value_under(all.skip(i as int), key@),
            decreases self.glossaries.len() - i,
        {
            proof {
                assert(all.skip(i as int)[0] == all[i as int]);
                assert(all.skip(i as int).skip(1) =~= all.skip(i + 1));
            }
            let found = find_value(&self.glossaries[i].1, &key);
            if found.is_some() {
                return found;
            }
            i += 1;
        }
        None
    }

    /// The phrases that are not to be translated in a project.
    pub fn ignore_phrases(&self, project: &str) -> (r: Option<Vec<String>>)
        ensures
            match r {
                Some(l) => optional_list_under(self@.ignores, project@) == Some(lines(l@)),
                None => optional_list_under(self@.ignores, project@) is None,
            },
    {
        match &self.ignores {
            Some(lists) => find_list(lists, project),
            None => None,
        }
    }

    /// The file name extensions that are translated in a project.
    pub fn extensions(&self, project: &str) -> (r: Option<Vec<String>>)
        ensures
            match r {
                Some(l) => optional_list_under(self@.target_extensions, project@) == Some(lines(l@)),
                None => optional_list_under(self@.target_extensions, project@) is None,
            },
    {
        match &self.target_extensions {
            Some(lists) => find_list(lists, project),
            None => None,
        }
    }
}

} // verus!
