//! The calls into the `toml` crate. A TOML value stays a value of that
//! crate; what the library reads of it is named here, and the contracts of
//! the calls say how each call relates to those names.

use vstd::prelude::*;
use crate::text::text_view;

verus! {

/// A TOML value, as the `toml` crate holds it.
#[verifier::external_type_specification]
#[verifier::external_body]
pub struct ExTomlValue(toml::Value);

/// The error of the `toml` crate's parser.
#[verifier::external_type_specification]
#[verifier::external_body]
pub struct ExTomlError(toml::de::Error);

/// The value that the `toml` crate reads from a text (`toml::Value` as
/// `FromStr`); nothing where it rejects the text.
pub uninterp spec fn toml_parsed(text: Seq<char>) -> Option<toml::Value>;

/// The text of a value that is a string (`toml::Value::as_str`).
pub uninterp spec fn toml_text(v: toml::Value) -> Option<Seq<char>>;

/// The truth value of a value that is a boolean (`toml::Value::as_bool`).
pub uninterp spec fn toml_flag(v: toml::Value) -> Option<bool>;

/// The elements of a value that is an array (`toml::Value::as_array`).
pub uninterp spec fn toml_items(v: toml::Value) -> Option<Seq<toml::Value>>;

/// The keys and values of a value that is a table
/// (`toml::Value::as_table`), in the order in which the table is walked.
pub uninterp spec fn toml_entries(v: toml::Value) -> Option<Seq<(Seq<char>, toml::Value)>>;

/// The TOML text of a value (`toml::to_string`); nothing where the crate
/// cannot write the value.
pub uninterp spec fn toml_written(v: toml::Value) -> Option<Seq<char>>;

/// The TOML text of a value in the crate's pretty form
/// (`toml::to_string_pretty`); nothing where the crate cannot write the
/// value.
pub uninterp spec fn toml_pretty(v: toml::Value) -> Option<Seq<char>>;

/// The value that is the string `text` (`toml::Value::String`).
pub uninterp spec fn toml_string(text: Seq<char>) -> toml::Value;

/// The value `table` after the value under `key` was replaced by `value`
/// (`toml::Value::get_mut` with a string index, and an assignment).
pub uninterp spec fn toml_replaced(table: toml::Value, key: Seq<char>, value: toml::Value)
    -> toml::Value;

/// What a parse gave, without the error.
pub open spec fn parsed_view(r: Result<toml::Value, toml::de::Error>) -> Option<toml::Value> {
    match r {
        Ok(v) => Some(v),
        Err(_) => None,
    }
}

/// An optional list of values as a mathematical value.
pub open spec fn items_view(r: Option<Vec<toml::Value>>) -> Option<Seq<toml::Value>> {
    match r {
        Some(v) => Some(v@),
        None => None,
    }
}

/// An optional list of entries as a mathematical value.
pub open spec fn entries_view(r: Option<Vec<(String, toml::Value)>>) -> Option<
    Seq<(Seq<char>, toml::Value)>,
> {
    match r {
        Some(v) => Some(Seq::new(v@.len(), |i: int| (v@[i].0@, v@[i].1))),
        None => None,
    }
}

/// The entries with the value of each entry under `key` replaced.
pub open spec fn with_value(
    entries: Seq<(Seq<char>, toml::Value)>,
    key: Seq<char>,
    value: toml::Value,
) -> Seq<(Seq<char>, toml::Value)> {
    Seq::new(
        entries.len(),
        |i: int| if entries[i].0 == key { (key, value) } else { entries[i] },
    )
}

/// `toml::Value::clone` gives a copy of the value.
pub assume_specification[ <toml::Value as Clone>::clone ](v: &toml::Value) -> (r: toml::Value)
    ensures
        r == *v,
;

/// Reads a TOML text with the parser of the `toml` crate. The contract
/// gives the result its name.
#[verifier::external_body]
pub(crate) fn parse_value(text: &str) -> (r: Result<toml::Value, toml::de::Error>)
    ensures
        parsed_view(r) == toml_parsed(text@),
{
    text.parse::<toml::Value>()
}

/// Calls `toml::Value::as_str`, which gives the text of a string and
/// nothing for any other value. The contract gives the result its name.
#[verifier::external_body]
pub(crate) fn text_of(v: &toml::Value) -> (r: Option<String>)
    ensures
        text_view(r) == toml_text(*v),
{
    v.as_str().map(|s| s.to_string())
}

/// Calls `toml::Value::as_bool`, which gives the truth value of a boolean
/// and nothing for any other value. The contract gives the result its name.
#[verifier::external_body]
pub(crate) fn flag_of(v: &toml::Value) -> (r: Option<bool>)
    ensures
        r == toml_flag(*v),
{
    v.as_bool()
}

/// Calls `toml::Value::as_array`, which gives the elements of an array and
/// nothing for any other value. The contract gives the result its name.
#[verifier::external_body]
pub(crate) fn items_of(v: &toml::Value) -> (r: Option<Vec<toml::Value>>)
    ensures
        items_view(r) == toml_items(*v),
{
    v.as_array().cloned()
}

/// Calls `toml::Value::as_table`, which gives the table of a table and
/// nothing for any other value, and walks the table. The contract gives
/// the result its name.
#[verifier::external_body]
pub(crate) fn entries_of(v: &toml::Value) -> (r: Option<Vec<(String, toml::Value)>>)
    ensures
        entries_view(r) == toml_entries(*v),
{
    v.as_table().map(|t| t.iter().map(|(k, x)| (k.clone(), x.clone())).collect())
}

/// Calls `toml::to_string`. The contract gives the result its name.
#[verifier::external_body]
pub(crate) fn write_value(v: &toml::Value) -> (r: Option<String>)
    ensures
        text_view(r) == toml_written(*v),
{
    toml::to_string(v).ok()
}

/// Calls `toml::to_string_pretty`. The contract gives the result its name.
#[verifier::external_body]
pub(crate) fn write_pretty(v: &toml::Value) -> (r: Option<String>)
    ensures
        text_view(r) == toml_pretty(*v),
{
    toml::to_string_pretty(v).ok()
}

/// Makes the value `toml::Value::String`. The contract gives the result
/// its name and says that it is a string with the given text.
#[verifier::external_body]
pub(crate) fn string_value(text: &str) -> (r: toml::Value)
    ensures
        r == toml_string(text@),
        toml_text(r) == Some(text@),
{
    toml::Value::String(text.to_string())
}

/// Replaces the value under `key` with `toml::Value::get_mut`, which finds
/// it where `table` is a table that holds the key and finds nothing
/// otherwise. The contract gives the result its name and says that in a
/// table the entry under `key` has the new value and every other entry is
/// as it was.
#[verifier::external_body]
pub(crate) fn replace_entry(table: toml::Value, key: &str, value: toml::Value) -> (r: toml::Value)
    ensures
        r == toml_replaced(table, key@, value),
        toml_entries(table) matches Some(entries) ==> toml_entries(r) == Some(
            with_value(entries, key@, value),
        ),
{
    let mut table = table;
    if let Some(slot) = table.get_mut(key) {
        *slot = value;
    }
    table
}

} // verus!
