//! The calls into the `regex` crate.

use vstd::prelude::*;

verus! {

/// The characters that have a meaning in a regular expression.
pub open spec fn is_meta_char(c: char) -> bool {
    c == '\\' || c == '.' || c == '+' || c == '*' || c == '?' || c == '(' || c == ')' || c == '|'
        || c == '[' || c == ']' || c == '{' || c == '}' || c == '^' || c == '$' || c == '#'
        || c == '&' || c == '-' || c == '~'
}

/// `s` with a backslash in front of each meta character: the regular
/// expression that matches `s` and nothing else.
pub open spec fn quoted(s: Seq<char>) -> Seq<char>
    decreases s.len(),
{
    if s.len() == 0 {
        Seq::empty()
    } else if is_meta_char(s[0]) {
        seq!['\\', s[0]] + quoted(s.skip(1))
    } else {
        seq![s[0]] + quoted(s.skip(1))
    }
}

/// Calls `regex::escape`, which copies the text and puts a backslash in
/// front of each of the eighteen meta characters of the crate's syntax.
#[verifier::external_body]
pub(crate) fn quote_pattern(text: &str) -> (r: String)
    ensures
        r@ == quoted(text@),
{
    regex::escape(text)
}

/// The matches of the regular expression `pattern` in `haystack`, as
/// `regex::Regex::find_iter` yields them one after the other, each as the
/// byte offsets of its start and its end in the UTF-8 form of `haystack`;
/// nothing where `regex::Regex::new` does not accept `pattern`.
pub uninterp spec fn regex_matches(pattern: Seq<char>, haystack: Seq<char>) -> Option<
    Seq<(usize, usize)>,
>;

/// The result of a search as a mathematical value.
pub open spec fn found_view(found: Option<Vec<(usize, usize)>>) -> Option<Seq<(usize, usize)>> {
    match found {
        Some(v) => Some(v@),
        None => None,
    }
}

/// Compiles `pattern` with `regex::Regex::new` and collects what
/// `regex::Regex::find_iter` yields on `haystack`. The contract gives the
/// result its name and claims nothing else of it.
#[verifier::external_body]
pub(crate) fn find_matches(pattern: &str, haystack: &str) -> (r: Option<Vec<(usize, usize)>>)
    ensures
        found_view(r) == regex_matches(pattern@, haystack@),
{
    match regex::Regex::new(pattern) {
        Ok(re) => Some(re.find_iter(haystack).map(|m| (m.start(), m.end())).collect()),
        Err(_) => None,
    }
}

/// Whether the regular expression `pattern` matches somewhere in `text`, as
/// `regex::Regex::is_match` tells; nothing where `regex::Regex::new` does
/// not accept `pattern`.
pub uninterp spec fn regex_is_match(pattern: Seq<char>, text: Seq<char>) -> Option<bool>;

/// Compiles `pattern` with `regex::Regex::new` and asks
/// `regex::Regex::is_match` about `text`. The contract gives the result
/// its name and claims nothing else of it.
#[verifier::external_body]
pub(crate) fn test_match(pattern: &str, text: &str) -> (r: Option<bool>)
    ensures
        r == regex_is_match(pattern@, text@),
{
    match regex::Regex::new(pattern) {
        Ok(re) => Some(re.is_match(text)),
        Err(_) => None,
    }
}

} // verus!
