use cmark_translate::ignore::{apply_ignore_list, strip_ignore_markers};

#[test]
fn longer_phrase_is_wrapped_as_one_unit() {
    let phrases = vec!["New York".to_string(), "New".to_string()];
    let out = apply_ignore_list("<p>New York City</p>", &phrases);
    assert_eq!(out, "<p><ignore-tag>New York</ignore-tag> City</p>");
    let out = apply_ignore_list("New York City", &phrases);
    assert_eq!(out, "<ignore-tag>New York</ignore-tag> City");
}

#[test]
fn shorter_phrase_listed_first_is_still_wrapped_last() {
    let phrases = vec!["New".to_string(), "New York".to_string()];
    let out = apply_ignore_list("<p>New York City is new</p>", &phrases);
    assert_eq!(
        out,
        "<p><ignore-tag>New York</ignore-tag> City is <ignore-tag>new</ignore-tag></p>"
    );
}

#[test]
fn strip_gives_the_markup_back() {
    let phrases = vec!["New York".to_string(), "New".to_string(), "C++".to_string()];
    let markup = "<p>New York City, new C++ code: <code>New York</code></p>";
    let wrapped = apply_ignore_list(markup, &phrases);
    assert_ne!(wrapped, markup);
    assert_eq!(strip_ignore_markers(&wrapped), markup);
}

#[test]
fn code_is_not_touched() {
    let phrases = vec!["let".to_string()];
    let markup = "<pre info=\"rust\">let x = 1;</pre><p>let it be</p>";
    let wrapped = apply_ignore_list(markup, &phrases);
    assert_eq!(
        wrapped,
        "<pre info=\"rust\">let x = 1;</pre><p><ignore-tag>let</ignore-tag> it be</p>"
    );
}

#[test]
fn tag_names_are_not_touched() {
    let phrases = vec!["strong".to_string(), "p".to_string()];
    let markup = "<p>a <strong>strong</strong> point</p>";
    let wrapped = apply_ignore_list(markup, &phrases);
    assert_eq!(
        wrapped,
        "<p>a <strong><ignore-tag>strong</ignore-tag></strong> <ignore-tag>p</ignore-tag>oint</p>"
    );
}

#[test]
fn phrases_with_markup_characters_are_found_in_escaped_text() {
    let phrases = vec!["AT&T".to_string()];
    let wrapped = apply_ignore_list("<p>at&amp;t and AT&amp;T</p>", &phrases);
    assert_eq!(
        wrapped,
        "<p><ignore-tag>at&amp;t</ignore-tag> and <ignore-tag>AT&amp;T</ignore-tag></p>"
    );
}

#[test]
fn text_beyond_ascii_is_measured_in_characters() {
    let phrases = vec!["東京".to_string()];
    let wrapped = apply_ignore_list("<p>日本の東京です</p>", &phrases);
    assert_eq!(wrapped, "<p>日本の<ignore-tag>東京</ignore-tag>です</p>");
    assert_eq!(strip_ignore_markers(&wrapped), "<p>日本の東京です</p>");
}

#[test]
fn empty_phrase_list_changes_nothing() {
    let phrases: Vec<String> = Vec::new();
    let markup = "<p>Hello</p>";
    assert_eq!(apply_ignore_list(markup, &phrases), markup);
    assert_eq!(strip_ignore_markers(&apply_ignore_list(markup, &phrases)), markup);
}

#[test]
fn empty_phrase_changes_nothing() {
    let phrases = vec!["".to_string()];
    assert_eq!(apply_ignore_list("<p>Hello</p>", &phrases), "<p>Hello</p>");
}

#[test]
fn strip_removes_only_the_markers() {
    assert_eq!(
        strip_ignore_markers("<p><ignore-tag>a</ignore-tag><em>b</em></ignore-tag></p>"),
        "<p>a<em>b</em></p>"
    );
    assert_eq!(strip_ignore_markers("<ignore-tag"), "<ignore-tag");
    assert_eq!(strip_ignore_markers(""), "");
}

#[test]
fn a_phrase_is_taken_by_its_letters() {
    let phrases = vec!["C++".to_string(), "a.c".to_string(), "(x)".to_string()];
    let wrapped = apply_ignore_list("<p>c++ and abc and a.c and (X)</p>", &phrases);
    assert_eq!(
        wrapped,
        "<p><ignore-tag>c++</ignore-tag> and abc and <ignore-tag>a.c</ignore-tag> and <ignore-tag>(X)</ignore-tag></p>"
    );
}

#[test]
fn phrases_of_one_length_are_wrapped_in_their_order() {
    let phrases = vec!["ab".to_string(), "bc".to_string()];
    assert_eq!(apply_ignore_list("<p>abc</p>", &phrases), "<p><ignore-tag>ab</ignore-tag>c</p>");
    let phrases = vec!["bc".to_string(), "ab".to_string()];
    assert_eq!(apply_ignore_list("<p>abc</p>", &phrases), "<p>a<ignore-tag>bc</ignore-tag></p>");
}

#[test]
fn markers_that_were_there_shield_their_text() {
    let phrases = vec!["York".to_string()];
    let markup = "<p><ignore-tag>New York</ignore-tag> and York</p>";
    assert_eq!(
        apply_ignore_list(markup, &phrases),
        "<p><ignore-tag>New York</ignore-tag> and <ignore-tag>York</ignore-tag></p>"
    );
    // on markup that held markers, stripping takes those out as well
    assert_eq!(strip_ignore_markers(&apply_ignore_list(markup, &phrases)), "<p>New York and York</p>");
}
