use cmark_translate::codec::{decode, encode};
use cmark_translate::markdown::reader::read_markdown;
use cmark_translate::deepl::Deepl;
use cmark_translate::frontmatter::read_cmark_with_frontmatter;
use cmark_translate::markup::reader::DecodeError;
use cmark_translate::trans::{compose_file, prepare_cmark, translate_cmark, translate_cmark_file};
use cmark_translate::walkdir::output_below;

const SETTINGS: &str = r#"
api_key = "0123456789:fx"
project_name = "docs"
backup_original_text = true

[glossaries]

[ignores]
docs = ["New York", "New", "rust"]
"#;

fn parts(body: &str, delimiter: &str, head: Option<&str>) -> (String, String, Option<String>) {
    (body.to_string(), delimiter.to_string(), head.map(|h| h.to_string()))
}

#[test]
fn a_file_with_a_head() {
    assert_eq!(
        read_cmark_with_frontmatter("+++\ntitle = \"Hello World\"\n+++\nThis is a test."),
        parts("This is a test.", "+++", Some("title = \"Hello World\"\n"))
    );
    assert_eq!(
        read_cmark_with_frontmatter("---\na: 1\nb: 2\n---\n\n# Body\n"),
        parts("\n# Body\n", "---", Some("a: 1\nb: 2\n"))
    );
    assert_eq!(read_cmark_with_frontmatter("+++\n+++\n"), parts("", "+++", Some("")));
    assert_eq!(read_cmark_with_frontmatter("+++\nx = 1\n+++"), parts("", "+++", Some("x = 1\n")));
}

#[test]
fn a_file_without_a_head() {
    assert_eq!(read_cmark_with_frontmatter(""), parts("", "+++", None));
    assert_eq!(read_cmark_with_frontmatter("# Title\n"), parts("# Title\n", "+++", None));
    assert_eq!(read_cmark_with_frontmatter("+++\nnot closed\n"), parts("+++\nnot closed\n", "+++", None));
    assert_eq!(
        read_cmark_with_frontmatter("+++\nclosed by the other\n---\n"),
        parts("+++\nclosed by the other\n---\n", "+++", None)
    );
    assert_eq!(read_cmark_with_frontmatter("++++\nx\n++++\n"), parts("++++\nx\n++++\n", "+++", None));
    assert_eq!(read_cmark_with_frontmatter("+++ \nx\n+++\n"), parts("+++ \nx\n+++\n", "+++", None));
    assert_eq!(read_cmark_with_frontmatter("---\n\n--- not a delimiter\n"), parts("---\n\n--- not a delimiter\n", "+++", None));
}

#[test]
fn a_file_is_put_together_from_its_parts() {
    let text = "+++\ntitle = \"Hello World\"\n+++\nThis is a test.";
    let (body, delimiter, head) = read_cmark_with_frontmatter(text);
    assert_eq!(compose_file(&delimiter, &head, &body, &body, false), text);
}

#[test]
fn test_translate_cmark() {
    let deepl = Deepl::with_config(SETTINGS).unwrap();
    let cmark_text = "This is a test.";
    let sent = prepare_cmark(&deepl, cmark_text);
    assert_eq!(sent, "<document><p>This is a test.</p></document>");
    let translated_cmark = translate_cmark(&deepl, "<document><p>これはテストです。</p></document>");
    let expected_translated = "これはテストです。";
    assert_eq!(translated_cmark, Ok(expected_translated.to_string()));
}

#[test]
fn phrases_are_shielded_on_the_way_and_restored_on_the_way_back() {
    let deepl = Deepl::with_config(SETTINGS).unwrap();
    let text = "# New York\n\nA new city, see `New York` and [New](https://new.example).\n\n```rust\nlet new = 1;\n```";
    let sent = prepare_cmark(&deepl, text);
    assert_eq!(
        sent,
        "<document><heading level=\"1\"><ignore-tag>New York</ignore-tag></heading><p>A <ignore-tag>new</ignore-tag> city, see <code>New York</code> and <a href=\"https://new.example\" title=\"\"><ignore-tag>New</ignore-tag></a>.</p><pre info=\"rust\">let new = 1;\n</pre></document>"
    );
    assert_eq!(translate_cmark(&deepl, &sent), Ok(text.to_string()));
}

#[test]
fn markup_that_comes_back_broken_is_refused() {
    let deepl = Deepl::with_config(SETTINGS).unwrap();
    assert_eq!(translate_cmark(&deepl, "<document><p>open"), Err(DecodeError::Malformed));
    assert_eq!(translate_cmark(&deepl, "<document><p><ignore-tag>a</p></document>"), Ok("a".to_string()));
    assert_eq!(translate_cmark(&deepl, "<document><p><b>a</b></p></document>"), Err(DecodeError::Malformed));
    assert_eq!(translate_cmark(&deepl, ""), Ok(String::new()));
}

#[test]
fn code_is_never_offered_for_translation() {
    let markup = encode("```rust\nlet x = 1;\n```", true);
    assert_eq!(markup, "<document><pre info=\"rust\">let x = 1;\n</pre></document>");
    assert_eq!(cmark_translate::ignore::translatable_text(&markup), Vec::<String>::new());
    assert_eq!(decode(&markup, true), Ok("```rust\nlet x = 1;\n```".to_string()));
}

#[test]
fn what_is_offered_for_translation() {
    let markup = encode(
        "# Title\n\nSee `code` and <b>bold</b> and [a link](https://example.com \"title\").\n\n```\nlet x = 1;\n```\n\n<div>\nraw\n</div>",
        true,
    );
    assert_eq!(
        cmark_translate::ignore::translatable_text(&markup),
        vec!["Title", "See ", " and ", "bold", " and ", "a link", "."]
    );
    assert_eq!(
        cmark_translate::ignore::translatable_text("a<ignore-tag>b</ignore-tag>c &lt; d"),
        vec!["a", "c &lt; d"]
    );
    assert_eq!(cmark_translate::ignore::translatable_text(""), Vec::<String>::new());
    assert_eq!(cmark_translate::ignore::translatable_text("<p"), Vec::<String>::new());
}

#[test]
fn verbatim_content_is_the_same_before_and_after() {
    let text = "Use `a < b && c > \"d\"` or:\n\n```html\n<p class=\"x\">&amp; *not* **markdown** [x](y)</p>\n\n  indented & <ignore-tag>kept</ignore-tag>\n```\n\n<table>\n<tr><td>*raw*</td></tr>\n</table>";
    let deepl = Deepl::with_config(SETTINGS).unwrap();
    let sent = prepare_cmark(&deepl, text);
    assert_eq!(translate_cmark(&deepl, &sent), Ok(text.to_string()));
    let doc = read_markdown(text);
    let back = cmark_translate::markup::reader::read_markup(&encode(text, true), true).unwrap();
    assert_eq!(doc, back);
}

#[test]
fn the_place_of_a_file_below_the_output_directory() {
    assert_eq!(output_below("docs/a/b.md", "docs", '/'), Some("a/b.md".to_string()));
    assert_eq!(output_below("docs/a/b.md", "docs/", '/'), Some("a/b.md".to_string()));
    assert_eq!(output_below("./docs/a.md", "./docs", '/'), Some("a.md".to_string()));
    assert_eq!(output_below("a/docs/b.md", "docs", '/'), Some("a//b.md".to_string()));
    assert_eq!(output_below("docs\\a.md", "docs", '\\'), Some("a.md".to_string()));
    assert_eq!(output_below("other/a.md", "docs", '/'), Some("other/a.md".to_string()));
    assert_eq!(output_below("docs/a.md", "", '/'), Some("docs/a.md".to_string()));
    assert_eq!(output_below("docs", "docs", '/'), None);
    assert_eq!(output_below("", "docs", '/'), None);
    assert_eq!(output_below("docs/", "docs", '/'), Some("".to_string()));
}

#[test]
fn test_translate_cmark_file() {
    let deepl = Deepl::with_config(SETTINGS).unwrap();
    let text = "+++\ntitle = \"Hello World\"\n+++\nThis is a test.";
    let (body, _, head) = read_cmark_with_frontmatter(text);
    assert_eq!(body, "This is a test.");
    assert_eq!(head, Some("title = \"Hello World\"\n".to_string()));
    let translated_head = Some("title = \"こんにちは世界\"\n".to_string());
    let translated_content = translate_cmark_file(&deepl, text, &translated_head, "これはテストです。");
    let expected_content = "+++\ntitle = \"こんにちは世界\"\n+++\nこれはテストです。\n<!---\nThis is a test.\n-->\n";
    assert_eq!(translated_content, expected_content);
}

#[test]
fn the_service_is_told_to_leave_the_shielded_elements_alone() {
    let deepl = Deepl::with_config(SETTINGS).unwrap();
    let request = deepl.translate_xml(
        cmark_translate::deepl::Language::En,
        cmark_translate::deepl::Language::Ja,
        cmark_translate::deepl::Formality::Default,
        "docs",
        "<p>a</p>",
        &Vec::new(),
    );
    let ignored = &request.form.iter().find(|(name, _)| name == "ignore_tags").unwrap().1;
    let ignored: Vec<&str> = ignored.split(',').collect();
    for shielded in ["pre", "code", "object", "embed", "ignore-tag"] {
        assert!(ignored.contains(&shielded), "{}", shielded);
    }
    let markup = encode("`a` <b>c</b>\n\n```\nd\n```\n\n<div>e</div>", true);
    for shielded in ["<pre ", "<code>", "<object>", "<embed>"] {
        assert!(markup.contains(shielded), "{}", shielded);
    }
}
