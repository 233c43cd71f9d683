use cmark_translate::codec::{decode, encode};
use cmark_translate::markdown::reader::read_markdown;
use cmark_translate::markdown::render::write_markdown;
use cmark_translate::markup::reader::read_markup;
use cmark_translate::markup::writer::write_markup;

/// What is written for a text is read as the same document, and written
/// as the same text again. Gives what was written, or says what went
/// wrong.
fn settled(markdown: &str) -> Result<String, String> {
    let doc = read_markdown(markdown);
    let written = write_markdown(&doc);
    let again = read_markdown(&written);
    if again != doc {
        return Err(format!(
            "text {:?} is written as {:?}, which is read as\n   {:?}\n instead of\n   {:?}",
            markdown, written, again, doc
        ));
    }
    if write_markdown(&again) != written {
        return Err(format!("text {:?} is written as {:?} and then otherwise", markdown, written));
    }
    for wrap in [true, false] {
        let markup = write_markup(&doc, wrap);
        if read_markup(&markup, wrap).as_ref() != Ok(&doc) {
            return Err(format!("text {:?}: markup {:?} is read otherwise", markdown, markup));
        }
        if encode(markdown, wrap) != markup || decode(&markup, wrap) != Ok(written.clone()) {
            return Err(format!("text {:?}: encode or decode differs", markdown));
        }
    }
    Ok(written)
}

fn settles(markdown: &str) -> String {
    match settled(markdown) {
        Ok(written) => written,
        Err(why) => panic!("{}", why),
    }
}

fn all_settle(texts: &[&str]) {
    let mut failures = Vec::new();
    for text in texts {
        if let Err(why) = settled(text) {
            failures.push(why);
        }
    }
    assert!(failures.is_empty(), "{} of {} fail:\n{}", failures.len(), texts.len(), failures.join("\n"));
}

#[test]
fn text_that_looks_like_a_block() {
    assert_eq!(settles("a\n\\# b"), "a\n\\# b");
    assert_eq!(settles("\\# not a heading"), "\\# not a heading");
    assert_eq!(settles("\\> not a quote"), "\\> not a quote");
    assert_eq!(settles("\\- not an item"), "\\- not an item");
    assert_eq!(settles("\\+ not an item"), "\\+ not an item");
    assert_eq!(settles("1\\. not an item"), "1\\. not an item");
    assert_eq!(settles("12\\) not an item"), "12\\) not an item");
    assert_eq!(settles("\\---"), "\\---");
    assert_eq!(settles("\\```\nnot code\n\\```"), "\\`\\`\\`\nnot code\n\\`\\`\\`");
    assert_eq!(settles("text\n\\- dash"), "text\n\\- dash");
    assert_eq!(settles("#hashtag and 1.5 and -5 and +1"), "#hashtag and 1.5 and -5 and +1");
}

#[test]
fn emphasis_in_many_shapes() {
    all_settle(&[
        "*a*",
        "**a**",
        "***a***",
        "*a **b** c*",
        "**a *b* c**",
        "*a* *b*",
        "a*b*c",
        "a * b * c",
        "*a",
        "a*",
        "**a",
        "* a*",
        "*a *",
        "**",
        "****",
        "*****",
        "a ** b",
        "_a_ __b__ ___c___",
        "snake_case_name and _emphasis_ and a_b_",
        "_a",
        "a_",
        "__",
        "~~a~~ ~b~ ~~ c ~~",
        "*a ~~b~~ c* and ~~a *b* c~~",
        "**a** **b**",
        "*a**b**c*",
        "a\\*b\\*c",
        "\\*a\\*",
        "*\\**",
        "*a\\*",
    ]);
}

#[test]
fn code_spans_in_many_shapes() {
    all_settle(&[
        "`a`",
        "``a``",
        "`` a ` b ``",
        "`a` `b`",
        "` a `",
        "`  a  `",
        "`a",
        "a`",
        "``a`",
        "`a``",
        "`a\nb`",
        "` `` `",
        "`` ` ``",
        "`*a*`",
        "*`a`*",
        "`<b>`",
        "\\`a\\`",
        "`a\\`",
    ]);
}

#[test]
fn links_and_images_in_many_shapes() {
    all_settle(&[
        "[a](b)",
        "[a](b \"c\")",
        "[a]()",
        "[](b)",
        "[a](b \"c \\\" d\")",
        "[a](b\\)c)",
        "[a [b] c](d)",
        "[a](b) [c](d)",
        "[*a*](b)",
        "*[a](b)*",
        "[a]",
        "[a] (b)",
        "[a](b",
        "[a](b c)",
        "a](b)",
        "![a](b)",
        "![a](b \"c\")",
        "![](b)",
        "![a [b] c](d)",
        "!a",
        "! [a](b)",
        "[![a](b)](c)",
        "\\[a\\](b)",
        "[a\\]](b)",
        "[a](<b>)",
    ]);
}

#[test]
fn raw_html_in_many_shapes() {
    all_settle(&[
        "a <b>c</b> d",
        "a <br/> b",
        "a <!-- c --> b",
        "a < b > c",
        "a <b c",
        "a <",
        "<",
        "a <1> b",
        "<https://example.com>",
        "a <b\nc> d",
        "<div>\n\n</div>",
        "<div>\ntext\n</div>\n\nmore",
        "a <b>",
        "<span>inline at the start</span> and more text",
        "1 &lt; 2 &amp; 3",
    ]);
}

#[test]
fn breaks_in_many_shapes() {
    all_settle(&[
        "a\nb",
        "a  \nb",
        "a\\\nb",
        "a \nb",
        "a\n  b",
        "a\n\nb",
        "a\n\n\n\nb",
        "a  ",
        "a\\",
        "a\\\n",
        "  a",
        "a\\\\\nb",
        "*a\nb*",
        "a\n*b*\nc",
    ]);
}

#[test]
fn lists_in_many_shapes() {
    all_settle(&[
        "- a",
        "-",
        "- ",
        "-a",
        "- a\n- b",
        "- a\n\n- b",
        "- a\n\n\n- b",
        "- a\n  b",
        "- a\nb",
        "- a\n\n  b",
        "- a\n\n b",
        "- a\n  - b\n    - c",
        "- a\n  - b\n- c",
        "- a\n\n  - b\n\n- c",
        "1. a\n2. b",
        "1. a\n1. b",
        "0. a",
        "999999999. a",
        "1234567890. a",
        "1. a\n   b",
        "1. a\n\n   b\n2. c",
        "- a\n1. b",
        "1. a\n- b",
        "- a\n+ b\n* c",
        "1. a\n2) b",
        "- # heading in an item\n- > quote in an item",
        "- ```\n  code\n  ```",
        "- a\n\n      indented further",
        "* * *\n* a",
        "- a\n---\n- b",
        "- [link](x)\n- `code`\n- **bold**",
        "1. one\n   - nested\n   - list\n2. two",
        "text\n- item",
        "text\n1. item",
        "text\n2. not an item",
        "- \n  a",
    ]);
}

#[test]
fn quotes_in_many_shapes() {
    all_settle(&[
        "> a",
        ">a",
        ">",
        "> a\n> b",
        "> a\nb",
        "> a\n\n> b",
        "> a\n>\n> b",
        "> > a",
        "> - a\n> - b",
        "> # a",
        "> ```\n> code\n> ```",
        "> a\n> > b\n> c",
        "- > a\n  > b",
        ">  a",
        "text\n> quote",
    ]);
}

#[test]
fn code_blocks_in_many_shapes() {
    all_settle(&[
        "```\n```",
        "```\na\n```",
        "```\n\n\n```",
        "```rust\nfn main() {}\n```",
        "``` rust \na\n```",
        "````\n```\n````",
        "```\na\n````",
        "```\na",
        "```",
        "```\na\n```\nb",
        "a\n```\nb\n```",
        "```\n  indented\n\tand tabs\n```",
        "```a`b\nnot a fence\n```",
        "``\nnot a fence\n``",
        "```\n<b> & \"quotes\"\n```",
        "```\n` `` ```` `````\n```",
    ]);
}

#[test]
fn tables_in_many_shapes() {
    all_settle(&[
        "| a |\n| --- |",
        "| a | b |\n| --- | --- |\n| c | d |",
        "a | b\n--- | ---\nc | d",
        "| a | b |\n| :-- | --: |",
        "| a | b |\n| :-: | - |\n| c |",
        "| a |\n| --- |\n| b | c | d |",
        "| a \\| b |\n| --- |",
        "| *a* | `b` | [c](d) |\n| --- | --- | --- |",
        "| a | b |\n| --- |",
        "| a |\n| -- - |",
        "| a |\nnot a table",
        "| a | b |\n| --- | --- |\n\ntext",
        "text\n| a |\n| --- |",
        "|  |\n| --- |",
    ]);
}

#[test]
fn headings_in_many_shapes() {
    all_settle(&[
        "#",
        "# ",
        "# a",
        "#  a  ",
        "## a ##",
        "# *a* `b`",
        "# a\nb",
        "a\n# b",
        "# a\n# b",
        "#\ta",
        "####### a",
        "# a \\",
    ]);
}

#[test]
fn blank_lines_and_white_space() {
    all_settle(&["", "\n", "\n\n\n", " ", "\t", "a\n", "a\n\n", "\na", "\n\na\n\n", "a\r\nb\r\n", "a\r\n\r\nb", " \na", "a\n \nb"]);
    assert_eq!(settles("a\r\nb\r\n"), "a\nb");
    assert_eq!(settles("\n\na\n\n\n\nb\n\n"), "a\n\nb");
}

#[test]
fn thematic_breaks_in_many_shapes() {
    all_settle(&["---", "***", "___", "- - -", "-----", "--", "-- -", "--- a", "a\n---", "---\na", "***\n***"]);
}

#[test]
fn deep_nesting_is_taken_as_text() {
    let mut deep = String::new();
    for _ in 0..40 {
        deep.push_str("> ");
    }
    deep.push_str("a");
    settles(&deep);
    let mut stars = String::new();
    for _ in 0..40 {
        stars.push_str("*a ");
    }
    for _ in 0..40 {
        stars.push_str("b* ");
    }
    settles(stars.trim_end());
    let mut items = String::new();
    for depth in 0..40 {
        for _ in 0..depth {
            items.push_str("  ");
        }
        items.push_str("- a\n");
    }
    settles(&items);
}

#[test]
fn text_beyond_ascii_in_many_shapes() {
    all_settle(&[
        "日本語",
        "**太字**と*斜体*",
        "- 項目一\n- 項目二",
        "| 列 |\n| --- |\n| 値 |",
        "emoji 🎉 and `コード`",
        "\u{3000}全角スペース\u{3000}",
        "a\u{a0}b",
    ]);
}
