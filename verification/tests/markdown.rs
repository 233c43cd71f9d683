use cmark_translate::codec::{decode, encode};
use cmark_translate::markdown::reader::read_markdown;
use cmark_translate::markdown::render::write_markdown;
use cmark_translate::markup::reader::DecodeError;
use cmark_translate::model::{Alignment, Block, Document, Inline};

fn text(s: &str) -> Inline {
    Inline::Text(s.to_string())
}

fn para(children: Vec<Inline>) -> Block {
    Block::Paragraph(children)
}

fn round_trip(markdown: &str) {
    let markup = encode(markdown, true);
    assert_eq!(decode(&markup, true), Ok(markdown.to_string()), "markup: {}", markup);
    let markup = encode(markdown, false);
    assert_eq!(decode(&markup, false), Ok(markdown.to_string()), "markup: {}", markup);
    assert_eq!(write_markdown(&read_markdown(markdown)), markdown);
}

#[test]
fn a_heading_and_a_paragraph() {
    let markdown = "# Title\n\nHello **world**.";
    let doc = read_markdown(markdown);
    assert_eq!(
        doc,
        Document {
            blocks: vec![
                Block::Heading { level: 1, children: vec![text("Title")] },
                para(vec![text("Hello "), Inline::Strong(vec![text("world")]), text(".")]),
            ],
        }
    );
    assert_eq!(write_markdown(&doc), markdown);
    assert_eq!(
        encode(markdown, true),
        "<document><heading level=\"1\">Title</heading><p>Hello <strong>world</strong>.</p></document>"
    );
    assert_eq!(decode(&encode(markdown, true), true), Ok(markdown.to_string()));
}

#[test]
fn a_code_block_is_protected() {
    let markdown = "```rust\nlet x = 1;\n```";
    let doc = read_markdown(markdown);
    assert_eq!(
        doc,
        Document {
            blocks: vec![Block::CodeBlock { info: "rust".to_string(), literal: "let x = 1;\n".to_string() }],
        }
    );
    let markup = encode(markdown, true);
    assert_eq!(markup, "<document><pre info=\"rust\">let x = 1;\n</pre></document>");
    assert_eq!(decode(&markup, true), Ok(markdown.to_string()));
}

#[test]
fn the_empty_text() {
    assert_eq!(read_markdown(""), Document { blocks: vec![] });
    assert_eq!(encode("", true), "");
    assert_eq!(encode("", false), "");
    assert_eq!(decode("", true), Ok(String::new()));
    assert_eq!(decode("", false), Ok(String::new()));
    assert_eq!(encode("\n\n  \n", true), "");
    assert_eq!(decode("<document></document>", true), Ok(String::new()));
}

#[test]
fn a_single_sentence() {
    round_trip("This is a test.");
    assert_eq!(encode("This is a test.", true), "<document><p>This is a test.</p></document>");
    assert_eq!(decode("<document><p>これはテストです。</p></document>", true), Ok("これはテストです。".to_string()));
}

#[test]
fn inlines_are_read() {
    let doc = read_markdown("a *b* **c** ***d*** ~~e~~ `f` [g](h \"i\") ![j](k) <span>l</span> _m_ n_o_p");
    assert_eq!(
        doc,
        Document {
            blocks: vec![para(vec![
                text("a "),
                Inline::Emphasis(vec![text("b")]),
                text(" "),
                Inline::Strong(vec![text("c")]),
                text(" "),
                Inline::Emphasis(vec![Inline::Strong(vec![text("d")])]),
                text(" "),
                Inline::Strikethrough(vec![text("e")]),
                text(" "),
                Inline::CodeSpan("f".to_string()),
                text(" "),
                Inline::Link { destination: "h".to_string(), title: "i".to_string(), children: vec![text("g")] },
                text(" "),
                Inline::Image { destination: "k".to_string(), title: String::new(), alt: "j".to_string() },
                text(" "),
                Inline::RawHtmlInline("<span>".to_string()),
                text("l"),
                Inline::RawHtmlInline("</span>".to_string()),
                text(" "),
                Inline::Emphasis(vec![text("m")]),
                text(" n_o_p"),
            ])],
        }
    );
}

#[test]
fn inlines_are_written_as_they_were() {
    round_trip("a *b* **c** ***d*** ~~e~~ `f` [g](h \"i\") ![j](k) <span>l</span> n_o_p");
    round_trip("**bold *and italic* text** with `code` and a [link](https://example.com/a_b)");
    round_trip("2 * 3 = 6, a_b, [ ] todo, [x] done, 5 < 6 > 4, a ~ b, ! and ! [");
    round_trip("an \\*escaped\\* star and a [link\\](that-is-none) and a [bracket\\](not a link)");
    round_trip("code with ``a ` tick`` and `` `ticks` `` and more");
    round_trip("a lone \\` tick");
    assert_eq!(write_markdown(&read_markdown("```a `` b```")), "`a `` b`");
    assert_eq!(write_markdown(&read_markdown("``a ` b ``` c``")), "``a ` b ``` c``");
    round_trip("an <https://example.com> autolink and <!-- a comment -->");
    round_trip("![an image](image.png \"with a title\")");
    round_trip("text with \"quotes\" & ampersands &amp; entities <b>bold</b>");
}

#[test]
fn breaks_are_read_and_written() {
    let doc = read_markdown("one\ntwo  \nthree\\\nfour");
    assert_eq!(
        doc,
        Document {
            blocks: vec![para(vec![
                text("one"),
                Inline::SoftBreak,
                text("two"),
                Inline::LineBreak,
                text("three"),
                Inline::LineBreak,
                text("four"),
            ])],
        }
    );
    assert_eq!(write_markdown(&doc), "one\ntwo\\\nthree\\\nfour");
    round_trip("one\ntwo\\\nthree");
}

#[test]
fn headings_of_every_level() {
    round_trip("# one\n\n## two\n\n### three\n\n#### four\n\n##### five\n\n###### six");
    let doc = read_markdown("####### seven\n#hashtag\n#");
    assert_eq!(
        doc,
        Document {
            blocks: vec![
                para(vec![text("####### seven"), Inline::SoftBreak, text("#hashtag")]),
                Block::Heading { level: 1, children: vec![] },
            ],
        }
    );
}

#[test]
fn lists_are_read() {
    let doc = read_markdown("- one\n- two\n  more\n\n  and more\n- three\n\n1. first\n2. second");
    assert_eq!(
        doc,
        Document {
            blocks: vec![
                Block::List {
                    ordered: false,
                    start: None,
                    tight: false,
                    items: vec![
                        Block::ListItem(vec![para(vec![text("one")])]),
                        Block::ListItem(vec![
                            para(vec![text("two"), Inline::SoftBreak, text("more")]),
                            para(vec![text("and more")]),
                        ]),
                        Block::ListItem(vec![para(vec![text("three")])]),
                    ],
                },
                Block::List {
                    ordered: true,
                    start: Some(1),
                    tight: true,
                    items: vec![
                        Block::ListItem(vec![para(vec![text("first")])]),
                        Block::ListItem(vec![para(vec![text("second")])]),
                    ],
                },
            ],
        }
    );
}

#[test]
fn lists_are_written_as_they_were() {
    round_trip("- one\n- two\n- three");
    round_trip("- one\n\n- two\n\n- three");
    round_trip("1. one\n2. two\n3. three");
    round_trip("7. seven\n8. eight");
    round_trip("- one\n  - nested\n  - list\n- two\n  1. numbered\n  2. inside");
    round_trip("- item\n\n  ```\n  code\n  ```\n\n- next");
    round_trip("10. ten\n11. eleven\n    with more text");
    round_trip("- [ ] open\n- [x] done");
}

#[test]
fn other_markers_are_written_as_dashes_and_full_stops() {
    assert_eq!(write_markdown(&read_markdown("* one\n* two")), "- one\n- two");
    assert_eq!(write_markdown(&read_markdown("+ one\n+ two")), "- one\n- two");
    assert_eq!(write_markdown(&read_markdown("1) one\n2) two")), "1. one\n2. two");
    assert_eq!(write_markdown(&read_markdown("3. one\n3. two\n3. three")), "3. one\n4. two\n5. three");
    assert_eq!(write_markdown(&read_markdown("- one\n* two")), "- one\n\n* two");
    assert_eq!(write_markdown(&read_markdown("1. one\n\n1) two\n\n1. three")), "1. one\n\n1) two\n\n1. three");
}

#[test]
fn quotes_are_read_and_written() {
    let doc = read_markdown("> a quote\n> of two lines\n>\n> and two paragraphs");
    assert_eq!(
        doc,
        Document {
            blocks: vec![Block::BlockQuote(vec![
                para(vec![text("a quote"), Inline::SoftBreak, text("of two lines")]),
                para(vec![text("and two paragraphs")]),
            ])],
        }
    );
    round_trip("> a quote\n> of two lines\n>\n> and two paragraphs");
    round_trip("> # heading\n>\n> - a list\n> - in a quote\n>\n> > and a quote in a quote");
}

#[test]
fn code_blocks_are_read_and_written() {
    round_trip("```\nplain\n```");
    round_trip("```python\ndef f():\n    return '<b>' * 2\n\n# a comment, not a heading\n```");
    round_trip("````\na ``` fence inside\n````");
    round_trip("```\n```");
    assert_eq!(
        read_markdown("```text\nnot closed"),
        Document { blocks: vec![Block::CodeBlock { info: "text".to_string(), literal: "not closed\n".to_string() }] }
    );
    assert_eq!(write_markdown(&read_markdown("```text\nnot closed")), "```text\nnot closed\n```");
}

#[test]
fn thematic_breaks() {
    round_trip("above\n\n---\n\nbelow");
    assert_eq!(write_markdown(&read_markdown("***\n\n_ _ _\n\n-----")), "---\n\n---\n\n---");
}

#[test]
fn tables_are_read_and_written() {
    let markdown = "| a | b | c |\n| --- | :-: | --: |\n| 1 | **2** | 3 |\n| x \\| y |  | z |";
    let doc = read_markdown(markdown);
    let cell = |is_header: bool, children: Vec<Inline>| Block::TableCell { is_header, children };
    assert_eq!(
        doc,
        Document {
            blocks: vec![Block::Table {
                alignments: vec![Alignment::Unaligned, Alignment::Center, Alignment::Right],
                rows: vec![
                    Block::TableRow(vec![
                        cell(true, vec![text("a")]),
                        cell(true, vec![text("b")]),
                        cell(true, vec![text("c")]),
                    ]),
                    Block::TableRow(vec![
                        cell(false, vec![text("1")]),
                        cell(false, vec![Inline::Strong(vec![text("2")])]),
                        cell(false, vec![text("3")]),
                    ]),
                    Block::TableRow(vec![
                        cell(false, vec![text("x | y")]),
                        cell(false, vec![]),
                        cell(false, vec![text("z")]),
                    ]),
                ],
            }],
        }
    );
    round_trip(markdown);
    assert_eq!(
        write_markdown(&read_markdown("a|b\n:-|-\n1|2|3\n4")),
        "| a | b |\n| :-- | --- |\n| 1 | 2 |\n| 4 |  |"
    );
}

#[test]
fn raw_html_is_read_and_written() {
    round_trip("<div class=\"note\">\n  <p>raw *html*</p>\n</div>\n\nand a paragraph");
    assert_eq!(
        read_markdown("<div>\nraw\n</div>"),
        Document { blocks: vec![Block::RawHtmlBlock("<div>\nraw\n</div>".to_string())] }
    );
}

#[test]
fn a_whole_document() {
    round_trip(
        "# Guide\n\nAn *introduction* with a [link](https://example.com \"Example\").\n\n## Steps\n\n1. Install `tool`\n\n2. Run it:\n\n   ```sh\n   tool --help\n   ```\n\n3. Done\n\n> **Note**\n> Be careful.\n\n| Key | Value |\n| --- | --- |\n| a | 1 |\n\n---\n\n<footer>the end</footer>",
    );
}

#[test]
fn text_beyond_ascii() {
    round_trip("# 見出し\n\nこれは**テスト**です。\n\n- 項目\n- *もう一つ*");
}

#[test]
fn decode_refuses_what_is_not_markup() {
    assert_eq!(decode("<document><p>open</document>", true), Err(DecodeError::Malformed));
    assert_eq!(decode("<document><unknown/></document>", true), Err(DecodeError::Malformed));
    assert_eq!(decode("<p>no root</p>", true), Err(DecodeError::Malformed));
}

#[test]
fn translated_text_takes_the_place_of_the_original() {
    let markup = encode("# Title\n\nHello **world**, see `code`.", true);
    assert_eq!(
        markup,
        "<document><heading level=\"1\">Title</heading><p>Hello <strong>world</strong>, see <code>code</code>.</p></document>"
    );
    let translated = "<document><heading level=\"1\">題名</heading><p>こんにちは<strong>世界</strong>、<code>code</code>を見て。</p></document>";
    assert_eq!(decode(translated, true), Ok("# 題名\n\nこんにちは**世界**、`code`を見て。".to_string()));
}

#[test]
fn backslashes_are_written_only_where_they_are_needed() {
    let written = write_markdown(&read_markdown("an \\*escaped\\* star, \\_a\\_, 1\\. one, a\\\\b, \\[x\\], 2 \\* 3"));
    assert_eq!(written, "an \\*escaped\\* star, \\_a\\_, 1. one, a\\b, [x], 2 * 3");
    assert_eq!(write_markdown(&read_markdown(&written)), written);
    assert_eq!(
        read_markdown(&written),
        Document { blocks: vec![para(vec![text("an *escaped* star, _a_, 1. one, a\\b, [x], 2 * 3")])] }
    );
}

#[test]
fn a_list_with_a_blank_line_in_an_item_is_loose() {
    let written = write_markdown(&read_markdown("1. one\n2. two\n\n   more\n3. three"));
    assert_eq!(written, "1. one\n\n2. two\n\n   more\n\n3. three");
    assert_eq!(write_markdown(&read_markdown(&written)), written);
}

#[test]
fn blocks_that_are_not_read_further_are_kept() {
    round_trip("    indented code\n    is kept as it is\n\ntext");
    round_trip("[label]: https://example.com \"Title\"\n\ntext with a [label]");
    round_trip("<!-- a comment -->\n\ntext");
    assert_eq!(
        read_markdown("    let x = 1;"),
        Document { blocks: vec![Block::RawHtmlBlock("    let x = 1;".to_string())] }
    );
    assert_eq!(encode("    let x = 1;", false), "<object>    let x = 1;</object>");
    assert_eq!(
        read_markdown("text\n    goes on"),
        Document { blocks: vec![para(vec![text("text"), Inline::SoftBreak, text("goes on")])] }
    );
}

#[test]
fn a_text_of_any_marks_is_one_text_again() {
    let texts = [
        "a*b*c and **d** and ***e***",
        "word _under_ __score__ snake_case",
        "see [the link](https://example.com \"t\") and ![image](x.png)",
        "less <than> more <!-- no comment --> </end>",
        "a `tick` and ``two`` and ~~gone~~ and ~one~",
        "back\\slash and \\* and \\\\",
        "open [ only, close ] only, bang ! only, ](",
        "x & y &amp; z < w > v",
        "é*ü*ß; 日本語の*文*",
    ];
    for kept in texts {
        let doc = Document {
            blocks: vec![
                para(vec![text(kept)]),
                Block::Heading { level: 3, children: vec![text(kept)] },
                Block::Heading { level: 1, children: vec![text("*starred* #")] },
            ],
        };
        let written = write_markdown(&doc);
        assert!(!written.contains("\n\n\n"), "written: {}", written);
        assert_eq!(read_markdown(&written), doc, "written: {}", written);
        assert_eq!(write_markdown(&read_markdown(&written)), written);
        let markup = encode(&written, true);
        assert_eq!(decode(&markup, true), Ok(written.clone()), "markup: {}", markup);
    }
}
