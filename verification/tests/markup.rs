use cmark_translate::markup::reader::{read_markup, DecodeError};
use cmark_translate::markup::writer::write_markup;
use cmark_translate::model::{Alignment, Block, Document, Inline};

fn text(s: &str) -> Inline {
    Inline::Text(s.to_string())
}

fn sample() -> Document {
    Document {
        blocks: vec![
            Block::Heading { level: 2, children: vec![text("A <b> & \"c\"")] },
            Block::Paragraph(vec![
                text("Hello "),
                Inline::Strong(vec![text("world"), Inline::Emphasis(vec![text("!")])]),
                Inline::SoftBreak,
                Inline::Link {
                    destination: "https://example.com/?a=1&b=\"2\"".to_string(),
                    title: "a <title>".to_string(),
                    children: vec![text("link"), Inline::CodeSpan("x < y".to_string())],
                },
                Inline::LineBreak,
                Inline::Image {
                    destination: "a.png".to_string(),
                    title: String::new(),
                    alt: "an image".to_string(),
                },
                Inline::Strikethrough(vec![]),
                Inline::RawHtmlInline("<span class=\"x\">".to_string()),
            ]),
            Block::List {
                ordered: true,
                start: Some(3),
                tight: false,
                items: vec![
                    Block::ListItem(vec![Block::Paragraph(vec![text("one")])]),
                    Block::ListItem(vec![
                        Block::Paragraph(vec![text("two")]),
                        Block::List {
                            ordered: false,
                            start: None,
                            tight: true,
                            items: vec![Block::ListItem(vec![])],
                        },
                    ]),
                ],
            },
            Block::BlockQuote(vec![Block::ThematicBreak, Block::Paragraph(vec![text("q")])]),
            Block::CodeBlock { info: "rust".to_string(), literal: "let x = 1 < 2;\n".to_string() },
            Block::CodeBlock { info: String::new(), literal: String::new() },
            Block::Table {
                alignments: vec![Alignment::Left, Alignment::Unaligned, Alignment::Center, Alignment::Right],
                rows: vec![Block::TableRow(vec![
                    Block::TableCell { is_header: true, children: vec![text("h")] },
                    Block::TableCell { is_header: false, children: vec![] },
                ])],
            },
            Block::RawHtmlBlock("<div>\n</div>".to_string()),
        ],
    }
}

#[test]
fn markup_of_a_small_document() {
    let doc = Document {
        blocks: vec![
            Block::Heading { level: 1, children: vec![text("Title")] },
            Block::Paragraph(vec![text("Hello "), Inline::Strong(vec![text("world")]), text(".")]),
        ],
    };
    assert_eq!(
        write_markup(&doc, true),
        "<document><heading level=\"1\">Title</heading><p>Hello <strong>world</strong>.</p></document>"
    );
    assert_eq!(
        write_markup(&doc, false),
        "<heading level=\"1\">Title</heading><p>Hello <strong>world</strong>.</p>"
    );
}

#[test]
fn markup_of_every_kind_of_node() {
    let markup = write_markup(&sample(), true);
    assert_eq!(
        markup,
        concat_all(&[
            "<document>",
            "<heading level=\"2\">A &lt;b&gt; &amp; \"c\"</heading>",
            "<p>Hello <strong>world<em>!</em></strong><sbr/>",
            "<a href=\"https://example.com/?a=1&amp;b=&quot;2&quot;\" title=\"a &lt;title&gt;\">link<code>x &lt; y</code></a>",
            "<br/><img src=\"a.png\" title=\"\" alt=\"an image\"/><del></del>",
            "<embed>&lt;span class=\"x\"&gt;</embed></p>",
            "<list ordered=\"true\" start=\"3\" tight=\"false\"><li><p>one</p></li>",
            "<li><p>two</p><list ordered=\"false\" start=\"\" tight=\"true\"><li></li></list></li></list>",
            "<blockquote><hr/><p>q</p></blockquote>",
            "<pre info=\"rust\">let x = 1 &lt; 2;\n</pre><pre info=\"\"></pre>",
            "<table align=\"l-cr\"><tr><td header=\"true\">h</td><td header=\"false\"></td></tr></table>",
            "<object>&lt;div&gt;\n&lt;/div&gt;</object>",
            "</document>",
        ])
    );
}

fn concat_all(parts: &[&str]) -> String {
    let mut s = String::new();
    for p in parts {
        s.push_str(p);
    }
    s
}

#[test]
fn a_document_is_read_back_from_its_markup() {
    for wrap in [true, false] {
        let markup = write_markup(&sample(), wrap);
        assert_eq!(read_markup(&markup, wrap), Ok(sample()));
    }
}

#[test]
fn the_empty_document() {
    let empty = Document { blocks: vec![] };
    assert_eq!(write_markup(&empty, true), "");
    assert_eq!(write_markup(&empty, false), "");
    assert_eq!(read_markup("", true), Ok(Document { blocks: vec![] }));
    assert_eq!(read_markup("", false), Ok(Document { blocks: vec![] }));
    assert_eq!(read_markup("<document></document>", true), Ok(Document { blocks: vec![] }));
}

#[test]
fn a_tag_outside_the_vocabulary_is_refused() {
    assert_eq!(read_markup("<document><section></section></document>", true), Err(DecodeError::Malformed));
    assert_eq!(read_markup("<p>a <b>bold</b> word</p>", false), Err(DecodeError::Malformed));
    assert_eq!(read_markup("<p>a <ignore-tag>b</ignore-tag></p>", false), Err(DecodeError::Malformed));
    assert_eq!(read_markup("<h1>Title</h1>", false), Err(DecodeError::Malformed));
}

#[test]
fn markup_that_is_not_well_formed_is_refused() {
    let cases = [
        "<p>open",
        "<p>crossed <em>tags</p></em>",
        "</p>",
        "<p",
        "<p>a</p",
        "<p >a</p>",
        "<p/>",
        "<hr>",
        "<hr></hr>",
        "text outside of a block",
        "<p>a</p> <p>b</p>",
        "<li><p>an item without a list</p></li>",
        "<list ordered=\"true\" start=\"\" tight=\"true\"><p>a block without an item</p></list>",
        "<tr></tr>",
        "<table align=\"x\"></table>",
        "<table align=\"l\"><td header=\"true\"></td></table>",
        "<heading>no level</heading>",
        "<heading level=\"7\">too deep</heading>",
        "<heading level=\"0\">too high</heading>",
        "<heading level=\"a\">no number</heading>",
        "<heading level=\"1\" extra=\"1\">one too many</heading>",
        "<list ordered=\"yes\" start=\"\" tight=\"true\"></list>",
        "<list ordered=\"true\" start=\"99999999999999999999\" tight=\"true\"></list>",
        "<list start=\"\" ordered=\"true\" tight=\"true\"></list>",
        "<a href=\"x\">no title</a>",
        "<p><img src=\"a\" title=\"b\"/></p>",
        "<p><code>a<em>b</em></code></p>",
        "<pre info=\"unclosed>a</pre>",
        "<p><p>a paragraph in a paragraph</p></p>",
        "<p><document></document></p>",
    ];
    for markup in cases {
        assert_eq!(read_markup(markup, false), Err(DecodeError::Malformed), "{}", markup);
    }
    assert_eq!(read_markup("<p>no root</p>", true), Err(DecodeError::Malformed));
    assert_eq!(read_markup("<document><p>a</p></document><p>b</p>", true), Err(DecodeError::Malformed));
    assert_eq!(read_markup("<document><p>a</p>", true), Err(DecodeError::Malformed));
    assert_eq!(read_markup("<document><p>a</p></document>", false), Err(DecodeError::Malformed));
}

#[test]
fn entities_are_resolved() {
    let doc = read_markup("<p>1 &lt; 2 &amp;&amp; 3 &gt; 2 &quot;q&quot; &unknown; & &amp;lt;</p>", false).unwrap();
    assert_eq!(
        doc,
        Document { blocks: vec![Block::Paragraph(vec![text("1 < 2 && 3 > 2 \"q\" &unknown; & &lt;")])] }
    );
}

#[test]
fn leading_zeros_are_read() {
    let doc = read_markup("<heading level=\"03\">a</heading>", false).unwrap();
    assert_eq!(doc, Document { blocks: vec![Block::Heading { level: 3, children: vec![text("a")] }] });
}
