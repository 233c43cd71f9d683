use cmark_translate::markdown::reader::read_markdown;
use cmark_translate::markdown::render::write_markdown;
use cmark_translate::model::{Alignment, Block, Document, Inline};

fn text(s: &str) -> Inline {
    Inline::Text(s.to_string())
}

fn para(children: Vec<Inline>) -> Block {
    Block::Paragraph(children)
}

fn plain(s: &str) -> Block {
    para(vec![text(s)])
}

fn item(children: Vec<Block>) -> Block {
    Block::ListItem(children)
}

fn bullets(tight: bool, items: Vec<Block>) -> Block {
    Block::List { ordered: false, start: None, tight, items }
}

fn numbers(start: u64, tight: bool, items: Vec<Block>) -> Block {
    Block::List { ordered: true, start: Some(start), tight, items }
}

fn link(destination: &str, title: &str, children: Vec<Inline>) -> Inline {
    Inline::Link { destination: destination.to_string(), title: title.to_string(), children }
}

fn code(info: &str, literal: &str) -> Block {
    Block::CodeBlock { info: info.to_string(), literal: literal.to_string() }
}

fn cell(is_header: bool, children: Vec<Inline>) -> Block {
    Block::TableCell { is_header, children }
}

fn read_back(blocks: Vec<Block>) -> Result<(), String> {
    let doc = Document { blocks };
    let written = write_markdown(&doc);
    let read = read_markdown(&written);
    if read == doc {
        Ok(())
    } else {
        Err(format!("{:?}\n is written as {:?}\n and read as {:?}", doc, written, read))
    }
}

fn all_read_back(documents: Vec<Vec<Block>>) {
    let total = documents.len();
    let mut failures = Vec::new();
    for blocks in documents {
        if let Err(why) = read_back(blocks) {
            failures.push(why);
        }
    }
    assert!(failures.is_empty(), "{} of {} fail:\n{}", failures.len(), total, failures.join("\n\n"));
}

#[test]
fn texts_with_every_mark_are_read_back() {
    let marks = "!\"#$%&'()*+,-./:;<=>?@[\\]^_`{|}~";
    let mut documents = vec![
        vec![plain("a * b")],
        vec![plain("*")],
        vec![plain("**")],
        vec![plain("a*")],
        vec![plain("*a")],
        vec![plain("*a*")],
        vec![plain("**a**")],
        vec![plain("_a_ __b__ a_b _")],
        vec![plain("~a~ ~~b~~ ~")],
        vec![plain("`")],
        vec![plain("``a``")],
        vec![plain("[a](b)")],
        vec![plain("![a](b)")],
        vec![plain("[a]")],
        vec![plain("]")],
        vec![plain("<b>")],
        vec![plain("<!-- c -->")],
        vec![plain("a < b")],
        vec![plain("\\")],
        vec![plain("\\\\")],
        vec![plain("\\*")],
        vec![plain("a\\b")],
        vec![plain("# a")],
        vec![plain("###### a")],
        vec![plain("> a")],
        vec![plain("- a")],
        vec![plain("+ a")],
        vec![plain("* a")],
        vec![plain("1. a")],
        vec![plain("1) a")],
        vec![plain("---")],
        vec![plain("***")],
        vec![plain("___")],
        vec![plain("```")],
        vec![plain("| a |")],
        vec![plain("&amp;")],
        vec![plain(marks)],
    ];
    for c in marks.chars() {
        documents.push(vec![plain(&format!("{}", c))]);
        documents.push(vec![plain(&format!("a{}b", c))]);
        documents.push(vec![plain(&format!("a {} b", c))]);
        documents.push(vec![plain(&format!("{}{}", c, c))]);
        documents.push(vec![plain(&format!("a{}{}b", c, c))]);
        documents.push(vec![plain(&format!("{}a{}", c, c))]);
        documents.push(vec![plain(&format!("x {}a{} y", c, c))]);
        documents.push(vec![para(vec![text(&format!("a{}", c)), Inline::Emphasis(vec![text("b")])])]);
        documents.push(vec![para(vec![Inline::Strong(vec![text("b")]), text(&format!("{}a", c))])]);
        documents.push(vec![para(vec![Inline::Emphasis(vec![text(&format!("{}a{}", c, c))])])]);
        documents.push(vec![para(vec![link("d", "", vec![text(&format!("a{}b", c))])])]);
        documents.push(vec![para(vec![text("a"), Inline::SoftBreak, text(&format!("{} b", c))])]);
    }
    all_read_back(documents);
}

#[test]
fn inlines_are_read_back() {
    all_read_back(vec![
        vec![para(vec![Inline::Emphasis(vec![text("a")])])],
        vec![para(vec![Inline::Strong(vec![text("a")])])],
        vec![para(vec![Inline::Strikethrough(vec![text("a")])])],
        vec![para(vec![Inline::Emphasis(vec![Inline::Strong(vec![text("a")])])])],
        vec![para(vec![Inline::Emphasis(vec![text("a "), Inline::Strong(vec![text("b")]), text(" c")])])],
        vec![para(vec![Inline::Strong(vec![text("a "), Inline::Emphasis(vec![text("b")]), text(" c")])])],
        vec![para(vec![text("a "), Inline::Emphasis(vec![text("b")]), text(" c")])],
        vec![para(vec![Inline::Emphasis(vec![text("a")]), text(" "), Inline::Emphasis(vec![text("b")])])],
        vec![para(vec![Inline::CodeSpan("a".to_string())])],
        vec![para(vec![Inline::CodeSpan("a ` b".to_string())])],
        vec![para(vec![Inline::CodeSpan("`a`".to_string())])],
        vec![para(vec![Inline::CodeSpan(" a ".to_string())])],
        vec![para(vec![Inline::CodeSpan("a  b".to_string())])],
        vec![para(vec![Inline::CodeSpan("*a* <b> \\ [c](d)".to_string())])],
        vec![para(vec![link("https://example.com", "", vec![text("a")])])],
        vec![para(vec![link("https://example.com/a_b?c=d&e=(f)", "a \"title\" \\ here", vec![text("a")])])],
        vec![para(vec![link("", "", vec![text("a")])])],
        vec![para(vec![link("d", "", vec![text("a "), Inline::Emphasis(vec![text("b")]), Inline::CodeSpan("c".to_string())])])],
        vec![para(vec![link("d", "", vec![text("[a] ]b[")])])],
        vec![para(vec![link("d", "", vec![Inline::Image { destination: "i".to_string(), title: String::new(), alt: "a".to_string() }])])],
        vec![para(vec![Inline::Image { destination: "i.png".to_string(), title: "t".to_string(), alt: "an [alt] \\ text".to_string() }])],
        vec![para(vec![Inline::RawHtmlInline("<b>".to_string()), text("a"), Inline::RawHtmlInline("</b>".to_string())])],
        vec![para(vec![text("a"), Inline::SoftBreak, text("b")])],
        vec![para(vec![text("a"), Inline::LineBreak, text("b")])],
        vec![para(vec![text("a"), Inline::LineBreak, Inline::Emphasis(vec![text("b")])])],
        vec![para(vec![Inline::Emphasis(vec![text("a"), Inline::SoftBreak, text("b")])])],
    ]);
}

#[test]
fn blocks_are_read_back() {
    all_read_back(vec![
        vec![],
        vec![plain("a")],
        vec![plain("a"), plain("b")],
        vec![Block::Heading { level: 1, children: vec![text("a")] }],
        vec![Block::Heading { level: 6, children: vec![text("a "), Inline::Emphasis(vec![text("b")])] }],
        vec![Block::Heading { level: 2, children: vec![] }],
        vec![Block::Heading { level: 1, children: vec![text("a")] }, Block::Heading { level: 2, children: vec![text("b")] }],
        vec![Block::ThematicBreak],
        vec![plain("a"), Block::ThematicBreak, plain("b")],
        vec![code("", "a\n")],
        vec![code("rust", "fn main() {\n    println!(\"```\");\n}\n")],
        vec![code("", "")],
        vec![code("", "\n")],
        vec![code("", "a\n\nb\n")],
        vec![code("", "````\n`````\n")],
        vec![code("info string", "a\n")],
        vec![Block::RawHtmlBlock("<div>".to_string())],
        vec![Block::RawHtmlBlock("<!-- a comment -->".to_string())],
        vec![Block::RawHtmlBlock("</TABLE>".to_string())],
        vec![Block::RawHtmlBlock("<div>\n<p>a</p>\n</div>".to_string())],
        vec![Block::BlockQuote(vec![plain("a")])],
        vec![Block::BlockQuote(vec![plain("a"), plain("b")])],
        vec![Block::BlockQuote(vec![])],
        vec![Block::BlockQuote(vec![Block::BlockQuote(vec![plain("a")])])],
        vec![Block::BlockQuote(vec![code("", "a\n\nb\n")])],
        vec![Block::BlockQuote(vec![Block::Heading { level: 1, children: vec![text("a")] }, bullets(true, vec![item(vec![plain("b")])])])],
        vec![Block::BlockQuote(vec![plain("a")]), Block::BlockQuote(vec![plain("b")])],
    ]);
}

#[test]
fn lists_are_read_back() {
    all_read_back(vec![
        vec![bullets(true, vec![item(vec![plain("a")])])],
        vec![bullets(true, vec![item(vec![plain("a")]), item(vec![plain("b")])])],
        vec![bullets(false, vec![item(vec![plain("a")]), item(vec![plain("b")])])],
        vec![bullets(false, vec![item(vec![plain("a"), plain("b")])])],
        vec![bullets(false, vec![item(vec![plain("a"), plain("b")]), item(vec![plain("c")])])],
        vec![bullets(true, vec![item(vec![])])],
        vec![bullets(true, vec![item(vec![]), item(vec![plain("a")])])],
        vec![bullets(true, vec![item(vec![plain("a"), bullets(true, vec![item(vec![plain("b")])])])])],
        vec![bullets(true, vec![item(vec![plain("a"), numbers(1, true, vec![item(vec![plain("b")])])]), item(vec![plain("c")])])],
        vec![bullets(false, vec![item(vec![plain("a"), code("", "b\n\nc\n")]), item(vec![Block::BlockQuote(vec![plain("d")])])])],
        vec![bullets(true, vec![item(vec![Block::Heading { level: 1, children: vec![text("a")] }])])],
        vec![bullets(true, vec![item(vec![code("x", "a\n")])])],
        vec![numbers(1, true, vec![item(vec![plain("a")]), item(vec![plain("b")])])],
        vec![numbers(0, true, vec![item(vec![plain("a")])])],
        vec![numbers(42, false, vec![item(vec![plain("a")]), item(vec![plain("b")])])],
        vec![numbers(9, true, vec![item(vec![plain("a")]), item(vec![plain("b"), code("", "c\n")])])],
        vec![numbers(999_999_998, true, vec![item(vec![plain("a")]), item(vec![plain("b")])])],
        vec![bullets(true, vec![item(vec![plain("a")])]), bullets(true, vec![item(vec![plain("b")])])],
        vec![bullets(true, vec![item(vec![plain("a")])]), bullets(true, vec![item(vec![plain("b")])]), bullets(true, vec![item(vec![plain("c")])])],
        vec![numbers(1, true, vec![item(vec![plain("a")])]), numbers(1, true, vec![item(vec![plain("b")])])],
        vec![bullets(true, vec![item(vec![plain("a")])]), numbers(1, true, vec![item(vec![plain("b")])])],
        vec![bullets(true, vec![item(vec![plain("a")])]), plain("b")],
        vec![plain("a"), bullets(true, vec![item(vec![plain("b")])])],
        vec![bullets(true, vec![item(vec![plain("a")])]), Block::ThematicBreak],
        vec![bullets(true, vec![item(vec![Block::ThematicBreak])])],
    ]);
}

#[test]
fn tables_are_read_back() {
    all_read_back(vec![
        vec![Block::Table {
            alignments: vec![Alignment::Unaligned],
            rows: vec![Block::TableRow(vec![cell(true, vec![text("a")])])],
        }],
        vec![Block::Table {
            alignments: vec![Alignment::Left, Alignment::Center, Alignment::Right, Alignment::Unaligned],
            rows: vec![
                Block::TableRow(vec![
                    cell(true, vec![text("a")]),
                    cell(true, vec![text("b")]),
                    cell(true, vec![text("c")]),
                    cell(true, vec![text("d")]),
                ]),
                Block::TableRow(vec![
                    cell(false, vec![text("1 | 2")]),
                    cell(false, vec![Inline::CodeSpan("x".to_string())]),
                    cell(false, vec![]),
                    cell(false, vec![Inline::Emphasis(vec![text("e")])]),
                ]),
            ],
        }],
        vec![
            plain("a"),
            Block::Table {
                alignments: vec![Alignment::Unaligned, Alignment::Unaligned],
                rows: vec![
                    Block::TableRow(vec![cell(true, vec![text("h")]), cell(true, vec![text("i")])]),
                    Block::TableRow(vec![cell(false, vec![text("j")]), cell(false, vec![text("k")])]),
                ],
            },
            plain("b"),
        ],
    ]);
}

#[test]
fn paragraphs_in_a_tight_list_stay_apart() {
    let doc = Document {
        blocks: vec![numbers(9, true, vec![item(vec![plain("a")]), item(vec![plain("b"), plain("c")])])],
    };
    assert_eq!(write_markdown(&doc), "9. a\n10. b\n\n    c");
}

#[test]
fn a_thematic_break_at_the_start_of_an_item() {
    let doc = Document { blocks: vec![bullets(true, vec![item(vec![Block::ThematicBreak, plain("a")])])] };
    assert_eq!(write_markdown(&doc), "- ___\n  a");
}
