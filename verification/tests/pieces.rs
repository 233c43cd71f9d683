use cmark_translate::config::DeeplConfig;
use cmark_translate::deepl::{Deepl, Language, Method};
use cmark_translate::entries::entries_tsv;
use cmark_translate::frontmatter::{translatable_fields, translate_toml, TomlError};
use cmark_translate::glossary::{read_glossary, without_quotes, GlossaryError};
use cmark_translate::number::{from_decimal, to_decimal};
use cmark_translate::trans::{api_availability_check, compose_file, is_md_file, QuotaExceeded};
use cmark_translate::walkdir::{check_extension, is_hidden, new, Entry, InvalidPattern};

fn pair(a: &str, b: &str) -> (String, String) {
    (a.to_string(), b.to_string())
}

fn chars(s: &str) -> Vec<char> {
    s.chars().collect()
}

const SETTINGS: &str = r#"
api_key = "0123456789:fx"
project_name = "docs"
backup_original_text = true

[target_extensions]
docs = ["md", "mdx"]

[glossaries]
"#;

#[test]
fn entries_are_trimmed_filtered_and_sorted() {
    let entries = vec![
        pair(" word2 ", "translation2"),
        pair("", "nothing"),
        pair("word1", "\ttranslation1\n"),
        pair("word3", "   "),
        pair("Word", "upper"),
        pair("word1", "again"),
    ];
    assert_eq!(
        entries_tsv(&entries),
        "Word\tupper\nword1\ttranslation1\nword1\tagain\nword2\ttranslation2"
    );
    assert_eq!(entries_tsv(&Vec::new()), "");
    assert_eq!(entries_tsv(&vec![pair("a", "b")]), "a\tb");
    assert_eq!(entries_tsv(&vec![pair("\u{3000}赤\u{a0}", "red"), pair("青", "blue")]), "赤\tred\n青\tblue");
}

#[test]
fn request_for_a_new_glossary() {
    let deepl = Deepl::with_config(SETTINGS).unwrap();
    let glossaries = vec![pair("word2", "translation2"), pair("word1", "translation1")];
    let request = deepl.register_glossaries("test_glossary", Language::En, Language::Ja, &glossaries);
    assert_eq!(request.method, Method::Post);
    assert_eq!(request.url, "https://api-free.deepl.com/v2/glossaries");
    assert_eq!(
        request.form,
        vec![
            pair("name", "test_glossary"),
            pair("source_lang", "en"),
            pair("target_lang", "ja"),
            pair("entries_format", "tsv"),
            pair("entries", "word1\ttranslation1\nword2\ttranslation2"),
        ]
    );
}

#[test]
fn test_read_glossary() {
    let toml_content = r#"
[glossaries]
colors = { "red" = "赤", "blue" = "青" }
numbers = { "one" = "一", "two" = "二" }
"#;
    let result = read_glossary("colors", toml_content);
    let expected_glossary = vec![
        ("blue".to_string(), "青".to_string()),
        ("red".to_string(), "赤".to_string()),
    ];
    assert_eq!(result.unwrap(), expected_glossary);
}

#[test]
fn glossaries_that_cannot_be_read() {
    assert_eq!(read_glossary("colors", "= 1"), Err(GlossaryError::Invalid));
    assert_eq!(read_glossary("colors", "a = 1"), Err(GlossaryError::NoGlossaries));
    assert_eq!(read_glossary("colors", "glossaries = 1"), Err(GlossaryError::NoSuchGlossary));
    assert_eq!(read_glossary("colors", "[glossaries]\nnumbers = {}"), Err(GlossaryError::NoSuchGlossary));
    assert_eq!(read_glossary("colors", "[glossaries]\ncolors = 3"), Err(GlossaryError::NotATable));
    assert_eq!(read_glossary("colors", "[glossaries]\ncolors = {}"), Ok(Vec::new()));
    assert_eq!(
        read_glossary("n", "[glossaries]\nn = { one = 1, yes = true }"),
        Ok(vec![pair("one", "1"), pair("yes", "true")])
    );
    assert_eq!(without_quotes("\"a\"b\"\""), "ab");
}

#[test]
fn only_the_title_is_translated() {
    let head = "title = \"Hello World\"\ndate = 2023-03-10\ndraft = false\n\n[taxonomies]\ntags = [\"a\", \"b\"]\n";
    assert_eq!(translatable_fields(head), Ok(vec!["Hello World".to_string()]));
    let translated = translate_toml(head, &vec!["こんにちは世界".to_string()]).unwrap();
    assert_eq!(
        translated,
        "date = 2023-03-10\ndraft = false\ntitle = 'こんにちは世界'\n\n[taxonomies]\ntags = [\n    'a',\n    'b',\n]\n"
    );
}

#[test]
fn three_texts_of_a_head_are_translated() {
    let toml_frontmatter = "title = \"Hello World\"\ndescription = \"Description\"\n[extra]\ntime = \"2023-03-10\"";
    let fields = translatable_fields(toml_frontmatter).unwrap();
    assert_eq!(
        fields,
        vec!["Description".to_string(), "2023-03-10".to_string(), "Hello World".to_string()]
    );
    let translations =
        vec!["説明".to_string(), "2023年3月10日".to_string(), "こんにちは世界".to_string()];
    let translated_frontmatter = translate_toml(toml_frontmatter, &translations).unwrap();
    assert_eq!(
        translated_frontmatter,
        "description = '説明'\ntitle = 'こんにちは世界'\n\n[extra]\ntime = '2023年3月10日'\n"
    );
}

#[test]
fn values_that_are_no_text_are_passed_over() {
    let head = "title = 1\ndescription = \"d\"\nextra = \"e\"\n";
    assert_eq!(translatable_fields(head), Ok(vec!["d".to_string()]));
    let head = "[extra]\ntime = 5\nplace = \"here\"\n";
    assert_eq!(translatable_fields(head), Ok(Vec::new()));
    assert_eq!(translate_toml(head, &Vec::new()).unwrap(), "[extra]\nplace = 'here'\ntime = 5\n");
}

#[test]
fn fewer_translations_than_texts() {
    let head = "description = \"d\"\ntitle = \"t\"\n";
    assert_eq!(
        translate_toml(head, &vec!["D".to_string()]).unwrap(),
        "description = 'D'\ntitle = 't'\n"
    );
    assert_eq!(
        translate_toml(head, &vec!["D".to_string(), "T".to_string(), "more".to_string()]).unwrap(),
        "description = 'D'\ntitle = 'T'\n"
    );
}

#[test]
fn a_head_that_is_no_toml() {
    assert_eq!(translatable_fields("title = "), Err(TomlError::Invalid));
    assert_eq!(translate_toml("title = ", &Vec::new()), Err(TomlError::Invalid));
}

#[test]
fn budget_of_the_account() {
    assert_eq!(api_availability_check(0, "This is a test."), Ok(true));
    assert_eq!(api_availability_check(499_985, "This is a test."), Ok(true));
    assert_eq!(
        api_availability_check(499_986, "This is a test."),
        Err(QuotaExceeded { used: 499_986, limit: 500_000 })
    );
    assert_eq!(api_availability_check(500_000, ""), Ok(true));
    assert_eq!(
        api_availability_check(500_001, ""),
        Err(QuotaExceeded { used: 500_001, limit: 500_000 })
    );
    assert_eq!(api_availability_check(-1, ""), Err(QuotaExceeded { used: -1, limit: 500_000 }));
    // the length is that of the bytes
    assert_eq!(api_availability_check(499_998, "é"), Ok(true));
    assert!(api_availability_check(499_999, "é").is_err());
}

#[test]
fn a_translated_file_with_head_and_comment() {
    let written = compose_file(
        "+++",
        &Some("title = \"こんにちは世界\"\n".to_string()),
        "これはテストです。",
        "This is a test.",
        true,
    );
    let expected_content = "+++\ntitle = \"こんにちは世界\"\n+++\nこれはテストです。\n<!---\nThis is a test.\n-->\n";
    assert_eq!(written, expected_content);
}

#[test]
fn the_original_in_a_comment() {
    assert_eq!(compose_file("---", &None, "b", "a --> b ---> c", true), "b\n<!---\na -!-> b --!-> c\n-->\n");
    assert_eq!(compose_file("---", &None, "b", "a --> b", false), "b");
    assert_eq!(compose_file("---", &Some("x = 1\n".to_string()), "b", "a", false), "---\nx = 1\n---\nb");
    assert_eq!(compose_file("+++", &None, "", "", false), "");
    assert_eq!(compose_file("+++", &Some("x = 1".to_string()), "b", "a", false), "+++\nx = 1\n+++\nb");
    assert_eq!(compose_file("+++", &Some(String::new()), "b", "a", false), "+++\n+++\nb");
}

#[test]
fn markdown_by_extension() {
    assert!(is_md_file(&Some("md".to_string())));
    assert!(is_md_file(&Some("mdx".to_string())));
    assert!(!is_md_file(&Some("MD".to_string())));
    assert!(!is_md_file(&Some("toml".to_string())));
    assert!(!is_md_file(&None));
}

#[test]
fn hidden_files() {
    assert!(is_hidden(&Some(".git".to_string())));
    assert!(!is_hidden(&Some("a.md".to_string())));
    assert!(!is_hidden(&Some("".to_string())));
    assert!(!is_hidden(&None));
}

#[test]
fn extensions() {
    let ext = Some(vec!["md".to_string(), "mdx".to_string()]);
    assert_eq!(check_extension(&ext, &Some("a.md".to_string())), Ok(true));
    assert_eq!(check_extension(&ext, &Some("a.mdx".to_string())), Ok(true));
    assert_eq!(check_extension(&ext, &Some("a.txt".to_string())), Ok(false));
    assert_eq!(check_extension(&ext, &Some("md".to_string())), Ok(false));
    assert_eq!(check_extension(&ext, &None), Ok(false));
    assert_eq!(check_extension(&None, &Some("a.txt".to_string())), Ok(true));
    assert_eq!(check_extension(&None, &None), Ok(true));
    let broken = Some(vec!["(".to_string()]);
    assert_eq!(check_extension(&broken, &Some("a.md".to_string())), Err(InvalidPattern));
    assert_eq!(check_extension(&broken, &None), Err(InvalidPattern));
}

fn entry(path: u32, name: &str) -> Entry<u32> {
    Entry { path, file_name: Some(name.to_string()) }
}

#[test]
fn files_of_a_walk() {
    let deepl = Deepl::with_config(SETTINGS).unwrap();
    let found = vec![
        entry(0, "docs"),
        entry(1, "a.md"),
        entry(2, ".hidden.md"),
        entry(3, "b.txt"),
        Entry { path: 4, file_name: None },
        entry(5, "c.mdx"),
    ];
    assert_eq!(new(&deepl, found, false), Ok(vec![1, 5]));
    let found = vec![entry(1, "a.md"), entry(2, ".hidden.md"), entry(3, "b.txt")];
    assert_eq!(new(&deepl, found, true), Ok(vec![1, 2]));
    let none: Vec<Entry<u32>> = Vec::new();
    assert_eq!(new(&deepl, none, true), Ok(Vec::new()));
}

#[test]
fn files_of_a_walk_without_extensions() {
    let text = "api_key = \"k\"\nproject_name = \"p\"\nbackup_original_text = false\n[glossaries]\n[target_extensions]\nother = [\"md\"]\n";
    let deepl = Deepl { config: DeeplConfig::with_config(text).unwrap() };
    let found = vec![entry(1, "a.md"), entry(2, ".hidden"), entry(3, "b.txt")];
    assert_eq!(new(&deepl, found, false), Ok(vec![1, 3]));
}

#[test]
fn files_of_a_walk_with_a_broken_pattern() {
    let text = "api_key = \"k\"\nproject_name = \"p\"\nbackup_original_text = false\n[glossaries]\n[target_extensions]\np = [\"(\"]\n";
    let deepl = Deepl::with_config(text).unwrap();
    assert_eq!(new(&deepl, vec![entry(1, "a.md")], false), Err(InvalidPattern));
    // a hidden file is passed over before the pattern is looked at
    assert_eq!(new(&deepl, vec![entry(1, ".a.md")], false), Ok(Vec::new()));
}

#[test]
fn decimal_notation() {
    assert_eq!(to_decimal(0), chars("0"));
    assert_eq!(to_decimal(7), chars("7"));
    assert_eq!(to_decimal(1234567890), chars("1234567890"));
    assert_eq!(to_decimal(u64::MAX as u128), chars("18446744073709551615"));
    assert_eq!(to_decimal(u128::MAX), chars("340282366920938463463374607431768211455"));
    assert_eq!(from_decimal(&chars("0")), Some(0));
    assert_eq!(from_decimal(&chars("007")), Some(7));
    assert_eq!(from_decimal(&chars("18446744073709551615")), Some(u64::MAX));
    assert_eq!(from_decimal(&chars("18446744073709551616")), None);
    assert_eq!(from_decimal(&chars("")), None);
    assert_eq!(from_decimal(&chars("12a")), None);
    assert_eq!(from_decimal(&chars("-1")), None);
}
