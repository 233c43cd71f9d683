use cmark_translate::config::{ConfigError, DeeplConfig, ReadFailure};
use cmark_translate::deepl::{
    Deepl, DeeplGlossary, Formality, InvalidInput, Language, Method, MAX_TRANSLATE_LENGTH,
};

const SETTINGS: &str = r#"
api_key = "0123456789:fx"
project_name = "docs"
backup_original_text = true

[target_extensions]
docs = ["md", "mdx"]

[glossaries.docs]
en_ja = "glossary-en-ja"
en_de = "glossary-en-de"

[glossaries.other]
en_fr = "glossary-en-fr"

[ignores]
docs = ["New York", "New"]
"#;

const PRO_SETTINGS: &str = r#"
api_key = "0123456789"
project_name = "docs"
backup_original_text = false

[glossaries]
"#;

fn pair(a: &str, b: &str) -> (String, String) {
    (a.to_string(), b.to_string())
}

#[test]
fn test_deepl_config_with_config() {
    let deepl_config = DeeplConfig::with_config(SETTINGS);
    assert!(deepl_config.is_ok());
}

#[test]
fn settings_are_read() {
    let config = DeeplConfig::with_config(SETTINGS).unwrap();
    assert_eq!(config.project_name, "docs");
    assert!(config.backup_original_text);
    assert!(config.is_free_api_key());
    assert_eq!(
        config.target_extensions,
        Some(vec![("docs".to_string(), vec!["md".to_string(), "mdx".to_string()])])
    );
    assert_eq!(
        config.ignore_phrases("docs"),
        Some(vec!["New York".to_string(), "New".to_string()])
    );
    assert_eq!(config.ignore_phrases("other"), None);
    assert_eq!(config.extensions("docs"), Some(vec!["md".to_string(), "mdx".to_string()]));
    assert_eq!(config.extensions("other"), None);
    assert_eq!(config.authorization(), "DeepL-Auth-Key 0123456789:fx");
}

#[test]
fn settings_that_may_be_left_out() {
    let config = DeeplConfig::with_config(PRO_SETTINGS).unwrap();
    assert!(!config.backup_original_text);
    assert!(!config.is_free_api_key());
    assert_eq!(config.target_extensions, None);
    assert_eq!(config.ignore_phrases("docs"), None);
    assert_eq!(config.glossary(Language::En, Language::Ja), None);
}

#[test]
fn settings_that_are_wrong() {
    assert_eq!(DeeplConfig::with_config("api_key = ").err(), Some(ConfigError::Invalid));
    assert_eq!(DeeplConfig::with_config("").err(), Some(ConfigError::Invalid));
    let no_glossaries = "api_key = \"k\"\nproject_name = \"p\"\nbackup_original_text = true\n";
    assert_eq!(DeeplConfig::with_config(no_glossaries).err(), Some(ConfigError::Invalid));
    let wrong_type = "api_key = 1\nproject_name = \"p\"\nbackup_original_text = true\n[glossaries]\n";
    assert_eq!(DeeplConfig::with_config(wrong_type).err(), Some(ConfigError::Invalid));
    let wrong_list = "api_key = \"k\"\nproject_name = \"p\"\nbackup_original_text = true\n[glossaries]\n[ignores]\np = [1]\n";
    assert_eq!(DeeplConfig::with_config(wrong_list).err(), Some(ConfigError::Invalid));
}

#[test]
fn the_first_file_that_exists_decides() {
    let files = vec![Err(ReadFailure::NotFound), Ok(SETTINGS.to_string())];
    assert_eq!(Deepl::new(&files).unwrap().config.project_name, "docs");
    let files = vec![Ok(PRO_SETTINGS.to_string()), Ok(SETTINGS.to_string())];
    assert!(!Deepl::new(&files).unwrap().config.backup_original_text);
    let files = vec![Err(ReadFailure::NotFound), Err(ReadFailure::NotFound)];
    assert_eq!(Deepl::new(&files).err(), Some(ConfigError::NotFound));
    let files = vec![Err(ReadFailure::Other), Ok(SETTINGS.to_string())];
    assert_eq!(Deepl::new(&files).err(), Some(ConfigError::Unreadable));
    let files = vec![Ok("nothing = 1".to_string()), Ok(SETTINGS.to_string())];
    assert_eq!(Deepl::new(&files).err(), Some(ConfigError::Invalid));
    let files: Vec<Result<String, ReadFailure>> = Vec::new();
    assert_eq!(DeeplConfig::new(&files).err(), Some(ConfigError::NotFound));
}

#[test]
fn language_codes() {
    assert_eq!(Language::De.as_langcode(), "de");
    assert_eq!(Language::Es.as_langcode(), "es");
    assert_eq!(Language::En.as_langcode(), "en");
    assert_eq!(Language::Fr.as_langcode(), "fr");
    assert_eq!(Language::It.as_langcode(), "it");
    assert_eq!(Language::Ja.as_langcode(), "ja");
    assert_eq!(Language::Nl.as_langcode(), "nl");
    assert_eq!(Language::Pt.as_langcode(), "pt-br");
    assert_eq!(Language::PtBr.as_langcode(), "pt-br");
    assert_eq!(Language::Ru.as_langcode(), "ru");
}

#[test]
fn language_names() {
    assert_eq!(Language::from_str("de"), Ok(Language::De));
    assert_eq!(Language::from_str("JA"), Ok(Language::Ja));
    assert_eq!(Language::from_str("Pt"), Ok(Language::Pt));
    assert_eq!(Language::from_str("pt-BR"), Ok(Language::PtBr));
    assert_eq!(Language::from_str("ru"), Ok(Language::Ru));
    assert_eq!(Language::from_str("zz"), Err(InvalidInput));
    assert_eq!(Language::from_str(""), Err(InvalidInput));
    assert_eq!(Language::from_str("pt-br "), Err(InvalidInput));
}

#[test]
fn formality_words() {
    assert_eq!(Formality::Default.to_str(), "default");
    assert_eq!(Formality::Formal.to_str(), "prefer_more");
    assert_eq!(Formality::Informal.to_str(), "prefer_less");
    assert_eq!(Formality::from_str("Formal"), Ok(Formality::Formal));
    assert_eq!(Formality::from_str("informal"), Ok(Formality::Informal));
    assert_eq!(Formality::from_str("DEFAULT"), Ok(Formality::Default));
    assert_eq!(Formality::from_str("prefer_more"), Err(InvalidInput));
    assert_eq!(Formality::default(), Formality::Default);
}

#[test]
fn endpoints() {
    let free = DeeplConfig::with_config(SETTINGS).unwrap();
    assert_eq!(free.endpoint("translate"), "https://api-free.deepl.com/v2/translate");
    let pro = DeeplConfig::with_config(PRO_SETTINGS).unwrap();
    assert_eq!(pro.endpoint("usage"), "https://api.deepl.com/v2/usage");
}

#[test]
fn glossary_of_the_settings() {
    let config = DeeplConfig::with_config(SETTINGS).unwrap();
    assert_eq!(config.glossary(Language::En, Language::Ja), Some("glossary-en-ja".to_string()));
    assert_eq!(config.glossary(Language::En, Language::Fr), Some("glossary-en-fr".to_string()));
    assert_eq!(config.glossary(Language::Ja, Language::En), None);
}

#[test]
fn request_for_texts() {
    let deepl = Deepl::with_config(SETTINGS).unwrap();
    let body = vec!["Hello".to_string(), "World".to_string()];
    let request = deepl.translate_strings(Language::En, Language::Ja, Formality::Formal, &body);
    assert_eq!(request.method, Method::Post);
    assert_eq!(request.url, "https://api-free.deepl.com/v2/translate");
    assert_eq!(request.authorization, "DeepL-Auth-Key 0123456789:fx");
    assert_eq!(
        request.form,
        vec![
            pair("source_lang", "en"),
            pair("target_lang", "ja"),
            pair("preserve_formatting", "1"),
            pair("formality", "prefer_more"),
            pair("glossary_id", "glossary-en-ja"),
            pair("text", "Hello"),
            pair("text", "World"),
        ]
    );
    let request = deepl.translate(Language::Ja, Language::En, Formality::Default, "Hello, World!");
    assert_eq!(
        request.form,
        vec![
            pair("source_lang", "ja"),
            pair("target_lang", "en"),
            pair("preserve_formatting", "1"),
            pair("formality", "default"),
            pair("text", "Hello, World!"),
        ]
    );
}

#[test]
fn answer_to_a_single_request() {
    assert_eq!(Deepl::first_translation(vec!["a".to_string(), "b".to_string()]), "a");
    assert_eq!(Deepl::first_translation(Vec::new()), "");
}

fn glossary(id: &str, name: &str) -> DeeplGlossary {
    DeeplGlossary {
        glossary_id: id.to_string(),
        name: name.to_string(),
        ready: true,
        source_lang: "en".to_string(),
        target_lang: "ja".to_string(),
        creation_time: "2023-03-10T00:00:00Z".to_string(),
        entry_count: 2,
    }
}

#[test]
fn request_for_markup() {
    let deepl = Deepl::with_config(SETTINGS).unwrap();
    let held = vec![glossary("one", "docs"), glossary("two", "other"), glossary("three", "docs")];
    let request = deepl.translate_xml(
        Language::En,
        Language::Ja,
        Formality::Default,
        "docs",
        "<p>Hi</p>",
        &held,
    );
    assert_eq!(request.method, Method::Post);
    assert_eq!(request.url, "https://api-free.deepl.com/v2/translate");
    assert_eq!(
        request.form,
        vec![
            pair("source_lang", "en"),
            pair("target_lang", "ja"),
            pair("preserve_formatting", "1"),
            pair("formality", "default"),
            pair("tag_handling", "xml"),
            pair("ignore_tags", "header,embed,object,pre,code,style,script,ignore-tag"),
            pair("splitting_tags", "blockquote,li,dt,dd,p,h1,h2,h3,h4,h5,h6,th,td,heading"),
            pair("non_splitting_tags", "embed,em,strong,del,a,img"),
            pair("glossary_id", "three"),
            pair("text", "<p>Hi</p>"),
        ]
    );
    let request = deepl.translate_xml(
        Language::En,
        Language::Ja,
        Formality::Default,
        "unknown",
        "<p>Hi</p>",
        &held,
    );
    assert_eq!(request.form.len(), 9);
    let none: Vec<DeeplGlossary> = Vec::new();
    let request =
        deepl.translate_xml(Language::En, Language::Ja, Formality::Default, "docs", "", &none);
    assert_eq!(request.form.len(), 9);
    assert_eq!(request.form[8], pair("text", ""));
}

#[test]
fn requests_without_a_form() {
    let deepl = Deepl::with_config(PRO_SETTINGS).unwrap();
    let request = deepl.list_glossaries();
    assert_eq!(request.method, Method::Get);
    assert_eq!(request.url, "https://api.deepl.com/v2/glossaries");
    assert!(request.form.is_empty());
    let request = deepl.remove_glossary("abc-123");
    assert_eq!(request.method, Method::Delete);
    assert_eq!(request.url, "https://api.deepl.com/v2/glossaries/abc-123");
    let request = deepl.get_usage();
    assert_eq!(request.method, Method::Get);
    assert_eq!(request.url, "https://api.deepl.com/v2/usage");
    assert_eq!(request.authorization, "DeepL-Auth-Key 0123456789");
}

#[test]
fn phrases_of_the_project_are_wrapped() {
    let deepl = Deepl::with_config(SETTINGS).unwrap();
    let wrapped = deepl.add_ignore_tags("docs", "<p>New York City</p>");
    assert_eq!(wrapped, "<p><ignore-tag>New York</ignore-tag> City</p>");
    assert_eq!(deepl.remove_ignore_tags(&wrapped), "<p>New York City</p>");
    assert_eq!(deepl.add_ignore_tags("other", "<p>New York City</p>"), "<p>New York City</p>");
}

#[test]
fn the_limit_of_an_account() {
    assert_eq!(MAX_TRANSLATE_LENGTH, 500_000);
}

#[test]
fn test_deepl_with_config() {
    let deepl = Deepl::with_config(SETTINGS);
    assert!(deepl.is_ok());
}
