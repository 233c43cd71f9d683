//! The translation service: languages, settings, and the requests that the
//! service is asked with. The requests are values; sending them is left to
//! the caller.

use vstd::prelude::*;
use crate::config::{
    ConfigError, DeeplConfig, first_value_under, glossary_key, optional_list_under, ReadFailure,
    search_from, settings_in,
};
use crate::entries::{entries_tsv, glossary_tsv, string_pairs};
use crate::ignore::{apply_ignore, apply_ignore_list, strip, strip_ignore_markers};
use crate::text::{
    append_str, chars_of, lines, lower, same_chars, spells, string_of, text_view, to_lower,
};

verus! {

/// The number of characters that one account may have translated.
pub const MAX_TRANSLATE_LENGTH: usize = 500_000;

/// A language that the service knows.
#[derive(Clone, Copy, Debug, PartialEq, Eq)]
pub enum Language {
    De,
    Es,
    En,
    Fr,
    It,
    Ja,
    Nl,
    Pt,
    PtBr,
    Ru,
}

/// A word that names no language, or no formality.
#[derive(Clone, Copy, Debug, PartialEq, Eq)]
pub struct InvalidInput;

impl Language {
    /// The code by which the service knows the language.
    pub open spec fn langcode(self) -> Seq<char> {
        match self {
            Language::De => "de"@,
            Language::Es => "es"@,
            Language::En => "en"@,
            Language::Fr => "fr"@,
            Language::It => "it"@,
            Language::Ja => "ja"@,
            Language::Nl => "nl"@,
            Language::Pt => "pt-br"@,
            Language::PtBr => "pt-br"@,
            Language::Ru => "ru"@,
        }
    }

    /// The language that a word names, letter case aside.
    pub open spec fn named(word: Seq<char>) -> Option<Language> {
        let w = lower(word);
        if w == "de"@ {
            Some(Language::De)
        } else if w == "es"@ {
            Some(Language::Es)
        } else if w == "en"@ {
            Some(Language::En)
        } else if w == "fr"@ {
            Some(Language::Fr)
        } else if w == "it"@ {
            Some(Language::It)
        } else if w == "ja"@ {
            Some(Language::Ja)
        } else if w == "nl"@ {
            Some(Language::Nl)
        } else if w == "pt"@ {
            Some(Language::Pt)
        } else if w == "pt-br"@ {
            Some(Language::PtBr)
        } else if w == "ru"@ {
            Some(Language::Ru)
        } else {
            None
        }
    }

    /// The code by which the service knows the language.
    pub fn as_langcode(&self) -> (r: &'static str)
        ensures
            r@ == self.langcode(),
    {
        match self {
            Language::De => "de",
            Language::Es => "es",
            Language::En => "en",
            Language::Fr => "fr",
            Language::It => "it",
            Language::Ja => "ja",
            Language::Nl => "nl",
            Language::Pt => "pt-br",
            Language::PtBr => "pt-br",
            Language::Ru => "ru",
        }
    }

    /// Reads the name of a language, in capitals or small letters.
    pub fn from_str(s: &str) -> (r: Result<Language, InvalidInput>)
        ensures
            match Language::named(s@) {
                Some(l) => r == Ok::<Language, InvalidInput>(l),
                None => r is Err,
            },
    {
        let w = to_lower(&chars_of(s));
        if spells(&w, "de") {
            Ok(Language::De)
        } else if spells(&w, "es") {
            Ok(Language::Es)
        } else if spells(&w, "en") {
            Ok(Language::En)
        } else if spells(&w, "fr") {
            Ok(Language::Fr)
        } else if spells(&w, "it") {
            Ok(Language::It)
        } else if spells(&w, "ja") {
            Ok(Language::Ja)
        } else if spells(&w, "nl") {
            Ok(Language::Nl)
        } else if spells(&w, "pt") {
            Ok(Language::Pt)
        } else if spells(&w, "pt-br") {
            Ok(Language::PtBr)
        } else if spells(&w, "ru") {
            Ok(Language::Ru)
        } else {
            Err(InvalidInput)
        }
    }
}

/// How formal the translation is to be.
#[derive(Clone, Copy, Debug, PartialEq, Eq)]
pub enum Formality {
    Default,
    Formal,
    Informal,
}

impl Formality {
    /// The word by which the service knows the formality.
    pub open spec fn word(self) -> Seq<char> {
        match self {
            Formality::Default => "default"@,
            Formality::Formal => "prefer_more"@,
            Formality::Informal => "prefer_less"@,
        }
    }

    /// The formality that a word names, letter case aside.
    pub open spec fn named(word: Seq<char>) -> Option<Formality> {
        let w = lower(word);
        if w == "default"@ {
            Some(Formality::Default)
        } else if w == "formal"@ {
            Some(Formality::Formal)
        } else if w == "informal"@ {
            Some(Formality::Informal)
        } else {
            None
        }
    }

    /// The word by which the service knows the formality.
    pub fn to_str(&self) -> (r: &'static str)
        ensures
            r@ == self.word(),
    {
        match self {
            Formality::Default => "default",
            Formality::Formal => "prefer_more",
            Formality::Informal => "prefer_less",
        }
    }

    /// Reads the name of a formality, in capitals or small letters.
    pub fn from_str(s: &str) -> (r: Result<Formality, InvalidInput>)
        ensures
            match Formality::named(s@) {
                Some(f) => r == Ok::<Formality, InvalidInput>(f),
                None => r is Err,
            },
    {
        let w = to_lower(&chars_of(s));
        if spells(&w, "default") {
            Ok(Formality::Default)
        } else if spells(&w, "formal") {
            Ok(Formality::Formal)
        } else if spells(&w, "informal") {
            Ok(Formality::Informal)
        } else {
            Err(InvalidInput)
        }
    }
}

impl Default for Formality {
    fn default() -> (r: Formality)
        ensures
            r == Formality::Default,
    {
        Formality::Default
    }
}

/// The translator: the service with its settings.
#[derive(Clone, Debug)]
pub struct Deepl {
    pub config: DeeplConfig,
}

/// How a request is made.
#[derive(Clone, Copy, Debug, PartialEq, Eq)]
pub enum Method {
    Get,
    Post,
    Delete,
}

/// A request to the service: where it goes, the line that shows the key,
/// and the fields of its form.
#[derive(Clone, Debug, PartialEq, Eq)]
pub struct Request {
    pub method: Method,
    pub url: String,
    pub authorization: String,
    pub form: Vec<(String, String)>,
}

/// Mathematical view of a request.
pub ghost struct RequestView {
    pub method: Method,
    pub url: Seq<char>,
    pub authorization: Seq<char>,
    pub form: Seq<(Seq<char>, Seq<char>)>,
}

/// The views of the fields of a form.
pub open spec fn fields_view(form: Seq<(String, String)>) -> Seq<(Seq<char>, Seq<char>)> {
    Seq::new(form.len(), |i: int| (form[i].0@, form[i].1@))
}

impl View for Request {
    type V = RequestView;

    open spec fn view(&self) -> RequestView {
        RequestView {
            method: self.method,
            url: self.url@,
            authorization: self.authorization@,
            form: fields_view(self.form@),
        }
    }
}

/// A glossary as the service describes it.
#[derive(Clone, Debug, PartialEq, Eq)]
pub struct DeeplGlossary {
    pub glossary_id: String,
    pub name: String,
    pub ready: bool,
    pub source_lang: String,
    pub target_lang: String,
    pub creation_time: String,
    pub entry_count: i32,
}

/// The fields that every request for a translation has.
pub open spec fn common_fields(from: Language, to: Language, formality: Formality) -> Seq<
    (Seq<char>, Seq<char>),
> {
    seq![
        ("source_lang"@, from.langcode()),
        ("target_lang"@, to.langcode()),
        ("preserve_formatting"@, "1"@),
        ("formality"@, formality.word()),
    ]
}

/// The field that names the glossary, where one is used.
pub open spec fn glossary_field(id: Option<Seq<char>>) -> Seq<(Seq<char>, Seq<char>)> {
    match id {
        Some(g) => seq![("glossary_id"@, g)],
        None => Seq::empty(),
    }
}

/// One field for each text that is to be translated.
pub open spec fn text_fields(texts: Seq<Seq<char>>) -> Seq<(Seq<char>, Seq<char>)> {
    Seq::new(texts.len(), |i: int| ("text"@, texts[i]))
}

/// The fields that tell the service how to treat the tags of markup: the
/// elements whose content it leaves alone, those whose content is a
/// sentence of its own, and those that stand inside a sentence.
pub open spec fn markup_fields() -> Seq<(Seq<char>, Seq<char>)> {
    seq![
        ("tag_handling"@, "xml"@),
        ("ignore_tags"@, "header,embed,object,pre,code,style,script,ignore-tag"@),
        ("splitting_tags"@, "blockquote,li,dt,dd,p,h1,h2,h3,h4,h5,h6,th,td,heading"@),
        ("non_splitting_tags"@, "embed,em,strong,del,a,img"@),
    ]
}

/// The identifier of the last glossary of the list that has the name.
pub open spec fn glossary_named(glossaries: Seq<DeeplGlossary>, name: Seq<char>) -> Option<Seq<char>>
    decreases glossaries.len(),
{
    if glossaries.len() == 0 {
        None
    } else if glossaries.last().name@ == name {
        Some(glossaries.last().glossary_id@)
    } else {
        glossary_named(glossaries.drop_last(), name)
    }
}

/// The glossary that a translation of markup uses: that of the project,
/// where the service has one under the target's name and one under the
/// project's name, and the latter's identifier is not empty.
pub open spec fn markup_glossary(
    glossaries: Seq<DeeplGlossary>,
    target: Seq<char>,
    project: Seq<char>,
) -> Option<Seq<char>> {
    if glossary_named(glossaries, target) is Some {
        match glossary_named(glossaries, project) {
            Some(id) => if id.len() > 0 {
                Some(id)
            } else {
                None
            },
            None => None,
        }
    } else {
        None
    }
}

/// One field of a form.
pub fn field(name: &str, value: &str) -> (r: (String, String))
    ensures
        r.0@ == name@,
        r.1@ == value@,
{
    (name.to_owned(), value.to_owned())
}

/// Computes `glossary_named`.
pub fn find_glossary(glossaries: &Vec<DeeplGlossary>, name: &str) -> (r: Option<String>)
    ensures
        text_view(r) == glossary_named(glossaries@, name@),
{
    let wanted = chars_of(name);
    let mut i: usize = glossaries.len();
    proof {
        assert(glossaries@.take(i as int) =~= glossaries@);
    }
    while i > 0
        invariant
            i <= glossaries.len(),
            wanted@ == name@,
            glossary_named(glossaries@, name@) == glossary_named(glossaries@.take(i as int), name@),
        decreases i,
    {
        i -= 1;
        proof {
            assert(glossaries@.take(i + 1).last() == glossaries@[i as int]);
            assert(glossaries@.take(i + 1).drop_last() =~= glossaries@.take(i as int));
        }
        let here = chars_of(glossaries[i].name.as_str());
        if same_chars(&here, &wanted) {
            return Some(glossaries[i].glossary_id.clone());
        }
    }
    None
}

/// Computes `markup_glossary`.
pub fn select_glossary(glossaries: &Vec<DeeplGlossary>, target: &str, project: &str) -> (r: Option<
    String,
>)
    ensures
        text_view(r) == markup_glossary(glossaries@, target@, project@),
{
    if find_glossary(glossaries, target).is_none() {
        return None;
    }
    match find_glossary(glossaries, project) {
        Some(id) => {
            if id.as_str().is_empty() {
                None
            } else {
                Some(id)
            }
        },
        None => None,
    }
}

/// The text that the service gave for a single request: the first of its
/// translations, or the empty text where it gave none.
pub open spec fn first_text(texts: Seq<Seq<char>>) -> Seq<char> {
    if texts.len() > 0 {
        texts[0]
    } else {
        Seq::empty()
    }
}

impl Deepl {
    /// The translator with the settings of the first of the files that
    /// exists.
    pub fn new(files: &Vec<Result<String, ReadFailure>>) -> (r: Result<Deepl, ConfigError>)
        ensures
            match search_from(files@, 0) {
                Ok(c) => r is Ok && r->Ok_0.config@ == c,
                Err(e) => r is Err && r->Err_0 == e,
            },
    {
        match DeeplConfig::new(files) {
            Ok(config) => Ok(Deepl { config }),
            Err(e) => Err(e),
        }
    }

    /// The translator with the settings that a TOML text holds.
    pub fn with_config(text: &str) -> (r: Result<Deepl, ConfigError>)
        ensures
            match settings_in(text@) {
                Some(c) => r is Ok && r->Ok_0.config@ == c,
                None => r is Err && r->Err_0 == ConfigError::Invalid,
            },
    {
        match DeeplConfig::with_config(text) {
            Ok(config) => Ok(Deepl { config }),
            Err(e) => Err(e),
        }
    }

    /// What every request of this translator has in common with the given
    /// method, to the given function of the service, with the given form.
    pub open spec fn request_view(
        self,
        method: Method,
        api: Seq<char>,
        form: Seq<(Seq<char>, Seq<char>)>,
    ) -> RequestView {
        RequestView {
            method,
            url: self.config.base_url() + api,
            authorization: "DeepL-Auth-Key "@ + self.config@.api_key,
            form,
        }
    }

    /// The request with the given method, to the given function of the
    /// service, with the given form.
    fn request(&self, method: Method, api: &str, form: Vec<(String, String)>) -> (r: Request)
        ensures
            r@ == self.request_view(method, api@, fields_view(form@)),
    {
        Request {
            method,
            url: self.config.endpoint(api),
            authorization: self.config.authorization(),
            form,
        }
    }

    /// Computes `common_fields`.
    fn common_form(from_lang: Language, to_lang: Language, formality: Formality) -> (r: Vec<
        (String, String),
    >)
        ensures
            fields_view(r@) == common_fields(from_lang, to_lang, formality),
    {
        let mut form: Vec<(String, String)> = Vec::new();
        form.push(field("source_lang", from_lang.as_langcode()));
        form.push(field("target_lang", to_lang.as_langcode()));
        form.push(field("preserve_formatting", "1"));
        form.push(field("formality", formality.to_str()));
        proof {
            assert(fields_view(form@) =~= common_fields(from_lang, to_lang, formality));
        }
        form
    }

    /// The request that asks for the translation of some texts. The
    /// service answers with one translation for each, in their order.
    pub fn translate_strings(
        &self,
        from_lang: Language,
        to_lang: Language,
        formality: Formality,
        body: &Vec<String>,
    ) -> (r: Request)
        ensures
            r@ == self.request_view(
                Method::Post,
                "translate"@,
                common_fields(from_lang, to_lang, formality) + glossary_field(
                    first_value_under(self.config@.glossaries, glossary_key(from_lang, to_lang)),
                ) + text_fields(lines(body@)),
            ),
    {
        let mut form = Deepl::common_form(from_lang, to_lang, formality);
        let glossary = self.config.glossary(from_lang, to_lang);
        let ghost head = common_fields(from_lang, to_lang, formality) + glossary_field(
            text_view(glossary),
        );
        match &glossary {
            Some(id) => {
                form.push(field("glossary_id", id.as_str()));
            },
            None => {},
        }
        proof {
            assert(fields_view(form@) =~= head);
        }
        let mut i: usize = 0;
        while i < body.len()
            invariant
                i <= body.len(),
                fields_view(form@) == head + text_fields(lines(body@)).take(i as int),
            decreases body.len() - i,
        {
            let ghost before = fields_view(form@);
            form.push(field("text", body[i].as_str()));
            proof {
                let all = text_fields(lines(body@));
                assert(fields_view(form@) =~= before.push(("text"@, body@[i as int]@)));
                assert(all.take(i + 1) =~= all.take(i as int).push(all[i as int]));
                assert(fields_view(form@) =~= head + all.take(i + 1));
            }
            i += 1;
        }
        proof {
            assert(text_fields(lines(body@)).take(body@.len() as int) =~= text_fields(lines(body@)));
        }
        self.request(Method::Post, "translate", form)
    }

    /// The request that asks for the translation of one text.
    pub fn translate(
        &self,
        from_lang: Language,
        to_lang: Language,
        formality: Formality,
        body: &str,
    ) -> (r: Request)
        ensures
            r@ == self.request_view(
                Method::Post,
                "translate"@,
                common_fields(from_lang, to_lang, formality) + glossary_field(
                    first_value_under(self.config@.glossaries, glossary_key(from_lang, to_lang)),
                ) + text_fields(seq![body@]),
            ),
    {
        let mut texts: Vec<String> = Vec::new();
        texts.push(body.to_owned());
        proof {
            assert(lines(texts@) =~= seq![body@]);
        }
        self.translate_strings(from_lang, to_lang, formality, &texts)
    }

    /// The text that answers a request for one translation.
    pub fn first_translation(texts: Vec<String>) -> (r: String)
        ensures
            r@ == first_text(lines(texts@)),
    {
        let mut texts = texts;
        if texts.len() > 0 {
            texts.swap_remove(0)
        } else {
            String::new()
        }
    }

    /// The request that asks for the translation of markup. `glossaries`
    /// are the glossaries that the service holds.
    pub fn translate_xml(
        &self,
        from_lang: Language,
        to_lang: Language,
        formality: Formality,
        target_name: &str,
        xml_body: &str,
        glossaries: &Vec<DeeplGlossary>,
    ) -> (r: Request)
        ensures
            r@ == self.request_view(
                Method::Post,
                "translate"@,
                common_fields(from_lang, to_lang, formality) + markup_fields() + glossary_field(
                    markup_glossary(glossaries@, target_name@, self.config@.project_name),
                ) + text_fields(seq![xml_body@]),
            ),
    {
        let mut form = Deepl::common_form(from_lang, to_lang, formality);
        form.push(field("tag_handling", "xml"));
        form.push(field("ignore_tags", "header,embed,object,pre,code,style,script,ignore-tag"));
        form.push(
            field("splitting_tags", "blockquote,li,dt,dd,p,h1,h2,h3,h4,h5,h6,th,td,heading"),
        );
        form.push(field("non_splitting_tags", "embed,em,strong,del,a,img"));
        let glossary = select_glossary(glossaries, target_name, self.config.project());
        match &glossary {
            Some(id) => {
                form.push(field("glossary_id", id.as_str()));
            },
            None => {},
        }
        form.push(field("text", xml_body));
        proof {
            assert(fields_view(form@) =~= common_fields(from_lang, to_lang, formality)
                + markup_fields() + glossary_field(text_view(glossary)) + text_fields(
                seq![xml_body@],
            ));
        }
        self.request(Method::Post, "translate", form)
    }

    /// The request that puts a glossary into the service. The entries are
    /// trimmed; those with an empty term are left out; the rest goes in
    /// the order of the source terms.
    pub fn register_glossaries(
        &self,
        name: &str,
        from_lang: Language,
        to_lang: Language,
        glossaries: &Vec<(String, String)>,
    ) -> (r: Request)
        ensures
            r@ == self.request_view(
                Method::Post,
                "glossaries"@,
                seq![
                    ("name"@, name@),
                    ("source_lang"@, from_lang.langcode()),
                    ("target_lang"@, to_lang.langcode()),
                    ("entries_format"@, "tsv"@),
                    ("entries"@, glossary_tsv(string_pairs(glossaries@))),
                ],
            ),
    {
        let tsv = entries_tsv(glossaries);
        let mut form: Vec<(String, String)> = Vec::new();
        form.push(field("name", name));
        form.push(field("source_lang", from_lang.as_langcode()));
        form.push(field("target_lang", to_lang.as_langcode()));
        form.push(field("entries_format", "tsv"));
        form.push(field("entries", tsv.as_str()));
        proof {
            assert(fields_view(form@) =~= seq![
                ("name"@, name@),
                ("source_lang"@, from_lang.langcode()),
                ("target_lang"@, to_lang.langcode()),
                ("entries_format"@, "tsv"@),
                ("entries"@, glossary_tsv(string_pairs(glossaries@))),
            ]);
        }
        self.request(Method::Post, "glossaries", form)
    }

    /// The request that asks for the glossaries that the service holds.
    pub fn list_glossaries(&self) -> (r: Request)
        ensures
            r@ == self.request_view(Method::Get, "glossaries"@, Seq::empty()),
    {
        let form: Vec<(String, String)> = Vec::new();
        proof {
            assert(fields_view(form@) =~= Seq::<(Seq<char>, Seq<char>)>::empty());
        }
        self.request(Method::Get, "glossaries", form)
    }

    /// The request that removes a glossary from the service.
    pub fn remove_glossary(&self, id: &str) -> (r: Request)
        ensures
            r@ == self.request_view(Method::Delete, "glossaries/"@ + id@, Seq::empty()),
    {
        let form: Vec<(String, String)> = Vec::new();
        let mut api: Vec<char> = Vec::new();
        append_str(&mut api, "glossaries/");
        append_str(&mut api, id);
        proof {
            assert(fields_view(form@) =~= Seq::<(Seq<char>, Seq<char>)>::empty());
            assert(api@ =~= "glossaries/"@ + id@);
        }
        self.request(Method::Delete, string_of(&api).as_str(), form)
    }

    /// The request that asks how many characters the account has used.
    pub fn get_usage(&self) -> (r: Request)
        ensures
            r@ == self.request_view(Method::Get, "usage"@, Seq::empty()),
    {
        let form: Vec<(String, String)> = Vec::new();
        proof {
            assert(fields_view(form@) =~= Seq::<(Seq<char>, Seq<char>)>::empty());
        }
        self.request(Method::Get, "usage", form)
    }

    /// The markup with the phrases that the settings name for the project
    /// wrapped in markers; the markup as it is where they name none.
    pub fn add_ignore_tags(&self, target_name: &str, xml_body: &str) -> (r: String)
        ensures
            r@ == match optional_list_under(self.config@.ignores, target_name@) {
                Some(phrases) => apply_ignore(xml_body@, phrases),
                None => xml_body@,
            },
            strip(r@) == strip(xml_body@),
    {
        match self.config.ignore_phrases(target_name) {
            Some(phrases) => apply_ignore_list(xml_body, &phrases),
            None => xml_body.to_owned(),
        }
    }

    /// The markup without the markers.
    pub fn remove_ignore_tags(&self, body: &str) -> (r: String)
        ensures
            r@ == strip(body@),
    {
        strip_ignore_markers(body)
    }
}

} // verus!
