//! The steps of translating a document that need no service: the check of
//! the account's budget, the head and the body of a file, and the text
//! that is written when the translation is there.

use vstd::prelude::*;
use crate::codec::{decode, decoded, encode, encoded};
use crate::config::optional_list_under;
use crate::deepl::{Deepl, MAX_TRANSLATE_LENGTH};
use crate::frontmatter::{file_parts, read_cmark_with_frontmatter};
use crate::ignore::{apply_ignore, strip};
use crate::markdown::reader::document_of;
use crate::markdown::render::markdown_of;
use crate::markup::reader::DecodeError;
use crate::text::{
    append_str, chars_of, lemma_occurs_at_skip, matches_at, occurs_at, spells, string_of, text_view,
};

verus! {

/// The account has too few characters left for a text.
#[derive(Clone, Copy, Debug, PartialEq, Eq)]
pub struct QuotaExceeded {
    /// The characters that the account has used.
    pub used: i32,
    /// The characters that the account may use.
    pub limit: usize,
}

/// The length of a text in the bytes of its UTF-8 form.
pub open spec fn byte_len(text: Seq<char>) -> usize {
    vstd::utf8::encode_utf8(text).len() as usize
}

/// Whether an account that has used `used` characters can take a text of
/// `length` bytes: it has not used more than the limit, and what is left
/// of the limit is at least the length.
pub open spec fn within_budget(used: int, length: int) -> bool {
    0 <= used <= MAX_TRANSLATE_LENGTH && length <= MAX_TRANSLATE_LENGTH - used
}

/// The outcome of the check of the budget.
pub open spec fn budget_check(used: i32, length: usize) -> Result<bool, QuotaExceeded> {
    if within_budget(used as int, length as int) {
        Ok(true)
    } else {
        Err(QuotaExceeded { used, limit: MAX_TRANSLATE_LENGTH })
    }
}

/// Checks that the account has enough characters left for a text, before
/// the text is sent.
pub fn api_availability_check(used_chars: i32, text: &str) -> (r: Result<bool, QuotaExceeded>)
    ensures
        r == budget_check(used_chars, byte_len(text@)),
{
    let length = text.len();
    if used_chars >= 0 && used_chars as usize <= MAX_TRANSLATE_LENGTH && length
        <= MAX_TRANSLATE_LENGTH - used_chars as usize {
        Ok(true)
    } else {
        Err(QuotaExceeded { used: used_chars, limit: MAX_TRANSLATE_LENGTH })
    }
}

/// The end of a comment.
pub open spec fn comment_end() -> Seq<char> {
    seq!['-', '-', '>']
}

/// What stands for the end of a comment inside a comment.
pub open spec fn comment_end_defused() -> Seq<char> {
    seq!['-', '!', '-', '>']
}

/// `s` with each end of a comment defused, from left to right.
pub open spec fn comment_safe(s: Seq<char>) -> Seq<char>
    decreases s.len(),
{
    if s.len() == 0 {
        Seq::empty()
    } else if occurs_at(s, 0, comment_end()) {
        comment_end_defused() + comment_safe(s.skip(3))
    } else {
        seq![s[0]] + comment_safe(s.skip(1))
    }
}

/// A text that ends with a line feed: the text itself where it is empty
/// or ends with one, and the text with a line feed behind it otherwise.
pub open spec fn closed_line(text: Seq<char>) -> Seq<char> {
    if text.len() == 0 || text.last() == '\n' {
        text
    } else {
        text + seq!['\n']
    }
}

/// The head of a file between its delimiters, each on a line of its own;
/// nothing where the file has no head.
pub open spec fn head_part(delimiter: Seq<char>, frontmatter: Option<Seq<char>>) -> Seq<char> {
    match frontmatter {
        Some(f) => delimiter + seq!['\n'] + closed_line(f) + delimiter + seq!['\n'],
        None => Seq::empty(),
    }
}

/// The original text in a comment; nothing where it is not kept.
pub open spec fn backup_part(original: Seq<char>, backup: bool) -> Seq<char> {
    if backup {
        "\n<!---\n"@ + comment_safe(original) + "\n-->\n"@
    } else {
        Seq::empty()
    }
}

/// The text of the translated file: the head between its delimiters, the
/// translated body, and the original body in a comment where it is kept.
pub open spec fn composed(
    delimiter: Seq<char>,
    frontmatter: Option<Seq<char>>,
    translated: Seq<char>,
    original: Seq<char>,
    backup: bool,
) -> Seq<char> {
    head_part(delimiter, frontmatter) + translated + backup_part(original, backup)
}

/// Appends `comment_safe(s)` to `out`.
pub fn append_comment_safe(out: &mut Vec<char>, s: &Vec<char>)
    ensures
        final(out)@ == old(out)@ + comment_safe(s@),
{
    let end = vec!['-', '-', '>'];
    proof {
        assert(end@ =~= comment_end());
        assert(s@.skip(0) =~= s@);
    }
    let mut i: usize = 0;
    while i < s.len()
        invariant
            i <= s.len(),
            end@ == comment_end(),
            out@ + comment_safe(s@.skip(i as int)) == old(out)@ + comment_safe(s@),
        decreases s.len() - i,
    {
        let ghost before = out@;
        let ghost rest = s@.skip(i as int);
        proof {
            lemma_occurs_at_skip(s@, i as int, comment_end());
        }
        if matches_at(s, i, &end) {
            out.push('-');
            out.push('!');
            out.push('-');
            out.push('>');
            proof {
                assert(rest.skip(3) =~= s@.skip(i + 3));
                assert(out@ =~= before + comment_end_defused());
                assert(out@ + comment_safe(s@.skip(i + 3)) =~= before + comment_safe(rest));
            }
            i += 3;
        } else {
            out.push(s[i]);
            proof {
                assert(rest.skip(1) =~= s@.skip(i + 1));
                assert(out@ + comment_safe(s@.skip(i + 1)) =~= before + comment_safe(rest));
            }
            i += 1;
        }
    }
    proof {
        assert(out@ + comment_safe(s@.skip(s@.len() as int)) =~= out@);
    }
}

/// The text that is written for a translated file.
pub fn compose_file(
    delimiter: &str,
    frontmatter: &Option<String>,
    translated: &str,
    original: &str,
    backup: bool,
) -> (r: String)
    ensures
        r@ == composed(delimiter@, text_view(*frontmatter), translated@, original@, backup),
{
    let mut out: Vec<char> = Vec::new();
    match frontmatter {
        Some(f) => {
            append_str(&mut out, delimiter);
            out.push('\n');
            let head = chars_of(f.as_str());
            crate::text::append_chars(&mut out, &head);
            if head.len() > 0 && head[head.len() - 1] != '\n' {
                out.push('\n');
            }
            append_str(&mut out, delimiter);
            out.push('\n');
            proof {
                assert(out@ =~= head_part(delimiter@, text_view(*frontmatter)));
            }
        },
        None => {
            proof {
                assert(out@ =~= head_part(delimiter@, text_view(*frontmatter)));
            }
        },
    }
    append_str(&mut out, translated);
    let ghost before = out@;
    if backup {
        append_str(&mut out, "\n<!---\n");
        append_comment_safe(&mut out, &chars_of(original));
        append_str(&mut out, "\n-->\n");
    }
    proof {
        assert(out@ =~= before + backup_part(original@, backup));
    }
    string_of(&out)
}

/// Whether the extension of a file says that it is Markdown: `md` or
/// `mdx`.
pub open spec fn markdown_extension(extension: Option<Seq<char>>) -> bool {
    match extension {
        Some(e) => e == "md"@ || e == "mdx"@,
        None => false,
    }
}

/// Whether a file is Markdown by its extension. The head of such a file
/// is not translated.
pub fn is_md_file(extension: &Option<String>) -> (r: bool)
    ensures
        r == markdown_extension(text_view(*extension)),
{
    match extension {
        Some(e) => {
            let v = chars_of(e.as_str());
            spells(&v, "md") || spells(&v, "mdx")
        },
        None => false,
    }
}

/// The markup that is sent for a text of Markdown: the text encoded
/// inside a root element, with the phrases that the settings name for the
/// project wrapped in markers.
pub open spec fn markup_to_send(deepl: Deepl, markdown: Seq<char>) -> Seq<char> {
    match optional_list_under(deepl.config@.ignores, deepl.config@.project_name) {
        Some(phrases) => apply_ignore(encoded(markdown, true), phrases),
        None => encoded(markdown, true),
    }
}

/// The Markdown for the markup that came back: the markup without the
/// markers, decoded.
pub open spec fn markdown_received(markup: Seq<char>) -> Option<Seq<char>> {
    decoded(strip(markup), true)
}

/// The first step of translating a text of Markdown: the markup that is
/// sent to the service.
pub fn prepare_cmark(deepl: &Deepl, cmark_text: &str) -> (r: String)
    ensures
        r@ == markup_to_send(*deepl, cmark_text@),
        markdown_received(r@) == Some(markdown_of(document_of(cmark_text@))),
{
    proof {
        crate::laws::lemma_untranslated_round_trip(*deepl, cmark_text@);
    }
    let xml = encode(cmark_text, true);
    deepl.add_ignore_tags(deepl.config.project(), xml.as_str())
}

/// The last step of translating a text of Markdown: the Markdown for the
/// markup that the service gave back. Markup that is not well-formed is
/// refused.
pub fn translate_cmark(deepl: &Deepl, xml_translated: &str) -> (r: Result<String, DecodeError>)
    ensures
        match markdown_received(xml_translated@) {
            Some(text) => r is Ok && r->Ok_0@ == text,
            None => r == Err::<String, DecodeError>(DecodeError::Malformed),
        },
{
    let xml = deepl.remove_ignore_tags(xml_translated);
    decode(xml.as_str(), true)
}

/// The text that is written for a file once its body is translated: the
/// head that is handed in between the delimiters of the file, the
/// translated body, and the body of the file in a comment where the
/// settings ask for it. `head` is the head of the file, translated or not,
/// and nothing for a file without one.
pub fn translate_cmark_file(
    deepl: &Deepl,
    text: &str,
    head: &Option<String>,
    translated: &str,
) -> (r: String)
    ensures
        r@ == composed(
            file_parts(text@).1,
            text_view(*head),
            translated@,
            file_parts(text@).0,
            deepl.config@.backup_original_text,
        ),
{
    let parts = read_cmark_with_frontmatter(text);
    compose_file(
        parts.1.as_str(),
        head,
        translated,
        parts.0.as_str(),
        deepl.config.keeps_original(),
    )
}

} // verus!
