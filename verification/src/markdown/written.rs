//! Text that was written with backslashes is read back as the text.

use vstd::prelude::*;
use crate::markdown::chars::{is_gap, is_letter, is_mark, is_word, repeat_len};
use crate::markdown::inline::{
    bracket_end, emphasis_at, flush, html_at, image_at, leaf_at, link_at, literal_len, nested_at,
    opener_at, scan, strike_at, tag_end,
};
use crate::markdown::render::{gap_after, gap_before, needs_backslash, text_from};
use crate::model::InlineView;

verus! {

/// A text on one line: it holds no line feed.
pub open spec fn one_line_text(s: Seq<char>) -> bool {
    forall|k: int| 0 <= k < s.len() ==> #[trigger] s[k] != '\n'
}

/// How the character at index `i` of a text is written: with a backslash
/// before it where one is needed.
pub open spec fn unit(s: Seq<char>, i: int) -> Seq<char> {
    if needs_backslash(s, i, false) {
        seq!['\\', s[i]]
    } else {
        seq![s[i]]
    }
}

/// How the first `i` characters of a text are written.
pub open spec fn written_before(s: Seq<char>, i: int) -> Seq<char>
    decreases i,
{
    if i <= 0 || i > s.len() {
        Seq::empty()
    } else {
        written_before(s, i - 1) + unit(s, i - 1)
    }
}

/// A text as it is written.
pub open spec fn written(s: Seq<char>) -> Seq<char> {
    text_from(s, 0, false)
}

/// The index at which the character at index `i` of a text begins in the
/// written text.
pub open spec fn place(s: Seq<char>, i: int) -> int {
    written_before(s, i).len() as int
}

/// A character with a backslash before it is a punctuation mark.
pub proof fn lemma_escaped_is_mark(s: Seq<char>, i: int)
    requires
        0 <= i < s.len(),
        needs_backslash(s, i, false),
    ensures
        is_mark(s[i]),
        s[i] == '\\' || s[i] == '`' || s[i] == '*' || s[i] == '_' || s[i] == '~' || s[i] == ']'
            || s[i] == '<',
{
}

/// The written text is what is written before an index and what is
/// written from the index on.
pub proof fn lemma_written_split(s: Seq<char>, i: int)
    requires
        0 <= i <= s.len(),
    ensures
        written(s) == written_before(s, i) + text_from(s, i, false),
    decreases i,
{
    if i == 0 {
        assert(written_before(s, 0) + written(s) =~= written(s));
    } else {
        lemma_written_split(s, i - 1);
        let before = written_before(s, i - 1);
        assert(text_from(s, i - 1, false) =~= unit(s, i - 1) + text_from(s, i, false));
        assert(before + (unit(s, i - 1) + text_from(s, i, false)) =~= (before + unit(s, i - 1))
            + text_from(s, i, false));
    }
}

/// The characters of the written text at the place of a character: the
/// character itself, behind a backslash where one is needed; and before
/// the place the character before.
pub proof fn lemma_written_at(s: Seq<char>, i: int)
    requires
        0 <= i < s.len(),
    ensures
        0 <= place(s, i),
        place(s, i + 1) <= written(s).len(),
        place(s, i + 1) == place(s, i) + unit(s, i).len(),
        needs_backslash(s, i, false) ==> written(s)[place(s, i)] == '\\' && written(s)[place(s, i)
            + 1] == s[i],
        !needs_backslash(s, i, false) ==> written(s)[place(s, i)] == s[i],
        written(s)[place(s, i + 1) - 1] == s[i],
        i + 1 == s.len() ==> place(s, i + 1) == written(s).len(),
{
    lemma_written_split(s, i);
    lemma_written_split(s, i + 1);
    let t = written(s);
    let before = written_before(s, i);
    let u = unit(s, i);
    assert(written_before(s, i + 1) == before + u);
    let rest = text_from(s, i, false);
    assert(rest =~= u + text_from(s, i + 1, false));
    assert(t[place(s, i)] == rest[0]);
    assert(rest[0] == u[0]);
    if needs_backslash(s, i, false) {
        assert(t[place(s, i) + 1] == rest[1]);
        assert(rest[1] == u[1]);
    }
    let upto = written_before(s, i + 1);
    assert(t[place(s, i + 1) - 1] == upto[upto.len() - 1]);
    assert(upto[upto.len() - 1] == u[u.len() - 1]);
    if i + 1 == s.len() {
        assert(text_from(s, i + 1, false) =~= Seq::<char>::empty());
    }
}

/// The first character at the place of a character is a backslash or the
/// character itself, and the character itself where it is no mark.
pub proof fn lemma_written_first(s: Seq<char>, i: int)
    requires
        0 <= i < s.len(),
    ensures
        written(s)[place(s, i)] == '\\' || written(s)[place(s, i)] == s[i],
        !is_mark(s[i]) ==> written(s)[place(s, i)] == s[i] && !needs_backslash(s, i, false),
        place(s, i) < written(s).len(),
{
    lemma_written_at(s, i);
    if needs_backslash(s, i, false) {
        lemma_escaped_is_mark(s, i);
    }
}

/// Where no tag ends in a text from an index on, none ends in the written
/// text from the place of the index on.
pub proof fn lemma_tag_end_written(s: Seq<char>, i: int)
    requires
        0 <= i <= s.len(),
        tag_end(s, i) < 0,
    ensures
        tag_end(written(s), place(s, i)) < 0,
    decreases s.len() - i,
{
    let t = written(s);
    if i < s.len() {
        lemma_written_at(s, i);
        let j = place(s, i);
        if s[i] == '<' {
            if needs_backslash(s, i, false) {
                assert(t[j] == '\\');
                assert(t[j + 1] == '<');
                assert(tag_end(t, j + 1) < 0);
            }
        } else {
            assert(s[i] != '>');
            lemma_tag_end_written(s, i + 1);
            if needs_backslash(s, i, false) {
                assert(t[j] == '\\');
                assert(t[j + 1] == s[i]);
                assert(tag_end(t, j + 1) == tag_end(t, j + 2));
            }
        }
    } else {
        lemma_written_split(s, i);
        assert(text_from(s, i, false) =~= Seq::<char>::empty());
        assert(place(s, i) == t.len());
    }
}

/// The bracket that closes one in the written text, searched from the
/// place of an index, stands at the place of a `]` of the text that has no
/// backslash before it, if there is one at all.
pub proof fn lemma_bracket_end_written(s: Seq<char>, i: int, open: nat)
    requires
        0 <= i <= s.len(),
        one_line_text(s),
    ensures
        bracket_end(written(s), place(s, i), open) < 0 || exists|k: int|
            i <= k < s.len() && #[trigger] place(s, k) == bracket_end(
                written(s),
                place(s, i),
                open,
            ) && s[k] == ']' && !needs_backslash(s, k, false),
    decreases s.len() - i,
{
    let t = written(s);
    let j = place(s, i);
    if i < s.len() {
        lemma_written_at(s, i);
        let c = s[i];
        if needs_backslash(s, i, false) {
            // a backslash and the character: both are passed over
            assert(t[j] == '\\');
            lemma_bracket_end_written(s, i + 1, open);
            let r = bracket_end(t, j + 2, open);
            assert(bracket_end(t, j, open) == r);
            if r >= 0 {
                let k = choose|k: int|
                    i + 1 <= k < s.len() && #[trigger] place(s, k) == r && s[k] == ']'
                        && !needs_backslash(s, k, false);
                assert(i <= k < s.len() && place(s, k) == bracket_end(t, j, open));
            }
        } else if c == '\\' {
            // a backslash that stands for itself: what follows it is no mark
            assert(i + 1 < s.len());
            assert(!is_mark(s[i + 1]));
            lemma_written_first(s, i + 1);
            lemma_written_at(s, i + 1);
            assert(place(s, i + 2) == j + 2);
            lemma_bracket_end_written(s, i + 2, open);
            let r = bracket_end(t, j + 2, open);
            assert(bracket_end(t, j, open) == r);
            if r >= 0 {
                let k = choose|k: int|
                    i + 2 <= k < s.len() && #[trigger] place(s, k) == r && s[k] == ']'
                        && !needs_backslash(s, k, false);
                assert(i <= k < s.len() && place(s, k) == bracket_end(t, j, open));
            }
        } else if c == '[' {
            lemma_bracket_end_written(s, i + 1, open + 1);
            let r = bracket_end(t, j + 1, open + 1);
            assert(bracket_end(t, j, open) == r);
            if r >= 0 {
                let k = choose|k: int|
                    i + 1 <= k < s.len() && #[trigger] place(s, k) == r && s[k] == ']'
                        && !needs_backslash(s, k, false);
                assert(i <= k < s.len() && place(s, k) == bracket_end(t, j, open));
            }
        } else if c == ']' {
            if open == 0 {
                assert(bracket_end(t, j, open) == j);
                assert(place(s, i) == j);
            } else {
                lemma_bracket_end_written(s, i + 1, (open - 1) as nat);
                let r = bracket_end(t, j + 1, (open - 1) as nat);
                assert(bracket_end(t, j, open) == r);
                if r >= 0 {
                    let k = choose|k: int|
                        i + 1 <= k < s.len() && #[trigger] place(s, k) == r && s[k] == ']'
                            && !needs_backslash(s, k, false);
                    assert(i <= k < s.len() && place(s, k) == bracket_end(t, j, open));
                }
            }
        } else {
            lemma_bracket_end_written(s, i + 1, open);
            let r = bracket_end(t, j + 1, open);
            assert(bracket_end(t, j, open) == r);
            if r >= 0 {
                let k = choose|k: int|
                    i + 1 <= k < s.len() && #[trigger] place(s, k) == r && s[k] == ']'
                        && !needs_backslash(s, k, false);
                assert(i <= k < s.len() && place(s, k) == bracket_end(t, j, open));
            }
        }
    } else {
        lemma_written_split(s, i);
        assert(text_from(s, i, false) =~= Seq::<char>::empty());
        assert(j == t.len());
    }
}

/// No `(` stands in the written text behind a bracket that closes one.
pub proof fn lemma_no_link_written(s: Seq<char>, i: int)
    requires
        0 <= i <= s.len(),
        one_line_text(s),
    ensures
        ({
            let close = bracket_end(written(s), place(s, i), 0);
            close < 0 || close + 1 >= written(s).len() || written(s)[close + 1] != '('
        }),
{
    let t = written(s);
    lemma_bracket_end_written(s, i, 0);
    let close = bracket_end(t, place(s, i), 0);
    if close >= 0 {
        let k = choose|k: int|
            i <= k < s.len() && #[trigger] place(s, k) == close && s[k] == ']' && !needs_backslash(
                s,
                k,
                false,
            );
        lemma_written_at(s, k);
        assert(place(s, k + 1) == close + 1);
        if k + 1 < s.len() {
            lemma_written_first(s, k + 1);
            assert(s[k + 1] != '(');
        }
    }
}

/// Where a tag ends at all, it ends at the index from which it was
/// searched or behind it.
pub proof fn lemma_tag_end_bound(s: Seq<char>, i: int)
    requires
        0 <= i,
    ensures
        tag_end(s, i) < 0 || tag_end(s, i) >= i,
    decreases s.len() - i,
{
    if i < s.len() && s[i] != '>' && s[i] != '<' {
        lemma_tag_end_bound(s, i + 1);
    }
}

/// The place of a character that is not the first stands behind the start
/// of the written text.
pub proof fn lemma_place_positive(s: Seq<char>, i: int)
    requires
        0 < i <= s.len(),
    ensures
        place(s, i) > 0,
        written(s)[place(s, i) - 1] == s[i - 1],
{
    lemma_written_at(s, i - 1);
}

/// What stands in the written text behind a character that has no
/// backslash before it: nothing where the character is the last, and
/// else a backslash or the next character.
pub proof fn lemma_written_next(s: Seq<char>, i: int)
    requires
        0 <= i < s.len(),
        !needs_backslash(s, i, false),
    ensures
        written(s)[place(s, i)] == s[i],
        i + 1 == s.len() ==> place(s, i) + 1 == written(s).len(),
        i + 1 < s.len() ==> place(s, i) + 1 < written(s).len() && place(s, i + 1) == place(s, i)
            + 1 && (written(s)[place(s, i) + 1] == '\\' || written(s)[place(s, i) + 1] == s[i
            + 1]) && (!is_mark(s[i + 1]) ==> written(s)[place(s, i) + 1] == s[i + 1]),
{
    lemma_written_at(s, i);
    if i + 1 < s.len() {
        lemma_written_first(s, i + 1);
    }
}

/// A backslash that stands for itself is read as itself.
proof fn lemma_step_backslash(s: Seq<char>, i: int, depth: nat)
    requires
        0 <= i < s.len(),
        one_line_text(s),
        !needs_backslash(s, i, false),
        s[i] == '\\',
    ensures
        literal_step(written(s), place(s, i), depth),
{
    lemma_written_next(s, i);
    assert(s[i + 1] != '\n');
}

/// A `*` between white space is read as itself.
proof fn lemma_step_star(s: Seq<char>, i: int, depth: nat)
    requires
        0 <= i < s.len(),
        one_line_text(s),
        !needs_backslash(s, i, false),
        s[i] == '*',
    ensures
        literal_step(written(s), place(s, i), depth),
{
    let t = written(s);
    let j = place(s, i);
    lemma_written_next(s, i);
    assert(gap_after(s, i));
    assert(is_gap(s[i + 1]));
    assert(!is_mark(s[i + 1]));
    assert(t[j + 1] == s[i + 1]);
    assert(repeat_len(t, j + 1, '*') == 0);
    assert(repeat_len(t, j, '*') == 1);
    assert(!opener_at(t, j, '*', 1));
    assert(emphasis_at(t, j, '*') is None);
}

/// A `_` between white space or inside a word is read as itself.
proof fn lemma_step_underscore(s: Seq<char>, i: int, depth: nat)
    requires
        0 <= i < s.len(),
        one_line_text(s),
        !needs_backslash(s, i, false),
        s[i] == '_',
    ensures
        literal_step(written(s), place(s, i), depth),
{
    let t = written(s);
    let j = place(s, i);
    lemma_written_next(s, i);
    assert(i > 0 && i + 1 < s.len());
    lemma_place_positive(s, i);
    assert(!is_mark(s[i + 1])) by {
        if gap_after(s, i) {
            assert(is_gap(s[i + 1]));
        } else {
            assert(is_word(s[i + 1]));
        }
    }
    assert(t[j + 1] == s[i + 1]);
    assert(s[i + 1] != '_');
    assert(repeat_len(t, j + 1, '_') == 0);
    assert(repeat_len(t, j, '_') == 1);
    if gap_before(s, i) && gap_after(s, i) {
        assert(is_gap(t[j + 1]));
    } else {
        assert(is_word(t[j - 1]));
    }
    assert(!opener_at(t, j, '_', 1));
    assert(emphasis_at(t, j, '_') is None);
}

/// A `~` with no other beside it is read as itself.
proof fn lemma_step_tilde(s: Seq<char>, i: int, depth: nat)
    requires
        0 <= i < s.len(),
        one_line_text(s),
        !needs_backslash(s, i, false),
        s[i] == '~',
    ensures
        literal_step(written(s), place(s, i), depth),
{
    let t = written(s);
    let j = place(s, i);
    lemma_written_next(s, i);
    if i + 1 < s.len() {
        assert(t[j + 1] != '~');
    }
    assert(repeat_len(t, j + 1, '~') == 0);
    assert(repeat_len(t, j, '~') == 1);
    assert(!opener_at(t, j, '~', 2));
    assert(strike_at(t, j) is None);
}

/// A `[` is read as itself: no `(` stands behind the bracket that closes
/// it.
proof fn lemma_step_bracket(s: Seq<char>, i: int, depth: nat)
    requires
        0 <= i < s.len(),
        one_line_text(s),
        !needs_backslash(s, i, false),
        s[i] == '[',
    ensures
        literal_step(written(s), place(s, i), depth),
{
    let t = written(s);
    let j = place(s, i);
    lemma_written_at(s, i);
    lemma_no_link_written(s, i + 1);
    assert(place(s, i + 1) == j + 1);
    assert(link_at(t, j) is None);
}

/// A `!` is read as itself: no image begins with it.
proof fn lemma_step_bang(s: Seq<char>, i: int, depth: nat)
    requires
        0 <= i < s.len(),
        one_line_text(s),
        !needs_backslash(s, i, false),
        s[i] == '!',
    ensures
        literal_step(written(s), place(s, i), depth),
{
    let t = written(s);
    let j = place(s, i);
    lemma_written_next(s, i);
    if j + 1 < t.len() && t[j + 1] == '[' {
        assert(i + 1 < s.len());
        assert(s[i + 1] == '[');
        assert(!needs_backslash(s, i + 1, false));
        lemma_written_at(s, i + 1);
        assert(place(s, i + 2) == j + 2);
        lemma_no_link_written(s, i + 2);
    }
    assert(image_at(t, j) is None);
}

/// A `<` with which no raw HTML begins is read as itself.
proof fn lemma_step_angle(s: Seq<char>, i: int, depth: nat)
    requires
        0 <= i < s.len(),
        one_line_text(s),
        !needs_backslash(s, i, false),
        s[i] == '<',
    ensures
        literal_step(written(s), place(s, i), depth),
{
    let t = written(s);
    let j = place(s, i);
    lemma_written_next(s, i);
    assert(html_at(s, i) is None);
    if j + 1 < t.len() && (is_letter(t[j + 1]) || t[j + 1] == '/' || t[j + 1] == '!' || t[j + 1]
        == '?') {
        assert(i + 1 < s.len());
        assert(t[j + 1] == s[i + 1]);
        lemma_tag_end_bound(s, i + 1);
        assert(tag_end(s, i + 1) < 0);
        lemma_tag_end_written(s, i + 1);
    }
    assert(html_at(t, j) is None);
}

/// At index `j` of a text nothing begins: the character there is read as
/// itself, whatever was gathered before it.
pub open spec fn literal_step(t: Seq<char>, j: int, depth: nat) -> bool {
    &&& 0 <= j < t.len()
    &&& t[j] != '\n'
    &&& !(t[j] == '\\' && j + 1 < t.len() && (t[j + 1] == '\n' || is_mark(t[j + 1])))
    &&& leaf_at(t, j) is None
    &&& nested_at(t, j, depth) is None
    &&& literal_len(t, j) == 1
}

/// A character that has no backslash before it in the written text is
/// read as itself.
pub proof fn lemma_literal_step(s: Seq<char>, i: int, depth: nat)
    requires
        0 <= i < s.len(),
        one_line_text(s),
        !needs_backslash(s, i, false),
    ensures
        literal_step(written(s), place(s, i), depth),
{
    let c = s[i];
    lemma_written_next(s, i);
    if c == '\\' {
        lemma_step_backslash(s, i, depth);
    } else if c == '*' {
        lemma_step_star(s, i, depth);
    } else if c == '_' {
        lemma_step_underscore(s, i, depth);
    } else if c == '~' {
        lemma_step_tilde(s, i, depth);
    } else if c == '[' {
        lemma_step_bracket(s, i, depth);
    } else if c == '!' {
        lemma_step_bang(s, i, depth);
    } else if c == '<' {
        lemma_step_angle(s, i, depth);
    } else {
        assert(c != '`');
    }
}

/// The written text is read from the place of an index on as the text
/// from the index on, behind whatever was gathered.
pub proof fn lemma_scan_written(s: Seq<char>, i: int, pending: Seq<char>, depth: nat)
    requires
        0 <= i <= s.len(),
        one_line_text(s),
    ensures
        scan(written(s), place(s, i), pending, Seq::empty(), depth) == flush(
            Seq::empty(),
            pending + s.skip(i),
        ),
    decreases s.len() - i,
{
    let t = written(s);
    let j = place(s, i);
    if i == s.len() {
        lemma_written_split(s, i);
        assert(text_from(s, i, false) =~= Seq::<char>::empty());
        assert(j == t.len());
        assert(pending + s.skip(i) =~= pending);
    } else {
        lemma_written_at(s, i);
        assert(s[i] != '\n');
        assert(pending.push(s[i]) + s.skip(i + 1) =~= pending + s.skip(i));
        if needs_backslash(s, i, false) {
            lemma_escaped_is_mark(s, i);
            lemma_scan_written(s, i + 1, pending.push(s[i]), depth);
            assert(scan(t, j, pending, Seq::empty(), depth) == scan(
                t,
                j + 2,
                pending.push(s[i]),
                Seq::empty(),
                depth,
            ));
        } else {
            lemma_literal_step(s, i, depth);
            lemma_scan_written(s, i + 1, pending.push(s[i]), depth);
            assert(pending + t.subrange(j, j + 1) =~= pending.push(s[i]));
            assert(scan(t, j, pending, Seq::empty(), depth) == scan(
                t,
                j + 1,
                pending.push(s[i]),
                Seq::empty(),
                depth,
            ));
        }
    }
}

/// A text on one line that was written is read as the text: nothing but
/// the text where it is not empty.
pub proof fn lemma_inlines_of_written(s: Seq<char>)
    requires
        one_line_text(s),
        s.len() > 0,
    ensures
        crate::markdown::inline::inlines_of(written(s)) == seq![InlineView::Text(s)],
{
    lemma_scan_written(s, 0, Seq::empty(), crate::markdown::inline::MAX_INLINE_DEPTH as nat);
    assert(Seq::<char>::empty() + s.skip(0) =~= s);
    assert(Seq::<InlineView>::empty().push(InlineView::Text(s)) =~= seq![InlineView::Text(s)]);
}

} // verus!
