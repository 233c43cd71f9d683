//! Shielding phrases from translation: each occurrence of a phrase in the
//! translatable text of a markup document is put between a pair of marker
//! tags, and the markers are taken out again afterwards.

use vstd::prelude::*;
use vstd::utf8::encode_utf8;
use crate::markup::escape::{escape, escape_chars};
use crate::markup::kind::TagKind;
use crate::matching::{find_matches, found_view, quote_pattern, quoted, regex_matches};
use crate::text::{
    append_chars, append_range, chars_of, lemma_occurs_at_skip, lines, matches_at, occurs_at,
    string_of,
};

verus! {

/// The tag name of the marker.
pub open spec fn marker_name() -> Seq<char> {
    seq!['i', 'g', 'n', 'o', 'r', 'e', '-', 't', 'a', 'g']
}

/// The opening marker.
pub open spec fn marker_open() -> Seq<char> {
    seq!['<', 'i', 'g', 'n', 'o', 'r', 'e', '-', 't', 'a', 'g', '>']
}

/// The closing marker.
pub open spec fn marker_close() -> Seq<char> {
    seq!['<', '/', 'i', 'g', 'n', 'o', 'r', 'e', '-', 't', 'a', 'g', '>']
}

/// `s` without its markers: scanning from the left, each opening or closing
/// marker is dropped and every other character is kept.
pub open spec fn strip(s: Seq<char>) -> Seq<char>
    decreases s.len(),
{
    if s.len() == 0 {
        s
    } else if occurs_at(s, 0, marker_open()) {
        strip(s.skip(12))
    } else if occurs_at(s, 0, marker_close()) {
        strip(s.skip(13))
    } else {
        seq![s[0]] + strip(s.skip(1))
    }
}

/// Computes `marker_open`.
pub(crate) fn open_marker() -> (r: Vec<char>)
    ensures
        r@ == marker_open(),
{
    let r = vec!['<', 'i', 'g', 'n', 'o', 'r', 'e', '-', 't', 'a', 'g', '>'];
    proof {
        assert(r@ =~= marker_open());
    }
    r
}

/// Computes `marker_close`.
pub(crate) fn close_marker() -> (r: Vec<char>)
    ensures
        r@ == marker_close(),
{
    let r = vec!['<', '/', 'i', 'g', 'n', 'o', 'r', 'e', '-', 't', 'a', 'g', '>'];
    proof {
        assert(r@ =~= marker_close());
    }
    r
}

/// Computes `strip` on a character vector.
pub fn strip_chars(s: &Vec<char>) -> (r: Vec<char>)
    ensures
        r@ == strip(s@),
{
    let open = open_marker();
    let close = close_marker();
    let mut out: Vec<char> = Vec::new();
    let mut i: usize = 0;
    proof {
        assert(s@.skip(0) =~= s@);
    }
    while i < s.len()
        invariant
            i <= s.len(),
            open@ == marker_open(),
            close@ == marker_close(),
            out@ + strip(s@.skip(i as int)) == strip(s@),
        decreases s.len() - i,
    {
        let ghost rest = s@.skip(i as int);
        proof {
            lemma_occurs_at_skip(s@, i as int, marker_open());
            lemma_occurs_at_skip(s@, i as int, marker_close());
        }
        if matches_at(s, i, &open) {
            proof {
                assert(rest.skip(12) =~= s@.skip(i + 12));
            }
            i += 12;
        } else if matches_at(s, i, &close) {
            proof {
                assert(rest.skip(13) =~= s@.skip(i + 13));
            }
            i += 13;
        } else {
            let ghost before = out@;
            out.push(s[i]);
            proof {
                assert(rest.skip(1) =~= s@.skip(i + 1));
                assert(out@ + strip(s@.skip(i + 1)) =~= before + strip(rest));
            }
            i += 1;
        }
    }
    proof {
        assert(out@ + strip(s@.skip(s@.len() as int)) =~= out@);
    }
    out
}

/// The number of element names whose content is shielded from translation.
pub const SHIELD_COUNT: usize = 5;

/// The names of the elements whose content is never offered for translation:
/// the protected kinds of the vocabulary, and the marker itself.
pub open spec fn shield_name(k: int) -> Seq<char> {
    if k == 0 {
        TagKind::CodeBlock.name()
    } else if k == 1 {
        TagKind::RawHtmlBlock.name()
    } else if k == 2 {
        TagKind::CodeSpan.name()
    } else if k == 3 {
        TagKind::RawHtmlInline.name()
    } else {
        marker_name()
    }
}

/// Before index `i` a tag was opened with `<` and not yet closed with `>`.
pub open spec fn tag_open(s: Seq<char>, i: int) -> bool
    decreases i,
{
    if i <= 0 || i > s.len() {
        false
    } else if s[i - 1] == '<' {
        true
    } else if s[i - 1] == '>' {
        false
    } else {
        tag_open(s, i - 1)
    }
}

/// The text `<name` and one delimiter, `>` or a space, end just before `i`.
pub open spec fn opens_before(s: Seq<char>, i: int, name: Seq<char>) -> bool {
    &&& name.len() + 2 <= i <= s.len()
    &&& s[i - name.len() - 2] == '<'
    &&& occurs_at(s, i - name.len() - 1, name)
    &&& (s[i - 1] == '>' || s[i - 1] == ' ')
}

/// The text `</name>` ends just before `i`.
pub open spec fn closes_before(s: Seq<char>, i: int, name: Seq<char>) -> bool {
    &&& name.len() + 3 <= i <= s.len()
    &&& s[i - name.len() - 3] == '<'
    &&& s[i - name.len() - 2] == '/'
    &&& occurs_at(s, i - name.len() - 1, name)
    &&& s[i - 1] == '>'
}

/// Before index `i` an element `name` was opened and not yet closed.
pub open spec fn shielded(s: Seq<char>, i: int, name: Seq<char>) -> bool
    decreases i,
{
    if i <= 0 || i > s.len() {
        false
    } else if opens_before(s, i, name) {
        true
    } else if closes_before(s, i, name) {
        false
    } else {
        shielded(s, i - 1, name)
    }
}

/// Index `i` lies in the content of one of the shielded elements.
pub open spec fn in_shield(s: Seq<char>, i: int) -> bool {
    exists|k: int| 0 <= k < SHIELD_COUNT && #[trigger] shielded(s, i, shield_name(k))
}

/// The character at index `i` is text that is offered for translation: it
/// stands outside every tag and outside every shielded element.
pub open spec fn translatable(s: Seq<char>, i: int) -> bool {
    &&& 0 <= i < s.len()
    &&& s[i] != '<'
    &&& !tag_open(s, i)
    &&& !in_shield(s, i)
}

/// Every index from `from` up to `to` is translatable.
pub open spec fn all_translatable(s: Seq<char>, from: int, to: int) -> bool {
    forall|i: int| from <= i < to ==> #[trigger] translatable(s, i)
}

/// Computes the names of the shielded elements.
fn shield_names() -> (r: Vec<Vec<char>>)
    ensures
        r.len() == SHIELD_COUNT,
        forall|k: int| 0 <= k < SHIELD_COUNT ==> (#[trigger] r[k])@ == shield_name(k),
{
    let mut names: Vec<Vec<char>> = Vec::new();
    names.push(TagKind::CodeBlock.tag_name());
    names.push(TagKind::RawHtmlBlock.tag_name());
    names.push(TagKind::CodeSpan.tag_name());
    names.push(TagKind::RawHtmlInline.tag_name());
    let marker = vec!['i', 'g', 'n', 'o', 'r', 'e', '-', 't', 'a', 'g'];
    proof {
        assert(marker@ =~= marker_name());
    }
    names.push(marker);
    names
}

/// Computes `opens_before`.
fn opens_here(s: &Vec<char>, i: usize, name: &Vec<char>) -> (r: bool)
    requires
        i <= s.len(),
    ensures
        r == opens_before(s@, i as int, name@),
{
    let n = name.len();
    if n > i || i - n < 2 {
        return false;
    }
    s[i - n - 2] == '<' && matches_at(s, i - n - 1, name) && (s[i - 1] == '>' || s[i - 1] == ' ')
}

/// Computes `closes_before`.
fn closes_here(s: &Vec<char>, i: usize, name: &Vec<char>) -> (r: bool)
    requires
        i <= s.len(),
    ensures
        r == closes_before(s@, i as int, name@),
{
    let n = name.len();
    if n > i || i - n < 3 {
        return false;
    }
    s[i - n - 3] == '<' && s[i - n - 2] == '/' && matches_at(s, i - n - 1, name) && s[i - 1] == '>'
}

/// For each index of `s`, whether the character there is translatable.
#[verifier::rlimit(40)]
pub fn translatable_mask(s: &Vec<char>) -> (r: Vec<bool>)
    ensures
        r.len() == s.len(),
        forall|i: int| 0 <= i < s.len() ==> r[i] == translatable(s@, i),
{
    let names = shield_names();
    let mut flags: Vec<bool> = vec![false, false, false, false, false];
    let mut mask: Vec<bool> = Vec::new();
    let mut tag: bool = false;
    let mut i: usize = 0;
    while i < s.len()
        invariant
            i <= s.len(),
            mask.len() == i,
            names.len() == SHIELD_COUNT,
            flags.len() == SHIELD_COUNT,
            forall|k: int| 0 <= k < SHIELD_COUNT ==> (#[trigger] names[k])@ == shield_name(k),
            forall|k: int| 0 <= k < SHIELD_COUNT ==> flags[k] == shielded(s@, i as int, shield_name(k)),
            tag == tag_open(s@, i as int),
            forall|j: int| 0 <= j < i ==> mask[j] == translatable(s@, j),
        decreases s.len() - i,
    {
        let any = flags[0] || flags[1] || flags[2] || flags[3] || flags[4];
        proof {
            assert(any == in_shield(s@, i as int)) by {
                if any {
                    let k = if flags[0] { 0int } else if flags[1] { 1 } else if flags[2] { 2 } else if flags[3] { 3 } else { 4 };
                    assert(shielded(s@, i as int, shield_name(k)));
                }
            }
        }
        mask.push(s[i] != '<' && !tag && !any);
        if s[i] == '<' {
            tag = true;
        } else if s[i] == '>' {
            tag = false;
        }
        i += 1;
        let mut k: usize = 0;
        while k < SHIELD_COUNT
            invariant
                k <= SHIELD_COUNT,
                0 < i <= s.len(),
                names.len() == SHIELD_COUNT,
                flags.len() == SHIELD_COUNT,
                forall|j: int| 0 <= j < SHIELD_COUNT ==> (#[trigger] names[j])@ == shield_name(j),
                forall|j: int| 0 <= j < k ==> flags[j] == shielded(s@, i as int, shield_name(j)),
                forall|j: int| k <= j < SHIELD_COUNT ==> flags[j] == shielded(s@, i - 1, shield_name(j)),
            decreases SHIELD_COUNT - k,
        {
            assert(names[k as int]@ == shield_name(k as int));
            if opens_here(s, i, &names[k]) {
                flags.set(k, true);
            } else if closes_here(s, i, &names[k]) {
                flags.set(k, false);
            }
            k += 1;
        }
    }
    mask
}

/// The number of bytes that a character takes in UTF-8.
pub open spec fn utf8_width(c: char) -> int {
    if (c as u32) < 0x80 {
        1
    } else if (c as u32) < 0x800 {
        2
    } else if (c as u32) < 0x10000 {
        3
    } else {
        4
    }
}

/// The index of the character of `s` that starts at byte `target` of the
/// UTF-8 form of `s`, searched from character `i`, which starts at byte
/// `offset`. The length of `s` counts as an index, for the end of the text.
pub open spec fn char_index_from(s: Seq<char>, target: int, i: int, offset: int) -> Option<int>
    decreases s.len() - i,
{
    if offset == target {
        Some(i)
    } else if offset > target || i < 0 || i >= s.len() {
        None
    } else {
        char_index_from(s, target, i + 1, offset + utf8_width(s[i]))
    }
}

/// The index of the character that starts at byte `target`, if one does.
pub open spec fn char_index(s: Seq<char>, target: int) -> Option<int> {
    char_index_from(s, target, 0, 0)
}

/// A range of bytes as a range of characters; the empty range at 0 where
/// one of its ends is not the start of a character.
pub open spec fn char_range(s: Seq<char>, bytes: (usize, usize)) -> (usize, usize) {
    match (char_index(s, bytes.0 as int), char_index(s, bytes.1 as int)) {
        (Some(a), Some(b)) => (a as usize, b as usize),
        _ => (0, 0),
    }
}

/// Each range of bytes as a range of characters.
pub open spec fn char_ranges(s: Seq<char>, bytes: Seq<(usize, usize)>) -> Seq<(usize, usize)> {
    Seq::new(bytes.len(), |k: int| char_range(s, bytes[k]))
}

/// The candidates that are wrapped, chosen from left to right: a candidate
/// is taken when it is not empty, lies in the text, starts at or after
/// `floor`, where the one taken before it ended, and covers translatable
/// characters only.
pub open spec fn select(s: Seq<char>, candidates: Seq<(usize, usize)>, floor: int) -> Seq<(usize, usize)>
    decreases candidates.len(),
{
    if candidates.len() == 0 {
        Seq::empty()
    } else {
        let c = candidates[0];
        if floor <= c.0 && c.0 < c.1 && c.1 <= s.len() && all_translatable(s, c.0 as int, c.1 as int) {
            seq![c] + select(s, candidates.drop_first(), c.1 as int)
        } else {
            select(s, candidates.drop_first(), floor)
        }
    }
}

/// The ranges are not empty, lie in `s` in ascending order without
/// overlap, and cover translatable characters only.
pub open spec fn ranges_ok(s: Seq<char>, ranges: Seq<(usize, usize)>) -> bool {
    &&& forall|k: int|
        0 <= k < ranges.len() ==> (#[trigger] ranges[k]).0 < ranges[k].1 && ranges[k].1 <= s.len()
            && all_translatable(s, ranges[k].0 as int, ranges[k].1 as int)
    &&& forall|j: int, k: int|
        0 <= j < k < ranges.len() ==> (#[trigger] ranges[j]).1 <= (#[trigger] ranges[k]).0
}

/// `s` with each of the ranges put between an opening and a closing marker.
pub open spec fn wrap_ranges(s: Seq<char>, ranges: Seq<(usize, usize)>) -> Seq<char>
    decreases ranges.len(),
{
    if ranges.len() == 0 {
        s
    } else {
        let last = ranges.last();
        wrap_ranges(s.take(last.0 as int), ranges.drop_last()) + marker_open() + s.subrange(
            last.0 as int,
            last.1 as int,
        ) + marker_close() + s.skip(last.1 as int)
    }
}

/// What wrapping does with the matches that were found in `s`, given as
/// ranges of bytes: nothing where the search could not be made.
pub open spec fn wrap_found(s: Seq<char>, found: Option<Seq<(usize, usize)>>) -> Seq<char> {
    match found {
        Some(bytes) => wrap_ranges(s, select(s, char_ranges(s, bytes), 0)),
        None => s,
    }
}

/// Computes `utf8_width`.
pub fn width_of(c: char) -> (r: usize)
    ensures
        r == utf8_width(c),
{
    let v: u32 = c as u32;
    if v < 0x80 {
        1
    } else if v < 0x800 {
        2
    } else if v < 0x10000 {
        3
    } else {
        4
    }
}

/// Computes `char_index`.
pub fn char_index_of(s: &Vec<char>, target: usize) -> (r: Option<usize>)
    ensures
        r is Some == char_index(s@, target as int) is Some,
        r is Some ==> r->0 == char_index(s@, target as int)->0 && r->0 <= s.len(),
{
    let mut i: usize = 0;
    let mut offset: usize = 0;
    loop
        invariant
            i <= s.len(),
            offset <= target,
            char_index(s@, target as int) == char_index_from(s@, target as int, i as int, offset as int),
        decreases s.len() - i,
    {
        if offset == target {
            return Some(i);
        }
        if i >= s.len() {
            return None;
        }
        let w = width_of(s[i]);
        if w > target - offset {
            proof {
                reveal_with_fuel(char_index_from, 2);
            }
            return None;
        }
        offset = offset + w;
        i += 1;
    }
}

/// Computes `char_ranges`.
pub fn to_char_ranges(s: &Vec<char>, bytes: &Vec<(usize, usize)>) -> (r: Vec<(usize, usize)>)
    ensures
        r@ == char_ranges(s@, bytes@),
{
    let mut out: Vec<(usize, usize)> = Vec::new();
    let mut k: usize = 0;
    while k < bytes.len()
        invariant
            k <= bytes.len(),
            out.len() == k,
            forall|j: int| 0 <= j < k ==> out[j] == char_range(s@, bytes[j]),
        decreases bytes.len() - k,
    {
        let pair = bytes[k];
        let a = char_index_of(s, pair.0);
        let b = char_index_of(s, pair.1);
        let range = match (a, b) {
            (Some(x), Some(y)) => (x, y),
            _ => (0, 0),
        };
        out.push(range);
        k += 1;
    }
    proof {
        assert(out@ =~= char_ranges(s@, bytes@));
    }
    out
}

/// Whether the mask is set from `from` up to `to`.
fn covered(mask: &Vec<bool>, from: usize, to: usize) -> (r: bool)
    requires
        from <= to <= mask.len(),
    ensures
        r == (forall|i: int| from <= i < to ==> mask[i]),
{
    let mut i: usize = from;
    while i < to
        invariant
            from <= i <= to <= mask.len(),
            forall|j: int| from <= j < i ==> mask[j],
        decreases to - i,
    {
        if !mask[i] {
            return false;
        }
        i += 1;
    }
    true
}

/// Computes `select` with floor 0.
#[verifier::rlimit(40)]
pub fn select_ranges(s: &Vec<char>, candidates: &Vec<(usize, usize)>) -> (r: Vec<(usize, usize)>)
    ensures
        r@ == select(s@, candidates@, 0),
{
    let mask = translatable_mask(s);
    let mut out: Vec<(usize, usize)> = Vec::new();
    let mut floor: usize = 0;
    let mut k: usize = 0;
    proof {
        assert(candidates@.skip(0) =~= candidates@);
    }
    while k < candidates.len()
        invariant
            k <= candidates.len(),
            mask.len() == s.len(),
            forall|i: int| 0 <= i < s.len() ==> mask[i] == translatable(s@, i),
            out@ + select(s@, candidates@.skip(k as int), floor as int) == select(s@, candidates@, 0),
        decreases candidates.len() - k,
    {
        let c = candidates[k];
        let ghost rest = candidates@.skip(k as int);
        proof {
            assert(rest.drop_first() =~= candidates@.skip(k + 1));
            assert(rest[0] == c);
        }
        if floor <= c.0 && c.0 < c.1 && c.1 <= s.len() && covered(&mask, c.0, c.1) {
            let ghost before = out@;
            let ghost floor_before = floor as int;
            out.push(c);
            floor = c.1;
            proof {
                assert(all_translatable(s@, c.0 as int, c.1 as int));
                assert(out@ + select(s@, candidates@.skip(k + 1), floor as int) =~= before + select(
                    s@,
                    rest,
                    floor_before,
                ));
            }
        } else {
            proof {
                if floor <= c.0 && c.0 < c.1 && c.1 <= s.len() {
                    let i = choose|i: int| c.0 <= i < c.1 && !mask[i];
                    assert(!translatable(s@, i));
                    assert(!all_translatable(s@, c.0 as int, c.1 as int));
                }
            }
        }
        k += 1;
    }
    proof {
        assert(candidates@.skip(candidates@.len() as int) =~= Seq::<(usize, usize)>::empty());
        assert(out@ + Seq::<(usize, usize)>::empty() =~= out@);
    }
    out
}

/// What `select` takes is well-formed and starts at or after the floor.
#[verifier::rlimit(40)]
pub proof fn lemma_select_ok(s: Seq<char>, candidates: Seq<(usize, usize)>, floor: int)
    ensures
        ranges_ok(s, select(s, candidates, floor)),
        forall|k: int|
            0 <= k < select(s, candidates, floor).len() ==> floor <= (#[trigger] select(
                s,
                candidates,
                floor,
            )[k]).0,
    decreases candidates.len(),
{
    if candidates.len() > 0 {
        let c = candidates[0];
        if floor <= c.0 && c.0 < c.1 && c.1 <= s.len() && all_translatable(s, c.0 as int, c.1 as int) {
            lemma_select_ok(s, candidates.drop_first(), c.1 as int);
            let tail = select(s, candidates.drop_first(), c.1 as int);
            let all = select(s, candidates, floor);
            assert(all =~= seq![c] + tail);
            assert forall|k: int| 0 <= k < all.len() implies (#[trigger] all[k]).0 < all[k].1
                && all[k].1 <= s.len() && all_translatable(s, all[k].0 as int, all[k].1 as int)
                && floor <= all[k].0 by {
                if k > 0 {
                    assert(all[k] == tail[k - 1]);
                }
            }
            assert forall|j: int, k: int| 0 <= j < k < all.len() implies (#[trigger] all[j]).1 <= (
            #[trigger] all[k]).0 by {
                assert(all[k] == tail[k - 1]);
                if j > 0 {
                    assert(all[j] == tail[j - 1]);
                }
            }
        } else {
            lemma_select_ok(s, candidates.drop_first(), floor);
        }
    }
}

/// Text that follows the last range is carried over unchanged.
pub proof fn lemma_wrap_ranges_tail(s: Seq<char>, ranges: Seq<(usize, usize)>, p: int)
    requires
        ranges_ok(s, ranges),
        0 <= p <= s.len(),
        ranges.len() > 0 ==> ranges.last().1 <= p,
    ensures
        wrap_ranges(s, ranges) == wrap_ranges(s.take(p), ranges) + s.skip(p),
{
    if ranges.len() == 0 {
        assert(s =~= s.take(p) + s.skip(p));
    } else {
        let last = ranges.last();
        let a = last.0 as int;
        let b = last.1 as int;
        let t = s.take(p);
        assert(t.take(a) =~= s.take(a));
        assert(t.subrange(a, b) =~= s.subrange(a, b));
        assert(s.skip(b) =~= t.skip(b) + s.skip(p));
        let head = wrap_ranges(s.take(a), ranges.drop_last()) + marker_open() + s.subrange(a, b)
            + marker_close();
        assert(wrap_ranges(s, ranges) =~= head + s.skip(b));
        assert(wrap_ranges(t, ranges) =~= head + t.skip(b));
        assert(head + s.skip(b) =~= (head + t.skip(b)) + s.skip(p));
    }
}

/// Computes `wrap_ranges`.
#[verifier::rlimit(40)]
pub fn wrap_chars(s: &Vec<char>, ranges: &Vec<(usize, usize)>) -> (r: Vec<char>)
    requires
        ranges_ok(s@, ranges@),
    ensures
        r@ == wrap_ranges(s@, ranges@),
{
    let open = open_marker();
    let close = close_marker();
    let mut out: Vec<char> = Vec::new();
    let mut pos: usize = 0;
    let mut k: usize = 0;
    proof {
        assert(ranges@.take(0) =~= Seq::<(usize, usize)>::empty());
        assert(s@.take(0) =~= Seq::<char>::empty());
    }
    while k < ranges.len()
        invariant
            k <= ranges.len(),
            pos <= s.len(),
            open@ == marker_open(),
            close@ == marker_close(),
            ranges_ok(s@, ranges@),
            k > 0 ==> pos == ranges[k - 1].1,
            k == 0 ==> pos == 0,
            out@ == wrap_ranges(s@.take(pos as int), ranges@.take(k as int)),
        decreases ranges.len() - k,
    {
        let range = ranges[k];
        let ghost done = ranges@.take(k as int);
        let ghost next = ranges@.take(k + 1);
        proof {
            assert(ranges@[k as int] == range);
            if k > 0 {
                assert(ranges@[k - 1].1 <= ranges@[k as int].0);
            }
            assert(next.drop_last() =~= done);
            assert(next.last() == range);
            // the text between the last range and this one is carried over
            let t = s@.take(range.0 as int);
            assert(ranges_ok(t, done)) by {
                assert forall|j: int| 0 <= j < done.len() implies (#[trigger] done[j]).0 < done[j].1
                    && done[j].1 <= t.len() && all_translatable(t, done[j].0 as int, done[j].1 as int) by {
                    assert(done[j] == ranges@[j]);
                    assert(ranges@[j].1 <= ranges@[k as int].0);
                    lemma_all_translatable_prefix(s@, range.0 as int, done[j].0 as int, done[j].1 as int);
                }
                assert forall|i: int, j: int| 0 <= i < j < done.len() implies (#[trigger] done[i]).1 <= (
                #[trigger] done[j]).0 by {
                    assert(done[i] == ranges@[i]);
                    assert(done[j] == ranges@[j]);
                }
            }
            if k > 0 {
                assert(done.last() == ranges@[k - 1]);
            }
            lemma_wrap_ranges_tail(t, done, pos as int);
            assert(t.take(pos as int) =~= s@.take(pos as int));
            assert(t.skip(pos as int) =~= s@.subrange(pos as int, range.0 as int));
            let u = s@.take(range.1 as int);
            assert(u.take(range.0 as int) =~= t);
            assert(u.subrange(range.0 as int, range.1 as int) =~= s@.subrange(
                range.0 as int,
                range.1 as int,
            ));
            assert(u.skip(range.1 as int) =~= Seq::<char>::empty());
        }
        append_range(&mut out, s, pos, range.0);
        append_chars(&mut out, &open);
        append_range(&mut out, s, range.0, range.1);
        append_chars(&mut out, &close);
        pos = range.1;
        k += 1;
        proof {
            let u = s@.take(range.1 as int);
            assert(out@ =~= wrap_ranges(u, next));
        }
    }
    proof {
        assert(ranges@.take(ranges@.len() as int) =~= ranges@);
        if ranges.len() > 0 {
            assert(ranges@.last() == ranges@[ranges@.len() - 1]);
        }
        lemma_wrap_ranges_tail(s@, ranges@, pos as int);
    }
    append_range(&mut out, s, pos, s.len());
    proof {
        assert(s@.subrange(pos as int, s@.len() as int) =~= s@.skip(pos as int));
    }
    out
}

/// Before index `i`, cutting `s` off at `p` changes nothing about open tags.
pub proof fn lemma_tag_open_prefix(s: Seq<char>, p: int, i: int)
    requires
        0 <= i <= p <= s.len(),
    ensures
        tag_open(s.take(p), i) == tag_open(s, i),
    decreases i,
{
    if i > 0 {
        lemma_tag_open_prefix(s, p, i - 1);
    }
}

/// Before index `i`, cutting `s` off at `p` changes nothing about shields.
pub proof fn lemma_shielded_prefix(s: Seq<char>, p: int, i: int, name: Seq<char>)
    requires
        0 <= i <= p <= s.len(),
    ensures
        shielded(s.take(p), i, name) == shielded(s, i, name),
    decreases i,
{
    if i > 0 {
        let t = s.take(p);
        let n = name.len() as int;
        if n + 1 <= i {
            assert(t.subrange(i - n - 1, i - 1) =~= s.subrange(i - n - 1, i - 1));
        }
        assert(opens_before(t, i, name) == opens_before(s, i, name));
        assert(closes_before(t, i, name) == closes_before(s, i, name));
        lemma_shielded_prefix(s, p, i - 1, name);
    }
}

/// Whether a character is translatable depends on the text up to it only.
pub proof fn lemma_translatable_prefix(s: Seq<char>, p: int, i: int)
    requires
        0 <= i < p <= s.len(),
    ensures
        translatable(s.take(p), i) == translatable(s, i),
{
    let t = s.take(p);
    lemma_tag_open_prefix(s, p, i);
    assert forall|k: int| 0 <= k < SHIELD_COUNT implies shielded(t, i, shield_name(k)) == shielded(
        s,
        i,
        shield_name(k),
    ) by {
        lemma_shielded_prefix(s, p, i, shield_name(k));
    }
    if in_shield(t, i) {
        let k = choose|k: int| 0 <= k < SHIELD_COUNT && #[trigger] shielded(t, i, shield_name(k));
        assert(shielded(s, i, shield_name(k)));
    }
    if in_shield(s, i) {
        let k = choose|k: int| 0 <= k < SHIELD_COUNT && #[trigger] shielded(s, i, shield_name(k));
        assert(shielded(t, i, shield_name(k)));
    }
}

/// A run of translatable characters stays one when the text after it is
/// cut off.
pub proof fn lemma_all_translatable_prefix(s: Seq<char>, p: int, from: int, to: int)
    requires
        0 <= from <= to <= p <= s.len(),
        all_translatable(s, from, to),
    ensures
        all_translatable(s.take(p), from, to),
{
    assert forall|i: int| from <= i < to implies #[trigger] translatable(s.take(p), i) by {
        assert(translatable(s, i));
        lemma_translatable_prefix(s, p, i);
    }
}

/// `m` is one of the two markers.
pub open spec fn is_marker(m: Seq<char>) -> bool {
    m == marker_open() || m == marker_close()
}

/// No marker of `s` begins before index `p` and ends after it.
pub open spec fn clear_cut(s: Seq<char>, p: int) -> bool {
    forall|u: int, m: Seq<char>|
        is_marker(m) && u < p < u + m.len() ==> !#[trigger] occurs_at(s, u, m)
}

/// A marker begins with `<`, ends with `>`, and holds neither in between.
pub proof fn lemma_marker_shape(m: Seq<char>)
    requires
        is_marker(m),
    ensures
        m.len() == 12 || m.len() == 13,
        m[0] == '<',
        m[m.len() - 1] == '>',
        forall|j: int| 0 < j < m.len() ==> m[j] != '<',
        forall|j: int| 0 <= j < m.len() - 1 ==> m[j] != '>',
{
}

/// Inside an occurrence of a marker a tag is open.
proof fn lemma_tag_open_in_marker(s: Seq<char>, u: int, m: Seq<char>, i: int)
    requires
        is_marker(m),
        occurs_at(s, u, m),
        u < i < u + m.len(),
    ensures
        tag_open(s, i),
    decreases i - u,
{
    lemma_marker_shape(m);
    assert(s.subrange(u, u + m.len())[i - 1 - u] == s[i - 1]);
    if i - 1 > u {
        lemma_tag_open_in_marker(s, u, m, i - 1);
    }
}

/// No character of a marker is translatable.
pub proof fn lemma_marker_not_translatable(s: Seq<char>, u: int, m: Seq<char>, i: int)
    requires
        is_marker(m),
        occurs_at(s, u, m),
        u <= i < u + m.len(),
    ensures
        !translatable(s, i),
{
    lemma_marker_shape(m);
    if i == u {
        assert(s.subrange(u, u + m.len())[0] == s[u]);
    } else {
        lemma_tag_open_in_marker(s, u, m, i);
    }
}

/// No marker runs across the start of a tag.
pub proof fn lemma_clear_cut_at_tag(s: Seq<char>, p: int)
    requires
        0 <= p < s.len(),
        s[p] == '<',
    ensures
        clear_cut(s, p),
{
    assert forall|u: int, m: Seq<char>| is_marker(m) && u < p < u + m.len() implies !#[trigger] occurs_at(
        s,
        u,
        m,
    ) by {
        lemma_marker_shape(m);
        if occurs_at(s, u, m) {
            assert(s.subrange(u, u + m.len())[p - u] == s[p]);
        }
    }
}

/// No marker runs across either edge of a translatable character.
pub proof fn lemma_clear_cut_at_text(s: Seq<char>, i: int)
    requires
        translatable(s, i),
    ensures
        clear_cut(s, i),
        clear_cut(s, i + 1),
{
    assert forall|u: int, m: Seq<char>| is_marker(m) && u < i < u + m.len() implies !#[trigger] occurs_at(
        s,
        u,
        m,
    ) by {
        if occurs_at(s, u, m) {
            lemma_marker_not_translatable(s, u, m, i);
        }
    }
    assert forall|u: int, m: Seq<char>| is_marker(m) && u < i + 1 < u + m.len() implies !#[trigger] occurs_at(
        s,
        u,
        m,
    ) by {
        if occurs_at(s, u, m) {
            lemma_marker_not_translatable(s, u, m, i);
        }
    }
}

/// Where no marker runs across index `p`, stripping the whole is stripping
/// the two parts.
#[verifier::rlimit(40)]
pub proof fn lemma_strip_split(s: Seq<char>, p: int)
    requires
        0 <= p <= s.len(),
        clear_cut(s, p),
    ensures
        strip(s) == strip(s.take(p)) + strip(s.skip(p)),
    decreases s.len(),
{
    let t = s.take(p);
    if p == 0 {
        assert(s.skip(0) =~= s);
        assert(strip(t) =~= Seq::<char>::empty());
        assert(strip(s) =~= strip(t) + strip(s.skip(p)));
    } else {
        let (step, hit): (int, bool) = if occurs_at(s, 0, marker_open()) {
            (12, true)
        } else if occurs_at(s, 0, marker_close()) {
            (13, true)
        } else {
            (1, false)
        };
        let m = if step == 12 { marker_open() } else { marker_close() };
        if hit {
            assert(is_marker(m));
            assert(occurs_at(s, 0, m));
            assert(p >= step);
            assert(t.subrange(0, step) =~= s.subrange(0, step));
            assert(occurs_at(t, 0, m));
            if step == 13 {
                assert(t.len() >= 12 ==> t.subrange(0, 12)[1] == s.subrange(0, 13)[1]);
                assert(!occurs_at(t, 0, marker_open()));
            }
        } else {
            if occurs_at(t, 0, marker_open()) {
                assert(t.subrange(0, 12) =~= s.subrange(0, 12));
            }
            if occurs_at(t, 0, marker_close()) {
                assert(t.subrange(0, 13) =~= s.subrange(0, 13));
            }
        }
        let s1 = s.skip(step);
        assert(clear_cut(s1, p - step)) by {
            assert forall|u: int, m2: Seq<char>|
                is_marker(m2) && u < p - step < u + m2.len() implies !#[trigger] occurs_at(s1, u, m2) by {
                if occurs_at(s1, u, m2) {
                    assert(s1.subrange(u, u + m2.len()) =~= s.subrange(u + step, u + step + m2.len()));
                    assert(occurs_at(s, u + step, m2));
                }
            }
        }
        lemma_strip_split(s1, p - step);
        assert(s1.take(p - step) =~= t.skip(step));
        assert(s1.skip(p - step) =~= s.skip(p));
        if !hit {
            assert(strip(s) == seq![s[0]] + strip(s1));
            assert(strip(t) == seq![t[0]] + strip(t.skip(1)));
            assert(strip(s) =~= strip(t) + strip(s.skip(p)));
        }
    }
}

/// A marker in front is dropped.
pub proof fn lemma_strip_marker(m: Seq<char>, rest: Seq<char>)
    requires
        is_marker(m),
    ensures
        strip(m + rest) == strip(rest),
{
    let s = m + rest;
    assert(s.subrange(0, m.len() as int) =~= m);
    assert(s.skip(m.len() as int) =~= rest);
    if m == marker_close() {
        assert(s.subrange(0, 12)[1] == s[1]);
        assert(!occurs_at(s, 0, marker_open()));
    }
}

/// Stripping takes a pair of markers out of a text and leaves what stands
/// before, between and behind them to itself.
#[verifier::rlimit(40)]
pub proof fn lemma_strip_wrapped(w: Seq<char>, mid: Seq<char>, tail: Seq<char>)
    ensures
        strip(w + marker_open() + mid + marker_close() + tail) == strip(w) + (strip(mid) + strip(
            tail,
        )),
{
    let z = marker_close() + tail;
    let y = mid + z;
    let x = marker_open() + y;
    let all = w + x;
    assert(w + marker_open() + mid + marker_close() + tail =~= all);
    assert(x[0] == '<');
    assert(all[w.len() as int] == x[0]);
    lemma_clear_cut_at_tag(all, w.len() as int);
    lemma_strip_split(all, w.len() as int);
    assert(all.take(w.len() as int) =~= w);
    assert(all.skip(w.len() as int) =~= x);
    lemma_strip_marker(marker_open(), y);
    assert(z[0] == '<');
    assert(y[mid.len() as int] == z[0]);
    lemma_clear_cut_at_tag(y, mid.len() as int);
    lemma_strip_split(y, mid.len() as int);
    assert(y.take(mid.len() as int) =~= mid);
    assert(y.skip(mid.len() as int) =~= z);
    lemma_strip_marker(marker_close(), tail);
}

/// Stripping a text is stripping what stands before a run of translatable
/// characters, the run, and what stands behind it, each by itself.
pub proof fn lemma_strip_around(s: Seq<char>, a: int, b: int)
    requires
        0 <= a < b <= s.len(),
        translatable(s, a),
        translatable(s, b - 1),
    ensures
        strip(s) == strip(s.take(a)) + (strip(s.subrange(a, b)) + strip(s.skip(b))),
{
    lemma_clear_cut_at_text(s, b - 1);
    lemma_strip_split(s, b);
    let front = s.take(b);
    lemma_translatable_prefix(s, b, a);
    lemma_clear_cut_at_text(front, a);
    lemma_strip_split(front, a);
    assert(front.take(a) =~= s.take(a));
    assert(front.skip(a) =~= s.subrange(a, b));
    assert((strip(s.take(a)) + strip(s.subrange(a, b))) + strip(s.skip(b)) =~= strip(s.take(a)) + (
    strip(s.subrange(a, b)) + strip(s.skip(b))));
}

/// The ranges before the last one are well-formed in the text before the
/// last one.
pub proof fn lemma_ranges_ok_before_last(s: Seq<char>, ranges: Seq<(usize, usize)>)
    requires
        ranges_ok(s, ranges),
        ranges.len() > 0,
    ensures
        ranges_ok(s.take(ranges.last().0 as int), ranges.drop_last()),
{
    let last = ranges.last();
    let a = last.0 as int;
    let done = ranges.drop_last();
    let head = s.take(a);
    assert(ranges[ranges.len() - 1] == last);
    assert forall|j: int| 0 <= j < done.len() implies (#[trigger] done[j]).0 < done[j].1 && done[j].1
        <= head.len() && all_translatable(head, done[j].0 as int, done[j].1 as int) by {
        assert(done[j] == ranges[j]);
        assert(ranges[j].1 <= ranges[ranges.len() - 1].0);
        lemma_all_translatable_prefix(s, a, done[j].0 as int, done[j].1 as int);
    }
    assert forall|i: int, j: int| 0 <= i < j < done.len() implies (#[trigger] done[i]).1 <= (
    #[trigger] done[j]).0 by {
        assert(done[i] == ranges[i]);
        assert(done[j] == ranges[j]);
    }
}

/// Stripping undoes wrapping: the markers that wrapping puts in are the
/// ones that stripping takes out, and it takes out no others than those
/// that were there before.
pub proof fn lemma_strip_wrap_ranges(s: Seq<char>, ranges: Seq<(usize, usize)>)
    requires
        ranges_ok(s, ranges),
    ensures
        strip(wrap_ranges(s, ranges)) == strip(s),
    decreases ranges.len(),
{
    if ranges.len() > 0 {
        let last = ranges.last();
        let a = last.0 as int;
        let b = last.1 as int;
        let done = ranges.drop_last();
        let head = s.take(a);
        let mid = s.subrange(a, b);
        let tail = s.skip(b);
        assert(ranges[ranges.len() - 1] == last);
        lemma_ranges_ok_before_last(s, ranges);
        lemma_strip_wrap_ranges(head, done);
        let w = wrap_ranges(head, done);
        lemma_strip_wrapped(w, mid, tail);
        assert(translatable(s, a));
        assert(translatable(s, b - 1));
        lemma_strip_around(s, a, b);
    }
}

/// Wraps the matches that a search found in `s`: see `wrap_found`.
pub fn wrap_matches(s: &Vec<char>, found: &Option<Vec<(usize, usize)>>) -> (r: Vec<char>)
    ensures
        r@ == wrap_found(s@, found_view(*found)),
{
    match found {
        Some(bytes) => {
            let candidates = to_char_ranges(s, bytes);
            let ranges = select_ranges(s, &candidates);
            proof {
                lemma_select_ok(s@, candidates@, 0);
            }
            wrap_chars(s, &ranges)
        },
        None => {
            let mut out: Vec<char> = Vec::new();
            append_chars(&mut out, s);
            proof {
                assert(out@ =~= s@);
            }
            out
        },
    }
}

/// The regular expression that finds a phrase in markup: the phrase as
/// markup writes it, every character taken literally, in either case.
pub open spec fn phrase_pattern(phrase: Seq<char>) -> Seq<char> {
    seq!['(', '?', 'i', ')'] + quoted(escape(phrase, false))
}

/// `s` with the occurrences of one phrase wrapped.
pub open spec fn wrap_phrase(s: Seq<char>, phrase: Seq<char>) -> Seq<char> {
    wrap_found(s, regex_matches(phrase_pattern(phrase), s))
}

/// `s` with the occurrences of each phrase wrapped, one phrase after the
/// other.
pub open spec fn wrap_phrases(s: Seq<char>, phrases: Seq<Seq<char>>) -> Seq<char>
    decreases phrases.len(),
{
    if phrases.len() == 0 {
        s
    } else {
        wrap_phrases(wrap_phrase(s, phrases[0]), phrases.skip(1))
    }
}

/// The length by which phrases are ordered: the bytes of the UTF-8 form.
pub open spec fn phrase_len(phrase: Seq<char>) -> usize {
    encode_utf8(phrase).len() as usize
}

/// `sorted` with `phrase` put in behind the phrases that are at least as
/// long.
pub open spec fn insert_by_len(sorted: Seq<Seq<char>>, phrase: Seq<char>) -> Seq<Seq<char>>
    decreases sorted.len(),
{
    if sorted.len() == 0 {
        seq![phrase]
    } else if phrase_len(sorted[0]) >= phrase_len(phrase) {
        seq![sorted[0]] + insert_by_len(sorted.skip(1), phrase)
    } else {
        seq![phrase] + sorted
    }
}

/// The phrases from the longest to the shortest; phrases of one length
/// keep their order.
pub open spec fn by_length_desc(phrases: Seq<Seq<char>>) -> Seq<Seq<char>>
    decreases phrases.len(),
{
    if phrases.len() == 0 {
        Seq::empty()
    } else {
        insert_by_len(by_length_desc(phrases.drop_last()), phrases.last())
    }
}

/// The markup with every occurrence of a phrase in its translatable text
/// wrapped in markers, longer phrases first.
pub open spec fn apply_ignore(markup: Seq<char>, phrases: Seq<Seq<char>>) -> Seq<char> {
    wrap_phrases(markup, by_length_desc(phrases))
}

/// Putting a phrase in at index `at` is `insert_by_len` where the phrases
/// before `at` are at least as long and the one at `at` is shorter.
pub proof fn lemma_insert_by_len(sorted: Seq<Seq<char>>, phrase: Seq<char>, at: int)
    requires
        0 <= at <= sorted.len(),
        forall|i: int| 0 <= i < at ==> phrase_len(#[trigger] sorted[i]) >= phrase_len(phrase),
        at < sorted.len() ==> phrase_len(sorted[at]) < phrase_len(phrase),
    ensures
        insert_by_len(sorted, phrase) == sorted.insert(at, phrase),
    decreases sorted.len(),
{
    if sorted.len() == 0 {
        assert(sorted.insert(at, phrase) =~= seq![phrase]);
    } else if at == 0 {
        assert(sorted.insert(0, phrase) =~= seq![phrase] + sorted);
    } else {
        assert(phrase_len(sorted[0]) >= phrase_len(phrase));
        let tail = sorted.skip(1);
        assert forall|i: int| 0 <= i < at - 1 implies phrase_len(#[trigger] tail[i]) >= phrase_len(
            phrase,
        ) by {
            assert(tail[i] == sorted[i + 1]);
        }
        lemma_insert_by_len(tail, phrase, at - 1);
        assert(sorted.insert(at, phrase) =~= seq![sorted[0]] + tail.insert(at - 1, phrase));
    }
}

/// Computes `by_length_desc`.
pub fn sort_phrases(phrases: &Vec<String>) -> (r: Vec<String>)
    ensures
        lines(r@) == by_length_desc(lines(phrases@)),
{
    let mut sorted: Vec<String> = Vec::new();
    let mut k: usize = 0;
    proof {
        assert(lines(phrases@).take(0) =~= Seq::<Seq<char>>::empty());
        assert(lines(sorted@) =~= Seq::<Seq<char>>::empty());
    }
    while k < phrases.len()
        invariant
            k <= phrases.len(),
            lines(sorted@) == by_length_desc(lines(phrases@).take(k as int)),
        decreases phrases.len() - k,
    {
        let phrase = phrases[k].clone();
        let key = phrase.as_str().len();
        let mut at: usize = 0;
        while at < sorted.len() && sorted[at].as_str().len() >= key
            invariant
                at <= sorted.len(),
                key == phrase_len(phrase@),
                forall|i: int| 0 <= i < at ==> phrase_len(#[trigger] lines(sorted@)[i]) >= phrase_len(phrase@),
            decreases sorted.len() - at,
        {
            assert(lines(sorted@)[at as int] == sorted@[at as int]@);
            at += 1;
        }
        proof {
            if at < sorted.len() {
                assert(lines(sorted@)[at as int] == sorted@[at as int]@);
            }
            lemma_insert_by_len(lines(sorted@), phrase@, at as int);
            let next = lines(phrases@).take(k + 1);
            assert(next.drop_last() =~= lines(phrases@).take(k as int));
            assert(next.last() == phrase@);
            assert(lines(sorted@.insert(at as int, phrase)) =~= lines(sorted@).insert(at as int, phrase@));
        }
        sorted.insert(at, phrase);
        k += 1;
    }
    proof {
        assert(lines(phrases@).take(phrases@.len() as int) =~= lines(phrases@));
    }
    sorted
}

/// Wraps the occurrences of one phrase in the translatable text of `s`.
pub fn wrap_one(s: &Vec<char>, phrase: &str) -> (r: Vec<char>)
    ensures
        r@ == wrap_phrase(s@, phrase@),
{
    let literal = escape_chars(&chars_of(phrase), false);
    let quoted_literal = quote_pattern(string_of(&literal).as_str());
    let mut pattern: Vec<char> = vec!['(', '?', 'i', ')'];
    proof {
        assert(pattern@ =~= seq!['(', '?', 'i', ')']);
    }
    crate::text::append_str(&mut pattern, quoted_literal.as_str());
    let found = find_matches(string_of(&pattern).as_str(), string_of(s).as_str());
    wrap_matches(s, &found)
}

/// Wraps every occurrence of a phrase in the translatable text of the
/// markup in a pair of markers. Longer phrases are wrapped first, and text
/// that is wrapped already is left alone, so that a phrase which is part
/// of a longer one does not break that one up.
pub fn apply_ignore_list(markup: &str, phrases: &Vec<String>) -> (r: String)
    ensures
        r@ == apply_ignore(markup@, lines(phrases@)),
        strip(r@) == strip(markup@),
{
    proof {
        lemma_strip_apply(markup@, lines(phrases@));
    }
    let sorted = sort_phrases(phrases);
    let mut acc = chars_of(markup);
    let mut k: usize = 0;
    proof {
        assert(lines(sorted@).skip(0) =~= lines(sorted@));
    }
    while k < sorted.len()
        invariant
            k <= sorted.len(),
            wrap_phrases(acc@, lines(sorted@).skip(k as int)) == apply_ignore(markup@, lines(phrases@)),
        decreases sorted.len() - k,
    {
        proof {
            let rest = lines(sorted@).skip(k as int);
            assert(rest[0] == sorted@[k as int]@);
            assert(rest.skip(1) =~= lines(sorted@).skip(k + 1));
        }
        acc = wrap_one(&acc, sorted[k].as_str());
        k += 1;
    }
    string_of(&acc)
}

/// Takes every marker out of the markup and leaves all else in place.
pub fn strip_ignore_markers(markup: &str) -> (r: String)
    ensures
        r@ == strip(markup@),
{
    let s = chars_of(markup);
    let out = strip_chars(&s);
    string_of(&out)
}

/// Stripping undoes the wrapping of the matches of any search.
pub proof fn lemma_strip_wrap_found(s: Seq<char>, found: Option<Seq<(usize, usize)>>)
    ensures
        strip(wrap_found(s, found)) == strip(s),
{
    if let Some(bytes) = found {
        lemma_select_ok(s, char_ranges(s, bytes), 0);
        lemma_strip_wrap_ranges(s, select(s, char_ranges(s, bytes), 0));
    }
}

/// Stripping undoes the wrapping of any phrases, in any order.
pub proof fn lemma_strip_wrap_phrases(s: Seq<char>, phrases: Seq<Seq<char>>)
    ensures
        strip(wrap_phrases(s, phrases)) == strip(s),
    decreases phrases.len(),
{
    if phrases.len() > 0 {
        lemma_strip_wrap_found(s, regex_matches(phrase_pattern(phrases[0]), s));
        lemma_strip_wrap_phrases(wrap_phrase(s, phrases[0]), phrases.skip(1));
    }
}

/// Wrapping and then stripping takes out the markers that wrapping put in
/// and those that the markup held before.
pub proof fn lemma_strip_apply(markup: Seq<char>, phrases: Seq<Seq<char>>)
    ensures
        strip(apply_ignore(markup, phrases)) == strip(markup),
{
    lemma_strip_wrap_phrases(markup, by_length_desc(phrases));
}

/// On markup that holds no marker, wrapping and then stripping gives the
/// markup back, whatever the phrases are.
pub proof fn lemma_strip_apply_identity(markup: Seq<char>, phrases: Seq<Seq<char>>)
    requires
        strip(markup) == markup,
    ensures
        strip(apply_ignore(markup, phrases)) == markup,
{
    lemma_strip_apply(markup, phrases);
}

/// The index of the first phrase that is shorter than `phrase`, or the
/// number of phrases.
pub open spec fn first_shorter(sorted: Seq<Seq<char>>, phrase: Seq<char>) -> int
    decreases sorted.len(),
{
    if sorted.len() > 0 && phrase_len(sorted[0]) >= phrase_len(phrase) {
        1 + first_shorter(sorted.skip(1), phrase)
    } else {
        0
    }
}

/// The phrases go from the longest to the shortest.
pub open spec fn longest_first(phrases: Seq<Seq<char>>) -> bool {
    forall|i: int, j: int|
        0 <= i < j < phrases.len() ==> phrase_len(#[trigger] phrases[i]) >= phrase_len(
            #[trigger] phrases[j],
        )
}

/// A phrase is put in before the first phrase that is shorter.
pub proof fn lemma_insert_at_first_shorter(sorted: Seq<Seq<char>>, phrase: Seq<char>)
    ensures
        0 <= first_shorter(sorted, phrase) <= sorted.len(),
        forall|i: int|
            0 <= i < first_shorter(sorted, phrase) ==> phrase_len(#[trigger] sorted[i]) >= phrase_len(
                phrase,
            ),
        first_shorter(sorted, phrase) < sorted.len() ==> phrase_len(
            sorted[first_shorter(sorted, phrase)],
        ) < phrase_len(phrase),
        insert_by_len(sorted, phrase) == sorted.insert(first_shorter(sorted, phrase), phrase),
    decreases sorted.len(),
{
    if sorted.len() > 0 && phrase_len(sorted[0]) >= phrase_len(phrase) {
        let tail = sorted.skip(1);
        lemma_insert_at_first_shorter(tail, phrase);
        let at = first_shorter(tail, phrase);
        assert forall|i: int| 0 <= i < at + 1 implies phrase_len(#[trigger] sorted[i]) >= phrase_len(
            phrase,
        ) by {
            if i > 0 {
                assert(sorted[i] == tail[i - 1]);
            }
        }
        if at + 1 < sorted.len() {
            assert(sorted[at + 1] == tail[at]);
        }
    }
    lemma_insert_by_len(sorted, phrase, first_shorter(sorted, phrase));
}

/// Longer phrases come first: the phrases are wrapped from the longest to
/// the shortest, and every phrase of the list is wrapped once for each
/// time that the list holds it.
pub proof fn lemma_by_length_desc(phrases: Seq<Seq<char>>)
    ensures
        longest_first(by_length_desc(phrases)),
        by_length_desc(phrases).to_multiset() == phrases.to_multiset(),
        by_length_desc(phrases).len() == phrases.len(),
    decreases phrases.len(),
{
    broadcast use vstd::seq_lib::to_multiset_build, vstd::seq_lib::to_multiset_insert;

    if phrases.len() > 0 {
        let before = phrases.drop_last();
        let last = phrases.last();
        lemma_by_length_desc(before);
        let sorted = by_length_desc(before);
        lemma_insert_at_first_shorter(sorted, last);
        let at = first_shorter(sorted, last);
        let all = sorted.insert(at, last);
        assert(by_length_desc(phrases) == all);
        assert(before.push(last) =~= phrases);
        assert(all.to_multiset() == sorted.to_multiset().insert(last));
        assert(phrases.to_multiset() == before.to_multiset().insert(last));
        assert forall|i: int, j: int| 0 <= i < j < all.len() implies phrase_len(
            #[trigger] all[i],
        ) >= phrase_len(#[trigger] all[j]) by {
            if j < at {
                assert(all[i] == sorted[i] && all[j] == sorted[j]);
            } else if j == at {
                assert(all[i] == sorted[i]);
            } else if i < at {
                assert(all[i] == sorted[i] && all[j] == sorted[j - 1]);
                if i < j - 1 {
                    assert(phrase_len(sorted[i]) >= phrase_len(sorted[j - 1]));
                }
            } else if i == at {
                assert(all[j] == sorted[j - 1]);
                if at < j - 1 {
                    assert(phrase_len(sorted[at]) >= phrase_len(sorted[j - 1]));
                }
            } else {
                assert(all[i] == sorted[i - 1] && all[j] == sorted[j - 1]);
            }
        }
    } else {
        assert(by_length_desc(phrases) =~= phrases);
    }
}

/// The text that was gathered as a run, where there is any.
pub open spec fn run_of(text: Seq<char>) -> Seq<Seq<char>> {
    if text.len() > 0 {
        seq![text]
    } else {
        Seq::empty()
    }
}

/// The runs of translatable characters of markup from index `i` on, where
/// `text` holds the run that is being gathered.
pub open spec fn runs_from(s: Seq<char>, i: int, text: Seq<char>) -> Seq<Seq<char>>
    decreases s.len() - i,
{
    if i < 0 || i >= s.len() {
        run_of(text)
    } else if translatable(s, i) {
        runs_from(s, i + 1, text.push(s[i]))
    } else {
        run_of(text) + runs_from(s, i + 1, Seq::empty())
    }
}

/// The text of markup that is offered for translation: the runs of
/// characters outside every tag and outside every shielded element.
pub open spec fn translatable_runs(markup: Seq<char>) -> Seq<Seq<char>> {
    runs_from(markup, 0, Seq::empty())
}

/// The text of markup that is offered for translation, run by run. What
/// stands inside a tag, and what an element for code, for raw HTML or a
/// marker holds, is no part of it.
pub fn translatable_text(markup: &str) -> (r: Vec<String>)
    ensures
        lines(r@) == translatable_runs(markup@),
{
    let s = chars_of(markup);
    let mask = translatable_mask(&s);
    let mut out: Vec<String> = Vec::new();
    let mut text: Vec<char> = Vec::new();
    let mut i: usize = 0;
    proof {
        assert(lines(out@) + runs_from(s@, 0, text@) =~= translatable_runs(s@));
    }
    while i < s.len()
        invariant
            i <= s.len(),
            mask.len() == s.len(),
            s@ == markup@,
            forall|j: int| 0 <= j < s.len() ==> mask[j] == translatable(s@, j),
            lines(out@) + runs_from(s@, i as int, text@) == translatable_runs(s@),
        decreases s.len() - i,
    {
        let ghost before = lines(out@);
        let ghost gathered = text@;
        if mask[i] {
            text.push(s[i]);
        } else {
            if text.len() > 0 {
                out.push(string_of(&text));
                text = Vec::new();
            }
            proof {
                assert(lines(out@) =~= before + run_of(gathered));
                assert(text@ =~= Seq::<char>::empty());
                assert(lines(out@) + runs_from(s@, i + 1, Seq::empty()) =~= before + (run_of(gathered)
                    + runs_from(s@, i + 1, Seq::empty())));
            }
        }
        i += 1;
    }
    let ghost before = lines(out@);
    if text.len() > 0 {
        out.push(string_of(&text));
        proof {
            assert(lines(out@) =~= before + run_of(text@));
        }
    }
    out
}

/// The marker is no element of the vocabulary: markup that holds one is
/// not read as a document before the marker is taken out.
pub proof fn lemma_marker_outside_vocabulary()
    ensures
        crate::markup::kind::kind_named(marker_name()) is None,
{
    reveal_with_fuel(crate::markup::kind::kind_named_from, 22);
    assert forall|i: int| 0 <= i < crate::markup::kind::KIND_COUNT implies TagKind::at(i).name()
        != marker_name() by {
        assert(TagKind::at(i).name().len() != marker_name().len() || TagKind::at(i).name()[0]
            != marker_name()[0]);
    }
}

} // verus!
