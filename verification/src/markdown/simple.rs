//! A text of paragraphs and headings that was written is read as those
//! paragraphs and headings, and written again as it was.

use vstd::prelude::*;
use crate::entries::{is_space, leading_spaces, trailing_spaces, trimmed};
use crate::markdown::block::{
    block_at, block_end, blocks_of, joined, MAX_BLOCK_DEPTH, Run, run_end, start_at, table_at,
    BlockStart,
};
use crate::markdown::chars::{is_letter, is_mark, repeat_len};
use crate::markdown::lines::{
    blank_len, chomp, digits_len, fence_len, has_char, heading_level, is_blank, is_html, is_quote,
    is_raw, is_reference, is_rule, lemma_line_len_bound, line_len, lines_from, lines_of, marker_of,
};
use crate::markdown::reader::document_of;
use crate::markdown::render::{
    flat, guarded_line, guarded_lines, markdown_of, render_block, render_blocks, render_inline,
    render_inlines, render_nth, repeated, unlines,
};
use crate::markdown::written::{
    lemma_inlines_of_written, lemma_written_at, lemma_written_first, one_line_text, place, written,
    written_before,
};
use crate::model::{BlockView, DocumentView, InlineView};

verus! {

/// A paragraph or a heading of one text on one line: the level of the
/// heading, or 0 for a paragraph, and the text.
pub ghost struct SimpleBlock {
    pub level: nat,
    pub text: Seq<char>,
}

/// A character with which a word begins: a letter of ASCII, or a character
/// beyond ASCII that is no white space.
pub open spec fn begins_word(c: char) -> bool {
    is_letter(c) || ((c as u32) >= 0x80 && !is_space(c))
}

/// What is asked of a simple block: the level is 6 at most; the text is
/// not empty, holds no line feed, and neither begins nor ends with white
/// space; and the text of a paragraph begins with a word.
pub open spec fn simple_ok(b: SimpleBlock) -> bool {
    &&& b.level <= 6
    &&& b.text.len() > 0
    &&& one_line_text(b.text)
    &&& !is_space(b.text[0])
    &&& !is_space(b.text.last())
    &&& (b.level == 0 ==> begins_word(b.text[0]))
}

/// Every block is a simple block as it is asked for.
pub open spec fn all_simple(bs: Seq<SimpleBlock>) -> bool {
    forall|k: int| 0 <= k < bs.len() ==> simple_ok(#[trigger] bs[k])
}

/// The line that is written for a simple block: the text as it is
/// written, behind as many `#` as the level of a heading and a space.
pub open spec fn simple_line(b: SimpleBlock) -> Seq<char> {
    if b.level == 0 {
        written(b.text)
    } else {
        repeated('#', b.level) + seq![' '] + written(b.text)
    }
}

/// The block of the document that a simple block stands for.
pub open spec fn simple_block(b: SimpleBlock) -> BlockView {
    if b.level == 0 {
        BlockView::Paragraph(seq![InlineView::Text(b.text)])
    } else {
        BlockView::Heading { level: b.level as u8, children: seq![InlineView::Text(b.text)] }
    }
}

/// The blocks that simple blocks stand for, from block `k` on.
pub open spec fn simple_blocks(bs: Seq<SimpleBlock>, k: int) -> Seq<BlockView>
    decreases bs.len() - k,
{
    if k < 0 || k >= bs.len() {
        Seq::empty()
    } else {
        seq![simple_block(bs[k])] + simple_blocks(bs, k + 1)
    }
}

/// The lines of simple blocks from block `k` on, with an empty line
/// between each two.
pub open spec fn spaced(bs: Seq<SimpleBlock>, k: int) -> Seq<Seq<char>>
    decreases bs.len() - k,
{
    if k < 0 || k >= bs.len() {
        Seq::empty()
    } else if k + 1 == bs.len() {
        seq![simple_line(bs[k])]
    } else {
        seq![simple_line(bs[k]), Seq::empty()] + spaced(bs, k + 1)
    }
}

/// The text of simple blocks: their lines with one empty line between
/// each two.
pub open spec fn simple_text(bs: Seq<SimpleBlock>) -> Seq<char> {
    unlines(spaced(bs, 0), 0)
}

/// A line that holds no line feed and ends with no carriage return.
pub open spec fn whole_line(l: Seq<char>) -> bool {
    (forall|i: int| 0 <= i < l.len() ==> l[i] != '\n') && (l.len() > 0 ==> l.last() != '\r')
}

/// The written text of a text on one line holds no line feed.
pub proof fn lemma_written_one_line(s: Seq<char>, i: int)
    requires
        0 <= i <= s.len(),
        one_line_text(s),
    ensures
        forall|j: int| 0 <= j < place(s, i) ==> written(s)[j] != '\n',
    decreases i,
{
    if i > 0 {
        lemma_written_one_line(s, i - 1);
        lemma_written_at(s, i - 1);
        assert(s[i - 1] != '\n');
        assert forall|j: int| 0 <= j < place(s, i) implies written(s)[j] != '\n' by {
            if j >= place(s, i - 1) {
                if crate::markdown::render::needs_backslash(s, i - 1, false) {
                    assert(j == place(s, i - 1) || j == place(s, i - 1) + 1);
                } else {
                    assert(j == place(s, i - 1));
                }
            }
        }
    }
}

/// The written text of a text that is asked for: it is not empty, holds
/// no line feed, and begins and ends as the text does.
pub proof fn lemma_written_shape(s: Seq<char>)
    requires
        s.len() > 0,
        one_line_text(s),
    ensures
        written(s).len() > 0,
        forall|j: int| 0 <= j < written(s).len() ==> written(s)[j] != '\n',
        written(s).last() == s.last(),
        written(s)[0] == '\\' || written(s)[0] == s[0],
        !is_mark(s[0]) ==> written(s)[0] == s[0],
{
    let n = s.len() as int;
    lemma_written_one_line(s, n);
    lemma_written_at(s, n - 1);
    lemma_written_first(s, 0);
    assert(written_before(s, 0) =~= Seq::<char>::empty());
    assert(place(s, 0) == 0);
}

/// The length of a run of a character that a text begins with, where
/// another character follows the run.
pub proof fn lemma_repeat_is(l: Seq<char>, i: int, c: char, n: int)
    requires
        0 <= i,
        0 <= n,
        i + n <= l.len(),
        forall|j: int| i <= j < i + n ==> l[j] == c,
        i + n == l.len() || l[i + n] != c,
    ensures
        repeat_len(l, i, c) == n,
    decreases n,
{
    if n > 0 {
        lemma_repeat_is(l, i + 1, c, n - 1);
    }
}

/// The line of a simple block holds no line feed, is not empty, and ends
/// with no white space.
pub proof fn lemma_simple_line_whole(b: SimpleBlock)
    requires
        simple_ok(b),
    ensures
        whole_line(simple_line(b)),
        simple_line(b).len() > 0,
        simple_line(b).last() == b.text.last(),
{
    assert(is_space('\r'));
    let t = written(b.text);
    lemma_written_shape(b.text);
    if b.level > 0 {
        let head = repeated('#', b.level) + seq![' '];
        let l = head + t;
        assert(simple_line(b) =~= l);
        assert forall|i: int| 0 <= i < l.len() implies l[i] != '\n' by {
            if i >= head.len() {
                assert(l[i] == t[i - head.len()]);
            }
        }
        assert(l.last() == t.last());
    }
}

/// The length of a line of a text is the length of the same line of what
/// is left of the text.
proof fn lemma_line_len_skip(s: Seq<char>, p: int, i: int)
    requires
        0 <= p <= i <= s.len(),
    ensures
        line_len(s, i) == line_len(s.skip(p), i - p),
    decreases s.len() - i,
{
    if i < s.len() {
        assert(s.skip(p)[i - p] == s[i]);
        if s[i] != '\n' {
            lemma_line_len_skip(s, p, i + 1);
        }
    }
}

/// The lines of a text from an index on are the lines of what is left of
/// the text.
proof fn lemma_lines_from_skip(s: Seq<char>, p: int, i: int)
    requires
        0 <= p <= i <= s.len(),
    ensures
        lines_from(s, i) == lines_from(s.skip(p), i - p),
    decreases s.len() - i,
{
    if i < s.len() {
        let n = line_len(s, i) as int;
        lemma_line_len_bound(s, i);
        lemma_line_len_skip(s, p, i);
        assert(s.skip(p).subrange(i - p, i - p + n) =~= s.subrange(i, i + n));
        if i + n < s.len() {
            lemma_lines_from_skip(s, p, i + n + 1);
        }
    }
}

/// The length of the first line of a text that begins with a whole line.
proof fn lemma_line_len_whole(l: Seq<char>, rest: Seq<char>, i: int)
    requires
        0 <= i <= l.len(),
        forall|j: int| 0 <= j < l.len() ==> l[j] != '\n',
        rest.len() == 0 || rest[0] == '\n',
    ensures
        line_len(l + rest, i) == l.len() - i,
    decreases l.len() - i,
{
    let s = l + rest;
    if i < l.len() {
        assert(s[i] == l[i]);
        lemma_line_len_whole(l, rest, i + 1);
    } else if rest.len() > 0 {
        assert(s[i] == rest[0]);
    }
}

/// The lines of the text of lines are the lines, where each of them is a
/// whole line and the last one is not empty.
pub proof fn lemma_lines_of_unlines(ls: Seq<Seq<char>>, k: int)
    requires
        0 <= k < ls.len(),
        forall|j: int| 0 <= j < ls.len() ==> whole_line(#[trigger] ls[j]),
        ls.last().len() > 0,
    ensures
        lines_of(unlines(ls, k)) == ls.skip(k),
        unlines(ls, k).len() > 0,
    decreases ls.len() - k,
{
    let l = ls[k];
    assert(whole_line(l));
    if k + 1 == ls.len() {
        assert(l == ls.last());
        lemma_line_len_whole(l, Seq::empty(), 0);
        assert(l + Seq::<char>::empty() =~= l);
        assert(l.subrange(0, l.len() as int) =~= l);
        assert(ls.skip(k) =~= seq![l]);
    } else {
        lemma_lines_of_unlines(ls, k + 1);
        let rest = unlines(ls, k + 1);
        let tail = seq!['\n'] + rest;
        let s = l + tail;
        assert(unlines(ls, k) =~= s);
        lemma_line_len_whole(l, tail, 0);
        assert(s.subrange(0, l.len() as int) =~= l);
        assert(chomp(l) == l);
        let next = l.len() as int + 1;
        lemma_lines_from_skip(s, next, next);
        assert(s.skip(next) =~= rest);
        assert(lines_from(s, 0) == seq![l] + lines_from(s, next));
        assert(seq![l] + ls.skip(k + 1) =~= ls.skip(k));
    }
}

/// The lines of simple blocks with empty lines between them: the line of
/// each block stands at twice its index, empty lines stand between them,
/// and each line is a whole line.
proof fn lemma_spaced_whole(bs: Seq<SimpleBlock>, k: int)
    requires
        0 <= k < bs.len(),
        all_simple(bs),
    ensures
        spaced(bs, k).len() == 2 * (bs.len() - k) - 1,
        forall|j: int| 0 <= j < spaced(bs, k).len() ==> whole_line(#[trigger] spaced(bs, k)[j]),
        spaced(bs, k).last().len() > 0,
        forall|j: int|
            0 <= j < bs.len() - k ==> #[trigger] spaced(bs, k)[2 * j] == simple_line(bs[k + j]),
        forall|j: int|
            0 <= j < bs.len() - k - 1 ==> (#[trigger] spaced(bs, k)[2 * j + 1]).len() == 0,
    decreases bs.len() - k,
{
    assert(simple_ok(bs[k]));
    lemma_simple_line_whole(bs[k]);
    let all = spaced(bs, k);
    if k + 1 < bs.len() {
        lemma_spaced_whole(bs, k + 1);
        let rest = spaced(bs, k + 1);
        assert(all =~= seq![simple_line(bs[k]), Seq::<char>::empty()] + rest);
        assert forall|j: int| 0 <= j < all.len() implies whole_line(#[trigger] all[j]) by {
            if j >= 2 {
                assert(all[j] == rest[j - 2]);
            }
        }
        assert(all.last() == rest.last());
        assert forall|j: int| 0 <= j < bs.len() - k implies #[trigger] all[2 * j] == simple_line(
            bs[k + j],
        ) by {
            if j > 0 {
                assert(all[2 * j] == rest[2 * (j - 1)]);
            }
        }
        assert forall|j: int| 0 <= j < bs.len() - k - 1 implies (#[trigger] all[2 * j + 1]).len()
            == 0 by {
            if j > 0 {
                assert(all[2 * j + 1] == rest[2 * (j - 1) + 1]);
            }
        }
    }
}

/// A line that begins with a word begins a paragraph, and is written as
/// it is.
proof fn lemma_word_line(l: Seq<char>)
    requires
        l.len() > 0,
        begins_word(l[0]),
    ensures
        !is_blank(l),
        fence_len(l) == 0,
        heading_level(l) == 0,
        !is_rule(l),
        !is_quote(l),
        marker_of(l) is None,
        !is_raw(l),
        guarded_line(l) == l,
        leading_spaces(l) == 0,
{
    assert(l[0] != ' ' && l[0] != '\t');
    assert(blank_len(l, 0) == 0);
    assert(repeat_len(l, 0, '`') == 0);
    assert(repeat_len(l, 0, '#') == 0);
    assert(repeat_len(l, 0, ' ') == 0);
    assert(digits_len(l, 0) == 0);
    assert(!is_html(l));
    assert(!is_reference(l));
    assert(!is_space(l[0]));
}

/// A text without white space at its ends is trimmed as it is.
proof fn lemma_trimmed_same(l: Seq<char>)
    requires
        l.len() > 0,
        !is_space(l[0]),
        !is_space(l.last()),
    ensures
        trimmed(l) == l,
{
    assert(leading_spaces(l) == 0);
    assert(l.skip(0) =~= l);
    assert(trailing_spaces(l) == 0);
    assert(l.take(l.len() as int) =~= l);
}

/// The line of a simple block begins the block that it stands for, and
/// the block ends with the line, where an empty line or nothing follows
/// the line.
#[verifier::rlimit(40)]
proof fn lemma_simple_block_at(lines: Seq<Seq<char>>, i: int, b: SimpleBlock, depth: nat)
    requires
        0 <= i < lines.len(),
        simple_ok(b),
        lines[i] == simple_line(b),
        i + 1 < lines.len() ==> lines[i + 1].len() == 0,
    ensures
        !is_blank(lines[i]),
        block_end(lines, i, depth) == i + 1,
        block_at(lines, i, i + 1, depth) == simple_block(b),
{
    let l = lines[i];
    let s = b.text;
    let t = written(s);
    lemma_simple_line_whole(b);
    lemma_written_shape(s);
    if i + 1 < lines.len() {
        assert(is_blank(lines[i + 1]));
        assert(!has_char(lines[i + 1], 0, '-'));
    }
    assert(table_at(lines, i) is None);
    assert(joined(lines, i, i + 1) == l);
    lemma_inlines_of_written(s);
    if b.level == 0 {
        assert(!is_mark(s[0]));
        assert(l[0] == s[0]);
        lemma_word_line(l);
        assert(start_at(lines, i, depth) == BlockStart::Paragraph);
        assert(run_end(lines, i + 1, Run::Text, depth) == i + 1);
        lemma_trimmed_same(l);
    } else {
        let k = b.level as int;
        let hashes = repeated('#', b.level);
        assert(l =~= hashes + seq![' '] + t);
        assert(l[0] == '#');
        assert(forall|j: int| 0 <= j < k ==> l[j] == '#');
        assert(l[k] == ' ');
        lemma_repeat_is(l, 0, '#', k);
        assert(blank_len(l, 0) == 0);
        assert(repeat_len(l, 0, '`') == 0);
        assert(fence_len(l) == 0);
        assert(heading_level(l) == k);
        assert(start_at(lines, i, depth) == BlockStart::Heading);
        // what stands behind the `#` is a space and the text as written
        let after = l.skip(k);
        assert(after =~= seq![' '] + t);
        assert(is_space(' '));
        assert(after.skip(1) =~= t);
        assert(t[0] == '\\' || t[0] == s[0]);
        assert(!is_space('\\'));
        assert(!is_space(t[0]));
        assert(leading_spaces(t) == 0);
        assert(leading_spaces(after) == 1);
        assert(t.skip(0) =~= t);
        assert(trailing_spaces(t) == 0);
        assert(t.take(t.len() as int) =~= t);
        assert(trimmed(after) == t);
    }
}

/// The blocks of the lines of simple blocks are the blocks that the
/// simple blocks stand for.
proof fn lemma_blocks_of_spaced(bs: Seq<SimpleBlock>, k: int, depth: nat)
    requires
        0 <= k <= bs.len(),
        bs.len() > 0,
        all_simple(bs),
    ensures
        blocks_of(spaced(bs, 0), 2 * k, depth) == simple_blocks(bs, k),
    decreases bs.len() - k,
{
    let lines = spaced(bs, 0);
    lemma_spaced_whole(bs, 0);
    if k < bs.len() {
        let i = 2 * k;
        assert(lines[2 * k] == simple_line(bs[0 + k]));
        assert(simple_ok(bs[k]));
        if k + 1 < bs.len() {
            assert(lines[2 * k + 1].len() == 0);
        }
        lemma_simple_block_at(lines, i, bs[k], depth);
        lemma_blocks_of_spaced(bs, k + 1, depth);
        if k + 1 < bs.len() {
            assert(is_blank(lines[i + 1]));
            assert(blocks_of(lines, i + 1, depth) == blocks_of(lines, i + 2, depth));
        } else {
            assert(blocks_of(lines, i + 1, depth) =~= Seq::<BlockView>::empty());
            assert(simple_blocks(bs, k + 1) =~= Seq::<BlockView>::empty());
        }
    }
}

/// A text on one line is flat as it is.
proof fn lemma_flat_one_line(s: Seq<char>)
    requires
        forall|i: int| 0 <= i < s.len() ==> s[i] != '\n',
    ensures
        flat(s, false) == s,
    decreases s.len(),
{
    if s.len() > 0 {
        let rest = s.skip(1);
        assert forall|i: int| 0 <= i < rest.len() implies rest[i] != '\n' by {
            assert(rest[i] == s[i + 1]);
        }
        lemma_flat_one_line(rest);
        assert(seq![s[0]] + rest =~= s);
    }
}

/// The block that a simple block stands for is written as the line of the
/// simple block.
proof fn lemma_render_simple_block(b: SimpleBlock)
    requires
        simple_ok(b),
    ensures
        render_block(simple_block(b)) == seq![simple_line(b)],
{
    let s = b.text;
    let t = written(s);
    let inlines = seq![InlineView::Text(s)];
    lemma_written_shape(s);
    assert(inlines.skip(1) =~= Seq::<InlineView>::empty());
    assert(render_inlines(inlines.skip(1), false) =~= Seq::<char>::empty());
    assert(render_inline(InlineView::Text(s), false) == t);
    assert(inlines[0] == InlineView::Text(s));
    assert(render_inlines(inlines, false) =~= t);
    if b.level == 0 {
        assert(is_space('\r'));
        lemma_line_len_whole(t, Seq::empty(), 0);
        assert(t + Seq::<char>::empty() =~= t);
        assert(t.subrange(0, t.len() as int) =~= t);
        assert(chomp(t) == t);
        assert(lines_of(t) =~= seq![t]);
        assert(!is_mark(s[0]));
        lemma_word_line(t);
        assert(guarded_lines(seq![t]) =~= seq![t]);
    } else {
        lemma_flat_one_line(t);
    }
}

/// The blocks of simple blocks, one for each.
proof fn lemma_simple_blocks_index(bs: Seq<SimpleBlock>, k: int)
    requires
        0 <= k <= bs.len(),
    ensures
        simple_blocks(bs, k).len() == bs.len() - k,
        forall|j: int|
            0 <= j < bs.len() - k ==> #[trigger] simple_blocks(bs, k)[j] == simple_block(bs[k + j]),
    decreases bs.len() - k,
{
    if k < bs.len() {
        lemma_simple_blocks_index(bs, k + 1);
        let all = simple_blocks(bs, k);
        let rest = simple_blocks(bs, k + 1);
        assert forall|j: int| 0 <= j < bs.len() - k implies #[trigger] all[j] == simple_block(
            bs[k + j],
        ) by {
            if j > 0 {
                assert(all[j] == rest[j - 1]);
            }
        }
    }
}

/// The blocks that simple blocks stand for are written as the lines of the
/// simple blocks with empty lines between them.
proof fn lemma_render_simple_blocks(bs: Seq<SimpleBlock>, k: int)
    requires
        0 <= k <= bs.len(),
        all_simple(bs),
    ensures
        render_blocks(simple_blocks(bs, 0), k, true) == spaced(bs, k),
        simple_blocks(bs, 0).len() == bs.len(),
    decreases bs.len() - k,
{
    let blocks = simple_blocks(bs, 0);
    lemma_simple_blocks_index(bs, 0);
    if k < bs.len() {
        assert(blocks[k] == simple_block(bs[0 + k]));
        assert(simple_ok(bs[k]));
        lemma_render_simple_block(bs[k]);
        assert(render_nth(blocks, k) == render_block(blocks[k]));
        lemma_render_simple_blocks(bs, k + 1);
        let line = simple_line(bs[k]);
        if k + 1 < bs.len() {
            assert(seq![line] + seq![Seq::<char>::empty()] + spaced(bs, k + 1) =~= spaced(bs, k));
        } else {
            assert(seq![line] + Seq::<Seq<char>>::empty() + Seq::<Seq<char>>::empty() =~= spaced(
                bs,
                k,
            ));
        }
    }
}

/// A text of paragraphs and headings that was written, one empty line
/// between each two, is read as those paragraphs and headings.
pub proof fn lemma_document_of_simple(bs: Seq<SimpleBlock>)
    requires
        bs.len() > 0,
        all_simple(bs),
    ensures
        document_of(simple_text(bs)) == (DocumentView { blocks: simple_blocks(bs, 0) }),
{
    lemma_spaced_whole(bs, 0);
    lemma_lines_of_unlines(spaced(bs, 0), 0);
    assert(spaced(bs, 0).skip(0) =~= spaced(bs, 0));
    lemma_blocks_of_spaced(bs, 0, MAX_BLOCK_DEPTH as nat);
}

/// Paragraphs and headings of one text each are written as the text of
/// their lines.
pub proof fn lemma_markdown_of_simple(bs: Seq<SimpleBlock>)
    requires
        all_simple(bs),
    ensures
        markdown_of(DocumentView { blocks: simple_blocks(bs, 0) }) == simple_text(bs),
{
    lemma_render_simple_blocks(bs, 0);
}

/// A text of paragraphs and headings that was written, one empty line
/// between each two, is read and written again as it was.
pub proof fn lemma_simple_text_round_trip(bs: Seq<SimpleBlock>)
    requires
        bs.len() > 0,
        all_simple(bs),
    ensures
        markdown_of(document_of(simple_text(bs))) == simple_text(bs),
{
    lemma_document_of_simple(bs);
    lemma_markdown_of_simple(bs);
}

} // verus!
