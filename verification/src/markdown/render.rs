//! Writing a document as a text of Markdown.

use vstd::prelude::*;
use crate::markdown::chars::{
    count_repeat, count_trail, gap, is_gap, is_mark, is_word, lemma_repeat_len_bound, mark,
    repeat_len, trail_len, word,
};
use crate::markdown::inline::{html_at, read_leaf};
use crate::markdown::lines::{
    fence_len, fence_of, heading_level, heading_of, is_quote, is_rule, is_thematic, lines_of,
    marker_of, read_marker, split_lines,
};
use crate::model::{
    Alignment, Block, block_views, BlockView, Document, DocumentView, Inline, inline_views,
    InlineView,
};
use crate::number::{decimal, to_decimal};
use crate::text::{append_chars, chars_of, rows, string_of};

verus! {

/// White space stands before index `i`.
pub open spec fn gap_before(s: Seq<char>, i: int) -> bool {
    0 < i <= s.len() && is_gap(s[i - 1])
}

/// White space stands behind index `i`.
pub open spec fn gap_after(s: Seq<char>, i: int) -> bool {
    0 <= i && i + 1 < s.len() && is_gap(s[i + 1])
}

/// A character of a word stands before index `i`.
pub open spec fn word_before(s: Seq<char>, i: int) -> bool {
    0 < i <= s.len() && is_word(s[i - 1])
}

/// A character of a word stands behind index `i`.
pub open spec fn word_after(s: Seq<char>, i: int) -> bool {
    0 <= i && i + 1 < s.len() && is_word(s[i + 1])
}

/// Whether the character at index `i` of a text must have a backslash in
/// front of it to be read as text:
/// a backslash before a punctuation mark or at the end of the text;
/// a backtick;
/// a `*` that does not stand between white space, and a `_` that stands
/// neither between white space nor inside a word;
/// a `~` beside another;
/// a `]` before a `(`, and inside the text of a link every bracket;
/// a `<` with which raw HTML would begin.
pub open spec fn needs_backslash(s: Seq<char>, i: int, linked: bool) -> bool {
    let c = s[i];
    if c == '\\' {
        i + 1 == s.len() || is_mark(s[i + 1])
    } else if c == '`' {
        true
    } else if c == '*' {
        !(gap_before(s, i) && gap_after(s, i))
    } else if c == '_' {
        !((gap_before(s, i) && gap_after(s, i)) || (word_before(s, i) && word_after(s, i)))
    } else if c == '~' {
        (i > 0 && s[i - 1] == '~') || (i + 1 < s.len() && s[i + 1] == '~')
    } else if c == '[' {
        linked
    } else if c == ']' {
        linked || (i + 1 < s.len() && s[i + 1] == '(')
    } else if c == '<' {
        html_at(s, i) is Some
    } else {
        false
    }
}

/// A text as it is written from index `i` on, with a backslash where one
/// is needed. `linked` says that the text is part of the text of a link.
pub open spec fn text_from(s: Seq<char>, i: int, linked: bool) -> Seq<char>
    decreases s.len() - i,
{
    if i < 0 || i >= s.len() {
        Seq::empty()
    } else if needs_backslash(s, i, linked) {
        seq!['\\', s[i]] + text_from(s, i + 1, linked)
    } else {
        seq![s[i]] + text_from(s, i + 1, linked)
    }
}

/// `s` with a backslash in front of each backslash and each `a` or `b`.
pub open spec fn guarded(s: Seq<char>, a: char, b: char) -> Seq<char>
    decreases s.len(),
{
    if s.len() == 0 {
        Seq::empty()
    } else if s[0] == '\\' || s[0] == a || s[0] == b {
        seq!['\\', s[0]] + guarded(s.skip(1), a, b)
    } else {
        seq![s[0]] + guarded(s.skip(1), a, b)
    }
}

/// The length of the longest run of `c` at index `i` or behind it.
pub open spec fn longest_run(s: Seq<char>, i: int, c: char) -> nat
    decreases s.len() - i,
{
    if i < 0 || i >= s.len() {
        0
    } else if s[i] == c {
        let r = repeat_len(s, i, c);
        proof {
            lemma_repeat_len_bound(s, i, c);
        }
        let rest = longest_run(s, i + r, c);
        if r > rest {
            r
        } else {
            rest
        }
    } else {
        longest_run(s, i + 1, c)
    }
}

/// `n` times the character `c`.
pub open spec fn repeated(c: char, n: nat) -> Seq<char> {
    Seq::new(n, |i: int| c)
}

/// The title of a link as it is written: nothing where it is empty, and
/// between quotation marks behind a space otherwise.
pub open spec fn title_part(title: Seq<char>) -> Seq<char> {
    if title.len() == 0 {
        Seq::empty()
    } else {
        seq![' ', '"'] + guarded(title, '"', '"') + seq!['"']
    }
}

/// Whether a run of exactly `n` backticks stands at index `i` of a text or
/// behind it.
pub open spec fn has_run(s: Seq<char>, i: int, n: nat) -> bool
    decreases s.len() - i,
{
    if i < 0 || i >= s.len() {
        false
    } else if s[i] == '`' {
        let r = repeat_len(s, i, '`');
        proof {
            lemma_repeat_len_bound(s, i, '`');
        }
        r == n || has_run(s, i + r, n)
    } else {
        has_run(s, i + 1, n)
    }
}

/// The least number from `n` on that is the length of no run of backticks
/// in a text.
pub open spec fn free_run(s: Seq<char>, n: nat) -> nat
    decreases s.len() + 1 - n,
{
    if n > s.len() || !has_run(s, 0, n) {
        n
    } else {
        free_run(s, n + 1)
    }
}

/// A code span as it is written: between runs of backticks of the least
/// length that no run in the text has, with a space at each side where the
/// text begins or ends with a backtick or a space.
pub open spec fn code_span(s: Seq<char>) -> Seq<char> {
    let ticks = repeated('`', free_run(s, 1));
    let pad: Seq<char> = if s.len() > 0 && (s[0] == '`' || s.last() == '`' || (s[0] == ' ' && s.last()
        == ' ' && trail_len(s, ' ') < s.len())) {
        seq![' ']
    } else {
        Seq::empty()
    };
    ticks + pad + s + pad + ticks
}

/// An inline as it is written. `linked` says that the inline is part of
/// the text of a link.
pub open spec fn render_inline(x: InlineView, linked: bool) -> Seq<char>
    decreases x,
{
    match x {
        InlineView::Text(s) => text_from(s, 0, linked),
        InlineView::Emphasis(c) => seq!['*'] + render_inlines(c, linked) + seq!['*'],
        InlineView::Strong(c) => seq!['*', '*'] + render_inlines(c, linked) + seq!['*', '*'],
        InlineView::Strikethrough(c) => seq!['~', '~'] + render_inlines(c, linked) + seq!['~', '~'],
        InlineView::Link { destination, title, children } => seq!['['] + render_inlines(
            children,
            true,
        ) + seq![']', '('] + guarded(destination, ')', ')') + title_part(title) + seq![')'],
        InlineView::Image { destination, title, alt } => seq!['!', '['] + guarded(alt, '[', ']')
            + seq![']', '('] + guarded(destination, ')', ')') + title_part(title) + seq![')'],
        InlineView::CodeSpan(s) => code_span(s),
        InlineView::RawHtmlInline(s) => s,
        InlineView::SoftBreak => seq!['\n'],
        InlineView::LineBreak => seq!['\\', '\n'],
    }
}

/// Inlines as they are written, one behind the other.
pub open spec fn render_inlines(xs: Seq<InlineView>, linked: bool) -> Seq<char>
    decreases xs,
{
    if xs.len() == 0 {
        Seq::empty()
    } else {
        render_inline(xs[0], linked) + render_inlines(xs.skip(1), linked)
    }
}

/// A text on one line, for a heading or the cell of a table: a space
/// stands for each line feed, and in a cell a backslash stands before
/// each `|`.
pub open spec fn flat(s: Seq<char>, cell: bool) -> Seq<char>
    decreases s.len(),
{
    if s.len() == 0 {
        Seq::empty()
    } else if s[0] == '\n' {
        seq![' '] + flat(s.skip(1), cell)
    } else if cell && s[0] == '|' {
        seq!['\\', '|'] + flat(s.skip(1), cell)
    } else {
        seq![s[0]] + flat(s.skip(1), cell)
    }
}

/// The cell of the delimiter row for an alignment.
pub open spec fn delimiter_cell(a: Alignment) -> Seq<char> {
    match a {
        Alignment::Unaligned => seq!['-', '-', '-'],
        Alignment::Left => seq![':', '-', '-'],
        Alignment::Center => seq![':', '-', ':'],
        Alignment::Right => seq!['-', '-', ':'],
    }
}

/// The delimiter row of a table from column `i` on.
pub open spec fn delimiter_from(a: Seq<Alignment>, i: int) -> Seq<char>
    decreases a.len() - i,
{
    if i < 0 || i >= a.len() {
        Seq::empty()
    } else {
        seq![' '] + delimiter_cell(a[i]) + seq![' ', '|'] + delimiter_from(a, i + 1)
    }
}

/// The text of a cell of a table.
pub open spec fn cell_text(b: BlockView) -> Seq<char> {
    match b {
        BlockView::TableCell { children, .. } => flat(render_inlines(children, false), true),
        _ => Seq::empty(),
    }
}

/// The cells of a row as they are written, from cell `i` on.
pub open spec fn cells_text(cells: Seq<BlockView>, i: int) -> Seq<char>
    decreases cells.len() - i,
{
    if i < 0 || i >= cells.len() {
        Seq::empty()
    } else {
        seq![' '] + cell_text(cells[i]) + seq![' ', '|'] + cells_text(cells, i + 1)
    }
}

/// A row of a table as it is written.
pub open spec fn row_text(b: BlockView) -> Seq<char> {
    match b {
        BlockView::TableRow(cells) => seq!['|'] + cells_text(cells, 0),
        _ => seq!['|'],
    }
}

/// The lines of the rows of a table from row `i` on, with the delimiter
/// row behind the first row.
pub open spec fn rows_lines(table: Seq<BlockView>, a: Seq<Alignment>, i: int) -> Seq<Seq<char>>
    decreases table.len() - i,
{
    if i < 0 || i >= table.len() {
        Seq::empty()
    } else if i == 0 {
        seq![row_text(table[0]), seq!['|'] + delimiter_from(a, 0)] + rows_lines(table, a, 1)
    } else {
        seq![row_text(table[i])] + rows_lines(table, a, i + 1)
    }
}

/// A line behind a prefix; the prefix without the spaces at its end where
/// the line is empty.
pub open spec fn prefixed(prefix: Seq<char>, l: Seq<char>) -> Seq<char> {
    if l.len() == 0 {
        prefix.take(prefix.len() - trail_len(prefix, ' '))
    } else {
        prefix + l
    }
}

/// Lines behind prefixes: the first line behind `first`, every other line
/// behind `other`.
pub open spec fn prefixed_lines(ls: Seq<Seq<char>>, first: Seq<char>, other: Seq<char>) -> Seq<
    Seq<char>,
> {
    if ls.len() == 0 {
        seq![prefixed(first, Seq::empty())]
    } else {
        Seq::new(
            ls.len(),
            |j: int| if j == 0 {
                prefixed(first, ls[0])
            } else {
                prefixed(other, ls[j])
            },
        )
    }
}

/// A line of a paragraph as it is written: with a backslash in it where
/// the line would else begin a heading, a quote, a list, a code block or
/// be a thematic break. The backslash stands before the first character,
/// and in front of the sign behind the number of a numbered item.
pub open spec fn guarded_line(l: Seq<char>) -> Seq<char> {
    if fence_len(l) > 0 || heading_level(l) > 0 || is_rule(l) || is_quote(l) {
        seq!['\\'] + l
    } else {
        match marker_of(l) {
            Some(m) => if m.ordered && 2 <= m.width <= l.len() + 1 {
                l.take(m.width - 2) + seq!['\\'] + l.skip(m.width - 2)
            } else {
                seq!['\\'] + l
            },
            None => l,
        }
    }
}

/// The lines of a paragraph as they are written.
pub open spec fn guarded_lines(ls: Seq<Seq<char>>) -> Seq<Seq<char>> {
    Seq::new(ls.len(), |i: int| guarded_line(ls[i]))
}

/// The marker of the item with the index `k` in a list: `-`, or the
/// number of the item and `.`; where `other` is set `*`, or the number and
/// `)`.
pub open spec fn marker_text(ordered: bool, start: Option<u64>, k: int, other: bool) -> Seq<char> {
    if ordered {
        let first: int = match start {
            Some(n) => n as int,
            None => 1,
        };
        decimal((first + k) as nat) + seq![
            if other {
                ')'
            } else {
                '.'
            },
            ' ',
        ]
    } else {
        seq![
            if other {
                '*'
            } else {
                '-'
            },
            ' ',
        ]
    }
}

/// Whether a block is a list, and one of numbered items.
pub open spec fn list_kind(b: BlockView) -> Option<bool> {
    match b {
        BlockView::List { ordered, .. } => Some(ordered),
        _ => None,
    }
}

/// Whether the list at index `k` is written with the other markers: it
/// stands behind a list of the same kind that is not. Two lists of one
/// kind, one behind the other, would else be read as one.
pub open spec fn other_markers(bs: Seq<BlockView>, k: int) -> bool
    decreases k,
{
    0 < k < bs.len() && list_kind(bs[k]) is Some && list_kind(bs[k - 1]) == list_kind(bs[k])
        && !other_markers(bs, k - 1)
}

/// The lines of a block as they are written.
pub open spec fn render_block(b: BlockView) -> Seq<Seq<char>>
    decreases b, 0int,
{
    match b {
        BlockView::Paragraph(c) => guarded_lines(lines_of(render_inlines(c, false))),
        BlockView::Heading { level, children } => {
            let text = flat(render_inlines(children, false), false);
            if text.len() == 0 {
                seq![repeated('#', level as nat)]
            } else {
                seq![repeated('#', level as nat) + seq![' '] + text]
            }
        },
        BlockView::List { ordered, start, tight, items } => render_items(
            items,
            0,
            ordered,
            start,
            tight,
            false,
        ),
        BlockView::ListItem(c) => prefixed_lines(
            render_blocks(c, 0, true),
            seq!['-', ' '],
            seq![' ', ' '],
        ),
        BlockView::BlockQuote(c) => prefixed_lines(
            render_blocks(c, 0, true),
            seq!['>', ' '],
            seq!['>', ' '],
        ),
        BlockView::CodeBlock { info, literal } => {
            let n = longest_run(literal, 0, '`') + 1;
            let fence = repeated(
                '`',
                if n < 3 {
                    3
                } else {
                    n
                },
            );
            seq![fence + info] + lines_of(literal) + seq![fence]
        },
        BlockView::Table { alignments, rows } => if rows.len() == 0 {
            seq![row_text(BlockView::ThematicBreak), seq!['|'] + delimiter_from(alignments, 0)]
        } else {
            rows_lines(rows, alignments, 0)
        },
        BlockView::TableRow(cells) => seq![row_text(b)],
        BlockView::TableCell { .. } => seq![cell_text(b)],
        BlockView::ThematicBreak => seq![seq!['-', '-', '-']],
        BlockView::RawHtmlBlock(s) => lines_of(s),
    }
}

/// The lines of an item for the place behind its marker: where the first
/// line is a thematic break it is written with underscores, since a line
/// of a marker and its own sign would be read as a thematic break.
pub open spec fn no_rule_first(ls: Seq<Seq<char>>) -> Seq<Seq<char>> {
    if ls.len() > 0 && is_rule(ls[0]) {
        ls.update(0, seq!['_', '_', '_'])
    } else {
        ls
    }
}

/// Whether an empty line stands between the blocks at the indices `k` and
/// `k` + 1: always where `loose` is set, and between two paragraphs, which
/// would else be read as one.
pub open spec fn apart(bs: Seq<BlockView>, k: int, loose: bool) -> bool {
    0 <= k && k + 1 < bs.len() && (loose || (bs[k] is Paragraph && bs[k + 1] is Paragraph))
}

/// The lines of the items of a list from item `k` on, with an empty line
/// between each two in a loose list.
pub open spec fn render_items(
    items: Seq<BlockView>,
    k: int,
    ordered: bool,
    start: Option<u64>,
    tight: bool,
    other: bool,
) -> Seq<Seq<char>>
    decreases items, 1int, items.len() - k,
{
    if k < 0 || k >= items.len() {
        Seq::empty()
    } else {
        let marker = marker_text(ordered, start, k, other);
        let inner = match items[k] {
            BlockView::ListItem(c) => render_blocks(c, 0, !tight),
            _ => render_block(items[k]),
        };
        let lines = prefixed_lines(no_rule_first(inner), marker, repeated(' ', marker.len()));
        let gap: Seq<Seq<char>> = if !tight && k + 1 < items.len() {
            seq![Seq::empty()]
        } else {
            Seq::empty()
        };
        lines + gap + render_items(items, k + 1, ordered, start, tight, other)
    }
}

/// The lines of the block at index `k` of a sequence of blocks.
pub open spec fn render_nth(bs: Seq<BlockView>, k: int) -> Seq<Seq<char>>
    decreases bs, 1int, 0int,
{
    if 0 <= k < bs.len() {
        match bs[k] {
            BlockView::List { ordered, start, tight, items } => render_items(
                items,
                0,
                ordered,
                start,
                tight,
                other_markers(bs, k),
            ),
            _ => render_block(bs[k]),
        }
    } else {
        Seq::empty()
    }
}

/// The lines of blocks as they are written from block `k` on, with an
/// empty line between each two where `loose` is set.
pub open spec fn render_blocks(bs: Seq<BlockView>, k: int, loose: bool) -> Seq<Seq<char>>
    decreases bs, 2int, bs.len() - k,
{
    if k < 0 || k >= bs.len() {
        Seq::empty()
    } else {
        let gap: Seq<Seq<char>> = if apart(bs, k, loose) {
            seq![Seq::empty()]
        } else {
            Seq::empty()
        };
        render_nth(bs, k) + gap + render_blocks(bs, k + 1, loose)
    }
}

/// Lines with a line feed between each two.
pub open spec fn unlines(ls: Seq<Seq<char>>, k: int) -> Seq<char>
    decreases ls.len() - k,
{
    if k < 0 || k >= ls.len() {
        Seq::empty()
    } else if k + 1 == ls.len() {
        ls[k]
    } else {
        ls[k] + seq!['\n'] + unlines(ls, k + 1)
    }
}

/// A document as a text of Markdown: its blocks with an empty line between
/// each two, and no line feed at the end.
pub open spec fn markdown_of(doc: DocumentView) -> Seq<char> {
    unlines(render_blocks(doc.blocks, 0, true), 0)
}

/// Computes `needs_backslash`.
fn wants_backslash(s: &Vec<char>, i: usize, linked: bool) -> (r: bool)
    requires
        i < s.len(),
    ensures
        r == needs_backslash(s@, i as int, linked),
{
    let c = s[i];
    let last = s.len() - i == 1;
    if c == '\\' {
        last || mark(s[i + 1])
    } else if c == '`' {
        true
    } else if c == '*' {
        !(i > 0 && gap(s[i - 1]) && !last && gap(s[i + 1]))
    } else if c == '_' {
        let between_gaps = i > 0 && gap(s[i - 1]) && !last && gap(s[i + 1]);
        let inside_word = i > 0 && word(s[i - 1]) && !last && word(s[i + 1]);
        !(between_gaps || inside_word)
    } else if c == '~' {
        (i > 0 && s[i - 1] == '~') || (!last && s[i + 1] == '~')
    } else if c == '[' {
        linked
    } else if c == ']' {
        linked || (!last && s[i + 1] == '(')
    } else if c == '<' {
        read_leaf(s, i).is_some()
    } else {
        false
    }
}

/// Appends `text_from(s, 0, linked)` to `out`.
pub fn write_text(out: &mut Vec<char>, s: &Vec<char>, linked: bool)
    ensures
        final(out)@ == old(out)@ + text_from(s@, 0, linked),
{
    let mut i: usize = 0;
    while i < s.len()
        invariant
            i <= s.len(),
            out@ + text_from(s@, i as int, linked) == old(out)@ + text_from(s@, 0, linked),
        decreases s.len() - i,
    {
        let ghost before = out@;
        let c = s[i];
        let needed = wants_backslash(s, i, linked);
        if needed {
            out.push('\\');
        }
        out.push(c);
        proof {
            if needed {
                assert(out@ =~= before + seq!['\\', c]);
            } else {
                assert(out@ =~= before + seq![c]);
            }
            assert(out@ + text_from(s@, i + 1, linked) =~= before + text_from(s@, i as int, linked));
        }
        i += 1;
    }
    proof {
        assert(out@ + Seq::<char>::empty() =~= out@);
    }
}

/// Appends `guarded(s, a, b)` to `out`.
pub fn write_guarded(out: &mut Vec<char>, s: &Vec<char>, a: char, b: char)
    ensures
        final(out)@ == old(out)@ + guarded(s@, a, b),
{
    let mut i: usize = 0;
    proof {
        assert(s@.skip(0) =~= s@);
    }
    while i < s.len()
        invariant
            i <= s.len(),
            out@ + guarded(s@.skip(i as int), a, b) == old(out)@ + guarded(s@, a, b),
        decreases s.len() - i,
    {
        let ghost before = out@;
        let ghost rest = s@.skip(i as int);
        let c = s[i];
        if c == '\\' || c == a || c == b {
            out.push('\\');
        }
        out.push(c);
        proof {
            assert(rest.skip(1) =~= s@.skip(i + 1));
            assert(out@ + guarded(s@.skip(i + 1), a, b) =~= before + guarded(rest, a, b));
        }
        i += 1;
    }
    proof {
        assert(s@.skip(s@.len() as int) =~= Seq::<char>::empty());
        assert(out@ + Seq::<char>::empty() =~= out@);
    }
}

/// Computes `longest_run`.
pub fn find_longest_run(s: &Vec<char>, c: char) -> (r: usize)
    ensures
        r == longest_run(s@, 0, c),
        r <= s.len(),
{
    // from the end of the text to its start; `run` is the length of the
    // run that begins at `i`
    let mut i: usize = s.len();
    let mut best: usize = 0;
    let mut run: usize = 0;
    while i > 0
        invariant
            i <= s.len(),
            run == repeat_len(s@, i as int, c),
            run <= s.len() - i,
            best <= s.len() - i,
            best == longest_run(s@, i as int, c),
        decreases i,
    {
        i -= 1;
        if s[i] == c {
            run += 1;
            proof {
                lemma_longest_run_step(s@, i as int, c);
            }
            if run > best {
                best = run;
            }
        } else {
            run = 0;
        }
    }
    best
}

/// The longest run from the start of a run on is the longer of this run
/// and the longest run behind its first character.
pub proof fn lemma_longest_run_step(s: Seq<char>, i: int, c: char)
    requires
        0 <= i < s.len(),
        s[i] == c,
    ensures
        longest_run(s, i, c) == if repeat_len(s, i, c) > longest_run(s, i + 1, c) {
            repeat_len(s, i, c)
        } else {
            longest_run(s, i + 1, c)
        },
    decreases s.len() - i,
{
    let r = repeat_len(s, i, c);
    lemma_repeat_len_bound(s, i, c);
    lemma_longest_run_tail(s, i, c);
}

/// Behind the first character of a run, the longest run is the rest of
/// this run or the longest run behind it, whichever is longer.
pub proof fn lemma_longest_run_tail(s: Seq<char>, i: int, c: char)
    requires
        0 <= i < s.len(),
        s[i] == c,
    ensures
        longest_run(s, i + 1, c) == if repeat_len(s, i + 1, c) > longest_run(
            s,
            i + repeat_len(s, i, c),
            c,
        ) {
            repeat_len(s, i + 1, c)
        } else {
            longest_run(s, i + repeat_len(s, i, c), c)
        },
    decreases s.len() - i,
{
    lemma_repeat_len_bound(s, i, c);
    if i + 1 < s.len() && s[i + 1] == c {
        lemma_longest_run_tail(s, i + 1, c);
        lemma_repeat_len_bound(s, i + 1, c);
    } else {
        assert(repeat_len(s, i + 1, c) == 0);
        assert(repeat_len(s, i, c) == 1);
    }
}

/// Appends `n` times the character `c` to `out`.
pub fn write_repeated(out: &mut Vec<char>, c: char, n: usize)
    ensures
        final(out)@ == old(out)@ + repeated(c, n as nat),
{
    let mut i: usize = 0;
    while i < n
        invariant
            i <= n,
            out@ == old(out)@ + repeated(c, i as nat),
        decreases n - i,
    {
        out.push(c);
        proof {
            assert(out@ =~= old(out)@ + repeated(c, (i + 1) as nat));
        }
        i += 1;
    }
    proof {
        assert(old(out)@ + repeated(c, 0) =~= old(out)@);
    }
}

/// Appends the title of a link as it is written.
fn write_title(out: &mut Vec<char>, title: &Vec<char>)
    ensures
        final(out)@ == old(out)@ + title_part(title@),
{
    let ghost before = out@;
    if title.len() > 0 {
        out.push(' ');
        out.push('"');
        write_guarded(out, title, '"', '"');
        out.push('"');
        proof {
            assert(out@ =~= before + title_part(title@));
        }
    } else {
        proof {
            assert(out@ =~= before + title_part(title@));
        }
    }
}

/// Computes `has_run` from the start of a text.
fn holds_run(s: &Vec<char>, n: usize) -> (r: bool)
    ensures
        r == has_run(s@, 0, n as nat),
{
    let mut i: usize = 0;
    while i < s.len()
        invariant
            i <= s.len(),
            has_run(s@, 0, n as nat) == has_run(s@, i as int, n as nat),
        decreases s.len() - i,
    {
        if s[i] == '`' {
            let r = count_repeat(s, i, '`');
            if r == n {
                return true;
            }
            i += r;
        } else {
            i += 1;
        }
    }
    false
}

/// Computes `free_run` from 1 on: one less than it.
fn find_free_run(s: &Vec<char>) -> (r: usize)
    ensures
        r + 1 == free_run(s@, 1),
{
    let mut m: usize = 0;
    while m < s.len() && holds_run(s, m + 1)
        invariant
            m <= s.len(),
            free_run(s@, 1) == free_run(s@, (m + 1) as nat),
        decreases s.len() - m,
    {
        m += 1;
    }
    m
}

/// Appends a code span as it is written.
fn write_code_span(out: &mut Vec<char>, s: &Vec<char>)
    ensures
        final(out)@ == old(out)@ + code_span(s@),
{
    let ghost before = out@;
    let ticks = find_free_run(s);
    let n = s.len();
    let pad = n > 0 && (s[0] == '`' || s[n - 1] == '`' || (s[0] == ' ' && s[n - 1] == ' '
        && count_trail(s, ' ') < n));
    write_one_more(out, '`', ticks);
    if pad {
        out.push(' ');
    }
    append_chars(out, s);
    if pad {
        out.push(' ');
    }
    write_one_more(out, '`', ticks);
    proof {
        assert(out@ =~= before + code_span(s@));
    }
}

/// Appends `n` + 1 times the character `c` to `out`.
fn write_one_more(out: &mut Vec<char>, c: char, n: usize)
    ensures
        final(out)@ == old(out)@ + repeated(c, (n + 1) as nat),
{
    write_repeated(out, c, n);
    out.push(c);
    proof {
        assert(out@ =~= old(out)@ + repeated(c, (n + 1) as nat));
    }
}

/// Appends an inline as it is written.
#[verifier::rlimit(40)]
pub fn write_inline(out: &mut Vec<char>, x: &Inline, linked: bool)
    ensures
        final(out)@ == old(out)@ + render_inline(x@, linked),
    decreases x, 0int,
{
    let ghost before = out@;
    match x {
        Inline::Text(s) => {
            write_text(out, &chars_of(s.as_str()), linked);
        },
        Inline::Emphasis(c) => {
            out.push('*');
            write_inlines(out, c, linked);
            out.push('*');
        },
        Inline::Strong(c) => {
            out.push('*');
            out.push('*');
            write_inlines(out, c, linked);
            out.push('*');
            out.push('*');
        },
        Inline::Strikethrough(c) => {
            out.push('~');
            out.push('~');
            write_inlines(out, c, linked);
            out.push('~');
            out.push('~');
        },
        Inline::Link { destination, title, children } => {
            out.push('[');
            write_inlines(out, children, true);
            out.push(']');
            out.push('(');
            write_guarded(out, &chars_of(destination.as_str()), ')', ')');
            write_title(out, &chars_of(title.as_str()));
            out.push(')');
        },
        Inline::Image { destination, title, alt } => {
            out.push('!');
            out.push('[');
            write_guarded(out, &chars_of(alt.as_str()), '[', ']');
            out.push(']');
            out.push('(');
            write_guarded(out, &chars_of(destination.as_str()), ')', ')');
            write_title(out, &chars_of(title.as_str()));
            out.push(')');
        },
        Inline::CodeSpan(s) => {
            write_code_span(out, &chars_of(s.as_str()));
        },
        Inline::RawHtmlInline(s) => {
            append_chars(out, &chars_of(s.as_str()));
        },
        Inline::SoftBreak => {
            out.push('\n');
        },
        Inline::LineBreak => {
            out.push('\\');
            out.push('\n');
        },
    }
    proof {
        assert(out@ =~= before + render_inline(x@, linked));
    }
}

/// Appends inlines as they are written.
pub fn write_inlines(out: &mut Vec<char>, xs: &Vec<Inline>, linked: bool)
    ensures
        final(out)@ == old(out)@ + render_inlines(inline_views(xs@), linked),
    decreases xs, 1int,
{
    let ghost all = inline_views(xs@);
    let mut i: usize = 0;
    proof {
        assert(all.skip(0) =~= all);
    }
    while i < xs.len()
        invariant
            i <= xs.len(),
            all == inline_views(xs@),
            out@ + render_inlines(all.skip(i as int), linked) == old(out)@ + render_inlines(
                all,
                linked,
            ),
        decreases xs.len() - i,
    {
        let ghost before = out@;
        let ghost rest = all.skip(i as int);
        proof {
            assert(rest[0] == xs@[i as int]@);
            assert(rest.skip(1) =~= all.skip(i + 1));
        }
        write_inline(out, &xs[i], linked);
        proof {
            assert(out@ + render_inlines(all.skip(i + 1), linked) =~= before + render_inlines(
                rest,
                linked,
            ));
        }
        i += 1;
    }
    proof {
        assert(all.skip(all.len() as int) =~= Seq::<InlineView>::empty());
        assert(out@ + Seq::<char>::empty() =~= out@);
    }
}

/// Computes `flat`.
pub fn flatten_text(s: &Vec<char>, cell: bool) -> (r: Vec<char>)
    ensures
        r@ == flat(s@, cell),
{
    let mut out: Vec<char> = Vec::new();
    let mut i: usize = 0;
    proof {
        assert(s@.skip(0) =~= s@);
        assert(out@ + flat(s@, cell) =~= flat(s@, cell));
    }
    while i < s.len()
        invariant
            i <= s.len(),
            out@ + flat(s@.skip(i as int), cell) == flat(s@, cell),
        decreases s.len() - i,
    {
        let ghost before = out@;
        let ghost rest = s@.skip(i as int);
        let c = s[i];
        if c == '\n' {
            out.push(' ');
        } else if cell && c == '|' {
            out.push('\\');
            out.push('|');
        } else {
            out.push(c);
        }
        proof {
            assert(rest.skip(1) =~= s@.skip(i + 1));
            assert(out@ + flat(s@.skip(i + 1), cell) =~= before + flat(rest, cell));
        }
        i += 1;
    }
    proof {
        assert(s@.skip(s@.len() as int) =~= Seq::<char>::empty());
        assert(out@ + Seq::<char>::empty() =~= out@);
    }
    out
}

/// Appends lines to lines.
fn append_lines(dst: &mut Vec<Vec<char>>, src: Vec<Vec<char>>)
    ensures
        rows(final(dst)@) == rows(old(dst)@) + rows(src@),
{
    let mut src = src;
    let ghost added = src@;
    dst.append(&mut src);
    proof {
        assert(rows(dst@) =~= rows(old(dst)@) + rows(added));
    }
}

/// Appends one line to lines.
fn append_line(dst: &mut Vec<Vec<char>>, line: Vec<char>)
    ensures
        rows(final(dst)@) == rows(old(dst)@) + seq![line@],
{
    dst.push(line);
    proof {
        assert(rows(dst@) =~= rows(old(dst)@) + seq![line@]);
    }
}

/// Computes `prefixed`.
fn prefix_line(prefix: &Vec<char>, l: &Vec<char>) -> (r: Vec<char>)
    ensures
        r@ == prefixed(prefix@, l@),
{
    let mut out: Vec<char> = Vec::new();
    if l.len() == 0 {
        let keep = prefix.len() - count_trail(prefix, ' ');
        crate::text::append_range(&mut out, prefix, 0, keep);
        proof {
            assert(out@ =~= prefix@.take(keep as int));
        }
    } else {
        append_chars(&mut out, prefix);
        append_chars(&mut out, l);
        proof {
            assert(out@ =~= prefix@ + l@);
        }
    }
    out
}

/// Computes `prefixed_lines`.
fn prefix_lines(ls: &Vec<Vec<char>>, first: &Vec<char>, other: &Vec<char>) -> (r: Vec<Vec<char>>)
    ensures
        rows(r@) == prefixed_lines(rows(ls@), first@, other@),
{
    let mut out: Vec<Vec<char>> = Vec::new();
    if ls.len() == 0 {
        let none: Vec<char> = Vec::new();
        out.push(prefix_line(first, &none));
        proof {
            assert(rows(out@) =~= prefixed_lines(rows(ls@), first@, other@));
        }
        return out;
    }
    let mut j: usize = 0;
    while j < ls.len()
        invariant
            j <= ls.len(),
            ls.len() > 0,
            out.len() == j,
            forall|k: int| 0 <= k < j ==> (#[trigger] out[k])@ == prefixed_lines(
                rows(ls@),
                first@,
                other@,
            )[k],
        decreases ls.len() - j,
    {
        let line = if j == 0 {
            prefix_line(first, &ls[j])
        } else {
            prefix_line(other, &ls[j])
        };
        out.push(line);
        j += 1;
    }
    proof {
        assert(rows(out@) =~= prefixed_lines(rows(ls@), first@, other@));
    }
    out
}

/// Computes `marker_text`.
fn marker_chars(ordered: bool, start: Option<u64>, k: usize, other: bool) -> (r: Vec<char>)
    ensures
        r@ == marker_text(ordered, start, k as int, other),
{
    if ordered {
        let first: u128 = match start {
            Some(n) => n as u128,
            None => 1,
        };
        let mut out = to_decimal(first + k as u128);
        out.push(if other { ')' } else { '.' });
        out.push(' ');
        proof {
            assert(out@ =~= marker_text(ordered, start, k as int, other));
        }
        out
    } else {
        let out = vec![if other { '*' } else { '-' }, ' '];
        proof {
            assert(out@ =~= marker_text(ordered, start, k as int, other));
        }
        out
    }
}

/// Computes the delimiter row of a table.
fn delimiter_row(a: &Vec<Alignment>) -> (r: Vec<char>)
    ensures
        r@ == seq!['|'] + delimiter_from(a@, 0),
{
    let mut out: Vec<char> = Vec::new();
    out.push('|');
    let mut i: usize = 0;
    proof {
        assert(out@ =~= seq!['|']);
    }
    while i < a.len()
        invariant
            i <= a.len(),
            out@ + delimiter_from(a@, i as int) == seq!['|'] + delimiter_from(a@, 0),
        decreases a.len() - i,
    {
        let ghost before = out@;
        out.push(' ');
        match a[i] {
            Alignment::Unaligned => {
                out.push('-');
                out.push('-');
                out.push('-');
            },
            Alignment::Left => {
                out.push(':');
                out.push('-');
                out.push('-');
            },
            Alignment::Center => {
                out.push(':');
                out.push('-');
                out.push(':');
            },
            Alignment::Right => {
                out.push('-');
                out.push('-');
                out.push(':');
            },
        }
        out.push(' ');
        out.push('|');
        proof {
            assert(out@ =~= before + (seq![' '] + delimiter_cell(a@[i as int]) + seq![' ', '|']));
            assert(out@ + delimiter_from(a@, i + 1) =~= before + delimiter_from(a@, i as int));
        }
        i += 1;
    }
    proof {
        assert(out@ + Seq::<char>::empty() =~= out@);
    }
    out
}

/// Computes `cell_text`.
fn cell_chars(b: &Block) -> (r: Vec<char>)
    ensures
        r@ == cell_text(b@),
    decreases b, 0int,
{
    match b {
        Block::TableCell { children, .. } => {
            let mut text: Vec<char> = Vec::new();
            write_inlines(&mut text, children, false);
            proof {
                assert(text@ =~= render_inlines(inline_views(children@), false));
            }
            flatten_text(&text, true)
        },
        _ => Vec::new(),
    }
}

/// Computes `row_text`.
fn row_chars(b: &Block) -> (r: Vec<char>)
    ensures
        r@ == row_text(b@),
{
    let mut out: Vec<char> = Vec::new();
    out.push('|');
    match b {
        Block::TableRow(cells) => {
            let ghost all = block_views(cells@);
            let mut i: usize = 0;
            proof {
                assert(out@ =~= seq!['|']);
            }
            while i < cells.len()
                invariant
                    i <= cells.len(),
                    all == block_views(cells@),
                    out@ + cells_text(all, i as int) == seq!['|'] + cells_text(all, 0),
                decreases cells.len() - i,
            {
                let ghost before = out@;
                out.push(' ');
                let text = cell_chars(&cells[i]);
                append_chars(&mut out, &text);
                out.push(' ');
                out.push('|');
                proof {
                    assert(all[i as int] == cells@[i as int]@);
                    assert(out@ =~= before + (seq![' '] + cell_text(all[i as int]) + seq![' ', '|']));
                    assert(out@ + cells_text(all, i + 1) =~= before + cells_text(all, i as int));
                }
                i += 1;
            }
            proof {
                assert(out@ + Seq::<char>::empty() =~= out@);
            }
        },
        _ => {
            proof {
                assert(out@ =~= seq!['|']);
            }
        },
    }
    out
}

/// Computes `rows_lines` from the first row on.
fn table_lines(table: &Vec<Block>, a: &Vec<Alignment>) -> (r: Vec<Vec<char>>)
    ensures
        rows(r@) == rows_lines(block_views(table@), a@, 0),
{
    let ghost all = block_views(table@);
    let mut out: Vec<Vec<char>> = Vec::new();
    let mut i: usize = 0;
    proof {
        assert(rows(out@) + rows_lines(all, a@, 0) =~= rows_lines(all, a@, 0));
    }
    while i < table.len()
        invariant
            i <= table.len(),
            all == block_views(table@),
            rows(out@) + rows_lines(all, a@, i as int) == rows_lines(all, a@, 0),
        decreases table.len() - i,
    {
        let ghost before = rows(out@);
        let line = row_chars(&table[i]);
        append_line(&mut out, line);
        proof {
            assert(all[i as int] == table@[i as int]@);
        }
        if i == 0 {
            let delimiter = delimiter_row(a);
            append_line(&mut out, delimiter);
            proof {
                assert(rows(out@) =~= before + seq![
                    row_text(all[0]),
                    seq!['|'] + delimiter_from(a@, 0),
                ]);
                assert(rows(out@) + rows_lines(all, a@, 1) =~= before + rows_lines(all, a@, 0));
            }
        } else {
            proof {
                assert(rows(out@) + rows_lines(all, a@, i + 1) =~= before + rows_lines(
                    all,
                    a@,
                    i as int,
                ));
            }
        }
        i += 1;
    }
    proof {
        assert(rows(out@) + Seq::<Seq<char>>::empty() =~= rows(out@));
    }
    out
}

/// Computes `guarded_line`.
fn guard_line(l: &Vec<char>) -> (r: Vec<char>)
    ensures
        r@ == guarded_line(l@),
{
    let mut out: Vec<char> = Vec::new();
    if fence_of(l) > 0 || heading_of(l) > 0 || is_thematic(l) || (l.len() > 0 && l[0] == '>') {
        out.push('\\');
        append_chars(&mut out, l);
        proof {
            assert(out@ =~= seq!['\\'] + l@);
        }
        return out;
    }
    match read_marker(l) {
        Some(m) => {
            if m.ordered && m.width - 1 <= l.len() {
                let at = m.width - 2;
                crate::text::append_range(&mut out, l, 0, at);
                out.push('\\');
                crate::text::append_range(&mut out, l, at, l.len());
                proof {
                    assert(l@.subrange(0, at as int) =~= l@.take(at as int));
                    assert(l@.subrange(at as int, l@.len() as int) =~= l@.skip(at as int));
                    assert(out@ =~= l@.take(at as int) + seq!['\\'] + l@.skip(at as int));
                }
            } else {
                out.push('\\');
                append_chars(&mut out, l);
                proof {
                    assert(out@ =~= seq!['\\'] + l@);
                }
            }
        },
        None => {
            append_chars(&mut out, l);
            proof {
                assert(out@ =~= l@);
            }
        },
    }
    out
}

/// Computes `guarded_lines`.
fn guard_lines(ls: &Vec<Vec<char>>) -> (r: Vec<Vec<char>>)
    ensures
        rows(r@) == guarded_lines(rows(ls@)),
{
    let mut out: Vec<Vec<char>> = Vec::new();
    let mut j: usize = 0;
    while j < ls.len()
        invariant
            j <= ls.len(),
            out.len() == j,
            forall|k: int| 0 <= k < j ==> (#[trigger] out[k])@ == guarded_line(rows(ls@)[k]),
        decreases ls.len() - j,
    {
        out.push(guard_line(&ls[j]));
        j += 1;
    }
    proof {
        assert(rows(out@) =~= guarded_lines(rows(ls@)));
    }
    out
}

/// Computes `render_block`: the lines of a block as they are written.
#[verifier::rlimit(40)]
pub fn block_lines(b: &Block) -> (r: Vec<Vec<char>>)
    ensures
        rows(r@) == render_block(b@),
    decreases b, 0int,
{
    match b {
        Block::Paragraph(c) => {
            let mut text: Vec<char> = Vec::new();
            write_inlines(&mut text, c, false);
            proof {
                assert(text@ =~= render_inlines(inline_views(c@), false));
            }
            guard_lines(&split_lines(&text))
        },
        Block::Heading { level, children } => {
            let mut text: Vec<char> = Vec::new();
            write_inlines(&mut text, children, false);
            proof {
                assert(text@ =~= render_inlines(inline_views(children@), false));
            }
            let one = flatten_text(&text, false);
            let mut line: Vec<char> = Vec::new();
            write_repeated(&mut line, '#', *level as usize);
            if one.len() > 0 {
                line.push(' ');
                append_chars(&mut line, &one);
            }
            let mut out: Vec<Vec<char>> = Vec::new();
            proof {
                if one.len() > 0 {
                    assert(line@ =~= repeated('#', *level as nat) + seq![' '] + one@);
                } else {
                    assert(line@ =~= repeated('#', *level as nat));
                }
            }
            out.push(line);
            proof {
                assert(rows(out@) =~= render_block(b@));
            }
            out
        },
        Block::List { ordered, start, tight, items } => items_lines(
            items,
            *ordered,
            *start,
            *tight,
            false,
        ),
        Block::ListItem(c) => {
            let inner = blocks_lines(c, true);
            let first = vec!['-', ' '];
            let other = vec![' ', ' '];
            proof {
                assert(first@ =~= seq!['-', ' ']);
                assert(other@ =~= seq![' ', ' ']);
            }
            prefix_lines(&inner, &first, &other)
        },
        Block::BlockQuote(c) => {
            let inner = blocks_lines(c, true);
            let first = vec!['>', ' '];
            proof {
                assert(first@ =~= seq!['>', ' ']);
            }
            prefix_lines(&inner, &first, &first)
        },
        Block::CodeBlock { info, literal } => {
            let content = chars_of(literal.as_str());
            let longest = find_longest_run(&content, '`');
            let mut fence: Vec<char> = Vec::new();
            if longest < 2 {
                write_repeated(&mut fence, '`', 3);
            } else {
                write_one_more(&mut fence, '`', longest);
            }
            let ghost n = longest_run(literal@, 0, '`') + 1;
            proof {
                assert(fence@ =~= repeated(
                    '`',
                    if n < 3 {
                        3
                    } else {
                        n
                    },
                ));
            }
            let mut top: Vec<char> = Vec::new();
            append_chars(&mut top, &fence);
            crate::text::append_str(&mut top, info.as_str());
            proof {
                assert(top@ =~= fence@ + info@);
            }
            let mut out: Vec<Vec<char>> = Vec::new();
            append_line(&mut out, top);
            append_lines(&mut out, split_lines(&content));
            append_line(&mut out, fence);
            proof {
                assert(rows(out@) =~= render_block(b@));
            }
            out
        },
        Block::Table { alignments, rows: table } => {
            if table.len() == 0 {
                let mut out: Vec<Vec<char>> = Vec::new();
                append_line(&mut out, row_chars(&Block::ThematicBreak));
                append_line(&mut out, delimiter_row(alignments));
                proof {
                    assert(rows(out@) =~= render_block(b@));
                }
                out
            } else {
                table_lines(table, alignments)
            }
        },
        Block::TableRow(_) => {
            let mut out: Vec<Vec<char>> = Vec::new();
            append_line(&mut out, row_chars(b));
            proof {
                assert(rows(out@) =~= render_block(b@));
            }
            out
        },
        Block::TableCell { .. } => {
            let mut out: Vec<Vec<char>> = Vec::new();
            append_line(&mut out, cell_chars(b));
            proof {
                assert(rows(out@) =~= render_block(b@));
            }
            out
        },
        Block::ThematicBreak => {
            let mut out: Vec<Vec<char>> = Vec::new();
            let line = vec!['-', '-', '-'];
            proof {
                assert(line@ =~= seq!['-', '-', '-']);
            }
            append_line(&mut out, line);
            proof {
                assert(rows(out@) =~= render_block(b@));
            }
            out
        },
        Block::RawHtmlBlock(s) => split_lines(&chars_of(s.as_str())),
    }
}

/// Computes `render_items` from the first item on.
#[verifier::rlimit(40)]
fn items_lines(
    items: &Vec<Block>,
    ordered: bool,
    start: Option<u64>,
    tight: bool,
    other: bool,
) -> (r: Vec<Vec<char>>)
    ensures
        rows(r@) == render_items(block_views(items@), 0, ordered, start, tight, other),
    decreases items, 0int,
{
    let ghost all = block_views(items@);
    let mut out: Vec<Vec<char>> = Vec::new();
    let mut k: usize = 0;
    proof {
        assert(rows(out@) + render_items(all, 0, ordered, start, tight, other) =~= render_items(
            all,
            0,
            ordered,
            start,
            tight,
            other,
        ));
    }
    while k < items.len()
        invariant
            k <= items.len(),
            all == block_views(items@),
            rows(out@) + render_items(all, k as int, ordered, start, tight, other) == render_items(
                all,
                0,
                ordered,
                start,
                tight,
                other,
            ),
        decreases items.len() - k,
    {
        let ghost before = rows(out@);
        let marker = marker_chars(ordered, start, k, other);
        let inner = match &items[k] {
            Block::ListItem(c) => blocks_lines(c, !tight),
            _ => block_lines(&items[k]),
        };
        let mut indent: Vec<char> = Vec::new();
        write_repeated(&mut indent, ' ', marker.len());
        proof {
            assert(indent@ =~= repeated(' ', marker@.len()));
            assert(all[k as int] == items@[k as int]@);
        }
        let inner = rule_to_underscores(inner);
        let lines = prefix_lines(&inner, &marker, &indent);
        let ghost shown = rows(lines@);
        append_lines(&mut out, lines);
        let gap = !tight && items.len() - k > 1;
        if gap {
            append_line(&mut out, Vec::new());
        }
        proof {
            let g: Seq<Seq<char>> = if gap {
                seq![Seq::<char>::empty()]
            } else {
                Seq::empty()
            };
            assert(rows(out@) =~= before + (shown + g));
            assert(rows(out@) + render_items(all, k + 1, ordered, start, tight, other) =~= before
                + render_items(all, k as int, ordered, start, tight, other));
        }
        k += 1;
    }
    proof {
        assert(rows(out@) + Seq::<Seq<char>>::empty() =~= rows(out@));
    }
    out
}

/// Computes `no_rule_first`.
fn rule_to_underscores(ls: Vec<Vec<char>>) -> (r: Vec<Vec<char>>)
    ensures
        rows(r@) == no_rule_first(rows(ls@)),
{
    let mut ls = ls;
    if ls.len() > 0 && is_thematic(&ls[0]) {
        let line = vec!['_', '_', '_'];
        proof {
            assert(line@ =~= seq!['_', '_', '_']);
        }
        let ghost before = rows(ls@);
        ls.set(0, line);
        proof {
            assert(rows(ls@) =~= before.update(0, seq!['_', '_', '_']));
        }
    }
    ls
}

/// Whether a block is a paragraph.
fn is_paragraph(b: &Block) -> (r: bool)
    ensures
        r == (b@ is Paragraph),
{
    match b {
        Block::Paragraph(_) => true,
        _ => false,
    }
}

/// Whether a block is a list, and one of numbered items.
fn kind_of_list(b: &Block) -> (r: Option<bool>)
    ensures
        r == list_kind(b@),
{
    match b {
        Block::List { ordered, .. } => Some(*ordered),
        _ => None,
    }
}

/// Computes `other_markers`, given its value for the block before.
fn with_other_markers(bs: &Vec<Block>, k: usize, before: bool) -> (r: bool)
    requires
        k < bs.len(),
        k > 0 ==> before == other_markers(block_views(bs@), k - 1),
    ensures
        r == other_markers(block_views(bs@), k as int),
{
    if k == 0 {
        return false;
    }
    proof {
        let all = block_views(bs@);
        assert(all[k as int] == bs@[k as int]@);
        assert(all[k - 1] == bs@[k - 1]@);
    }
    let kind = kind_of_list(&bs[k]);
    kind.is_some() && kind_of_list(&bs[k - 1]) == kind && !before
}

/// Computes `apart`.
fn stand_apart(bs: &Vec<Block>, k: usize, loose: bool) -> (r: bool)
    requires
        k < bs.len(),
    ensures
        r == apart(block_views(bs@), k as int, loose),
{
    if bs.len() - k < 2 {
        return false;
    }
    proof {
        let all = block_views(bs@);
        assert(all[k as int] == bs@[k as int]@);
        assert(all[k + 1] == bs@[k + 1]@);
    }
    loose || (is_paragraph(&bs[k]) && is_paragraph(&bs[k + 1]))
}

/// Computes `render_nth`.
fn nth_lines(bs: &Vec<Block>, k: usize, other: bool) -> (r: Vec<Vec<char>>)
    requires
        k < bs.len(),
        other == other_markers(block_views(bs@), k as int),
    ensures
        rows(r@) == render_nth(block_views(bs@), k as int),
    decreases bs, 1int,
{
    proof {
        assert(block_views(bs@)[k as int] == bs@[k as int]@);
    }
    match &bs[k] {
        Block::List { ordered, start, tight, items } => items_lines(
            items,
            *ordered,
            *start,
            *tight,
            other,
        ),
        _ => block_lines(&bs[k]),
    }
}

/// Computes `render_blocks` from the first block on.
#[verifier::rlimit(40)]
pub fn blocks_lines(bs: &Vec<Block>, loose: bool) -> (r: Vec<Vec<char>>)
    ensures
        rows(r@) == render_blocks(block_views(bs@), 0, loose),
    decreases bs, 2int,
{
    let ghost all = block_views(bs@);
    let mut out: Vec<Vec<char>> = Vec::new();
    let mut other: bool = false;
    let mut k: usize = 0;
    proof {
        assert(rows(out@) + render_blocks(all, 0, loose) =~= render_blocks(all, 0, loose));
    }
    while k < bs.len()
        invariant
            k <= bs.len(),
            all == block_views(bs@),
            k > 0 ==> other == other_markers(all, k - 1),
            rows(out@) + render_blocks(all, k as int, loose) == render_blocks(all, 0, loose),
        decreases bs.len() - k,
    {
        let ghost before = rows(out@);
        other = with_other_markers(bs, k, other);
        let lines = nth_lines(bs, k, other);
        let ghost shown = rows(lines@);
        append_lines(&mut out, lines);
        let gap = stand_apart(bs, k, loose);
        if gap {
            append_line(&mut out, Vec::new());
        }
        proof {
            let g: Seq<Seq<char>> = if gap {
                seq![Seq::<char>::empty()]
            } else {
                Seq::empty()
            };
            assert(rows(out@) =~= before + (shown + g));
            assert(render_blocks(all, k as int, loose) == shown + g + render_blocks(
                all,
                k + 1,
                loose,
            ));
            assert(rows(out@) + render_blocks(all, k + 1, loose) =~= before + render_blocks(
                all,
                k as int,
                loose,
            ));
        }
        k += 1;
    }
    proof {
        assert(rows(out@) + Seq::<Seq<char>>::empty() =~= rows(out@));
    }
    out
}

/// Computes `unlines` from the first line on.
pub fn join_all(ls: &Vec<Vec<char>>) -> (r: Vec<char>)
    ensures
        r@ == unlines(rows(ls@), 0),
{
    let ghost all = rows(ls@);
    let mut out: Vec<char> = Vec::new();
    let mut k: usize = 0;
    proof {
        assert(out@ + unlines(all, 0) =~= unlines(all, 0));
    }
    while k < ls.len()
        invariant
            k <= ls.len(),
            all == rows(ls@),
            out@ + unlines(all, k as int) == unlines(all, 0),
        decreases ls.len() - k,
    {
        let ghost before = out@;
        append_chars(&mut out, &ls[k]);
        if ls.len() - k > 1 {
            out.push('\n');
        }
        proof {
            assert(all[k as int] == ls@[k as int]@);
            if ls.len() - k > 1 {
                assert(out@ + unlines(all, k + 1) =~= before + (all[k as int] + seq!['\n'] + unlines(
                    all,
                    k + 1,
                )));
            } else {
                assert(unlines(all, k + 1) =~= Seq::<char>::empty());
                assert(out@ + unlines(all, k + 1) =~= before + all[k as int]);
            }
        }
        k += 1;
    }
    proof {
        assert(out@ + Seq::<char>::empty() =~= out@);
    }
    out
}

/// Writes a document as a text of Markdown: a heading with as many `#`
/// as its level, an item of a list behind `-` or its number, a quote
/// behind `>`, code between fences of backticks, a table with pipes; the
/// blocks apart by an empty line, and no line feed at the end.
pub fn write_markdown(doc: &Document) -> (r: String)
    ensures
        r@ == markdown_of(doc@),
{
    let lines = blocks_lines(&doc.blocks, true);
    let text = join_all(&lines);
    string_of(&text)
}

} // verus!
