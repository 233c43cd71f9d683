//! The block syntax of Markdown: which lines make up a block, and what
//! block they make.

use vstd::prelude::*;
use crate::entries::trimmed;
use crate::markdown::chars::repeat_len;
use crate::markdown::inline::inlines_of;
use crate::markdown::lines::{
    closes_fence, fence_len, has_char, heading_level, is_blank, is_html, is_quote, is_raw, is_rule,
    marker_of, MarkerView, unquoted_line,
};
use crate::model::{Alignment, BlockView};

verus! {

/// How deep blocks may be nested in a text that is read. What is nested
/// deeper is taken as paragraphs.
pub const MAX_BLOCK_DEPTH: usize = 32;

/// What a block begins with.
#[derive(Clone, Copy, Debug, PartialEq, Eq, Structural)]
pub enum BlockStart {
    Fence,
    Heading,
    Rule,
    Quote,
    List,
    Table,
    Html,
    Paragraph,
}

/// Whether a line is the first of an item that may follow a paragraph
/// without a blank line between them: one with a bullet or the number 1,
/// and with text behind the marker.
pub open spec fn list_interrupt(l: Seq<char>) -> bool {
    match marker_of(l) {
        Some(m) => l.len() > m.width && (!m.ordered || m.number == 1),
        None => false,
    }
}

/// Whether a line ends the paragraph before it.
pub open spec fn interrupts(l: Seq<char>, depth: nat) -> bool {
    is_blank(l) || fence_len(l) > 0 || heading_level(l) > 0 || is_rule(l) || (depth > 0 && is_quote(l))
        || (depth > 0 && list_interrupt(l)) || is_html(l)
}

/// The cells of a row of a table from index `i` of the row on, where
/// `cell` holds the cell that is being read: a `|` ends a cell, a
/// backslash before a `|` makes it part of the cell, and each cell is
/// trimmed.
pub open spec fn cells_from(t: Seq<char>, i: int, cell: Seq<char>) -> Seq<Seq<char>>
    decreases t.len() - i,
{
    if i < 0 || i >= t.len() {
        seq![trimmed(cell)]
    } else if t[i] == '\\' && i + 1 < t.len() && t[i + 1] == '|' {
        cells_from(t, i + 2, cell.push('|'))
    } else if t[i] == '|' {
        seq![trimmed(cell)] + cells_from(t, i + 1, Seq::empty())
    } else {
        cells_from(t, i + 1, cell.push(t[i]))
    }
}

/// Whether a row ends with a `|` that closes its last cell.
pub open spec fn closed_row(t: Seq<char>) -> bool {
    t.len() > 0 && t.last() == '|' && !(t.len() > 1 && t[t.len() - 2] == '\\')
}

/// A row without the `|` at its ends.
pub open spec fn row_inside(l: Seq<char>) -> Seq<char> {
    let t = trimmed(l);
    let from: int = if t.len() > 0 && t[0] == '|' {
        1
    } else {
        0
    };
    let to: int = if closed_row(t) && t.len() > from {
        t.len() - 1
    } else {
        t.len() as int
    };
    t.subrange(from, to)
}

/// The cells of a row of a table.
pub open spec fn cells_of(l: Seq<char>) -> Seq<Seq<char>> {
    cells_from(row_inside(l), 0, Seq::empty())
}

/// The alignment that a cell of the delimiter row stands for: dashes,
/// with a colon at the side or the sides to which the column is aligned.
pub open spec fn cell_alignment(c: Seq<char>) -> Option<Alignment> {
    let left = c.len() > 0 && c[0] == ':';
    let right = c.len() > 1 && c.last() == ':';
    let from: int = if left {
        1
    } else {
        0
    };
    let to: int = if right {
        c.len() - 1
    } else {
        c.len() as int
    };
    if from < to && repeat_len(c, from, '-') == to - from {
        Some(
            if left && right {
                Alignment::Center
            } else if left {
                Alignment::Left
            } else if right {
                Alignment::Right
            } else {
                Alignment::Unaligned
            },
        )
    } else {
        None
    }
}

/// The alignments that the cells of a delimiter row stand for.
pub open spec fn alignments_in(cells: Seq<Seq<char>>) -> Option<Seq<Alignment>>
    decreases cells.len(),
{
    if cells.len() == 0 {
        Some(Seq::empty())
    } else {
        match (cell_alignment(cells[0]), alignments_in(cells.skip(1))) {
            (Some(a), Some(rest)) => Some(seq![a] + rest),
            _ => None,
        }
    }
}

/// The alignments of the table that begins at line `i`: the line holds a
/// `|`, and the line behind it is a delimiter row with as many cells.
pub open spec fn table_at(lines: Seq<Seq<char>>, i: int) -> Option<Seq<Alignment>> {
    if 0 <= i && i + 1 < lines.len() && has_char(lines[i], 0, '|') && has_char(lines[i + 1], 0, '-') {
        match alignments_in(cells_of(lines[i + 1])) {
            Some(a) => if a.len() == cells_of(lines[i]).len() {
                Some(a)
            } else {
                None
            },
            None => None,
        }
    } else {
        None
    }
}

/// What the block at line `i`, which is not blank, begins with.
pub open spec fn start_at(lines: Seq<Seq<char>>, i: int, depth: nat) -> BlockStart {
    let l = lines[i];
    if fence_len(l) > 0 {
        BlockStart::Fence
    } else if heading_level(l) > 0 {
        BlockStart::Heading
    } else if is_rule(l) {
        BlockStart::Rule
    } else if depth > 0 && is_quote(l) {
        BlockStart::Quote
    } else if depth > 0 && marker_of(l) is Some {
        BlockStart::List
    } else if table_at(lines, i) is Some {
        BlockStart::Table
    } else if is_raw(l) {
        BlockStart::Html
    } else {
        BlockStart::Paragraph
    }
}

/// How a run of lines goes on.
#[derive(Clone, Copy, Debug, PartialEq, Eq, Structural)]
pub enum Run {
    /// As long as the lines begin with `>`.
    Quote,
    /// As long as the lines are not blank.
    Filled,
    /// As long as the lines do not end a paragraph.
    Text,
    /// As long as the lines are blank.
    Blank,
}

/// Whether a line goes on with a run.
pub open spec fn keeps(run: Run, l: Seq<char>, depth: nat) -> bool {
    match run {
        Run::Quote => is_quote(l),
        Run::Filled => !is_blank(l),
        Run::Text => !interrupts(l, depth),
        Run::Blank => is_blank(l),
    }
}

/// The index of the first line at or behind `j` that does not go on with
/// the run, or the number of lines.
pub open spec fn run_end(lines: Seq<Seq<char>>, j: int, run: Run, depth: nat) -> int
    decreases lines.len() - j,
{
    if j < 0 || j >= lines.len() {
        lines.len() as int
    } else if keeps(run, lines[j], depth) {
        run_end(lines, j + 1, run, depth)
    } else {
        j
    }
}

/// The index of the first line at or behind `j` that closes the code
/// block, or the number of lines.
pub open spec fn fence_end(lines: Seq<Seq<char>>, j: int, k: nat) -> int
    decreases lines.len() - j,
{
    if j < 0 || j >= lines.len() {
        lines.len() as int
    } else if closes_fence(lines[j], k) {
        j
    } else {
        fence_end(lines, j + 1, k)
    }
}

/// The index of the first line at or behind `j` that does not belong to
/// the item whose text begins `w` columns in: a line that is not blank
/// and has fewer than `w` spaces in front; or the number of lines.
pub open spec fn item_reach(lines: Seq<Seq<char>>, j: int, w: int) -> int
    decreases lines.len() - j,
{
    if j < 0 || j >= lines.len() {
        lines.len() as int
    } else if is_blank(lines[j]) || repeat_len(lines[j], 0, ' ') >= w {
        item_reach(lines, j + 1, w)
    } else {
        j
    }
}

/// `e` without the blank lines before it, down to `low`.
pub open spec fn before_blank(lines: Seq<Seq<char>>, low: int, e: int) -> int
    decreases e - low,
{
    if low < e && 0 < e <= lines.len() && is_blank(lines[e - 1]) {
        before_blank(lines, low, e - 1)
    } else {
        e
    }
}

/// The index behind the last line of the item that begins at line `i`
/// with a marker of width `w`: the blank lines at its end are not part of
/// it.
pub open spec fn item_end(lines: Seq<Seq<char>>, i: int, w: int) -> int {
    before_blank(lines, i + 1, item_reach(lines, i + 1, w))
}

/// Whether a line begins an item of the list that the marker belongs to.
pub open spec fn same_list(l: Seq<char>, m: MarkerView) -> bool {
    match marker_of(l) {
        Some(n) => n.ordered == m.ordered && n.sign == m.sign && !is_rule(l),
        None => false,
    }
}

/// The index behind the last line of the list whose item at line `i`
/// has the marker `m`.
pub open spec fn list_end(lines: Seq<Seq<char>>, i: int, m: MarkerView) -> int
    decreases lines.len() - i,
{
    if i < 0 || i >= lines.len() {
        lines.len() as int
    } else {
        let w = match marker_of(lines[i]) {
            Some(n) => n.width,
            None => m.width,
        };
        let e = item_end(lines, i, w);
        let next = run_end(lines, e, Run::Blank, 0);
        if i < e <= next && next < lines.len() && same_list(lines[next], m) {
            list_end(lines, next, m)
        } else {
            e
        }
    }
}

/// The index behind the last line of the block that begins at line `i`.
pub open spec fn block_end(lines: Seq<Seq<char>>, i: int, depth: nat) -> int {
    match start_at(lines, i, depth) {
        BlockStart::Fence => {
            let e = fence_end(lines, i + 1, fence_len(lines[i]));
            if e < lines.len() {
                e + 1
            } else {
                e
            }
        },
        BlockStart::Heading => i + 1,
        BlockStart::Rule => i + 1,
        BlockStart::Quote => run_end(lines, i + 1, Run::Quote, depth),
        BlockStart::List => list_end(lines, i, marker_of(lines[i])->0),
        BlockStart::Table => run_end(lines, i + 2, Run::Filled, depth),
        BlockStart::Html => run_end(lines, i + 1, Run::Filled, depth),
        BlockStart::Paragraph => run_end(lines, i + 1, Run::Text, depth),
    }
}

/// The lines from `from` up to `to` with a line feed between each two.
pub open spec fn joined(lines: Seq<Seq<char>>, from: int, to: int) -> Seq<char>
    decreases to - from,
{
    if from >= to || from < 0 || to > lines.len() {
        Seq::empty()
    } else if from + 1 == to {
        lines[from]
    } else {
        joined(lines, from, to - 1) + seq!['\n'] + lines[to - 1]
    }
}

/// The lines from `from` up to `to`, each with a line feed behind it.
pub open spec fn stacked(lines: Seq<Seq<char>>, from: int, to: int) -> Seq<char>
    decreases to - from,
{
    if from >= to || from < 0 || to > lines.len() {
        Seq::empty()
    } else {
        stacked(lines, from, to - 1) + lines[to - 1] + seq!['\n']
    }
}

/// The number of lines from `from` up to `to`.
pub open spec fn span(from: int, to: int) -> nat {
    if from < to {
        (to - from) as nat
    } else {
        0
    }
}

/// The lines of a quote without their `>`.
pub open spec fn quote_lines(lines: Seq<Seq<char>>, from: int, to: int) -> Seq<Seq<char>> {
    Seq::new(span(from, to), |j: int| unquoted_line(lines[from + j]))
}

/// A line of an item without the columns of the marker: what stands
/// behind them, or nothing where the line is shorter.
pub open spec fn dedented(l: Seq<char>, w: int) -> Seq<char> {
    if 0 <= w <= l.len() {
        l.skip(w)
    } else {
        Seq::empty()
    }
}

/// The lines of an item without the columns of the marker.
pub open spec fn item_lines(lines: Seq<Seq<char>>, from: int, to: int, w: int) -> Seq<Seq<char>> {
    Seq::new(span(from, to), |j: int| dedented(lines[from + j], w))
}

/// The cells of a row, as many as the table has columns: cells that are
/// missing are empty, and cells beyond the last column are dropped.
pub open spec fn row_cells(cells: Seq<Seq<char>>, columns: nat, header: bool) -> Seq<BlockView> {
    Seq::new(
        columns,
        |j: int|
            BlockView::TableCell {
                is_header: header,
                children: if j < cells.len() {
                    inlines_of(cells[j])
                } else {
                    Seq::empty()
                },
            },
    )
}

/// The rows of the body of a table.
pub open spec fn body_rows(lines: Seq<Seq<char>>, from: int, to: int, columns: nat) -> Seq<BlockView> {
    Seq::new(
        span(from, to),
        |j: int| BlockView::TableRow(row_cells(cells_of(lines[from + j]), columns, false)),
    )
}

/// The items of a list from line `i` up to line `end`.
pub open spec fn list_items(
    lines: Seq<Seq<char>>,
    i: int,
    end: int,
    m: MarkerView,
    depth: nat,
) -> Seq<BlockView>
    decreases depth, 0int, end - i,
{
    if i < 0 || i >= end || end > lines.len() || depth == 0 {
        Seq::empty()
    } else {
        let w = match marker_of(lines[i]) {
            Some(n) => n.width,
            None => m.width,
        };
        let e = item_end(lines, i, w);
        let next = run_end(lines, e, Run::Blank, 0);
        let item = BlockView::ListItem(
            blocks_of(item_lines(lines, i, e, w), 0, (depth - 1) as nat),
        );
        if i < e <= next && next < end {
            seq![item] + list_items(lines, next, end, m, depth)
        } else {
            seq![item]
        }
    }
}

/// Whether the list from line `i` up to line `end` is a loose one: a
/// blank line stands between two of its items, or between two blocks of
/// one of its items.
pub open spec fn list_loose(
    lines: Seq<Seq<char>>,
    i: int,
    end: int,
    m: MarkerView,
    depth: nat,
) -> bool
    decreases depth, 0int, end - i,
{
    if i < 0 || i >= end || end > lines.len() || depth == 0 {
        false
    } else {
        let w = match marker_of(lines[i]) {
            Some(n) => n.width,
            None => m.width,
        };
        let e = item_end(lines, i, w);
        let next = run_end(lines, e, Run::Blank, 0);
        let inside = gapped(item_lines(lines, i, e, w), 0, false, (depth - 1) as nat);
        if i < e <= next && next < end {
            inside || e < next || list_loose(lines, next, end, m, depth)
        } else {
            inside
        }
    }
}

/// Whether a blank line stands between two of the blocks from line `i`
/// on. `begun` says that a block stands before line `i`.
pub open spec fn gapped(lines: Seq<Seq<char>>, i: int, begun: bool, depth: nat) -> bool
    decreases depth, 2int, lines.len() - i,
{
    if i < 0 || i >= lines.len() {
        false
    } else if is_blank(lines[i]) {
        let next = run_end(lines, i, Run::Blank, 0);
        if begun && next < lines.len() {
            true
        } else if i < next <= lines.len() {
            gapped(lines, next, begun, depth)
        } else {
            false
        }
    } else {
        let e = block_end(lines, i, depth);
        if i < e <= lines.len() {
            gapped(lines, e, true, depth)
        } else {
            false
        }
    }
}

/// The block that the lines from `i` up to `e` make.
pub open spec fn block_at(lines: Seq<Seq<char>>, i: int, e: int, depth: nat) -> BlockView
    decreases depth, 1int, 0int,
{
    let l = lines[i];
    match start_at(lines, i, depth) {
        BlockStart::Fence => BlockView::CodeBlock {
            info: trimmed(l.skip(fence_len(l) as int)),
            literal: stacked(lines, i + 1, fence_end(lines, i + 1, fence_len(l))),
        },
        BlockStart::Heading => BlockView::Heading {
            level: heading_level(l) as u8,
            children: inlines_of(trimmed(l.skip(heading_level(l) as int))),
        },
        BlockStart::Rule => BlockView::ThematicBreak,
        BlockStart::Quote => BlockView::BlockQuote(
            if depth > 0 {
                blocks_of(quote_lines(lines, i, e), 0, (depth - 1) as nat)
            } else {
                Seq::empty()
            },
        ),
        BlockStart::List => {
            let m = marker_of(l)->0;
            BlockView::List {
                ordered: m.ordered,
                start: if m.ordered {
                    Some(m.number as u64)
                } else {
                    None
                },
                tight: !list_loose(lines, i, e, m, depth),
                items: list_items(lines, i, e, m, depth),
            }
        },
        BlockStart::Table => {
            let a = table_at(lines, i)->0;
            BlockView::Table {
                alignments: a,
                rows: seq![BlockView::TableRow(row_cells(cells_of(l), a.len(), true))] + body_rows(
                    lines,
                    i + 2,
                    e,
                    a.len(),
                ),
            }
        },
        BlockStart::Html => BlockView::RawHtmlBlock(joined(lines, i, e)),
        BlockStart::Paragraph => BlockView::Paragraph(inlines_of(trimmed(joined(lines, i, e)))),
    }
}

/// The blocks that the lines from `i` on make: blank lines stand between
/// blocks, and each block reaches as far as `block_end` says.
pub open spec fn blocks_of(lines: Seq<Seq<char>>, i: int, depth: nat) -> Seq<BlockView>
    decreases depth, 2int, lines.len() - i,
{
    if i < 0 || i >= lines.len() {
        Seq::empty()
    } else if is_blank(lines[i]) {
        blocks_of(lines, i + 1, depth)
    } else {
        let e = block_end(lines, i, depth);
        if i < e <= lines.len() {
            seq![block_at(lines, i, e, depth)] + blocks_of(lines, e, depth)
        } else {
            Seq::empty()
        }
    }
}

} // verus!
