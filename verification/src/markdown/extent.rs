//! Computing which lines make up a block.

use vstd::prelude::*;
use crate::entries::{trim, trimmed};
use crate::markdown::block::{
    alignments_in, before_blank, block_end, BlockStart, cell_alignment, cells_from, cells_of,
    fence_end, interrupts, item_end, item_reach, keeps, list_end, list_interrupt, row_inside, Run,
    run_end, same_list, start_at, table_at,
};
use crate::markdown::chars::count_repeat;
use crate::markdown::lines::{
    blank, contains_from, fence_of, heading_of, html_line, is_closing_fence, is_quote, is_thematic,
    Marker, marker_of, raw_line, read_marker,
};
use crate::model::Alignment;
use crate::text::{copy_range, prepend, rows};

verus! {

/// Computes `is_quote`.
pub fn quote_line(l: &Vec<char>) -> (r: bool)
    ensures
        r == is_quote(l@),
{
    l.len() > 0 && l[0] == '>'
}

/// Computes `list_interrupt`.
pub fn interrupts_as_list(l: &Vec<char>) -> (r: bool)
    ensures
        r == list_interrupt(l@),
{
    match read_marker(l) {
        Some(m) => l.len() > m.width && (!m.ordered || m.number == 1),
        None => false,
    }
}

/// Computes `interrupts`.
pub fn ends_paragraph(l: &Vec<char>, depth: usize) -> (r: bool)
    ensures
        r == interrupts(l@, depth as nat),
{
    blank(l) || fence_of(l) > 0 || heading_of(l) > 0 || is_thematic(l) || (depth > 0 && quote_line(l))
        || (depth > 0 && interrupts_as_list(l)) || html_line(l)
}

/// Computes `cells_of`.
pub fn split_cells(l: &Vec<char>) -> (r: Vec<Vec<char>>)
    ensures
        rows(r@) == cells_of(l@),
        r.len() >= 1,
{
    let t = trim(l);
    let from: usize = if t.len() > 0 && t[0] == '|' {
        1
    } else {
        0
    };
    let closed = t.len() > 0 && t[t.len() - 1] == '|' && !(t.len() > 1 && t[t.len() - 2] == '\\');
    let to: usize = if closed && t.len() > from {
        t.len() - 1
    } else {
        t.len()
    };
    let inside = copy_range(&t, from, to);
    proof {
        assert(inside@ =~= row_inside(l@));
    }
    let mut out: Vec<Vec<char>> = Vec::new();
    let mut cell: Vec<char> = Vec::new();
    let mut i: usize = 0;
    proof {
        assert(rows(out@) + cells_from(inside@, 0, cell@) =~= cells_from(inside@, 0, Seq::empty()));
    }
    while i < inside.len()
        invariant
            i <= inside.len(),
            rows(out@) + cells_from(inside@, i as int, cell@) == cells_of(l@),
            inside@ == row_inside(l@),
        decreases inside.len() - i,
    {
        let ghost before = rows(out@);
        if inside[i] == '\\' && inside.len() - i > 1 && inside[i + 1] == '|' {
            cell.push('|');
            i += 2;
        } else if inside[i] == '|' {
            let done = trim(&cell);
            out.push(done);
            proof {
                assert(rows(out@) =~= before + seq![trimmed(cell@)]);
                assert(rows(out@) + cells_from(inside@, i + 1, Seq::empty()) =~= before + cells_from(
                    inside@,
                    i as int,
                    cell@,
                ));
            }
            cell = Vec::new();
            i += 1;
        } else {
            cell.push(inside[i]);
            i += 1;
        }
    }
    let ghost before = rows(out@);
    let done = trim(&cell);
    out.push(done);
    proof {
        assert(rows(out@) =~= before + seq![trimmed(cell@)]);
    }
    out
}

/// Computes `cell_alignment`.
pub fn alignment_of_cell(c: &Vec<char>) -> (r: Option<Alignment>)
    ensures
        r == cell_alignment(c@),
{
    let left = c.len() > 0 && c[0] == ':';
    let right = c.len() > 1 && c[c.len() - 1] == ':';
    let from: usize = if left {
        1
    } else {
        0
    };
    let to: usize = if right {
        c.len() - 1
    } else {
        c.len()
    };
    if from < to && count_repeat(c, from, '-') == to - from {
        Some(
            if left && right {
                Alignment::Center
            } else if left {
                Alignment::Left
            } else if right {
                Alignment::Right
            } else {
                Alignment::Unaligned
            },
        )
    } else {
        None
    }
}

/// Computes `alignments_in`.
pub fn read_alignment_cells(cells: &Vec<Vec<char>>) -> (r: Option<Vec<Alignment>>)
    ensures
        match r {
            Some(a) => alignments_in(rows(cells@)) == Some(a@),
            None => alignments_in(rows(cells@)) is None,
        },
{
    let ghost all = rows(cells@);
    let mut out: Vec<Alignment> = Vec::new();
    let mut i: usize = 0;
    proof {
        assert(all.skip(0) =~= all);
        if let Some(a) = alignments_in(all) {
            assert(out@ + a =~= a);
        }
    }
    while i < cells.len()
        invariant
            i <= cells.len(),
            all == rows(cells@),
            alignments_in(all) == prepend(out@, alignments_in(all.skip(i as int))),
        decreases cells.len() - i,
    {
        let ghost rest = all.skip(i as int);
        let ghost before = out@;
        proof {
            assert(rest[0] == cells@[i as int]@);
            assert(rest.skip(1) =~= all.skip(i + 1));
        }
        match alignment_of_cell(&cells[i]) {
            Some(a) => {
                out.push(a);
                proof {
                    if let Some(tail) = alignments_in(rest.skip(1)) {
                        assert(out@ + tail =~= before + (seq![a] + tail));
                    }
                }
            },
            None => {
                return None;
            },
        }
        i += 1;
    }
    proof {
        assert(all.skip(all.len() as int) =~= Seq::<Seq<char>>::empty());
        assert(out@ + Seq::<Alignment>::empty() =~= out@);
    }
    Some(out)
}

/// Computes `table_at`.
pub fn read_table_start(lines: &Vec<Vec<char>>, i: usize) -> (r: Option<Vec<Alignment>>)
    requires
        i < lines.len(),
    ensures
        match r {
            Some(a) => table_at(rows(lines@), i as int) == Some(a@),
            None => table_at(rows(lines@), i as int) is None,
        },
{
    if lines.len() - i > 1 && contains_from(&lines[i], 0, '|') && contains_from(&lines[i + 1], 0, '-') {
        let cells = split_cells(&lines[i + 1]);
        match read_alignment_cells(&cells) {
            Some(a) => {
                let header = split_cells(&lines[i]);
                if a.len() == header.len() {
                    Some(a)
                } else {
                    None
                }
            },
            None => None,
        }
    } else {
        None
    }
}

/// Computes `start_at`.
pub fn read_start(lines: &Vec<Vec<char>>, i: usize, depth: usize) -> (r: BlockStart)
    requires
        i < lines.len(),
    ensures
        r == start_at(rows(lines@), i as int, depth as nat),
{
    let l = &lines[i];
    if fence_of(l) > 0 {
        BlockStart::Fence
    } else if heading_of(l) > 0 {
        BlockStart::Heading
    } else if is_thematic(l) {
        BlockStart::Rule
    } else if depth > 0 && quote_line(l) {
        BlockStart::Quote
    } else if depth > 0 && read_marker(l).is_some() {
        BlockStart::List
    } else if read_table_start(lines, i).is_some() {
        BlockStart::Table
    } else if raw_line(l) {
        BlockStart::Html
    } else {
        BlockStart::Paragraph
    }
}

/// Computes `keeps`.
pub fn goes_on(run: Run, l: &Vec<char>, depth: usize) -> (r: bool)
    ensures
        r == keeps(run, l@, depth as nat),
{
    match run {
        Run::Quote => quote_line(l),
        Run::Filled => !blank(l),
        Run::Text => !ends_paragraph(l, depth),
        Run::Blank => blank(l),
    }
}

/// Computes `run_end`.
pub fn find_run_end(lines: &Vec<Vec<char>>, from: usize, run: Run, depth: usize) -> (r: usize)
    requires
        from <= lines.len(),
    ensures
        r == run_end(rows(lines@), from as int, run, depth as nat),
        from <= r <= lines.len(),
{
    let mut j: usize = from;
    while j < lines.len()
        invariant
            from <= j <= lines.len(),
            run_end(rows(lines@), from as int, run, depth as nat) == run_end(
                rows(lines@),
                j as int,
                run,
                depth as nat,
            ),
        decreases lines.len() - j,
    {
        if !goes_on(run, &lines[j], depth) {
            return j;
        }
        j += 1;
    }
    j
}

/// Computes `fence_end`.
pub fn find_fence_end(lines: &Vec<Vec<char>>, from: usize, k: usize) -> (r: usize)
    requires
        from <= lines.len(),
    ensures
        r == fence_end(rows(lines@), from as int, k as nat),
        from <= r <= lines.len(),
{
    let mut j: usize = from;
    while j < lines.len()
        invariant
            from <= j <= lines.len(),
            fence_end(rows(lines@), from as int, k as nat) == fence_end(
                rows(lines@),
                j as int,
                k as nat,
            ),
        decreases lines.len() - j,
    {
        if is_closing_fence(&lines[j], k) {
            return j;
        }
        j += 1;
    }
    j
}

/// Computes `item_end`.
pub fn find_item_end(lines: &Vec<Vec<char>>, i: usize, w: usize) -> (r: usize)
    requires
        i < lines.len(),
    ensures
        r == item_end(rows(lines@), i as int, w as int),
        i < r <= lines.len(),
{
    let mut j: usize = i + 1;
    while j < lines.len() && (blank(&lines[j]) || count_repeat(&lines[j], 0, ' ') >= w)
        invariant
            i < j <= lines.len(),
            item_reach(rows(lines@), i + 1, w as int) == item_reach(rows(lines@), j as int, w as int),
        decreases lines.len() - j,
    {
        j += 1;
    }
    let mut e: usize = j;
    while e > i + 1 && blank(&lines[e - 1])
        invariant
            i < e <= lines.len(),
            before_blank(rows(lines@), i + 1, j as int) == before_blank(rows(lines@), i + 1, e as int),
        decreases e,
    {
        e -= 1;
    }
    e
}

/// The width of the marker on a line, or the width of the marker of the
/// list where the line has none.
fn width_at(lines: &Vec<Vec<char>>, i: usize, m: &Marker) -> (r: usize)
    requires
        i < lines.len(),
    ensures
        r as int == match marker_of(rows(lines@)[i as int]) {
            Some(n) => n.width,
            None => m@.width,
        },
{
    match read_marker(&lines[i]) {
        Some(n) => n.width,
        None => m.width,
    }
}

/// Computes `same_list`.
pub fn continues_list(l: &Vec<char>, m: &Marker) -> (r: bool)
    ensures
        r == same_list(l@, m@),
{
    match read_marker(l) {
        Some(n) => n.ordered == m.ordered && n.sign == m.sign && !is_thematic(l),
        None => false,
    }
}

/// Computes `list_end`.
pub fn find_list_end(lines: &Vec<Vec<char>>, from: usize, m: &Marker) -> (r: usize)
    requires
        from < lines.len(),
    ensures
        r == list_end(rows(lines@), from as int, m@),
        from < r <= lines.len(),
{
    let mut i: usize = from;
    loop
        invariant
            from <= i < lines.len(),
            list_end(rows(lines@), from as int, m@) == list_end(rows(lines@), i as int, m@),
        decreases lines.len() - i,
    {
        let w = width_at(lines, i, m);
        let e = find_item_end(lines, i, w);
        let next = find_run_end(lines, e, Run::Blank, 0);
        if next < lines.len() && continues_list(&lines[next], m) {
            i = next;
        } else {
            return e;
        }
    }
}

/// Computes `block_end` for a line that is not blank.
pub fn find_block_end(lines: &Vec<Vec<char>>, i: usize, depth: usize) -> (r: usize)
    requires
        i < lines.len(),
    ensures
        r == block_end(rows(lines@), i as int, depth as nat),
        i < r <= lines.len(),
{
    match read_start(lines, i, depth) {
        BlockStart::Fence => {
            let e = find_fence_end(lines, i + 1, fence_of(&lines[i]));
            if e < lines.len() {
                e + 1
            } else {
                e
            }
        },
        BlockStart::Heading => i + 1,
        BlockStart::Rule => i + 1,
        BlockStart::Quote => find_run_end(lines, i + 1, Run::Quote, depth),
        BlockStart::List => match read_marker(&lines[i]) {
            Some(m) => find_list_end(lines, i, &m),
            None => i + 1,
        },
        BlockStart::Table => find_run_end(lines, i + 2, Run::Filled, depth),
        BlockStart::Html => find_run_end(lines, i + 1, Run::Filled, depth),
        BlockStart::Paragraph => find_run_end(lines, i + 1, Run::Text, depth),
    }
}

} // verus!
