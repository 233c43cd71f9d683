//! Reading a text of Markdown as a document.

use vstd::prelude::*;
use crate::entries::trim;
use crate::markdown::block::{
    block_at, block_end, blocks_of, BlockStart, body_rows, dedented, gapped, item_lines, joined,
    list_items, list_loose, MAX_BLOCK_DEPTH, quote_lines, row_cells, Run, run_end, stacked,
};
use crate::markdown::extent::{
    find_block_end, find_fence_end, find_item_end, find_run_end, read_start, read_table_start,
    split_cells,
};
use crate::markdown::inline::read_inlines;
use crate::markdown::lines::{
    blank, fence_of, heading_of, lines_of, Marker, read_marker, split_lines, unquoted_line,
};
use crate::model::{
    Block, block_views, BlockView, Document, DocumentView, Inline, inline_views, InlineView,
};
use crate::text::{append_chars, chars_of, copy_range, rows, string_of};

verus! {

/// The document that a text of Markdown stands for.
pub open spec fn document_of(s: Seq<char>) -> DocumentView {
    DocumentView { blocks: blocks_of(lines_of(s), 0, MAX_BLOCK_DEPTH as nat) }
}

/// Computes `joined`.
pub fn join_lines(lines: &Vec<Vec<char>>, from: usize, to: usize) -> (r: Vec<char>)
    requires
        from <= to <= lines.len(),
    ensures
        r@ == joined(rows(lines@), from as int, to as int),
{
    let mut out: Vec<char> = Vec::new();
    let mut j: usize = from;
    while j < to
        invariant
            from <= j <= to <= lines.len(),
            out@ == joined(rows(lines@), from as int, j as int),
        decreases to - j,
    {
        let ghost before = out@;
        if j > from {
            out.push('\n');
        }
        append_chars(&mut out, &lines[j]);
        proof {
            let l = rows(lines@)[j as int];
            if j > from {
                assert(out@ =~= before + seq!['\n'] + l);
            } else {
                assert(out@ =~= l);
            }
        }
        j += 1;
    }
    out
}

/// Computes `stacked`.
pub fn stack_lines(lines: &Vec<Vec<char>>, from: usize, to: usize) -> (r: Vec<char>)
    requires
        from <= lines.len(),
        to <= lines.len(),
    ensures
        r@ == stacked(rows(lines@), from as int, to as int),
{
    let mut out: Vec<char> = Vec::new();
    if from >= to {
        return out;
    }
    let mut j: usize = from;
    while j < to
        invariant
            from <= j <= to <= lines.len(),
            out@ == stacked(rows(lines@), from as int, j as int),
        decreases to - j,
    {
        let ghost before = out@;
        append_chars(&mut out, &lines[j]);
        out.push('\n');
        proof {
            let l = rows(lines@)[j as int];
            assert(out@ =~= before + l + seq!['\n']);
        }
        j += 1;
    }
    out
}

/// Computes `quote_lines`.
fn strip_quote(lines: &Vec<Vec<char>>, from: usize, to: usize) -> (r: Vec<Vec<char>>)
    requires
        from <= to <= lines.len(),
    ensures
        rows(r@) == quote_lines(rows(lines@), from as int, to as int),
{
    let mut out: Vec<Vec<char>> = Vec::new();
    let mut j: usize = from;
    while j < to
        invariant
            from <= j <= to <= lines.len(),
            out.len() == j - from,
            forall|k: int| 0 <= k < j - from ==> (#[trigger] out[k])@ == unquoted_line(
                rows(lines@)[from + k],
            ),
        decreases to - j,
    {
        let l = &lines[j];
        let inner = if l.len() > 1 && l[1] == ' ' {
            copy_range(l, 2, l.len())
        } else if l.len() > 0 {
            copy_range(l, 1, l.len())
        } else {
            Vec::new()
        };
        proof {
            assert(inner@ =~= unquoted_line(l@));
        }
        out.push(inner);
        j += 1;
    }
    proof {
        assert(rows(out@) =~= quote_lines(rows(lines@), from as int, to as int));
    }
    out
}

/// Computes `item_lines`.
fn strip_marker(lines: &Vec<Vec<char>>, from: usize, to: usize, w: usize) -> (r: Vec<Vec<char>>)
    requires
        from <= to <= lines.len(),
    ensures
        rows(r@) == item_lines(rows(lines@), from as int, to as int, w as int),
{
    let mut out: Vec<Vec<char>> = Vec::new();
    let mut j: usize = from;
    while j < to
        invariant
            from <= j <= to <= lines.len(),
            out.len() == j - from,
            forall|k: int| 0 <= k < j - from ==> (#[trigger] out[k])@ == dedented(
                rows(lines@)[from + k],
                w as int,
            ),
        decreases to - j,
    {
        let l = &lines[j];
        let inner = if w <= l.len() {
            copy_range(l, w, l.len())
        } else {
            Vec::new()
        };
        proof {
            assert(inner@ =~= dedented(l@, w as int));
        }
        out.push(inner);
        j += 1;
    }
    proof {
        assert(rows(out@) =~= item_lines(rows(lines@), from as int, to as int, w as int));
    }
    out
}

/// Computes `row_cells`.
fn make_cells(cells: &Vec<Vec<char>>, columns: usize, header: bool) -> (r: Vec<Block>)
    ensures
        block_views(r@) == row_cells(rows(cells@), columns as nat, header),
{
    let mut out: Vec<Block> = Vec::new();
    let mut j: usize = 0;
    while j < columns
        invariant
            j <= columns,
            out.len() == j,
            forall|k: int| 0 <= k < j ==> (#[trigger] out[k])@ == row_cells(
                rows(cells@),
                columns as nat,
                header,
            )[k],
        decreases columns - j,
    {
        let children = if j < cells.len() {
            read_inlines(&cells[j])
        } else {
            let none: Vec<Inline> = Vec::new();
            proof {
                assert(inline_views(none@) =~= Seq::<InlineView>::empty());
            }
            none
        };
        out.push(Block::TableCell { is_header: header, children });
        j += 1;
    }
    proof {
        assert(block_views(out@) =~= row_cells(rows(cells@), columns as nat, header));
    }
    out
}

/// Computes `body_rows`.
fn make_rows(lines: &Vec<Vec<char>>, from: usize, to: usize, columns: usize) -> (r: Vec<Block>)
    requires
        from <= lines.len(),
        to <= lines.len(),
    ensures
        block_views(r@) == body_rows(rows(lines@), from as int, to as int, columns as nat),
{
    let mut out: Vec<Block> = Vec::new();
    if from >= to {
        proof {
            assert(block_views(out@) =~= body_rows(
                rows(lines@),
                from as int,
                to as int,
                columns as nat,
            ));
        }
        return out;
    }
    let mut j: usize = from;
    while j < to
        invariant
            from <= j <= to <= lines.len(),
            out.len() == j - from,
            forall|k: int| 0 <= k < j - from ==> (#[trigger] out[k])@ == body_rows(
                rows(lines@),
                from as int,
                to as int,
                columns as nat,
            )[k],
        decreases to - j,
    {
        let cells = split_cells(&lines[j]);
        let row = Block::TableRow(make_cells(&cells, columns, false));
        out.push(row);
        j += 1;
    }
    proof {
        assert(block_views(out@) =~= body_rows(rows(lines@), from as int, to as int, columns as nat));
    }
    out
}

/// Computes `gapped` from the first line on.
fn has_gap(lines: &Vec<Vec<char>>, depth: usize) -> (r: bool)
    ensures
        r == gapped(rows(lines@), 0, false, depth as nat),
{
    let mut i: usize = 0;
    let mut begun: bool = false;
    while i < lines.len()
        invariant
            i <= lines.len(),
            gapped(rows(lines@), 0, false, depth as nat) == gapped(
                rows(lines@),
                i as int,
                begun,
                depth as nat,
            ),
        decreases lines.len() - i,
    {
        if blank(&lines[i]) {
            let next = find_run_end(lines, i + 1, Run::Blank, 0);
            proof {
                assert(rows(lines@)[i as int] == lines@[i as int]@);
                assert(next == run_end(rows(lines@), i as int, Run::Blank, 0));
            }
            if begun && next < lines.len() {
                return true;
            }
            i = next;
        } else {
            i = find_block_end(lines, i, depth);
            begun = true;
        }
    }
    false
}

/// Computes `list_items` and `list_loose`.
#[verifier::rlimit(40)]
fn read_list(lines: &Vec<Vec<char>>, from: usize, end: usize, m: &Marker, depth: usize) -> (r: (
    Vec<Block>,
    bool,
))
    requires
        from < end <= lines.len(),
        depth > 0,
    ensures
        block_views(r.0@) == list_items(rows(lines@), from as int, end as int, m@, depth as nat),
        r.1 == list_loose(rows(lines@), from as int, end as int, m@, depth as nat),
    decreases depth, 0int,
{
    let ghost all = rows(lines@);
    let ghost items = list_items(all, from as int, end as int, m@, depth as nat);
    let ghost loose_goal = list_loose(all, from as int, end as int, m@, depth as nat);
    let mut out: Vec<Block> = Vec::new();
    let mut loose: bool = false;
    let mut i: usize = from;
    proof {
        assert(block_views(out@) + items =~= items);
    }
    while i < end
        invariant
            from <= i <= lines.len(),
            end <= lines.len(),
            depth > 0,
            all == rows(lines@),
            items == list_items(all, from as int, end as int, m@, depth as nat),
            loose_goal == list_loose(all, from as int, end as int, m@, depth as nat),
            block_views(out@) + list_items(all, i as int, end as int, m@, depth as nat) == items,
            (loose || list_loose(all, i as int, end as int, m@, depth as nat)) == loose_goal,
        decreases end - i,
    {
        let ghost before = block_views(out@);
        let w = match read_marker(&lines[i]) {
            Some(n) => n.width,
            None => m.width,
        };
        let e = find_item_end(lines, i, w);
        let next = find_run_end(lines, e, Run::Blank, 0);
        let content = strip_marker(lines, i, e, w);
        let inside = has_gap(&content, depth - 1);
        let children = read_blocks(&content, depth - 1);
        let item = Block::ListItem(children);
        out.push(item);
        proof {
            assert(block_views(out@) =~= before + seq![item@]);
            let tail = list_items(all, next as int, end as int, m@, depth as nat);
            if next < end {
                assert(block_views(out@) + tail =~= before + (seq![item@] + tail));
            } else {
                assert(tail =~= Seq::<BlockView>::empty());
                assert(block_views(out@) + tail =~= before + seq![item@]);
                assert(!list_loose(all, next as int, end as int, m@, depth as nat));
            }
        }
        if inside || (e < next && next < end) {
            loose = true;
        }
        proof {
            if next >= end {
                assert(list_items(all, end as int, end as int, m@, depth as nat) =~= list_items(
                    all,
                    next as int,
                    end as int,
                    m@,
                    depth as nat,
                ));
                assert(!list_loose(all, end as int, end as int, m@, depth as nat));
            }
        }
        i = if next < end {
            next
        } else {
            end
        };
    }
    proof {
        assert(list_items(all, i as int, end as int, m@, depth as nat) =~= Seq::<BlockView>::empty());
        assert(block_views(out@) + Seq::<BlockView>::empty() =~= block_views(out@));
    }
    (out, loose)
}

/// Computes `block_at`: the block that the lines from `i` up to `e` make.
#[verifier::rlimit(40)]
fn read_block(lines: &Vec<Vec<char>>, i: usize, e: usize, depth: usize) -> (r: Block)
    requires
        i < e <= lines.len(),
        e == block_end(rows(lines@), i as int, depth as nat),
    ensures
        r@ == block_at(rows(lines@), i as int, e as int, depth as nat),
    decreases depth, 1int,
{
    let l = &lines[i];
    match read_start(lines, i, depth) {
        BlockStart::Fence => {
            let k = fence_of(l);
            let info = trim(&copy_range(l, k, l.len()));
            let stop = find_fence_end(lines, i + 1, k);
            let literal = stack_lines(lines, i + 1, stop);
            proof {
                assert(l@.subrange(k as int, l@.len() as int) =~= l@.skip(k as int));
            }
            Block::CodeBlock { info: string_of(&info), literal: string_of(&literal) }
        },
        BlockStart::Heading => {
            let k = heading_of(l);
            let content = trim(&copy_range(l, k, l.len()));
            proof {
                assert(l@.subrange(k as int, l@.len() as int) =~= l@.skip(k as int));
            }
            Block::Heading { level: k as u8, children: read_inlines(&content) }
        },
        BlockStart::Rule => Block::ThematicBreak,
        BlockStart::Quote => {
            let content = strip_quote(lines, i, e);
            Block::BlockQuote(read_blocks(&content, depth - 1))
        },
        BlockStart::List => {
            match read_marker(l) {
                Some(m) => {
                    let (items, loose) = read_list(lines, i, e, &m, depth);
                    Block::List {
                        ordered: m.ordered,
                        start: if m.ordered {
                            Some(m.number)
                        } else {
                            None
                        },
                        tight: !loose,
                        items,
                    }
                },
                None => Block::ThematicBreak,
            }
        },
        BlockStart::Table => {
            match read_table_start(lines, i) {
                Some(alignments) => {
                    let columns = alignments.len();
                    let header = Block::TableRow(make_cells(&split_cells(l), columns, true));
                    let mut table_rows: Vec<Block> = Vec::new();
                    table_rows.push(header);
                    let mut body = make_rows(lines, i + 2, e, columns);
                    let ghost first = block_views(table_rows@);
                    let ghost rest = block_views(body@);
                    table_rows.append(&mut body);
                    proof {
                        assert(first =~= seq![header@]);
                        assert(block_views(table_rows@) =~= first + rest);
                    }
                    Block::Table { alignments, rows: table_rows }
                },
                None => Block::ThematicBreak,
            }
        },
        BlockStart::Html => {
            let literal = join_lines(lines, i, e);
            Block::RawHtmlBlock(string_of(&literal))
        },
        BlockStart::Paragraph => {
            let content = trim(&join_lines(lines, i, e));
            Block::Paragraph(read_inlines(&content))
        },
    }
}

/// Computes `blocks_of` from the first line on.
pub fn read_blocks(lines: &Vec<Vec<char>>, depth: usize) -> (r: Vec<Block>)
    ensures
        block_views(r@) == blocks_of(rows(lines@), 0, depth as nat),
    decreases depth, 2int,
{
    let ghost all = rows(lines@);
    let ghost goal = blocks_of(all, 0, depth as nat);
    let mut out: Vec<Block> = Vec::new();
    let mut i: usize = 0;
    proof {
        assert(block_views(out@) + goal =~= goal);
    }
    while i < lines.len()
        invariant
            i <= lines.len(),
            all == rows(lines@),
            block_views(out@) + blocks_of(all, i as int, depth as nat) == goal,
        decreases lines.len() - i,
    {
        if blank(&lines[i]) {
            i += 1;
        } else {
            let ghost before = block_views(out@);
            let e = find_block_end(lines, i, depth);
            let block = read_block(lines, i, e, depth);
            out.push(block);
            proof {
                assert(block_views(out@) =~= before + seq![block@]);
                let tail = blocks_of(all, e as int, depth as nat);
                assert(block_views(out@) + tail =~= before + (seq![block@] + tail));
            }
            i = e;
        }
    }
    proof {
        assert(block_views(out@) + Seq::<BlockView>::empty() =~= block_views(out@));
    }
    out
}

/// Reads a text of Markdown as a document.
pub fn read_markdown(text: &str) -> (r: Document)
    ensures
        r@ == document_of(text@),
        crate::markup::tree_laws::document_ok(r@),
{
    proof {
        crate::markdown::laws::lemma_document_of_ok(text@);
    }
    let s = chars_of(text);
    let lines = split_lines(&s);
    let blocks = read_blocks(&lines, MAX_BLOCK_DEPTH);
    Document { blocks }
}

} // verus!
