//! What is read from a text of Markdown is a well-formed document.

use vstd::prelude::*;
use crate::markdown::block::{
    block_at, block_end, blocks_of, BlockStart, body_rows, cells_of, item_end, item_lines,
    list_items, MAX_BLOCK_DEPTH, quote_lines, row_cells, Run, run_end, span, start_at, table_at,
};
use crate::markdown::chars::{lemma_repeat_len_bound, repeat_len, without_trail};
use crate::markdown::inline::{
    break_after, flush, inlines_of, leaf_at, literal_len, MAX_INLINE_DEPTH, nested_at, scan,
    span_node, SpanKind,
};
use crate::markdown::lines::{heading_level, is_blank, lines_of, marker_of, MarkerView};
use crate::markdown::reader::document_of;
use crate::markup::tree::Context;
use crate::markup::tree_laws::{block_kind, block_ok, blocks_ok, document_ok, inline_ok, inlines_ok};
use crate::model::{BlockView, InlineView};

verus! {

/// Well-formed inlines stay well-formed when one more is put behind them,
/// unless a text would follow a text.
pub proof fn lemma_inlines_ok_push(xs: Seq<InlineView>, x: InlineView)
    requires
        inlines_ok(xs),
        inline_ok(x),
        xs.len() > 0 ==> !(xs.last() is Text && x is Text),
    ensures
        inlines_ok(xs.push(x)),
    decreases xs.len(),
{
    let all = xs.push(x);
    if xs.len() == 0 {
        assert(all.skip(1) =~= Seq::<InlineView>::empty());
        assert(inlines_ok(all.skip(1)));
    } else {
        assert(all[0] == xs[0]);
        assert(all.skip(1) =~= xs.skip(1).push(x));
        if xs.len() > 1 {
            assert(all[1] == xs[1]);
            assert(xs.skip(1).last() == xs.last());
        } else {
            assert(all[1] == x);
            assert(xs.last() == xs[0]);
        }
        lemma_inlines_ok_push(xs.skip(1), x);
    }
}

/// Inlines that end with no text are well-formed with the text that was
/// gathered behind them.
proof fn lemma_flush_ok(out: Seq<InlineView>, pending: Seq<char>)
    requires
        inlines_ok(out),
        out.len() > 0 ==> !(out.last() is Text),
    ensures
        inlines_ok(flush(out, pending)),
{
    if pending.len() > 0 {
        lemma_inlines_ok_push(out, InlineView::Text(pending));
    }
}

/// Inlines that end with no text are well-formed with the text that was
/// gathered and one more inline behind them, and again end with no text.
proof fn lemma_flush_push_ok(out: Seq<InlineView>, pending: Seq<char>, node: InlineView)
    requires
        inlines_ok(out),
        out.len() > 0 ==> !(out.last() is Text),
        inline_ok(node),
        !(node is Text),
    ensures
        inlines_ok(flush(out, pending).push(node)),
        !(flush(out, pending).push(node).last() is Text),
{
    lemma_flush_ok(out, pending);
    lemma_inlines_ok_push(flush(out, pending), node);
}

/// The inlines that are read from a text are well-formed.
#[verifier::rlimit(40)]
pub proof fn lemma_scan_ok(
    s: Seq<char>,
    i: int,
    pending: Seq<char>,
    out: Seq<InlineView>,
    depth: nat,
)
    requires
        0 <= i,
        inlines_ok(out),
        out.len() > 0 ==> !(out.last() is Text),
    ensures
        inlines_ok(scan(s, i, pending, out, depth)),
    decreases depth, s.len() - i,
{
    if i >= s.len() {
        lemma_flush_ok(out, pending);
    } else if s[i] == '\n' {
        lemma_repeat_len_bound(s, i + 1, ' ');
        let node = break_after(pending);
        lemma_flush_push_ok(out, without_trail(pending, ' '), node);
        lemma_scan_ok(
            s,
            i + 1 + repeat_len(s, i + 1, ' '),
            Seq::empty(),
            flush(out, without_trail(pending, ' ')).push(node),
            depth,
        );
    } else if s[i] == '\\' && i + 1 < s.len() && s[i + 1] == '\n' {
        lemma_repeat_len_bound(s, i + 2, ' ');
        lemma_flush_push_ok(out, without_trail(pending, ' '), InlineView::LineBreak);
        lemma_scan_ok(
            s,
            i + 2 + repeat_len(s, i + 2, ' '),
            Seq::empty(),
            flush(out, without_trail(pending, ' ')).push(InlineView::LineBreak),
            depth,
        );
    } else if s[i] == '\\' && i + 1 < s.len() && crate::markdown::chars::is_mark(s[i + 1]) {
        lemma_scan_ok(s, i + 2, pending.push(s[i + 1]), out, depth);
    } else {
        match leaf_at(s, i) {
            Some((node, n)) => {
                if n >= 1 && i + n <= s.len() {
                    lemma_flush_push_ok(out, pending, node);
                    lemma_scan_ok(s, i + n, Seq::empty(), flush(out, pending).push(node), depth);
                } else {
                    lemma_flush_ok(out, pending);
                }
            },
            None => match nested_at(s, i, depth) {
                Some(span) => {
                    let children = scan(
                        s.subrange(span.from, span.to),
                        0,
                        Seq::empty(),
                        Seq::empty(),
                        (depth - 1) as nat,
                    );
                    lemma_scan_ok(
                        s.subrange(span.from, span.to),
                        0,
                        Seq::empty(),
                        Seq::empty(),
                        (depth - 1) as nat,
                    );
                    let node = span_node(span, children);
                    if span.kind == SpanKind::StrongEmphasis {
                        let inner = seq![InlineView::Strong(children)];
                        assert(inline_ok(InlineView::Strong(children)));
                        lemma_inlines_ok_push(Seq::empty(), InlineView::Strong(children));
                        assert(Seq::<InlineView>::empty().push(InlineView::Strong(children)) =~= inner);
                    }
                    lemma_flush_push_ok(out, pending, node);
                    lemma_scan_ok(
                        s,
                        i + span.length,
                        Seq::empty(),
                        flush(out, pending).push(node),
                        depth,
                    );
                },
                None => {
                    lemma_repeat_len_bound(s, i, s[i]);
                    lemma_scan_ok(
                        s,
                        i + literal_len(s, i),
                        pending + s.subrange(i, i + literal_len(s, i)),
                        out,
                        depth,
                    );
                },
            },
        }
    }
}

/// The inlines of a text are well-formed.
pub proof fn lemma_inlines_of_ok(s: Seq<char>)
    ensures
        inlines_ok(inlines_of(s)),
{
    lemma_scan_ok(s, 0, Seq::empty(), Seq::empty(), MAX_INLINE_DEPTH as nat);
}

/// Blocks are well-formed in a context where each of them is well-formed
/// and may stand in the context.
pub proof fn lemma_blocks_ok_each(bs: Seq<BlockView>, ctx: Context)
    requires
        forall|k: int|
            0 <= k < bs.len() ==> crate::markup::tree::allowed(ctx, block_kind(#[trigger] bs[k]))
                && block_ok(bs[k]),
    ensures
        blocks_ok(bs, ctx),
    decreases bs.len(),
{
    if bs.len() > 0 {
        let rest = bs.skip(1);
        assert forall|k: int| 0 <= k < rest.len() implies crate::markup::tree::allowed(
            ctx,
            block_kind(#[trigger] rest[k]),
        ) && block_ok(rest[k]) by {
            assert(rest[k] == bs[k + 1]);
        }
        lemma_blocks_ok_each(rest, ctx);
    }
}

/// Well-formed blocks stay well-formed with one more in front of them.
pub proof fn lemma_blocks_ok_cons(b: BlockView, bs: Seq<BlockView>, ctx: Context)
    requires
        crate::markup::tree::allowed(ctx, block_kind(b)),
        block_ok(b),
        blocks_ok(bs, ctx),
    ensures
        blocks_ok(seq![b] + bs, ctx),
{
    let all = seq![b] + bs;
    assert(all[0] == b);
    assert(all.skip(1) =~= bs);
}

/// The cells of a row of a table are well-formed.
proof fn lemma_row_cells_ok(cells: Seq<Seq<char>>, columns: nat, header: bool)
    ensures
        blocks_ok(row_cells(cells, columns, header), Context::Cells),
{
    let row = row_cells(cells, columns, header);
    assert forall|k: int| 0 <= k < row.len() implies crate::markup::tree::allowed(
        Context::Cells,
        block_kind(#[trigger] row[k]),
    ) && block_ok(row[k]) by {
        if k < cells.len() {
            lemma_inlines_of_ok(cells[k]);
        }
    }
    lemma_blocks_ok_each(row, Context::Cells);
}

/// The rows of the body of a table are well-formed.
proof fn lemma_body_rows_ok(lines: Seq<Seq<char>>, from: int, to: int, columns: nat)
    ensures
        blocks_ok(body_rows(lines, from, to, columns), Context::Rows),
{
    let body = body_rows(lines, from, to, columns);
    assert forall|k: int| 0 <= k < body.len() implies crate::markup::tree::allowed(
        Context::Rows,
        block_kind(#[trigger] body[k]),
    ) && block_ok(body[k]) by {
        lemma_row_cells_ok(cells_of(lines[from + k]), columns, false);
    }
    lemma_blocks_ok_each(body, Context::Rows);
}

/// The items that are read for a list are well-formed.
pub proof fn lemma_list_items_ok(
    lines: Seq<Seq<char>>,
    i: int,
    end: int,
    m: MarkerView,
    depth: nat,
)
    ensures
        blocks_ok(list_items(lines, i, end, m, depth), Context::Items),
    decreases depth, 0int, end - i,
{
    if i < 0 || i >= end || end > lines.len() || depth == 0 {
    } else {
        let w = match marker_of(lines[i]) {
            Some(n) => n.width,
            None => m.width,
        };
        let e = item_end(lines, i, w);
        let next = run_end(lines, e, Run::Blank, 0);
        let content = blocks_of(item_lines(lines, i, e, w), 0, (depth - 1) as nat);
        lemma_blocks_of_ok(item_lines(lines, i, e, w), 0, (depth - 1) as nat);
        let item = BlockView::ListItem(content);
        if i < e <= next && next < end {
            lemma_list_items_ok(lines, next, end, m, depth);
            lemma_blocks_ok_cons(item, list_items(lines, next, end, m, depth), Context::Items);
        } else {
            lemma_blocks_ok_cons(item, Seq::empty(), Context::Items);
            assert(seq![item] + Seq::<BlockView>::empty() =~= seq![item]);
        }
    }
}

/// The block that is read from some lines is well-formed, and may stand
/// wherever blocks stand.
#[verifier::rlimit(40)]
pub proof fn lemma_block_at_ok(lines: Seq<Seq<char>>, i: int, e: int, depth: nat)
    requires
        0 <= i < lines.len(),
    ensures
        block_ok(block_at(lines, i, e, depth)),
        crate::markup::tree::allowed(Context::Blocks, block_kind(block_at(lines, i, e, depth))),
    decreases depth, 1int, 0int,
{
    let l = lines[i];
    match start_at(lines, i, depth) {
        BlockStart::Fence => {},
        BlockStart::Heading => {
            lemma_inlines_of_ok(crate::entries::trimmed(l.skip(heading_level(l) as int)));
        },
        BlockStart::Rule => {},
        BlockStart::Quote => {
            if depth > 0 {
                lemma_blocks_of_ok(quote_lines(lines, i, e), 0, (depth - 1) as nat);
            }
        },
        BlockStart::List => {
            lemma_list_items_ok(lines, i, e, marker_of(l)->0, depth);
        },
        BlockStart::Table => {
            let a = table_at(lines, i)->0;
            let header = BlockView::TableRow(row_cells(cells_of(l), a.len(), true));
            lemma_row_cells_ok(cells_of(l), a.len(), true);
            lemma_body_rows_ok(lines, i + 2, e, a.len());
            lemma_blocks_ok_cons(header, body_rows(lines, i + 2, e, a.len()), Context::Rows);
        },
        BlockStart::Html => {},
        BlockStart::Paragraph => {
            lemma_inlines_of_ok(
                crate::entries::trimmed(crate::markdown::block::joined(lines, i, e)),
            );
        },
    }
}

/// The blocks that are read from some lines are well-formed.
pub proof fn lemma_blocks_of_ok(lines: Seq<Seq<char>>, i: int, depth: nat)
    ensures
        blocks_ok(blocks_of(lines, i, depth), Context::Blocks),
    decreases depth, 2int, lines.len() - i,
{
    if i < 0 || i >= lines.len() {
    } else if is_blank(lines[i]) {
        lemma_blocks_of_ok(lines, i + 1, depth);
    } else {
        let e = block_end(lines, i, depth);
        if i < e <= lines.len() {
            lemma_block_at_ok(lines, i, e, depth);
            lemma_blocks_of_ok(lines, e, depth);
            lemma_blocks_ok_cons(
                block_at(lines, i, e, depth),
                blocks_of(lines, e, depth),
                Context::Blocks,
            );
        }
    }
}

/// What is read from a text of Markdown is a well-formed document: no
/// text is empty or follows a text, the level of each heading is one of 1
/// to 6, and each block stands where its kind may stand.
pub proof fn lemma_document_of_ok(markdown: Seq<char>)
    ensures
        document_ok(document_of(markdown)),
{
    lemma_blocks_of_ok(lines_of(markdown), 0, MAX_BLOCK_DEPTH as nat);
}

} // verus!
