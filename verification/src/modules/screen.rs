use vstd::prelude::*;

use super::frame::CharMap;
use super::renderer::{
    TermOp, full_redraw_ops, full_rows_ops, row_paint_ops, dirty_redraw_ops, dirty_rows_ops,
    dirty_run_ops, render_ops, effective_last, full_redraw_chosen, count_changed, frame_cells,
    char_rows, pixel_cell, spec_pack_cell, channel, ops_bytes, lemma_ops_bytes_concat,
};

verus! {

/// A model of the terminal: the cursor position (0-based) and the cell shown
/// at each position that has been drawn.
pub struct Screen {
    pub row: int,
    pub col: int,
    pub cells: Map<(int, int), u64>,
}

/// The effect of one operation on the screen.
pub open spec fn apply_op(s: Screen, op: TermOp) -> Screen {
    match op {
        TermOp::Home => Screen { row: 0, col: 0, ..s },
        TermOp::MoveTo(r, c) => Screen { row: r - 1, col: c - 1, ..s },
        TermOp::Paint(cell) => Screen { col: s.col + 1, cells: s.cells.insert((s.row, s.col), cell), ..s },
        TermOp::ClearToEol => Screen {
            cells: Map::new(
                |k: (int, int)| s.cells.dom().contains(k) && !(k.0 == s.row && k.1 >= s.col),
                |k: (int, int)| s.cells[k],
            ),
            ..s
        },
        TermOp::NewLine => Screen { row: s.row + 1, col: 0, ..s },
        TermOp::ResetStyle => s,
    }
}

/// The effect of a sequence of operations, applied in order.
pub open spec fn apply_ops(s: Screen, ops: Seq<TermOp>) -> Screen
    decreases ops.len(),
{
    if ops.len() == 0 {
        s
    } else {
        apply_op(apply_ops(s, ops.drop_last()), ops.last())
    }
}

/// The grid of `nrows` x `w` cells on the screen shows `cells` (row-major).
pub open spec fn shows(s: Screen, cells: Seq<u64>, w: nat, nrows: nat) -> bool {
    forall|r: int, c: int|
        0 <= r < nrows && 0 <= c < w ==> #[trigger] s.cells.contains_key((r, c)) && s.cells[(r, c)]
            == cells[r * w + c]
}

/// `s2` shows the same cells as `s1` at every position outside columns
/// `0..w` of line `row`.
pub open spec fn same_outside_line(s1: Screen, s2: Screen, row: int, w: nat) -> bool {
    forall|k: (int, int)|
        !(k.0 == row && 0 <= k.1 < w) ==> (#[trigger] s2.cells.contains_key(k) == s1.cells.contains_key(k)
            && (s1.cells.contains_key(k) ==> s2.cells[k] == s1.cells[k]))
}

proof fn lemma_apply_ops_concat(s: Screen, a: Seq<TermOp>, b: Seq<TermOp>)
    ensures
        apply_ops(s, a + b) == apply_ops(apply_ops(s, a), b),
    decreases b.len(),
{
    if b.len() == 0 {
        assert(a + b =~= a);
    } else {
        lemma_apply_ops_concat(s, a, b.drop_last());
        assert((a + b).drop_last() =~= a + b.drop_last());
        assert((a + b).last() == b.last());
    }
}

proof fn lemma_apply_one(s: Screen, op: TermOp)
    ensures
        apply_ops(s, seq![op]) == apply_op(s, op),
{
    reveal_with_fuel(apply_ops, 2);
    assert(seq![op].drop_last() =~= Seq::<TermOp>::empty());
}

proof fn lemma_apply_first(s: Screen, op: TermOp, rest: Seq<TermOp>)
    ensures
        apply_ops(s, seq![op] + rest) == apply_ops(apply_op(s, op), rest),
{
    lemma_apply_ops_concat(s, seq![op], rest);
    lemma_apply_one(s, op);
}

/// Painting the first `n` cells of a row from the start of line `row`.
proof fn lemma_paint_row(s: Screen, cells: Seq<u64>, w: nat, row: nat, n: nat)
    requires
        s.row == row,
        s.col == 0,
        n <= w,
    ensures
        apply_ops(s, row_paint_ops(cells, w, row, n)).row == row,
        apply_ops(s, row_paint_ops(cells, w, row, n)).col == n,
        same_outside_line(s, apply_ops(s, row_paint_ops(cells, w, row, n)), row as int, w),
        forall|c: int|
            0 <= c < n ==> #[trigger] apply_ops(s, row_paint_ops(cells, w, row, n)).cells.contains_key(
                (row as int, c),
            ) && apply_ops(s, row_paint_ops(cells, w, row, n)).cells[(row as int, c)] == cells[row * w
                + c],
    decreases n,
{
    if n > 0 {
        let prev = row_paint_ops(cells, w, row, (n - 1) as nat);
        lemma_paint_row(s, cells, w, row, (n - 1) as nat);
        assert(row_paint_ops(cells, w, row, n).drop_last() =~= prev);
    } else {
        assert(row_paint_ops(cells, w, row, n) =~= Seq::<TermOp>::empty());
    }
}

proof fn lemma_full_rows(s: Screen, cells: Seq<u64>, w: nat, k: nat)
    requires
        s.row == 0,
        s.col == 0,
    ensures
        apply_ops(s, full_rows_ops(cells, w, k)).row == k,
        apply_ops(s, full_rows_ops(cells, w, k)).col == 0,
        shows(apply_ops(s, full_rows_ops(cells, w, k)), cells, w, k),
    decreases k,
{
    if k > 0 {
        let k1 = (k - 1) as nat;
        lemma_full_rows(s, cells, w, k1);
        let s1 = apply_ops(s, full_rows_ops(cells, w, k1));
        let paint = row_paint_ops(cells, w, k1, w);
        let tail = seq![TermOp::ClearToEol, TermOp::NewLine];
        lemma_paint_row(s1, cells, w, k1, w);
        let s2 = apply_ops(s1, paint);
        lemma_apply_ops_concat(s, full_rows_ops(cells, w, k1), paint);
        lemma_apply_ops_concat(s, full_rows_ops(cells, w, k1) + paint, tail);
        lemma_apply_first(s2, TermOp::ClearToEol, seq![TermOp::NewLine]);
        assert(tail =~= seq![TermOp::ClearToEol] + seq![TermOp::NewLine]);
        let s3 = apply_op(s2, TermOp::ClearToEol);
        lemma_apply_one(s3, TermOp::NewLine);
        let s4 = apply_op(s3, TermOp::NewLine);
        assert(apply_ops(s, full_rows_ops(cells, w, k)) == s4);
        assert forall|r: int, c: int| 0 <= r < k && 0 <= c < w implies #[trigger] s4.cells.contains_key(
            (r, c),
        ) && s4.cells[(r, c)] == cells[r * w + c] by {
            if r < k1 {
                assert(s1.cells.contains_key((r, c)));
                assert(s2.cells.contains_key((r, c)));
            } else {
                assert(s2.cells.contains_key((r, c)));
            }
        }
    } else {
        assert(full_rows_ops(cells, w, k) =~= Seq::<TermOp>::empty());
    }
}

/// A full redraw leaves the grid showing the new cells, whatever the screen
/// showed before.
pub proof fn lemma_full_redraw_shows(s: Screen, cells: Seq<u64>, w: nat, nrows: nat)
    ensures
        shows(apply_ops(s, full_redraw_ops(cells, w, nrows)), cells, w, nrows),
{
    let s0 = apply_op(s, TermOp::Home);
    lemma_apply_first(s, TermOp::Home, full_rows_ops(cells, w, nrows) + seq![TermOp::ResetStyle]);
    assert(full_redraw_ops(cells, w, nrows) =~= seq![TermOp::Home] + (full_rows_ops(cells, w, nrows)
        + seq![TermOp::ResetStyle]));
    lemma_full_rows(s0, cells, w, nrows);
    lemma_apply_ops_concat(s0, full_rows_ops(cells, w, nrows), seq![TermOp::ResetStyle]);
    lemma_apply_one(apply_ops(s0, full_rows_ops(cells, w, nrows)), TermOp::ResetStyle);
}


/// Line `r` of the grid shows the cells of row `r`.
pub open spec fn row_shows(s: Screen, cells: Seq<u64>, w: nat, r: int) -> bool {
    forall|c: int|
        0 <= c < w ==> #[trigger] s.cells.contains_key((r, c)) && s.cells[(r, c)] == cells[r * w + c]
}

proof fn lemma_dirty_run(
    s: Screen,
    new: Seq<u64>,
    old: Seq<u64>,
    w: nat,
    row: nat,
    col: nat,
    in_run: bool,
)
    requires
        col <= w,
        row * w + w <= new.len(),
        row * w + w <= old.len(),
        forall|c: int|
            0 <= c < col ==> #[trigger] s.cells.contains_key((row as int, c)) && s.cells[(row as int, c)]
                == new[row * w + c],
        forall|c: int|
            col <= c < w ==> #[trigger] s.cells.contains_key((row as int, c)) && s.cells[(row as int, c)]
                == old[row * w + c],
        in_run ==> s.row == row && s.col == col,
    ensures
        row_shows(apply_ops(s, dirty_run_ops(new, old, w, row, col, in_run)), new, w, row as int),
        same_outside_line(s, apply_ops(s, dirty_run_ops(new, old, w, row, col, in_run)), row as int, w),
    decreases w - col,
{
    let ops = dirty_run_ops(new, old, w, row, col, in_run);
    if col >= w {
        assert(ops =~= Seq::<TermOp>::empty());
    } else {
        let i = (row * w + col) as int;
        if new[i] != old[i] {
            let pre: Seq<TermOp> = if in_run {
                Seq::empty()
            } else {
                seq![TermOp::MoveTo(row + 1, col + 1)]
            };
            let rest = dirty_run_ops(new, old, w, row, col + 1, true);
            let paint = TermOp::Paint(new[i]);
            assert(ops == pre + seq![paint] + rest);
            let s1 = apply_ops(s, pre);
            if in_run {
                assert(pre =~= Seq::<TermOp>::empty());
            } else {
                lemma_apply_one(s, TermOp::MoveTo(row + 1, col + 1));
            }
            assert(s1.row == row && s1.col == col && s1.cells == s.cells);
            let s2 = apply_op(s1, paint);
            lemma_apply_ops_concat(s, pre, seq![paint] + rest);
            assert(pre + seq![paint] + rest =~= pre + (seq![paint] + rest));
            lemma_apply_first(s1, paint, rest);
            assert forall|c: int| 0 <= c < col + 1 implies #[trigger] s2.cells.contains_key((row as int, c))
                && s2.cells[(row as int, c)] == new[row * w + c] by {
                if c < col {
                    assert(s.cells.contains_key((row as int, c)));
                }
            }
            assert forall|c: int| col + 1 <= c < w implies #[trigger] s2.cells.contains_key(
                (row as int, c),
            ) && s2.cells[(row as int, c)] == old[row * w + c] by {
                assert(s.cells.contains_key((row as int, c)));
            }
            lemma_dirty_run(s2, new, old, w, row, col + 1, true);
            let t = apply_ops(s2, rest);
            assert forall|k: (int, int)| !(k.0 == row && 0 <= k.1 < w) implies (
            #[trigger] t.cells.contains_key(k) == s.cells.contains_key(k) && (s.cells.contains_key(k)
                ==> t.cells[k] == s.cells[k])) by {
                assert(t.cells.contains_key(k) == s2.cells.contains_key(k));
            }
        } else {
            let rest = dirty_run_ops(new, old, w, row, col + 1, false);
            assert(ops == rest);
            assert forall|c: int| 0 <= c < col + 1 implies #[trigger] s.cells.contains_key((row as int, c))
                && s.cells[(row as int, c)] == new[row * w + c] by {
                if c == col {
                    assert(s.cells.contains_key((row as int, c)));
                }
            }
            lemma_dirty_run(s, new, old, w, row, col + 1, false);
        }
    }
}

proof fn lemma_dirty_rows(s: Screen, new: Seq<u64>, old: Seq<u64>, w: nat, nrows: nat, k: nat)
    requires
        k <= nrows,
        new.len() == nrows * w,
        old.len() == nrows * w,
        shows(s, old, w, nrows),
    ensures
        forall|r: int| 0 <= r < k ==> #[trigger] row_shows(apply_ops(s, dirty_rows_ops(new, old, w, k)), new, w, r),
        forall|r: int| k <= r < nrows ==> #[trigger] row_shows(apply_ops(s, dirty_rows_ops(new, old, w, k)), old, w, r),
    decreases k,
{
    if k == 0 {
        assert(dirty_rows_ops(new, old, w, k) =~= Seq::<TermOp>::empty());
        assert forall|r: int| k <= r < nrows implies #[trigger] row_shows(s, old, w, r) by {
            assert forall|c: int| 0 <= c < w implies #[trigger] s.cells.contains_key((r, c)) && s.cells[(r, c)]
                == old[r * w + c] by {
                assert(s.cells.contains_key((r, c)));
            }
        }
    } else {
        let k1 = (k - 1) as nat;
        lemma_dirty_rows(s, new, old, w, nrows, k1);
        let s1 = apply_ops(s, dirty_rows_ops(new, old, w, k1));
        let run = dirty_run_ops(new, old, w, k1, 0, false);
        lemma_apply_ops_concat(s, dirty_rows_ops(new, old, w, k1), run);
        assert(k1 * w + w <= nrows * w) by (nonlinear_arith)
            requires k1 < nrows;
        assert(row_shows(s1, old, w, k1 as int));
        lemma_dirty_run(s1, new, old, w, k1, 0, false);
        let t = apply_ops(s1, run);
        assert forall|r: int| 0 <= r < k implies #[trigger] row_shows(t, new, w, r) by {
            if r < k1 {
                assert(row_shows(s1, new, w, r));
                assert forall|c: int| 0 <= c < w implies #[trigger] t.cells.contains_key((r, c))
                    && t.cells[(r, c)] == new[r * w + c] by {
                    assert(s1.cells.contains_key((r, c)));
                    assert(t.cells.contains_key((r, c)) == s1.cells.contains_key((r, c)));
                }
            }
        }
        assert forall|r: int| k <= r < nrows implies #[trigger] row_shows(t, old, w, r) by {
            assert(row_shows(s1, old, w, r));
            assert forall|c: int| 0 <= c < w implies #[trigger] t.cells.contains_key((r, c))
                && t.cells[(r, c)] == old[r * w + c] by {
                assert(s1.cells.contains_key((r, c)));
                assert(t.cells.contains_key((r, c)) == s1.cells.contains_key((r, c)));
            }
        }
    }
}

/// An incremental redraw, applied to a grid that shows the cells it was
/// computed against, leaves the grid showing the new cells.
pub proof fn lemma_dirty_redraw_shows(s: Screen, new: Seq<u64>, old: Seq<u64>, w: nat, nrows: nat)
    requires
        new.len() == nrows * w,
        old.len() == nrows * w,
        shows(s, old, w, nrows),
    ensures
        shows(apply_ops(s, dirty_redraw_ops(new, old, w, nrows)), new, w, nrows),
{
    lemma_dirty_rows(s, new, old, w, nrows, nrows);
    let s1 = apply_ops(s, dirty_rows_ops(new, old, w, nrows));
    lemma_apply_ops_concat(s, dirty_rows_ops(new, old, w, nrows), seq![TermOp::ResetStyle]);
    lemma_apply_one(s1, TermOp::ResetStyle);
    assert(apply_ops(s, dirty_redraw_ops(new, old, w, nrows)) == s1);
    assert forall|r: int, c: int| 0 <= r < nrows && 0 <= c < w implies #[trigger] s1.cells.contains_key(
        (r, c),
    ) && s1.cells[(r, c)] == new[r * w + c] by {
        assert(row_shows(s1, new, w, r));
        assert(s1.cells.contains_key((r, c)));
    }
}


// ---------------------------------------------------------------------------
// Laws of the renderer
// ---------------------------------------------------------------------------

/// Unpacking a packed cell gives back its six colour channels, and a packed
/// cell only uses its low six bytes.
pub proof fn lemma_cell_channels(r1: u8, g1: u8, b1: u8, r2: u8, g2: u8, b2: u8)
    ensures
        channel(spec_pack_cell(r1, g1, b1, r2, g2, b2), 0) == r1,
        channel(spec_pack_cell(r1, g1, b1, r2, g2, b2), 1) == g1,
        channel(spec_pack_cell(r1, g1, b1, r2, g2, b2), 2) == b1,
        channel(spec_pack_cell(r1, g1, b1, r2, g2, b2), 3) == r2,
        channel(spec_pack_cell(r1, g1, b1, r2, g2, b2), 4) == g2,
        channel(spec_pack_cell(r1, g1, b1, r2, g2, b2), 5) == b2,
        spec_pack_cell(r1, g1, b1, r2, g2, b2) < 0x1_0000_0000_0000,
{
    assert(channel(spec_pack_cell(r1, g1, b1, r2, g2, b2), 0) == r1) by (bit_vector);
    assert(channel(spec_pack_cell(r1, g1, b1, r2, g2, b2), 1) == g1) by (bit_vector);
    assert(channel(spec_pack_cell(r1, g1, b1, r2, g2, b2), 2) == b1) by (bit_vector);
    assert(channel(spec_pack_cell(r1, g1, b1, r2, g2, b2), 3) == r2) by (bit_vector);
    assert(channel(spec_pack_cell(r1, g1, b1, r2, g2, b2), 4) == g2) by (bit_vector);
    assert(channel(spec_pack_cell(r1, g1, b1, r2, g2, b2), 5) == b2) by (bit_vector);
    assert(spec_pack_cell(r1, g1, b1, r2, g2, b2) < 0x1_0000_0000_0000) by (bit_vector);
}

/// No cell of a frame equals the "unknown" marker `u64::MAX`.
pub proof fn lemma_frame_cells_known(map: &CharMap)
    ensures
        forall|i: int| 0 <= i < frame_cells(map).len() ==> #[trigger] frame_cells(map)[i] != u64::MAX,
{
    assert forall|i: int| 0 <= i < frame_cells(map).len() implies #[trigger] frame_cells(map)[i] != u64::MAX by {
        let w = map.cols as int;
        let row = i / w;
        let col = i % w;
        let o0 = map.offset(2 * row, col);
        let o1 = map.offset(2 * row + 1, col);
        lemma_cell_channels(
            map.data@[o0 + 2],
            map.data@[o0 + 1],
            map.data@[o0],
            map.data@[o1 + 2],
            map.data@[o1 + 1],
            map.data@[o1],
        );
        assert(frame_cells(map)[i] == pixel_cell(map, row, col));
    }
}

proof fn lemma_count_changed_bounds(a: Seq<u64>, b: Seq<u64>, n: nat)
    ensures
        (forall|i: int| 0 <= i < n ==> a[i] != b[i]) ==> count_changed(a, b, n) == n,
        (forall|i: int| 0 <= i < n ==> a[i] == b[i]) ==> count_changed(a, b, n) == 0,
    decreases n,
{
    if n > 0 {
        lemma_count_changed_bounds(a, b, (n - 1) as nat);
    }
}

proof fn lemma_dirty_run_unchanged(cells: Seq<u64>, w: nat, row: nat, col: nat, in_run: bool)
    ensures
        dirty_run_ops(cells, cells, w, row, col, in_run) == Seq::<TermOp>::empty(),
    decreases w - col,
{
    if col < w {
        lemma_dirty_run_unchanged(cells, w, row, col + 1, false);
    }
}

proof fn lemma_dirty_rows_unchanged(cells: Seq<u64>, w: nat, k: nat)
    ensures
        dirty_rows_ops(cells, cells, w, k) == Seq::<TermOp>::empty(),
    decreases k,
{
    if k > 0 {
        lemma_dirty_rows_unchanged(cells, w, (k - 1) as nat);
        lemma_dirty_run_unchanged(cells, w, (k - 1) as nat, 0, false);
        assert(dirty_rows_ops(cells, cells, w, k) =~= Seq::<TermOp>::empty());
    }
}

/// Drawing the frame that is already on screen, at the same size, emits
/// nothing but a colour reset: a static picture costs almost nothing.
pub proof fn lemma_redraw_unchanged_frame(cells: Seq<u64>, w: nat, nrows: nat)
    requires
        cells.len() == nrows * w,
        cells.len() > 0,
    ensures
        render_ops(cells, w, nrows, cells, w, nrows) == seq![TermOp::ResetStyle],
{
    lemma_count_changed_bounds(cells, cells, cells.len());
    lemma_dirty_rows_unchanged(cells, w, nrows);
    assert(dirty_redraw_ops(cells, cells, w, nrows) =~= seq![TermOp::ResetStyle]);
}

/// When the width, the number of rows or the number of cells changes (a new
/// size, or the first frame), the whole frame is redrawn.
pub proof fn lemma_resize_redraws_everything(
    prev: Seq<u64>,
    prev_w: nat,
    prev_rows: nat,
    cells: Seq<u64>,
    w: nat,
    nrows: nat,
)
    requires
        prev.len() != cells.len() || prev_w != w || prev_rows != nrows,
        forall|i: int| 0 <= i < cells.len() ==> #[trigger] cells[i] != u64::MAX,
    ensures
        render_ops(prev, prev_w, prev_rows, cells, w, nrows) == full_redraw_ops(cells, w, nrows),
{
    let last = effective_last(prev, prev_w, prev_rows, cells.len(), w, nrows);
    assert forall|i: int| 0 <= i < cells.len() implies cells[i] != last[i] by {
        assert(cells[i] != u64::MAX);
    }
    lemma_count_changed_bounds(cells, last, cells.len());
    assert(full_redraw_chosen(cells, last));
}

/// Whatever the renderer emits leaves the grid showing the new cells,
/// provided the terminal shows the previous frame at the previous size.
pub proof fn lemma_render_updates_screen(
    s: Screen,
    prev: Seq<u64>,
    prev_w: nat,
    prev_rows: nat,
    cells: Seq<u64>,
    w: nat,
    nrows: nat,
)
    requires
        cells.len() == nrows * w,
        forall|i: int| 0 <= i < cells.len() ==> #[trigger] cells[i] != u64::MAX,
        shows(s, prev, prev_w, prev_rows),
    ensures
        shows(apply_ops(s, render_ops(prev, prev_w, prev_rows, cells, w, nrows)), cells, w, nrows),
{
    let last = effective_last(prev, prev_w, prev_rows, cells.len(), w, nrows);
    if prev.len() != cells.len() || prev_w != w || prev_rows != nrows {
        lemma_resize_redraws_everything(prev, prev_w, prev_rows, cells, w, nrows);
        lemma_full_redraw_shows(s, cells, w, nrows);
    } else if full_redraw_chosen(cells, last) {
        lemma_full_redraw_shows(s, cells, w, nrows);
    } else {
        lemma_dirty_redraw_shows(s, cells, last, w, nrows);
    }
}

/// A fresh renderer (nothing drawn, size 0 x 0) draws the first map that has
/// at least one cell in full: its bytes start with `ESC [ H`.
pub proof fn lemma_first_frame_full_redraw(map: &CharMap)
    requires
        map.wf(),
        frame_cells(map).len() > 0,
    ensures
        render_ops(Seq::empty(), 0, 0, frame_cells(map), map.cols as nat, char_rows(map))
            == full_redraw_ops(frame_cells(map), map.cols as nat, char_rows(map)),
        ops_bytes(full_redraw_ops(frame_cells(map), map.cols as nat, char_rows(map))).take(3)
            == seq![27u8, 91u8, 72u8],
{
    lemma_frame_cells_known(map);
    lemma_resize_redraws_everything(Seq::empty(), 0, 0, frame_cells(map), map.cols as nat, char_rows(map));
    let ops = full_redraw_ops(frame_cells(map), map.cols as nat, char_rows(map));
    let tail = full_rows_ops(frame_cells(map), map.cols as nat, char_rows(map)) + seq![TermOp::ResetStyle];
    assert(ops =~= seq![TermOp::Home] + tail);
    lemma_ops_bytes_concat(seq![TermOp::Home], tail);
    reveal_with_fuel(ops_bytes, 2);
    assert(seq![TermOp::Home].drop_last() =~= Seq::<TermOp>::empty());
    assert(ops_bytes(seq![TermOp::Home]) =~= seq![27u8, 91u8, 72u8]);
    assert(ops_bytes(ops).take(3) =~= seq![27u8, 91u8, 72u8]);
}

/// After `render_character_map` draws `map`, a terminal that showed the
/// renderer's previous frame at its size (`prev_w` columns, `prev_rows`
/// character rows; nothing is needed before the first frame, whose size is
/// 0 x 0) shows the cells of `map`.
pub proof fn lemma_rendered_map_is_shown(
    s: Screen,
    prev: Seq<u64>,
    prev_w: nat,
    prev_rows: nat,
    map: &CharMap,
)
    requires
        map.wf(),
        shows(s, prev, prev_w, prev_rows),
    ensures
        shows(
            apply_ops(
                s,
                render_ops(prev, prev_w, prev_rows, frame_cells(map), map.cols as nat, char_rows(map)),
            ),
            frame_cells(map),
            map.cols as nat,
            char_rows(map),
        ),
{
    lemma_frame_cells_known(map);
    lemma_render_updates_screen(s, prev, prev_w, prev_rows, frame_cells(map), map.cols as nat, char_rows(map));
}

/// Each cell shows two stacked pixels: its upper half carries the red, green
/// and blue of pixel row `2 * row`, its lower half those of pixel row
/// `2 * row + 1`, in the same column.
pub proof fn lemma_cell_shows_pixels(map: &CharMap, row: int, col: int)
    requires
        map.wf(),
        0 <= row < char_rows(map),
        0 <= col < map.cols,
    ensures
        ({
            let cell = frame_cells(map)[row * map.cols + col];
            let top = map.offset(2 * row, col);
            let bottom = map.offset(2 * row + 1, col);
            &&& channel(cell, 0) == map.data@[top + 2]
            &&& channel(cell, 1) == map.data@[top + 1]
            &&& channel(cell, 2) == map.data@[top]
            &&& channel(cell, 3) == map.data@[bottom + 2]
            &&& channel(cell, 4) == map.data@[bottom + 1]
            &&& channel(cell, 5) == map.data@[bottom]
        }),
{
    let w = map.cols as int;
    let i = row * w + col;
    let cr = char_rows(map) as int;
    assert(i < cr * w) by (nonlinear_arith)
        requires row < cr, 0 <= col < w, 0 <= row, i == row * w + col;
    vstd::arithmetic::div_mod::lemma_fundamental_div_mod_converse(i, w, row, col);
    assert(frame_cells(map)[i] == pixel_cell(map, row, col));
    let top = map.offset(2 * row, col);
    let bottom = map.offset(2 * row + 1, col);
    lemma_cell_channels(
        map.data@[top + 2],
        map.data@[top + 1],
        map.data@[top],
        map.data@[bottom + 2],
        map.data@[bottom + 1],
        map.data@[bottom],
    );
}

} // verus!
