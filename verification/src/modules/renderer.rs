use vstd::prelude::*;
use vstd::arithmetic::div_mod::lemma_fundamental_div_mod_converse;

use super::frame::CharMap;
use super::size_log::SizeAnswers;

verus! {

/// The ASCII code of `'0'`.
pub const ASCII_ZERO: u8 = 48;

// ---------------------------------------------------------------------------
// Byte-level building blocks
// ---------------------------------------------------------------------------

/// Appends every byte of `bytes` to `buf`.
pub(crate) fn append_bytes(buf: &mut Vec<u8>, bytes: &[u8])
    ensures
        final(buf)@ == old(buf)@ + bytes@,
{
    let n = bytes.len();
    let mut i: usize = 0;
    while i < n
        invariant
            n == bytes@.len(),
            i <= n,
            buf@ == old(buf)@ + bytes@.take(i as int),
        decreases n - i,
    {
        buf.push(bytes[i]);
        i += 1;
        assert(bytes@.take(i as int) == bytes@.take((i - 1) as int).push(bytes@[i - 1]));
    }
    assert(bytes@.take(n as int) == bytes@);
}

/// ASCII code of the decimal digit `d` (`d < 10`).
pub open spec fn digit(d: nat) -> u8 {
    (48 + d) as u8
}

/// Shortest decimal representation of `n` in ASCII digits.
pub open spec fn decimal(n: nat) -> Seq<u8>
    decreases n,
{
    if n < 10 {
        seq![digit(n)]
    } else {
        decimal(n / 10).push(digit(n % 10))
    }
}

/// Digits written for a cursor coordinate: the decimal form below 10000;
/// beyond that the last three digits are exact and the leading byte is the
/// thousands count added to `'0'`, wrapping at 256.
pub open spec fn coordinate_digits(v: nat) -> Seq<u8> {
    if v < 10000 {
        decimal(v)
    } else {
        seq![((48 + v / 1000) % 256) as u8, digit((v / 100) % 10), digit((v / 10) % 10), digit(v % 10)]
    }
}

/// The number written by the ASCII digits `s` (most significant first).
pub open spec fn decimal_value(s: Seq<u8>) -> int
    decreases s.len(),
{
    if s.len() == 0 {
        0
    } else {
        decimal_value(s.drop_last()) * 10 + (s.last() - 48)
    }
}

/// `decimal(n)` consists of ASCII digits, has no leading zero and reads back as `n`.
pub proof fn lemma_decimal_reads_back(n: nat)
    ensures
        forall|i: int| 0 <= i < decimal(n).len() ==> 48 <= #[trigger] decimal(n)[i] <= 57,
        decimal(n)[0] == 48 ==> n == 0,
        decimal(n).len() >= 1,
        decimal_value(decimal(n)) == n,
    decreases n,
{
    if n >= 10 {
        lemma_decimal_reads_back(n / 10);
        let prefix = decimal(n / 10);
        assert(decimal(n) == prefix.push(digit(n % 10)));
        assert(decimal(n).drop_last() =~= prefix);
        assert forall|i: int| 0 <= i < decimal(n).len() implies 48 <= #[trigger] decimal(n)[i] <= 57 by {
            if i < prefix.len() {
                assert(decimal(n)[i] == prefix[i]);
            }
        }
    } else {
        reveal_with_fuel(decimal_value, 2);
        assert(decimal(n).drop_last() =~= Seq::<u8>::empty());
    }
}

/// A cursor coordinate on a terminal of fewer than 10000 lines and columns
/// is written as its decimal digits: ASCII digits only, no leading zero, and
/// they read back as the coordinate.
pub proof fn lemma_coordinates_read_back(v: nat)
    requires
        1 <= v < 10000,
    ensures
        forall|i: int|
            0 <= i < coordinate_digits(v).len() ==> 48 <= #[trigger] coordinate_digits(v)[i] <= 57,
        coordinate_digits(v).len() >= 1,
        coordinate_digits(v)[0] != 48,
        decimal_value(coordinate_digits(v)) == v,
{
    lemma_decimal_reads_back(v);
}

/// Writes `v` in decimal, without leading zeros.
pub fn write_u8_dec(buf: &mut Vec<u8>, v: u8)
    ensures
        final(buf)@ == old(buf)@ + decimal(v as nat),
{
    proof {
        reveal_with_fuel(decimal, 3);
        assert((v as nat / 10) / 10 == v as nat / 100);
    }
    if v >= 100 {
        buf.push(ASCII_ZERO + v / 100);
        buf.push(ASCII_ZERO + (v / 10) % 10);
        buf.push(ASCII_ZERO + v % 10);
    } else if v >= 10 {
        buf.push(ASCII_ZERO + v / 10);
        buf.push(ASCII_ZERO + v % 10);
    } else {
        buf.push(ASCII_ZERO + v);
    }
}

/// Writes a cursor coordinate (see `coordinate_digits`).
pub fn write_usize_dec(buf: &mut Vec<u8>, v: usize)
    ensures
        final(buf)@ == old(buf)@ + coordinate_digits(v as nat),
{
    proof {
        reveal_with_fuel(decimal, 4);
        assert((v as nat / 10) / 10 == v as nat / 100);
        assert((v as nat / 100) / 10 == v as nat / 1000);
    }
    if v >= 1000 {
        let thousands: u8 = ((v / 1000) % 256) as u8;
        buf.push(ASCII_ZERO.wrapping_add(thousands));
        buf.push(ASCII_ZERO + ((v / 100) % 10) as u8);
        buf.push(ASCII_ZERO + ((v / 10) % 10) as u8);
        buf.push(ASCII_ZERO + (v % 10) as u8);
    } else if v >= 100 {
        buf.push(ASCII_ZERO + (v / 100) as u8);
        buf.push(ASCII_ZERO + ((v / 10) % 10) as u8);
        buf.push(ASCII_ZERO + (v % 10) as u8);
    } else if v >= 10 {
        buf.push(ASCII_ZERO + (v / 10) as u8);
        buf.push(ASCII_ZERO + (v % 10) as u8);
    } else {
        buf.push(ASCII_ZERO + v as u8);
    }
}


// ---------------------------------------------------------------------------
// Cells: two stacked pixels drawn as one half-block character
// ---------------------------------------------------------------------------

/// A cell packs the upper pixel's red, green, blue and the lower pixel's red,
/// green, blue into bytes 0 to 5 of a `u64`; bytes 6 and 7 stay zero.
pub open spec fn spec_pack_cell(r1: u8, g1: u8, b1: u8, r2: u8, g2: u8, b2: u8) -> u64 {
    (r1 as u64) | ((g1 as u64) << 8u64) | ((b1 as u64) << 16u64) | ((r2 as u64) << 24u64)
        | ((g2 as u64) << 32u64) | ((b2 as u64) << 40u64)
}

/// Byte `k` of a packed cell (0: upper red, ..., 5: lower blue).
pub open spec fn channel(cell: u64, k: u64) -> u8 {
    (cell >> (8 * k)) as u8
}

/// Packs the two pixels of a cell.
pub fn pack_cell(r1: u8, g1: u8, b1: u8, r2: u8, g2: u8, b2: u8) -> (c: u64)
    ensures
        c == spec_pack_cell(r1, g1, b1, r2, g2, b2),
{
    (r1 as u64) | ((g1 as u64) << 8) | ((b1 as u64) << 16) | ((r2 as u64) << 24) | ((g2 as u64)
        << 32) | ((b2 as u64) << 40)
}

/// `ESC [ 3 8 ; 2 ;`: start of a 24-bit foreground colour.
pub open spec fn fg_prefix() -> Seq<u8> {
    seq![27u8, 91u8, 51u8, 56u8, 59u8, 50u8, 59u8]
}

/// `; 4 8 ; 2 ;`: switch to a 24-bit background colour.
pub open spec fn bg_infix() -> Seq<u8> {
    seq![59u8, 52u8, 56u8, 59u8, 50u8, 59u8]
}

/// UTF-8 encoding of U+2580, the upper half block.
pub open spec fn upper_half_block() -> Seq<u8> {
    seq![0xe2u8, 0x96u8, 0x80u8]
}

/// The bytes that draw one cell: the upper pixel as foreground colour, the
/// lower pixel as background colour, then an upper half block.
pub open spec fn cell_bytes(cell: u64) -> Seq<u8> {
    fg_prefix() + decimal(channel(cell, 0) as nat) + seq![59u8] + decimal(channel(cell, 1) as nat)
        + seq![59u8] + decimal(channel(cell, 2) as nat) + bg_infix() + decimal(
        channel(cell, 3) as nat,
    ) + seq![59u8] + decimal(channel(cell, 4) as nat) + seq![59u8] + decimal(
        channel(cell, 5) as nat,
    ) + seq![109u8] + upper_half_block()
}

/// `ESC [ row ; col H`: move the cursor (1-based coordinates).
pub open spec fn cursor_bytes(row: nat, col: nat) -> Seq<u8> {
    seq![27u8, 91u8] + coordinate_digits(row) + seq![59u8] + coordinate_digits(col) + seq![72u8]
}

/// Writes the escape sequence and glyph for one cell.
pub fn write_cell(buf: &mut Vec<u8>, cell: u64)
    ensures
        final(buf)@ == old(buf)@ + cell_bytes(cell),
{
    let r1 = cell as u8;
    let g1 = (cell >> 8) as u8;
    let b1 = (cell >> 16) as u8;
    let r2 = (cell >> 24) as u8;
    let g2 = (cell >> 32) as u8;
    let b2 = (cell >> 40) as u8;
    assert(r1 == channel(cell, 0) && g1 == channel(cell, 1) && b1 == channel(cell, 2)) by (bit_vector)
        requires
            r1 == cell as u8,
            g1 == (cell >> 8) as u8,
            b1 == (cell >> 16) as u8,
    ;
    assert(r2 == channel(cell, 3) && g2 == channel(cell, 4) && b2 == channel(cell, 5)) by (bit_vector)
        requires
            r2 == (cell >> 24) as u8,
            g2 == (cell >> 32) as u8,
            b2 == (cell >> 40) as u8,
    ;
    let ghost start = buf@;
    append_bytes(buf, &[27u8, 91, 51, 56, 59, 50, 59]);
    write_u8_dec(buf, r1);
    buf.push(59);
    write_u8_dec(buf, g1);
    buf.push(59);
    write_u8_dec(buf, b1);
    append_bytes(buf, &[59u8, 52, 56, 59, 50, 59]);
    write_u8_dec(buf, r2);
    buf.push(59);
    write_u8_dec(buf, g2);
    buf.push(59);
    write_u8_dec(buf, b2);
    buf.push(109);
    append_bytes(buf, &[0xe2u8, 0x96, 0x80]);
    assert(buf@ =~= start + cell_bytes(cell));
}

/// Writes the cursor-position sequence for 1-based `(row, col)`.
pub fn write_cursor_pos(buf: &mut Vec<u8>, row: usize, col: usize)
    ensures
        final(buf)@ == old(buf)@ + cursor_bytes(row as nat, col as nat),
{
    let ghost start = buf@;
    buf.push(27);
    buf.push(91);
    write_usize_dec(buf, row);
    buf.push(59);
    write_usize_dec(buf, col);
    buf.push(72);
    assert(buf@ =~= start + cursor_bytes(row as nat, col as nat));
}


// ---------------------------------------------------------------------------
// Terminal operations and their encoding
// ---------------------------------------------------------------------------

/// One terminal operation emitted by the renderer.
pub enum TermOp {
    /// `ESC [ H`: cursor to the top-left cell.
    Home,
    /// `ESC [ row ; col H` with 1-based coordinates.
    MoveTo(nat, nat),
    /// Draw one cell at the cursor and advance it one column.
    Paint(u64),
    /// `ESC [ K`: clear from the cursor to the end of the line.
    ClearToEol,
    /// `CR LF`: cursor to the first column of the next line.
    NewLine,
    /// `ESC [ 0 m`: reset colours.
    ResetStyle,
}

/// The bytes of one operation.
pub open spec fn op_bytes(op: TermOp) -> Seq<u8> {
    match op {
        TermOp::Home => seq![27u8, 91u8, 72u8],
        TermOp::MoveTo(r, c) => cursor_bytes(r, c),
        TermOp::Paint(cell) => cell_bytes(cell),
        TermOp::ClearToEol => seq![27u8, 91u8, 75u8],
        TermOp::NewLine => seq![13u8, 10u8],
        TermOp::ResetStyle => seq![27u8, 91u8, 48u8, 109u8],
    }
}

/// The bytes of a sequence of operations, in order.
pub open spec fn ops_bytes(ops: Seq<TermOp>) -> Seq<u8>
    decreases ops.len(),
{
    if ops.len() == 0 {
        Seq::empty()
    } else {
        ops_bytes(ops.drop_last()) + op_bytes(ops.last())
    }
}

/// Encoding distributes over concatenation.
pub proof fn lemma_ops_bytes_concat(a: Seq<TermOp>, b: Seq<TermOp>)
    ensures
        ops_bytes(a + b) == ops_bytes(a) + ops_bytes(b),
    decreases b.len(),
{
    if b.len() == 0 {
        assert(a + b =~= a);
        assert(ops_bytes(b) =~= Seq::<u8>::empty());
        assert(ops_bytes(a) + ops_bytes(b) =~= ops_bytes(a));
    } else {
        lemma_ops_bytes_concat(a, b.drop_last());
        assert((a + b).drop_last() =~= a + b.drop_last());
        assert((a + b).last() == b.last());
        assert(ops_bytes(a + b) =~= ops_bytes(a) + ops_bytes(b));
    }
}

/// Appending one operation appends its bytes.
pub proof fn lemma_ops_bytes_push(a: Seq<TermOp>, op: TermOp)
    ensures
        ops_bytes(a.push(op)) == ops_bytes(a) + op_bytes(op),
{
    assert(a.push(op).drop_last() =~= a);
}

// ---------------------------------------------------------------------------
// From pixels to cells
// ---------------------------------------------------------------------------

/// The cell at character row `row`, column `col`: pixel row `2 * row` on top,
/// pixel row `2 * row + 1` below (pixels are stored blue, green, red).
pub open spec fn pixel_cell(map: &CharMap, row: int, col: int) -> u64 {
    let o0 = map.offset(2 * row, col);
    let o1 = map.offset(2 * row + 1, col);
    spec_pack_cell(
        map.data@[o0 + 2],
        map.data@[o0 + 1],
        map.data@[o0],
        map.data@[o1 + 2],
        map.data@[o1 + 1],
        map.data@[o1],
    )
}

/// Number of character rows of a map: two pixel rows each, an odd last row dropped.
pub open spec fn char_rows(map: &CharMap) -> nat {
    (map.rows / 2) as nat
}

/// All cells of a map, row-major.
pub open spec fn frame_cells(map: &CharMap) -> Seq<u64> {
    Seq::new((char_rows(map) * map.cols) as nat, |i: int| pixel_cell(map, i / map.cols as int, i % map.cols as int))
}

proof fn lemma_row_major_index(i: int, row: int, col: int, w: int)
    requires
        0 <= col < w,
        0 <= row,
        i == row * w + col,
    ensures
        i / w == row,
        i % w == col,
{
    lemma_fundamental_div_mod_converse(i, w, row, col);
}

proof fn lemma_grid_offset(h: int, w: int, y: int, x: int)
    by (nonlinear_arith)
    requires
        0 <= y < h,
        0 <= x < w,
    ensures
        (y * w + x) * 3 == y * (w * 3) + x * 3,
        y * (w * 3) + x * 3 + 2 < h * w * 3,
{
}

proof fn lemma_row_base(h: int, w: int, y: int)
    by (nonlinear_arith)
    requires
        0 <= y < h,
        0 <= w,
    ensures
        y * (w * 3) + w * 3 <= h * w * 3,
        w * 3 <= h * w * 3,
{
}

proof fn lemma_pixel_offsets(map: &CharMap, row: int, col: int)
    requires
        map.wf(),
        0 <= row,
        2 * row + 1 < map.rows,
        0 <= col < map.cols,
    ensures
        map.offset(2 * row, col) == 2 * row * (map.cols * 3) + col * 3,
        map.offset(2 * row + 1, col) == (2 * row + 1) * (map.cols * 3) + col * 3,
        2 * row * (map.cols * 3) + col * 3 + 2 < map.data@.len(),
        (2 * row + 1) * (map.cols * 3) + col * 3 + 2 < map.data@.len(),
{
    lemma_grid_offset(map.rows as int, map.cols as int, 2 * row, col);
    lemma_grid_offset(map.rows as int, map.cols as int, 2 * row + 1, col);
}

/// Computes the cells of every character row of `map`.
fn compute_cells(map: &CharMap) -> (cells: Vec<u64>)
    requires
        map.wf(),
    ensures
        cells@ == frame_cells(map),
{
    let term_w = map.cols;
    let char_rows = map.rows / 2;
    let len = map.data.len();
    let mut cells: Vec<u64> = Vec::new();
    let mut row: usize = 0;
    proof {
        assert(char_rows * term_w <= map.rows * map.cols) by (nonlinear_arith)
            requires char_rows <= map.rows, term_w == map.cols;
    }
    while row < char_rows
        invariant
            map.wf(),
            len == map.data@.len(),
            term_w == map.cols,
            char_rows == map.rows / 2,
            row <= char_rows,
            cells@.len() == row * term_w,
            forall|i: int| 0 <= i < cells@.len() ==> cells@[i] == #[trigger] frame_cells(map)[i],
        decreases char_rows - row,
    {
        proof {
            lemma_row_base(map.rows as int, map.cols as int, 2 * row + 1);
            lemma_row_base(map.rows as int, map.cols as int, 2 * row as int);
        }
        let step = map.cols * 3;
        let y0 = row * 2;
        let y1 = y0 + 1;
        let row0_base = y0 * step;
        let row1_base = y1 * step;
        let mut col: usize = 0;
        proof {
            assert((row + 1) * term_w <= char_rows * term_w) by (nonlinear_arith)
                requires row + 1 <= char_rows, term_w >= 0;
            assert((row + 1) * term_w == row * term_w + term_w) by (nonlinear_arith);
        }
        while col < term_w
            invariant
                map.wf(),
                len == map.data@.len(),
                step == map.cols * 3,
                term_w == map.cols,
                char_rows == map.rows / 2,
                row < char_rows,
                y0 == 2 * row,
                y1 == 2 * row + 1,
                row0_base == y0 * step,
                row1_base == y1 * step,
                col <= term_w,
                cells@.len() == row * term_w + col,
                forall|i: int| 0 <= i < cells@.len() ==> cells@[i] == #[trigger] frame_cells(map)[i],
            decreases term_w - col,
        {
            proof {
                lemma_pixel_offsets(map, row as int, col as int);
            }
            let off0 = row0_base + col * 3;
            let off1 = row1_base + col * 3;
            let b1 = map.data[off0];
            let g1 = map.data[off0 + 1];
            let r1 = map.data[off0 + 2];
            let b2 = map.data[off1];
            let g2 = map.data[off1 + 1];
            let r2 = map.data[off1 + 2];
            let cell = pack_cell(r1, g1, b1, r2, g2, b2);
            proof {
                let i = row * term_w + col;
                assert((row * term_w + col) < char_rows * term_w) by (nonlinear_arith)
                    requires row < char_rows, col < term_w;
                lemma_row_major_index(i as int, row as int, col as int, term_w as int);
                assert(frame_cells(map)[i as int] == pixel_cell(map, row as int, col as int));
                assert(cell == pixel_cell(map, row as int, col as int));
            }
            cells.push(cell);
            col += 1;
        }
        row += 1;
    }
    proof {
        assert(cells@ =~= frame_cells(map));
    }
    cells
}


// ---------------------------------------------------------------------------
// Frame plans: what a full redraw and an incremental redraw emit
// ---------------------------------------------------------------------------

/// Paint operations for the first `n` cells of character row `row`.
pub open spec fn row_paint_ops(cells: Seq<u64>, w: nat, row: nat, n: nat) -> Seq<TermOp> {
    Seq::new(n, |c: int| TermOp::Paint(cells[row * w + c]))
}

/// Rows `0..nrows` of a full redraw: every cell of the row, then clear the
/// rest of the line and move to the next one.
pub open spec fn full_rows_ops(cells: Seq<u64>, w: nat, nrows: nat) -> Seq<TermOp>
    decreases nrows,
{
    if nrows == 0 {
        Seq::empty()
    } else {
        full_rows_ops(cells, w, (nrows - 1) as nat) + row_paint_ops(cells, w, (nrows - 1) as nat, w)
            + seq![TermOp::ClearToEol, TermOp::NewLine]
    }
}

/// A full redraw: home the cursor, draw every row, reset colours.
pub open spec fn full_redraw_ops(cells: Seq<u64>, w: nat, nrows: nat) -> Seq<TermOp> {
    seq![TermOp::Home] + full_rows_ops(cells, w, nrows) + seq![TermOp::ResetStyle]
}

/// The incremental operations of character row `row` from column `col` on:
/// each maximal run of changed cells is preceded by one cursor move to its
/// first cell (`in_run` tells that the previous cell was changed and drawn).
pub open spec fn dirty_run_ops(
    new: Seq<u64>,
    old: Seq<u64>,
    w: nat,
    row: nat,
    col: nat,
    in_run: bool,
) -> Seq<TermOp>
    decreases w - col,
{
    if col >= w {
        Seq::empty()
    } else {
        let i = (row * w + col) as int;
        if new[i] != old[i] {
            (if in_run {
                Seq::empty()
            } else {
                seq![TermOp::MoveTo(row + 1, col + 1)]
            }) + seq![TermOp::Paint(new[i])] + dirty_run_ops(new, old, w, row, col + 1, true)
        } else {
            dirty_run_ops(new, old, w, row, col + 1, false)
        }
    }
}

/// Rows `0..nrows` of an incremental redraw.
pub open spec fn dirty_rows_ops(new: Seq<u64>, old: Seq<u64>, w: nat, nrows: nat) -> Seq<TermOp>
    decreases nrows,
{
    if nrows == 0 {
        Seq::empty()
    } else {
        dirty_rows_ops(new, old, w, (nrows - 1) as nat) + dirty_run_ops(
            new,
            old,
            w,
            (nrows - 1) as nat,
            0,
            false,
        )
    }
}

/// An incremental redraw: only the changed cells, then reset colours.
pub open spec fn dirty_redraw_ops(new: Seq<u64>, old: Seq<u64>, w: nat, nrows: nat) -> Seq<
    TermOp,
> {
    dirty_rows_ops(new, old, w, nrows) + seq![TermOp::ResetStyle]
}

/// Number of positions below `n` where `a` and `b` differ.
pub open spec fn count_changed(a: Seq<u64>, b: Seq<u64>, n: nat) -> nat
    decreases n,
{
    if n == 0 {
        0
    } else {
        count_changed(a, b, (n - 1) as nat) + if a[n - 1] != b[n - 1] {
            1nat
        } else {
            0nat
        }
    }
}

/// The cells the renderer compares against: what it drew last when that had
/// the same width and number of rows, otherwise a screen where no cell is
/// known (`u64::MAX`, which no packed cell equals).
pub open spec fn effective_last(
    prev: Seq<u64>,
    prev_w: nat,
    prev_rows: nat,
    total: nat,
    w: nat,
    nrows: nat,
) -> Seq<u64> {
    if prev.len() == total && prev_w == w && prev_rows == nrows {
        prev
    } else {
        Seq::new(total, |i: int| u64::MAX)
    }
}

/// A full redraw is chosen when at least three quarters of the cells changed.
pub open spec fn full_redraw_chosen(cells: Seq<u64>, last: Seq<u64>) -> bool {
    count_changed(cells, last, cells.len()) * 4 >= cells.len() * 3
}

/// What rendering `cells` (`nrows` rows of width `w`) emits after `prev`
/// (`prev_rows` rows of width `prev_w`) was drawn.
pub open spec fn render_ops(
    prev: Seq<u64>,
    prev_w: nat,
    prev_rows: nat,
    cells: Seq<u64>,
    w: nat,
    nrows: nat,
) -> Seq<TermOp> {
    let last = effective_last(prev, prev_w, prev_rows, cells.len(), w, nrows);
    if full_redraw_chosen(cells, last) {
        full_redraw_ops(cells, w, nrows)
    } else {
        dirty_redraw_ops(cells, last, w, nrows)
    }
}

proof fn lemma_row_index_bounds(row: nat, col: nat, w: nat, nrows: nat)
    by (nonlinear_arith)
    requires
        row < nrows,
        col < w,
    ensures
        row * w + col < nrows * w,
        row * w + w <= nrows * w,
        (row + 1) * w == row * w + w,
{
}

fn write_full_redraw(buf: &mut Vec<u8>, cells: &Vec<u64>, w: usize, nrows: usize)
    requires
        cells@.len() == nrows * w,
    ensures
        final(buf)@ == old(buf)@ + ops_bytes(full_redraw_ops(cells@, w as nat, nrows as nat)),
{
    let ghost base = buf@;
    let ghost cs = cells@;
    let total = cells.len();
    append_bytes(buf, &[27u8, 91, 72]);
    proof {
        assert(ops_bytes(seq![TermOp::Home]) =~= seq![27u8, 91u8, 72u8]) by {
            reveal_with_fuel(ops_bytes, 2);
            assert(seq![TermOp::Home].drop_last() =~= Seq::<TermOp>::empty());
        }
        assert(seq![TermOp::Home] + full_rows_ops(cs, w as nat, 0) =~= seq![TermOp::Home]);
    }
    let mut row: usize = 0;
    while row < nrows
        invariant
            cs == cells@,
            cs.len() == nrows * w,
            total == cs.len(),
            row <= nrows,
            buf@ == base + ops_bytes(seq![TermOp::Home] + full_rows_ops(cs, w as nat, row as nat)),
        decreases nrows - row,
    {
        let ghost done = seq![TermOp::Home] + full_rows_ops(cs, w as nat, row as nat);
        let mut col: usize = 0;
        proof {
            assert(row * w + w <= nrows * w) by (nonlinear_arith)
                requires row < nrows;
            assert(row_paint_ops(cs, w as nat, row as nat, 0) =~= Seq::<TermOp>::empty());
            assert(buf@ =~= base + ops_bytes(done) + ops_bytes(row_paint_ops(cs, w as nat, row as nat, 0)));
        }
        while col < w
            invariant
                cs == cells@,
                cs.len() == nrows * w,
                total == cs.len(),
                row * w + w <= total,
                row < nrows,
                col <= w,
                done == seq![TermOp::Home] + full_rows_ops(cs, w as nat, row as nat),
                buf@ == base + ops_bytes(done) + ops_bytes(row_paint_ops(cs, w as nat, row as nat, col as nat)),
            decreases w - col,
        {
            proof {
                lemma_row_index_bounds(row as nat, col as nat, w as nat, nrows as nat);
            }
            let cell = cells[row * w + col];
            let ghost before = row_paint_ops(cs, w as nat, row as nat, col as nat);
            write_cell(buf, cell);
            proof {
                assert(row_paint_ops(cs, w as nat, row as nat, (col + 1) as nat) =~= before.push(
                    TermOp::Paint(cell),
                ));
                lemma_ops_bytes_push(before, TermOp::Paint(cell));
            }
            col += 1;
            proof {
                assert(buf@ =~= base + ops_bytes(done) + ops_bytes(row_paint_ops(cs, w as nat, row as nat, col as nat)));
            }
        }
        append_bytes(buf, &[27u8, 91, 75, 13, 10]);
        proof {
            let rowops = row_paint_ops(cs, w as nat, row as nat, w as nat);
            let tail = seq![TermOp::ClearToEol, TermOp::NewLine];
            assert(ops_bytes(tail) =~= seq![27u8, 91u8, 75u8, 13u8, 10u8]) by {
                reveal_with_fuel(ops_bytes, 3);
                assert(tail.drop_last() =~= seq![TermOp::ClearToEol]);
                assert(seq![TermOp::ClearToEol].drop_last() =~= Seq::<TermOp>::empty());
            }
            lemma_ops_bytes_concat(done, rowops);
            lemma_ops_bytes_concat(done + rowops, tail);
            assert(full_rows_ops(cs, w as nat, (row + 1) as nat) == full_rows_ops(cs, w as nat, row as nat) + rowops + tail);
            assert(seq![TermOp::Home] + full_rows_ops(cs, w as nat, (row + 1) as nat) =~= done + rowops + tail);
            assert(buf@ =~= base + ops_bytes(done + rowops + tail));
        }
        row += 1;
    }
    append_bytes(buf, &[27u8, 91, 48, 109]);
    proof {
        let done = seq![TermOp::Home] + full_rows_ops(cs, w as nat, nrows as nat);
        lemma_ops_bytes_push(done, TermOp::ResetStyle);
        assert(done + seq![TermOp::ResetStyle] =~= done.push(TermOp::ResetStyle));
    }
}

fn write_dirty_redraw(buf: &mut Vec<u8>, new: &Vec<u64>, prev: &Vec<u64>, w: usize, nrows: usize)
    requires
        new@.len() == nrows * w,
        prev@.len() == nrows * w,
    ensures
        final(buf)@ == old(buf)@ + ops_bytes(dirty_redraw_ops(new@, prev@, w as nat, nrows as nat)),
{
    let ghost base = buf@;
    let ghost ns = new@;
    let ghost os = prev@;
    let total = new.len();
    let mut row: usize = 0;
    proof {
        assert(buf@ =~= base + ops_bytes(dirty_rows_ops(ns, os, w as nat, 0)));
    }
    while row < nrows
        invariant
            ns == new@,
            os == prev@,
            ns.len() == nrows * w,
            os.len() == nrows * w,
            total == ns.len(),
            row <= nrows,
            buf@ == base + ops_bytes(dirty_rows_ops(ns, os, w as nat, row as nat)),
        decreases nrows - row,
    {
        let ghost done = dirty_rows_ops(ns, os, w as nat, row as nat);
        let ghost full_row = dirty_run_ops(ns, os, w as nat, row as nat, 0, false);
        let ghost mut emitted: Seq<TermOp> = Seq::empty();
        let mut col: usize = 0;
        proof {
            assert(row * w + w <= nrows * w) by (nonlinear_arith)
                requires row < nrows;
            assert(emitted + full_row =~= full_row);
            assert(buf@ =~= base + ops_bytes(done) + ops_bytes(emitted));
        }
        while col < w
            invariant
                ns == new@,
                os == prev@,
                ns.len() == nrows * w,
                os.len() == nrows * w,
                total == ns.len(),
                row * w + w <= total,
                row < nrows,
                col <= w,
                done == dirty_rows_ops(ns, os, w as nat, row as nat),
                full_row == dirty_run_ops(ns, os, w as nat, row as nat, 0, false),
                emitted + dirty_run_ops(ns, os, w as nat, row as nat, col as nat, false) == full_row,
                buf@ == base + ops_bytes(done) + ops_bytes(emitted),
            decreases w - col,
        {
            proof {
                lemma_row_index_bounds(row as nat, col as nat, w as nat, nrows as nat);
            }
            let idx = row * w + col;
            if new[idx] != prev[idx] {
                let ghost c0 = col;
                let ghost e0 = emitted;
                write_cursor_pos(buf, row + 1, col + 1);
                proof {
                    let mv = TermOp::MoveTo((row + 1) as nat, (col + 1) as nat);
                    lemma_ops_bytes_push(e0, mv);
                    emitted = e0.push(mv);
                    let rest = dirty_run_ops(ns, os, w as nat, row as nat, (col + 1) as nat, true);
                    assert(dirty_run_ops(ns, os, w as nat, row as nat, col as nat, false) == seq![mv]
                        + seq![TermOp::Paint(ns[idx as int])] + rest);
                    assert(dirty_run_ops(ns, os, w as nat, row as nat, col as nat, true)
                        =~= seq![TermOp::Paint(ns[idx as int])] + rest);
                    assert(emitted + dirty_run_ops(ns, os, w as nat, row as nat, col as nat, true)
                        =~= full_row);
                    assert(buf@ =~= base + ops_bytes(done) + ops_bytes(emitted));
                }
                while col < w && new[row * w + col] != prev[row * w + col]
                    invariant
                        ns == new@,
                        os == prev@,
                        ns.len() == nrows * w,
                        os.len() == nrows * w,
                        total == ns.len(),
                        row * w + w <= total,
                        row < nrows,
                        col <= w,
                        c0 <= col,
                        c0 < w,
                        col == c0 ==> ns[row * w + c0] != os[row * w + c0],
                        done == dirty_rows_ops(ns, os, w as nat, row as nat),
                        full_row == dirty_run_ops(ns, os, w as nat, row as nat, 0, false),
                        emitted + dirty_run_ops(ns, os, w as nat, row as nat, col as nat, true)
                            == full_row,
                        buf@ == base + ops_bytes(done) + ops_bytes(emitted),
                    decreases w - col,
                {
                    proof {
                        lemma_row_index_bounds(row as nat, col as nat, w as nat, nrows as nat);
                    }
                    let cell = new[row * w + col];
                    let ghost e0 = emitted;
                    write_cell(buf, cell);
                    proof {
                        lemma_ops_bytes_push(e0, TermOp::Paint(cell));
                        emitted = e0.push(TermOp::Paint(cell));
                        let rest = dirty_run_ops(ns, os, w as nat, row as nat, (col + 1) as nat, true);
                        assert(dirty_run_ops(ns, os, w as nat, row as nat, col as nat, true)
                            =~= seq![TermOp::Paint(cell)] + rest);
                        assert(emitted + rest =~= full_row);
                        assert(buf@ =~= base + ops_bytes(done) + ops_bytes(emitted));
                    }
                    col += 1;
                }
                proof {
                    if col < w {
                        lemma_row_index_bounds(row as nat, col as nat, w as nat, nrows as nat);
                        assert(dirty_run_ops(ns, os, w as nat, row as nat, col as nat, true)
                            == dirty_run_ops(ns, os, w as nat, row as nat, col as nat, false));
                    }
                }
            } else {
                proof {
                    assert(dirty_run_ops(ns, os, w as nat, row as nat, col as nat, false)
                        == dirty_run_ops(ns, os, w as nat, row as nat, (col + 1) as nat, false));
                }
                col += 1;
            }
        }
        proof {
            assert(emitted + Seq::<TermOp>::empty() =~= emitted);
            assert(emitted == full_row);
            lemma_ops_bytes_concat(done, full_row);
            assert(dirty_rows_ops(ns, os, w as nat, (row + 1) as nat) == done + full_row);
            assert(buf@ =~= base + ops_bytes(done + full_row));
        }
        row += 1;
    }
    append_bytes(buf, &[27u8, 91, 48, 109]);
    proof {
        let done = dirty_rows_ops(ns, os, w as nat, nrows as nat);
        lemma_ops_bytes_push(done, TermOp::ResetStyle);
        assert(done + seq![TermOp::ResetStyle] =~= done.push(TermOp::ResetStyle));
    }
}


// ---------------------------------------------------------------------------
// The renderer
// ---------------------------------------------------------------------------

/// Pixel rows that fill a terminal of `term_h` lines: two per line, leaving
/// the last line free, and never fewer than two.
pub open spec fn spec_display_height(term_h: int) -> int {
    if (term_h - 1) * 2 > 2 {
        (term_h - 1) * 2
    } else {
        2
    }
}

/// The map has two pixel rows for every terminal line but the last, with no
/// upper bound, and never fewer than two: each extra line adds two rows.
pub proof fn lemma_display_height_fills_terminal(h: int)
    ensures
        spec_display_height(h) >= 2,
        h >= 2 ==> spec_display_height(h) == 2 * (h - 1),
        h < 2 ==> spec_display_height(h) == 2,
        h >= 2 ==> spec_display_height(h + 1) == spec_display_height(h) + 2,
        h >= 2 ==> spec_display_height(h) / 2 == h - 1,
{
}

/// The pixel height of the character map for a terminal of `term_h` lines
/// (the target height when a frame is prepared for the terminal).
pub fn display_height(term_h: i32) -> (h: i32)
    requires
        -0x3fff_ffff <= term_h <= 0x4000_0000,
    ensures
        h == spec_display_height(term_h as int),
{
    let d = (term_h - 1) * 2;
    if d > 2 {
        d
    } else {
        2
    }
}

/// The size a played-back map must be resized to before it is drawn on a
/// `term_w` x `term_h` terminal, or `None` when it already has that size.
pub fn playback_resize_target(term_w: i32, term_h: i32, rows: i32, cols: i32) -> (target: Option<(i32, i32)>)
    requires
        -0x3fff_ffff <= term_h <= 0x4000_0000,
    ensures
        target == if term_w != cols || spec_display_height(term_h as int) != rows {
            Some((term_w, spec_display_height(term_h as int) as i32))
        } else {
            None::<(i32, i32)>
        },
{
    let display_h = display_height(term_h);
    if term_w != cols || display_h != rows {
        Some((term_w, display_h))
    } else {
        None
    }
}

/// Asks the terminal for its size (columns, rows) through
/// `crossterm::terminal::window_size`, which only asks the terminal driver
/// (`/dev/tty`, else standard output); `None` when that fails. Unlike
/// `crossterm::terminal::size` it does not fall back to running `tput`, whose
/// parsing can overflow; when no terminal answers, the caller uses 80 x 24.
/// The answer depends on the terminal the process is attached to, so nothing
/// is promised of it; it is appended to `answers`, the record of the answers
/// (which holds nothing at run time).
#[verifier::external_body]
fn query_terminal_size(answers: &mut SizeAnswers) -> (size: Option<(u16, u16)>)
    ensures
        final(answers)@ == old(answers)@.push(size),
{
    match crossterm::terminal::window_size() {
        Ok(size) => Some((size.columns, size.rows)),
        Err(_) => None,
    }
}

/// What the renderer remembers between frames.
pub struct RendererState {
    /// The cells it drew last, row-major.
    pub cells: Seq<u64>,
    /// Width and number of character rows of the frame it drew last.
    pub cols: nat,
    pub rows: nat,
    /// Cached terminal width and height (0 before the first query).
    pub term_w: i32,
    pub term_h: i32,
    /// Number of size requests so far, wrapping.
    pub frame_count: u32,
    /// The terminal's answers to the size queries made so far, oldest first.
    pub answers: Seq<Option<(u16, u16)>>,
}

/// Incremental terminal renderer using half-block characters. It produces the
/// bytes to write; the caller sends them to the terminal.
pub struct TerminalRenderer {
    last_cells: Vec<u64>,
    last_cols: usize,
    last_char_rows: usize,
    last_term_w: i32,
    last_term_h: i32,
    frame_count: u32,
    size_answers: SizeAnswers,
}

impl TerminalRenderer {
    /// The cached size is a size a terminal can report (or 0 before any).
    #[verifier::type_invariant]
    spec fn size_in_range(self) -> bool {
        &&& 0 <= self.last_term_w <= u16::MAX
        &&& 0 <= self.last_term_h <= u16::MAX
    }
}

impl View for TerminalRenderer {
    type V = RendererState;

    closed spec fn view(&self) -> RendererState {
        RendererState {
            cells: self.last_cells@,
            cols: self.last_cols as nat,
            rows: self.last_char_rows as nat,
            term_w: self.last_term_w,
            term_h: self.last_term_h,
            frame_count: self.frame_count,
            answers: self.size_answers@,
        }
    }
}

/// Terminal size used when the terminal cannot be asked.
pub open spec fn fallback_size() -> (i32, i32) {
    (80, 24)
}

/// The size kept for an answer of the terminal: its (columns, lines), or
/// the fallback when it did not answer.
pub open spec fn stored_size(answer: Option<(u16, u16)>) -> (i32, i32) {
    match answer {
        Some((w, h)) => (w as i32, h as i32),
        None => fallback_size(),
    }
}

/// The cached size is refreshed on the first request and on every request
/// whose (wrapped) count is a multiple of 30.
pub open spec fn size_refresh_due(state: RendererState, count: u32) -> bool {
    state.term_w == 0 || count % 30 == 0
}

/// `ESC [ ? 25 l`, `ESC [ ? 1049 h`, `ESC [ H`: hide the cursor, switch to the
/// alternate screen and home the cursor.
pub open spec fn hide_cursor_bytes() -> Seq<u8> {
    seq![27u8, 91u8, 63u8, 50u8, 53u8, 108u8, 27u8, 91u8, 63u8, 49u8, 48u8, 52u8, 57u8, 104u8, 27u8, 91u8, 72u8]
}

/// `ESC [ ? 1049 l`, `ESC [ ? 25 h`: back to the main screen, cursor shown.
pub open spec fn show_cursor_bytes() -> Seq<u8> {
    seq![27u8, 91u8, 63u8, 49u8, 48u8, 52u8, 57u8, 108u8, 27u8, 91u8, 63u8, 50u8, 53u8, 104u8]
}

fn unset_cells(n: usize) -> (cells: Vec<u64>)
    ensures
        cells@ == Seq::new(n as nat, |i: int| u64::MAX),
{
    let mut cells: Vec<u64> = Vec::new();
    let mut i: usize = 0;
    while i < n
        invariant
            i <= n,
            cells@ == Seq::new(i as nat, |k: int| u64::MAX),
        decreases n - i,
    {
        cells.push(u64::MAX);
        i += 1;
        proof {
            assert(cells@ =~= Seq::new(i as nat, |k: int| u64::MAX));
        }
    }
    cells
}

fn count_dirty(new: &Vec<u64>, last: &Vec<u64>) -> (n: usize)
    requires
        new@.len() == last@.len(),
    ensures
        n == count_changed(new@, last@, new@.len()),
{
    let total = new.len();
    let mut dirty: usize = 0;
    let mut i: usize = 0;
    while i < total
        invariant
            total == new@.len(),
            total == last@.len(),
            i <= total,
            dirty == count_changed(new@, last@, i as nat),
            dirty <= i,
        decreases total - i,
    {
        if new[i] != last[i] {
            dirty += 1;
        }
        i += 1;
    }
    dirty
}

impl TerminalRenderer {
    /// A renderer that has drawn nothing and has not asked for the size yet.
    pub fn new() -> (r: TerminalRenderer)
        ensures
            r@.cells == Seq::<u64>::empty(),
            r@.cols == 0,
            r@.rows == 0,
            r@.term_w == 0,
            r@.term_h == 0,
            r@.frame_count == 0,
            r@.answers == Seq::<Option<(u16, u16)>>::empty(),
            size_refresh_due(r@, 1),
    {
        TerminalRenderer {
            last_cells: Vec::new(),
            last_cols: 0,
            last_char_rows: 0,
            last_term_w: 0,
            last_term_h: 0,
            frame_count: 0,
            size_answers: SizeAnswers::new(),
        }
    }

    /// Records the answer of a size query: the reported size, or 80 x 24 when
    /// the query failed.
    pub fn store_terminal_size(&mut self, size: Option<(u16, u16)>)
        ensures
            final(self)@.cells == old(self)@.cells,
            final(self)@.cols == old(self)@.cols,
            final(self)@.rows == old(self)@.rows,
            final(self)@.frame_count == old(self)@.frame_count,
            final(self)@.answers == old(self)@.answers,
            (final(self)@.term_w, final(self)@.term_h) == match size {
                Some((w, h)) => (w as i32, h as i32),
                None => fallback_size(),
            },
            (final(self)@.term_w, final(self)@.term_h) == stored_size(size),
    {
        proof {
            use_type_invariant(&*self);
        }
        let (w, h) = match size {
            Some(s) => s,
            None => (80u16, 24u16),
        };
        self.last_term_w = w as i32;
        self.last_term_h = h as i32;
    }

    /// Whether the next size request asks the terminal: on the first request
    /// and on every request whose (wrapped) count is a multiple of 30.
    pub fn size_refresh_needed(&self) -> (b: bool)
        ensures
            b == size_refresh_due(self@, self@.frame_count.wrapping_add(1)),
    {
        self.last_term_w == 0 || self.frame_count.wrapping_add(1) % 30 == 0
    }

    /// Counts the request and returns the cached terminal size, asking the
    /// terminal first when `size_refresh_needed` says so (the answer, or
    /// 80 x 24 when the terminal does not answer, is stored as by
    /// `store_terminal_size`).
    pub fn get_terminal_size(&mut self) -> (size: (i32, i32))
        ensures
            final(self)@.frame_count == old(self)@.frame_count.wrapping_add(1),
            final(self)@.cells == old(self)@.cells,
            final(self)@.cols == old(self)@.cols,
            final(self)@.rows == old(self)@.rows,
            size == (final(self)@.term_w, final(self)@.term_h),
            0 <= size.0 <= u16::MAX,
            0 <= size.1 <= u16::MAX,
            !size_refresh_due(old(self)@, final(self)@.frame_count) ==> size == (
                old(self)@.term_w,
                old(self)@.term_h,
            ),
            !size_refresh_due(old(self)@, final(self)@.frame_count) ==> final(self)@.answers == old(
                self,
            )@.answers,
            size_refresh_due(old(self)@, final(self)@.frame_count) ==> {
                &&& final(self)@.answers.len() == old(self)@.answers.len() + 1
                &&& final(self)@.answers.drop_last() == old(self)@.answers
                &&& size == stored_size(final(self)@.answers.last())
            },
    {
        proof {
            use_type_invariant(&*self);
        }
        let refresh = self.size_refresh_needed();
        self.frame_count = self.frame_count.wrapping_add(1);
        if refresh {
            let mut answers = SizeAnswers::new();
            std::mem::swap(&mut answers, &mut self.size_answers);
            let queried = query_terminal_size(&mut answers);
            self.size_answers = answers;
            self.store_terminal_size(queried);
        }
        proof {
            use_type_invariant(&*self);
        }
        (self.last_term_w, self.last_term_h)
    }

    /// Computes the bytes that bring the terminal from the previously drawn
    /// frame to `character_map`: a full redraw when the width or the number of
    /// character rows changed, or when at least three quarters of the cells
    /// changed; otherwise only the changed cells. The map's cells and size
    /// become the remembered frame.
    pub fn render_character_map(&mut self, character_map: &CharMap) -> (out: Vec<u8>)
        requires
            character_map.wf(),
        ensures
            out@ == ops_bytes(
                render_ops(
                    old(self)@.cells,
                    old(self)@.cols,
                    old(self)@.rows,
                    frame_cells(character_map),
                    character_map.cols as nat,
                    char_rows(character_map),
                ),
            ),
            final(self)@.cells == frame_cells(character_map),
            final(self)@.cols == character_map.cols,
            final(self)@.rows == char_rows(character_map),
            final(self)@.term_w == old(self)@.term_w,
            final(self)@.term_h == old(self)@.term_h,
            final(self)@.frame_count == old(self)@.frame_count,
            final(self)@.answers == old(self)@.answers,
    {
        proof {
            use_type_invariant(&*self);
        }
        let term_w = character_map.cols;
        let char_rows = character_map.rows / 2;
        let new_cells = compute_cells(character_map);
        let total_cells = new_cells.len();
        proof {
            assert(total_cells == char_rows * term_w);
        }
        if self.last_cells.len() != total_cells || self.last_cols != term_w || self.last_char_rows
            != char_rows {
            self.last_cells = unset_cells(total_cells);
        }
        let ghost last = self.last_cells@;
        assert(last == effective_last(
            old(self)@.cells,
            old(self)@.cols,
            old(self)@.rows,
            frame_cells(character_map).len(),
            term_w as nat,
            char_rows as nat,
        ));
        let dirty_count = count_dirty(&new_cells, &self.last_cells);
        let mut buf: Vec<u8> = Vec::new();
        if (dirty_count as u128) * 4 >= (total_cells as u128) * 3 {
            write_full_redraw(&mut buf, &new_cells, term_w, char_rows);
        } else {
            write_dirty_redraw(&mut buf, &new_cells, &self.last_cells, term_w, char_rows);
        }
        self.last_cells = new_cells;
        self.last_cols = term_w;
        self.last_char_rows = char_rows;
        proof {
            assert(buf@ =~= ops_bytes(
                render_ops(
                    old(self)@.cells,
                    old(self)@.cols,
                    old(self)@.rows,
                    frame_cells(character_map),
                    term_w as nat,
                    char_rows as nat,
                ),
            ));
        }
        buf
    }

    /// The bytes that hide the cursor and enter the alternate screen.
    pub fn hide_cursor(&self) -> (out: Vec<u8>)
        ensures
            out@ == hide_cursor_bytes(),
    {
        let mut out: Vec<u8> = Vec::new();
        append_bytes(&mut out, &[27u8, 91, 63, 50, 53, 108, 27, 91, 63, 49, 48, 52, 57, 104, 27, 91, 72]);
        assert(out@ =~= hide_cursor_bytes());
        out
    }

    /// The bytes that leave the alternate screen and show the cursor again.
    pub fn show_cursor(&self) -> (out: Vec<u8>)
        ensures
            out@ == show_cursor_bytes(),
    {
        let mut out: Vec<u8> = Vec::new();
        append_bytes(&mut out, &[27u8, 91, 63, 49, 48, 52, 57, 108, 27, 91, 63, 50, 53, 104]);
        assert(out@ =~= show_cursor_bytes());
        out
    }
}

} // verus!
