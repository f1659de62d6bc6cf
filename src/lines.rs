//! A player's stones as a 64-bit mask, and the lines of four that the mask may hold.
//!
//! A board with `rows` rows gives each column `rows + 1` consecutive bits: the cell in `column`
//! and `row` is bit `column * (rows + 1) + row`, and the last bit of each column (the sentinel)
//! stays clear, so that a shift never carries a run of stones from one column into the next.
use vstd::prelude::*;
use vstd::arithmetic::div_mod::{lemma_fundamental_div_mod, lemma_fundamental_div_mod_converse, lemma_mod_pos_bound};

verus! {

/// Bit `i` of `x` is set; false for every `i` outside `0..64`.
pub open spec fn bit(x: u64, i: int) -> bool {
    0 <= i < 64 && (x >> (i as u64)) & 1 == 1
}

/// `x >> s`, which is zero once `s` reaches the width of `x`.
pub open spec fn shifted(x: u64, s: u64) -> u64 {
    if s < 64 {
        x >> s
    } else {
        0
    }
}

/// The bit that stands for the cell in `column` and `row`.
pub open spec fn cell_index(column: int, row: int, rows: int) -> int {
    column * (rows + 1) + row
}

/// The mask holds a stone in the cell at `column` and `row`.
pub open spec fn occupied(x: u64, rows: int, column: int, row: int) -> bool {
    &&& 0 <= column
    &&& 0 <= row < rows
    &&& bit(x, cell_index(column, row, rows))
}

/// Four stones in a line that starts at (`column`, `row`) and steps by (`dc`, `dr`).
pub open spec fn four_from(x: u64, rows: int, column: int, row: int, dc: int, dr: int) -> bool {
    &&& occupied(x, rows, column, row)
    &&& occupied(x, rows, column + dc, row + dr)
    &&& occupied(x, rows, column + 2 * dc, row + 2 * dr)
    &&& occupied(x, rows, column + 3 * dc, row + 3 * dr)
}

/// A line of four starts at (`column`, `row`): along the column, along the row, or along
/// either diagonal.
pub open spec fn line_at(x: u64, rows: int, column: int, row: int) -> bool {
    ||| four_from(x, rows, column, row, 0, 1)
    ||| four_from(x, rows, column, row, 1, 0)
    ||| four_from(x, rows, column, row, 1, -1)
    ||| four_from(x, rows, column, row, 1, 1)
}

/// The mask holds four stones in a line somewhere.
pub open spec fn has_line(x: u64, rows: int) -> bool {
    exists|column: int, row: int| line_at(x, rows, column, row)
}

/// No sentinel bit of the mask is set.
pub open spec fn sentinels_clear(x: u64, rows: int) -> bool {
    forall|i: int| #[trigger] bit(x, i) ==> i % (rows + 1) < rows
}

/// Bits `i` whose neighbour `s` places further on is set too.
pub open spec fn pairs(x: u64, s: u64) -> u64 {
    x & shifted(x, s)
}

/// Bits `i` that start a run of four set bits spaced `s` apart.
pub open spec fn fours(x: u64, s: u64) -> u64 {
    pairs(x, s) & shifted(pairs(x, s), (2 * s) as u64)
}

/// The mask that the win test computes: runs of four in the four directions.
pub open spec fn winning_mask(x: u64, rows: u64) -> u64 {
    fours(x, 1) | fours(x, (rows + 1) as u64) | fours(x, rows) | fours(x, (rows + 2) as u64)
}

proof fn lemma_and_bit(x: u64, y: u64, i: u64)
    by (bit_vector)
    requires
        i < 64,
    ensures
        ((x & y) >> i) & 1 == 1 <==> ((x >> i) & 1 == 1 && (y >> i) & 1 == 1),
{
}

proof fn lemma_or_bit(x: u64, y: u64, i: u64)
    by (bit_vector)
    requires
        i < 64,
    ensures
        ((x | y) >> i) & 1 == 1 <==> ((x >> i) & 1 == 1 || (y >> i) & 1 == 1),
{
}

proof fn lemma_shr_bit(x: u64, s: u64, i: u64)
    by (bit_vector)
    requires
        i < 64,
        s < 64,
    ensures
        ((x >> s) >> i) & 1 == 1 <==> (i + s < 64 && (x >> (i + s)) & 1 == 1),
{
}

proof fn lemma_bit_nonzero(x: u64, i: u64)
    by (bit_vector)
    requires
        i < 64,
        (x >> i) & 1 == 1,
    ensures
        x != 0,
{
}

/// No bit of zero is set.
pub proof fn lemma_zero_no_bit(i: u64)
    by (bit_vector)
    ensures
        (0u64 >> i) & 1 != 1,
{
}

proof fn lemma_shr_nonzero_step(x: u64, k: u64)
    by (bit_vector)
    requires
        k < 64,
        x >> k != 0,
        (x >> k) & 1 != 1,
    ensures
        k + 1 < 64,
        x >> (k + 1) != 0,
{
}

proof fn lemma_zero_shr(x: u64)
    by (bit_vector)
    ensures
        x >> 0 == x,
{
}

/// A set bit at or above `k` exists when `x >> k` is not zero.
proof fn lemma_some_bit_from(x: u64, k: u64)
    requires
        k < 64,
        x >> k != 0,
    ensures
        exists|i: int| k <= i < 64 && bit(x, i),
    decreases 64 - k,
{
    if (x >> k) & 1 == 1 {
        assert(bit(x, k as int));
    } else {
        lemma_shr_nonzero_step(x, k);
        lemma_some_bit_from(x, (k + 1) as u64);
    }
}

/// A mask is nonzero exactly when one of its bits is set.
pub proof fn lemma_nonzero_iff_bit(x: u64)
    ensures
        x != 0 <==> exists|i: int| bit(x, i),
{
    if x != 0 {
        lemma_zero_shr(x);
        lemma_some_bit_from(x, 0);
    }
    if exists|i: int| bit(x, i) {
        let i = choose|i: int| bit(x, i);
        lemma_bit_nonzero(x, i as u64);
    }
}

proof fn lemma_and_spec(x: u64, y: u64, i: int)
    ensures
        bit(x & y, i) <==> bit(x, i) && bit(y, i),
{
    if 0 <= i < 64 {
        lemma_and_bit(x, y, i as u64);
    }
}

proof fn lemma_or_spec(x: u64, y: u64, i: int)
    ensures
        bit(x | y, i) <==> bit(x, i) || bit(y, i),
{
    if 0 <= i < 64 {
        lemma_or_bit(x, y, i as u64);
    }
}

proof fn lemma_shifted_spec(x: u64, s: u64, i: int)
    ensures
        bit(shifted(x, s), i) <==> 0 <= i && bit(x, i + s),
{
    if 0 <= i < 64 {
        if s < 64 {
            lemma_shr_bit(x, s, i as u64);
        } else {
            assert(shifted(x, s) == 0);
            lemma_zero_no_bit(i as u64);
        }
    }
}

proof fn lemma_fours_spec(x: u64, s: u64, i: int)
    requires
        s <= 0x1_0000,
    ensures
        bit(fours(x, s), i) <==> {
            &&& bit(x, i)
            &&& bit(x, i + s)
            &&& bit(x, i + 2 * s)
            &&& bit(x, i + 3 * s)
        },
{
    let p = pairs(x, s);
    lemma_and_spec(p, shifted(p, (2 * s) as u64), i);
    lemma_shifted_spec(p, (2 * s) as u64, i);
    lemma_and_spec(x, shifted(x, s), i);
    lemma_shifted_spec(x, s, i);
    lemma_and_spec(x, shifted(x, s), i + 2 * s);
    lemma_shifted_spec(x, s, i + 2 * s);
}

/// A set bit written as `column * (rows + 1) + row` with `row` at most one step outside
/// `0..rows` is a cell of the board.
proof fn lemma_bit_is_cell(x: u64, rows: int, j: int, column: int, row: int)
    requires
        rows >= 0,
        sentinels_clear(x, rows),
        bit(x, j),
        j == column * (rows + 1) + row,
        -1 <= row <= rows,
    ensures
        occupied(x, rows, column, row),
{
    let d = rows + 1;
    assert(j % d < rows);
    if row == rows {
        lemma_fundamental_div_mod_converse(j, d, column, rows);
    } else if row == -1 {
        assert(j == (column - 1) * d + rows) by (nonlinear_arith)
            requires
                j == column * d + row,
                row == -1,
                d == rows + 1,
        ;
        lemma_fundamental_div_mod_converse(j, d, column - 1, rows);
    }
    assert(0 <= row < rows);
    assert(column >= 0) by (nonlinear_arith)
        requires
            j >= 0,
            j == column * d + row,
            row < d,
            d >= 1,
    ;
}

/// Four set bits spaced `s` apart from a cell form a line in the direction that `s` encodes.
proof fn lemma_bits_to_line(x: u64, rows: int, i: int, column: int, row: int, dc: int, dr: int, s: int)
    requires
        rows >= 0,
        sentinels_clear(x, rows),
        i == column * (rows + 1) + row,
        0 <= column,
        0 <= row < rows,
        0 <= dc <= 1,
        -1 <= dr <= 1,
        s == dc * (rows + 1) + dr,
        bit(x, i),
        bit(x, i + s),
        bit(x, i + 2 * s),
        bit(x, i + 3 * s),
    ensures
        four_from(x, rows, column, row, dc, dr),
{
    let d = rows + 1;
    assert(i + s == (column + dc) * d + (row + dr)) by (nonlinear_arith)
        requires
            i == column * d + row,
            s == dc * d + dr,
    ;
    lemma_bit_is_cell(x, rows, i + s, column + dc, row + dr);
    assert(i + 2 * s == (column + 2 * dc) * d + (row + 2 * dr)) by (nonlinear_arith)
        requires
            i == column * d + row,
            s == dc * d + dr,
    ;
    lemma_bit_is_cell(x, rows, i + 2 * s, column + 2 * dc, row + 2 * dr);
    assert(i + 3 * s == (column + 3 * dc) * d + (row + 3 * dr)) by (nonlinear_arith)
        requires
            i == column * d + row,
            s == dc * d + dr,
    ;
    lemma_bit_is_cell(x, rows, i + 3 * s, column + 3 * dc, row + 3 * dr);
}

/// The cells of a line of four are bits spaced `s` apart, `s` encoding its direction.
proof fn lemma_line_to_bits(x: u64, rows: int, column: int, row: int, dc: int, dr: int, s: int)
    requires
        rows >= 0,
        four_from(x, rows, column, row, dc, dr),
        s == dc * (rows + 1) + dr,
    ensures
        ({
            let i = cell_index(column, row, rows);
            &&& bit(x, i)
            &&& bit(x, i + s)
            &&& bit(x, i + 2 * s)
            &&& bit(x, i + 3 * s)
        }),
{
    let d = rows + 1;
    let i = cell_index(column, row, rows);
    assert(cell_index(column + dc, row + dr, rows) == i + s) by (nonlinear_arith)
        requires
            i == column * d + row,
            s == dc * d + dr,
            d == rows + 1,
    ;
    assert(cell_index(column + 2 * dc, row + 2 * dr, rows) == i + 2 * s) by (nonlinear_arith)
        requires
            i == column * d + row,
            s == dc * d + dr,
            d == rows + 1,
    ;
    assert(cell_index(column + 3 * dc, row + 3 * dr, rows) == i + 3 * s) by (nonlinear_arith)
        requires
            i == column * d + row,
            s == dc * d + dr,
            d == rows + 1,
    ;
}

/// The shift-and-mask win test finds a line exactly when the mask holds four stones in a line.
pub proof fn lemma_winning_mask(x: u64, rows: u64)
    requires
        rows <= 0xff,
        sentinels_clear(x, rows as int),
    ensures
        winning_mask(x, rows) != 0 <==> has_line(x, rows as int),
{
    let r = rows as int;
    let w = winning_mask(x, rows);
    let sv: u64 = 1;
    let sh = (rows + 1) as u64;
    let sd = rows;
    let su = (rows + 2) as u64;
    lemma_nonzero_iff_bit(w);
    if w != 0 {
        let i = choose|i: int| bit(w, i);
        lemma_or_spec(fours(x, sv) | fours(x, sh) | fours(x, sd), fours(x, su), i);
        lemma_or_spec(fours(x, sv) | fours(x, sh), fours(x, sd), i);
        lemma_or_spec(fours(x, sv), fours(x, sh), i);
        lemma_fours_spec(x, sv, i);
        lemma_fours_spec(x, sh, i);
        lemma_fours_spec(x, sd, i);
        lemma_fours_spec(x, su, i);
        let d = r + 1;
        lemma_fundamental_div_mod(i, d);
        lemma_mod_pos_bound(i, d);
        let column = i / d;
        let row = i % d;
        assert(row < r);
        assert(column >= 0) by (nonlinear_arith)
            requires
                i >= 0,
                i == d * column + row,
                row < d,
                d >= 1,
        ;
        assert(i == column * d + row) by (nonlinear_arith)
            requires
                i == d * column + row,
        ;
        if bit(fours(x, sv), i) {
            lemma_bits_to_line(x, r, i, column, row, 0, 1, 1);
        } else if bit(fours(x, sh), i) {
            lemma_bits_to_line(x, r, i, column, row, 1, 0, d);
        } else if bit(fours(x, sd), i) {
            lemma_bits_to_line(x, r, i, column, row, 1, -1, r);
        } else {
            lemma_bits_to_line(x, r, i, column, row, 1, 1, r + 2);
        }
        assert(line_at(x, r, column, row));
    }
    if has_line(x, r) {
        let (column, row) = choose|column: int, row: int| line_at(x, r, column, row);
        let i = cell_index(column, row, r);
        assert(i >= 0) by (nonlinear_arith)
            requires
                i == column * (r + 1) + row,
                column >= 0,
                row >= 0,
                r >= 0,
        ;
        lemma_or_spec(fours(x, sv) | fours(x, sh) | fours(x, sd), fours(x, su), i);
        lemma_or_spec(fours(x, sv) | fours(x, sh), fours(x, sd), i);
        lemma_or_spec(fours(x, sv), fours(x, sh), i);
        if four_from(x, r, column, row, 0, 1) {
            lemma_line_to_bits(x, r, column, row, 0, 1, 1);
            lemma_fours_spec(x, sv, i);
        } else if four_from(x, r, column, row, 1, 0) {
            lemma_line_to_bits(x, r, column, row, 1, 0, r + 1);
            lemma_fours_spec(x, sh, i);
        } else if four_from(x, r, column, row, 1, -1) {
            lemma_line_to_bits(x, r, column, row, 1, -1, r);
            lemma_fours_spec(x, sd, i);
        } else {
            lemma_line_to_bits(x, r, column, row, 1, 1, r + 2);
            lemma_fours_spec(x, su, i);
        }
        assert(bit(w, i));
    }
}

} // verus!
