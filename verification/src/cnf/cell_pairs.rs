//! The pairs of distinct cells that a sudoku rule relates: two cells of a row,
//! two cells of a column, two cells of a 3x3 sub-grid. Each encoding attaches a
//! block of clauses to every such pair; these spec functions fix the order in
//! which the pairs are visited.

use vstd::prelude::*;
use crate::seq_util::concat_map;

verus! {

/// A block of clauses for the ordered pair of cells (row, col), (row2, col2).
pub type PairBlock = spec_fn(int, int, int, int) -> Seq<Seq<i32>>;

// ------------------------------------------------------------------------ rows
pub open spec fn row_pair_fn(block: PairBlock, r0: int, c0: int) -> spec_fn(int) -> Seq<Seq<i32>> {
    |k: int| block(r0 + 1, c0 + 1, r0 + 1, c0 + 2 + k)
}

pub open spec fn row_pairs_of_cell(block: PairBlock, r0: int, c0: int) -> Seq<Seq<i32>> {
    concat_map(8 - c0, row_pair_fn(block, r0, c0))
}

pub open spec fn row_cell_fn(block: PairBlock, r0: int) -> spec_fn(int) -> Seq<Seq<i32>> {
    |c0: int| row_pairs_of_cell(block, r0, c0)
}

pub open spec fn row_pairs_of_row(block: PairBlock, r0: int) -> Seq<Seq<i32>> {
    concat_map(9, row_cell_fn(block, r0))
}

pub open spec fn row_fn(block: PairBlock) -> spec_fn(int) -> Seq<Seq<i32>> {
    |r0: int| row_pairs_of_row(block, r0)
}

/// For row = 1..=9, col = 1..=9, col2 = col+1..=9: block(row, col, row, col2).
pub open spec fn row_pairs(block: PairBlock) -> Seq<Seq<i32>> {
    concat_map(9, row_fn(block))
}

// --------------------------------------------------------------------- columns
pub open spec fn col_pair_fn(block: PairBlock, c0: int, r0: int) -> spec_fn(int) -> Seq<Seq<i32>> {
    |k: int| block(r0 + 1, c0 + 1, r0 + 2 + k, c0 + 1)
}

pub open spec fn col_pairs_of_cell(block: PairBlock, c0: int, r0: int) -> Seq<Seq<i32>> {
    concat_map(8 - r0, col_pair_fn(block, c0, r0))
}

pub open spec fn col_cell_fn(block: PairBlock, c0: int) -> spec_fn(int) -> Seq<Seq<i32>> {
    |r0: int| col_pairs_of_cell(block, c0, r0)
}

pub open spec fn col_pairs_of_col(block: PairBlock, c0: int) -> Seq<Seq<i32>> {
    concat_map(9, col_cell_fn(block, c0))
}

pub open spec fn col_fn(block: PairBlock) -> spec_fn(int) -> Seq<Seq<i32>> {
    |c0: int| col_pairs_of_col(block, c0)
}

/// For col = 1..=9, row = 1..=9, row2 = row+1..=9: block(row, col, row2, col).
pub open spec fn col_pairs(block: PairBlock) -> Seq<Seq<i32>> {
    concat_map(9, col_fn(block))
}

// ------------------------------------------------------------------- sub-grids
/// Row of the `index`-th cell (0..9, column-major) of sub-grid row `sr`.
pub open spec fn sub_row(sr: int, index: int) -> int {
    1 + sr * 3 + index % 3
}

/// Column of the `index`-th cell (0..9, column-major) of sub-grid column `sc`.
pub open spec fn sub_col(sc: int, index: int) -> int {
    1 + sc * 3 + index / 3
}

pub open spec fn sub_pair_fn(block: PairBlock, sr: int, sc: int, i1: int) -> spec_fn(int) -> Seq<Seq<i32>> {
    |k: int| block(sub_row(sr, i1), sub_col(sc, i1), sub_row(sr, i1 + 1 + k), sub_col(sc, i1 + 1 + k))
}

pub open spec fn sub_pairs_of_cell(block: PairBlock, sr: int, sc: int, i1: int) -> Seq<Seq<i32>> {
    concat_map(8 - i1, sub_pair_fn(block, sr, sc, i1))
}

pub open spec fn sub_cell_fn(block: PairBlock, sr: int, sc: int) -> spec_fn(int) -> Seq<Seq<i32>> {
    |i1: int| sub_pairs_of_cell(block, sr, sc, i1)
}

pub open spec fn sub_pairs_of_grid(block: PairBlock, sr: int, sc: int) -> Seq<Seq<i32>> {
    concat_map(9, sub_cell_fn(block, sr, sc))
}

pub open spec fn sub_grid_fn(block: PairBlock, sr: int) -> spec_fn(int) -> Seq<Seq<i32>> {
    |sc: int| sub_pairs_of_grid(block, sr, sc)
}

pub open spec fn sub_pairs_of_band(block: PairBlock, sr: int) -> Seq<Seq<i32>> {
    concat_map(3, sub_grid_fn(block, sr))
}

pub open spec fn sub_band_fn(block: PairBlock) -> spec_fn(int) -> Seq<Seq<i32>> {
    |sr: int| sub_pairs_of_band(block, sr)
}

/// For each sub-grid (sr, sc) in row-major order and each pair of indices
/// i1 < i2 of its cells: block(cell i1, cell i2).
pub open spec fn sub_pairs(block: PairBlock) -> Seq<Seq<i32>> {
    concat_map(3, sub_band_fn(block))
}

} // verus!
