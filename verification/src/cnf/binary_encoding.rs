//! Binary CNF encoding of sudoku: four bit variables per cell (the cell value
//! minus one, in binary) and one "bits are equal" variable per bit of each pair
//! of cells.

use vstd::prelude::*;
use crate::cnf::cell_pairs::{
    col_cell_fn, col_fn, col_pair_fn, col_pairs, row_cell_fn, row_fn, row_pair_fn, row_pairs,
    sub_band_fn, sub_cell_fn, sub_grid_fn, sub_pair_fn, sub_pairs, sub_pairs_of_grid, PairBlock,
};
use crate::cadical_wrapper::{solver_status, solver_value, valid_literal, CadicalSolver};
use crate::seq_util::{
    append_clauses, concat_map, fits_i32, iabs, lemma_concat_map_step, push_clause, tdiv, trem,
};

verus! {

/// Every intermediate value of `(row - 1) * 4 * 9 + (col - 1) * 4 + bit + 1` fits in an `i32`.
pub open spec fn bit_id_fits(row: int, col: int, bit: int) -> bool {
    &&& fits_i32(row - 1)
    &&& fits_i32((row - 1) * 4)
    &&& fits_i32((row - 1) * 36)
    &&& fits_i32(col - 1)
    &&& fits_i32((col - 1) * 4)
    &&& fits_i32((row - 1) * 36 + (col - 1) * 4)
    &&& fits_i32((row - 1) * 36 + (col - 1) * 4 + bit)
    &&& fits_i32((row - 1) * 36 + (col - 1) * 4 + bit + 1)
}

/// The identifier of bit `bit` of cell (row, col).
pub open spec fn spec_cnf_identifier(row: int, col: int, bit: int) -> int {
    (row - 1) * 36 + (col - 1) * 4 + bit + 1
}

/// Every intermediate value of the equality identifier fits in an `i32`.
pub open spec fn eq_id_fits(row: int, col: int, row2: int, col2: int, bit: int) -> bool {
    &&& fits_i32(row - 1)
    &&& fits_i32((row - 1) * 4)
    &&& fits_i32((row - 1) * 36)
    &&& fits_i32((row - 1) * 324)
    &&& fits_i32((row - 1) * 2916)
    &&& fits_i32(324 + (row - 1) * 2916)
    &&& fits_i32(col - 1)
    &&& fits_i32((col - 1) * 4)
    &&& fits_i32((col - 1) * 36)
    &&& fits_i32((col - 1) * 324)
    &&& fits_i32(324 + (row - 1) * 2916 + (col - 1) * 324)
    &&& fits_i32(row2 - 1)
    &&& fits_i32((row2 - 1) * 4)
    &&& fits_i32((row2 - 1) * 36)
    &&& fits_i32(324 + (row - 1) * 2916 + (col - 1) * 324 + (row2 - 1) * 36)
    &&& fits_i32(col2 - 1)
    &&& fits_i32((col2 - 1) * 4)
    &&& fits_i32(324 + (row - 1) * 2916 + (col - 1) * 324 + (row2 - 1) * 36 + (col2 - 1) * 4)
    &&& fits_i32(
        324 + (row - 1) * 2916 + (col - 1) * 324 + (row2 - 1) * 36 + (col2 - 1) * 4 + bit,
    )
    &&& fits_i32(
        324 + (row - 1) * 2916 + (col - 1) * 324 + (row2 - 1) * 36 + (col2 - 1) * 4 + bit + 1,
    )
}

/// The identifier of "bit `bit` of cells (row, col) and (row2, col2) is equal".
pub open spec fn spec_eq_cnf_identifier(row: int, col: int, row2: int, col2: int, bit: int) -> int {
    324 + (row - 1) * 2916 + (col - 1) * 324 + (row2 - 1) * 36 + (col2 - 1) * 4 + bit + 1
}

/// Bit literal as an `i32`.
pub open spec fn bl(row: int, col: int, bit: int) -> i32 {
    spec_cnf_identifier(row, col, bit) as i32
}

/// Equality literal as an `i32`.
pub open spec fn el(row: int, col: int, row2: int, col2: int, bit: int) -> i32 {
    spec_eq_cnf_identifier(row, col, row2, col2, bit) as i32
}

/// The negation of a literal.
pub open spec fn neg(x: i32) -> i32 {
    (-x) as i32
}

/// The mask of bit `index` (0..4).
pub open spec fn bit_mask(index: int) -> i32 {
    if index == 0 {
        1
    } else if index == 1 {
        2
    } else if index == 2 {
        4
    } else {
        8
    }
}

/// Bit `index` (0..4) of the two's complement representation of `v` is 1.
pub open spec fn bit_set(v: i32, index: int) -> bool {
    (v & bit_mask(index)) != 0
}

/// Gives every bit variable (row, column and bit combination) a unique identifier 1 to 324
pub fn cnf_identifier(row: i32, col: i32, bit: i32) -> (id: i32)
    requires
        bit_id_fits(row as int, col as int, bit as int),
    ensures
        id == spec_cnf_identifier(row as int, col as int, bit as int),
{
    (row - 1) * 4 * 9 + (col - 1) * 4 + bit + 1
}

/// Gives every equality variable (cell pair and bit combination) a unique identifier > 324
pub fn eq_cnf_identifier(row: i32, col: i32, row2: i32, col2: i32, bit: i32) -> (id: i32)
    requires
        eq_id_fits(row as int, col as int, row2 as int, col2 as int, bit as int),
    ensures
        id == spec_eq_cnf_identifier(row as int, col as int, row2 as int, col2 as int, bit as int),
{
    9 * 9 * 4 + (row - 1) * 4 * 9 * 9 * 9 + (col - 1) * 4 * 9 * 9 + (row2 - 1) * 4 * 9 + (col2 - 1)
        * 4 + bit + 1
}

/// (row, col, bit_index, bit_value) of a bit identifier, with Rust's rounding toward zero.
pub open spec fn spec_identifier_to_tuple(identifier: int) -> (int, int, int, bool) {
    let a = iabs(identifier) - 1;
    (tdiv(a, 36) + 1, tdiv(trem(a, 36), 4) + 1, trem(a, 4), identifier > 0)
}

/// Reverse CNF-identifier creation
/// Return tuple of (row, col, bit_index, bit_value) from identifier
/// bit_value will be false for negative ids, positive otherwise
pub fn identifier_to_tuple(identifier: i32) -> (t: (i32, i32, i32, bool))
    requires
        identifier != i32::MIN,
    ensures
        (t.0 as int, t.1 as int, t.2 as int, t.3) == spec_identifier_to_tuple(identifier as int),
{
    let bit_value = identifier > 0;
    let a: i32 = if identifier < 0 { -identifier } else { identifier } - 1;
    (a / (9 * 4) + 1, (a % (9 * 4)) / 4 + 1, (a % 4), bit_value)
}

/// (row, col, row2, col2, bit_index, equal) of an equality identifier.
pub open spec fn spec_eq_identifier_to_tuple(identifier: int) -> (int, int, int, int, int, bool) {
    let a = iabs(identifier) - 1 - 324;
    (
        tdiv(a, 2916) + 1,
        tdiv(trem(a, 2916), 324) + 1,
        tdiv(trem(a, 324), 36) + 1,
        tdiv(trem(a, 36), 4) + 1,
        trem(a, 4),
        identifier > 0,
    )
}

/// Reverse CNF-identifier creation for equality variables
/// Return tuple of (row, col, row2, col2, bit_index, equal) from identifier
/// equal will be false, if the bits in the two cells are different
pub fn eq_identifier_to_tuple(identifier: i32) -> (t: (i32, i32, i32, i32, i32, bool))
    requires
        identifier != i32::MIN,
    ensures
        (t.0 as int, t.1 as int, t.2 as int, t.3 as int, t.4 as int, t.5)
            == spec_eq_identifier_to_tuple(identifier as int),
{
    let equal = identifier > 0;
    let a: i32 = if identifier < 0 { -identifier } else { identifier } - 1 - 9 * 9 * 4;
    (
        a / (9 * 9 * 9 * 4) + 1,
        (a % (9 * 9 * 9 * 4)) / (4 * 9 * 9) + 1,
        (a % (9 * 9 * 4)) / (4 * 9) + 1,
        (a % (9 * 4)) / 4 + 1,
        (a % 4),
        equal,
    )
}


// ------------------------------------------------------------ equality blocks
/// The four clauses that tie "bit `bit` of the two cells is equal" to the two bits.
pub open spec fn eq_init_bit(row: int, col: int, row2: int, col2: int, bit: int) -> Seq<Seq<i32>> {
    let e = el(row, col, row2, col2, bit);
    let x = bl(row, col, bit);
    let y = bl(row2, col2, bit);
    seq![
        seq![neg(e), x, neg(y)],
        seq![neg(e), neg(x), y],
        seq![e, neg(x), neg(y)],
        seq![e, x, y],
    ]
}

pub open spec fn eq_init_bit_fn(row: int, col: int, row2: int, col2: int) -> spec_fn(int) -> Seq<Seq<i32>> {
    |bit: int| eq_init_bit(row, col, row2, col2, bit)
}

/// The definitions of the four equality variables of a pair of cells.
pub open spec fn spec_eq_variable_init(row: int, col: int, row2: int, col2: int) -> Seq<Seq<i32>> {
    concat_map(4, eq_init_bit_fn(row, col, row2, col2))
}

/// The clause "at least one bit of the two cells differs".
pub open spec fn differ_clause(row: int, col: int, row2: int, col2: int) -> Seq<i32> {
    seq![
        neg(el(row, col, row2, col2, 0)),
        neg(el(row, col, row2, col2, 1)),
        neg(el(row, col, row2, col2, 2)),
        neg(el(row, col, row2, col2, 3)),
    ]
}

/// Everything the encoding says about a pair of cells that must differ.
pub open spec fn pair_block(row: int, col: int, row2: int, col2: int) -> Seq<Seq<i32>> {
    spec_eq_variable_init(row, col, row2, col2) + seq![differ_clause(row, col, row2, col2)]
}

pub open spec fn pair_block_fn() -> PairBlock {
    |row: int, col: int, row2: int, col2: int| pair_block(row, col, row2, col2)
}

/// Initialize EQ variable that indicate 2 cells have same bits in a specific position
/// There clauses are needed to ensure that the EQ var corresponds exactly to two bits being equal
/// since they are just variables from the perspective of the SAT-solver
fn eq_variable_init(row: i32, col: i32, row2: i32, col2: i32) -> (clauses: Vec<Vec<i32>>)
    requires
        1 <= row <= 9,
        1 <= col <= 9,
        1 <= row2 <= 9,
        1 <= col2 <= 9,
    ensures
        clauses.deep_view() == spec_eq_variable_init(row as int, col as int, row2 as int, col2 as int),
{
    let mut clauses: Vec<Vec<i32>> = Vec::new();
    assert(clauses.deep_view() =~= Seq::<Seq<i32>>::empty());
    let mut bit: i32 = 0;
    while bit < 4
        invariant
            1 <= row <= 9,
            1 <= col <= 9,
            1 <= row2 <= 9,
            1 <= col2 <= 9,
            0 <= bit <= 4,
            clauses.deep_view() == Seq::<Seq<i32>>::empty() + concat_map(
                bit as int,
                eq_init_bit_fn(row as int, col as int, row2 as int, col2 as int),
            ),
        decreases 4 - bit,
    {
        let ghost before = clauses.deep_view();
        let e = eq_cnf_identifier(row, col, row2, col2, bit);
        let x = cnf_identifier(row, col, bit);
        let y = cnf_identifier(row2, col2, bit);
        let ne = -e;
        let nx = -x;
        let ny = -y;
        push_clause(&mut clauses, vec![ne, x, ny]);
        push_clause(&mut clauses, vec![ne, nx, y]);
        push_clause(&mut clauses, vec![e, nx, ny]);
        push_clause(&mut clauses, vec![e, x, y]);
        assert(clauses.deep_view() =~= before + eq_init_bit(
            row as int,
            col as int,
            row2 as int,
            col2 as int,
            bit as int,
        ));
        proof {
            lemma_concat_map_step(
                Seq::<Seq<i32>>::empty(),
                bit as int,
                eq_init_bit_fn(row as int, col as int, row2 as int, col2 as int),
            );
        }
        bit += 1;
    }
    assert(clauses.deep_view() =~= spec_eq_variable_init(
        row as int,
        col as int,
        row2 as int,
        col2 as int,
    ));
    clauses
}

fn push_pair_block(clauses: &mut Vec<Vec<i32>>, row: i32, col: i32, row2: i32, col2: i32)
    requires
        1 <= row <= 9,
        1 <= col <= 9,
        1 <= row2 <= 9,
        1 <= col2 <= 9,
    ensures
        final(clauses).deep_view() == old(clauses).deep_view() + pair_block(
            row as int,
            col as int,
            row2 as int,
            col2 as int,
        ),
{
    let ghost start = clauses.deep_view();
    let init = eq_variable_init(row, col, row2, col2);
    append_clauses(clauses, &init);
    let e0 = -eq_cnf_identifier(row, col, row2, col2, 0);
    let e1 = -eq_cnf_identifier(row, col, row2, col2, 1);
    let e2 = -eq_cnf_identifier(row, col, row2, col2, 2);
    let e3 = -eq_cnf_identifier(row, col, row2, col2, 3);
    let differ = vec![e0, e1, e2, e3];
    assert(differ@ =~= differ_clause(row as int, col as int, row2 as int, col2 as int));
    push_clause(clauses, differ);
    assert(clauses.deep_view() =~= start + pair_block(row as int, col as int, row2 as int, col2 as int));
}

fn push_row_pairs(clauses: &mut Vec<Vec<i32>>)
    ensures
        final(clauses).deep_view() == old(clauses).deep_view() + row_pairs(pair_block_fn()),
{
    let ghost block = pair_block_fn();
    let ghost start = clauses.deep_view();
    let mut row: i32 = 1;
    while row <= 9
        invariant
            1 <= row <= 10,
            block == pair_block_fn(),
            clauses.deep_view() == start + concat_map(row - 1, row_fn(block)),
        decreases 10 - row,
    {
        let ghost row_start = clauses.deep_view();
        let mut col: i32 = 1;
        while col <= 9
            invariant
                1 <= row <= 9,
                1 <= col <= 10,
                block == pair_block_fn(),
                clauses.deep_view() == row_start + concat_map(col - 1, row_cell_fn(block, row - 1)),
            decreases 10 - col,
        {
            let ghost cell_start = clauses.deep_view();
            let mut col2: i32 = col + 1;
            while col2 <= 9
                invariant
                    1 <= row <= 9,
                    1 <= col <= 9,
                    col + 1 <= col2 <= 10,
                    block == pair_block_fn(),
                    clauses.deep_view() == cell_start + concat_map(
                        col2 - col - 1,
                        row_pair_fn(block, row - 1, col - 1),
                    ),
                decreases 10 - col2,
            {
                push_pair_block(clauses, row, col, row, col2);
                proof {
                    lemma_concat_map_step(cell_start, col2 - col - 1, row_pair_fn(block, row - 1, col - 1));
                }
                col2 += 1;
            }
            proof {
                lemma_concat_map_step(row_start, col - 1, row_cell_fn(block, row - 1));
            }
            col += 1;
        }
        proof {
            lemma_concat_map_step(start, row - 1, row_fn(block));
        }
        row += 1;
    }
}

fn push_col_pairs(clauses: &mut Vec<Vec<i32>>)
    ensures
        final(clauses).deep_view() == old(clauses).deep_view() + col_pairs(pair_block_fn()),
{
    let ghost block = pair_block_fn();
    let ghost start = clauses.deep_view();
    let mut col: i32 = 1;
    while col <= 9
        invariant
            1 <= col <= 10,
            block == pair_block_fn(),
            clauses.deep_view() == start + concat_map(col - 1, col_fn(block)),
        decreases 10 - col,
    {
        let ghost col_start = clauses.deep_view();
        let mut row: i32 = 1;
        while row <= 9
            invariant
                1 <= col <= 9,
                1 <= row <= 10,
                block == pair_block_fn(),
                clauses.deep_view() == col_start + concat_map(row - 1, col_cell_fn(block, col - 1)),
            decreases 10 - row,
        {
            let ghost cell_start = clauses.deep_view();
            let mut row2: i32 = row + 1;
            while row2 <= 9
                invariant
                    1 <= col <= 9,
                    1 <= row <= 9,
                    row + 1 <= row2 <= 10,
                    block == pair_block_fn(),
                    clauses.deep_view() == cell_start + concat_map(
                        row2 - row - 1,
                        col_pair_fn(block, col - 1, row - 1),
                    ),
                decreases 10 - row2,
            {
                push_pair_block(clauses, row, col, row2, col);
                proof {
                    lemma_concat_map_step(cell_start, row2 - row - 1, col_pair_fn(block, col - 1, row - 1));
                }
                row2 += 1;
            }
            proof {
                lemma_concat_map_step(col_start, row - 1, col_cell_fn(block, col - 1));
            }
            row += 1;
        }
        proof {
            lemma_concat_map_step(start, col - 1, col_fn(block));
        }
        col += 1;
    }
}

fn push_subgrid_pairs_of_grid(clauses: &mut Vec<Vec<i32>>, subgrid_row: i32, subgrid_col: i32)
    requires
        0 <= subgrid_row <= 2,
        0 <= subgrid_col <= 2,
    ensures
        final(clauses).deep_view() == old(clauses).deep_view() + sub_pairs_of_grid(
            pair_block_fn(),
            subgrid_row as int,
            subgrid_col as int,
        ),
{
    let ghost block = pair_block_fn();
    let ghost start = clauses.deep_view();
    let mut index1: i32 = 0;
    while index1 < 9
        invariant
            0 <= subgrid_row <= 2,
            0 <= subgrid_col <= 2,
            0 <= index1 <= 9,
            block == pair_block_fn(),
            clauses.deep_view() == start + concat_map(
                index1 as int,
                sub_cell_fn(block, subgrid_row as int, subgrid_col as int),
            ),
        decreases 9 - index1,
    {
        let ghost cell_start = clauses.deep_view();
        let mut index2: i32 = index1 + 1;
        while index2 < 9
            invariant
                0 <= subgrid_row <= 2,
                0 <= subgrid_col <= 2,
                0 <= index1 < 9,
                index1 + 1 <= index2 <= 9,
                block == pair_block_fn(),
                clauses.deep_view() == cell_start + concat_map(
                    index2 - index1 - 1,
                    sub_pair_fn(block, subgrid_row as int, subgrid_col as int, index1 as int),
                ),
            decreases 9 - index2,
        {
            let row = 1 + subgrid_row * 3 + index1 % 3;
            let col = 1 + subgrid_col * 3 + index1 / 3;
            let row2 = 1 + subgrid_row * 3 + index2 % 3;
            let col2 = 1 + subgrid_col * 3 + index2 / 3;
            push_pair_block(clauses, row, col, row2, col2);
            proof {
                lemma_concat_map_step(
                    cell_start,
                    index2 - index1 - 1,
                    sub_pair_fn(block, subgrid_row as int, subgrid_col as int, index1 as int),
                );
            }
            index2 += 1;
        }
        proof {
            lemma_concat_map_step(start, index1 as int, sub_cell_fn(block, subgrid_row as int, subgrid_col as int));
        }
        index1 += 1;
    }
}

fn push_subgrid_pairs(clauses: &mut Vec<Vec<i32>>)
    ensures
        final(clauses).deep_view() == old(clauses).deep_view() + sub_pairs(pair_block_fn()),
{
    let ghost block = pair_block_fn();
    let ghost start = clauses.deep_view();
    let mut subgrid_row: i32 = 0;
    while subgrid_row <= 2
        invariant
            0 <= subgrid_row <= 3,
            block == pair_block_fn(),
            clauses.deep_view() == start + concat_map(subgrid_row as int, sub_band_fn(block)),
        decreases 3 - subgrid_row,
    {
        let ghost band_start = clauses.deep_view();
        let mut subgrid_col: i32 = 0;
        while subgrid_col <= 2
            invariant
                0 <= subgrid_row <= 2,
                0 <= subgrid_col <= 3,
                block == pair_block_fn(),
                clauses.deep_view() == band_start + concat_map(
                    subgrid_col as int,
                    sub_grid_fn(block, subgrid_row as int),
                ),
            decreases 3 - subgrid_col,
        {
            push_subgrid_pairs_of_grid(clauses, subgrid_row, subgrid_col);
            proof {
                lemma_concat_map_step(band_start, subgrid_col as int, sub_grid_fn(block, subgrid_row as int));
            }
            subgrid_col += 1;
        }
        proof {
            lemma_concat_map_step(start, subgrid_row as int, sub_band_fn(block));
        }
        subgrid_row += 1;
    }
}


// ------------------------------------------------------------ forbidden values
/// Literal `index` of the clause that rules out the binary value `forbidden`
/// for cell (row, col): the cell must differ from it in at least one bit.
pub open spec fn forbidden_lit(row: int, col: int, forbidden: int, index: int) -> i32 {
    if bit_set(forbidden as i32, index) {
        neg(bl(row, col, index))
    } else {
        bl(row, col, index)
    }
}

/// The clause ruling out the binary value 9 + f0 for cell (r0 + 1, c0 + 1).
pub open spec fn forbidden_clause(r0: int, c0: int, f0: int) -> Seq<Seq<i32>> {
    seq![Seq::new(4, |index: int| forbidden_lit(r0 + 1, c0 + 1, f0 + 9, index))]
}

pub open spec fn forbidden_clause_fn(r0: int, c0: int) -> spec_fn(int) -> Seq<Seq<i32>> {
    |f0: int| forbidden_clause(r0, c0, f0)
}

pub open spec fn forbidden_cell(r0: int, c0: int) -> Seq<Seq<i32>> {
    concat_map(7, forbidden_clause_fn(r0, c0))
}

pub open spec fn forbidden_cell_fn(r0: int) -> spec_fn(int) -> Seq<Seq<i32>> {
    |c0: int| forbidden_cell(r0, c0)
}

pub open spec fn forbidden_row(r0: int) -> Seq<Seq<i32>> {
    concat_map(9, forbidden_cell_fn(r0))
}

pub open spec fn forbidden_row_fn() -> spec_fn(int) -> Seq<Seq<i32>> {
    |r0: int| forbidden_row(r0)
}

/// "No cell holds a binary value 9..=15" (that is, a decimal value above 9).
pub open spec fn forbidden_clauses() -> Seq<Seq<i32>> {
    concat_map(9, forbidden_row_fn())
}

fn push_forbidden_cell(clauses: &mut Vec<Vec<i32>>, row: i32, col: i32)
    requires
        1 <= row <= 9,
        1 <= col <= 9,
    ensures
        final(clauses).deep_view() == old(clauses).deep_view() + forbidden_cell(row - 1, col - 1),
{
    let ghost start = clauses.deep_view();
    let mut forbidden: i32 = 9;
    while forbidden < 16
        invariant
            1 <= row <= 9,
            1 <= col <= 9,
            9 <= forbidden <= 16,
            clauses.deep_view() == start + concat_map(forbidden - 9, forbidden_clause_fn(row - 1, col - 1)),
        decreases 16 - forbidden,
    {
        let ghost target = Seq::new(4, |index: int| forbidden_lit(row as int, col as int, forbidden as int, index));
        let mut cell_clause: Vec<i32> = Vec::with_capacity(4);
        let mut mask: i32 = 1;
        let mut index: i32 = 0;
        while index < 4
            invariant
                1 <= row <= 9,
                1 <= col <= 9,
                9 <= forbidden < 16,
                0 <= index <= 4,
                index < 4 ==> mask == bit_mask(index as int),
                1 <= mask <= 16,
                target == Seq::new(4, |index: int| forbidden_lit(row as int, col as int, forbidden as int, index)),
                cell_clause@ == target.subrange(0, index as int),
            decreases 4 - index,
        {
            if (forbidden & mask) != 0 {
                let l = -cnf_identifier(row, col, index);
                cell_clause.push(l);
            } else {
                let l = cnf_identifier(row, col, index);
                cell_clause.push(l);
            }
            assert(cell_clause@ =~= target.subrange(0, index + 1));
            mask *= 2;
            index += 1;
        }
        assert(cell_clause@ =~= target);
        assert(seq![cell_clause@] =~= forbidden_clause(row - 1, col - 1, forbidden - 9));
        push_clause(clauses, cell_clause);
        proof {
            lemma_concat_map_step(start, forbidden - 9, forbidden_clause_fn(row - 1, col - 1));
        }
        forbidden += 1;
    }
}

fn push_forbidden(clauses: &mut Vec<Vec<i32>>)
    ensures
        final(clauses).deep_view() == old(clauses).deep_view() + forbidden_clauses(),
{
    let ghost start = clauses.deep_view();
    let mut row: i32 = 1;
    while row <= 9
        invariant
            1 <= row <= 10,
            clauses.deep_view() == start + concat_map(row - 1, forbidden_row_fn()),
        decreases 10 - row,
    {
        let ghost row_start = clauses.deep_view();
        let mut col: i32 = 1;
        while col <= 9
            invariant
                1 <= row <= 9,
                1 <= col <= 10,
                clauses.deep_view() == row_start + concat_map(col - 1, forbidden_cell_fn(row - 1)),
            decreases 10 - col,
        {
            push_forbidden_cell(clauses, row, col);
            proof {
                lemma_concat_map_step(row_start, col - 1, forbidden_cell_fn(row - 1));
            }
            col += 1;
        }
        proof {
            lemma_concat_map_step(start, row - 1, forbidden_row_fn());
        }
        row += 1;
    }
}

// ---------------------------------------------------------------------- clues
/// Literal `index` of the clue `v` in cell (r, c) (0-based): bit `index` of v - 1.
pub open spec fn clue_lit(r: int, c: int, v: i32, index: int) -> i32 {
    if bit_set((v - 1) as i32, index) {
        bl(r + 1, c + 1, index)
    } else {
        neg(bl(r + 1, c + 1, index))
    }
}

/// The four unit clauses fixing the bits of the clue in cell (r, c), if any.
pub open spec fn clue_cell(clues: Seq<Vec<Option<i32>>>, r: int, c: int) -> Seq<Seq<i32>> {
    match clues[r]@[c] {
        Some(v) => Seq::new(4, |index: int| seq![clue_lit(r, c, v, index)]),
        None => Seq::empty(),
    }
}

pub open spec fn clue_cell_fn(clues: Seq<Vec<Option<i32>>>, r: int) -> spec_fn(int) -> Seq<Seq<i32>> {
    |c: int| clue_cell(clues, r, c)
}

pub open spec fn clue_row(clues: Seq<Vec<Option<i32>>>, r: int) -> Seq<Seq<i32>> {
    concat_map(clues[r]@.len() as int, clue_cell_fn(clues, r))
}

pub open spec fn clue_row_fn(clues: Seq<Vec<Option<i32>>>) -> spec_fn(int) -> Seq<Seq<i32>> {
    |r: int| clue_row(clues, r)
}

/// Four unit clauses per clue, in row-major order of the grid.
pub open spec fn clue_clauses(clues: Seq<Vec<Option<i32>>>) -> Seq<Seq<i32>> {
    concat_map(clues.len() as int, clue_row_fn(clues))
}

/// The bit identifiers of all clues can be computed without overflow.
pub open spec fn clues_fit(clues: Seq<Vec<Option<i32>>>) -> bool {
    forall|r: int, c: int|
        0 <= r < clues.len() && 0 <= c < clues[r]@.len() && #[trigger] clues[r]@[c] is Some ==> {
            &&& r < i32::MAX
            &&& c < i32::MAX
            &&& clues[r]@[c]->0 != i32::MIN
            &&& bit_id_fits(r + 1, c + 1, 0)
            &&& bit_id_fits(r + 1, c + 1, 3)
        }
}

fn push_clue(clauses: &mut Vec<Vec<i32>>, row: usize, col: usize, clue: i32)
    requires
        row < i32::MAX,
        col < i32::MAX,
        clue != i32::MIN,
        bit_id_fits(row + 1, col + 1, 0),
        bit_id_fits(row + 1, col + 1, 3),
    ensures
        final(clauses).deep_view() == old(clauses).deep_view() + Seq::new(
            4,
            |index: int| seq![clue_lit(row as int, col as int, clue, index)],
        ),
{
    let ghost start = clauses.deep_view();
    let ghost target = Seq::new(4, |index: int| seq![clue_lit(row as int, col as int, clue, index)]);
    let val = clue - 1;
    let mut mask: i32 = 1;
    let mut index: i32 = 0;
    while index < 4
        invariant
            row < i32::MAX,
            col < i32::MAX,
            val == clue - 1,
            bit_id_fits(row + 1, col + 1, 0),
            bit_id_fits(row + 1, col + 1, 3),
            0 <= index <= 4,
            index < 4 ==> mask == bit_mask(index as int),
            1 <= mask <= 16,
            target == Seq::new(4, |index: int| seq![clue_lit(row as int, col as int, clue, index)]),
            clauses.deep_view() == start + target.subrange(0, index as int),
        decreases 4 - index,
    {
        assert(bit_id_fits(row + 1, col + 1, index as int));
        let id = cnf_identifier(row as i32 + 1, col as i32 + 1, index);
        assert(id == bl(row + 1, col + 1, index as int));
        assert((clue - 1) as i32 == val);
        if (val & mask) != 0 {
            let clause = vec![id];
            assert(clause@ =~= seq![id]);
            assert(clue_lit(row as int, col as int, clue, index as int) == id);
            push_clause(clauses, clause);
        } else {
            let n = -id;
            let clause = vec![n];
            assert(clause@ =~= seq![n]);
            assert(clue_lit(row as int, col as int, clue, index as int) == n);
            push_clause(clauses, clause);
        }
        assert(clauses.deep_view() =~= start + target.subrange(0, index + 1));
        mask *= 2;
        index += 1;
    }
    assert(target.subrange(0, 4) =~= target);
}

fn push_clues(clauses: &mut Vec<Vec<i32>>, clues: &[Vec<Option<i32>>])
    requires
        clues_fit(clues@),
    ensures
        final(clauses).deep_view() == old(clauses).deep_view() + clue_clauses(clues@),
{
    let ghost start = clauses.deep_view();
    let mut row: usize = 0;
    while row < clues.len()
        invariant
            row <= clues@.len(),
            clues_fit(clues@),
            clauses.deep_view() == start + concat_map(row as int, clue_row_fn(clues@)),
        decreases clues@.len() - row,
    {
        let line = &clues[row];
        let ghost row_start = clauses.deep_view();
        let mut col: usize = 0;
        while col < line.len()
            invariant
                row < clues@.len(),
                *line == clues@[row as int],
                col <= line@.len(),
                clues_fit(clues@),
                clauses.deep_view() == row_start + concat_map(col as int, clue_cell_fn(clues@, row as int)),
            decreases line@.len() - col,
        {
            match line[col] {
                Some(val) => {
                    assert(clues@[row as int]@[col as int] == Some(val));
                    push_clue(clauses, row, col, val);
                },
                None => {
                    assert(clauses.deep_view() =~= clauses.deep_view() + clue_cell(clues@, row as int, col as int));
                },
            }
            proof {
                lemma_concat_map_step(row_start, col as int, clue_cell_fn(clues@, row as int));
            }
            col += 1;
        }
        proof {
            lemma_concat_map_step(start, row as int, clue_row_fn(clues@));
        }
        row += 1;
    }
}

// ------------------------------------------------------------------ the whole
/// The clauses of the binary encoding: cells of a row, column or sub-grid
/// differ, no cell exceeds 9, and the clues.
pub open spec fn spec_sudoku_to_cnf(clues: Seq<Vec<Option<i32>>>) -> Seq<Seq<i32>> {
    row_pairs(pair_block_fn()) + col_pairs(pair_block_fn()) + sub_pairs(pair_block_fn())
        + forbidden_clauses() + clue_clauses(clues)
}

/// Returns a Vec of CNF clauses (stored as `Vec<i32>`) which fully
/// encodes the rules of sudoku, and the clues given as an argument.
pub fn sudoku_to_cnf(clues: &[Vec<Option<i32>>]) -> (clauses: Vec<Vec<i32>>)
    requires
        clues_fit(clues@),
    ensures
        clauses.deep_view() == spec_sudoku_to_cnf(clues@),
{
    let mut clauses: Vec<Vec<i32>> = Vec::new();
    assert(clauses.deep_view() =~= Seq::<Seq<i32>>::empty());
    push_row_pairs(&mut clauses);
    push_col_pairs(&mut clauses);
    push_subgrid_pairs(&mut clauses);
    push_forbidden(&mut clauses);
    push_clues(&mut clauses, clues);
    assert(clauses.deep_view() =~= spec_sudoku_to_cnf(clues@));
    clauses
}


// ----------------------------------------------------------------------- laws
/// Decoding a bit identifier gives back its cell and bit; the sign carries the
/// bit value. Bit identifiers of cells in 1..=9 and bits 0..=3 lie in 1..=324.
pub proof fn lemma_identifier_round_trip(row: int, col: int, bit: int)
    requires
        1 <= row <= 9,
        1 <= col <= 9,
        0 <= bit <= 3,
    ensures
        1 <= spec_cnf_identifier(row, col, bit) <= 324,
        spec_identifier_to_tuple(spec_cnf_identifier(row, col, bit)) == (row, col, bit, true),
        spec_identifier_to_tuple(-spec_cnf_identifier(row, col, bit)) == (row, col, bit, false),
{
    let a = spec_cnf_identifier(row, col, bit) - 1;
    assert(a / 36 == row - 1 && a % 36 == (col - 1) * 4 + bit && a % 4 == bit) by (nonlinear_arith)
        requires
            a == (row - 1) * 36 + (col - 1) * 4 + bit,
            1 <= row <= 9,
            1 <= col <= 9,
            0 <= bit <= 3,
    ;
    assert(((col - 1) * 4 + bit) / 4 == col - 1) by (nonlinear_arith)
        requires
            1 <= col <= 9,
            0 <= bit <= 3,
    ;
    let id = spec_cnf_identifier(row, col, bit);
    assert(iabs(-id) - 1 == a);
    assert(trem(a, 36) == (col - 1) * 4 + bit);
}

/// Decoding an equality identifier gives back its two cells and bit; the sign
/// carries "equal". These identifiers lie in 325..=26568.
pub proof fn lemma_eq_identifier_round_trip(row: int, col: int, row2: int, col2: int, bit: int)
    requires
        1 <= row <= 9,
        1 <= col <= 9,
        1 <= row2 <= 9,
        1 <= col2 <= 9,
        0 <= bit <= 3,
    ensures
        325 <= spec_eq_cnf_identifier(row, col, row2, col2, bit) <= 26568,
        spec_eq_identifier_to_tuple(spec_eq_cnf_identifier(row, col, row2, col2, bit)) == (
            row,
            col,
            row2,
            col2,
            bit,
            true,
        ),
        spec_eq_identifier_to_tuple(-spec_eq_cnf_identifier(row, col, row2, col2, bit)) == (
            row,
            col,
            row2,
            col2,
            bit,
            false,
        ),
{
    let a = spec_eq_cnf_identifier(row, col, row2, col2, bit) - 1 - 324;
    let m2916 = (col - 1) * 324 + (row2 - 1) * 36 + (col2 - 1) * 4 + bit;
    let m324 = (row2 - 1) * 36 + (col2 - 1) * 4 + bit;
    let m36 = (col2 - 1) * 4 + bit;
    assert(a / 2916 == row - 1 && a % 2916 == m2916) by (nonlinear_arith)
        requires
            a == (row - 1) * 2916 + m2916,
            0 <= m2916 < 2916,
            1 <= row <= 9,
    ;
    assert(m2916 / 324 == col - 1 && m2916 % 324 == m324) by (nonlinear_arith)
        requires
            m2916 == (col - 1) * 324 + m324,
            0 <= m324 < 324,
            1 <= col <= 9,
    ;
    assert(a % 324 == m324) by (nonlinear_arith)
        requires
            a == (row - 1) * 2916 + (col - 1) * 324 + m324,
            0 <= m324 < 324,
            1 <= row <= 9,
            1 <= col <= 9,
    ;
    assert(m324 / 36 == row2 - 1 && m324 % 36 == m36) by (nonlinear_arith)
        requires
            m324 == (row2 - 1) * 36 + m36,
            0 <= m36 < 36,
            1 <= row2 <= 9,
    ;
    assert(a % 36 == m36) by (nonlinear_arith)
        requires
            a == (row - 1) * 2916 + (col - 1) * 324 + (row2 - 1) * 36 + m36,
            0 <= m36 < 36,
            1 <= row <= 9,
            1 <= col <= 9,
            1 <= row2 <= 9,
    ;
    assert(m36 / 4 == col2 - 1 && a % 4 == bit) by (nonlinear_arith)
        requires
            m36 == (col2 - 1) * 4 + bit,
            a == (row - 1) * 2916 + (col - 1) * 324 + (row2 - 1) * 36 + (col2 - 1) * 4 + bit,
            0 <= bit <= 3,
            1 <= row <= 9,
            1 <= col <= 9,
            1 <= row2 <= 9,
            1 <= col2 <= 9,
    ;
    let id = spec_eq_cnf_identifier(row, col, row2, col2, bit);
    assert(iabs(-id) - 1 - 324 == a);
    assert(trem(a, 2916) == m2916);
    assert(trem(a, 324) == m324);
    assert(trem(a, 36) == m36);
}

/// No bit identifier coincides with an equality identifier, and within each
/// kind different variables get different identifiers.
pub proof fn lemma_no_overlapping_identifiers(
    row: int,
    col: int,
    bit: int,
    row_a: int,
    col_a: int,
    row2_a: int,
    col2_a: int,
    bit_a: int,
)
    requires
        1 <= row <= 9,
        1 <= col <= 9,
        0 <= bit <= 3,
        1 <= row_a <= 9,
        1 <= col_a <= 9,
        1 <= row2_a <= 9,
        1 <= col2_a <= 9,
        0 <= bit_a <= 3,
    ensures
        spec_cnf_identifier(row, col, bit) != spec_eq_cnf_identifier(row_a, col_a, row2_a, col2_a, bit_a),
        forall|r: int, c: int, b: int|
            1 <= r <= 9 && 1 <= c <= 9 && 0 <= b <= 3 && (r, c, b) != (row, col, bit)
                ==> #[trigger] spec_cnf_identifier(r, c, b) != spec_cnf_identifier(row, col, bit),
        forall|r: int, c: int, r2: int, c2: int, b: int|
            1 <= r <= 9 && 1 <= c <= 9 && 1 <= r2 <= 9 && 1 <= c2 <= 9 && 0 <= b <= 3 && (
            r,
            c,
            r2,
            c2,
            b,
            ) != (row_a, col_a, row2_a, col2_a, bit_a) ==> #[trigger] spec_eq_cnf_identifier(
                r,
                c,
                r2,
                c2,
                b,
            ) != spec_eq_cnf_identifier(row_a, col_a, row2_a, col2_a, bit_a),
{
    lemma_identifier_round_trip(row, col, bit);
    lemma_eq_identifier_round_trip(row_a, col_a, row2_a, col2_a, bit_a);
    assert forall|r: int, c: int, b: int|
        1 <= r <= 9 && 1 <= c <= 9 && 0 <= b <= 3 && (r, c, b) != (row, col, bit) implies #[trigger] spec_cnf_identifier(
        r,
        c,
        b,
    ) != spec_cnf_identifier(row, col, bit) by {
        lemma_identifier_round_trip(r, c, b);
    }
    assert forall|r: int, c: int, r2: int, c2: int, b: int|
        1 <= r <= 9 && 1 <= c <= 9 && 1 <= r2 <= 9 && 1 <= c2 <= 9 && 0 <= b <= 3 && (
        r,
        c,
        r2,
        c2,
        b,
        ) != (row_a, col_a, row2_a, col2_a, bit_a) implies #[trigger] spec_eq_cnf_identifier(
        r,
        c,
        r2,
        c2,
        b,
    ) != spec_eq_cnf_identifier(row_a, col_a, row2_a, col2_a, bit_a) by {
        lemma_eq_identifier_round_trip(r, c, r2, c2, b);
    }
}

/// The value of a cell read back from its four bits: one plus the weights of
/// the bits that are set.
pub open spec fn value_from_bits(b0: bool, b1: bool, b2: bool, b3: bool) -> int {
    1 + (if b0 { 1int } else { 0 }) + (if b1 { 2int } else { 0 }) + (if b2 { 4int } else { 0 }) + (
    if b3 {
        8int
    } else {
        0
    })
}

/// The bits that the clue clauses fix for a clue 1..=16 read back as the clue.
pub proof fn lemma_clue_bits_round_trip(clue: i32)
    requires
        1 <= clue <= 16,
    ensures
        value_from_bits(
            bit_set((clue - 1) as i32, 0),
            bit_set((clue - 1) as i32, 1),
            bit_set((clue - 1) as i32, 2),
            bit_set((clue - 1) as i32, 3),
        ) == clue,
{
    let v: i32 = (clue - 1) as i32;
    assert(0 <= v < 16);
    assert(v == (if v & 1 != 0 { 1i32 } else { 0 }) + (if v & 2 != 0 { 2i32 } else { 0 }) + (if v
        & 4 != 0 {
        4i32
    } else {
        0
    }) + (if v & 8 != 0 {
        8i32
    } else {
        0
    })) by (bit_vector)
        requires
            0 <= v < 16,
    ;
}


// --------------------------------------------------------- reading a solution
/// The value of cell (row, col) in the solver's solution: one plus the weights
/// of its bits that are true.
pub open spec fn spec_cell_value(solver: CadicalSolver, row: int, col: int) -> int {
    value_from_bits(
        solver_value(solver, bl(row, col, 0)) == Some(true),
        solver_value(solver, bl(row, col, 1)) == Some(true),
        solver_value(solver, bl(row, col, 2)) == Some(true),
        solver_value(solver, bl(row, col, 3)) == Some(true),
    )
}

/// The four bit variables of the cell have identifiers the solver accepts.
pub open spec fn cell_literals_ok(row: int, col: int) -> bool {
    forall|bit: int|
        0 <= bit <= 3 ==> #[trigger] bit_id_fits(row, col, bit) && valid_literal(bl(row, col, bit))
}

/// The solver has a value for each of the four bits of the cell.
pub open spec fn cell_bits_known(solver: CadicalSolver, row: int, col: int) -> bool {
    forall|bit: int| 0 <= bit <= 3 ==> (#[trigger] solver_value(solver, bl(row, col, bit))) is Some
}

/// Gets all bit values of a cell from the solver, and converts thet to a decimal value,
/// which is returned.
pub fn get_cell_value(solver: &CadicalSolver, row: i32, col: i32) -> (value: i32)
    requires
        solver_status(*solver) == Some(true),
        cell_literals_ok(row as int, col as int),
        cell_bits_known(*solver, row as int, col as int),
    ensures
        value == spec_cell_value(*solver, row as int, col as int),
{
    let mut value: i32 = 1;
    let mut weight: i32 = 1;
    let mut bit: i32 = 0;
    while bit < 4
        invariant
            0 <= bit <= 4,
            solver_status(*solver) == Some(true),
            cell_literals_ok(row as int, col as int),
            cell_bits_known(*solver, row as int, col as int),
            weight == if bit == 0 { 1int } else if bit == 1 { 2 } else if bit == 2 { 4 } else if bit == 3 { 8 } else { 16 },
            value == 1 + (if bit > 0 && solver_value(*solver, bl(row as int, col as int, 0)) == Some(true) { 1int } else { 0 })
                + (if bit > 1 && solver_value(*solver, bl(row as int, col as int, 1)) == Some(true) { 2int } else { 0 })
                + (if bit > 2 && solver_value(*solver, bl(row as int, col as int, 2)) == Some(true) { 4int } else { 0 })
                + (if bit > 3 && solver_value(*solver, bl(row as int, col as int, 3)) == Some(true) { 8int } else { 0 }),
        decreases 4 - bit,
    {
        assert(bit_id_fits(row as int, col as int, bit as int));
        let id = cnf_identifier(row, col, bit);
        assert(solver_value(*solver, bl(row as int, col as int, bit as int)) is Some);
        let v = solver.value(id);
        if v.unwrap() {
            value += weight;
        }
        weight *= 2;
        bit += 1;
    }
    value
}

} // verus!
