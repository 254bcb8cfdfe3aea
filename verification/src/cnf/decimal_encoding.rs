//! Decimal CNF encoding of sudoku: one boolean variable per (row, column, value).

use vstd::prelude::*;
use crate::cnf::cell_pairs::{
    col_cell_fn, col_fn, col_pair_fn, col_pairs, row_cell_fn, row_fn, row_pair_fn, row_pairs,
    sub_band_fn, sub_cell_fn, sub_grid_fn, sub_pair_fn, sub_pairs, sub_pairs_of_grid, PairBlock,
};
use crate::cadical_wrapper::{solver_status, solver_value, valid_literal, CadicalSolver};
use crate::seq_util::{concat_map, fits_i32, lemma_concat_map_empty_last, lemma_concat_map_step, push_clause, iabs, tdiv, trem};

verus! {

/// Every intermediate value of `(row - 1) * 9 * 9 + (col - 1) * 9 + val` fits in an `i32`.
pub open spec fn dec_id_fits(row: int, col: int, val: int) -> bool {
    &&& fits_i32(row - 1)
    &&& fits_i32((row - 1) * 9)
    &&& fits_i32((row - 1) * 81)
    &&& fits_i32(col - 1)
    &&& fits_i32((col - 1) * 9)
    &&& fits_i32((row - 1) * 81 + (col - 1) * 9)
    &&& fits_i32((row - 1) * 81 + (col - 1) * 9 + val)
}

/// The identifier of the variable "cell (row, col) holds val".
pub open spec fn spec_cnf_identifier(row: int, col: int, val: int) -> int {
    (row - 1) * 81 + (col - 1) * 9 + val
}

/// The identifier as a literal (an `i32`).
pub open spec fn lit(row: int, col: int, val: int) -> i32 {
    spec_cnf_identifier(row, col, val) as i32
}

/// Gives every variable (row, column and value combination) a unique identifier > 0
pub fn cnf_identifier(row: i32, col: i32, val: i32) -> (id: i32)
    requires
        dec_id_fits(row as int, col as int, val as int),
    ensures
        id == spec_cnf_identifier(row as int, col as int, val as int),
{
    (row - 1) * 9 * 9 + (col - 1) * 9 + val
}

// ---------------------------------------------------------------- at least one
/// The clause "cell (r0 + 1, c0 + 1) holds one of the values 1..=9".
pub open spec fn alo_cell(r0: int, c0: int) -> Seq<Seq<i32>> {
    seq![Seq::new(9, |v0: int| lit(r0 + 1, c0 + 1, v0 + 1))]
}

pub open spec fn alo_cell_fn(r0: int) -> spec_fn(int) -> Seq<Seq<i32>> {
    |c0: int| alo_cell(r0, c0)
}

pub open spec fn alo_row(r0: int) -> Seq<Seq<i32>> {
    concat_map(9, alo_cell_fn(r0))
}

pub open spec fn alo_row_fn() -> spec_fn(int) -> Seq<Seq<i32>> {
    |r0: int| alo_row(r0)
}

/// "Each cell has at least one value": one clause per cell, rows first.
pub open spec fn at_least_one_clauses() -> Seq<Seq<i32>> {
    concat_map(9, alo_row_fn())
}

fn push_at_least_one(clauses: &mut Vec<Vec<i32>>)
    ensures
        final(clauses).deep_view() == old(clauses).deep_view() + at_least_one_clauses(),
{
    let ghost start = clauses.deep_view();
    let mut row: i32 = 1;
    while row <= 9
        invariant
            1 <= row <= 10,
            clauses.deep_view() == start + concat_map(row - 1, alo_row_fn()),
        decreases 10 - row,
    {
        let ghost row_start = clauses.deep_view();
        let mut col: i32 = 1;
        while col <= 9
            invariant
                1 <= row <= 9,
                1 <= col <= 10,
                clauses.deep_view() == row_start + concat_map(col - 1, alo_cell_fn(row - 1)),
            decreases 10 - col,
        {
            let mut cell_cnf: Vec<i32> = Vec::with_capacity(9);
            let mut val: i32 = 1;
            while val <= 9
                invariant
                    1 <= row <= 9,
                    1 <= col <= 9,
                    1 <= val <= 10,
                    cell_cnf@ == Seq::new((val - 1) as nat, |v0: int| lit(row as int, col as int, v0 + 1)),
                decreases 10 - val,
            {
                let id = cnf_identifier(row, col, val);
                cell_cnf.push(id);
                assert(cell_cnf@ =~= Seq::new(val as nat, |v0: int| lit(row as int, col as int, v0 + 1)));
                val += 1;
            }
            assert(seq![cell_cnf@] =~= alo_cell(row - 1, col - 1));
            push_clause(clauses, cell_cnf);
            proof {
                lemma_concat_map_step(row_start, col - 1, alo_cell_fn(row - 1));
            }
            col += 1;
        }
        proof {
            lemma_concat_map_step(start, row - 1, alo_row_fn());
        }
        row += 1;
    }
}


/// The negation of a literal.
pub open spec fn neg(x: i32) -> i32 {
    (-x) as i32
}

// ----------------------------------------------------------------- at most one
/// The clause "cell (r0 + 1, c0 + 1) does not hold both a0 + 1 and a0 + 2 + k".
pub open spec fn amo_pair(r0: int, c0: int, a0: int, k: int) -> Seq<Seq<i32>> {
    seq![seq![neg(lit(r0 + 1, c0 + 1, a0 + 1)), neg(lit(r0 + 1, c0 + 1, a0 + 2 + k))]]
}

pub open spec fn amo_pair_fn(r0: int, c0: int, a0: int) -> spec_fn(int) -> Seq<Seq<i32>> {
    |k: int| amo_pair(r0, c0, a0, k)
}

pub open spec fn amo_first(r0: int, c0: int, a0: int) -> Seq<Seq<i32>> {
    concat_map(8 - a0, amo_pair_fn(r0, c0, a0))
}

pub open spec fn amo_first_fn(r0: int, c0: int) -> spec_fn(int) -> Seq<Seq<i32>> {
    |a0: int| amo_first(r0, c0, a0)
}

pub open spec fn amo_cell(r0: int, c0: int) -> Seq<Seq<i32>> {
    concat_map(8, amo_first_fn(r0, c0))
}

pub open spec fn amo_cell_fn(r0: int) -> spec_fn(int) -> Seq<Seq<i32>> {
    |c0: int| amo_cell(r0, c0)
}

pub open spec fn amo_row(r0: int) -> Seq<Seq<i32>> {
    concat_map(9, amo_cell_fn(r0))
}

pub open spec fn amo_row_fn() -> spec_fn(int) -> Seq<Seq<i32>> {
    |r0: int| amo_row(r0)
}

/// "Each cell has at most one value": for every cell and every pair of values
/// v1 < v2, the clause (-v1 v -v2).
pub open spec fn at_most_one_clauses() -> Seq<Seq<i32>> {
    concat_map(9, amo_row_fn())
}

fn push_at_most_one_cell(clauses: &mut Vec<Vec<i32>>, row: i32, col: i32)
    requires
        1 <= row <= 9,
        1 <= col <= 9,
    ensures
        final(clauses).deep_view() == old(clauses).deep_view() + amo_cell(row - 1, col - 1),
{
    let ghost start = clauses.deep_view();
    let mut val1: i32 = 1;
    while val1 <= 8
        invariant
            1 <= row <= 9,
            1 <= col <= 9,
            1 <= val1 <= 9,
            clauses.deep_view() == start + concat_map(val1 - 1, amo_first_fn(row - 1, col - 1)),
        decreases 9 - val1,
    {
        let ghost first_start = clauses.deep_view();
        let mut val2: i32 = val1 + 1;
        while val2 <= 9
            invariant
                1 <= row <= 9,
                1 <= col <= 9,
                1 <= val1 <= 8,
                val1 + 1 <= val2 <= 10,
                clauses.deep_view() == first_start + concat_map(
                    val2 - val1 - 1,
                    amo_pair_fn(row - 1, col - 1, val1 - 1),
                ),
            decreases 10 - val2,
        {
            let a = -cnf_identifier(row, col, val1);
            let b = -cnf_identifier(row, col, val2);
            let cell_cnf = vec![a, b];
            assert(seq![cell_cnf@] =~= amo_pair(row - 1, col - 1, val1 - 1, val2 - val1 - 1));
            push_clause(clauses, cell_cnf);
            proof {
                lemma_concat_map_step(
                    first_start,
                    val2 - val1 - 1,
                    amo_pair_fn(row - 1, col - 1, val1 - 1),
                );
            }
            val2 += 1;
        }
        proof {
            lemma_concat_map_step(start, val1 - 1, amo_first_fn(row - 1, col - 1));
        }
        val1 += 1;
    }
}

fn push_at_most_one(clauses: &mut Vec<Vec<i32>>)
    ensures
        final(clauses).deep_view() == old(clauses).deep_view() + at_most_one_clauses(),
{
    let ghost start = clauses.deep_view();
    let mut row: i32 = 1;
    while row <= 9
        invariant
            1 <= row <= 10,
            clauses.deep_view() == start + concat_map(row - 1, amo_row_fn()),
        decreases 10 - row,
    {
        let ghost row_start = clauses.deep_view();
        let mut col: i32 = 1;
        while col <= 9
            invariant
                1 <= row <= 9,
                1 <= col <= 10,
                clauses.deep_view() == row_start + concat_map(col - 1, amo_cell_fn(row - 1)),
            decreases 10 - col,
        {
            push_at_most_one_cell(clauses, row, col);
            proof {
                lemma_concat_map_step(row_start, col - 1, amo_cell_fn(row - 1));
            }
            col += 1;
        }
        proof {
            lemma_concat_map_step(start, row - 1, amo_row_fn());
        }
        row += 1;
    }
}


// ----------------------------------------------------------------- all values
/// "Row r0 + 1 holds value v0 + 1 somewhere".
pub open spec fn av_row_clause(v0: int, r0: int) -> Seq<Seq<i32>> {
    seq![Seq::new(9, |c0: int| lit(r0 + 1, c0 + 1, v0 + 1))]
}

pub open spec fn av_row_clause_fn(v0: int) -> spec_fn(int) -> Seq<Seq<i32>> {
    |r0: int| av_row_clause(v0, r0)
}

pub open spec fn av_rows_of_value(v0: int) -> Seq<Seq<i32>> {
    concat_map(9, av_row_clause_fn(v0))
}

pub open spec fn av_rows_fn() -> spec_fn(int) -> Seq<Seq<i32>> {
    |v0: int| av_rows_of_value(v0)
}

/// "Column c0 + 1 holds value v0 + 1 somewhere".
pub open spec fn av_col_clause(v0: int, c0: int) -> Seq<Seq<i32>> {
    seq![Seq::new(9, |r0: int| lit(r0 + 1, c0 + 1, v0 + 1))]
}

pub open spec fn av_col_clause_fn(v0: int) -> spec_fn(int) -> Seq<Seq<i32>> {
    |c0: int| av_col_clause(v0, c0)
}

pub open spec fn av_cols_of_value(v0: int) -> Seq<Seq<i32>> {
    concat_map(9, av_col_clause_fn(v0))
}

pub open spec fn av_cols_fn() -> spec_fn(int) -> Seq<Seq<i32>> {
    |v0: int| av_cols_of_value(v0)
}

/// "Sub-grid (sr, sc) holds value v0 + 1 somewhere"; its cells row by row.
pub open spec fn av_sub_clause(sr: int, sc: int, v0: int) -> Seq<Seq<i32>> {
    seq![Seq::new(9, |k: int| lit(3 * sr + k / 3 + 1, 3 * sc + k % 3 + 1, v0 + 1))]
}

pub open spec fn av_sub_clause_fn(sr: int, sc: int) -> spec_fn(int) -> Seq<Seq<i32>> {
    |v0: int| av_sub_clause(sr, sc, v0)
}

pub open spec fn av_sub_grid(sr: int, sc: int) -> Seq<Seq<i32>> {
    concat_map(9, av_sub_clause_fn(sr, sc))
}

pub open spec fn av_sub_grid_fn(sr: int) -> spec_fn(int) -> Seq<Seq<i32>> {
    |sc: int| av_sub_grid(sr, sc)
}

pub open spec fn av_sub_band(sr: int) -> Seq<Seq<i32>> {
    concat_map(3, av_sub_grid_fn(sr))
}

pub open spec fn av_sub_band_fn() -> spec_fn(int) -> Seq<Seq<i32>> {
    |sr: int| av_sub_band(sr)
}

/// "Each row, column and sub-grid holds every value": rows (by value, then
/// row), columns (by value, then column), sub-grids (by grid, then value).
pub open spec fn all_values_clauses() -> Seq<Seq<i32>> {
    concat_map(9, av_rows_fn()) + concat_map(9, av_cols_fn()) + concat_map(3, av_sub_band_fn())
}

fn push_all_values_rows(clauses: &mut Vec<Vec<i32>>)
    ensures
        final(clauses).deep_view() == old(clauses).deep_view() + concat_map(9, av_rows_fn()),
{
    let ghost start = clauses.deep_view();
    let mut val: i32 = 1;
    while val <= 9
        invariant
            1 <= val <= 10,
            clauses.deep_view() == start + concat_map(val - 1, av_rows_fn()),
        decreases 10 - val,
    {
        let ghost val_start = clauses.deep_view();
        let mut row: i32 = 1;
        while row <= 9
            invariant
                1 <= val <= 9,
                1 <= row <= 10,
                clauses.deep_view() == val_start + concat_map(row - 1, av_row_clause_fn(val - 1)),
            decreases 10 - row,
        {
            let mut row_cnf: Vec<i32> = Vec::with_capacity(9);
            let mut col: i32 = 1;
            while col <= 9
                invariant
                    1 <= val <= 9,
                    1 <= row <= 9,
                    1 <= col <= 10,
                    row_cnf@ == Seq::new((col - 1) as nat, |c0: int| lit(row as int, c0 + 1, val as int)),
                decreases 10 - col,
            {
                let id = cnf_identifier(row, col, val);
                row_cnf.push(id);
                assert(row_cnf@ =~= Seq::new(col as nat, |c0: int| lit(row as int, c0 + 1, val as int)));
                col += 1;
            }
            assert(seq![row_cnf@] =~= av_row_clause(val - 1, row - 1));
            push_clause(clauses, row_cnf);
            proof {
                lemma_concat_map_step(val_start, row - 1, av_row_clause_fn(val - 1));
            }
            row += 1;
        }
        proof {
            lemma_concat_map_step(start, val - 1, av_rows_fn());
        }
        val += 1;
    }
}

fn push_all_values_cols(clauses: &mut Vec<Vec<i32>>)
    ensures
        final(clauses).deep_view() == old(clauses).deep_view() + concat_map(9, av_cols_fn()),
{
    let ghost start = clauses.deep_view();
    let mut val: i32 = 1;
    while val <= 9
        invariant
            1 <= val <= 10,
            clauses.deep_view() == start + concat_map(val - 1, av_cols_fn()),
        decreases 10 - val,
    {
        let ghost val_start = clauses.deep_view();
        let mut col: i32 = 1;
        while col <= 9
            invariant
                1 <= val <= 9,
                1 <= col <= 10,
                clauses.deep_view() == val_start + concat_map(col - 1, av_col_clause_fn(val - 1)),
            decreases 10 - col,
        {
            let mut col_cnf: Vec<i32> = Vec::with_capacity(9);
            let mut row: i32 = 1;
            while row <= 9
                invariant
                    1 <= val <= 9,
                    1 <= col <= 9,
                    1 <= row <= 10,
                    col_cnf@ == Seq::new((row - 1) as nat, |r0: int| lit(r0 + 1, col as int, val as int)),
                decreases 10 - row,
            {
                let id = cnf_identifier(row, col, val);
                col_cnf.push(id);
                assert(col_cnf@ =~= Seq::new(row as nat, |r0: int| lit(r0 + 1, col as int, val as int)));
                row += 1;
            }
            assert(seq![col_cnf@] =~= av_col_clause(val - 1, col - 1));
            push_clause(clauses, col_cnf);
            proof {
                lemma_concat_map_step(val_start, col - 1, av_col_clause_fn(val - 1));
            }
            col += 1;
        }
        proof {
            lemma_concat_map_step(start, val - 1, av_cols_fn());
        }
        val += 1;
    }
}

fn push_all_values_sub_clause(clauses: &mut Vec<Vec<i32>>, subgrid_row: i32, subgrid_col: i32, val: i32)
    requires
        0 <= subgrid_row <= 2,
        0 <= subgrid_col <= 2,
        1 <= val <= 9,
    ensures
        final(clauses).deep_view() == old(clauses).deep_view() + av_sub_clause(
            subgrid_row as int,
            subgrid_col as int,
            val - 1,
        ),
{
    let ghost target = Seq::new(
        9,
        |k: int| lit(3 * subgrid_row + k / 3 + 1, 3 * subgrid_col + k % 3 + 1, val as int),
    );
    let mut subgrid_cnf: Vec<i32> = Vec::with_capacity(9);
    let mut row: i32 = 1;
    while row <= 3
        invariant
            0 <= subgrid_row <= 2,
            0 <= subgrid_col <= 2,
            1 <= val <= 9,
            1 <= row <= 4,
            target == Seq::new(
                9,
                |k: int| lit(3 * subgrid_row + k / 3 + 1, 3 * subgrid_col + k % 3 + 1, val as int),
            ),
            subgrid_cnf@ == target.subrange(0, 3 * (row - 1)),
        decreases 4 - row,
    {
        let mut col: i32 = 1;
        while col <= 3
            invariant
                0 <= subgrid_row <= 2,
                0 <= subgrid_col <= 2,
                1 <= val <= 9,
                1 <= row <= 3,
                1 <= col <= 4,
                target == Seq::new(
                    9,
                    |k: int| lit(3 * subgrid_row + k / 3 + 1, 3 * subgrid_col + k % 3 + 1, val as int),
                ),
                subgrid_cnf@ == target.subrange(0, 3 * (row - 1) + col - 1),
            decreases 4 - col,
        {
            let id = cnf_identifier(row + 3 * subgrid_row, col + 3 * subgrid_col, val);
            let ghost k = 3 * (row - 1) + col - 1;
            assert(k / 3 == row - 1 && k % 3 == col - 1);
            subgrid_cnf.push(id);
            assert(subgrid_cnf@ =~= target.subrange(0, k + 1));
            col += 1;
        }
        row += 1;
    }
    assert(subgrid_cnf@ =~= target);
    assert(seq![subgrid_cnf@] =~= av_sub_clause(subgrid_row as int, subgrid_col as int, val - 1));
    push_clause(clauses, subgrid_cnf);
}

fn push_all_values_subgrids(clauses: &mut Vec<Vec<i32>>)
    ensures
        final(clauses).deep_view() == old(clauses).deep_view() + concat_map(3, av_sub_band_fn()),
{
    let ghost start = clauses.deep_view();
    let mut subgrid_row: i32 = 0;
    while subgrid_row <= 2
        invariant
            0 <= subgrid_row <= 3,
            clauses.deep_view() == start + concat_map(subgrid_row as int, av_sub_band_fn()),
        decreases 3 - subgrid_row,
    {
        let ghost band_start = clauses.deep_view();
        let mut subgrid_col: i32 = 0;
        while subgrid_col <= 2
            invariant
                0 <= subgrid_row <= 2,
                0 <= subgrid_col <= 3,
                clauses.deep_view() == band_start + concat_map(
                    subgrid_col as int,
                    av_sub_grid_fn(subgrid_row as int),
                ),
            decreases 3 - subgrid_col,
        {
            let ghost grid_start = clauses.deep_view();
            let mut val: i32 = 1;
            while val <= 9
                invariant
                    0 <= subgrid_row <= 2,
                    0 <= subgrid_col <= 2,
                    1 <= val <= 10,
                    clauses.deep_view() == grid_start + concat_map(
                        val - 1,
                        av_sub_clause_fn(subgrid_row as int, subgrid_col as int),
                    ),
                decreases 10 - val,
            {
                push_all_values_sub_clause(clauses, subgrid_row, subgrid_col, val);
                proof {
                    lemma_concat_map_step(
                        grid_start,
                        val - 1,
                        av_sub_clause_fn(subgrid_row as int, subgrid_col as int),
                    );
                }
                val += 1;
            }
            proof {
                lemma_concat_map_step(band_start, subgrid_col as int, av_sub_grid_fn(subgrid_row as int));
            }
            subgrid_col += 1;
        }
        proof {
            lemma_concat_map_step(start, subgrid_row as int, av_sub_band_fn());
        }
        subgrid_row += 1;
    }
}

fn push_all_values(clauses: &mut Vec<Vec<i32>>)
    ensures
        final(clauses).deep_view() == old(clauses).deep_view() + all_values_clauses(),
{
    let ghost start = clauses.deep_view();
    push_all_values_rows(clauses);
    push_all_values_cols(clauses);
    push_all_values_subgrids(clauses);
    assert(clauses.deep_view() =~= start + all_values_clauses());
}


// -------------------------------------------------------------- unique values
/// The clause "cells (r1, c1) and (r2, c2) do not both hold v0 + 1".
pub open spec fn value_pair(r1: int, c1: int, r2: int, c2: int, v0: int) -> Seq<Seq<i32>> {
    seq![seq![neg(lit(r1, c1, v0 + 1)), neg(lit(r2, c2, v0 + 1))]]
}

pub open spec fn value_pair_fn(r1: int, c1: int, r2: int, c2: int) -> spec_fn(int) -> Seq<Seq<i32>> {
    |v0: int| value_pair(r1, c1, r2, c2, v0)
}

/// For every value: the two cells do not both hold it.
pub open spec fn value_pairs(r1: int, c1: int, r2: int, c2: int) -> Seq<Seq<i32>> {
    concat_map(9, value_pair_fn(r1, c1, r2, c2))
}

pub open spec fn value_pairs_block() -> PairBlock {
    |r1: int, c1: int, r2: int, c2: int| value_pairs(r1, c1, r2, c2)
}

/// "No row, column or sub-grid holds a value twice".
pub open spec fn unique_values_clauses() -> Seq<Seq<i32>> {
    row_pairs(value_pairs_block()) + col_pairs(value_pairs_block()) + sub_pairs(
        value_pairs_block(),
    )
}

fn push_value_pairs(clauses: &mut Vec<Vec<i32>>, row: i32, col: i32, row2: i32, col2: i32)
    requires
        1 <= row <= 9,
        1 <= col <= 9,
        1 <= row2 <= 9,
        1 <= col2 <= 9,
    ensures
        final(clauses).deep_view() == old(clauses).deep_view() + value_pairs(
            row as int,
            col as int,
            row2 as int,
            col2 as int,
        ),
{
    let ghost start = clauses.deep_view();
    let mut val: i32 = 1;
    while val <= 9
        invariant
            1 <= row <= 9,
            1 <= col <= 9,
            1 <= row2 <= 9,
            1 <= col2 <= 9,
            1 <= val <= 10,
            clauses.deep_view() == start + concat_map(
                val - 1,
                value_pair_fn(row as int, col as int, row2 as int, col2 as int),
            ),
        decreases 10 - val,
    {
        let a = -cnf_identifier(row, col, val);
        let b = -cnf_identifier(row2, col2, val);
        let clause = vec![a, b];
        assert(seq![clause@] =~= value_pair(row as int, col as int, row2 as int, col2 as int, val - 1));
        push_clause(clauses, clause);
        proof {
            lemma_concat_map_step(
                start,
                val - 1,
                value_pair_fn(row as int, col as int, row2 as int, col2 as int),
            );
        }
        val += 1;
    }
}

fn push_unique_rows(clauses: &mut Vec<Vec<i32>>)
    ensures
        final(clauses).deep_view() == old(clauses).deep_view() + row_pairs(value_pairs_block()),
{
    let ghost block = value_pairs_block();
    let ghost start = clauses.deep_view();
    let mut row: i32 = 1;
    while row <= 9
        invariant
            1 <= row <= 10,
            block == value_pairs_block(),
            clauses.deep_view() == start + concat_map(row - 1, row_fn(block)),
        decreases 10 - row,
    {
        let ghost row_start = clauses.deep_view();
        let mut col1: i32 = 1;
        while col1 <= 8
            invariant
                1 <= row <= 9,
                1 <= col1 <= 9,
                block == value_pairs_block(),
                clauses.deep_view() == row_start + concat_map(col1 - 1, row_cell_fn(block, row - 1)),
            decreases 9 - col1,
        {
            let ghost cell_start = clauses.deep_view();
            let mut col2: i32 = col1 + 1;
            while col2 <= 9
                invariant
                    1 <= row <= 9,
                    1 <= col1 <= 8,
                    col1 + 1 <= col2 <= 10,
                    block == value_pairs_block(),
                    clauses.deep_view() == cell_start + concat_map(
                        col2 - col1 - 1,
                        row_pair_fn(block, row - 1, col1 - 1),
                    ),
                decreases 10 - col2,
            {
                push_value_pairs(clauses, row, col1, row, col2);
                proof {
                    lemma_concat_map_step(cell_start, col2 - col1 - 1, row_pair_fn(block, row - 1, col1 - 1));
                }
                col2 += 1;
            }
            proof {
                lemma_concat_map_step(row_start, col1 - 1, row_cell_fn(block, row - 1));
            }
            col1 += 1;
        }
        proof {
            lemma_concat_map_empty_last(8, row_cell_fn(block, row - 1));
            lemma_concat_map_step(start, row - 1, row_fn(block));
        }
        row += 1;
    }
}

fn push_unique_cols(clauses: &mut Vec<Vec<i32>>)
    ensures
        final(clauses).deep_view() == old(clauses).deep_view() + col_pairs(value_pairs_block()),
{
    let ghost block = value_pairs_block();
    let ghost start = clauses.deep_view();
    let mut col: i32 = 1;
    while col <= 9
        invariant
            1 <= col <= 10,
            block == value_pairs_block(),
            clauses.deep_view() == start + concat_map(col - 1, col_fn(block)),
        decreases 10 - col,
    {
        let ghost col_start = clauses.deep_view();
        let mut row1: i32 = 1;
        while row1 <= 8
            invariant
                1 <= col <= 9,
                1 <= row1 <= 9,
                block == value_pairs_block(),
                clauses.deep_view() == col_start + concat_map(row1 - 1, col_cell_fn(block, col - 1)),
            decreases 9 - row1,
        {
            let ghost cell_start = clauses.deep_view();
            let mut row2: i32 = row1 + 1;
            while row2 <= 9
                invariant
                    1 <= col <= 9,
                    1 <= row1 <= 8,
                    row1 + 1 <= row2 <= 10,
                    block == value_pairs_block(),
                    clauses.deep_view() == cell_start + concat_map(
                        row2 - row1 - 1,
                        col_pair_fn(block, col - 1, row1 - 1),
                    ),
                decreases 10 - row2,
            {
                push_value_pairs(clauses, row1, col, row2, col);
                proof {
                    lemma_concat_map_step(cell_start, row2 - row1 - 1, col_pair_fn(block, col - 1, row1 - 1));
                }
                row2 += 1;
            }
            proof {
                lemma_concat_map_step(col_start, row1 - 1, col_cell_fn(block, col - 1));
            }
            row1 += 1;
        }
        proof {
            lemma_concat_map_empty_last(8, col_cell_fn(block, col - 1));
            lemma_concat_map_step(start, col - 1, col_fn(block));
        }
        col += 1;
    }
}

fn push_unique_subgrid(clauses: &mut Vec<Vec<i32>>, subgrid_row: i32, subgrid_col: i32)
    requires
        0 <= subgrid_row <= 2,
        0 <= subgrid_col <= 2,
    ensures
        final(clauses).deep_view() == old(clauses).deep_view() + sub_pairs_of_grid(
            value_pairs_block(),
            subgrid_row as int,
            subgrid_col as int,
        ),
{
    let ghost block = value_pairs_block();
    let ghost start = clauses.deep_view();
    let mut index1: i32 = 0;
    while index1 < 9
        invariant
            0 <= subgrid_row <= 2,
            0 <= subgrid_col <= 2,
            0 <= index1 <= 9,
            block == value_pairs_block(),
            clauses.deep_view() == start + concat_map(
                index1 as int,
                sub_cell_fn(block, subgrid_row as int, subgrid_col as int),
            ),
        decreases 9 - index1,
    {
        let ghost cell_start = clauses.deep_view();
        let mut index2: i32 = index1 + 1;
        while index2 < 9
            invariant
                0 <= subgrid_row <= 2,
                0 <= subgrid_col <= 2,
                0 <= index1 < 9,
                index1 + 1 <= index2 <= 9,
                block == value_pairs_block(),
                clauses.deep_view() == cell_start + concat_map(
                    index2 - index1 - 1,
                    sub_pair_fn(block, subgrid_row as int, subgrid_col as int, index1 as int),
                ),
            decreases 9 - index2,
        {
            let row = 1 + subgrid_row * 3 + index1 % 3;
            let col = 1 + subgrid_col * 3 + index1 / 3;
            let row2 = 1 + subgrid_row * 3 + index2 % 3;
            let col2 = 1 + subgrid_col * 3 + index2 / 3;
            push_value_pairs(clauses, row, col, row2, col2);
            proof {
                lemma_concat_map_step(
                    cell_start,
                    index2 - index1 - 1,
                    sub_pair_fn(block, subgrid_row as int, subgrid_col as int, index1 as int),
                );
            }
            index2 += 1;
        }
        proof {
            lemma_concat_map_step(start, index1 as int, sub_cell_fn(block, subgrid_row as int, subgrid_col as int));
        }
        index1 += 1;
    }
}

fn push_unique_subgrids(clauses: &mut Vec<Vec<i32>>)
    ensures
        final(clauses).deep_view() == old(clauses).deep_view() + sub_pairs(value_pairs_block()),
{
    let ghost block = value_pairs_block();
    let ghost start = clauses.deep_view();
    let mut subgrid_row: i32 = 0;
    while subgrid_row <= 2
        invariant
            0 <= subgrid_row <= 3,
            block == value_pairs_block(),
            clauses.deep_view() == start + concat_map(subgrid_row as int, sub_band_fn(block)),
        decreases 3 - subgrid_row,
    {
        let ghost band_start = clauses.deep_view();
        let mut subgrid_col: i32 = 0;
        while subgrid_col <= 2
            invariant
                0 <= subgrid_row <= 2,
                0 <= subgrid_col <= 3,
                block == value_pairs_block(),
                clauses.deep_view() == band_start + concat_map(
                    subgrid_col as int,
                    sub_grid_fn(block, subgrid_row as int),
                ),
            decreases 3 - subgrid_col,
        {
            push_unique_subgrid(clauses, subgrid_row, subgrid_col);
            proof {
                lemma_concat_map_step(band_start, subgrid_col as int, sub_grid_fn(block, subgrid_row as int));
            }
            subgrid_col += 1;
        }
        proof {
            lemma_concat_map_step(start, subgrid_row as int, sub_band_fn(block));
        }
        subgrid_row += 1;
    }
}

fn push_unique_values(clauses: &mut Vec<Vec<i32>>)
    ensures
        final(clauses).deep_view() == old(clauses).deep_view() + unique_values_clauses(),
{
    let ghost start = clauses.deep_view();
    push_unique_rows(clauses);
    push_unique_cols(clauses);
    push_unique_subgrids(clauses);
    assert(clauses.deep_view() =~= start + unique_values_clauses());
}


// ---------------------------------------------------------------------- clues
/// The unit clause for the clue in cell (r, c) of the grid (0-based), if any.
pub open spec fn clue_cell(clues: Seq<Vec<Option<i32>>>, r: int, c: int) -> Seq<Seq<i32>> {
    match clues[r]@[c] {
        Some(v) => seq![seq![lit(r + 1, c + 1, v as int)]],
        None => Seq::empty(),
    }
}

pub open spec fn clue_cell_fn(clues: Seq<Vec<Option<i32>>>, r: int) -> spec_fn(int) -> Seq<Seq<i32>> {
    |c: int| clue_cell(clues, r, c)
}

pub open spec fn clue_row(clues: Seq<Vec<Option<i32>>>, r: int) -> Seq<Seq<i32>> {
    concat_map(clues[r]@.len() as int, clue_cell_fn(clues, r))
}

pub open spec fn clue_row_fn(clues: Seq<Vec<Option<i32>>>) -> spec_fn(int) -> Seq<Seq<i32>> {
    |r: int| clue_row(clues, r)
}

/// One unit clause per clue, in row-major order of the grid.
pub open spec fn clue_clauses(clues: Seq<Vec<Option<i32>>>) -> Seq<Seq<i32>> {
    concat_map(clues.len() as int, clue_row_fn(clues))
}

/// The identifiers of all clues can be computed without overflow.
pub open spec fn clues_fit(clues: Seq<Vec<Option<i32>>>) -> bool {
    forall|r: int, c: int|
        0 <= r < clues.len() && 0 <= c < clues[r]@.len() && #[trigger] clues[r]@[c] is Some ==> {
            &&& r < i32::MAX
            &&& c < i32::MAX
            &&& dec_id_fits(r + 1, c + 1, clues[r]@[c]->0 as int)
        }
}

fn push_clues(clauses: &mut Vec<Vec<i32>>, clues: &[Vec<Option<i32>>])
    requires
        clues_fit(clues@),
    ensures
        final(clauses).deep_view() == old(clauses).deep_view() + clue_clauses(clues@),
{
    let ghost start = clauses.deep_view();
    let mut row: usize = 0;
    while row < clues.len()
        invariant
            row <= clues@.len(),
            clues_fit(clues@),
            clauses.deep_view() == start + concat_map(row as int, clue_row_fn(clues@)),
        decreases clues@.len() - row,
    {
        let line = &clues[row];
        let ghost row_start = clauses.deep_view();
        let mut col: usize = 0;
        while col < line.len()
            invariant
                row < clues@.len(),
                *line == clues@[row as int],
                col <= line@.len(),
                clues_fit(clues@),
                clauses.deep_view() == row_start + concat_map(col as int, clue_cell_fn(clues@, row as int)),
            decreases line@.len() - col,
        {
            match line[col] {
                Some(val) => {
                    assert(clues@[row as int]@[col as int] == Some(val));
                    assert(row < i32::MAX && col < i32::MAX);
                    let id = cnf_identifier(row as i32 + 1, col as i32 + 1, val);
                    let clause = vec![id];
                    assert(clause@ =~= seq![id]);
                    assert(id == lit(row + 1, col + 1, val as int));
                    assert(seq![clause@] =~= clue_cell(clues@, row as int, col as int));
                    push_clause(clauses, clause);
                },
                None => {
                    assert(clauses.deep_view() =~= clauses.deep_view() + clue_cell(clues@, row as int, col as int));
                },
            }
            proof {
                lemma_concat_map_step(row_start, col as int, clue_cell_fn(clues@, row as int));
            }
            col += 1;
        }
        proof {
            lemma_concat_map_step(start, row as int, clue_row_fn(clues@));
        }
        row += 1;
    }
}

// ------------------------------------------------------------------ the whole
/// The clauses of the decimal encoding with the chosen rule families and the clues.
pub open spec fn spec_sudoku_to_cnf(
    clues: Seq<Vec<Option<i32>>>,
    cell_at_least_one: bool,
    cell_at_most_one: bool,
    sudoku_has_all_values: bool,
    sudoku_has_unique_values: bool,
) -> Seq<Seq<i32>> {
    (if cell_at_least_one { at_least_one_clauses() } else { Seq::empty() })
        + (if cell_at_most_one { at_most_one_clauses() } else { Seq::empty() })
        + (if sudoku_has_all_values { all_values_clauses() } else { Seq::empty() })
        + (if sudoku_has_unique_values { unique_values_clauses() } else { Seq::empty() })
        + clue_clauses(clues)
}

/// Returns a Vec of CNF clauses (stored as Vec<i32>) which fully
/// encodes the rules of sudoku, and the clues given as an argument.
pub fn sudoku_to_cnf(
    clues: &[Vec<Option<i32>>],
    cell_at_least_one: bool,
    cell_at_most_one: bool,
    sudoku_has_all_values: bool,
    sudoku_has_unique_values: bool,
) -> (clauses: Vec<Vec<i32>>)
    requires
        clues_fit(clues@),
    ensures
        clauses.deep_view() == spec_sudoku_to_cnf(
            clues@,
            cell_at_least_one,
            cell_at_most_one,
            sudoku_has_all_values,
            sudoku_has_unique_values,
        ),
{
    let mut clauses: Vec<Vec<i32>> = Vec::new();
    assert(clauses.deep_view() =~= Seq::<Seq<i32>>::empty());
    if cell_at_least_one {
        push_at_least_one(&mut clauses);
    }
    let ghost s1 = clauses.deep_view();
    assert(s1 =~= (if cell_at_least_one { at_least_one_clauses() } else { Seq::empty() }));
    if cell_at_most_one {
        push_at_most_one(&mut clauses);
    }
    let ghost s2 = clauses.deep_view();
    assert(s2 =~= s1 + (if cell_at_most_one { at_most_one_clauses() } else { Seq::empty() }));
    if sudoku_has_all_values {
        push_all_values(&mut clauses);
    }
    let ghost s3 = clauses.deep_view();
    assert(s3 =~= s2 + (if sudoku_has_all_values { all_values_clauses() } else { Seq::empty() }));
    if sudoku_has_unique_values {
        push_unique_values(&mut clauses);
    }
    let ghost s4 = clauses.deep_view();
    assert(s4 =~= s3 + (if sudoku_has_unique_values { unique_values_clauses() } else { Seq::empty() }));
    push_clues(&mut clauses, clues);
    clauses
}

// ---------------------------------------------------------------- decoding
/// (row, col, val) of an identifier; val is negative for a negative literal.
/// Rust's rounding toward zero is kept, so 0 decodes to (1, 1, 0).
pub open spec fn spec_identifier_to_tuple(identifier: int) -> (int, int, int) {
    let sign = if identifier > 0 { 1int } else { -1int };
    let a = iabs(identifier) - 1;
    (tdiv(a, 81) + 1, tdiv(trem(a, 81), 9) + 1, sign * (trem(a, 9) + 1))
}

/// Reverse CNF-identifier creation
/// Return tuple of (row, col, val) from identifier
/// Val will be negative for negative ids, positive otherwise
pub fn identifier_to_tuple(identifier: i32) -> (t: (i32, i32, i32))
    requires
        identifier != i32::MIN,
    ensures
        (t.0 as int, t.1 as int, t.2 as int) == spec_identifier_to_tuple(identifier as int),
{
    let negation_multiplier: i32 = if identifier > 0 { 1 } else { -1 };
    let a: i32 = if identifier < 0 { -identifier } else { identifier } - 1;
    (a / (9 * 9) + 1, (a % 81) / 9 + 1, negation_multiplier * (a % 9 + 1))
}


/// Decoding the identifier of a variable gives back its row, column and value,
/// and decoding the negated identifier gives the negated value. Identifiers of
/// cells and values in 1..=9 lie in 1..=729.
pub proof fn lemma_identifier_round_trip(row: int, col: int, val: int)
    requires
        1 <= row <= 9,
        1 <= col <= 9,
        1 <= val <= 9,
    ensures
        1 <= spec_cnf_identifier(row, col, val) <= 729,
        spec_identifier_to_tuple(spec_cnf_identifier(row, col, val)) == (row, col, val),
        spec_identifier_to_tuple(-spec_cnf_identifier(row, col, val)) == (row, col, -val),
{
    let a = spec_cnf_identifier(row, col, val) - 1;
    assert(a == (row - 1) * 81 + (col - 1) * 9 + (val - 1));
    assert(a / 81 == row - 1) by (nonlinear_arith)
        requires
            a == (row - 1) * 81 + (col - 1) * 9 + (val - 1),
            1 <= row <= 9,
            1 <= col <= 9,
            1 <= val <= 9,
    ;
    assert(a % 81 == (col - 1) * 9 + (val - 1)) by (nonlinear_arith)
        requires
            a == (row - 1) * 81 + (col - 1) * 9 + (val - 1),
            1 <= row <= 9,
            1 <= col <= 9,
            1 <= val <= 9,
    ;
    assert(((col - 1) * 9 + (val - 1)) / 9 == col - 1) by (nonlinear_arith)
        requires
            1 <= col <= 9,
            1 <= val <= 9,
    ;
    assert(a % 9 == val - 1) by (nonlinear_arith)
        requires
            a == (row - 1) * 81 + (col - 1) * 9 + (val - 1),
            1 <= row <= 9,
            1 <= col <= 9,
            1 <= val <= 9,
    ;
    let id = spec_cnf_identifier(row, col, val);
    assert(iabs(-id) - 1 == a);
    assert(trem(a, 81) == (col - 1) * 9 + (val - 1));
    assert(trem(a, 9) == val - 1);
    assert(-1int * (trem(a, 9) + 1) == -val);
}

/// Different cells or values get different identifiers.
pub proof fn lemma_identifier_injective(row: int, col: int, val: int, row2: int, col2: int, val2: int)
    requires
        1 <= row <= 9,
        1 <= col <= 9,
        1 <= val <= 9,
        1 <= row2 <= 9,
        1 <= col2 <= 9,
        1 <= val2 <= 9,
        (row, col, val) != (row2, col2, val2),
    ensures
        spec_cnf_identifier(row, col, val) != spec_cnf_identifier(row2, col2, val2),
{
    lemma_identifier_round_trip(row, col, val);
    lemma_identifier_round_trip(row2, col2, val2);
}


// --------------------------------------------------------- reading a solution
/// The first value from `val` to 9 whose variable is true in the solver's
/// solution, or -1 when there is none.
pub open spec fn spec_cell_value_from(solver: CadicalSolver, row: int, col: int, val: int) -> int
    decreases 10 - val,
{
    if val > 9 || val < 1 {
        -1
    } else if solver_value(solver, lit(row, col, val)) == Some(true) {
        val
    } else {
        spec_cell_value_from(solver, row, col, val + 1)
    }
}

/// The value of cell (row, col) in the solver's solution.
pub open spec fn spec_cell_value(solver: CadicalSolver, row: int, col: int) -> int {
    spec_cell_value_from(solver, row, col, 1)
}

/// The nine value variables of the cell have identifiers the solver accepts.
pub open spec fn cell_literals_ok(row: int, col: int) -> bool {
    forall|val: int|
        1 <= val <= 9 ==> #[trigger] dec_id_fits(row, col, val) && valid_literal(lit(row, col, val))
}

/// The value of a cell in the solution: the first value whose variable is true, or -1.
pub fn get_cell_value(solver: &CadicalSolver, row: i32, col: i32) -> (value: i32)
    requires
        solver_status(*solver) == Some(true),
        cell_literals_ok(row as int, col as int),
    ensures
        value == spec_cell_value(*solver, row as int, col as int),
{
    let mut val: i32 = 1;
    while val <= 9
        invariant
            1 <= val <= 10,
            solver_status(*solver) == Some(true),
            cell_literals_ok(row as int, col as int),
            spec_cell_value(*solver, row as int, col as int) == spec_cell_value_from(
                *solver,
                row as int,
                col as int,
                val as int,
            ),
        decreases 10 - val,
    {
        assert(dec_id_fits(row as int, col as int, val as int));
        let id = cnf_identifier(row, col, val);
        let v = solver.value(id);
        let is_true = match v {
            Some(b) => b,
            None => false,
        };
        if is_true {
            return val;
        }
        val += 1;
    }
    -1
}

} // verus!
