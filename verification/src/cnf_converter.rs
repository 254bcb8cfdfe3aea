//! A converter to the decimal encoding with the rules that each cell holds
//! at least one and at most one value and that each row, column and sub-grid
//! holds every value, with its identifiers and a reader of the text form.

use vstd::prelude::*;
use crate::cnf::decimal_encoding;
use crate::sudoku::{parse_row, split_lines, text_rows};

verus! {

/// The clauses of the full decimal encoding for the given clues.
pub fn sudoku_to_cnf(clues: &[Vec<Option<i32>>]) -> (clauses: Vec<Vec<i32>>)
    requires
        decimal_encoding::clues_fit(clues@),
    ensures
        clauses.deep_view() == decimal_encoding::spec_sudoku_to_cnf(clues@, true, true, true, false),
{
    decimal_encoding::sudoku_to_cnf(clues, true, true, true, false)
}

/// Creates cnf identifier from sudoku based on row, column and value
/// So every row, column and value combination has a unique identifier
pub fn cnf_identifier(row: i32, col: i32, val: i32) -> (id: i32)
    requires
        decimal_encoding::dec_id_fits(row as int, col as int, val as int),
    ensures
        id == decimal_encoding::spec_cnf_identifier(row as int, col as int, val as int),
{
    decimal_encoding::cnf_identifier(row, col, val)
}

/// Reverse CNF-identifier creation
/// Return tuple of (row, col, val) from identifier
/// Val will be negative for negative ids, positive otherwise
pub fn identifier_to_tuple(identifier: i32) -> (t: (i32, i32, i32))
    requires
        identifier != i32::MIN,
    ensures
        (t.0 as int, t.1 as int, t.2 as int) == decimal_encoding::spec_identifier_to_tuple(
            identifier as int,
        ),
{
    decimal_encoding::identifier_to_tuple(identifier)
}

/// Creates 2d Vec from string to represent clues found in sudoku: one row per
/// line, whatever the number of lines and cells.
pub fn clues_from_string(buf: String, empty_value: &str) -> (clues: Vec<Vec<Option<i32>>>)
    ensures
        clues.deep_view() == text_rows(buf@, empty_value@),
{
    let lines = split_lines(buf.as_str());
    let ghost rows = text_rows(buf@, empty_value@);
    let mut clues: Vec<Vec<Option<i32>>> = Vec::new();
    let mut k: usize = 0;
    while k < lines.len()
        invariant
            k <= lines@.len(),
            lines.deep_view() == crate::sudoku::text_lines(buf@),
            rows == text_rows(buf@, empty_value@),
            clues.deep_view() == rows.take(k as int),
        decreases lines@.len() - k,
    {
        assert(lines@[k as int]@ == crate::sudoku::text_lines(buf@)[k as int]);
        let row_buf = parse_row(&lines[k], empty_value);
        let ghost before = clues.deep_view();
        crate::sudoku::push_row(&mut clues, row_buf);
        assert(clues.deep_view() =~= rows.take(k + 1));
        k += 1;
    }
    assert(clues.deep_view() =~= rows);
    clues
}

} // verus!
