use sat_step::app_state::EncodingType;
use sat_step::cadical_wrapper::{CadicalCallbackWrapper, CadicalSolver};
use sat_step::cnf::{binary_encoding, decimal_encoding};
use sat_step::sudoku::{clues_from_string, solve_sudoku};
use sat_step::cnf_converter;
use sat_step::{ConstraintList, Trail};
use std::collections::HashSet;

fn clue_text() -> String {
    "..3......\n\
     1........\n\
     .........\n\
     .........\n\
     ..8......\n\
     .........\n\
     ......2..\n\
     .........\n\
     .....6...\n"
        .to_string()
}

fn plain_solver() -> CadicalSolver {
    let mut solver = CadicalSolver::new_plain();
    let callback_wrapper = CadicalCallbackWrapper::new(ConstraintList::new(), Trail::new());
    solver.set_callbacks(callback_wrapper.clone());
    solver
}

#[test]
fn binary_encoding_test_cnf_converter_respects_clues() {
    let clues = clues_from_string(clue_text(), ".").unwrap();
    let clauses = binary_encoding::sudoku_to_cnf(&clues);

    let result = vec![
        clauses[clauses.len() - 4][0],
        clauses[clauses.len() - 3][0],
        clauses[clauses.len() - 2][0],
        clauses[clauses.len() - 1][0],
    ];

    let expected = vec![
        binary_encoding::cnf_identifier(9, 6, 0),
        -binary_encoding::cnf_identifier(9, 6, 1),
        binary_encoding::cnf_identifier(9, 6, 2),
        -binary_encoding::cnf_identifier(9, 6, 3),
    ];

    assert_eq!(result, expected);
}

#[test]
fn binary_encoding_test_get_cell_value() {
    let sudoku = clues_from_string(clue_text(), ".").unwrap();
    let mut solver = plain_solver();

    solve_sudoku(&sudoku, &mut solver, &EncodingType::Binary).unwrap();

    let cell_value = binary_encoding::get_cell_value(&solver, 1, 3);

    assert_eq!(cell_value, 3)
}

fn overlapping_check(
    cnf_identifier: fn(i32, i32, i32) -> i32,
    eq_cnf_identifier: fn(i32, i32, i32, i32, i32) -> i32,
) {
    let mut identifiers: Vec<i32> = Vec::new();
    let mut identifiers_set: HashSet<i32> = HashSet::new();

    for row in 1..=9 {
        for col in 1..=9 {
            for row2 in 1..=9 {
                for col2 in 1..=9 {
                    for bit in 0..4 {
                        identifiers_set.insert(eq_cnf_identifier(row, col, row2, col2, bit));
                        identifiers.push(eq_cnf_identifier(row, col, row2, col2, bit));
                    }
                }
            }
            for bit in 0..4 {
                identifiers_set.insert(cnf_identifier(row, col, bit));
                identifiers.push(cnf_identifier(row, col, bit));
            }
        }
    }

    assert_eq!(identifiers.len(), identifiers_set.len());
}

#[test]
fn binary_encoding_no_overlapping_identifiers() {
    overlapping_check(binary_encoding::cnf_identifier, binary_encoding::eq_cnf_identifier);
}

#[test]
fn binary_cnf_no_overlapping_identifiers() {
    overlapping_check(binary_encoding::cnf_identifier, binary_encoding::eq_cnf_identifier);
}

fn to_id_and_back_check() {
    assert_eq!((1, 1, 0, true), binary_encoding::identifier_to_tuple(binary_encoding::cnf_identifier(1, 1, 0)));
    assert_eq!((1, 2, 3, true), binary_encoding::identifier_to_tuple(binary_encoding::cnf_identifier(1, 2, 3)));
    assert_eq!((9, 9, 3, true), binary_encoding::identifier_to_tuple(binary_encoding::cnf_identifier(9, 9, 3)));
    assert_eq!((6, 2, 0, false), binary_encoding::identifier_to_tuple(-1 * binary_encoding::cnf_identifier(6, 2, 0)));
}

fn to_eq_id_and_back_check() {
    assert_eq!(
        (1, 1, 1, 1, 0, true),
        binary_encoding::eq_identifier_to_tuple(binary_encoding::eq_cnf_identifier(1, 1, 1, 1, 0))
    );
    assert_eq!(
        (1, 2, 3, 4, 0, true),
        binary_encoding::eq_identifier_to_tuple(binary_encoding::eq_cnf_identifier(1, 2, 3, 4, 0))
    );
    assert_eq!(
        (9, 9, 9, 9, 3, true),
        binary_encoding::eq_identifier_to_tuple(binary_encoding::eq_cnf_identifier(9, 9, 9, 9, 3))
    );
    assert_eq!(
        (6, 2, 8, 2, 0, false),
        binary_encoding::eq_identifier_to_tuple(-1 * binary_encoding::eq_cnf_identifier(6, 2, 8, 2, 0))
    );
}

#[test]
fn binary_encoding_test_to_id_and_back() {
    to_id_and_back_check();
}

#[test]
fn binary_encoding_test_to_eq_id_and_back() {
    to_eq_id_and_back_check();
}

#[test]
fn binary_cnf_test_to_id_and_back() {
    to_id_and_back_check();
}

#[test]
fn binary_cnf_test_to_eq_id_and_back() {
    to_eq_id_and_back_check();
}

#[test]
fn decimal_encoding_test_cnf_converter_respects_clues() {
    let clues = clues_from_string(clue_text(), ".").unwrap();
    let clauses = decimal_encoding::sudoku_to_cnf(&clues, true, true, true, false);

    assert_eq!(clauses[clauses.len() - 1][0], decimal_encoding::cnf_identifier(9, 6, 6));
}

#[test]
fn decimal_encoding_test_to_id_and_back() {
    assert_eq!((1, 1, 1), decimal_encoding::identifier_to_tuple(decimal_encoding::cnf_identifier(1, 1, 1)));
    assert_eq!((1, 2, 3), decimal_encoding::identifier_to_tuple(decimal_encoding::cnf_identifier(1, 2, 3)));
    assert_eq!((9, 9, 9), decimal_encoding::identifier_to_tuple(decimal_encoding::cnf_identifier(9, 9, 9)));
    assert_eq!((6, 2, -8), decimal_encoding::identifier_to_tuple(-1 * decimal_encoding::cnf_identifier(6, 2, 8)));
}

#[test]
fn decimal_encoding_test_get_cell_value() {
    let sudoku = clues_from_string(clue_text(), ".").unwrap();
    let mut solver = plain_solver();

    let encoding = EncodingType::Decimal {
        cell_at_least_one: true,
        cell_at_most_one: true,
        sudoku_has_all_values: true,
        sudoku_has_unique_values: true,
    };
    solve_sudoku(&sudoku, &mut solver, &encoding).unwrap();

    let cell_value2 = decimal_encoding::get_cell_value(&solver, 1, 3);
    assert_eq!(cell_value2, 3)
}

#[test]
fn cnf_converter_test_string_to_clues() {
    let clues = cnf_converter::clues_from_string(clue_text(), ".");
    assert_eq!(clues[0][2], Some(3));
    assert_eq!(clues[1][0], Some(1));
    assert_eq!(clues[4][2], Some(8));
}

#[test]
fn cnf_converter_test_cnf_converter_respects_clues() {
    let clues = cnf_converter::clues_from_string(clue_text(), ".");
    let clauses = cnf_converter::sudoku_to_cnf(&clues);

    assert_eq!(clauses[clauses.len() - 1][0], cnf_converter::cnf_identifier(9, 6, 6));
}

#[test]
fn cnf_converter_test_to_id_and_back() {
    assert_eq!((1, 1, 1), cnf_converter::identifier_to_tuple(cnf_converter::cnf_identifier(1, 1, 1)));
    assert_eq!((1, 2, 3), cnf_converter::identifier_to_tuple(cnf_converter::cnf_identifier(1, 2, 3)));
    assert_eq!((9, 9, 9), cnf_converter::identifier_to_tuple(cnf_converter::cnf_identifier(9, 9, 9)));
    assert_eq!((6, 2, -8), cnf_converter::identifier_to_tuple(-1 * cnf_converter::cnf_identifier(6, 2, 8)));
}
