use sat_step::app_state::EncodingType;
use sat_step::cadical_wrapper::{CadicalCallbackWrapper, CadicalSolver};
use sat_step::sudoku::{clues_from_string, get_empty_sudoku, solve_sudoku, string_from_grid};
use sat_step::{ConstraintList, Trail};

fn sample_sudoku() -> Vec<Vec<Option<i32>>> {
    let text = ".......1.\n\
                4........\n\
                .2.......\n\
                ....5.4.7\n\
                ..8...3..\n\
                ..1.9....\n\
                3..4..2..\n\
                .5.1.....\n\
                ...8.6...\n"
        .to_string();
    clues_from_string(text, ".").unwrap()
}

fn solved_sample() -> Vec<Vec<Option<i32>>> {
    let rows = [
        [6, 9, 3, 7, 8, 4, 5, 1, 2],
        [4, 8, 7, 5, 1, 2, 9, 3, 6],
        [1, 2, 5, 9, 6, 3, 8, 7, 4],
        [9, 3, 2, 6, 5, 1, 4, 8, 7],
        [5, 6, 8, 2, 4, 7, 3, 9, 1],
        [7, 4, 1, 3, 9, 8, 6, 2, 5],
        [3, 1, 9, 4, 7, 5, 2, 6, 8],
        [8, 5, 6, 1, 2, 9, 7, 4, 3],
        [2, 7, 4, 8, 3, 6, 1, 5, 9],
    ];
    rows.iter().map(|row| row.iter().map(|&v| Some(v)).collect()).collect()
}

fn plain_solver() -> CadicalSolver {
    let mut solver = CadicalSolver::new_plain();
    let callback_wrapper = CadicalCallbackWrapper::new(ConstraintList::new(), Trail::new());
    solver.set_callbacks(callback_wrapper.clone());
    solver
}

#[test]
fn test_solve_sudoku_decimal() {
    let sudoku = sample_sudoku();
    let mut solver = plain_solver();

    let encoding = EncodingType::Decimal {
        cell_at_least_one: true,
        cell_at_most_one: true,
        sudoku_has_all_values: true,
        sudoku_has_unique_values: true,
    };
    let solved = solve_sudoku(&sudoku, &mut solver, &encoding).unwrap();
    assert_eq!(solved, solved_sample());
}

#[test]
fn test_solve_sudoku_binary() {
    let sudoku = sample_sudoku();
    let mut solver = plain_solver();

    let solved = solve_sudoku(&sudoku, &mut solver, &EncodingType::Binary).unwrap();
    assert_eq!(solved, solved_sample());
}

#[test]
fn sudoku_test_string_to_clues() {
    let test_sudoku = "..3......\n\
             1........\n\
             .........\n\
             .........\n\
             ..8......\n\
             .........\n\
             ......2..\n\
             .........\n\
             .....6...\n";

    let clues = clues_from_string(test_sudoku.to_owned(), ".").unwrap();
    assert_eq!(clues[0][2], Some(3));
    assert_eq!(clues[1][0], Some(1));
    assert_eq!(clues[4][2], Some(8));
}

#[test]
fn test_string_from_grid() {
    let mut test_vec = vec![vec![<Option<i32>>::None; 9]; 9];
    test_vec[0][0] = Some(1);
    test_vec[1][1] = Some(2);
    test_vec[2][2] = Some(3);
    test_vec[3][3] = Some(4);
    let output_string = string_from_grid(test_vec);

    let test_string = "1........\n\
             .2.......\n\
             ..3......\n\
             ...4.....\n\
             .........\n\
             .........\n\
             .........\n\
             .........\n\
             .........\n";

    assert_eq!(output_string, test_string)
}

#[test]
fn test_string_from_grid_second() {
    let mut test_vec = vec![vec![<Option<i32>>::None; 9]; 9];
    test_vec[0][5] = Some(1);
    test_vec[2][3] = Some(2);
    test_vec[4][7] = Some(3);
    test_vec[7][5] = Some(4);
    let output_string = string_from_grid(test_vec);

    let test_string = ".....1...\n\
             .........\n\
             ...2.....\n\
             .........\n\
             .......3.\n\
             .........\n\
             .........\n\
             .....4...\n\
             .........\n";

    assert_eq!(output_string, test_string)
}

#[test]
fn test_invalid_string_to_sudoku() {
    // Not enough cols
    let sudoku = "...".to_string();
    let result = clues_from_string(sudoku, ".");
    assert!(result.is_err());

    // Second type of error (not enough rows)
    let sudoku2 = ".........\n".to_string();
    let result2 = clues_from_string(sudoku2, ".");
    println!("{result2:?}");
    assert!(result2.is_err());

    // Third type of error (not numbers)
    let sudoku3 = "tlnaoeut.\n\
             .........\n\
             ...2.....\n\
             tetete...\n\
             .......3.\n\
             .........\n\
             .........\n\
             .....4...\n\
             .........\n";
    let result3 = clues_from_string(sudoku3.to_string(), ".");
    assert!(result3.is_err());
}

#[test]
fn test_solve_sudoku_fails() {
    let sudoku_string = ".........\n\
             .........\n\
             ...22....\n\
             .........\n\
             .......3.\n\
             .........\n\
             .........\n\
             .....4...\n\
             .........\n"
        .to_string();
    let sudoku = clues_from_string(sudoku_string, ".").unwrap();
    let mut solver = plain_solver();

    let encoding = EncodingType::Decimal {
        cell_at_least_one: true,
        cell_at_most_one: true,
        sudoku_has_all_values: true,
        sudoku_has_unique_values: true,
    };
    let solved = solve_sudoku(&sudoku, &mut solver, &encoding);
    assert!(solved.is_err());
}

#[test]
fn test_get_empty_sudoku() {
    let sudoku = get_empty_sudoku();
    assert_eq!(sudoku.is_ok(), true);
    if let Ok(sudoku) = sudoku {
        assert_eq!(sudoku[0][0], None);
        assert_eq!(sudoku[8][8], None);
    }
}
