use sat_step::app_state::{AppState, EncodingType};
use sat_step::binary_cnf::{create_tuples_from_constraints, BitVar, EqVar};
use sat_step::cadical_wrapper::{CadicalCallbackWrapper, CadicalSolver};
use sat_step::cnf::{binary_encoding, decimal_encoding, CnfVariable};
use sat_step::cnf_converter;
use sat_step::ctrl_obj::{can_move_down, ConstraintList as ShownList, ControllableObj};
use sat_step::filtering::ListFilter;
use sat_step::sudoku::{clues_from_string, solve_sudoku, string_from_grid};
use sat_step::warning::Warning;
use sat_step::{parse_numeric_input, ConstraintList, Trail};

fn default_decimal() -> EncodingType {
    EncodingType::Decimal {
        cell_at_least_one: true,
        cell_at_most_one: false,
        sudoku_has_all_values: false,
        sudoku_has_unique_values: true,
    }
}

fn sample_text() -> String {
    ".......1.\n4........\n.2.......\n....5.4.7\n..8...3..\n..1.9....\n3..4..2..\n.5.1.....\n...8.6...\n"
        .to_string()
}

fn assert_valid_sudoku(grid: &[Vec<Option<i32>>]) {
    assert_eq!(grid.len(), 9);
    for r in 0..9 {
        assert_eq!(grid[r].len(), 9);
        for c in 0..9 {
            let v = grid[r][c].unwrap();
            assert!((1..=9).contains(&v));
            for c2 in 0..9 {
                if c2 != c {
                    assert_ne!(grid[r][c], grid[r][c2]);
                }
            }
            for r2 in 0..9 {
                if r2 != r {
                    assert_ne!(grid[r][c], grid[r2][c]);
                }
            }
            for r2 in 0..9 {
                for c2 in 0..9 {
                    if (r2, c2) != (r, c) && r2 / 3 == r / 3 && c2 / 3 == c / 3 {
                        assert_ne!(grid[r][c], grid[r2][c2]);
                    }
                }
            }
        }
    }
}

#[test]
fn solved_decimal_grid_is_a_sudoku_keeping_the_clues() {
    let clues = clues_from_string(sample_text(), ".").unwrap();
    let mut solver = CadicalSolver::new_plain();
    let encoding = EncodingType::Decimal {
        cell_at_least_one: true,
        cell_at_most_one: true,
        sudoku_has_all_values: false,
        sudoku_has_unique_values: true,
    };
    let solved = solve_sudoku(&clues, &mut solver, &encoding).unwrap();
    assert_valid_sudoku(&solved);
    for r in 0..9 {
        for c in 0..9 {
            if clues[r][c].is_some() {
                assert_eq!(solved[r][c], clues[r][c]);
            }
        }
    }
}

#[test]
fn solved_default_encoding_grid_is_a_sudoku() {
    let clues = clues_from_string(sample_text(), ".").unwrap();
    let mut solver = CadicalSolver::new_plain();
    let solved = solve_sudoku(&clues, &mut solver, &default_decimal()).unwrap();
    assert_valid_sudoku(&solved);
    for r in 0..9 {
        for c in 0..9 {
            if clues[r][c].is_some() {
                assert_eq!(solved[r][c], clues[r][c]);
            }
        }
    }
}

#[test]
fn solved_binary_grid_keeps_the_clues() {
    let clues = clues_from_string(sample_text(), ".").unwrap();
    let mut solver = CadicalSolver::new_plain();
    let solved = solve_sudoku(&clues, &mut solver, &EncodingType::Binary).unwrap();
    assert_valid_sudoku(&solved);
    for r in 0..9 {
        for c in 0..9 {
            if clues[r][c].is_some() {
                assert_eq!(solved[r][c], clues[r][c]);
            }
        }
    }
}

#[test]
fn solver_status_follows_solving() {
    let clues = clues_from_string(sample_text(), ".").unwrap();
    let mut solver = CadicalSolver::new_plain();
    solver.set_callbacks(CadicalCallbackWrapper::new(ConstraintList::new(), Trail::new()));
    assert_eq!(solver.status(), None);
    solve_sudoku(&clues, &mut solver, &EncodingType::Binary).unwrap();
    assert_eq!(solver.status(), Some(true));
    assert!(solver.callbacks().is_some());
}

#[test]
fn unsolvable_sudoku_reports_failure_message() {
    let text = "11.......\n.........\n.........\n.........\n.........\n.........\n.........\n.........\n.........\n";
    let clues = clues_from_string(text.to_string(), ".").unwrap();
    let mut solver = CadicalSolver::new_plain();
    let result = solve_sudoku(&clues, &mut solver, &default_decimal());
    assert_eq!(result, Err("Solving sudoku failed!".to_string()));
    assert_eq!(solver.status(), Some(false));
}

#[test]
fn page_count_is_rounded_up_division() {
    let constraints = ConstraintList::_new(vec![vec![1]; 3]);
    let mut state = AppState::new(constraints, Trail::new());
    for (len, page, expected) in [(0, 5, 0), (1, 5, 1), (10, 3, 4), (9, 3, 3), (7, 1, 7)] {
        state.filtered_length = len;
        state.page_length = page;
        state.count_pages();
        assert_eq!(state.page_count, expected);
    }
}

#[test]
fn page_number_is_clamped_into_existing_pages() {
    let constraints = ConstraintList::_new(vec![vec![1]; 3]);
    let mut state = AppState::new(constraints, Trail::new());
    state.page_count = 4;
    state.set_page_number(7);
    assert_eq!(state.page_number, 3);
    state.set_page_number(-2);
    assert_eq!(state.page_number, 0);
    state.set_page_number(2);
    assert_eq!(state.page_number, 2);
    state.page_count = 0;
    state.set_page_number(5);
    assert_eq!(state.page_number, 0);
}

#[test]
fn set_page_length_zero_and_garbage_keep_length() {
    let constraints = ConstraintList::_new(vec![vec![1]; 3]);
    let mut state = AppState::new(constraints, Trail::new());
    state.page_length_input = "0".to_string();
    state.set_page_length();
    assert_eq!(state.page_length, 100);
    state.page_length_input = "+7".to_string();
    state.set_page_length();
    assert_eq!(state.page_length, 7);
}

#[test]
fn encoding_names() {
    let constraints = ConstraintList::_new(vec![]);
    let mut state = AppState::new(constraints, Trail::new());
    assert_eq!(state.get_encoding_type(), "Decimal");
    state.encoding = EncodingType::Binary;
    assert_eq!(state.get_encoding_type(), "Binary");
}

#[test]
fn filtered_indices_pass_both_filters() {
    // lengths 1, 2, 1, 3; literal 10 is cell (1, 2) value 1, literal 1 is cell (1, 1) value 1
    let constraints = ConstraintList::_new(vec![vec![10], vec![10, 1], vec![1], vec![10, 10, 10]]);
    let mut filter = ListFilter::new(constraints, Trail::new());
    filter.reinit(&default_decimal());
    filter.by_cell(1, 2);
    assert_eq!(filter.get_filtered_index_list(), vec![0, 1, 3]);
    filter.by_max_length(2);
    assert_eq!(filter.get_filtered_index_list(), vec![0, 1]);
    filter.clear_cell();
    assert_eq!(filter.get_filtered_index_list(), vec![0, 1, 2]);
    // a cell outside the grid leaves the cell filter as it is
    filter.by_cell(1, 2);
    filter.by_cell(0, 10);
    assert_eq!(filter.get_filtered_index_list(), vec![0, 1]);
}

#[test]
fn little_numbers_reach_to_the_end_of_the_page() {
    let constraints = ConstraintList::_new(vec![vec![5], vec![6], vec![7, 8], vec![9]]);
    let filter = ListFilter::new(constraints, Trail::new());
    assert_eq!(filter.get_little_number_constraints(0, 2), vec![5, 6]);
    assert_eq!(filter.get_little_number_constraints(1, 2), vec![5, 6, 9]);
}

#[test]
fn parse_numeric_input_edges() {
    assert_eq!(parse_numeric_input("2147483647"), Some(i32::MAX));
    assert_eq!(parse_numeric_input("2147483648"), None);
    assert_eq!(parse_numeric_input("0"), None);
    assert_eq!(parse_numeric_input("+12"), Some(12));
    assert_eq!(parse_numeric_input("1 "), None);
    assert_eq!(parse_numeric_input("-"), None);
}

#[test]
fn warning_priority_never_rises() {
    let mut warning = Warning::new();
    assert!(!warning.is());
    assert_eq!(warning.banner(), "");
    warning.set(Some("low".to_string()), 5);
    warning.set(Some("lower".to_string()), 6);
    assert_eq!(warning.priority, 5);
    assert_eq!(warning.banner(), "low");
    warning.set(None, 0);
    assert!(!warning.is());
    assert_eq!(warning.priority, 0);
}

#[test]
fn clues_text_edge_cases() {
    // Windows line endings, another empty marker, and a tenth line
    let mut text = String::new();
    for _ in 0..10 {
        text.push_str("1xxxxxxx9\r\n");
    }
    let clues = clues_from_string(text, "x").unwrap();
    assert_eq!(clues.len(), 10);
    assert_eq!(clues[9][0], Some(1));
    assert_eq!(clues[9][1], None);
    assert_eq!(clues[9][8], Some(9));
    // a blank line among nine lines is a row without cells
    let err = clues_from_string(".........\n\n.........\n.........\n.........\n.........\n.........\n.........\n.........\n".to_string(), ".").unwrap_err();
    assert_eq!(err.msg, "Invalid sudoku format!");
    // the converter's reader keeps every line as it reads it
    let rows = cnf_converter::clues_from_string("1.\n\n".to_string(), ".");
    assert_eq!(rows, vec![vec![Some(1), None], vec![]]);
}

#[test]
fn grid_text_writes_any_integer() {
    let grid = vec![vec![Some(-12), None, Some(105)], vec![Some(i32::MIN)]];
    assert_eq!(string_from_grid(grid), "-12.105\n-2147483648\n");
    let wide = vec![vec![Some(1); 12]; 11];
    let text = string_from_grid(wide);
    assert_eq!(text.lines().count(), 9);
    assert!(text.lines().all(|l| l == "111111111"));
}

#[test]
fn identifiers_read_back_over_the_grid() {
    for row in 1..=9 {
        for col in 1..=9 {
            for val in 1..=9 {
                let id = decimal_encoding::cnf_identifier(row, col, val);
                assert!((1..=729).contains(&id));
                assert_eq!(decimal_encoding::identifier_to_tuple(id), (row, col, val));
            }
            for bit in 0..4 {
                let id = binary_encoding::cnf_identifier(row, col, bit);
                assert!((1..=324).contains(&id));
                assert_eq!(binary_encoding::identifier_to_tuple(-id), (row, col, bit, false));
            }
        }
    }
}

#[test]
fn binary_variables_from_identifiers() {
    let id = binary_encoding::cnf_identifier(3, 4, 2);
    let bit = BitVar::new(-id);
    assert_eq!((bit.row, bit.col, bit.bit_index, bit.bit_value), (3, 4, 2, false));
    assert_eq!(bit.to_cnf(), -id);
    let eq_id = binary_encoding::eq_cnf_identifier(1, 2, 3, 4, 1);
    let eq = EqVar::new(eq_id);
    assert_eq!((eq.row, eq.col, eq.row2, eq.col2, eq.bit_index, eq.equal), (1, 2, 3, 4, 1, true));
    assert_eq!(eq.to_cnf(), eq_id);
    let tuples = create_tuples_from_constraints(vec![vec![id, -id], vec![]]);
    assert_eq!(tuples, vec![vec![(3, 4, 2, true), (3, 4, 2, false)], vec![]]);
}

#[test]
fn converter_is_the_full_decimal_encoding() {
    let clues = clues_from_string(sample_text(), ".").unwrap();
    assert_eq!(
        cnf_converter::sudoku_to_cnf(&clues),
        decimal_encoding::sudoku_to_cnf(&clues, true, true, true, false)
    );
    let clauses = decimal_encoding::sudoku_to_cnf(&clues, true, false, false, false);
    assert_eq!(clauses.len(), 81 + 17);
}

#[test]
fn binary_fixed_reads_all_four_bits() {
    let mut fixed = vec![0; 400];
    // cell (1, 1): bits of 6 - 1 = 0b0101
    fixed[1] = 1;
    fixed[2] = -1;
    fixed[3] = 1;
    fixed[4] = -1;
    assert!(EncodingType::Binary.fixed(&fixed, 1, 1, 6));
    assert!(!EncodingType::Binary.fixed(&fixed, 1, 1, 5));
    fixed[4] = 0;
    assert!(!EncodingType::Binary.fixed(&fixed, 1, 1, 6));
    let id = decimal_encoding::cnf_identifier(2, 3, 4) as usize;
    let mut fixed2 = vec![0; 800];
    fixed2[id] = 1;
    assert!(default_decimal().fixed(&fixed2, 2, 3, 4));
    assert!(!default_decimal().fixed(&fixed2, 2, 3, 5));
}

#[test]
fn clicking_a_row_twice_deselects_it() {
    let mut trails = Trail::new();
    trails.push(vec![10], vec![1, 2]);
    trails.push(vec![20], vec![3]);
    let list = ShownList {
        clauses: vec![vec![CnfVariable::Decimal { row: 1, col: 2, value: 1 }]],
        trail: trails,
        combiner: " v ".to_string(),
    };
    let constraints = ConstraintList::_new(vec![vec![10], vec![20]]);
    let mut state = AppState::new(constraints, Trail::new());
    list.clicked(&mut state, 0);
    assert_eq!(list.get_clicked(&state), Some(0));
    assert_eq!(
        state.conflict_literals,
        Some(vec![CnfVariable::Decimal { row: 1, col: 2, value: 1 }])
    );
    assert_eq!(state.trail.as_ref().map(|t| t.len()), Some(2));
    list.move_down(&mut state);
    assert_eq!(state.clicked_constraint_index, Some(1));
    list.move_up(&mut state);
    assert_eq!(state.clicked_constraint_index, Some(0));
    list.clicked(&mut state, 0);
    assert_eq!(state.clicked_constraint_index, None);
    assert_eq!(state.conflict_literals, None);
    assert_eq!(state.trail, None);
    assert_eq!(list.combiner(), " v ");
    assert_eq!(list.clauses(&state).len(), 1);
}

#[test]
fn solved_grid_with_at_most_one_and_all_values_is_a_sudoku() {
    let clues = clues_from_string(sample_text(), ".").unwrap();
    let mut solver = CadicalSolver::new_plain();
    let encoding = EncodingType::Decimal {
        cell_at_least_one: false,
        cell_at_most_one: true,
        sudoku_has_all_values: true,
        sudoku_has_unique_values: false,
    };
    let solved = solve_sudoku(&clues, &mut solver, &encoding).unwrap();
    assert_valid_sudoku(&solved);
    for r in 0..9 {
        for c in 0..9 {
            if clues[r][c].is_some() {
                assert_eq!(solved[r][c], clues[r][c]);
            }
        }
    }
}

#[test]
fn warning_names_incomplete_rules_before_failed_solving() {
    let mut state = AppState::new(ConstraintList::new(), Trail::new());
    let mut solver = CadicalSolver::new_plain();
    state.refresh_warning(&solver);
    assert!(!state.show_warning.is());

    let text = ".........\n.........\n...22....\n.........\n.........\n.........\n.........\n.........\n.........\n";
    let clues = clues_from_string(text.to_string(), ".").unwrap();
    assert!(solve_sudoku(&clues, &mut solver, &state.encoding).is_err());
    state.refresh_warning(&solver);
    assert_eq!(
        state.show_warning.banner(),
        "Solving failed. This may be because the sudoku is unsolveable, or because of an error."
    );
    assert_eq!(state.show_warning.priority, 1);

    state.encoding = EncodingType::Decimal {
        cell_at_least_one: true,
        cell_at_most_one: false,
        sudoku_has_all_values: false,
        sudoku_has_unique_values: false,
    };
    state.refresh_warning(&solver);
    assert_eq!(
        state.show_warning.banner(),
        "Incomplete set of constraints selected for the encoding. This may cause the solving to fail or to produce unexpected results."
    );
    assert_eq!(state.show_warning.priority, 0);

    state.encoding = EncodingType::Binary;
    let fresh = CadicalSolver::new_plain();
    state.refresh_warning(&fresh);
    assert_eq!(state.show_warning.banner(), "");
}

#[test]
fn empty_or_star_page_length_puts_all_rows_on_one_page() {
    let mut state = AppState::new(ConstraintList::new(), Trail::new());
    state.filtered_length = 250;
    state.page_length_input = "*".to_string();
    state.select_page_length();
    assert_eq!(state.page_length_input, "250");
    assert_eq!(state.page_length, 250);
    assert_eq!(state.page_count, 1);

    state.page_length_input = String::new();
    state.filtered_length = 7;
    state.select_page_length();
    assert_eq!(state.page_length_input, "7");
    assert_eq!(state.page_length, 7);

    state.page_length_input = "20".to_string();
    state.filtered_length = 45;
    state.select_page_length();
    assert_eq!(state.page_length, 20);
    assert_eq!(state.page_count, 3);

    // with no rows, "*" becomes "0", which is not a page length
    state.page_length_input = "*".to_string();
    state.filtered_length = 0;
    state.select_page_length();
    assert_eq!(state.page_length_input, "0");
    assert_eq!(state.page_length, 20);
}

#[test]
fn learned_constraints_reach_the_filtered_list() {
    let clues = clues_from_string(sample_text(), ".").unwrap();
    let mut solver = CadicalSolver::new_plain();
    let mut state = AppState::new(ConstraintList::new(), Trail::new());
    // no callbacks yet: nothing to show
    assert!(!sat_step::session::show_learned(&mut state, &mut solver));
    solver.set_callbacks(CadicalCallbackWrapper::new(ConstraintList::new(), Trail::new()));
    solve_sudoku(&clues, &mut solver, &default_decimal()).unwrap();
    let learned = solver.callbacks().unwrap().learned_clauses.clone_constraints();
    assert!(learned.iter().all(|c| !c.is_empty()));
    state.selected_cell = Some((2, 2));
    assert!(sat_step::session::show_learned(&mut state, &mut solver));
    assert_eq!(state.filter.get_filtered_index_list().len(), learned.len());
    assert_eq!(state.selected_cell, None);
    assert_eq!(state.page_length, 100);
}

#[test]
fn unsatisfiable_clues_give_the_error() {
    let mut solver = CadicalSolver::new_plain();
    let text = ".........\n.........\n...22....\n.........\n.........\n.........\n.........\n.........\n.........\n";
    let clues = clues_from_string(text.to_string(), ".").unwrap();
    let r = solve_sudoku(&clues, &mut solver, &EncodingType::Binary);
    assert_eq!(r, Err("Solving sudoku failed!".to_string()));
    assert_eq!(solver.status(), Some(false));
}

#[test]
fn arrow_down_stops_at_page_and_list_ends() {
    let mut state = AppState::new(ConstraintList::new(), Trail::new());
    state.page_length = 10;
    state.filtered_length = 25;
    state.page_count = 3;
    state.page_number = 0;
    assert!(can_move_down(&state, 0));
    assert!(can_move_down(&state, 8));
    assert!(!can_move_down(&state, 9));
    // last page holds rows 20..25, so 25 - 20 - 1 = 4 rows below its first
    state.page_number = 2;
    assert!(can_move_down(&state, 3));
    assert!(!can_move_down(&state, 4));
    assert!(!can_move_down(&state, 24));
}

#[test]
fn possible_values_ignore_unread_bit_index() {
    let eq = CnfVariable::Equality { row: 1, col: 1, row2: 1, col2: 2, bit_index: 40, equal: true };
    assert!(eq.get_possible_numbers().is_empty());
    let bit = CnfVariable::Bit { row: 1, col: 1, bit_index: 40, value: false };
    let (a, b) = bit.get_possible_groups();
    assert!(a.is_empty() && b.is_empty());
}
