use sat_step::app_state::{AppState, EncodingType};
use sat_step::cnf::CnfVariable;
use sat_step::grid_view::{
    get_cell, reset_visualization_info, update_binary_conflict_literals, update_binary_trail,
    update_selected_constraint, update_trail_info, SudokuCell,
};
use sat_step::{ConstraintList, Trail};

fn grid_with(values: &[((i32, i32), i32)]) -> Vec<Vec<SudokuCell>> {
    let mut grid = Vec::new();
    for row in 1..=9 {
        let mut cells = Vec::new();
        for col in 1..=9 {
            let value = values.iter().find(|(pos, _)| *pos == (row, col)).map(|(_, v)| *v);
            cells.push(SudokuCell::new(row, col, value, false));
        }
        grid.push(cells);
    }
    grid
}

fn state() -> AppState {
    AppState::new(ConstraintList::_new(vec![]), Trail::new())
}

#[test]
fn reset_shows_values_of_solved_or_clue_cells() {
    let mut grid = grid_with(&[((1, 1), 5), ((1, 2), 6)]);
    grid[0][1].clue = true;
    grid[0][0].little_numbers.push((1, true));
    grid[0][0].part_of_conflict = true;
    reset_visualization_info(&mut grid, false);
    assert!(!grid[0][0].draw_big_number);
    assert!(grid[0][1].draw_big_number);
    assert!(grid[0][0].little_numbers.is_empty());
    assert!(!grid[0][0].part_of_conflict);
    reset_visualization_info(&mut grid, true);
    assert!(grid[0][0].draw_big_number);
    assert!(!grid[1][1].draw_big_number);
}

#[test]
fn selected_constraint_is_drawn_on_its_cells() {
    let mut grid = grid_with(&[((1, 1), 3), ((1, 2), 4), ((2, 2), 6)]);
    reset_visualization_info(&mut grid, true);
    let rendered = vec![vec![
        CnfVariable::Decimal { row: 1, col: 1, value: 3 },
        CnfVariable::Decimal { row: 1, col: 1, value: -4 },
        CnfVariable::Bit { row: 2, col: 2, bit_index: 0, value: true },
        CnfVariable::Equality { row: 1, col: 1, row2: 1, col2: 2, bit_index: 0, equal: true },
        CnfVariable::Equality { row: 1, col: 2, row2: 2, col2: 2, bit_index: 1, equal: false },
    ]];
    let mut st = state();
    st.clicked_constraint_index = Some(0);
    update_selected_constraint(&mut grid, &st, &rendered);
    assert_eq!(grid[0][0].little_numbers, vec![(3, true), (-4, true)]);
    assert!(!grid[0][0].draw_big_number);
    // bit 0 of v - 1 set: 2, 4, 6, 8; the cell holds 6
    assert_eq!(grid[1][1].little_numbers, vec![(2, false), (4, false), (6, true), (8, false)]);
    // 3 and 4: bit 0 of 2 and 3 differ, so "equal" is not underlined
    assert_eq!(grid[0][0].eq_symbols.len(), 1);
    assert_eq!(grid[0][0].eq_symbols[0].0, 'A');
    assert!(!grid[0][0].eq_symbols[0].2);
    assert_eq!(grid[0][1].eq_symbols.len(), 2);
    assert_eq!(grid[0][1].eq_symbols[1].0, 'B');
    // 4 and 6: bit 1 of 3 is set, of 5 clear, so "not equal" is underlined
    assert!(grid[0][1].eq_symbols[1].2);
    assert!(grid[8][8].little_numbers.is_empty());
    assert!(!grid[0][1].draw_big_number);
}

#[test]
fn nothing_is_selected_while_a_trail_is_shown() {
    let mut grid = grid_with(&[((1, 1), 3)]);
    let rendered = vec![vec![CnfVariable::Decimal { row: 1, col: 1, value: 3 }]];
    let mut st = state();
    st.clicked_constraint_index = Some(0);
    st.show_trail = true;
    update_selected_constraint(&mut grid, &st, &rendered);
    assert!(grid[0][0].little_numbers.is_empty());
}

#[test]
fn learned_literals_are_drawn_when_solution_hidden() {
    let mut grid = grid_with(&[]);
    let mut st = state();
    st.show_solved_sudoku = false;
    st.little_number_constraints = vec![CnfVariable::Decimal { row: 9, col: 9, value: 7 }];
    update_selected_constraint(&mut grid, &st, &vec![]);
    assert_eq!(grid[8][8].little_numbers, vec![(7, false)]);
}

#[test]
fn decimal_conflict_and_trail() {
    let mut grid = grid_with(&[((1, 1), 5)]);
    let mut st = state();
    st.show_trail = true;
    st.conflict_literals = Some(vec![CnfVariable::Decimal { row: 1, col: 1, value: 5 }]);
    st.clicked_constraint_index = Some(0);
    st.trail = Some(vec![
        CnfVariable::Decimal { row: 1, col: 1, value: -5 },
        CnfVariable::Decimal { row: 2, col: 1, value: -3 },
        CnfVariable::Decimal { row: 2, col: 1, value: 4 },
        CnfVariable::Decimal { row: 3, col: 3, value: -2 },
    ]);
    update_trail_info(&mut grid, &st);
    assert!(grid[0][0].part_of_conflict);
    // -5 is already there underlined, so the trail does not add it
    assert_eq!(grid[0][0].little_numbers, vec![(-5, true)]);
    // the negative value is hidden by the positive one
    assert_eq!(grid[1][0].little_numbers, vec![(4, false)]);
    // a cell with only negative values keeps them
    assert_eq!(grid[2][2].little_numbers, vec![(-2, false)]);
    assert!(!grid[2][2].draw_big_number);
}

#[test]
fn binary_conflict_keeps_values_allowed_by_negation() {
    let mut grid = grid_with(&[]);
    let mut st = state();
    st.encoding = EncodingType::Binary;
    st.show_trail = true;
    st.conflict_literals = Some(vec![
        CnfVariable::Bit { row: 1, col: 1, bit_index: 0, value: true },
        CnfVariable::Equality { row: 1, col: 1, row2: 1, col2: 2, bit_index: 2, equal: true },
    ]);
    update_binary_conflict_literals(&mut grid, &st);
    // negation: bit 0 of v - 1 clear: 1, 3, 5, 7, 9
    assert_eq!(
        grid[0][0].little_numbers,
        vec![(1, true), (3, true), (5, true), (7, true), (9, true)]
    );
    assert!(grid[0][0].part_of_conflict);
    assert!(grid[0][1].little_numbers.is_empty());
    assert_eq!(grid[0][1].eq_symbols.len(), 1);
    assert_eq!(
        grid[0][1].eq_symbols[0].1,
        CnfVariable::Equality { row: 1, col: 1, row2: 1, col2: 2, bit_index: 2, equal: false }
    );
    assert!(grid[0][1].part_of_conflict);
    assert!(!grid[4][4].part_of_conflict);
}

#[test]
fn binary_trail_narrows_cells() {
    let mut grid = grid_with(&[]);
    let mut st = state();
    st.encoding = EncodingType::Binary;
    st.show_trail = true;
    st.clicked_constraint_index = Some(0);
    st.trail = Some(vec![
        CnfVariable::Bit { row: 2, col: 2, bit_index: 1, value: false },
        CnfVariable::Bit { row: 2, col: 2, bit_index: 0, value: true },
    ]);
    update_binary_trail(&mut grid, &st);
    // bit 1 of v - 1 clear and bit 0 set: v - 1 in {1, 5} so v in {2, 6}
    assert_eq!(grid[1][1].little_numbers, vec![(2, false), (6, false)]);
    assert!(grid[0][0].little_numbers.is_empty());
}

#[test]
fn binary_trail_view_through_update_trail_info() {
    let mut grid = grid_with(&[]);
    let mut st = state();
    st.encoding = EncodingType::Binary;
    st.show_trail = true;
    st.clicked_constraint_index = Some(0);
    st.conflict_literals = Some(vec![CnfVariable::Bit { row: 1, col: 1, bit_index: 3, value: false }]);
    st.trail = Some(vec![CnfVariable::Bit { row: 1, col: 1, bit_index: 0, value: true }]);
    update_trail_info(&mut grid, &st);
    // conflict negation: bit 3 of v - 1 set: only 9; then the trail keeps the
    // even values, which 9 is not, among 1..=9 added
    assert_eq!(grid[0][0].little_numbers, vec![(2, false), (4, false), (6, false), (8, false)]);
}

use sat_step::app_state::PageMove;
use sat_step::grid_view::{
    clear_solved_values, editor_key, get_option_value_sudoku, set_cell, sudoku_from_option_values,
    EditorKey,
};

#[test]
fn values_are_read_and_written_back() {
    let mut grid = grid_with(&[((1, 1), 4)]);
    let fixed = vec![0; 800];
    let mut values = get_option_value_sudoku(&grid);
    assert_eq!(values[0][0], Some(4));
    assert_eq!(values[8][8], None);
    values[8][8] = Some(2);
    values[0][0] = None;
    sudoku_from_option_values(&mut grid, &values, true, &EncodingType::Binary, &fixed);
    assert_eq!(grid[8][8].value, Some(2));
    assert!(grid[8][8].clue);
    assert_eq!(grid[0][0].value, None);
    assert!(!grid[0][0].clue);
    assert_eq!(get_option_value_sudoku(&grid), values);
}

#[test]
fn fixed_cells_are_marked_when_set() {
    let mut grid = grid_with(&[]);
    let encoding = EncodingType::Decimal {
        cell_at_least_one: true,
        cell_at_most_one: false,
        sudoku_has_all_values: false,
        sudoku_has_unique_values: true,
    };
    let mut fixed = vec![0; 800];
    // variable of cell (1, 2) holding 3
    fixed[12] = 1;
    set_cell(&mut grid, &encoding, &fixed, 1, 2, Some(3), false);
    assert!(grid[0][1].fixed);
    assert!(!grid[0][1].clue);
    set_cell(&mut grid, &encoding, &fixed, 1, 3, Some(3), false);
    assert!(!grid[0][2].fixed);
    set_cell(&mut grid, &encoding, &fixed, 1, 2, None, false);
    assert!(!grid[0][1].fixed);
}

#[test]
fn clearing_solution_keeps_clues() {
    let mut grid = grid_with(&[((1, 1), 4), ((2, 2), 5)]);
    grid[0][0].clue = true;
    grid[1][1].fixed = true;
    clear_solved_values(&mut grid);
    assert_eq!(grid[0][0].value, Some(4));
    assert_eq!(grid[1][1].value, None);
    assert!(!grid[1][1].fixed);
}

#[test]
fn editor_keys_move_and_enter() {
    let mut grid = grid_with(&[]);
    let mut st = state();
    let fixed = vec![0; 400];
    st.selected_cell = Some((1, 1));
    assert!(editor_key(&mut grid, &mut st, EditorKey::Left, &fixed));
    assert_eq!(st.selected_cell, Some((1, 1)));
    assert!(editor_key(&mut grid, &mut st, EditorKey::Right, &fixed));
    assert!(editor_key(&mut grid, &mut st, EditorKey::Down, &fixed));
    assert_eq!(st.selected_cell, Some((2, 2)));
    assert!(editor_key(&mut grid, &mut st, EditorKey::Digit(7), &fixed));
    assert_eq!(grid[1][1].value, Some(7));
    assert!(grid[1][1].clue);
    assert!(!editor_key(&mut grid, &mut st, EditorKey::Digit(0), &fixed));
    assert_eq!(grid[1][1].value, Some(7));
    assert!(editor_key(&mut grid, &mut st, EditorKey::Backspace, &fixed));
    assert_eq!(grid[1][1].value, None);
    assert!(!grid[1][1].clue);
    assert!(editor_key(&mut grid, &mut st, EditorKey::Up, &fixed));
    assert_eq!(st.selected_cell, Some((1, 2)));
}

#[test]
fn clicking_a_cell_toggles_its_selection() {
    let mut st = AppState::new(ConstraintList::_new(vec![vec![10], vec![1]]), Trail::new());
    st.click_cell(1, 2);
    assert_eq!(st.selected_cell, Some((1, 2)));
    assert_eq!(st.filter.get_filtered_index_list(), vec![0]);
    st.click_cell(1, 2);
    assert_eq!(st.selected_cell, None);
    assert_eq!(st.filter.get_filtered_index_list(), vec![0, 1]);
}

#[test]
fn page_moves_stay_within_pages() {
    let mut st = state();
    st.page_count = 3;
    assert!(!st.move_page(PageMove::Previous));
    assert!(st.move_page(PageMove::Next));
    assert_eq!(st.page_number, 1);
    assert!(st.move_page(PageMove::Last));
    assert_eq!(st.page_number, 2);
    assert!(!st.move_page(PageMove::Next));
    assert!(st.move_page(PageMove::First));
    assert_eq!(st.page_number, 0);
}

#[test]
fn get_cell_gives_the_cell_to_change() {
    let mut grid = grid_with(&[((4, 7), 2)]);
    let cell = get_cell(&mut grid, 4, 7);
    assert_eq!((cell.row, cell.col, cell.value), (4, 7, Some(2)));
    cell.value = Some(8);
    cell.clue = true;
    assert_eq!(grid[3][6].value, Some(8));
    assert!(grid[3][6].clue);
    assert_eq!(grid[3][5].value, None);
}
