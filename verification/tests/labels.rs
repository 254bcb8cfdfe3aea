use sat_step::app_state::{AppState, EncodingType};
use sat_step::cadical_wrapper::CadicalSolver;
use sat_step::cnf::CnfVariable;
use sat_step::grid_view::SudokuCell;
use sat_step::labels::{clause_labels, var_label};
use sat_step::little_symbols::{eq_tooltip_text, little_symbols, LittleSymbol, LittleText, SymbolKind};
use sat_step::session::{edit_sudoku, new_sudoku, open_sudoku, reset_cadical_and_solved_sudoku};
use sat_step::{ConstraintList, Trail};

fn grid_with(values: &[((i32, i32), i32)]) -> Vec<Vec<SudokuCell>> {
    let mut grid = Vec::new();
    for row in 1..=9 {
        let mut cells = Vec::new();
        for col in 1..=9 {
            let value = values.iter().find(|(pos, _)| *pos == (row, col)).map(|(_, v)| *v);
            cells.push(SudokuCell::new(row, col, value, false));
        }
        grid.push(cells);
    }
    grid
}

#[test]
fn decimal_labels_show_value_and_cell() {
    let grid = grid_with(&[((2, 3), 7)]);
    let label = var_label(&grid, &CnfVariable::Decimal { row: 2, col: 3, value: 7 });
    assert_eq!(label.name, "7");
    assert_eq!(label.position, "(2,3)");
    assert!(!label.negated);
    assert!(label.underlined);

    let label = var_label(&grid, &CnfVariable::Decimal { row: 2, col: 3, value: -7 });
    assert_eq!(label.name, "~7");
    assert!(label.negated);
    assert!(!label.underlined);

    // negating a value other than the cell's holds
    let label = var_label(&grid, &CnfVariable::Decimal { row: 2, col: 3, value: -5 });
    assert_eq!(label.name, "~5");
    assert!(label.underlined);

    let label = var_label(&grid, &CnfVariable::Decimal { row: 2, col: 3, value: 5 });
    assert!(!label.underlined);
}

#[test]
fn bit_and_equality_labels() {
    let grid = grid_with(&[((1, 1), 3), ((1, 2), 4)]);
    // value 3 is 2 = 0b10 in the encoding: bit 1 set, bit 0 clear
    let label = var_label(&grid, &CnfVariable::Bit { row: 1, col: 1, bit_index: 1, value: true });
    assert_eq!(label.name, "B1");
    assert_eq!(label.position, "(1,1)");
    assert!(label.underlined);
    assert!(!label.negated);
    let label = var_label(&grid, &CnfVariable::Bit { row: 1, col: 1, bit_index: 0, value: false });
    assert_eq!(label.name, "~B0");
    assert!(label.negated);
    assert!(label.underlined);
    let label = var_label(&grid, &CnfVariable::Bit { row: 1, col: 1, bit_index: 0, value: true });
    assert!(!label.underlined);

    // 3 -> 0b10, 4 -> 0b11: bit 1 equal, bit 0 differs
    let eq = CnfVariable::Equality { row: 1, col: 1, row2: 1, col2: 2, bit_index: 1, equal: true };
    let label = var_label(&grid, &eq);
    assert_eq!(label.name, "EQ1");
    assert_eq!(label.position, "(1,1);(1,2)");
    assert!(label.underlined);
    let ne = CnfVariable::Equality { row: 1, col: 1, row2: 1, col2: 2, bit_index: 0, equal: false };
    let label = var_label(&grid, &ne);
    assert_eq!(label.name, "~EQ0");
    assert!(label.negated);
    assert!(label.underlined);

    let labels = clause_labels(&grid, &vec![eq, ne]);
    assert_eq!(labels.len(), 2);
    assert_eq!(labels[1].name, "~EQ0");
}

fn symbol(text: LittleText, line_break: bool, padded: bool, underlined: bool, kind: SymbolKind) -> LittleSymbol {
    LittleSymbol { text, line_break, padded, underlined, kind }
}

#[test]
fn little_symbols_sorted_as_text_and_laid_out_in_rows() {
    let mut cell = SudokuCell::new(1, 1, None, false);
    let eq = CnfVariable::Equality { row: 1, col: 1, row2: 1, col2: 2, bit_index: 0, equal: true };
    cell.eq_symbols.push(('A', eq, true));
    cell.little_numbers.push((5, false));
    cell.little_numbers.push((-3, true));
    cell.little_numbers.push((12, false));
    cell.little_numbers.push((5, true));
    cell.little_numbers.push((-1, false));
    let symbols = little_symbols(&cell);
    // as text: "-1" < "-3" < "12" < "5"; the repeated 5 appears once
    assert_eq!(
        symbols,
        vec![
            symbol(LittleText::Symbol('A'), false, true, true, SymbolKind::NotANumber),
            symbol(LittleText::Number(-1), false, false, false, SymbolKind::NotPositive),
            symbol(LittleText::Number(-3), false, false, true, SymbolKind::NotPositive),
            symbol(LittleText::Number(12), true, false, false, SymbolKind::Positive),
            symbol(LittleText::Number(5), false, true, true, SymbolKind::Positive),
        ]
    );
}

#[test]
fn empty_cell_has_no_little_symbols() {
    let cell = SudokuCell::new(4, 4, Some(2), true);
    assert!(little_symbols(&cell).is_empty());
}

#[test]
fn reset_edit_new_and_open_start_over() {
    let mut grid = grid_with(&[((1, 1), 5), ((2, 2), 6)]);
    grid[0][0].clue = true;
    grid[1][1].fixed = true;
    let mut state = AppState::new(ConstraintList::_new(vec![vec![1, -2]]), Trail::new());
    state.page_number = 0;
    state.selected_cell = Some((3, 3));
    let mut solver = CadicalSolver::new_plain();
    let mut rendered = vec![vec![CnfVariable::Decimal { row: 1, col: 1, value: 1 }]];

    reset_cadical_and_solved_sudoku(&mut grid, &mut state, &mut solver, &mut rendered);
    assert_eq!(grid[0][0].value, Some(5));
    assert_eq!(grid[1][1].value, None);
    assert!(!grid[1][1].fixed);
    assert!(rendered.is_empty());
    assert_eq!(state.selected_cell, None);
    assert_eq!(state.page_length, 100);
    assert_eq!(solver.status(), None);

    edit_sudoku(&mut grid, &mut state, &mut solver, &mut rendered);
    assert_eq!(state.selected_cell, Some((1, 1)));
    assert!(state.editor_active);
    assert_eq!(grid[0][0].value, Some(5));

    new_sudoku(&mut grid, &mut state, &mut solver, &mut rendered);
    assert!(grid.iter().flatten().all(|c| c.value.is_none() && !c.clue));
    assert_eq!(state.selected_cell, Some((1, 1)));

    let sudoku = vec![vec![Some(4), None, Some(9)]];
    let mut rendered_trails = Trail::new();
    rendered_trails.push(vec![1], vec![2]);
    open_sudoku(&mut grid, &mut state, &mut solver, &mut rendered, &mut rendered_trails, &sudoku, &vec![]);
    assert_eq!(grid[0][0].value, Some(4));
    assert!(grid[0][0].clue);
    assert_eq!(grid[0][2].value, Some(9));
    assert_eq!(grid[0][1].value, None);
    assert!(rendered_trails.is_empty());
    assert!(!state.editor_active);
    assert_eq!(state.encoding, EncodingType::Decimal {
        cell_at_least_one: true,
        cell_at_most_one: false,
        sudoku_has_all_values: false,
        sudoku_has_unique_values: true,
    });
}

#[test]
fn tooltip_explains_equality_symbols() {
    let mut cell = SudokuCell::new(1, 1, None, false);
    let eq = CnfVariable::Equality { row: 1, col: 1, row2: 1, col2: 2, bit_index: 0, equal: true };
    let ne = CnfVariable::Equality { row: 1, col: 1, row2: 2, col2: 1, bit_index: 1, equal: false };
    cell.eq_symbols.push(('A', eq, false));
    cell.eq_symbols.push(('B', ne, true));
    assert_eq!(
        eq_tooltip_text(&cell),
        "The values of the cells marked with A belong to the same set,\n either [2, 4, 6, 8] or [1, 3, 5, 7, 9]\n\nOR\n\nThe value of one cell marked with B belongs to \n[3, 4, 7, 8] and the other to [1, 2, 5, 6, 9]"
    );
    assert_eq!(eq_tooltip_text(&SudokuCell::new(2, 2, None, false)), "");
}
