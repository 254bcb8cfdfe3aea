use sat_step::app_state::AppState;
use sat_step::{ConstraintList, Trail};

#[test]
fn test_reinit() {
    let constraints = ConstraintList::_new(vec![vec![0; 10], vec![0; 3], vec![0; 5]]);

    let mut trails = Trail::new();
    for i in 0..3 {
        trails.push(vec![i], vec![i]);
    }

    let mut state = AppState::new(constraints.clone(), trails);

    let (filtered_constraints, filtered_trails) = state.get_filtered();
    assert_eq!(filtered_constraints.len(), 3);
    assert_eq!(filtered_trails.len(), filtered_constraints.len());
    assert_eq!(state.filtered_length, filtered_constraints.len());

    state.page_number = 1;
    state.page_length_input = "2".to_string();
    state.max_length_input = "6".to_string();
    state.filter_by_max_length();
    state.select_cell(2, 3);
    state.filtered_length = 4;

    state.reinit();

    assert_eq!(state.max_length, None);
    assert_eq!(state.max_length_input, String::new());
    assert_eq!(state.selected_cell, None);
    assert_eq!(state.clicked_constraint_index, None);
    assert_eq!(state.page_number, 0);
    assert_eq!(state.page_count, 0);
    assert_eq!(state.page_length, 100);
    assert_eq!(state.page_length_input, "100".to_string());
    assert_eq!(state.filtered_length, 0);

    let (filtered_constraints2, filtered_trails2) = state.get_filtered();
    assert_eq!(filtered_constraints2.len(), 3);
    assert_eq!(filtered_trails2.len(), filtered_constraints2.len());
    assert_eq!(state.filtered_length, filtered_constraints2.len());
}

#[test]
fn app_state_test_filter_by_max_length() {
    let constraints = ConstraintList::_new(vec![vec![0; 10], vec![0; 3], vec![0; 5]]);

    let mut trails = Trail::new();
    for i in 0..3 {
        trails.push(vec![i], vec![i]);
    }

    let mut state = AppState::new(constraints.clone(), trails);

    let (filtered_constraints, filtered_trails) = state.get_filtered();
    assert_eq!(filtered_constraints.len(), 3);
    assert_eq!(filtered_trails.len(), filtered_constraints.len());
    assert_eq!(state.filtered_length, filtered_constraints.len());

    state.clicked_constraint_index = Some(1);
    state.page_number = 1;

    state.max_length_input = "4".to_string();
    state.filter_by_max_length();
    assert_eq!(state.max_length, Some(4));

    let (filtered_constraints2, filtered_trails2) = state.get_filtered();
    assert_eq!(filtered_constraints2.len(), 1);
    assert_eq!(filtered_trails2.len(), filtered_constraints2.len());
    assert_eq!(state.filtered_length, filtered_constraints2.len());

    assert_eq!(state.clicked_constraint_index, None);
    assert_eq!(state.page_number, 0);

    // Invalid input should not change the situation at all
    state.max_length_input = "-1".to_string();
    state.filter_by_max_length();
    let (filtered_constraints3, filtered_trails3) = state.get_filtered();
    assert_eq!(filtered_constraints3.len(), 1);
    assert_eq!(filtered_trails3.len(), filtered_constraints3.len());
    assert_eq!(state.filtered_length, filtered_constraints3.len());
}

#[test]
fn test_select_cell() {
    let constraints = ConstraintList::_new(vec![vec![1], vec![10], vec![10]]);

    let mut trails = Trail::new();
    for i in 0..3 {
        trails.push(vec![i], vec![i]);
    }

    let mut state = AppState::new(constraints.clone(), trails);

    state.clicked_constraint_index = Some(1);
    state.page_number = 1;

    state.select_cell(1, 2);
    let (filtered_constraints, filtered_trails) = state.get_filtered();
    assert_eq!(filtered_constraints.len(), 2);
    assert_eq!(filtered_trails.len(), filtered_constraints.len());
    assert_eq!(state.filtered_length, filtered_constraints.len());
    assert_eq!(state.selected_cell, Some((1, 2)));
    assert_eq!(state.clicked_constraint_index, None);
    assert_eq!(state.page_number, 0);
}

#[test]
fn test_count_pages() {
    let constraints = ConstraintList::_new(vec![vec![0]; 10]);
    let mut state: AppState = AppState::new(constraints, Trail::new());

    assert_eq!(state.page_count, 0);

    state.filtered_length = 10;
    state.count_pages();
    assert_eq!(state.page_count, 1);

    state.page_length_input = "6".to_string();
    state.set_page_length();
    state.count_pages();
    assert_eq!(state.page_count, 2);

    state.page_length_input = "5".to_string();
    state.set_page_length();
    state.count_pages();
    assert_eq!(state.page_count, 2);

    state.page_length_input = "4".to_string();
    state.set_page_length();
    state.count_pages();
    assert_eq!(state.page_count, 3);
}

#[test]
fn test_set_page_length() {
    let constraints = ConstraintList::_new(vec![vec![0]; 10]);

    let mut trails = Trail::new();
    for i in 0..10 {
        trails.push(vec![i], vec![i]);
    }

    let mut state: AppState = AppState::new(constraints, trails);
    state.get_filtered();

    state.page_length_input = "A".to_string();
    state.set_page_length();
    assert_eq!(state.page_length, 100);

    state.page_length_input = "-1".to_string();
    state.set_page_length();
    assert_eq!(state.page_length, 100);

    state.clicked_constraint_index = Some(1);
    state.page_length_input = "3".to_string();
    state.set_page_length();
    assert_eq!(state.page_length, 3);
    assert_eq!(state.page_count, 4);
    assert_eq!(state.clicked_constraint_index, None);
}

#[test]
fn test_set_page_number() {
    let constraints = ConstraintList::_new(vec![vec![0]; 10]);

    let mut trails = Trail::new();
    for i in 0..10 {
        trails.push(vec![i], vec![i]);
    }

    let mut state: AppState = AppState::new(constraints, trails);

    state.get_filtered();

    state.set_page_number(-1);
    assert_eq!(state.page_number, 0);
    state.set_page_number(-5);
    assert_eq!(state.page_number, 0);

    state.set_page_number(1);
    assert_eq!(state.page_number, 0);

    state.page_length_input = "5".to_string();
    state.set_page_length();

    state.clicked_constraint_index = Some(1);
    state.set_page_number(1);
    assert_eq!(state.page_number, 1);
    assert_eq!(state.clicked_constraint_index, None);

    state.set_page_number(2);
    assert_eq!(state.page_number, 1);
}

#[test]
fn test_cell_clearing() {
    let constraints = ConstraintList::_new(vec![vec![1], vec![10], vec![10]]);
    let mut trails = Trail::new();

    for i in 0..3 {
        trails.push(vec![i], vec![i]);
    }

    let mut state = AppState::new(constraints.clone(), trails);

    state.select_cell(1, 1);
    state.clicked_constraint_index = Some(1);
    state.page_number = 1;
    state.clear_cell();

    let (filtered_constraints, filtered_trails) = state.get_filtered();
    assert_eq!(filtered_constraints.len(), 3);
    assert_eq!(filtered_trails.len(), filtered_constraints.len());
    assert_eq!(state.filtered_length, filtered_constraints.len());
    assert_eq!(state.selected_cell, None);
    assert_eq!(state.clicked_constraint_index, None);
    assert_eq!(state.page_number, 0);
}

#[test]
fn test_length_clearing() {
    let constraints = ConstraintList::_new(vec![vec![1; 10], vec![10; 3], vec![10; 3]]);

    let mut trails = Trail::new();
    for i in 0..3 {
        trails.push(vec![i], vec![i]);
    }

    let mut state = AppState::new(constraints.clone(), trails);

    state.max_length_input = "4".to_string();
    state.filter_by_max_length();
    state.clicked_constraint_index = Some(1);
    state.page_number = 1;

    state.clear_length();

    let (filtered_constraints, filtered_trails) = state.get_filtered();
    assert_eq!(filtered_constraints.len(), 3);
    assert_eq!(filtered_trails.len(), filtered_constraints.len());
    assert_eq!(state.filtered_length, filtered_constraints.len());
    assert_eq!(state.max_length, None);
    assert_eq!(state.max_length_input, "".to_string());
    assert_eq!(state.clicked_constraint_index, None);
    assert_eq!(state.page_number, 0);
}

#[test]
fn test_filter_clearing() {
    let constraints = ConstraintList::_new(vec![vec![1; 10], vec![10; 3], vec![10; 3]]);

    let mut trails = Trail::new();
    for i in 0..3 {
        trails.push(vec![i], vec![i]);
    }

    let mut state = AppState::new(constraints.clone(), trails);

    state.max_length_input = "4".to_string();
    state.filter_by_max_length();
    state.select_cell(1, 1);
    state.clicked_constraint_index = Some(1);
    state.page_number = 1;
    state.clear_filters();

    let (filtered_constraints, filtered_trails) = state.get_filtered();
    assert_eq!(filtered_constraints.len(), 3);
    assert_eq!(filtered_trails.len(), filtered_constraints.len());
    assert_eq!(state.filtered_length, filtered_constraints.len());
    assert_eq!(state.selected_cell, None);
    assert_eq!(state.max_length, None);
    assert_eq!(state.max_length_input, "".to_string());
    assert_eq!(state.clicked_constraint_index, None);
    assert_eq!(state.page_number, 0);
}

#[test]
fn app_state_test_paging_system() {
    let constraints = ConstraintList::_new(vec![vec![0]; 10]);
    let mut trails = Trail::new();
    for i in 0..10 {
        trails.push(vec![i], vec![i]);
    }

    let mut state = AppState::new(constraints.clone(), trails);

    state.page_length_input = "6".to_string();
    state.set_page_length();
    let (filtered_constraints, filtered_trails) = state.get_filtered();
    assert_eq!(filtered_constraints.len(), 6);
    assert_eq!(filtered_trails.len(), filtered_constraints.len());
    assert_eq!(state.filtered_length, 10);

    state.set_page_number(1);
    let (filtered_constraints2, filtered_trails2) = state.get_filtered();
    assert_eq!(filtered_constraints2.len(), 4);
    assert_eq!(filtered_trails2.len(), filtered_constraints2.len());
    assert_eq!(state.filtered_length, 10);
}

#[test]
fn test_update_little_number_constraints() {
    let constraints = ConstraintList::_new(vec![vec![0; 10], vec![0; 3], vec![0; 5], vec![0]]);
    let mut state = AppState::new(constraints.clone(), Trail::new());

    state.page_number = 0;
    state.page_length = 50;

    state.update_little_number_constraints();

    assert_eq!(state.little_number_constraints.len(), 1);
}

#[test]
fn test_update_little_number_constraints_many_literals() {
    let constraints =
        ConstraintList::_new(vec![vec![0; 10], vec![0], vec![0; 3], vec![0; 5], vec![0]]);
    let mut state = AppState::new(constraints.clone(), Trail::new());

    state.page_number = 0;
    state.page_length = 50;

    state.update_little_number_constraints();

    assert_eq!(state.little_number_constraints.len(), 2);
}

#[test]
fn test_update_little_number_constraints_no_literals() {
    let constraints = ConstraintList::_new(vec![vec![0; 10], vec![0; 3], vec![0; 5]]);
    let mut state = AppState::new(constraints.clone(), Trail::new());

    state.page_number = 0;
    state.page_length = 50;

    state.update_little_number_constraints();

    assert_eq!(state.little_number_constraints.len(), 0);
}
