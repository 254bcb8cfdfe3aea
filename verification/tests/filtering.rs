use sat_step::app_state::EncodingType;
use sat_step::filtering::ListFilter;
use sat_step::{ConstraintList, Trail};

fn three_trails() -> Trail {
    let mut trails = Trail::new();
    for i in 0..3 {
        trails.push(vec![i], vec![i]);
    }
    trails
}

#[test]
fn filtering_test_filter_by_max_length() {
    let constraints = ConstraintList::_new(vec![vec![0; 10], vec![0; 3], vec![0; 5]]);

    let mut filter: ListFilter = ListFilter::new(constraints.clone(), three_trails());

    filter.by_max_length(4);
    let (filtered_constraints, filtered_trails, filtered_length) = filter.get_filtered(0, 50);
    assert_eq!(filtered_constraints.len(), 1);
    assert_eq!(filtered_trails.len(), filtered_constraints.len());
    assert_eq!(filtered_length, filtered_constraints.len());

    filter.by_max_length(5);
    let (filtered_constraints2, filtered_trails2, filtered_length2) = filter.get_filtered(0, 50);
    assert_eq!(filtered_constraints2.len(), 2);
    assert_eq!(filtered_trails2.len(), filtered_constraints2.len());
    assert_eq!(filtered_length2, filtered_constraints2.len());

    filter.by_max_length(1);
    let (filtered_constraints3, filtered_trails3, filtered_length3) = filter.get_filtered(0, 50);
    assert_eq!(filtered_constraints3.len(), 0);
    assert_eq!(filtered_trails3.len(), filtered_constraints3.len());
    assert_eq!(filtered_length3, filtered_constraints3.len());
}

#[test]
fn test_filter_by_cell_decimal() {
    let constraints = ConstraintList::_new(vec![vec![1; 10], vec![10; 3], vec![10; 3]]);

    let mut filter: ListFilter = ListFilter::new(constraints.clone(), three_trails());

    let encoding = EncodingType::Decimal {
        cell_at_least_one: true,
        cell_at_most_one: true,
        sudoku_has_all_values: true,
        sudoku_has_unique_values: true,
    };
    filter.reinit(&encoding);

    filter.by_cell(1, 1);
    let (filtered_constraints, filtered_trails, filtered_length) = filter.get_filtered(0, 50);
    assert_eq!(filtered_constraints.len(), 1);
    assert_eq!(filtered_trails.len(), filtered_constraints.len());
    assert_eq!(filtered_length, filtered_constraints.len());

    filter.by_cell(1, 2);
    let (filtered_constraints2, filtered_trails2, filtered_length2) = filter.get_filtered(0, 50);
    assert_eq!(filtered_constraints2.len(), 2);
    assert_eq!(filtered_trails2.len(), filtered_constraints2.len());
    assert_eq!(filtered_length2, filtered_constraints2.len());

    filter.by_cell(2, 2);
    let (filtered_constraints3, filtered_trails3, filtered_length3) = filter.get_filtered(0, 50);
    assert_eq!(filtered_constraints3.len(), 0);
    assert_eq!(filtered_trails3.len(), filtered_constraints3.len());
    assert_eq!(filtered_length3, filtered_constraints3.len());
}

#[test]
fn test_filter_by_cell_binary() {
    let constraints = ConstraintList::_new(vec![vec![1; 10], vec![5; 3], vec![5; 3]]);

    let mut filter: ListFilter = ListFilter::new(constraints.clone(), three_trails());

    filter.reinit(&EncodingType::Binary);

    filter.by_cell(1, 1);
    let (filtered_constraints, filtered_trails, filtered_length) = filter.get_filtered(0, 50);
    assert_eq!(filtered_constraints.len(), 1);
    assert_eq!(filtered_trails.len(), filtered_constraints.len());
    assert_eq!(filtered_length, filtered_constraints.len());

    filter.by_cell(1, 2);
    let (filtered_constraints2, filtered_trails2, filtered_length2) = filter.get_filtered(0, 50);
    assert_eq!(filtered_constraints2.len(), 2);
    assert_eq!(filtered_trails2.len(), filtered_constraints2.len());
    assert_eq!(filtered_length2, filtered_constraints2.len());

    filter.by_cell(2, 2);
    let (filtered_constraints3, filtered_trails3, filtered_length3) = filter.get_filtered(0, 50);
    assert_eq!(filtered_constraints3.len(), 0);
    assert_eq!(filtered_trails3.len(), filtered_constraints3.len());
    assert_eq!(filtered_length3, filtered_constraints3.len());
}

#[test]
fn test_clear_filters_and_multiple_filters() {
    let constraints = ConstraintList::_new(vec![vec![1; 10], vec![1; 3], vec![10; 3]]);

    let mut filter: ListFilter = ListFilter::new(constraints.clone(), three_trails());

    let encoding = EncodingType::Decimal {
        cell_at_least_one: true,
        cell_at_most_one: true,
        sudoku_has_all_values: true,
        sudoku_has_unique_values: true,
    };
    filter.reinit(&encoding);

    filter.by_cell(1, 1);
    let (filtered_constraints, filtered_trails, filtered_length) = filter.get_filtered(0, 50);
    assert_eq!(filtered_constraints.len(), 2);
    assert_eq!(filtered_trails.len(), filtered_constraints.len());
    assert_eq!(filtered_length, filtered_constraints.len());

    filter.by_max_length(3);
    let (filtered_constraints2, filtered_trails2, filtered_length2) = filter.get_filtered(0, 50);
    assert_eq!(filtered_constraints2.len(), 1);
    assert_eq!(filtered_trails2.len(), filtered_constraints2.len());
    assert_eq!(filtered_length2, filtered_constraints2.len());

    filter.clear_cell();
    let (cleared_constraints, cleared_trails, cleared_length) = filter.get_filtered(0, 50);
    assert_eq!(cleared_constraints.len(), 2);
    assert_eq!(cleared_trails.len(), cleared_constraints.len());
    assert_eq!(cleared_length, cleared_constraints.len());

    filter.clear_length();
    let (cleared_constraints2, cleared_trails2, cleared_length2) = filter.get_filtered(0, 50);
    assert_eq!(cleared_constraints2.len(), 3);
    assert_eq!(cleared_trails2.len(), cleared_constraints2.len());
    assert_eq!(cleared_length2, cleared_constraints2.len());

    let _ = filter.by_cell(1, 1);
    filter.by_max_length(3);
    let (filtered_constraints3, filtered_trails3, filtered_length3) = filter.get_filtered(0, 50);
    assert_eq!(filtered_constraints3.len(), 1);
    assert_eq!(filtered_trails3.len(), filtered_constraints3.len());
    assert_eq!(filtered_length3, filtered_constraints3.len());

    filter.clear_length();
    filter.clear_cell();
    let (cleared_constraints3, cleared_trails3, cleared_length3) = filter.get_filtered(0, 50);
    assert_eq!(cleared_constraints3.len(), 3);
    assert_eq!(cleared_trails3.len(), cleared_constraints3.len());
    assert_eq!(cleared_length3, cleared_constraints3.len());
}

#[test]
fn filtering_test_paging_system() {
    let constraints = ConstraintList::_new(vec![vec![0]; 10]);

    let mut trails = Trail::new();
    for i in 0..10 {
        trails.push(vec![i], vec![i]);
    }

    let mut filter: ListFilter = ListFilter::new(constraints.clone(), trails);

    let (filtered_constraints, filtered_trails, filtered_length) = filter.get_filtered(0, 50);
    assert_eq!(filtered_constraints.len(), 10);
    assert_eq!(filtered_trails.len(), filtered_constraints.len());
    assert_eq!(filtered_length, 10);

    let (filtered_constraints2, filtered_trails2, filtered_length2) = filter.get_filtered(0, 6);
    assert_eq!(filtered_constraints2.len(), 6);
    assert_eq!(filtered_trails2.len(), filtered_constraints2.len());
    assert_eq!(filtered_length2, 10);

    let (filtered_constraints3, filtered_trails3, filtered_length3) = filter.get_filtered(1, 6);
    assert_eq!(filtered_constraints3.len(), 4);
    assert_eq!(filtered_trails3.len(), filtered_constraints3.len());
    assert_eq!(filtered_length3, 10);
}

#[test]
fn test_get_little_number_constraints() {
    let constraints = ConstraintList::_new(vec![vec![0]; 10]);
    let filter: ListFilter = ListFilter::new(constraints.clone(), Trail::new());

    let filtered_little_number_constraints = filter.get_little_number_constraints(0, 50);
    assert_eq!(filtered_little_number_constraints.len(), 10);
}

#[test]
fn test_get_no_little_number_constraints() {
    let constraints = ConstraintList::_new(vec![vec![0, 0]; 10]);
    let filter: ListFilter = ListFilter::new(constraints.clone(), Trail::new());

    let filtered_little_number_constraints = filter.get_little_number_constraints(0, 50);
    assert_eq!(filtered_little_number_constraints.len(), 0);
}

#[test]
fn test_get_two_little_number_constraints() {
    let constraints =
        ConstraintList::_new(vec![vec![0; 10], vec![0], vec![0; 3], vec![0; 5], vec![0]]);
    let filter: ListFilter = ListFilter::new(constraints.clone(), Trail::new());

    let filtered_little_number_constraints = filter.get_little_number_constraints(0, 50);
    assert_eq!(filtered_little_number_constraints.len(), 2);
}

#[test]
fn test_get_index_index_list() {
    let constraints =
        ConstraintList::_new(vec![vec![0; 10], vec![0], vec![0; 3], vec![0; 5], vec![0]]);
    let filter: ListFilter = ListFilter::new(constraints.clone(), Trail::new());

    let index_list = filter.get_filtered_index_list();
    assert_eq!(index_list, vec![0, 1, 2, 3, 4]);
}

#[test]
fn test_get_filtered_index_list() {
    let constraints =
        ConstraintList::_new(vec![vec![0; 10], vec![0], vec![0; 3], vec![0; 5], vec![0]]);
    let mut filter: ListFilter = ListFilter::new(constraints.clone(), Trail::new());

    filter.by_max_length(1);

    let index_list = filter.get_filtered_index_list();
    assert_eq!(index_list, vec![1, 4]);
}

#[test]
fn test_get_empty_filtered_index_list() {
    let constraints = ConstraintList::_new(vec![vec![0; 10], vec![0; 3], vec![0; 5]]);
    let mut filter: ListFilter = ListFilter::new(constraints.clone(), Trail::new());

    filter.by_max_length(1);

    let index_list = filter.get_filtered_index_list();
    assert_eq!(index_list, Vec::<usize>::new());
}
