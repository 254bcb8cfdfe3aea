//! Starting over with the sudoku on the grid: what was solved and learned is
//! dropped, a fresh solver takes over, and the grid keeps only its clues.

use vstd::prelude::*;
use crate::app_state::AppState;
use crate::cadical_wrapper::{
    learned_more, solver_clauses, solver_status, stored_learned, stored_trail, trail_view, CadicalCallbackWrapper,
    CadicalSolver,
};
use crate::filtering::{all_indices, constraints_of_cell};
use crate::no_min_literal;
use crate::cnf::CnfVariable;
use crate::filtering::ListFilter;
use crate::grid_view::{
    clear_solved_values, grid_from_values, grid_wf, lemma_grid_dims, map_cells, sudoku_from_option_values,
    unsolved_fn, values_fit, SudokuCell,
};
use crate::sudoku::{empty_grid, get_empty_sudoku};
use crate::{ConstraintList, Trail};

verus! {

/// The state after the filters and pages are set back from `before`: every
/// constraint passes the filters, the map from cells to constraints is
/// built, the pages are back to their defaults and nothing is selected; the
/// encoding and display choices stay.
pub open spec fn reinitialized(before: AppState, after: AppState) -> bool {
    let n = after.filter.constraints_view().len() as int;
    &&& after.wf()
    &&& after.filter.length_set() == all_indices(n).to_set()
    &&& after.filter.cell_set() == all_indices(n).to_set()
    &&& after.filter.has_cell_map()
    &&& forall|row: int, col: int|
        1 <= row <= 9 && 1 <= col <= 9 ==> #[trigger] after.filter.cell_map(row, col)
            == constraints_of_cell(after.filter.constraints_view(), before.encoding, row, col)
    &&& after.max_length_input@ == Seq::<char>::empty()
    &&& after.page_length_input@ == "100"@
    &&& after.little_number_constraints@.len() == 0
    &&& after == (AppState {
        filter: after.filter,
        max_length: None,
        max_length_input: after.max_length_input,
        selected_cell: None,
        clicked_constraint_index: None,
        conflict_literals: None,
        trail: None,
        page_number: 0,
        page_count: 0,
        page_length: 100,
        page_length_input: after.page_length_input,
        filtered_length: 0,
        little_number_constraints: after.little_number_constraints,
        ..before
    })
}

/// The state after starting over from `before`: the learned constraints and
/// trails are gone, and the state is reinitialized.
pub open spec fn started_over(before: AppState, after: AppState) -> bool {
    &&& reinitialized(before, after)
    &&& after.filter.constraints_view() == Seq::<Seq<i32>>::empty()
    &&& after.filter.trails_view().conflict_literals@.len() == 0
    &&& after.filter.trails_view().trail@.len() == 0
}

/// A fresh solver: no clauses and no result yet, and callbacks that hold
/// nothing.
pub open spec fn fresh_solver(solver: CadicalSolver) -> bool {
    &&& solver_clauses(solver) == Seq::<Seq<i32>>::empty()
    &&& solver_status(solver) is None
    &&& stored_learned(solver) == Some(Seq::<Seq<i32>>::empty())
    &&& stored_trail(solver) == Some((Seq::<Seq<i32>>::empty(), Seq::<Seq<i32>>::empty()))
}

/// After starting over, the callbacks the solver holds keep nothing but the
/// clauses learned since, all of them non-empty, and no trails: what
/// `show_learned` then puts in the list is exactly what the solver learned.
pub proof fn lemma_learned_since_start(start: CadicalSolver, now: CadicalSolver)
    requires
        fresh_solver(start),
        learned_more(stored_learned(start), stored_learned(now)),
        stored_trail(now) == stored_trail(start),
    ensures
        stored_learned(now) is Some,
        forall|k: int|
            0 <= k < stored_learned(now)->0.len() ==> (#[trigger] stored_learned(now)->0[k]).len() > 0,
        stored_trail(now) == Some((Seq::<Seq<i32>>::empty(), Seq::<Seq<i32>>::empty())),
{
}

/// Every literal of every clause can be read back as a variable.
fn literals_readable(clauses: &Vec<Vec<i32>>) -> (b: bool)
    ensures
        b == no_min_literal(clauses.deep_view()),
{
    let mut i: usize = 0;
    while i < clauses.len()
        invariant
            i <= clauses@.len(),
            forall|k: int, j: int|
                0 <= k < i && 0 <= j < clauses.deep_view()[k].len() ==> #[trigger] clauses.deep_view()[k][j]
                    != i32::MIN,
        decreases clauses@.len() - i,
    {
        let mut j: usize = 0;
        while j < clauses[i].len()
            invariant
                i < clauses@.len(),
                j <= clauses@[i as int]@.len(),
                forall|k: int, m: int|
                    0 <= k < i && 0 <= m < clauses.deep_view()[k].len() ==> #[trigger] clauses.deep_view()[k][m]
                        != i32::MIN,
                forall|m: int| 0 <= m < j ==> clauses.deep_view()[i as int][m] != i32::MIN,
            decreases clauses@[i as int]@.len() - j,
        {
            if clauses[i][j] == i32::MIN {
                assert(clauses.deep_view()[i as int][j as int] == i32::MIN);
                return false;
            }
            j += 1;
        }
        i += 1;
    }
    true
}

/// Shows what the solver learned: the learned constraints and trails that
/// its callbacks hold become the lists that are filtered and paged, and the
/// state is reinitialized. Nothing changes, and the result is false, when
/// the solver holds no callbacks or a learned literal is `i32::MIN`, which
/// cannot be read back as a variable.
pub fn show_learned(state: &mut AppState, solver: &mut CadicalSolver) -> (shown: bool)
    ensures
        shown == (stored_learned(*old(solver)) is Some && no_min_literal(
            stored_learned(*old(solver))->0,
        )),
        shown ==> {
            &&& reinitialized(*old(state), *final(state))
            &&& Some(final(state).filter.constraints_view()) == stored_learned(*old(solver))
            &&& Some(trail_view(final(state).filter.trails_view())) == stored_trail(*old(solver))
        },
        !shown ==> *final(state) == *old(state),
        solver_clauses(*final(solver)) == solver_clauses(*old(solver)),
        solver_status(*final(solver)) == solver_status(*old(solver)),
        stored_learned(*final(solver)) == stored_learned(*old(solver)),
        stored_trail(*final(solver)) == stored_trail(*old(solver)),
{
    match solver.callbacks() {
        Some(callbacks) => {
            if !literals_readable(callbacks.learned_clauses.borrow()) {
                return false;
            }
            state.filter = ListFilter::new(callbacks.learned_clauses, callbacks.trail);
            // The lists changed, so the reset starts from the first page.
            state.page_count = 0;
            state.reinit();
            true
        },
        None => false,
    }
}

/// Drops what was solved: the learned constraints and trails (and the rows
/// rendered from them) are emptied, the filters and pages are reset, a fresh
/// solver with fresh callbacks replaces the old one, and every cell that is
/// not a clue loses its value; no cell stays fixed.
pub fn reset_cadical_and_solved_sudoku(
    grid: &mut Vec<Vec<SudokuCell>>,
    state: &mut AppState,
    solver: &mut CadicalSolver,
    rendered_constraints: &mut Vec<Vec<CnfVariable>>,
)
    ensures
        final(grid).deep_view() == map_cells(old(grid).deep_view(), unsolved_fn()),
        final(rendered_constraints)@.len() == 0,
        fresh_solver(*final(solver)),
        started_over(*old(state), *final(state)),
{
    state.filter = ListFilter::new(ConstraintList::new(), Trail::new());
    rendered_constraints.clear();
    // The lists are empty, so the reset starts from the first (and only) page.
    state.page_count = 0;
    state.reinit();
    *solver = CadicalSolver::new_plain();
    let callbacks = CadicalCallbackWrapper::new(ConstraintList::new(), Trail::new());
    assert(trail_view(callbacks.trail) =~= (Seq::<Seq<i32>>::empty(), Seq::<Seq<i32>>::empty()));
    solver.set_callbacks(callbacks);
    clear_solved_values(grid);
}

/// The Edit command: starts over, keeping the clues, and edits the sudoku
/// from its top left cell.
pub fn edit_sudoku(
    grid: &mut Vec<Vec<SudokuCell>>,
    state: &mut AppState,
    solver: &mut CadicalSolver,
    rendered_constraints: &mut Vec<Vec<CnfVariable>>,
)
    ensures
        final(grid).deep_view() == map_cells(old(grid).deep_view(), unsolved_fn()),
        final(rendered_constraints)@.len() == 0,
        fresh_solver(*final(solver)),
        started_over(
            *old(state),
            AppState { selected_cell: None, editor_active: old(state).editor_active, ..*final(state) },
        ),
        final(state).selected_cell == Some((1i32, 1i32)),
        final(state).editor_active,
{
    reset_cadical_and_solved_sudoku(grid, state, solver, rendered_constraints);
    state.selected_cell = Some((1, 1));
    state.editor_active = true;
}

/// The New command: starts over with an empty sudoku, edited from its top
/// left cell.
pub fn new_sudoku(
    grid: &mut Vec<Vec<SudokuCell>>,
    state: &mut AppState,
    solver: &mut CadicalSolver,
    rendered_constraints: &mut Vec<Vec<CnfVariable>>,
)
    requires
        grid_wf(old(grid).deep_view()),
    ensures
        final(grid).deep_view() == grid_from_values(
            map_cells(old(grid).deep_view(), unsolved_fn()),
            empty_grid(),
            true,
            old(state).encoding,
            Seq::<i32>::empty(),
        ),
        final(rendered_constraints)@.len() == 0,
        fresh_solver(*final(solver)),
        started_over(
            *old(state),
            AppState { selected_cell: None, editor_active: old(state).editor_active, ..*final(state) },
        ),
        final(state).selected_cell == Some((1i32, 1i32)),
        final(state).editor_active,
{
    state.editor_active = true;
    reset_cadical_and_solved_sudoku(grid, state, solver, rendered_constraints);
    proof {
        lemma_grid_dims(*grid);
    }
    let sudoku = get_empty_sudoku();
    if let Ok(sudoku_vec) = sudoku {
        let no_fixed: Vec<i32> = Vec::new();
        sudoku_from_option_values(grid, &sudoku_vec, true, &state.encoding, &no_fixed);
    }
    state.selected_cell = Some((1, 1));
}

/// The Open command, once a sudoku has been read: its values are entered as
/// clues (`fixed` holds what the solver in use reports as fixed), the
/// learned constraints, trails and rendered rows are emptied, the filters and
/// pages are reset, editing stops, and a fresh solver with fresh callbacks
/// takes over.
pub fn open_sudoku(
    grid: &mut Vec<Vec<SudokuCell>>,
    state: &mut AppState,
    solver: &mut CadicalSolver,
    rendered_constraints: &mut Vec<Vec<CnfVariable>>,
    rendered_trails: &mut Trail,
    sudoku: &Vec<Vec<Option<i32>>>,
    fixed: &Vec<i32>,
)
    requires
        grid_wf(old(grid).deep_view()),
        values_fit(old(grid).deep_view(), sudoku.deep_view(), old(state).encoding),
    ensures
        final(grid).deep_view() == grid_from_values(
            old(grid).deep_view(),
            sudoku.deep_view(),
            true,
            old(state).encoding,
            fixed@,
        ),
        final(rendered_constraints)@.len() == 0,
        final(rendered_trails).conflict_literals@.len() == 0,
        final(rendered_trails).trail@.len() == 0,
        fresh_solver(*final(solver)),
        started_over(*old(state), AppState { editor_active: old(state).editor_active, ..*final(state) }),
        !final(state).editor_active,
{
    state.editor_active = false;
    proof {
        lemma_grid_dims(*grid);
    }
    sudoku_from_option_values(grid, sudoku, true, &state.encoding, fixed);
    state.filter = ListFilter::new(ConstraintList::new(), Trail::new());
    *rendered_constraints = Vec::new();
    *rendered_trails = Trail::new();
    // The lists are empty, so the reset starts from the first (and only) page.
    state.page_count = 0;
    state.reinit();
    *solver = CadicalSolver::new_plain();
    let callbacks = CadicalCallbackWrapper::new(ConstraintList::new(), Trail::new());
    assert(trail_view(callbacks.trail) =~= (Seq::<Seq<i32>>::empty(), Seq::<Seq<i32>>::empty()));
    solver.set_callbacks(callbacks);
}

} // verus!
