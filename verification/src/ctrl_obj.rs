//! Lists shown in the gui (constraints or conflicts) and what selecting their
//! rows does to the app state.

use vstd::prelude::*;
use crate::app_state::{no_min, vars_of, AppState};
use crate::cnf::CnfVariable;
use crate::Trail;

verus! {

/// Entry `i` of the trails exists and its literals can be read as variables.
pub open spec fn can_select(trails: Trail, i: int) -> bool {
    &&& 0 <= i < trails.trail@.len()
    &&& i < trails.conflict_literals@.len()
    &&& no_min(trails.trail@[i]@)
    &&& no_min(trails.conflict_literals@[i]@)
}

/// What clicking row `i` does: clicking the selected row again clears the
/// selection and the shown trail; clicking another row selects it and shows
/// its conflict literals and trail as variables of the encoding. Nothing else
/// in the state changes.
pub open spec fn clicked_state(before: AppState, after: AppState, trails: Trail, i: int) -> bool {
    if before.clicked_constraint_index == Some(i as usize) {
        after == (AppState { clicked_constraint_index: None, conflict_literals: None, trail: None, ..before })
    } else {
        &&& after.conflict_literals matches Some(c) && c@ == vars_of(
            trails.conflict_literals@[i]@,
            before.encoding,
        )
        &&& after.trail matches Some(t) && t@ == vars_of(trails.trail@[i]@, before.encoding)
        &&& after == (AppState {
            clicked_constraint_index: Some(i as usize),
            conflict_literals: after.conflict_literals,
            trail: after.trail,
            ..before
        })
    }
}

/// The row selected in the state, or the first row when none is.
pub open spec fn current_row(state: AppState) -> int {
    match state.clicked_constraint_index {
        Some(i) => i as int,
        None => 0,
    }
}

/// How many rows the page being shown holds below its first one: the page
/// length, except on a last page that is not full, where it is the number of
/// rows left on it minus one.
pub open spec fn current_page_length(state: AppState) -> int {
    if state.page_number + 1 == state.page_count && state.filtered_length % state.page_length != 0 {
        state.filtered_length - (state.page_count - 1) * state.page_length - 1
    } else {
        state.page_length as int
    }
}

/// Whether the ArrowDown key may move the selection below `row`: the row is
/// not the last filtered one, not the last one of its page, and lies within
/// the rows of the page being shown.
pub open spec fn down_allowed(state: AppState, row: int) -> bool {
    &&& row < state.filtered_length - 1
    &&& row % (state.page_length as int) < state.page_length - 1
    &&& row < current_page_length(state)
}

/// Decides whether the selection may move down from `current_row`.
pub fn can_move_down(state: &AppState, current_row: usize) -> (r: bool)
    requires
        state.page_length > 0,
        state.filtered_length > 0,
        state.page_number < i32::MAX,
        state.page_number + 1 == state.page_count && state.filtered_length % state.page_length
            != 0 ==> state.page_count >= 1 && (state.page_count - 1) * state.page_length + 1
            <= state.filtered_length,
    ensures
        r == down_allowed(*state, current_row as int),
{
    let mut page_rows: usize = state.page_length;
    if state.page_number + 1 == state.page_count && state.filtered_length % state.page_length != 0 {
        let full: usize = state.page_count as usize - 1;
        assert(full == state.page_count - 1);
        let before: usize = full * state.page_length;
        page_rows = state.filtered_length - before - 1;
    }
    current_row < state.filtered_length - 1 && current_row % state.page_length < state.page_length
        - 1 && current_row < page_rows
}

/// Trait for listed data e.g. constraints or conflicts
/// Replaces calls to specific lists in gui code
pub trait ControllableObj {
    /// The trails that belong to the rows, entry by entry.
    spec fn row_trails(&self) -> Trail;

    /// The rows of the list, as variables.
    spec fn rows(&self) -> Seq<Seq<CnfVariable>>;

    /// The text that joins the variables of a row.
    spec fn combiner_text(&self) -> Seq<char>;

    fn clicked(&self, state: &mut AppState, i: usize)
        requires
            old(state).clicked_constraint_index == Some(i) || can_select(self.row_trails(), i as int),
        ensures
            clicked_state(*old(state), *final(state), self.row_trails(), i as int),
    ;

    fn get_clicked(&self, state: &AppState) -> (r: Option<usize>)
        ensures
            r == state.clicked_constraint_index,
    ;

    fn clauses(&self, state: &AppState) -> (r: Vec<Vec<CnfVariable>>)
        ensures
            r.deep_view() == self.rows(),
    ;

    fn combiner(&self) -> (r: String)
        ensures
            r@ == self.combiner_text(),
    ;

    /// Clicks the row above the selected one.
    fn move_up(&self, state: &mut AppState)
        requires
            current_row(*old(state)) >= 1,
            old(state).clicked_constraint_index == Some((current_row(*old(state)) - 1) as usize)
                || can_select(self.row_trails(), current_row(*old(state)) - 1),
        ensures
            clicked_state(
                *old(state),
                *final(state),
                self.row_trails(),
                current_row(*old(state)) - 1,
            ),
    ;

    /// Clicks the row below the selected one.
    fn move_down(&self, state: &mut AppState)
        requires
            current_row(*old(state)) < usize::MAX,
            old(state).clicked_constraint_index == Some((current_row(*old(state)) + 1) as usize)
                || can_select(self.row_trails(), current_row(*old(state)) + 1),
        ensures
            clicked_state(
                *old(state),
                *final(state),
                self.row_trails(),
                current_row(*old(state)) + 1,
            ),
    ;
}

/// Struct for constraints to be shown in gui
pub struct ConstraintList {
    pub clauses: Vec<Vec<CnfVariable>>,
    pub trail: Trail,
    /// Combiner string to join variables for gui
    pub combiner: String,
}

/// A copy of a list of variable lists.
fn copy_rows(rows: &Vec<Vec<CnfVariable>>) -> (r: Vec<Vec<CnfVariable>>)
    ensures
        r.deep_view() == rows.deep_view(),
{
    let mut r: Vec<Vec<CnfVariable>> = Vec::new();
    let mut i: usize = 0;
    while i < rows.len()
        invariant
            i <= rows@.len(),
            r.deep_view() == rows.deep_view().take(i as int),
        decreases rows@.len() - i,
    {
        let row = &rows[i];
        let mut copy: Vec<CnfVariable> = Vec::new();
        let mut j: usize = 0;
        while j < row.len()
            invariant
                j <= row@.len(),
                copy@ == row@.take(j as int),
            decreases row@.len() - j,
        {
            copy.push(row[j]);
            assert(copy@ =~= row@.take(j + 1));
            j += 1;
        }
        assert(copy@ =~= row@);
        let ghost before = r@;
        let ghost before_deep = r.deep_view();
        let ghost c = copy;
        r.push(copy);
        proof {
            crate::sudoku::lemma_push_deep_view(before, r, c);
            assert(before_deep =~= Seq::new(before.len(), |j: int| before[j].deep_view()));
            assert(c.deep_view() =~= rows.deep_view()[i as int]);
            assert(r.deep_view() =~= rows.deep_view().take(i + 1));
        }
        i += 1;
    }
    assert(r.deep_view() =~= rows.deep_view());
    r
}

impl ConstraintList {
    /// Selects row `i` and shows its conflict literals and trail.
    fn select(&self, state: &mut AppState, i: usize)
        requires
            can_select(self.trail, i as int),
        ensures
            final(state).conflict_literals matches Some(c) && c@ == vars_of(
                self.trail.conflict_literals@[i as int]@,
                old(state).encoding,
            ),
            final(state).trail matches Some(t) && t@ == vars_of(
                self.trail.trail@[i as int]@,
                old(state).encoding,
            ),
            *final(state) == (AppState {
                clicked_constraint_index: Some(i),
                conflict_literals: final(state).conflict_literals,
                trail: final(state).trail,
                ..*old(state)
            }),
    {
        state.clicked_constraint_index = Some(i);
        let trail = self.trail.trail_at_index(i);
        let enum_trail = crate::literal_list_as_cnf(&trail, &state.encoding);
        let literals = self.trail.literals_at_index(i);
        let enum_literals = crate::literal_list_as_cnf(&literals, &state.encoding);
        state.set_trail(enum_literals, enum_trail);
    }
}

impl ControllableObj for ConstraintList {
    open spec fn row_trails(&self) -> Trail {
        self.trail
    }

    open spec fn rows(&self) -> Seq<Seq<CnfVariable>> {
        self.clauses.deep_view()
    }

    open spec fn combiner_text(&self) -> Seq<char> {
        self.combiner@
    }

    fn clicked(&self, state: &mut AppState, i: usize) {
        match state.clicked_constraint_index {
            Some(index) => {
                // clicking constraint again clears little numbers
                if index == i {
                    state.clicked_constraint_index = None;
                    state.clear_trail();
                } else {
                    self.select(state, i);
                }
            },
            None => {
                self.select(state, i);
            },
        }
    }

    fn get_clicked(&self, state: &AppState) -> (r: Option<usize>) {
        state.clicked_constraint_index
    }

    fn clauses(&self, _state: &AppState) -> (r: Vec<Vec<CnfVariable>>) {
        copy_rows(&self.clauses)
    }

    fn combiner(&self) -> (r: String) {
        self.combiner.clone()
    }

    fn move_up(&self, state: &mut AppState) {
        let current: usize = match state.clicked_constraint_index {
            Some(index) => index,
            None => 0,
        };
        self.clicked(state, current - 1);
    }

    fn move_down(&self, state: &mut AppState) {
        let current: usize = match state.clicked_constraint_index {
            Some(index) => index,
            None => 0,
        };
        self.clicked(state, current + 1);
    }
}

/// Clicking a row twice, starting from a state in which it was not
/// selected, leaves no row selected and no trail shown, with the rest of the
/// state as it was.
pub proof fn lemma_click_twice_deselects(
    s0: AppState,
    s1: AppState,
    s2: AppState,
    trails: Trail,
    i: usize,
)
    requires
        s0.clicked_constraint_index != Some(i),
        clicked_state(s0, s1, trails, i as int),
        clicked_state(s1, s2, trails, i as int),
    ensures
        s2 == (AppState { clicked_constraint_index: None, conflict_literals: None, trail: None, ..s0 }),
{
}

} // verus!
