//! What the sudoku grid shows: for each cell its value, whether the value is
//! drawn big, and the little numbers and equality symbols with which a
//! selected constraint, or a conflict and its trail, are shown on the grid.

use vstd::prelude::*;
use crate::app_state::{AppState, EncodingType};
use crate::cnf::{bit_matches, possible_list, possible_upto, CnfVariable};
use crate::seq_util::concat_map;

verus! {

/// A cell of the grid as mathematical values.
pub struct CellModel {
    pub value: Option<i32>,
    pub row: i32,
    pub col: i32,
    pub draw_big_number: bool,
    pub clue: bool,
    pub part_of_conflict: bool,
    pub fixed: bool,
    pub eq_symbols: Seq<(char, CnfVariable, bool)>,
    pub little_numbers: Seq<(i32, bool)>,
}

/// Struct representing a cell in the sudoku grid
pub struct SudokuCell {
    pub value: Option<i32>,
    pub row: i32,
    pub col: i32,
    /// Should the solved sudoku cell value be shown
    pub draw_big_number: bool,
    /// Should the cell be darkened (is it a clue)
    pub clue: bool,
    /// Should the cell have highlighted borders
    pub part_of_conflict: bool,
    /// Is the value of the cell set by fixed literals (used for highlighting)
    pub fixed: bool,
    /// Symbols of the equality variables that refer to the cell, the
    /// variable, and whether the symbol is underlined
    pub eq_symbols: Vec<(char, CnfVariable, bool)>,
    /// Little numbers; the flag tells whether the number is underlined (such
    /// as when it is part of the conflict)
    pub little_numbers: Vec<(i32, bool)>,
}

impl DeepView for SudokuCell {
    type V = CellModel;

    open spec fn deep_view(&self) -> CellModel {
        CellModel {
            value: self.value,
            row: self.row,
            col: self.col,
            draw_big_number: self.draw_big_number,
            clue: self.clue,
            part_of_conflict: self.part_of_conflict,
            fixed: self.fixed,
            eq_symbols: self.eq_symbols@,
            little_numbers: self.little_numbers@,
        }
    }
}

/// A cell with a value and nothing drawn on it.
pub open spec fn plain_cell(row: i32, col: i32, value: Option<i32>, clue: bool) -> CellModel {
    CellModel {
        value,
        row,
        col,
        draw_big_number: false,
        clue,
        part_of_conflict: false,
        fixed: false,
        eq_symbols: Seq::empty(),
        little_numbers: Seq::empty(),
    }
}

impl SudokuCell {
    pub fn new(row: i32, col: i32, value: Option<i32>, clue: bool) -> (cell: Self)
        ensures
            cell.deep_view() == plain_cell(row, col, value, clue),
    {
        let cell = SudokuCell {
            value,
            row,
            col,
            draw_big_number: false,
            clue,
            part_of_conflict: false,
            fixed: false,
            eq_symbols: Vec::new(),
            little_numbers: Vec::new(),
        };
        assert(cell.deep_view() =~~= plain_cell(row, col, value, clue));
        cell
    }
}

impl Default for SudokuCell {
    fn default() -> (cell: Self)
        ensures
            cell.deep_view() == plain_cell(1, 1, None, false),
    {
        SudokuCell::new(1, 1, None, false)
    }
}

/// Get reference to SudokuCell (row and column 1-based).
pub fn get_cell(sudoku: &mut [Vec<SudokuCell>], row: i32, column: i32) -> (cell: &mut SudokuCell)
    requires
        1 <= row <= old(sudoku)@.len(),
        1 <= column <= old(sudoku)@[row - 1]@.len(),
    ensures
        *cell == old(sudoku)@[row - 1]@[column - 1],
        final(sudoku)@ == old(sudoku)@.update(
            row - 1,
            final(sudoku)@[row - 1],
        ),
        final(sudoku)@[row - 1]@ == old(sudoku)@[row - 1]@.update(column - 1, *final(cell)),
{
    &mut sudoku[(row - 1) as usize][(column - 1) as usize]
}

/// The grid has nine rows of nine cells.
pub open spec fn grid_wf(g: Seq<Seq<CellModel>>) -> bool {
    &&& g.len() == 9
    &&& forall|r: int| 0 <= r < 9 ==> #[trigger] g[r].len() == 9
}

/// The grid with one cell replaced.
pub open spec fn with_cell(g: Seq<Seq<CellModel>>, r: int, c: int, cell: CellModel) -> Seq<
    Seq<CellModel>,
> {
    g.update(r, g[r].update(c, cell))
}

/// Marks cell (r, c) (0-based) as part of the conflict, with its value hidden.
fn mark_conflict(grid: &mut Vec<Vec<SudokuCell>>, r: usize, c: usize)
    requires
        r < old(grid)@.len(),
        c < old(grid)@[r as int]@.len(),
    ensures
        final(grid).deep_view() == with_cell(
            old(grid).deep_view(),
            r as int,
            c as int,
            CellModel {
                part_of_conflict: true,
                draw_big_number: false,
                ..old(grid).deep_view()[r as int][c as int]
            },
        ),
{
    let ghost g0 = grid.deep_view();
    grid[r][c].part_of_conflict = true;
    grid[r][c].draw_big_number = false;
    assert(grid.deep_view() =~~= with_cell(
        g0,
        r as int,
        c as int,
        CellModel { part_of_conflict: true, draw_big_number: false, ..g0[r as int][c as int] },
    ));
}

/// Hides the value of cell (r, c) (0-based).
fn hide_value(grid: &mut Vec<Vec<SudokuCell>>, r: usize, c: usize)
    requires
        r < old(grid)@.len(),
        c < old(grid)@[r as int]@.len(),
    ensures
        final(grid).deep_view() == with_cell(
            old(grid).deep_view(),
            r as int,
            c as int,
            CellModel { draw_big_number: false, ..old(grid).deep_view()[r as int][c as int] },
        ),
{
    let ghost g0 = grid.deep_view();
    grid[r][c].draw_big_number = false;
    assert(grid.deep_view() =~~= with_cell(
        g0,
        r as int,
        c as int,
        CellModel { draw_big_number: false, ..g0[r as int][c as int] },
    ));
}

/// Adds a little number to cell (r, c) (0-based).
fn push_little(grid: &mut Vec<Vec<SudokuCell>>, r: usize, c: usize, x: (i32, bool))
    requires
        r < old(grid)@.len(),
        c < old(grid)@[r as int]@.len(),
    ensures
        final(grid).deep_view() == with_cell(
            old(grid).deep_view(),
            r as int,
            c as int,
            CellModel {
                little_numbers: old(grid).deep_view()[r as int][c as int].little_numbers.push(x),
                ..old(grid).deep_view()[r as int][c as int]
            },
        ),
{
    let ghost g0 = grid.deep_view();
    grid[r][c].little_numbers.push(x);
    assert(grid.deep_view() =~~= with_cell(
        g0,
        r as int,
        c as int,
        CellModel {
            little_numbers: g0[r as int][c as int].little_numbers.push(x),
            ..g0[r as int][c as int]
        },
    ));
}

/// Adds an equality symbol to cell (r, c) (0-based).
fn push_symbol(grid: &mut Vec<Vec<SudokuCell>>, r: usize, c: usize, x: (char, CnfVariable, bool))
    requires
        r < old(grid)@.len(),
        c < old(grid)@[r as int]@.len(),
    ensures
        final(grid).deep_view() == with_cell(
            old(grid).deep_view(),
            r as int,
            c as int,
            CellModel {
                eq_symbols: old(grid).deep_view()[r as int][c as int].eq_symbols.push(x),
                ..old(grid).deep_view()[r as int][c as int]
            },
        ),
{
    let ghost g0 = grid.deep_view();
    grid[r][c].eq_symbols.push(x);
    assert(grid.deep_view() =~~= with_cell(
        g0,
        r as int,
        c as int,
        CellModel {
            eq_symbols: g0[r as int][c as int].eq_symbols.push(x),
            ..g0[r as int][c as int]
        },
    ));
}

/// A cell cleared of what visualized an earlier selection: its value is
/// drawn big when it has one and either solved values are shown or it is a
/// clue.
pub open spec fn reset_cell(c: CellModel, show_solved: bool) -> CellModel {
    CellModel {
        draw_big_number: c.value is Some && (show_solved || c.clue),
        part_of_conflict: false,
        eq_symbols: Seq::empty(),
        little_numbers: Seq::empty(),
        ..c
    }
}

/// Every cell of the grid changed by `f`.
pub open spec fn map_cells(g: Seq<Seq<CellModel>>, f: spec_fn(CellModel) -> CellModel) -> Seq<
    Seq<CellModel>,
> {
    Seq::new(g.len(), |r: int| Seq::new(g[r].len(), |c: int| f(g[r][c])))
}

/// The state of a whole-grid pass over the cells, after `r` full rows and
/// `c` cells of row `r`.
pub open spec fn partly_mapped(
    g: Seq<Seq<CellModel>>,
    f: spec_fn(CellModel) -> CellModel,
    r: int,
    c: int,
) -> Seq<Seq<CellModel>> {
    Seq::new(
        g.len(),
        |i: int|
            if i < r {
                map_cells(g, f)[i]
            } else if i == r {
                Seq::new(g[i].len(), |j: int| if j < c { f(g[i][j]) } else { g[i][j] })
            } else {
                g[i]
            },
    )
}

/// One more cell of a whole-grid pass.
proof fn lemma_partly_mapped_step(
    g: Seq<Seq<CellModel>>,
    f: spec_fn(CellModel) -> CellModel,
    r: int,
    c: int,
)
    requires
        0 <= r < g.len(),
        0 <= c < g[r].len(),
    ensures
        with_cell(partly_mapped(g, f, r, c), r, c, f(g[r][c])) == partly_mapped(g, f, r, c + 1),
{
    assert(with_cell(partly_mapped(g, f, r, c), r, c, f(g[r][c])) =~~= partly_mapped(g, f, r, c + 1));
}

/// A finished row of a whole-grid pass is the start of the next row.
proof fn lemma_partly_mapped_row(g: Seq<Seq<CellModel>>, f: spec_fn(CellModel) -> CellModel, r: int)
    requires
        0 <= r < g.len(),
    ensures
        partly_mapped(g, f, r, g[r].len() as int) == partly_mapped(g, f, r + 1, 0),
{
    assert(partly_mapped(g, f, r, g[r].len() as int) =~~= partly_mapped(g, f, r + 1, 0));
}

/// The ends of a whole-grid pass.
proof fn lemma_partly_mapped_ends(g: Seq<Seq<CellModel>>, f: spec_fn(CellModel) -> CellModel)
    ensures
        partly_mapped(g, f, 0, 0) == g,
        partly_mapped(g, f, g.len() as int, 0) == map_cells(g, f),
{
    assert(partly_mapped(g, f, 0, 0) =~~= g);
    assert(partly_mapped(g, f, g.len() as int, 0) =~~= map_cells(g, f));
}

/// The reset of every cell for a given choice of showing solved values.
pub open spec fn reset_fn(show_solved: bool) -> spec_fn(CellModel) -> CellModel {
    |c: CellModel| reset_cell(c, show_solved)
}

/// Prep cells for the update_conflict_info and update_selected_constraint functions
/// by clearing them of old data first
pub fn reset_visualization_info(grid: &mut Vec<Vec<SudokuCell>>, show_solved_sudoku: bool)
    ensures
        final(grid).deep_view() == map_cells(old(grid).deep_view(), reset_fn(show_solved_sudoku)),
{
    let ghost g0 = grid.deep_view();
    let ghost f = reset_fn(show_solved_sudoku);
    proof {
        lemma_partly_mapped_ends(g0, f);
    }
    let mut r: usize = 0;
    while r < grid.len()
        invariant
            g0.len() == grid@.len(),
            r <= g0.len(),
            f == reset_fn(show_solved_sudoku),
            grid.deep_view() == partly_mapped(g0, f, r as int, 0),
        decreases g0.len() - r,
    {
        assert(grid.deep_view()[r as int].len() == g0[r as int].len());
        let mut c: usize = 0;
        while c < grid[r].len()
            invariant
                g0.len() == grid@.len(),
                r < g0.len(),
                c <= g0[r as int].len(),
                grid@[r as int]@.len() == g0[r as int].len(),
                f == reset_fn(show_solved_sudoku),
                grid.deep_view() == partly_mapped(g0, f, r as int, c as int),
            decreases g0[r as int].len() - c,
        {
            let ghost before = grid.deep_view();
            let draw = grid[r][c].value.is_some() && (show_solved_sudoku || grid[r][c].clue);
            grid[r][c].draw_big_number = draw;
            grid[r][c].part_of_conflict = false;
            grid[r][c].eq_symbols = Vec::new();
            grid[r][c].little_numbers = Vec::new();
            proof {
                assert(before[r as int][c as int] == g0[r as int][c as int]);
                assert(grid.deep_view() =~~= with_cell(before, r as int, c as int, f(g0[r as int][c as int])));
                lemma_partly_mapped_step(g0, f, r as int, c as int);
            }
            c += 1;
        }
        proof {
            lemma_partly_mapped_row(g0, f, r as int);
        }
        r += 1;
    }
}

/// The value shown in a cell, 0 for an empty cell.
pub open spec fn shown_value(cell: CellModel) -> i32 {
    match cell.value {
        Some(v) => v,
        None => 0,
    }
}

/// Cell (row, col) (1-based) is the cell at position (r, c) (0-based).
pub open spec fn at_cell(row: i32, col: i32, r: int, c: int) -> bool {
    row - 1 == r && col - 1 == c
}

/// The variable is drawn on cell (r, c): a bit or decimal variable of the
/// cell, or an equality variable of which the cell is one side.
pub open spec fn marks_cell(var: CnfVariable, r: int, c: int) -> bool {
    match var {
        CnfVariable::Bit { row, col, .. } => at_cell(row, col, r, c),
        CnfVariable::Decimal { row, col, .. } => at_cell(row, col, r, c),
        CnfVariable::Equality { row, col, row2, col2, .. } => at_cell(row, col, r, c) || at_cell(
            row2,
            col2,
            r,
            c,
        ),
    }
}

/// The variable can be drawn on the grid: its cells lie in the grid, a bit
/// index can be shifted by, and a negative decimal value can be compared with
/// the negated value of its cell.
pub open spec fn drawable(var: CnfVariable, g: Seq<Seq<CellModel>>) -> bool {
    match var {
        CnfVariable::Bit { row, col, bit_index, .. } => 1 <= row <= 9 && 1 <= col <= 9 && 0
            <= bit_index < 32,
        CnfVariable::Decimal { row, col, value } => 1 <= row <= 9 && 1 <= col <= 9 && (value < 0
            ==> g[row - 1][col - 1].value != Some(i32::MIN)),
        CnfVariable::Equality { row, col, row2, col2, bit_index, .. } => 1 <= row <= 9 && 1 <= col
            <= 9 && 1 <= row2 <= 9 && 1 <= col2 <= 9 && 0 <= bit_index < 32,
    }
}

/// The number of equality variables in a list.
pub open spec fn eq_count(vars: Seq<CnfVariable>) -> int
    decreases vars.len(),
{
    if vars.len() == 0 {
        0
    } else {
        eq_count(vars.drop_last()) + if vars.last() is Equality {
            1int
        } else {
            0
        }
    }
}

/// The symbol of the `k`-th equality variable: the letters 'A' to 'Z', then
/// 'a' to 'z', then '?'.
pub open spec fn eq_symbol(k: int) -> char {
    if 0 <= k < 26 {
        (65 + k) as char
    } else if 26 <= k < 52 {
        (97 + k - 26) as char
    } else {
        '?'
    }
}

/// The symbol of the `k`-th equality variable.
fn symbol_for(k: usize) -> (c: char)
    ensures
        c == eq_symbol(k as int),
{
    if k < 26 {
        (65u8 + k as u8) as char
    } else if k < 52 {
        (97u8 + (k - 26) as u8) as char
    } else {
        '?'
    }
}

/// Whether the values of the two cells of an equality variable agree with
/// it: both in the same group of its bit (values whose bit is set, or
/// values whose bit is clear) when it says the bits are equal, in different
/// groups when it says they differ.
pub open spec fn groups_agree(bit_index: i32, equal: bool, v1: i32, v2: i32) -> bool {
    let g1 = possible_upto(9, bit_index, true);
    let g2 = possible_upto(9, bit_index, false);
    if equal {
        (g1.contains(v1) && g1.contains(v2)) || (g2.contains(v1) && g2.contains(v2))
    } else {
        (g1.contains(v1) && g2.contains(v2)) || (g2.contains(v1) && g1.contains(v2))
    }
}

/// The little numbers a selected variable adds to cell (r, c), whose value
/// is `v`: for a bit variable of the cell, every value it allows (ascending),
/// underlined when it is the cell's value; for a decimal variable of the
/// cell, its value, underlined when it is the cell's value or it is a
/// negation of another value.
pub open spec fn selected_littles(var: CnfVariable, r: int, c: int, v: i32) -> Seq<(i32, bool)> {
    match var {
        CnfVariable::Bit { row, col, bit_index, value } => if at_cell(row, col, r, c) {
            possible_upto(9, bit_index, value).map_values(|x: i32| (x, x == v))
        } else {
            Seq::empty()
        },
        CnfVariable::Decimal { row, col, value } => if at_cell(row, col, r, c) {
            seq![(value, value == v || (value < 0 && value != -v))]
        } else {
            Seq::empty()
        },
        CnfVariable::Equality { .. } => Seq::empty(),
    }
}

/// The symbols a selected equality variable adds to cell (r, c): one for
/// each side of it that is the cell, underlined when the two cells' values
/// agree with it.
pub open spec fn selected_symbols(
    g: Seq<Seq<CellModel>>,
    var: CnfVariable,
    sym: char,
    r: int,
    c: int,
) -> Seq<(char, CnfVariable, bool)> {
    match var {
        CnfVariable::Equality { row, col, row2, col2, bit_index, equal } => {
            let u = groups_agree(
                bit_index,
                equal,
                shown_value(g[row - 1][col - 1]),
                shown_value(g[row2 - 1][col2 - 1]),
            );
            (if at_cell(row, col, r, c) {
                seq![(sym, var, u)]
            } else {
                Seq::empty()
            }) + (if at_cell(row2, col2, r, c) {
                seq![(sym, var, u)]
            } else {
                Seq::empty()
            })
        },
        _ => Seq::empty(),
    }
}

/// The little numbers the first variables add to cell (r, c).
pub open spec fn littles_fn(vars: Seq<CnfVariable>, r: int, c: int, v: i32) -> spec_fn(int) -> Seq<
    (i32, bool),
> {
    |k: int| selected_littles(vars[k], r, c, v)
}

/// The symbols the first variables add to cell (r, c).
pub open spec fn symbols_fn(g: Seq<Seq<CellModel>>, vars: Seq<CnfVariable>, r: int, c: int) -> spec_fn(
    int,
) -> Seq<(char, CnfVariable, bool)> {
    |k: int| selected_symbols(g, vars[k], eq_symbol(eq_count(vars.take(k))), r, c)
}

/// Cell (r, c) after the first `n` selected variables are drawn on it.
pub open spec fn selected_cell(
    g: Seq<Seq<CellModel>>,
    vars: Seq<CnfVariable>,
    n: int,
    r: int,
    c: int,
) -> CellModel {
    let cell = g[r][c];
    CellModel {
        draw_big_number: cell.draw_big_number && !(exists|k: int|
            0 <= k < n && #[trigger] marks_cell(vars[k], r, c)),
        little_numbers: cell.little_numbers + concat_map(n, littles_fn(vars, r, c, shown_value(cell))),
        eq_symbols: cell.eq_symbols + concat_map(n, symbols_fn(g, vars, r, c)),
        ..cell
    }
}

/// The grid after the first `n` selected variables are drawn on it.
pub open spec fn show_selected(g: Seq<Seq<CellModel>>, vars: Seq<CnfVariable>, n: int) -> Seq<
    Seq<CellModel>,
> {
    Seq::new(9, |r: int| Seq::new(9, |c: int| selected_cell(g, vars, n, r, c)))
}

/// The variables to draw: those of the clicked constraint, or else, when
/// solved values are hidden, the literals learned so far; none while a
/// trail is shown.
pub open spec fn selected_vars(state: AppState, rendered: Seq<Seq<CnfVariable>>) -> Seq<CnfVariable> {
    if state.show_trail {
        Seq::empty()
    } else {
        match state.clicked_constraint_index {
            Some(k) => rendered[k as int],
            None => if !state.show_solved_sudoku {
                state.little_number_constraints@
            } else {
                Seq::empty()
            },
        }
    }
}

/// Whether `x` is in the list.
pub(crate) fn contains_value(list: &Vec<i32>, x: i32) -> (b: bool)
    ensures
        b == list@.contains(x),
{
    let mut i: usize = 0;
    while i < list.len()
        invariant
            i <= list@.len(),
            forall|j: int| 0 <= j < i ==> list@[j] != x,
        decreases list@.len() - i,
    {
        if list[i] == x {
            return true;
        }
        i += 1;
    }
    false
}

/// A cell with little numbers and symbols added, and its value hidden when
/// `hide` holds.
pub open spec fn extend_cell(
    cell: CellModel,
    littles: Seq<(i32, bool)>,
    symbols: Seq<(char, CnfVariable, bool)>,
    hide: bool,
) -> CellModel {
    CellModel {
        draw_big_number: cell.draw_big_number && !hide,
        little_numbers: cell.little_numbers + littles,
        eq_symbols: cell.eq_symbols + symbols,
        ..cell
    }
}

/// The grid after one selected variable, with symbol `sym`, is drawn on it;
/// values (and so underlining) are read from `g0`.
pub open spec fn drawn(
    prev: Seq<Seq<CellModel>>,
    g0: Seq<Seq<CellModel>>,
    var: CnfVariable,
    sym: char,
) -> Seq<Seq<CellModel>> {
    Seq::new(
        9,
        |r: int|
            Seq::new(
                9,
                |c: int|
                    extend_cell(
                        prev[r][c],
                        selected_littles(var, r, c, shown_value(g0[r][c])),
                        selected_symbols(g0, var, sym, r, c),
                        marks_cell(var, r, c),
                    ),
            ),
    )
}

/// Every cell of the two grids has the same value.
pub open spec fn same_values(a: Seq<Seq<CellModel>>, b: Seq<Seq<CellModel>>) -> bool {
    forall|r: int, c: int| 0 <= r < 9 && 0 <= c < 9 ==> #[trigger] a[r][c].value == b[r][c].value
}

/// Drawing one more selected variable.
proof fn lemma_show_selected_step(g0: Seq<Seq<CellModel>>, vars: Seq<CnfVariable>, k: int)
    requires
        0 <= k < vars.len(),
    ensures
        show_selected(g0, vars, k + 1) == drawn(
            show_selected(g0, vars, k),
            g0,
            vars[k],
            eq_symbol(eq_count(vars.take(k))),
        ),
{
    let sym = eq_symbol(eq_count(vars.take(k)));
    assert forall|r: int, c: int| 0 <= r < 9 && 0 <= c < 9 implies #[trigger] show_selected(
        g0,
        vars,
        k + 1,
    )[r][c] == drawn(show_selected(g0, vars, k), g0, vars[k], sym)[r][c] by {
        let cell = g0[r][c];
        let lf = littles_fn(vars, r, c, shown_value(cell));
        let sf = symbols_fn(g0, vars, r, c);
        assert(concat_map(k + 1, lf) == concat_map(k, lf) + lf(k));
        assert(concat_map(k + 1, sf) == concat_map(k, sf) + sf(k));
        assert(cell.little_numbers + concat_map(k + 1, lf) =~= (cell.little_numbers + concat_map(
            k,
            lf,
        )) + lf(k));
        assert(cell.eq_symbols + concat_map(k + 1, sf) =~= (cell.eq_symbols + concat_map(k, sf))
            + sf(k));
        let before = exists|j: int| 0 <= j < k && #[trigger] marks_cell(vars[j], r, c);
        let after = exists|j: int| 0 <= j < k + 1 && #[trigger] marks_cell(vars[j], r, c);
        assert(after == (before || marks_cell(vars[k], r, c))) by {
            if after {
                let j = choose|j: int| 0 <= j < k + 1 && #[trigger] marks_cell(vars[j], r, c);
                if j < k {
                    assert(before);
                }
            }
            if marks_cell(vars[k], r, c) {
                assert(after);
            }
            if before {
                let j = choose|j: int| 0 <= j < k && #[trigger] marks_cell(vars[j], r, c);
                assert(0 <= j < k + 1 && marks_cell(vars[j], r, c));
            }
        }
    }
    assert(show_selected(g0, vars, k + 1) =~~= drawn(show_selected(g0, vars, k), g0, vars[k], sym));
}

/// A cell gains nothing from a variable that does not mark it.
proof fn lemma_extend_nothing(cell: CellModel)
    ensures
        extend_cell(cell, Seq::empty(), Seq::empty(), false) == cell,
{
    assert(cell.little_numbers + Seq::<(i32, bool)>::empty() =~= cell.little_numbers);
    assert(cell.eq_symbols + Seq::<(char, CnfVariable, bool)>::empty() =~= cell.eq_symbols);
}

/// The grid's shape as vectors is the shape of its deep view.
pub(crate) proof fn lemma_grid_dims(grid: Vec<Vec<SudokuCell>>)
    ensures
        grid@.len() == grid.deep_view().len(),
        forall|r: int| 0 <= r < grid@.len() ==> #[trigger] grid@[r]@.len() == grid.deep_view()[r].len(),
{
}

/// The value of cell (r, c) (0-based), 0 when it is empty.
pub(crate) fn value_at(grid: &Vec<Vec<SudokuCell>>, r: usize, c: usize) -> (v: i32)
    requires
        r < grid@.len(),
        c < grid@[r as int]@.len(),
    ensures
        v == shown_value(grid.deep_view()[r as int][c as int]),
{
    match grid[r][c].value {
        Some(x) => x,
        None => 0,
    }
}

/// Draws one selected variable of one kind on the grid.
fn draw_bit_var(
    grid: &mut Vec<Vec<SudokuCell>>,
    var: CnfVariable,
    sym: char,
    Ghost(g0): Ghost<Seq<Seq<CellModel>>>,
)
    requires
        grid_wf(old(grid).deep_view()),
        grid_wf(g0),
        same_values(old(grid).deep_view(), g0),
        drawable(var, g0),
        var is Bit,
    ensures
        final(grid).deep_view() == drawn(old(grid).deep_view(), g0, var, sym),
{
    let ghost prev = grid.deep_view();
    assert(forall|r: int| 0 <= r < 9 ==> #[trigger] grid@[r]@.len() == prev[r].len());
    let CnfVariable::Bit { row, col, bit_index, value } = var else {
        return;
    };
    let r0 = (row - 1) as usize;
    let c0 = (col - 1) as usize;
    let v = value_at(grid, r0, c0);
    assert(v == shown_value(g0[r0 as int][c0 as int]));
    let list = possible_list(bit_index, value);
    let ghost base = prev[r0 as int][c0 as int];
    let ghost mapped = list@.map_values(|x: i32| (x, x == v));
    assert(base.little_numbers + mapped.take(0) =~= base.little_numbers);
    assert(with_cell(prev, r0 as int, c0 as int, CellModel { little_numbers: base.little_numbers + mapped.take(0), ..base }) =~~= prev);
    let mut j: usize = 0;
    while j < list.len()
        invariant
            j <= list@.len(),
            r0 < 9,
            c0 < 9,
            grid_wf(prev),
            base == prev[r0 as int][c0 as int],
            mapped == list@.map_values(|x: i32| (x, x == v)),
            grid.deep_view() == with_cell(
                prev,
                r0 as int,
                c0 as int,
                CellModel { little_numbers: base.little_numbers + mapped.take(j as int), ..base },
            ),
        decreases list@.len() - j,
    {
        let x = list[j];
        proof {
            lemma_grid_dims(*grid);
        }
        push_little(grid, r0, c0, (x, x == v));
        assert((base.little_numbers + mapped.take(j as int)).push((x, x == v)) =~= base.little_numbers
            + mapped.take(j + 1));
        assert(with_cell(
            with_cell(
                prev,
                r0 as int,
                c0 as int,
                CellModel { little_numbers: base.little_numbers + mapped.take(j as int), ..base },
            ),
            r0 as int,
            c0 as int,
            CellModel { little_numbers: base.little_numbers + mapped.take(j + 1), ..base },
        ) =~~= with_cell(
            prev,
            r0 as int,
            c0 as int,
            CellModel { little_numbers: base.little_numbers + mapped.take(j + 1), ..base },
        ));
        j += 1;
    }
    assert(mapped.take(list@.len() as int) =~= mapped);
    proof {
        lemma_grid_dims(*grid);
    }
    hide_value(grid, r0, c0);
    proof {
        assert forall|r: int, c: int| 0 <= r < 9 && 0 <= c < 9 implies #[trigger] grid.deep_view()[r][c]
            == drawn(prev, g0, var, sym)[r][c] by {
            if r == r0 && c == c0 {
                let sv = shown_value(g0[r][c]);
                assert(sv == v);
                assert(mapped =~= possible_upto(9, bit_index, value).map_values(
                    |x: i32| (x, x == sv),
                ));
                assert(selected_littles(var, r, c, sv) == possible_upto(9, bit_index, value).map_values(
                    |x: i32| (x, x == sv),
                ));
                assert(marks_cell(var, r, c));
                assert(selected_symbols(g0, var, sym, r, c) =~= Seq::empty());
                assert(base.eq_symbols + Seq::<(char, CnfVariable, bool)>::empty() =~= base.eq_symbols);
                assert(grid.deep_view()[r][c] == CellModel {
                    draw_big_number: false,
                    little_numbers: base.little_numbers + mapped,
                    ..base
                });
            } else {
                lemma_extend_nothing(prev[r][c]);
                assert(grid.deep_view()[r][c] == prev[r][c]);
            }
        }
        assert(grid.deep_view() =~~= drawn(prev, g0, var, sym));
    }
}

/// Draws one selected variable of one kind on the grid.
fn draw_decimal_var(
    grid: &mut Vec<Vec<SudokuCell>>,
    var: CnfVariable,
    sym: char,
    Ghost(g0): Ghost<Seq<Seq<CellModel>>>,
)
    requires
        grid_wf(old(grid).deep_view()),
        grid_wf(g0),
        same_values(old(grid).deep_view(), g0),
        drawable(var, g0),
        var is Decimal,
    ensures
        final(grid).deep_view() == drawn(old(grid).deep_view(), g0, var, sym),
{
    let ghost prev = grid.deep_view();
    assert(forall|r: int| 0 <= r < 9 ==> #[trigger] grid@[r]@.len() == prev[r].len());
    let CnfVariable::Decimal { row, col, value } = var else {
        return;
    };
    let r0 = (row - 1) as usize;
    let c0 = (col - 1) as usize;
    let v = value_at(grid, r0, c0);
    let underline = value == v || (value < 0 && value != -v);
    push_little(grid, r0, c0, (value, underline));
    proof {
        lemma_grid_dims(*grid);
    }
    hide_value(grid, r0, c0);
    proof {
        let base = prev[r0 as int][c0 as int];
        assert forall|r: int, c: int| 0 <= r < 9 && 0 <= c < 9 implies #[trigger] grid.deep_view()[r][c]
            == drawn(prev, g0, var, sym)[r][c] by {
            if r == r0 && c == c0 {
                assert(base.little_numbers.push((value, underline)) =~= base.little_numbers
                    + seq![(value, underline)]);
                assert(base.eq_symbols + Seq::<(char, CnfVariable, bool)>::empty() =~= base.eq_symbols);
            } else {
                lemma_extend_nothing(prev[r][c]);
            }
        }
        assert(grid.deep_view() =~~= drawn(prev, g0, var, sym));
    }
}

/// Draws one selected variable of one kind on the grid.
fn draw_eq_var(
    grid: &mut Vec<Vec<SudokuCell>>,
    var: CnfVariable,
    sym: char,
    Ghost(g0): Ghost<Seq<Seq<CellModel>>>,
)
    requires
        grid_wf(old(grid).deep_view()),
        grid_wf(g0),
        same_values(old(grid).deep_view(), g0),
        drawable(var, g0),
        var is Equality,
    ensures
        final(grid).deep_view() == drawn(old(grid).deep_view(), g0, var, sym),
{
    let ghost prev = grid.deep_view();
    assert(forall|r: int| 0 <= r < 9 ==> #[trigger] grid@[r]@.len() == prev[r].len());
    let CnfVariable::Equality { row, col, row2, col2, bit_index, equal } = var else {
        return;
    };
    let r1 = (row - 1) as usize;
    let c1 = (col - 1) as usize;
    let r2 = (row2 - 1) as usize;
    let c2 = (col2 - 1) as usize;
    let v1 = value_at(grid, r1, c1);
    let v2 = value_at(grid, r2, c2);
    let (group1, group2) = var.get_possible_groups();
    let underline = if equal {
        (contains_value(&group1, v1) && contains_value(&group1, v2)) || (contains_value(
            &group2,
            v1,
        ) && contains_value(&group2, v2))
    } else {
        (contains_value(&group1, v1) && contains_value(&group2, v2)) || (contains_value(
            &group2,
            v1,
        ) && contains_value(&group1, v2))
    };
    assert(underline == groups_agree(
        bit_index,
        equal,
        shown_value(g0[r1 as int][c1 as int]),
        shown_value(g0[r2 as int][c2 as int]),
    ));
    let entry = (sym, var, underline);
    push_symbol(grid, r1, c1, entry);
    proof {
        lemma_grid_dims(*grid);
    }
    hide_value(grid, r1, c1);
    proof {
        lemma_grid_dims(*grid);
    }
    push_symbol(grid, r2, c2, entry);
    proof {
        lemma_grid_dims(*grid);
    }
    hide_value(grid, r2, c2);
    proof {
        assert forall|r: int, c: int| 0 <= r < 9 && 0 <= c < 9 implies #[trigger] grid.deep_view()[r][c]
            == drawn(prev, g0, var, sym)[r][c] by {
            let base = prev[r][c];
            assert(base.little_numbers + Seq::<(i32, bool)>::empty() =~= base.little_numbers);
            if r == r1 && c == c1 && r == r2 && c == c2 {
                assert(base.eq_symbols.push(entry).push(entry) =~= base.eq_symbols + (seq![entry]
                    + seq![entry]));
            } else if r == r1 && c == c1 {
                assert(base.eq_symbols.push(entry) =~= base.eq_symbols + (seq![entry]
                    + Seq::empty()));
            } else if r == r2 && c == c2 {
                assert(base.eq_symbols.push(entry) =~= base.eq_symbols + (Seq::empty()
                    + seq![entry]));
            } else {
                assert(base.eq_symbols + (Seq::<(char, CnfVariable, bool)>::empty()
                    + Seq::empty()) =~= base.eq_symbols);
            }
        }
        assert(grid.deep_view() =~~= drawn(prev, g0, var, sym));
    }
}

/// Draws one selected variable on the grid.
fn draw_selected_var(
    grid: &mut Vec<Vec<SudokuCell>>,
    var: CnfVariable,
    sym: char,
    Ghost(g0): Ghost<Seq<Seq<CellModel>>>,
)
    requires
        grid_wf(old(grid).deep_view()),
        grid_wf(g0),
        same_values(old(grid).deep_view(), g0),
        drawable(var, g0),
    ensures
        final(grid).deep_view() == drawn(old(grid).deep_view(), g0, var, sym),
{
    match var {
        CnfVariable::Bit { .. } => draw_bit_var(grid, var, sym, Ghost(g0)),
        CnfVariable::Decimal { .. } => draw_decimal_var(grid, var, sym, Ghost(g0)),
        CnfVariable::Equality { .. } => draw_eq_var(grid, var, sym, Ghost(g0)),
    }
}

/// Nothing drawn yet.
proof fn lemma_show_selected_none(g0: Seq<Seq<CellModel>>, vars: Seq<CnfVariable>)
    requires
        grid_wf(g0),
    ensures
        show_selected(g0, vars, 0) == g0,
{
    assert forall|r: int, c: int| 0 <= r < 9 && 0 <= c < 9 implies #[trigger] show_selected(
        g0,
        vars,
        0,
    )[r][c] == g0[r][c] by {
        let cell = g0[r][c];
        assert(cell.little_numbers + Seq::<(i32, bool)>::empty() =~= cell.little_numbers);
        assert(cell.eq_symbols + Seq::<(char, CnfVariable, bool)>::empty() =~= cell.eq_symbols);
    }
    assert(show_selected(g0, vars, 0) =~~= g0);
}

/// The number of equality variables grows by one with each equality variable.
proof fn lemma_eq_count_step(vars: Seq<CnfVariable>, k: int)
    requires
        0 <= k < vars.len(),
    ensures
        eq_count(vars.take(k + 1)) == eq_count(vars.take(k)) + if vars[k] is Equality {
            1int
        } else {
            0
        },
        0 <= eq_count(vars.take(k)) <= k,
    decreases k,
{
    assert(vars.take(k + 1).drop_last() =~= vars.take(k));
    if k > 0 {
        lemma_eq_count_step(vars, k - 1);
    } else {
        assert(vars.take(0) =~= Seq::<CnfVariable>::empty());
    }
}

/// Update little symbols from a selected constraint in SudokuCells: the
/// variables of the clicked constraint, or else, when solved values are
/// hidden, the literals learned so far, are drawn on the grid; nothing is
/// drawn while a trail is shown (that case is handled by `update_trail_info`).
pub fn update_selected_constraint(
    grid: &mut Vec<Vec<SudokuCell>>,
    state: &AppState,
    rendered_constraints: &Vec<Vec<CnfVariable>>,
)
    requires
        grid_wf(old(grid).deep_view()),
        !state.show_trail && state.clicked_constraint_index is Some ==> state.clicked_constraint_index->0
            < rendered_constraints@.len(),
        forall|j: int|
            0 <= j < selected_vars(*state, rendered_constraints.deep_view()).len() ==> drawable(
                #[trigger] selected_vars(*state, rendered_constraints.deep_view())[j],
                old(grid).deep_view(),
            ),
    ensures
        final(grid).deep_view() == show_selected(
            old(grid).deep_view(),
            selected_vars(*state, rendered_constraints.deep_view()),
            selected_vars(*state, rendered_constraints.deep_view()).len() as int,
        ),
{
    let ghost g0 = grid.deep_view();
    let ghost all = selected_vars(*state, rendered_constraints.deep_view());
    proof {
        lemma_show_selected_none(g0, all);
    }
    if state.show_trail {
        return;
    }
    let empty: Vec<CnfVariable> = Vec::new();
    let vars: &Vec<CnfVariable> = match state.clicked_constraint_index {
        Some(k) => &rendered_constraints[k],
        None => if !state.show_solved_sudoku {
            &state.little_number_constraints
        } else {
            &empty
        },
    };
    assert(vars@ =~= all);
    let mut sym_idx: usize = 0;
    let mut k: usize = 0;
    while k < vars.len()
        invariant
            k <= vars@.len(),
            vars@ == all,
            grid_wf(g0),
            forall|j: int| 0 <= j < all.len() ==> drawable(#[trigger] all[j], g0),
            grid.deep_view() == show_selected(g0, all, k as int),
            sym_idx == eq_count(all.take(k as int)),
            sym_idx <= k,
        decreases vars@.len() - k,
    {
        let var = vars[k];
        proof {
            lemma_eq_count_step(all, k as int);
            assert(grid_wf(grid.deep_view()));
            assert(same_values(grid.deep_view(), g0));
        }
        let sym = symbol_for(sym_idx);
        draw_selected_var(grid, var, sym, Ghost(g0));
        proof {
            lemma_show_selected_step(g0, all, k as int);
        }
        if let CnfVariable::Equality { .. } = var {
            sym_idx += 1;
        }
        k += 1;
    }
}

/// The little numbers that variable `k` adds to cell (r, c), as a function of `k`.
pub open spec fn cell_littles(lf: spec_fn(int, int, int) -> Seq<(i32, bool)>, r: int, c: int) -> spec_fn(
    int,
) -> Seq<(i32, bool)> {
    |k: int| lf(k, r, c)
}

/// The symbols that variable `k` adds to cell (r, c), as a function of `k`.
pub open spec fn cell_symbols(
    sf: spec_fn(int, int, int) -> Seq<(char, CnfVariable, bool)>,
    r: int,
    c: int,
) -> spec_fn(int) -> Seq<(char, CnfVariable, bool)> {
    |k: int| sf(k, r, c)
}

/// The grid after the first `n` variables of a list have each added little
/// numbers `lf(k, r, c)` and symbols `sf(k, r, c)` to cell (r, c), hidden its
/// value when `hf(k, r, c)` and marked it as part of the conflict when
/// `cf(k, r, c)`.
pub open spec fn accumulate(
    g: Seq<Seq<CellModel>>,
    n: int,
    lf: spec_fn(int, int, int) -> Seq<(i32, bool)>,
    sf: spec_fn(int, int, int) -> Seq<(char, CnfVariable, bool)>,
    hf: spec_fn(int, int, int) -> bool,
    cf: spec_fn(int, int, int) -> bool,
) -> Seq<Seq<CellModel>> {
    Seq::new(
        9,
        |r: int|
            Seq::new(
                9,
                |c: int|
                    {
                        let cell = g[r][c];
                        CellModel {
                            little_numbers: cell.little_numbers + concat_map(n, cell_littles(lf, r, c)),
                            eq_symbols: cell.eq_symbols + concat_map(n, cell_symbols(sf, r, c)),
                            draw_big_number: cell.draw_big_number && !(exists|k: int|
                                0 <= k < n && #[trigger] hf(k, r, c)),
                            part_of_conflict: cell.part_of_conflict || (exists|k: int|
                                0 <= k < n && #[trigger] cf(k, r, c)),
                            ..cell
                        }
                    },
            ),
    )
}

/// One more variable's additions to every cell.
pub open spec fn accumulate_step(
    prev: Seq<Seq<CellModel>>,
    k: int,
    lf: spec_fn(int, int, int) -> Seq<(i32, bool)>,
    sf: spec_fn(int, int, int) -> Seq<(char, CnfVariable, bool)>,
    hf: spec_fn(int, int, int) -> bool,
    cf: spec_fn(int, int, int) -> bool,
) -> Seq<Seq<CellModel>> {
    Seq::new(
        9,
        |r: int|
            Seq::new(
                9,
                |c: int|
                    {
                        let cell = prev[r][c];
                        CellModel {
                            little_numbers: cell.little_numbers + lf(k, r, c),
                            eq_symbols: cell.eq_symbols + sf(k, r, c),
                            draw_big_number: cell.draw_big_number && !hf(k, r, c),
                            part_of_conflict: cell.part_of_conflict || cf(k, r, c),
                            ..cell
                        }
                    },
            ),
    )
}

proof fn lemma_accumulate_none(
    g: Seq<Seq<CellModel>>,
    lf: spec_fn(int, int, int) -> Seq<(i32, bool)>,
    sf: spec_fn(int, int, int) -> Seq<(char, CnfVariable, bool)>,
    hf: spec_fn(int, int, int) -> bool,
    cf: spec_fn(int, int, int) -> bool,
)
    requires
        grid_wf(g),
    ensures
        accumulate(g, 0, lf, sf, hf, cf) == g,
{
    assert forall|r: int, c: int| 0 <= r < 9 && 0 <= c < 9 implies #[trigger] accumulate(
        g,
        0,
        lf,
        sf,
        hf,
        cf,
    )[r][c] == g[r][c] by {
        let cell = g[r][c];
        assert(cell.little_numbers + concat_map(0, cell_littles(lf, r, c)) =~= cell.little_numbers);
        assert(cell.eq_symbols + concat_map(0, cell_symbols(sf, r, c)) =~= cell.eq_symbols);
    }
    assert(accumulate(g, 0, lf, sf, hf, cf) =~~= g);
}

proof fn lemma_accumulate_step(
    g: Seq<Seq<CellModel>>,
    k: int,
    lf: spec_fn(int, int, int) -> Seq<(i32, bool)>,
    sf: spec_fn(int, int, int) -> Seq<(char, CnfVariable, bool)>,
    hf: spec_fn(int, int, int) -> bool,
    cf: spec_fn(int, int, int) -> bool,
)
    requires
        0 <= k,
    ensures
        accumulate(g, k + 1, lf, sf, hf, cf) == accumulate_step(
            accumulate(g, k, lf, sf, hf, cf),
            k,
            lf,
            sf,
            hf,
            cf,
        ),
{
    assert forall|r: int, c: int| 0 <= r < 9 && 0 <= c < 9 implies #[trigger] accumulate(
        g,
        k + 1,
        lf,
        sf,
        hf,
        cf,
    )[r][c] == accumulate_step(accumulate(g, k, lf, sf, hf, cf), k, lf, sf, hf, cf)[r][c] by {
        let cell = g[r][c];
        let l = cell_littles(lf, r, c);
        let sy = cell_symbols(sf, r, c);
        assert(concat_map(k + 1, l) == concat_map(k, l) + l(k));
        assert(concat_map(k + 1, sy) == concat_map(k, sy) + sy(k));
        assert(cell.little_numbers + concat_map(k + 1, l) =~= (cell.little_numbers + concat_map(k, l))
            + lf(k, r, c));
        assert(cell.eq_symbols + concat_map(k + 1, sy) =~= (cell.eq_symbols + concat_map(k, sy)) + sf(
            k,
            r,
            c,
        ));
        let hb = exists|j: int| 0 <= j < k && #[trigger] hf(j, r, c);
        let ha = exists|j: int| 0 <= j < k + 1 && #[trigger] hf(j, r, c);
        assert(ha == (hb || hf(k, r, c))) by {
            if ha {
                let j = choose|j: int| 0 <= j < k + 1 && #[trigger] hf(j, r, c);
                if j < k {
                    assert(hb);
                }
            }
            if hb {
                let j = choose|j: int| 0 <= j < k && #[trigger] hf(j, r, c);
                assert(0 <= j < k + 1 && hf(j, r, c));
            }
            if hf(k, r, c) {
                assert(0 <= k < k + 1 && hf(k, r, c));
            }
        }
        let cb = exists|j: int| 0 <= j < k && #[trigger] cf(j, r, c);
        let ca = exists|j: int| 0 <= j < k + 1 && #[trigger] cf(j, r, c);
        assert(ca == (cb || cf(k, r, c))) by {
            if ca {
                let j = choose|j: int| 0 <= j < k + 1 && #[trigger] cf(j, r, c);
                if j < k {
                    assert(cb);
                }
            }
            if cb {
                let j = choose|j: int| 0 <= j < k && #[trigger] cf(j, r, c);
                assert(0 <= j < k + 1 && cf(j, r, c));
            }
            if cf(k, r, c) {
                assert(0 <= k < k + 1 && cf(k, r, c));
            }
        }
    }
    assert(accumulate(g, k + 1, lf, sf, hf, cf) =~~= accumulate_step(
        accumulate(g, k, lf, sf, hf, cf),
        k,
        lf,
        sf,
        hf,
        cf,
    ));
}

/// No symbols.
pub open spec fn no_symbols() -> spec_fn(int, int, int) -> Seq<(char, CnfVariable, bool)> {
    |k: int, r: int, c: int| Seq::<(char, CnfVariable, bool)>::empty()
}

/// Never.
pub open spec fn never() -> spec_fn(int, int, int) -> bool {
    |k: int, r: int, c: int| false
}

/// Conflict literal `k` is a decimal variable of cell (r, c).
pub open spec fn dec_conflict_hit(cs: Seq<CnfVariable>) -> spec_fn(int, int, int) -> bool {
    |k: int, r: int, c: int| cs[k] matches CnfVariable::Decimal { row, col, .. } && at_cell(row, col, r, c)
}

/// A decimal conflict literal adds its negation, underlined, to its cell.
pub open spec fn dec_conflict_lf(cs: Seq<CnfVariable>) -> spec_fn(int, int, int) -> Seq<(i32, bool)> {
    |k: int, r: int, c: int|
        match cs[k] {
            CnfVariable::Decimal { row, col, value } => if at_cell(row, col, r, c) {
                seq![((-value) as i32, true)]
            } else {
                Seq::empty()
            },
            _ => Seq::empty(),
        }
}

/// A conflict literal can be shown on the grid: a decimal one lies in the
/// grid and its value can be negated.
pub open spec fn dec_conflict_ok(var: CnfVariable) -> bool {
    var matches CnfVariable::Decimal { row, col, value } ==> 1 <= row <= 9 && 1 <= col <= 9 && value
        != i32::MIN
}

/// A step that adds nothing leaves the grid as it is.
proof fn lemma_accumulate_step_nothing(
    prev: Seq<Seq<CellModel>>,
    k: int,
    lf: spec_fn(int, int, int) -> Seq<(i32, bool)>,
    sf: spec_fn(int, int, int) -> Seq<(char, CnfVariable, bool)>,
    hf: spec_fn(int, int, int) -> bool,
    cf: spec_fn(int, int, int) -> bool,
)
    requires
        grid_wf(prev),
        forall|r: int, c: int| 0 <= r < 9 && 0 <= c < 9 ==> #[trigger] lf(k, r, c) == Seq::<(i32, bool)>::empty(),
        forall|r: int, c: int|
            0 <= r < 9 && 0 <= c < 9 ==> #[trigger] sf(k, r, c) == Seq::<(char, CnfVariable, bool)>::empty(),
        forall|r: int, c: int| 0 <= r < 9 && 0 <= c < 9 ==> !#[trigger] hf(k, r, c),
        forall|r: int, c: int| 0 <= r < 9 && 0 <= c < 9 ==> !#[trigger] cf(k, r, c),
    ensures
        accumulate_step(prev, k, lf, sf, hf, cf) == prev,
{
    assert forall|r: int, c: int| 0 <= r < 9 && 0 <= c < 9 implies #[trigger] accumulate_step(
        prev,
        k,
        lf,
        sf,
        hf,
        cf,
    )[r][c] == prev[r][c] by {
        assert(lf(k, r, c) == Seq::<(i32, bool)>::empty());
        assert(sf(k, r, c) == Seq::<(char, CnfVariable, bool)>::empty());
        assert(!hf(k, r, c));
        assert(!cf(k, r, c));
        assert(prev[r][c].little_numbers + Seq::<(i32, bool)>::empty() =~= prev[r][c].little_numbers);
        assert(prev[r][c].eq_symbols + Seq::<(char, CnfVariable, bool)>::empty() =~= prev[r][c].eq_symbols);
    }
    assert(accumulate_step(prev, k, lf, sf, hf, cf) =~~= prev);
}

/// Shows conflict literal `k` on the grid (decimal encoding).
fn show_decimal_conflict(grid: &mut Vec<Vec<SudokuCell>>, cs: &Vec<CnfVariable>, k: usize)
    requires
        grid_wf(old(grid).deep_view()),
        k < cs@.len(),
        dec_conflict_ok(cs@[k as int]),
    ensures
        final(grid).deep_view() == accumulate_step(
            old(grid).deep_view(),
            k as int,
            dec_conflict_lf(cs@),
            no_symbols(),
            dec_conflict_hit(cs@),
            dec_conflict_hit(cs@),
        ),
{
    let ghost prev = grid.deep_view();
    let ghost lf = dec_conflict_lf(cs@);
    let ghost hf = dec_conflict_hit(cs@);
    proof {
        lemma_grid_dims(*grid);
    }
    match cs[k] {
        CnfVariable::Decimal { row, col, value } => {
            let r0 = (row - 1) as usize;
            let c0 = (col - 1) as usize;
            mark_conflict(grid, r0, c0);
            proof {
                lemma_grid_dims(*grid);
            }
            push_little(grid, r0, c0, (-value, true));
            proof {
                assert forall|r: int, c: int| 0 <= r < 9 && 0 <= c < 9 implies #[trigger] grid.deep_view()[r][c]
                    == accumulate_step(prev, k as int, lf, no_symbols(), hf, hf)[r][c] by {
                    let cell = prev[r][c];
                    assert(cell.eq_symbols + Seq::<(char, CnfVariable, bool)>::empty() =~= cell.eq_symbols);
                    if r == r0 && c == c0 {
                        assert(cell.little_numbers.push((-value as i32, true)) =~= cell.little_numbers + lf(
                            k as int,
                            r,
                            c,
                        ));
                    } else {
                        assert(cell.little_numbers + lf(k as int, r, c) =~= cell.little_numbers);
                    }
                }
                assert(grid.deep_view() =~~= accumulate_step(prev, k as int, lf, no_symbols(), hf, hf));
            }
        },
        _ => {
            proof {
                lemma_accumulate_step_nothing(prev, k as int, lf, no_symbols(), hf, hf);
            }
        },
    }
}

/// Trail variable `k` is a decimal variable of cell (r, c) whose value is
/// not already an underlined little number there (in `g1`).
pub open spec fn dec_trail_hit(g1: Seq<Seq<CellModel>>, t: Seq<CnfVariable>) -> spec_fn(int, int, int) -> bool {
    |k: int, r: int, c: int|
        t[k] matches CnfVariable::Decimal { row, col, value } && at_cell(row, col, r, c)
            && !g1[r][c].little_numbers.contains((value, true))
}

/// Such a trail variable adds its value, not underlined, to its cell.
pub open spec fn dec_trail_lf(g1: Seq<Seq<CellModel>>, t: Seq<CnfVariable>) -> spec_fn(int, int, int) -> Seq<
    (i32, bool),
> {
    |k: int, r: int, c: int|
        if dec_trail_hit(g1, t)(k, r, c) {
            seq![(t[k]->Decimal_value, false)]
        } else {
            Seq::empty()
        }
}

/// A trail variable can be shown on the grid: a decimal one lies in the grid.
pub open spec fn dec_trail_ok(var: CnfVariable) -> bool {
    var matches CnfVariable::Decimal { row, col, .. } ==> 1 <= row <= 9 && 1 <= col <= 9
}

/// Whether a cell's little numbers hold `x`.
fn has_little(list: &Vec<(i32, bool)>, x: (i32, bool)) -> (b: bool)
    ensures
        b == list@.contains(x),
{
    let mut i: usize = 0;
    while i < list.len()
        invariant
            i <= list@.len(),
            forall|j: int| 0 <= j < i ==> list@[j] != x,
        decreases list@.len() - i,
    {
        if list[i].0 == x.0 && list[i].1 == x.1 {
            assert(list@[i as int] == x);
            return true;
        }
        i += 1;
    }
    false
}

/// The little numbers trail variables add are never underlined.
proof fn lemma_trail_littles_plain(g1: Seq<Seq<CellModel>>, t: Seq<CnfVariable>, n: int, r: int, c: int)
    requires
        0 <= n,
    ensures
        forall|i: int|
            0 <= i < concat_map(n, cell_littles(dec_trail_lf(g1, t), r, c)).len() ==> !(#[trigger] concat_map(
                n,
                cell_littles(dec_trail_lf(g1, t), r, c),
            )[i]).1,
    decreases n,
{
    if n > 0 {
        lemma_trail_littles_plain(g1, t, n - 1, r, c);
        let l = cell_littles(dec_trail_lf(g1, t), r, c);
        assert(concat_map(n, l) == concat_map(n - 1, l) + l(n - 1));
    }
}

/// Shows trail variable `k` on the grid (decimal encoding); `g1` is the grid
/// before the trail was shown.
fn show_decimal_trail_var(
    grid: &mut Vec<Vec<SudokuCell>>,
    t: &Vec<CnfVariable>,
    k: usize,
    Ghost(g1): Ghost<Seq<Seq<CellModel>>>,
)
    requires
        grid_wf(g1),
        k < t@.len(),
        dec_trail_ok(t@[k as int]),
        old(grid).deep_view() == accumulate(
            g1,
            k as int,
            dec_trail_lf(g1, t@),
            no_symbols(),
            dec_trail_hit(g1, t@),
            never(),
        ),
    ensures
        final(grid).deep_view() == accumulate(
            g1,
            k + 1,
            dec_trail_lf(g1, t@),
            no_symbols(),
            dec_trail_hit(g1, t@),
            never(),
        ),
{
    let ghost prev = grid.deep_view();
    let ghost lf = dec_trail_lf(g1, t@);
    let ghost hf = dec_trail_hit(g1, t@);
    proof {
        lemma_accumulate_step(g1, k as int, lf, no_symbols(), hf, never());
        lemma_grid_dims(*grid);
    }
    match t[k] {
        CnfVariable::Decimal { row, col, value } => {
            let r0 = (row - 1) as usize;
            let c0 = (col - 1) as usize;
            let present = has_little(&grid[r0][c0].little_numbers, (value, true));
            proof {
                let l = cell_littles(lf, r0 as int, c0 as int);
                lemma_trail_littles_plain(g1, t@, k as int, r0 as int, c0 as int);
                let base = g1[r0 as int][c0 as int].little_numbers;
                let cur = base + concat_map(k as int, l);
                assert(prev[r0 as int][c0 as int].little_numbers == cur);
                if cur.contains((value, true)) {
                    let i = choose|i: int| 0 <= i < cur.len() && cur[i] == (value, true);
                    if i >= base.len() {
                        assert(cur[i] == concat_map(k as int, l)[i - base.len()]);
                    }
                    assert(base.contains((value, true)));
                }
                if base.contains((value, true)) {
                    let i = choose|i: int| 0 <= i < base.len() && base[i] == (value, true);
                    assert(cur[i] == (value, true));
                }
                assert(present == !hf(k as int, r0 as int, c0 as int));
            }
            if !present {
                hide_value(grid, r0, c0);
                proof {
                    lemma_grid_dims(*grid);
                }
                push_little(grid, r0, c0, (value, false));
                proof {
                    assert forall|r: int, c: int| 0 <= r < 9 && 0 <= c < 9 implies #[trigger] grid.deep_view()[r][c]
                        == accumulate_step(prev, k as int, lf, no_symbols(), hf, never())[r][c] by {
                        let cell = prev[r][c];
                        assert(cell.eq_symbols + Seq::<(char, CnfVariable, bool)>::empty() =~= cell.eq_symbols);
                        if r == r0 && c == c0 {
                            assert(cell.little_numbers.push((value, false)) =~= cell.little_numbers + lf(
                                k as int,
                                r,
                                c,
                            ));
                        } else {
                            assert(cell.little_numbers + lf(k as int, r, c) =~= cell.little_numbers);
                        }
                    }
                    assert(grid.deep_view() =~~= accumulate_step(prev, k as int, lf, no_symbols(), hf, never()));
                }
            } else {
                proof {
                    assert(grid_wf(prev));
                    lemma_accumulate_step_nothing(prev, k as int, lf, no_symbols(), hf, never());
                }
            }
        },
        _ => {
            proof {
                assert(grid_wf(prev));
                lemma_accumulate_step_nothing(prev, k as int, lf, no_symbols(), hf, never());
            }
        },
    }
}

/// A little number stays visible when it is positive or underlined.
pub open spec fn visible_pred() -> spec_fn((i32, bool)) -> bool {
    |x: (i32, bool)| x.0 > 0 || x.1
}

/// A cell keeps only its visible little numbers, unless none of them is.
pub open spec fn keep_visible(cell: CellModel) -> CellModel {
    let vis = cell.little_numbers.filter(visible_pred());
    CellModel { little_numbers: if vis.len() > 0 { vis } else { cell.little_numbers }, ..cell }
}

/// `keep_visible` as a function.
pub open spec fn keep_visible_fn() -> spec_fn(CellModel) -> CellModel {
    |cell: CellModel| keep_visible(cell)
}

/// The visible little numbers of a list, in order.
fn visible_littles(list: &Vec<(i32, bool)>) -> (r: Vec<(i32, bool)>)
    ensures
        r@ == list@.filter(visible_pred()),
{
    let mut r: Vec<(i32, bool)> = Vec::new();
    let mut i: usize = 0;
    proof {
        reveal(Seq::filter);
        assert(list@.take(0) =~= Seq::<(i32, bool)>::empty());
    }
    while i < list.len()
        invariant
            i <= list@.len(),
            r@ == list@.take(i as int).filter(visible_pred()),
        decreases list@.len() - i,
    {
        let x = list[i];
        proof {
            reveal(Seq::filter);
            assert(list@.take(i + 1).drop_last() =~= list@.take(i as int));
            assert(list@.take(i + 1).last() == x);
        }
        if x.0 > 0 || x.1 {
            r.push(x);
        }
        i += 1;
    }
    assert(list@.take(list@.len() as int) =~= list@);
    r
}

/// Keeps only the visible little numbers of every cell that has one.
fn keep_visible_littles(grid: &mut Vec<Vec<SudokuCell>>)
    ensures
        final(grid).deep_view() == map_cells(old(grid).deep_view(), keep_visible_fn()),
{
    let ghost g0 = grid.deep_view();
    let ghost f = keep_visible_fn();
    proof {
        lemma_partly_mapped_ends(g0, f);
    }
    let mut r: usize = 0;
    while r < grid.len()
        invariant
            g0.len() == grid@.len(),
            r <= g0.len(),
            f == keep_visible_fn(),
            grid.deep_view() == partly_mapped(g0, f, r as int, 0),
        decreases g0.len() - r,
    {
        assert(grid.deep_view()[r as int].len() == g0[r as int].len());
        let mut c: usize = 0;
        while c < grid[r].len()
            invariant
                g0.len() == grid@.len(),
                r < g0.len(),
                c <= g0[r as int].len(),
                grid@[r as int]@.len() == g0[r as int].len(),
                f == keep_visible_fn(),
                grid.deep_view() == partly_mapped(g0, f, r as int, c as int),
            decreases g0[r as int].len() - c,
        {
            let ghost before = grid.deep_view();
            let vis = visible_littles(&grid[r][c].little_numbers);
            if vis.len() > 0 {
                grid[r][c].little_numbers = vis;
            }
            proof {
                assert(before[r as int][c as int] == g0[r as int][c as int]);
                assert(grid.deep_view() =~~= with_cell(before, r as int, c as int, f(g0[r as int][c as int])));
                lemma_partly_mapped_step(g0, f, r as int, c as int);
            }
            c += 1;
        }
        proof {
            lemma_partly_mapped_row(g0, f, r as int);
        }
        r += 1;
    }
}

/// The grid with the conflict literals shown (decimal encoding).
pub open spec fn dec_conflicts_view(g0: Seq<Seq<CellModel>>, state: AppState) -> Seq<Seq<CellModel>> {
    match state.conflict_literals {
        Some(cs) => accumulate(
            g0,
            cs@.len() as int,
            dec_conflict_lf(cs@),
            no_symbols(),
            dec_conflict_hit(cs@),
            dec_conflict_hit(cs@),
        ),
        None => g0,
    }
}

/// The grid with the conflict of the clicked constraint and its trail shown
/// (decimal encoding): each decimal conflict literal marks its cell as part
/// of the conflict and adds its negation there, underlined; with a clicked
/// constraint, each decimal trail variable adds its value, not underlined,
/// to its cell unless the value is already there underlined, and then every
/// cell that has a positive or underlined little number keeps only those.
pub open spec fn decimal_trail_view(g0: Seq<Seq<CellModel>>, state: AppState) -> Seq<Seq<CellModel>> {
    let g1 = dec_conflicts_view(g0, state);
    if state.clicked_constraint_index is Some {
        let t = state.trail->0@;
        map_cells(
            accumulate(g1, t.len() as int, dec_trail_lf(g1, t), no_symbols(), dec_trail_hit(g1, t), never()),
            keep_visible_fn(),
        )
    } else {
        g1
    }
}

/// What the decimal view of a trail needs of the state: conflict literals
/// and (with a clicked constraint) a trail whose decimal variables lie in
/// the grid.
pub open spec fn decimal_trail_ok(state: AppState) -> bool {
    &&& state.conflict_literals matches Some(cs) ==> forall|k: int|
        0 <= k < cs@.len() ==> dec_conflict_ok(#[trigger] cs@[k])
    &&& state.clicked_constraint_index is Some ==> (state.trail matches Some(t) && forall|k: int|
        0 <= k < t@.len() ==> dec_trail_ok(#[trigger] t@[k]))
}

/// Shows the conflict and trail of the clicked constraint (decimal encoding).
fn decimal_trail_info(grid: &mut Vec<Vec<SudokuCell>>, state: &AppState)
    requires
        grid_wf(old(grid).deep_view()),
        decimal_trail_ok(*state),
    ensures
        final(grid).deep_view() == decimal_trail_view(old(grid).deep_view(), *state),
{
    let ghost g0 = grid.deep_view();
    // Find and mark cells affected by the conflict literals
    if let Some(conflicts) = &state.conflict_literals {
        let ghost lf = dec_conflict_lf(conflicts@);
        let ghost hf = dec_conflict_hit(conflicts@);
        proof {
            lemma_accumulate_none(g0, lf, no_symbols(), hf, hf);
        }
        let mut k: usize = 0;
        while k < conflicts.len()
            invariant
                k <= conflicts@.len(),
                grid_wf(g0),
                lf == dec_conflict_lf(conflicts@),
                hf == dec_conflict_hit(conflicts@),
                forall|j: int| 0 <= j < conflicts@.len() ==> dec_conflict_ok(#[trigger] conflicts@[j]),
                grid.deep_view() == accumulate(g0, k as int, lf, no_symbols(), hf, hf),
            decreases conflicts@.len() - k,
        {
            proof {
                lemma_accumulate_step(g0, k as int, lf, no_symbols(), hf, hf);
            }
            show_decimal_conflict(grid, conflicts, k);
            k += 1;
        }
    }
    let ghost g1 = grid.deep_view();
    assert(g1 == dec_conflicts_view(g0, *state));
    assert(grid_wf(g1));
    // Visualize the trail for the clicked constraint (if there is one)
    if state.clicked_constraint_index.is_some() {
        let variables = match &state.trail {
            Some(t) => t,
            None => {
                return;
            },
        };
        let ghost lf = dec_trail_lf(g1, variables@);
        let ghost hf = dec_trail_hit(g1, variables@);
        proof {
            lemma_accumulate_none(g1, lf, no_symbols(), hf, never());
        }
        let mut k: usize = 0;
        while k < variables.len()
            invariant
                k <= variables@.len(),
                grid_wf(g1),
                lf == dec_trail_lf(g1, variables@),
                hf == dec_trail_hit(g1, variables@),
                forall|j: int| 0 <= j < variables@.len() ==> dec_trail_ok(#[trigger] variables@[j]),
                grid.deep_view() == accumulate(g1, k as int, lf, no_symbols(), hf, never()),
            decreases variables@.len() - k,
        {
            show_decimal_trail_var(grid, variables, k, Ghost(g1));
            k += 1;
        }
        // Remove red little literals/numbers (negatives) from cell, if there is at least one blue literal/number (positive) in it
        keep_visible_littles(grid);
    }
}

/// The values 1..=9 as little numbers with the given underlining.
pub open spec fn all_values(flag: bool) -> Seq<(i32, bool)> {
    Seq::new(9, |i: int| ((i + 1) as i32, flag))
}

/// A cell whose little numbers are all nine values, underlined.
pub open spec fn fill_underlined_fn() -> spec_fn(CellModel) -> CellModel {
    |cell: CellModel| CellModel { little_numbers: all_values(true), ..cell }
}

/// A cell with all nine values added, not underlined.
pub open spec fn add_plain_values_fn() -> spec_fn(CellModel) -> CellModel {
    |cell: CellModel| CellModel { little_numbers: cell.little_numbers + all_values(false), ..cell }
}

/// A cell whose little numbers are exactly nine loses them.
pub open spec fn clear_nine_fn() -> spec_fn(CellModel) -> CellModel {
    |cell: CellModel|
        if cell.little_numbers.len() == 9 {
            CellModel { little_numbers: Seq::empty(), ..cell }
        } else {
            cell
        }
}

/// The nine values 1..=9 with the given underlining.
fn nine_values(flag: bool) -> (v: Vec<(i32, bool)>)
    ensures
        v@ == all_values(flag),
{
    let mut v: Vec<(i32, bool)> = Vec::new();
    let mut i: i32 = 0;
    while i < 9
        invariant
            0 <= i <= 9,
            v@ == all_values(flag).take(i as int),
        decreases 9 - i,
    {
        v.push((i + 1, flag));
        assert(v@ =~= all_values(flag).take(i + 1));
        i += 1;
    }
    assert(all_values(flag).take(9) =~= all_values(flag));
    v
}

/// Sets the little numbers of every cell to all nine values, underlined.
fn fill_underlined(grid: &mut Vec<Vec<SudokuCell>>)
    ensures
        final(grid).deep_view() == map_cells(old(grid).deep_view(), fill_underlined_fn()),
{
    let ghost g0 = grid.deep_view();
    let ghost f = fill_underlined_fn();
    proof {
        lemma_partly_mapped_ends(g0, f);
    }
    let mut r: usize = 0;
    while r < grid.len()
        invariant
            g0.len() == grid@.len(),
            r <= g0.len(),
            f == fill_underlined_fn(),
            grid.deep_view() == partly_mapped(g0, f, r as int, 0),
        decreases g0.len() - r,
    {
        assert(grid.deep_view()[r as int].len() == g0[r as int].len());
        let mut c: usize = 0;
        while c < grid[r].len()
            invariant
                g0.len() == grid@.len(),
                r < g0.len(),
                c <= g0[r as int].len(),
                grid@[r as int]@.len() == g0[r as int].len(),
                f == fill_underlined_fn(),
                grid.deep_view() == partly_mapped(g0, f, r as int, c as int),
            decreases g0[r as int].len() - c,
        {
            let ghost before = grid.deep_view();
            grid[r][c].little_numbers = nine_values(true);
            proof {
                assert(before[r as int][c as int] == g0[r as int][c as int]);
                assert(grid.deep_view() =~~= with_cell(before, r as int, c as int, f(g0[r as int][c as int])));
                lemma_partly_mapped_step(g0, f, r as int, c as int);
            }
            c += 1;
        }
        proof {
            lemma_partly_mapped_row(g0, f, r as int);
        }
        r += 1;
    }
}

/// Adds the nine values, not underlined, to every cell.
fn add_plain_values(grid: &mut Vec<Vec<SudokuCell>>)
    ensures
        final(grid).deep_view() == map_cells(old(grid).deep_view(), add_plain_values_fn()),
{
    let ghost g0 = grid.deep_view();
    let ghost f = add_plain_values_fn();
    proof {
        lemma_partly_mapped_ends(g0, f);
    }
    let mut r: usize = 0;
    while r < grid.len()
        invariant
            g0.len() == grid@.len(),
            r <= g0.len(),
            f == add_plain_values_fn(),
            grid.deep_view() == partly_mapped(g0, f, r as int, 0),
        decreases g0.len() - r,
    {
        assert(grid.deep_view()[r as int].len() == g0[r as int].len());
        let mut c: usize = 0;
        while c < grid[r].len()
            invariant
                g0.len() == grid@.len(),
                r < g0.len(),
                c <= g0[r as int].len(),
                grid@[r as int]@.len() == g0[r as int].len(),
                f == add_plain_values_fn(),
                grid.deep_view() == partly_mapped(g0, f, r as int, c as int),
            decreases g0[r as int].len() - c,
        {
            let ghost before = grid.deep_view();
            let mut extra = nine_values(false);
            grid[r][c].little_numbers.append(&mut extra);
            proof {
                assert(before[r as int][c as int] == g0[r as int][c as int]);
                assert(grid.deep_view() =~~= with_cell(before, r as int, c as int, f(g0[r as int][c as int])));
                lemma_partly_mapped_step(g0, f, r as int, c as int);
            }
            c += 1;
        }
        proof {
            lemma_partly_mapped_row(g0, f, r as int);
        }
        r += 1;
    }
}

/// Empties every cell that has exactly nine little numbers.
fn clear_nine(grid: &mut Vec<Vec<SudokuCell>>)
    ensures
        final(grid).deep_view() == map_cells(old(grid).deep_view(), clear_nine_fn()),
{
    let ghost g0 = grid.deep_view();
    let ghost f = clear_nine_fn();
    proof {
        lemma_partly_mapped_ends(g0, f);
    }
    let mut r: usize = 0;
    while r < grid.len()
        invariant
            g0.len() == grid@.len(),
            r <= g0.len(),
            f == clear_nine_fn(),
            grid.deep_view() == partly_mapped(g0, f, r as int, 0),
        decreases g0.len() - r,
    {
        assert(grid.deep_view()[r as int].len() == g0[r as int].len());
        let mut c: usize = 0;
        while c < grid[r].len()
            invariant
                g0.len() == grid@.len(),
                r < g0.len(),
                c <= g0[r as int].len(),
                grid@[r as int]@.len() == g0[r as int].len(),
                f == clear_nine_fn(),
                grid.deep_view() == partly_mapped(g0, f, r as int, c as int),
            decreases g0[r as int].len() - c,
        {
            let ghost before = grid.deep_view();
            if grid[r][c].little_numbers.len() == 9 {
                grid[r][c].little_numbers.clear();
            }
            proof {
                assert(before[r as int][c as int] == g0[r as int][c as int]);
                assert(grid.deep_view() =~~= with_cell(before, r as int, c as int, f(g0[r as int][c as int])));
                lemma_partly_mapped_step(g0, f, r as int, c as int);
            }
            c += 1;
        }
        proof {
            lemma_partly_mapped_row(g0, f, r as int);
        }
        r += 1;
    }
}

/// Filtering twice keeps what both predicates keep.
proof fn lemma_filter_filter<A>(s: Seq<A>, a: spec_fn(A) -> bool, b: spec_fn(A) -> bool)
    ensures
        s.filter(a).filter(b) == s.filter(|x: A| a(x) && b(x)),
    decreases s.len(),
{
    reveal(Seq::filter);
    let ab = |x: A| a(x) && b(x);
    if s.len() > 0 {
        lemma_filter_filter(s.drop_last(), a, b);
        let t = s.drop_last().filter(a);
        if a(s.last()) {
            assert(t.push(s.last()).drop_last() =~= t);
        }
    } else {
        assert(s.filter(a) =~= s);
    }
}

/// Filtering with predicates that agree everywhere gives the same result.
proof fn lemma_filter_same<A>(s: Seq<A>, a: spec_fn(A) -> bool, b: spec_fn(A) -> bool)
    requires
        forall|x: A| #[trigger] a(x) == b(x),
    ensures
        s.filter(a) == s.filter(b),
{
    assert(a =~= b);
}

/// Value `n` is one of 1..=9 whose bit `bit_index` (of n - 1) equals `value`:
/// one of the values a bit variable allows.
pub open spec fn in_possible(n: i32, bit_index: i32, value: bool) -> bool {
    1 <= n <= 9 && bit_matches((n - 1) as i32, bit_index, value)
}

/// Keeps the little numbers whose value a bit variable allows.
pub open spec fn possible_pred(bit_index: i32, value: bool) -> spec_fn((i32, bool)) -> bool {
    |x: (i32, bool)| in_possible(x.0, bit_index, value)
}

/// A bit variable of cell (r, c) allows value `n` (with its value flipped
/// when `negate` holds); other variables allow every value.
pub open spec fn bit_allows(var: CnfVariable, r: int, c: int, n: i32, negate: bool) -> bool {
    match var {
        CnfVariable::Bit { row, col, bit_index, value } => at_cell(row, col, r, c) ==> in_possible(
            n,
            bit_index,
            value != negate,
        ),
        _ => true,
    }
}

/// Keeps the little numbers of cell (r, c) that every one of the first `n`
/// bit variables of the cell allows.
pub open spec fn allowed_pred(vars: Seq<CnfVariable>, n: int, r: int, c: int, negate: bool) -> spec_fn(
    (i32, bool),
) -> bool {
    |x: (i32, bool)| forall|j: int| 0 <= j < n ==> #[trigger] bit_allows(vars[j], r, c, x.0, negate)
}

/// Only the little numbers allowed by the values the given bit allows.
fn retain_possible(list: &Vec<(i32, bool)>, bit_index: i32, value: bool) -> (r: Vec<(i32, bool)>)
    requires
        0 <= bit_index < 32,
    ensures
        r@ == list@.filter(possible_pred(bit_index, value)),
{
    let mut r: Vec<(i32, bool)> = Vec::new();
    let mut i: usize = 0;
    proof {
        reveal(Seq::filter);
        assert(list@.take(0) =~= Seq::<(i32, bool)>::empty());
    }
    while i < list.len()
        invariant
            i <= list@.len(),
            0 <= bit_index < 32,
            r@ == list@.take(i as int).filter(possible_pred(bit_index, value)),
        decreases list@.len() - i,
    {
        let x = list[i];
        proof {
            reveal(Seq::filter);
            assert(list@.take(i + 1).drop_last() =~= list@.take(i as int));
            assert(list@.take(i + 1).last() == x);
        }
        if 1 <= x.0 && x.0 <= 9 && (((x.0 - 1) & (1i32 << bit_index)) > 0) == value {
            r.push(x);
        }
        i += 1;
    }
    assert(list@.take(list@.len() as int) =~= list@);
    r
}

/// Adding one more variable to what the cell's little numbers must agree with.
proof fn lemma_allowed_step(
    s: Seq<(i32, bool)>,
    vars: Seq<CnfVariable>,
    k: int,
    r: int,
    c: int,
    negate: bool,
)
    requires
        0 <= k < vars.len(),
    ensures
        s.filter(allowed_pred(vars, k + 1, r, c, negate)) == match vars[k] {
            CnfVariable::Bit { row, col, bit_index, value } => if at_cell(row, col, r, c) {
                s.filter(allowed_pred(vars, k, r, c, negate)).filter(
                    possible_pred(bit_index, value != negate),
                )
            } else {
                s.filter(allowed_pred(vars, k, r, c, negate))
            },
            _ => s.filter(allowed_pred(vars, k, r, c, negate)),
        },
{
    let a = allowed_pred(vars, k, r, c, negate);
    let a1 = allowed_pred(vars, k + 1, r, c, negate);
    match vars[k] {
        CnfVariable::Bit { row, col, bit_index, value } => {
            if at_cell(row, col, r, c) {
                let p = possible_pred(bit_index, value != negate);
                lemma_filter_filter(s, a, p);
                assert forall|x: (i32, bool)| #[trigger] a1(x) == (a(x) && p(x)) by {
                    if a1(x) {
                        assert(bit_allows(vars[k], r, c, x.0, negate));
                    }
                    if a(x) && p(x) {
                        assert forall|j: int| 0 <= j < k + 1 implies #[trigger] bit_allows(
                            vars[j],
                            r,
                            c,
                            x.0,
                            negate,
                        ) by {
                            if j < k {
                                assert(bit_allows(vars[j], r, c, x.0, negate));
                            }
                        }
                    }
                }
                lemma_filter_same(s, a1, |x: (i32, bool)| a(x) && p(x));
            } else {
                assert forall|x: (i32, bool)| #[trigger] a1(x) == a(x) by {
                    if a(x) {
                        assert forall|j: int| 0 <= j < k + 1 implies #[trigger] bit_allows(
                            vars[j],
                            r,
                            c,
                            x.0,
                            negate,
                        ) by {
                            if j < k {
                                assert(bit_allows(vars[j], r, c, x.0, negate));
                            }
                        }
                    }
                }
                lemma_filter_same(s, a1, a);
            }
        },
        _ => {
            assert forall|x: (i32, bool)| #[trigger] a1(x) == a(x) by {
                if a(x) {
                    assert forall|j: int| 0 <= j < k + 1 implies #[trigger] bit_allows(
                        vars[j],
                        r,
                        c,
                        x.0,
                        negate,
                    ) by {
                        if j < k {
                            assert(bit_allows(vars[j], r, c, x.0, negate));
                        }
                    }
                }
            }
            lemma_filter_same(s, a1, a);
        },
    }
}

/// No variable allows anything yet: every little number is kept.
proof fn lemma_allowed_none(s: Seq<(i32, bool)>, vars: Seq<CnfVariable>, r: int, c: int, negate: bool)
    ensures
        s.filter(allowed_pred(vars, 0, r, c, negate)) == s,
    decreases s.len(),
{
    reveal(Seq::filter);
    if s.len() > 0 {
        lemma_allowed_none(s.drop_last(), vars, r, c, negate);
        assert(s.drop_last().push(s.last()) =~= s);
    }
}

/// No little numbers.
pub open spec fn no_littles() -> spec_fn(int, int, int) -> Seq<(i32, bool)> {
    |k: int, r: int, c: int| Seq::<(i32, bool)>::empty()
}

/// Conflict literal `k` is drawn on cell (r, c): a bit variable of the cell,
/// or an equality variable of which the cell is a side.
pub open spec fn bin_conflict_hit(cs: Seq<CnfVariable>) -> spec_fn(int, int, int) -> bool {
    |k: int, r: int, c: int|
        match cs[k] {
            CnfVariable::Bit { row, col, .. } => at_cell(row, col, r, c),
            CnfVariable::Equality { row, col, row2, col2, .. } => at_cell(row, col, r, c) || at_cell(
                row2,
                col2,
                r,
                c,
            ),
            CnfVariable::Decimal { .. } => false,
        }
}

/// An equality conflict literal adds the negated variable, with its symbol
/// and underlined, to each of its cells.
pub open spec fn bin_conflict_sf(cs: Seq<CnfVariable>) -> spec_fn(int, int, int) -> Seq<
    (char, CnfVariable, bool),
> {
    |k: int, r: int, c: int|
        match cs[k] {
            CnfVariable::Equality { row, col, row2, col2, bit_index, equal } => {
                let e = (
                    eq_symbol(eq_count(cs.take(k))),
                    CnfVariable::Equality { row, col, row2, col2, bit_index, equal: !equal },
                    true,
                );
                (if at_cell(row, col, r, c) {
                    seq![e]
                } else {
                    Seq::empty()
                }) + (if at_cell(row2, col2, r, c) {
                    seq![e]
                } else {
                    Seq::empty()
                })
            },
            _ => Seq::empty(),
        }
}

/// A conflict literal can be shown on the grid (binary encoding).
pub open spec fn bin_conflict_ok(var: CnfVariable) -> bool {
    match var {
        CnfVariable::Bit { row, col, bit_index, .. } => 1 <= row <= 9 && 1 <= col <= 9 && 0
            <= bit_index < 32,
        CnfVariable::Equality { row, col, row2, col2, .. } => 1 <= row <= 9 && 1 <= col <= 9 && 1
            <= row2 <= 9 && 1 <= col2 <= 9,
        CnfVariable::Decimal { .. } => true,
    }
}

/// The grid after the first `n` conflict literals are shown (binary
/// encoding): each cell keeps the little numbers that the negation of every
/// bit conflict literal of the cell allows.
pub open spec fn bin_conflicts_grid(g1: Seq<Seq<CellModel>>, cs: Seq<CnfVariable>, n: int) -> Seq<
    Seq<CellModel>,
> {
    Seq::new(
        9,
        |r: int|
            Seq::new(
                9,
                |c: int|
                    CellModel {
                        little_numbers: g1[r][c].little_numbers.filter(allowed_pred(cs, n, r, c, true)),
                        ..accumulate(
                            g1,
                            n,
                            no_littles(),
                            bin_conflict_sf(cs),
                            bin_conflict_hit(cs),
                            bin_conflict_hit(cs),
                        )[r][c]
                    },
            ),
    )
}

/// Replaces the little numbers of cell (r, c) (0-based).
fn set_littles(grid: &mut Vec<Vec<SudokuCell>>, r: usize, c: usize, v: Vec<(i32, bool)>)
    requires
        r < old(grid)@.len(),
        c < old(grid)@[r as int]@.len(),
    ensures
        final(grid).deep_view() == with_cell(
            old(grid).deep_view(),
            r as int,
            c as int,
            CellModel { little_numbers: v@, ..old(grid).deep_view()[r as int][c as int] },
        ),
{
    let ghost g0 = grid.deep_view();
    let ghost vv = v@;
    grid[r][c].little_numbers = v;
    assert(grid.deep_view() =~~= with_cell(
        g0,
        r as int,
        c as int,
        CellModel { little_numbers: vv, ..g0[r as int][c as int] },
    ));
}

proof fn lemma_bin_conflicts_none(g1: Seq<Seq<CellModel>>, cs: Seq<CnfVariable>)
    requires
        grid_wf(g1),
    ensures
        bin_conflicts_grid(g1, cs, 0) == g1,
{
    lemma_accumulate_none(g1, no_littles(), bin_conflict_sf(cs), bin_conflict_hit(cs), bin_conflict_hit(cs));
    assert forall|r: int, c: int| 0 <= r < 9 && 0 <= c < 9 implies #[trigger] bin_conflicts_grid(
        g1,
        cs,
        0,
    )[r][c] == g1[r][c] by {
        lemma_allowed_none(g1[r][c].little_numbers, cs, r, c, true);
    }
    assert(bin_conflicts_grid(g1, cs, 0) =~~= g1);
}

/// Shows conflict literal `k` on the grid (binary encoding).
fn show_binary_conflict(
    grid: &mut Vec<Vec<SudokuCell>>,
    cs: &Vec<CnfVariable>,
    k: usize,
    sym: char,
    Ghost(g1): Ghost<Seq<Seq<CellModel>>>,
)
    requires
        grid_wf(g1),
        k < cs@.len(),
        bin_conflict_ok(cs@[k as int]),
        sym == eq_symbol(eq_count(cs@.take(k as int))),
        old(grid).deep_view() == bin_conflicts_grid(g1, cs@, k as int),
    ensures
        final(grid).deep_view() == bin_conflicts_grid(g1, cs@, k + 1),
{
    let ghost prev = grid.deep_view();
    let ghost sf = bin_conflict_sf(cs@);
    let ghost hf = bin_conflict_hit(cs@);
    let ghost acc = accumulate(g1, k as int, no_littles(), sf, hf, hf);
    let ghost acc1 = accumulate(g1, (k + 1) as int, no_littles(), sf, hf, hf);
    proof {
        lemma_accumulate_step(g1, k as int, no_littles(), sf, hf, hf);
        lemma_grid_dims(*grid);
        assert forall|r: int, c: int| 0 <= r < 9 && 0 <= c < 9 implies #[trigger] g1[r][c].little_numbers.filter(
            allowed_pred(cs@, k + 1, r, c, true),
        ) == match cs@[k as int] {
            CnfVariable::Bit { row, col, bit_index, value } => if at_cell(row, col, r, c) {
                prev[r][c].little_numbers.filter(possible_pred(bit_index, value != true))
            } else {
                prev[r][c].little_numbers
            },
            _ => prev[r][c].little_numbers,
        } by {
            lemma_allowed_step(g1[r][c].little_numbers, cs@, k as int, r, c, true);
        }
        assert forall|r: int, c: int| 0 <= r < 9 && 0 <= c < 9 implies #[trigger] acc1[r][c] == CellModel {
            little_numbers: acc[r][c].little_numbers + Seq::empty(),
            eq_symbols: acc[r][c].eq_symbols + sf(k as int, r, c),
            draw_big_number: acc[r][c].draw_big_number && !hf(k as int, r, c),
            part_of_conflict: acc[r][c].part_of_conflict || hf(k as int, r, c),
            ..acc[r][c]
        } by {
            assert(acc1[r][c] == accumulate_step(acc, k as int, no_littles(), sf, hf, hf)[r][c]);
        }
    }
    match cs[k] {
        CnfVariable::Bit { row, col, bit_index, value } => {
            let r0 = (row - 1) as usize;
            let c0 = (col - 1) as usize;
            mark_conflict(grid, r0, c0);
            proof {
                lemma_grid_dims(*grid);
            }
            let kept = retain_possible(&grid[r0][c0].little_numbers, bit_index, !value);
            set_littles(grid, r0, c0, kept);
            proof {
                assert forall|r: int, c: int| 0 <= r < 9 && 0 <= c < 9 implies #[trigger] grid.deep_view()[r][c]
                    == bin_conflicts_grid(g1, cs@, k + 1)[r][c] by {
                    assert(sf(k as int, r, c) =~= Seq::empty());
                    assert(acc[r][c].eq_symbols + Seq::<(char, CnfVariable, bool)>::empty() =~= acc[r][c].eq_symbols);
                }
                assert(grid.deep_view() =~~= bin_conflicts_grid(g1, cs@, k + 1));
            }
        },
        CnfVariable::Equality { row, col, row2, col2, bit_index, equal } => {
            let r1 = (row - 1) as usize;
            let c1 = (col - 1) as usize;
            let r2 = (row2 - 1) as usize;
            let c2 = (col2 - 1) as usize;
            let entry = (sym, CnfVariable::Equality { row, col, row2, col2, bit_index, equal: !equal }, true);
            mark_conflict(grid, r1, c1);
            proof {
                lemma_grid_dims(*grid);
            }
            push_symbol(grid, r1, c1, entry);
            proof {
                lemma_grid_dims(*grid);
            }
            mark_conflict(grid, r2, c2);
            proof {
                lemma_grid_dims(*grid);
            }
            push_symbol(grid, r2, c2, entry);
            proof {
                assert forall|r: int, c: int| 0 <= r < 9 && 0 <= c < 9 implies #[trigger] grid.deep_view()[r][c]
                    == bin_conflicts_grid(g1, cs@, k + 1)[r][c] by {
                    let base = prev[r][c];
                    if r == r1 && c == c1 && r == r2 && c == c2 {
                        assert(base.eq_symbols.push(entry).push(entry) =~= base.eq_symbols + (seq![entry]
                            + seq![entry]));
                    } else if r == r1 && c == c1 {
                        assert(base.eq_symbols.push(entry) =~= base.eq_symbols + (seq![entry]
                            + Seq::empty()));
                    } else if r == r2 && c == c2 {
                        assert(base.eq_symbols.push(entry) =~= base.eq_symbols + (Seq::empty()
                            + seq![entry]));
                    } else {
                        assert(base.eq_symbols + (Seq::<(char, CnfVariable, bool)>::empty()
                            + Seq::empty()) =~= base.eq_symbols);
                    }
                }
                assert(grid.deep_view() =~~= bin_conflicts_grid(g1, cs@, k + 1));
            }
        },
        CnfVariable::Decimal { .. } => {
            proof {
                assert forall|r: int, c: int| 0 <= r < 9 && 0 <= c < 9 implies #[trigger] grid.deep_view()[r][c]
                    == bin_conflicts_grid(g1, cs@, k + 1)[r][c] by {
                    assert(sf(k as int, r, c) =~= Seq::empty());
                    assert(acc[r][c].eq_symbols + Seq::<(char, CnfVariable, bool)>::empty() =~= acc[r][c].eq_symbols);
                }
                assert(grid.deep_view() =~~= bin_conflicts_grid(g1, cs@, k + 1));
            }
        },
    }
}

/// Trail variable `k` is a bit variable of cell (r, c).
pub open spec fn bin_trail_hit(t: Seq<CnfVariable>) -> spec_fn(int, int, int) -> bool {
    |k: int, r: int, c: int| t[k] matches CnfVariable::Bit { row, col, .. } && at_cell(row, col, r, c)
}

/// A trail variable can be shown on the grid (binary encoding).
pub open spec fn bin_trail_ok(var: CnfVariable) -> bool {
    var matches CnfVariable::Bit { row, col, bit_index, .. } ==> 1 <= row <= 9 && 1 <= col <= 9 && 0
        <= bit_index < 32
}

/// The grid after the first `n` trail variables are shown (binary
/// encoding): each cell keeps the little numbers that every bit trail
/// variable of the cell allows, and the cells of those variables hide their
/// values.
pub open spec fn bin_trail_grid(g2: Seq<Seq<CellModel>>, t: Seq<CnfVariable>, n: int) -> Seq<
    Seq<CellModel>,
> {
    Seq::new(
        9,
        |r: int|
            Seq::new(
                9,
                |c: int|
                    CellModel {
                        little_numbers: g2[r][c].little_numbers.filter(allowed_pred(t, n, r, c, false)),
                        ..accumulate(g2, n, no_littles(), no_symbols(), bin_trail_hit(t), never())[r][c]
                    },
            ),
    )
}

proof fn lemma_bin_trail_none(g2: Seq<Seq<CellModel>>, t: Seq<CnfVariable>)
    requires
        grid_wf(g2),
    ensures
        bin_trail_grid(g2, t, 0) == g2,
{
    lemma_accumulate_none(g2, no_littles(), no_symbols(), bin_trail_hit(t), never());
    assert forall|r: int, c: int| 0 <= r < 9 && 0 <= c < 9 implies #[trigger] bin_trail_grid(
        g2,
        t,
        0,
    )[r][c] == g2[r][c] by {
        lemma_allowed_none(g2[r][c].little_numbers, t, r, c, false);
    }
    assert(bin_trail_grid(g2, t, 0) =~~= g2);
}

/// Shows trail variable `k` on the grid (binary encoding).
fn show_binary_trail_var(
    grid: &mut Vec<Vec<SudokuCell>>,
    t: &Vec<CnfVariable>,
    k: usize,
    Ghost(g2): Ghost<Seq<Seq<CellModel>>>,
)
    requires
        grid_wf(g2),
        k < t@.len(),
        bin_trail_ok(t@[k as int]),
        old(grid).deep_view() == bin_trail_grid(g2, t@, k as int),
    ensures
        final(grid).deep_view() == bin_trail_grid(g2, t@, k + 1),
{
    let ghost prev = grid.deep_view();
    let ghost hf = bin_trail_hit(t@);
    let ghost acc = accumulate(g2, k as int, no_littles(), no_symbols(), hf, never());
    let ghost acc1 = accumulate(g2, (k + 1) as int, no_littles(), no_symbols(), hf, never());
    proof {
        lemma_accumulate_step(g2, k as int, no_littles(), no_symbols(), hf, never());
        lemma_grid_dims(*grid);
        assert forall|r: int, c: int| 0 <= r < 9 && 0 <= c < 9 implies #[trigger] g2[r][c].little_numbers.filter(
            allowed_pred(t@, k + 1, r, c, false),
        ) == match t@[k as int] {
            CnfVariable::Bit { row, col, bit_index, value } => if at_cell(row, col, r, c) {
                prev[r][c].little_numbers.filter(possible_pred(bit_index, value != false))
            } else {
                prev[r][c].little_numbers
            },
            _ => prev[r][c].little_numbers,
        } by {
            lemma_allowed_step(g2[r][c].little_numbers, t@, k as int, r, c, false);
        }
        assert forall|r: int, c: int| 0 <= r < 9 && 0 <= c < 9 implies #[trigger] acc1[r][c] == CellModel {
            little_numbers: acc[r][c].little_numbers + Seq::empty(),
            eq_symbols: acc[r][c].eq_symbols + Seq::empty(),
            draw_big_number: acc[r][c].draw_big_number && !hf(k as int, r, c),
            ..acc[r][c]
        } by {
            assert(acc1[r][c] == accumulate_step(acc, k as int, no_littles(), no_symbols(), hf, never())[r][c]);
        }
    }
    match t[k] {
        CnfVariable::Bit { row, col, bit_index, value } => {
            let r0 = (row - 1) as usize;
            let c0 = (col - 1) as usize;
            hide_value(grid, r0, c0);
            proof {
                lemma_grid_dims(*grid);
            }
            let kept = retain_possible(&grid[r0][c0].little_numbers, bit_index, value);
            set_littles(grid, r0, c0, kept);
            proof {
                assert forall|r: int, c: int| 0 <= r < 9 && 0 <= c < 9 implies #[trigger] grid.deep_view()[r][c]
                    == bin_trail_grid(g2, t@, k + 1)[r][c] by {
                    assert(acc[r][c].eq_symbols + Seq::<(char, CnfVariable, bool)>::empty() =~= acc[r][c].eq_symbols);
                }
                assert(grid.deep_view() =~~= bin_trail_grid(g2, t@, k + 1));
            }
        },
        _ => {
            proof {
                assert forall|r: int, c: int| 0 <= r < 9 && 0 <= c < 9 implies #[trigger] grid.deep_view()[r][c]
                    == bin_trail_grid(g2, t@, k + 1)[r][c] by {
                    assert(acc[r][c].eq_symbols + Seq::<(char, CnfVariable, bool)>::empty() =~= acc[r][c].eq_symbols);
                }
                assert(grid.deep_view() =~~= bin_trail_grid(g2, t@, k + 1));
            }
        },
    }
}

/// `map_cells` keeps the shape of the grid.
proof fn lemma_map_cells_wf(g: Seq<Seq<CellModel>>, f: spec_fn(CellModel) -> CellModel)
    requires
        grid_wf(g),
    ensures
        grid_wf(map_cells(g, f)),
{
}

/// The conflict literals of the state, or none.
pub open spec fn conflicts_of(state: AppState) -> Seq<CnfVariable> {
    match state.conflict_literals {
        Some(cs) => cs@,
        None => Seq::empty(),
    }
}

/// The grid with the conflict literals shown (binary encoding): every cell
/// starts with all nine values, underlined; each bit conflict literal marks
/// its cell as part of the conflict and keeps there only the values its
/// negation allows; each equality conflict literal marks its two cells and
/// adds its negation to them with the next symbol, underlined; cells left
/// with all nine values are emptied.
pub open spec fn binary_conflicts_view(g0: Seq<Seq<CellModel>>, state: AppState) -> Seq<Seq<CellModel>> {
    let cs = conflicts_of(state);
    map_cells(
        bin_conflicts_grid(map_cells(g0, fill_underlined_fn()), cs, cs.len() as int),
        clear_nine_fn(),
    )
}

/// Update conflict literal related info for binary encoded CNF
pub fn update_binary_conflict_literals(grid: &mut Vec<Vec<SudokuCell>>, state: &AppState)
    requires
        grid_wf(old(grid).deep_view()),
        forall|k: int|
            0 <= k < conflicts_of(*state).len() ==> bin_conflict_ok(#[trigger] conflicts_of(*state)[k]),
    ensures
        final(grid).deep_view() == binary_conflicts_view(old(grid).deep_view(), *state),
{
    let ghost g0 = grid.deep_view();
    fill_underlined(grid);
    let ghost g1 = grid.deep_view();
    proof {
        lemma_map_cells_wf(g0, fill_underlined_fn());
        lemma_bin_conflicts_none(g1, conflicts_of(*state));
    }
    if let Some(conflicts) = &state.conflict_literals {
        let mut sym_idx: usize = 0;
        let mut k: usize = 0;
        while k < conflicts.len()
            invariant
                k <= conflicts@.len(),
                grid_wf(g1),
                conflicts@ == conflicts_of(*state),
                forall|j: int| 0 <= j < conflicts@.len() ==> bin_conflict_ok(#[trigger] conflicts@[j]),
                grid.deep_view() == bin_conflicts_grid(g1, conflicts@, k as int),
                sym_idx == eq_count(conflicts@.take(k as int)),
                sym_idx <= k,
            decreases conflicts@.len() - k,
        {
            proof {
                lemma_eq_count_step(conflicts@, k as int);
            }
            let sym = symbol_for(sym_idx);
            show_binary_conflict(grid, conflicts, k, sym, Ghost(g1));
            if let CnfVariable::Equality { .. } = conflicts[k] {
                sym_idx += 1;
            }
            k += 1;
        }
    }
    clear_nine(grid);
}

/// The grid with the trail of the clicked constraint shown (binary
/// encoding): every cell gets all nine values, not underlined; each bit
/// trail variable hides the value of its cell and keeps there only the
/// little numbers it allows; cells left with exactly nine little numbers are
/// emptied. Without a clicked constraint nothing changes.
pub open spec fn binary_trail_view(g2: Seq<Seq<CellModel>>, state: AppState) -> Seq<Seq<CellModel>> {
    if state.clicked_constraint_index is Some {
        let t = state.trail->0@;
        map_cells(
            bin_trail_grid(map_cells(g2, add_plain_values_fn()), t, t.len() as int),
            clear_nine_fn(),
        )
    } else {
        g2
    }
}

/// What the binary view of a trail needs of the state: with a clicked
/// constraint, a trail whose bit variables lie in the grid.
pub open spec fn binary_trail_ok(state: AppState) -> bool {
    state.clicked_constraint_index is Some ==> (state.trail matches Some(t) && forall|k: int|
        0 <= k < t@.len() ==> bin_trail_ok(#[trigger] t@[k]))
}

/// Update trail related info for binary encoded CNF (should be called after update_binary_conflict_literals)
pub fn update_binary_trail(grid: &mut Vec<Vec<SudokuCell>>, state: &AppState)
    requires
        grid_wf(old(grid).deep_view()),
        binary_trail_ok(*state),
    ensures
        final(grid).deep_view() == binary_trail_view(old(grid).deep_view(), *state),
{
    let ghost g0 = grid.deep_view();
    if state.clicked_constraint_index.is_some() {
        let variables = match &state.trail {
            Some(t) => t,
            None => {
                return;
            },
        };
        add_plain_values(grid);
        let ghost g2 = grid.deep_view();
        proof {
            lemma_map_cells_wf(g0, add_plain_values_fn());
            lemma_bin_trail_none(g2, variables@);
        }
        let mut k: usize = 0;
        while k < variables.len()
            invariant
                k <= variables@.len(),
                grid_wf(g2),
                forall|j: int| 0 <= j < variables@.len() ==> bin_trail_ok(#[trigger] variables@[j]),
                grid.deep_view() == bin_trail_grid(g2, variables@, k as int),
            decreases variables@.len() - k,
        {
            show_binary_trail_var(grid, variables, k, Ghost(g2));
            k += 1;
        }
        clear_nine(grid);
    }
}

/// The grid with the conflict of the clicked constraint and its trail
/// shown, for the encoding in use; nothing changes unless a trail is shown.
pub open spec fn trail_view(g0: Seq<Seq<CellModel>>, state: AppState) -> Seq<Seq<CellModel>> {
    if !state.show_trail {
        g0
    } else if state.encoding is Decimal {
        decimal_trail_view(g0, state)
    } else {
        binary_trail_view(binary_conflicts_view(g0, state), state)
    }
}

/// Update conflict booleans and little symbols related to trails in SudokuCells
pub fn update_trail_info(grid: &mut Vec<Vec<SudokuCell>>, state: &AppState)
    requires
        grid_wf(old(grid).deep_view()),
        state.show_trail && state.encoding is Decimal ==> decimal_trail_ok(*state),
        state.show_trail && state.encoding is Binary ==> binary_trail_ok(*state) && forall|k: int|
            0 <= k < conflicts_of(*state).len() ==> bin_conflict_ok(#[trigger] conflicts_of(*state)[k]),
    ensures
        final(grid).deep_view() == trail_view(old(grid).deep_view(), *state),
{
    // Only do this if we are visualizing a trail (and not a constraint). That case is handled in update_selected_constraint
    if !state.show_trail {
        return;
    }
    match state.encoding {
        EncodingType::Decimal { .. } => {
            decimal_trail_info(grid, state);
        },
        EncodingType::Binary => {
            // Binary handled in two separate functions, as the code is more complex than the decimal case
            let ghost g0 = grid.deep_view();
            update_binary_conflict_literals(grid, state);
            proof {
                lemma_map_cells_wf(g0, fill_underlined_fn());
                assert(grid_wf(bin_conflicts_grid(
                    map_cells(g0, fill_underlined_fn()),
                    conflicts_of(*state),
                    conflicts_of(*state).len() as int,
                )));
                lemma_map_cells_wf(
                    bin_conflicts_grid(
                        map_cells(g0, fill_underlined_fn()),
                        conflicts_of(*state),
                        conflicts_of(*state).len() as int,
                    ),
                    clear_nine_fn(),
                );
            }
            update_binary_trail(grid, state);
        },
    }
}

// ------------------------------------------------------------ editing cells

/// The values of the cells, row by row.
pub open spec fn grid_values(g: Seq<Seq<CellModel>>) -> Seq<Seq<Option<i32>>> {
    Seq::new(g.len(), |r: int| Seq::new(g[r].len(), |c: int| g[r][c].value))
}

/// The values of the grid's cells.
pub fn get_option_value_sudoku(grid: &Vec<Vec<SudokuCell>>) -> (sudoku: Vec<Vec<Option<i32>>>)
    ensures
        sudoku.deep_view() == grid_values(grid.deep_view()),
{
    let ghost g = grid.deep_view();
    let mut sudoku: Vec<Vec<Option<i32>>> = Vec::new();
    let mut r: usize = 0;
    while r < grid.len()
        invariant
            r <= grid@.len(),
            g == grid.deep_view(),
            sudoku.deep_view() == grid_values(g).take(r as int),
        decreases grid@.len() - r,
    {
        let mut row_vec: Vec<Option<i32>> = Vec::new();
        let mut c: usize = 0;
        while c < grid[r].len()
            invariant
                r < grid@.len(),
                c <= grid@[r as int]@.len(),
                g == grid.deep_view(),
                row_vec@ == grid_values(g)[r as int].take(c as int),
            decreases grid@[r as int]@.len() - c,
        {
            row_vec.push(grid[r][c].value);
            assert(row_vec@ =~= grid_values(g)[r as int].take(c + 1));
            c += 1;
        }
        assert(row_vec@ =~= grid_values(g)[r as int]);
        let ghost before = sudoku.deep_view();
        crate::sudoku::push_row(&mut sudoku, row_vec);
        assert(sudoku.deep_view() =~= grid_values(g).take(r + 1));
        r += 1;
    }
    assert(sudoku.deep_view() =~= grid_values(g));
    sudoku
}

/// A cell given a value (or emptied): a value makes it a clue when clues are
/// being entered and marks it fixed when the fixed literals force it; an
/// empty cell is neither a clue nor fixed.
pub open spec fn set_cell_model(
    cell: CellModel,
    value: Option<i32>,
    add_new_clue: bool,
    encoding: EncodingType,
    fixed: Seq<i32>,
    row: int,
    col: int,
) -> CellModel {
    match value {
        Some(v) => CellModel {
            value: Some(v),
            clue: cell.clue || add_new_clue,
            fixed: cell.fixed || encoding.spec_fixed(fixed, row, col, v as int),
            ..cell
        },
        None => CellModel { value: None, clue: false, fixed: false, ..cell },
    }
}

/// Set a value to specific cell using row and column (1-9 indexed); `fixed`
/// holds what the solver reports as fixed for each identifier.
pub fn set_cell(
    grid: &mut Vec<Vec<SudokuCell>>,
    encoding: &EncodingType,
    fixed: &Vec<i32>,
    row: i32,
    col: i32,
    value: Option<i32>,
    add_new_clue: bool,
)
    requires
        1 <= row <= old(grid)@.len(),
        1 <= col <= old(grid)@[row - 1]@.len(),
        value matches Some(v) ==> encoding.fixed_ids_fit(row as int, col as int, v as int),
    ensures
        final(grid).deep_view() == with_cell(
            old(grid).deep_view(),
            row - 1,
            col - 1,
            set_cell_model(
                old(grid).deep_view()[row - 1][col - 1],
                value,
                add_new_clue,
                *encoding,
                fixed@,
                row as int,
                col as int,
            ),
        ),
{
    let ghost g0 = grid.deep_view();
    let r = (row - 1) as usize;
    let c = (col - 1) as usize;
    grid[r][c].value = value;
    if let Some(val) = value {
        if add_new_clue {
            grid[r][c].clue = true;
        }
        if encoding.fixed(fixed, row, col, val) {
            grid[r][c].fixed = true;
        }
    } else {
        grid[r][c].clue = false;
        grid[r][c].fixed = false;
    }
    assert(grid.deep_view() =~~= with_cell(
        g0,
        r as int,
        c as int,
        set_cell_model(g0[r as int][c as int], value, add_new_clue, *encoding, fixed@, row as int, col as int),
    ));
}

/// The grid after every cell named by `sudoku` is set to its value there.
pub open spec fn grid_from_values(
    g: Seq<Seq<CellModel>>,
    sudoku: Seq<Seq<Option<i32>>>,
    add_new_clues: bool,
    encoding: EncodingType,
    fixed: Seq<i32>,
) -> Seq<Seq<CellModel>> {
    Seq::new(
        g.len(),
        |r: int|
            Seq::new(
                g[r].len(),
                |c: int|
                    if r < sudoku.len() && c < sudoku[r].len() {
                        set_cell_model(g[r][c], sudoku[r][c], add_new_clues, encoding, fixed, r + 1, c + 1)
                    } else {
                        g[r][c]
                    },
            ),
    )
}

/// The grid after the rows before `r` and the first `c` cells of row `r` of
/// `sudoku` are set.
pub open spec fn partly_from_values(
    g: Seq<Seq<CellModel>>,
    sudoku: Seq<Seq<Option<i32>>>,
    add_new_clues: bool,
    encoding: EncodingType,
    fixed: Seq<i32>,
    r: int,
    c: int,
) -> Seq<Seq<CellModel>> {
    Seq::new(
        g.len(),
        |i: int|
            Seq::new(
                g[i].len(),
                |j: int|
                    if i < sudoku.len() && j < sudoku[i].len() && (i < r || (i == r && j < c)) {
                        set_cell_model(g[i][j], sudoku[i][j], add_new_clues, encoding, fixed, i + 1, j + 1)
                    } else {
                        g[i][j]
                    },
            ),
    )
}

/// Every value of `sudoku` can be set in the grid: it fits in the grid and
/// the identifiers that `fixed` consults can be computed.
pub open spec fn values_fit(
    g: Seq<Seq<CellModel>>,
    sudoku: Seq<Seq<Option<i32>>>,
    encoding: EncodingType,
) -> bool {
    &&& sudoku.len() <= g.len()
    &&& forall|r: int| 0 <= r < sudoku.len() ==> #[trigger] sudoku[r].len() <= g[r].len()
    &&& forall|r: int, c: int|
        0 <= r < sudoku.len() && 0 <= c < sudoku[r].len() && #[trigger] sudoku[r][c] is Some
            ==> encoding.fixed_ids_fit(r + 1, c + 1, sudoku[r][c]->0 as int)
}

/// Sets every cell named by `sudoku` to its value there (cells are 1-9 indexed).
pub fn sudoku_from_option_values(
    grid: &mut Vec<Vec<SudokuCell>>,
    sudoku: &Vec<Vec<Option<i32>>>,
    add_new_clues: bool,
    encoding: &EncodingType,
    fixed: &Vec<i32>,
)
    requires
        old(grid)@.len() <= 9,
        forall|r: int| 0 <= r < old(grid)@.len() ==> #[trigger] old(grid)@[r]@.len() <= 9,
        values_fit(old(grid).deep_view(), sudoku.deep_view(), *encoding),
    ensures
        final(grid).deep_view() == grid_from_values(
            old(grid).deep_view(),
            sudoku.deep_view(),
            add_new_clues,
            *encoding,
            fixed@,
        ),
{
    let ghost g0 = grid.deep_view();
    let ghost sv = sudoku.deep_view();
    assert(partly_from_values(g0, sv, add_new_clues, *encoding, fixed@, 0, 0) =~~= g0);
    let mut r: usize = 0;
    while r < sudoku.len()
        invariant
            r <= sv.len(),
            sv == sudoku.deep_view(),
            g0.len() <= 9,
            forall|i: int| 0 <= i < g0.len() ==> #[trigger] g0[i].len() <= 9,
            values_fit(g0, sv, *encoding),
            grid.deep_view() == partly_from_values(g0, sv, add_new_clues, *encoding, fixed@, r as int, 0),
        decreases sv.len() - r,
    {
        let mut c: usize = 0;
        while c < sudoku[r].len()
            invariant
                r < sv.len(),
                c <= sv[r as int].len(),
                sv == sudoku.deep_view(),
                g0.len() <= 9,
                forall|i: int| 0 <= i < g0.len() ==> #[trigger] g0[i].len() <= 9,
                values_fit(g0, sv, *encoding),
                grid.deep_view() == partly_from_values(
                    g0,
                    sv,
                    add_new_clues,
                    *encoding,
                    fixed@,
                    r as int,
                    c as int,
                ),
            decreases sv[r as int].len() - c,
        {
            proof {
                lemma_grid_dims(*grid);
                assert(sv[r as int].len() <= g0[r as int].len());
            }
            let value = sudoku[r][c];
            assert(value == sv[r as int][c as int]);
            let ghost before = grid.deep_view();
            set_cell(grid, encoding, fixed, (r + 1) as i32, (c + 1) as i32, value, add_new_clues);
            assert(grid.deep_view() =~~= partly_from_values(
                g0,
                sv,
                add_new_clues,
                *encoding,
                fixed@,
                r as int,
                c + 1,
            ));
            c += 1;
        }
        assert(grid.deep_view() =~~= partly_from_values(
            g0,
            sv,
            add_new_clues,
            *encoding,
            fixed@,
            r + 1,
            0,
        ));
        r += 1;
    }
    assert(grid.deep_view() =~~= grid_from_values(g0, sv, add_new_clues, *encoding, fixed@));
}

/// A cell returned to the unsolved state: it keeps its value only when it is
/// a clue, and is not fixed.
pub open spec fn unsolved_fn() -> spec_fn(CellModel) -> CellModel {
    |cell: CellModel|
        CellModel { value: if cell.clue { cell.value } else { None }, fixed: false, ..cell }
}

/// Returns the grid to an unsolved state: only the clues keep their values.
pub fn clear_solved_values(grid: &mut Vec<Vec<SudokuCell>>)
    ensures
        final(grid).deep_view() == map_cells(old(grid).deep_view(), unsolved_fn()),
{
    let ghost g0 = grid.deep_view();
    let ghost f = unsolved_fn();
    proof {
        lemma_partly_mapped_ends(g0, f);
    }
    let mut r: usize = 0;
    while r < grid.len()
        invariant
            g0.len() == grid@.len(),
            r <= g0.len(),
            f == unsolved_fn(),
            grid.deep_view() == partly_mapped(g0, f, r as int, 0),
        decreases g0.len() - r,
    {
        assert(grid.deep_view()[r as int].len() == g0[r as int].len());
        let mut c: usize = 0;
        while c < grid[r].len()
            invariant
                g0.len() == grid@.len(),
                r < g0.len(),
                c <= g0[r as int].len(),
                grid@[r as int]@.len() == g0[r as int].len(),
                f == unsolved_fn(),
                grid.deep_view() == partly_mapped(g0, f, r as int, c as int),
            decreases g0[r as int].len() - c,
        {
            let ghost before = grid.deep_view();
            if !grid[r][c].clue {
                grid[r][c].value = None;
            }
            grid[r][c].fixed = false;
            proof {
                assert(before[r as int][c as int] == g0[r as int][c as int]);
                assert(grid.deep_view() =~~= with_cell(before, r as int, c as int, f(g0[r as int][c as int])));
                lemma_partly_mapped_step(g0, f, r as int, c as int);
            }
            c += 1;
        }
        proof {
            lemma_partly_mapped_row(g0, f, r as int);
        }
        r += 1;
    }
}

/// A key pressed while a sudoku is being entered: a digit, backspace, or an
/// arrow that moves the selected cell.
#[derive(Clone, Copy, Debug, PartialEq, Eq, Structural)]
pub enum EditorKey {
    Digit(i32),
    Backspace,
    Left,
    Right,
    Up,
    Down,
}

/// The selected cell after a key: the arrows move it one cell within the
/// grid; other keys leave it.
pub open spec fn next_selection(selected: Option<(i32, i32)>, key: EditorKey) -> Option<(i32, i32)> {
    match selected {
        Some((row, col)) => match key {
            EditorKey::Left => if col > 1 {
                Some((row, (col - 1) as i32))
            } else {
                selected
            },
            EditorKey::Right => if col < 9 {
                Some((row, (col + 1) as i32))
            } else {
                selected
            },
            EditorKey::Down => if row < 9 {
                Some(((row + 1) as i32, col))
            } else {
                selected
            },
            EditorKey::Up => if row > 1 {
                Some(((row - 1) as i32, col))
            } else {
                selected
            },
            _ => selected,
        },
        None => None,
    }
}

/// The grid after a key: a digit other than 0 enters a clue in the selected
/// cell, backspace empties it; other keys leave the grid.
pub open spec fn edited_grid(
    g: Seq<Seq<CellModel>>,
    selected: Option<(i32, i32)>,
    key: EditorKey,
    encoding: EncodingType,
    fixed: Seq<i32>,
) -> Seq<Seq<CellModel>> {
    match selected {
        Some((row, col)) => match key {
            EditorKey::Digit(n) => if n != 0 {
                with_cell(
                    g,
                    row - 1,
                    col - 1,
                    set_cell_model(g[row - 1][col - 1], Some(n), true, encoding, fixed, row as int, col as int),
                )
            } else {
                g
            },
            EditorKey::Backspace => with_cell(
                g,
                row - 1,
                col - 1,
                set_cell_model(g[row - 1][col - 1], None, false, encoding, fixed, row as int, col as int),
            ),
            _ => g,
        },
        None => g,
    }
}

/// What editing needs: a digit or backspace applies to a selected cell of
/// the grid, and a digit's identifiers can be computed.
pub open spec fn editor_key_ok(g: Seq<Seq<CellModel>>, state: AppState, key: EditorKey) -> bool {
    match state.selected_cell {
        Some((row, col)) => match key {
            EditorKey::Digit(n) => n != 0 ==> 1 <= row <= 9 && 1 <= col <= 9
                && state.encoding.fixed_ids_fit(row as int, col as int, n as int),
            EditorKey::Backspace => 1 <= row <= 9 && 1 <= col <= 9,
            _ => true,
        },
        None => true,
    }
}

/// Handles a key for inputting/editing a sudoku; returns false for the digit
/// 0, after which the remaining keys are not handled.
pub fn editor_key(
    grid: &mut Vec<Vec<SudokuCell>>,
    state: &mut AppState,
    key: EditorKey,
    fixed: &Vec<i32>,
) -> (go_on: bool)
    requires
        grid_wf(old(grid).deep_view()),
        editor_key_ok(old(grid).deep_view(), *old(state), key),
    ensures
        go_on == (key != EditorKey::Digit(0)),
        *final(state) == (AppState {
            selected_cell: next_selection(old(state).selected_cell, key),
            ..*old(state)
        }),
        final(grid).deep_view() == edited_grid(
            old(grid).deep_view(),
            old(state).selected_cell,
            key,
            old(state).encoding,
            fixed@,
        ),
{
    proof {
        lemma_grid_dims(*grid);
    }
    match key {
        EditorKey::Digit(n) => {
            if n == 0 {
                return false;
            }
            if let Some((row, col)) = state.selected_cell {
                set_cell(grid, &state.encoding, fixed, row, col, Some(n), true);
            }
        },
        EditorKey::Backspace => {
            if let Some((row, col)) = state.selected_cell {
                set_cell(grid, &state.encoding, fixed, row, col, None, false);
            }
        },
        EditorKey::Left => {
            if let Some((row, col)) = state.selected_cell {
                if col > 1 {
                    state.selected_cell = Some((row, col - 1));
                }
            }
        },
        EditorKey::Right => {
            if let Some((row, col)) = state.selected_cell {
                if col < 9 {
                    state.selected_cell = Some((row, col + 1));
                }
            }
        },
        EditorKey::Down => {
            if let Some((row, col)) = state.selected_cell {
                if row < 9 {
                    state.selected_cell = Some((row + 1, col));
                }
            }
        },
        EditorKey::Up => {
            if let Some((row, col)) = state.selected_cell {
                if row > 1 {
                    state.selected_cell = Some((row - 1, col));
                }
            }
        },
    }
    true
}

/// A decimal literal drawn in its own cell is underlined exactly when it
/// holds for the cell's value `v`: a positive literal `k` when `v` is `k`, a
/// negative literal `-k` when `v` is not `k`.
pub proof fn lemma_decimal_little_underlined_when_true(
    row: i32,
    col: i32,
    lit: i32,
    v: i32,
)
    requires
        1 <= row <= 9,
        1 <= col <= 9,
        lit != 0,
        lit != i32::MIN,
        0 <= v <= 9,
    ensures
        selected_littles(
            CnfVariable::Decimal { row, col, value: lit },
            row - 1,
            col - 1,
            v,
        ) == seq![(lit, if lit > 0 { v == lit } else { v != -lit })],
{
}

/// Narrowing a cell to its visible little numbers keeps every underlined
/// little number (a conflict literal) and every positive one, and drops the
/// negative ones that are not underlined.
pub proof fn lemma_keep_visible_keeps_marked(cell: CellModel, i: int)
    requires
        0 <= i < cell.little_numbers.len(),
        cell.little_numbers[i].0 > 0 || cell.little_numbers[i].1,
    ensures
        keep_visible(cell).little_numbers.contains(cell.little_numbers[i]),
        forall|k: int|
            0 <= k < keep_visible(cell).little_numbers.len() ==> (#[trigger] keep_visible(
                cell,
            ).little_numbers[k]).0 > 0 || keep_visible(cell).little_numbers[k].1,
{
    let s = cell.little_numbers;
    let vis = s.filter(visible_pred());
    s.lemma_filter_contains(visible_pred(), i);
    assert(vis.len() > 0);
    assert forall|k: int| 0 <= k < vis.len() implies (#[trigger] vis[k]).0 > 0 || vis[k].1 by {
        s.lemma_filter_pred(visible_pred(), k);
    }
}

} // verus!
