//! The sudoku puzzle itself: solving it with the SAT solver, and reading and
//! writing the text form of a grid.

use vstd::prelude::*;
use crate::app_state::EncodingType;
use crate::cadical_wrapper::{
    all_clauses_satisfied, learned_more, lemma_satisfied_is_satisfiable, satisfiable, solver_clauses,
    solver_status, solver_value, stored_learned, stored_trail, valid_literal, CadicalSolver,
};
use crate::cnf::binary_encoding;
use crate::solution::{
    clues_in_grid, has_solution, keeps_clues, lemma_binary_clauses_satisfiable,
    lemma_decimal_clauses_satisfiable, valid_grid,
};
use crate::error::GenericError;
use crate::numeric_input::{digit_value, is_digit, spec_parse_i32};
use crate::seq_util::{concat_map, copy_clause};

verus! {

/// Every literal of every clause is one the solver accepts.
pub open spec fn clauses_valid(clauses: Seq<Seq<i32>>) -> bool {
    forall|i: int, j: int|
        0 <= i < clauses.len() && 0 <= j < clauses[i].len() ==> valid_literal(#[trigger] clauses[i][j])
}

/// The solver has a value for every cell of the grid.
pub open spec fn grid_known(encoding: EncodingType, solver: CadicalSolver) -> bool {
    forall|row: int, col: int|
        1 <= row <= 9 && 1 <= col <= 9 ==> #[trigger] encoding.cell_value_known(solver, row, col)
}

/// The grid read from the solver's solution, row by row.
pub open spec fn solved_grid(encoding: EncodingType, solver: CadicalSolver) -> Seq<Seq<Option<i32>>> {
    Seq::new(
        9,
        |r: int| Seq::new(9, |c: int| Some(encoding.spec_cell_value(solver, r + 1, c + 1) as i32)),
    )
}

/// The cells of the grid have variables the solver accepts.
proof fn lemma_grid_literals_ok(encoding: EncodingType, row: int, col: int)
    requires
        1 <= row <= 9,
        1 <= col <= 9,
    ensures
        encoding.cell_literals_ok(row, col),
{
}

/// After a satisfiable solve, the solver has a value for every variable of a
/// cell of the grid.
proof fn lemma_cell_value_known(encoding: EncodingType, solver: CadicalSolver, row: int, col: int)
    requires
        1 <= row <= 9,
        1 <= col <= 9,
        forall|lit: i32| valid_literal(lit) ==> (#[trigger] solver_value(solver, lit)) is Some,
    ensures
        encoding.cell_value_known(solver, row, col),
{
    lemma_grid_literals_ok(encoding, row, col);
    if encoding is Binary {
        assert forall|bit: int| 0 <= bit <= 3 implies (#[trigger] solver_value(
            solver,
            binary_encoding::bl(row, col, bit),
        )) is Some by {
            assert(binary_encoding::bit_id_fits(row, col, bit));
        }
    }
}

/// Solves the sudoku: the clauses of the encoding for the clues are added to
/// the solver, which is then run. The result is `Ok` exactly when the clauses
/// the solver holds are satisfiable, with the grid of cell values read from
/// its solution; otherwise it is the error "Solving sudoku failed!". Given a
/// solver that holds no clauses yet, a sudoku that has a solution is solved.
pub fn solve_sudoku(
    sudoku_clues: &[Vec<Option<i32>>],
    solver: &mut CadicalSolver,
    encoding: &EncodingType,
) -> (r: Result<Vec<Vec<Option<i32>>>, String>)
    requires
        encoding.clues_fit(sudoku_clues@),
        clauses_valid(encoding.spec_sudoku_to_cnf(sudoku_clues@)),
    ensures
        solver_clauses(*final(solver)) == solver_clauses(*old(solver)) + encoding.spec_sudoku_to_cnf(
            sudoku_clues@,
        ),
        match r {
            Ok(grid) => {
                &&& solver_status(*final(solver)) == Some(true)
                &&& all_clauses_satisfied(*final(solver))
                &&& grid_known(*encoding, *final(solver))
                &&& grid.deep_view() == solved_grid(*encoding, *final(solver))
            },
            Err(msg) => {
                &&& solver_status(*final(solver)) == Some(false)
                &&& !satisfiable(solver_clauses(*final(solver)))
                &&& msg@ == "Solving sudoku failed!"@
            },
        },
        r is Ok <==> satisfiable(solver_clauses(*final(solver))),
        solver_clauses(*old(solver)) == Seq::<Seq<i32>>::empty() && clues_in_grid(sudoku_clues@)
            && has_solution(sudoku_clues@) ==> r is Ok,
        learned_more(stored_learned(*old(solver)), stored_learned(*final(solver))),
        stored_trail(*final(solver)) == stored_trail(*old(solver)),
{
    let ghost learned0 = stored_learned(*solver);
    let ghost trail0 = stored_trail(*solver);
    let cnf_clauses = encoding.sudoku_to_cnf(sudoku_clues);
    let ghost start = solver_clauses(*solver);
    let ghost all = cnf_clauses.deep_view();
    let mut i: usize = 0;
    while i < cnf_clauses.len()
        invariant
            i <= all.len(),
            all == cnf_clauses.deep_view(),
            clauses_valid(all),
            solver_clauses(*solver) == start + all.take(i as int),
            stored_learned(*solver) == learned0,
            stored_trail(*solver) == trail0,
        decreases all.len() - i,
    {
        let clause = copy_clause(&cnf_clauses[i]);
        assert(clause@ == all[i as int]);
        proof {
            assert forall|j: int| 0 <= j < clause@.len() implies valid_literal(#[trigger] clause@[j]) by {
                assert(all[i as int][j] == clause@[j]);
            }
        }
        solver.add_clause(clause);
        assert(all.take(i + 1) =~= all.take(i as int).push(all[i as int]));
        i += 1;
    }
    assert(all.take(all.len() as int) =~= all);
    let answer = solver.solve();
    if let Some(true) = answer {
        proof {
            lemma_satisfied_is_satisfiable(*solver);
        }
        let mut solved: Vec<Vec<Option<i32>>> = Vec::new();
        let mut row: i32 = 1;
        while row <= 9
            invariant
                1 <= row <= 10,
                solver_status(*solver) == Some(true),
                all_clauses_satisfied(*solver),
                satisfiable(solver_clauses(*solver)),
                forall|lit: i32| valid_literal(lit) ==> (#[trigger] solver_value(*solver, lit)) is Some,
                solver_clauses(*solver) == start + all,
                    start == solver_clauses(*old(solver)),
                    all == encoding.spec_sudoku_to_cnf(sudoku_clues@),
                solved.deep_view() == solved_grid(*encoding, *solver).take(row - 1),
                forall|r: int, c: int|
                    1 <= r < row && 1 <= c <= 9 ==> #[trigger] encoding.cell_value_known(*solver, r, c),
            decreases 10 - row,
        {
            let mut row_values: Vec<Option<i32>> = Vec::new();
            let mut col: i32 = 1;
            while col <= 9
                invariant
                    1 <= row <= 9,
                    1 <= col <= 10,
                    solver_status(*solver) == Some(true),
                    all_clauses_satisfied(*solver),
                    satisfiable(solver_clauses(*solver)),
                    forall|lit: i32| valid_literal(lit) ==> (#[trigger] solver_value(*solver, lit)) is Some,
                    solver_clauses(*solver) == start + all,
                    start == solver_clauses(*old(solver)),
                    all == encoding.spec_sudoku_to_cnf(sudoku_clues@),
                    row_values.deep_view() == solved_grid(*encoding, *solver)[row - 1].take(col - 1),
                    forall|c: int| 1 <= c < col ==> #[trigger] encoding.cell_value_known(*solver, row as int, c),
                decreases 10 - col,
            {
                proof {
                    lemma_grid_literals_ok(*encoding, row as int, col as int);
                    lemma_cell_value_known(*encoding, *solver, row as int, col as int);
                }
                let value = encoding.get_cell_value(solver, row, col);
                let ghost before = row_values.deep_view();
                row_values.push(Some(value));
                assert(row_values.deep_view() =~= before.push(Some(value)));
                assert(row_values.deep_view() =~= solved_grid(*encoding, *solver)[row - 1].take(col as int));
                col += 1;
            }
            assert(row_values.deep_view() =~= solved_grid(*encoding, *solver)[row - 1]);
            let ghost before = solved.deep_view();
            solved.push(row_values);
            assert(solved.deep_view() =~= before.push(solved_grid(*encoding, *solver)[row - 1]));
            assert(solved.deep_view() =~= solved_grid(*encoding, *solver).take(row as int));
            row += 1;
        }
        assert(solved.deep_view() =~= solved_grid(*encoding, *solver));
        return Ok(solved);
    }
    assert(answer == Some(false));
    proof {
        if start == Seq::<Seq<i32>>::empty() && clues_in_grid(sudoku_clues@) && has_solution(
            sudoku_clues@,
        ) {
            let g = choose|g: Seq<Seq<Option<i32>>>| valid_grid(g) && #[trigger] keeps_clues(g, sudoku_clues@);
            match *encoding {
                EncodingType::Decimal { .. } => {
                    lemma_decimal_clauses_satisfiable(g, sudoku_clues@, *encoding);
                },
                EncodingType::Binary => {
                    lemma_binary_clauses_satisfiable(g, sudoku_clues@);
                },
            }
            assert(solver_clauses(*solver) =~= encoding.spec_sudoku_to_cnf(sudoku_clues@));
        }
    }
    Err(String::from_str("Solving sudoku failed!"))
}

/// The lines of a text as `str::lines` yields them, scanning from a partly
/// read line `cur`: a line ends at each '\n' (and loses a '\r' just before
/// it); text after the last '\n' is a last line; a final '\n' starts none.
pub open spec fn lines_from(cur: Seq<char>, rest: Seq<char>) -> Seq<Seq<char>>
    decreases rest.len(),
{
    if rest.len() == 0 {
        if cur.len() == 0 {
            Seq::empty()
        } else {
            seq![cur]
        }
    } else if rest[0] == '\n' {
        seq![strip_cr(cur)] + lines_from(Seq::empty(), rest.skip(1))
    } else {
        lines_from(cur.push(rest[0]), rest.skip(1))
    }
}

/// A line without its trailing '\r', if it has one.
pub open spec fn strip_cr(line: Seq<char>) -> Seq<char> {
    if line.len() > 0 && line.last() == '\r' {
        line.drop_last()
    } else {
        line
    }
}

/// The lines of a text, as `str::lines` yields them.
pub open spec fn text_lines(s: Seq<char>) -> Seq<Seq<char>> {
    lines_from(Seq::empty(), s)
}

/// `line.split("")`: an empty piece, then each character on its own, then an
/// empty piece.
pub open spec fn split_pieces(line: Seq<char>) -> Seq<Seq<char>> {
    seq![Seq::<char>::empty()] + Seq::new(line.len(), |i: int| seq![line[i]]) + seq![
        Seq::<char>::empty(),
    ]
}

/// The cells one piece of a line adds: `None` when the piece is the empty
/// marker, then `Some(v)` when the piece parses as the integer `v`.
pub open spec fn piece_cells(piece: Seq<char>, empty_value: Seq<char>) -> Seq<Option<i32>> {
    (if piece == empty_value {
        seq![None]
    } else {
        Seq::empty()
    }) + match spec_parse_i32(piece) {
        Some(v) => seq![Some(v as i32)],
        None => Seq::empty(),
    }
}

/// The cells of the pieces of a line.
pub open spec fn pieces_fn(line: Seq<char>, empty_value: Seq<char>) -> spec_fn(int) -> Seq<Option<i32>> {
    |k: int| piece_cells(split_pieces(line)[k], empty_value)
}

/// The cells read from one line of a sudoku text.
pub open spec fn row_cells(line: Seq<char>, empty_value: Seq<char>) -> Seq<Option<i32>> {
    concat_map(line.len() + 2int, pieces_fn(line, empty_value))
}

/// The rows read from a sudoku text, one per line.
pub open spec fn text_rows(s: Seq<char>, empty_value: Seq<char>) -> Seq<Seq<Option<i32>>> {
    Seq::new(text_lines(s).len(), |k: int| row_cells(text_lines(s)[k], empty_value))
}

/// The clues of a sudoku text: one row per line, at least nine lines, each
/// giving exactly nine cells; any other text is not a sudoku.
pub open spec fn spec_clues_from_string(s: Seq<char>, empty_value: Seq<char>) -> Option<
    Seq<Seq<Option<i32>>>,
> {
    let rows = text_rows(s, empty_value);
    if rows.len() < 9 || exists|k: int| 0 <= k < rows.len() && #[trigger] rows[k].len() != 9 {
        None
    } else {
        Some(rows)
    }
}

/// Pushing onto a vector pushes the element's deep view onto its deep view.
pub(crate) proof fn lemma_push_deep_view<T: DeepView>(before: Seq<T>, after: Vec<T>, x: T)
    requires
        after@ == before.push(x),
    ensures
        after.deep_view() == Seq::new(before.len(), |i: int| before[i].deep_view()).push(
            x.deep_view(),
        ),
{
    assert(after.deep_view() =~= Seq::new(before.len(), |i: int| before[i].deep_view()).push(
        x.deep_view(),
    ));
}

/// The deep view of a character list is its view.
proof fn lemma_char_vec_deep_view(v: Vec<char>)
    ensures
        v.deep_view() == v@,
{
    assert(v.deep_view() =~= v@);
}

/// The deep view of a list of optional integers is its view.
proof fn lemma_cell_vec_deep_view(v: Vec<Option<i32>>)
    ensures
        v.deep_view() == v@,
{
    assert forall|i: int| 0 <= i < v@.len() implies #[trigger] v@[i].deep_view() == v@[i] by {
        match v@[i] {
            Some(x) => {},
            None => {},
        }
    }
    assert(v.deep_view() =~= v@);
}

/// Appends a row of cells to a grid; the grid's deep view grows by the row.
pub(crate) fn push_row(grid: &mut Vec<Vec<Option<i32>>>, row: Vec<Option<i32>>)
    ensures
        final(grid).deep_view() == old(grid).deep_view().push(row@),
{
    let ghost before = grid.deep_view();
    let ghost before_v = grid@;
    let ghost r = row;
    proof {
        lemma_cell_vec_deep_view(row);
    }
    grid.push(row);
    proof {
        lemma_push_deep_view(before_v, *grid, r);
        assert(before =~= Seq::new(before_v.len(), |j: int| before_v[j].deep_view()));
    }
}

/// A single character parses as an integer exactly when it is a digit.
proof fn lemma_parse_single(c: char)
    ensures
        spec_parse_i32(seq![c]) == if is_digit(c) {
            Some(digit_value(c))
        } else {
            None::<int>
        },
{
    let s = seq![c];
    assert(s.skip(1) =~= Seq::<char>::empty());
    assert(s.drop_last() =~= Seq::<char>::empty());
    assert(crate::numeric_input::digits_value(Seq::<char>::empty()) == 0);
    assert(s.last() == c);
    assert(crate::numeric_input::digits_value(s) == digit_value(c));
}

/// The empty text parses as no integer.
proof fn lemma_parse_empty()
    ensures
        spec_parse_i32(Seq::<char>::empty()) is None,
{
}

/// A copy of a character list.
fn copy_chars(v: &Vec<char>) -> (r: Vec<char>)
    ensures
        r@ == v@,
{
    let mut r: Vec<char> = Vec::new();
    let mut i: usize = 0;
    while i < v.len()
        invariant
            i <= v@.len(),
            r@ == v@.take(i as int),
        decreases v@.len() - i,
    {
        r.push(v[i]);
        assert(r@ =~= v@.take(i + 1));
        i += 1;
    }
    assert(r@ =~= v@);
    r
}

/// The lines of a text, split as `str::lines` does.
pub(crate) fn split_lines(text: &str) -> (lines: Vec<Vec<char>>)
    ensures
        lines.deep_view() == text_lines(text@),
{
    let n = text.unicode_len();
    let ghost s = text@;
    let mut lines: Vec<Vec<char>> = Vec::new();
    let mut cur: Vec<char> = Vec::new();
    let mut i: usize = 0;
    assert(s.skip(0) =~= s);
    assert(lines.deep_view() =~= Seq::<Seq<char>>::empty());
    while i < n
        invariant
            s == text@,
            n == s.len(),
            i <= n,
            lines.deep_view() + lines_from(cur@, s.skip(i as int)) == text_lines(s),
        decreases n - i,
    {
        let c = text.get_char(i);
        let ghost rest = s.skip(i as int);
        assert(rest[0] == c);
        assert(rest.skip(1) =~= s.skip(i + 1));
        if c == '\n' {
            let mut line = copy_chars(&cur);
            if line.len() > 0 && line[line.len() - 1] == '\r' {
                line.pop();
            }
            assert(line@ =~= strip_cr(cur@));
            let ghost before = lines.deep_view();
            let ghost before_v = lines@;
            proof {
                lemma_char_vec_deep_view(line);
            }
            lines.push(line);
            proof {
                lemma_push_deep_view(before_v, lines, line);
                assert(before =~= Seq::new(before_v.len(), |j: int| before_v[j].deep_view()));
            }
            assert(lines.deep_view() =~= before.push(strip_cr(cur@)));
            assert(lines.deep_view() + lines_from(Seq::empty(), s.skip(i + 1)) =~= before + lines_from(
                cur@,
                rest,
            ));
            cur = Vec::new();
        } else {
            let ghost old_cur = cur@;
            cur.push(c);
            assert(lines_from(old_cur, rest) == lines_from(cur@, s.skip(i + 1)));
        }
        i += 1;
    }
    assert(s.skip(n as int) =~= Seq::<char>::empty());
    if cur.len() > 0 {
        let ghost before = lines.deep_view();
        let ghost before_v = lines@;
        let ghost c = cur;
        proof {
            lemma_char_vec_deep_view(cur);
        }
        lines.push(cur);
        proof {
            lemma_push_deep_view(before_v, lines, c);
            assert(before =~= Seq::new(before_v.len(), |j: int| before_v[j].deep_view()));
        }
        assert(lines.deep_view() =~= before + seq![c@]);
    } else {
        assert(lines.deep_view() =~= lines.deep_view() + Seq::<Seq<char>>::empty());
    }
    lines
}

/// The cells of one line of a sudoku text, read as `split("")` and `parse`
/// read them.
pub(crate) fn parse_row(line: &Vec<char>, empty_value: &str) -> (row: Vec<Option<i32>>)
    ensures
        row@ == row_cells(line@, empty_value@),
{
    let ghost f = pieces_fn(line@, empty_value@);
    let ghost pieces = split_pieces(line@);
    let e_len = empty_value.unicode_len();
    let empty_is_marker = e_len == 0;
    let marker: Option<char> = if e_len == 1 {
        Some(empty_value.get_char(0))
    } else {
        None
    };
    proof {
        lemma_parse_empty();
        assert(pieces[0] == Seq::<char>::empty());
        assert(empty_is_marker == (Seq::<char>::empty() == empty_value@)) by {
            if !empty_is_marker {
                assert(empty_value@.len() != 0);
            } else {
                assert(Seq::<char>::empty() =~= empty_value@);
            }
        }
        assert(forall|c: char| #[trigger] seq![c] == empty_value@ <==> marker == Some(c)) by {
            assert forall|c: char| #[trigger] seq![c] == empty_value@ <==> marker == Some(c) by {
                if marker == Some(c) {
                    assert(seq![c] =~= empty_value@);
                }
                if seq![c] == empty_value@ {
                    assert(empty_value@.len() == 1);
                    assert(empty_value@[0] == c);
                }
            }
        }
    }
    let mut row: Vec<Option<i32>> = Vec::new();
    if empty_is_marker {
        row.push(None);
    }
    proof {
        assert(f(0) =~= row@);
        assert(concat_map(1, f) == concat_map(0, f) + f(0));
        assert(row@ =~= concat_map(1, f));
    }
    let mut i: usize = 0;
    while i < line.len()
        invariant
            i <= line@.len(),
            f == pieces_fn(line@, empty_value@),
            pieces == split_pieces(line@),
            forall|c: char| #[trigger] seq![c] == empty_value@ <==> marker == Some(c),
            row@ == concat_map(i + 1, f),
        decreases line@.len() - i,
    {
        let c = line[i];
        let ghost before = row@;
        assert(pieces[i + 1] == seq![c]);
        proof {
            lemma_parse_single(c);
        }
        let is_marker = match marker {
            Some(m) => m == c,
            None => false,
        };
        if is_marker {
            row.push(None);
        }
        if '0' <= c && c <= '9' {
            let d = (c as u32 - '0' as u32) as i32;
            row.push(Some(d));
        }
        proof {
            assert(row@ =~= before + f(i + 1));
            assert(concat_map(i + 2, f) == concat_map(i + 1, f) + f(i + 1));
        }
        i += 1;
    }
    let ghost before = row@;
    if empty_is_marker {
        row.push(None);
    }
    proof {
        let n = line@.len() as int;
        assert(pieces[n + 1] == Seq::<char>::empty());
        assert(row@ =~= before + f(n + 1));
        assert(concat_map(n + 2, f) == concat_map(n + 1, f) + f(n + 1));
    }
    row
}

/// Returns a 2D Vec from string to represent clues found in sudoku
pub fn clues_from_string(buf: String, empty_value: &str) -> (r: Result<
    Vec<Vec<Option<i32>>>,
    GenericError,
>)
    ensures
        match r {
            Ok(clues) => spec_clues_from_string(buf@, empty_value@) == Some(clues.deep_view()),
            Err(e) => {
                &&& spec_clues_from_string(buf@, empty_value@) is None
                &&& e.msg@ == "Invalid sudoku format!"@
            },
        },
{
    let lines = split_lines(buf.as_str());
    let ghost rows = text_rows(buf@, empty_value@);
    if lines.len() < 9 {
        return Err(GenericError { msg: String::from_str("Invalid sudoku format!") });
    }
    let mut clues: Vec<Vec<Option<i32>>> = Vec::new();
    let mut k: usize = 0;
    while k < lines.len()
        invariant
            k <= lines@.len(),
            lines.deep_view() == text_lines(buf@),
            rows == text_rows(buf@, empty_value@),
            clues.deep_view() == rows.take(k as int),
            forall|j: int| 0 <= j < k ==> #[trigger] rows[j].len() == 9,
        decreases lines@.len() - k,
    {
        assert(lines@[k as int]@ == text_lines(buf@)[k as int]);
        let row_buf = parse_row(&lines[k], empty_value);
        if row_buf.len() != 9 {
            assert(rows[k as int].len() != 9);
            return Err(GenericError { msg: String::from_str("Invalid sudoku format!") });
        }
        let ghost before = clues.deep_view();
        push_row(&mut clues, row_buf);
        assert(clues.deep_view() =~= before.push(rows[k as int]));
        assert(clues.deep_view() =~= rows.take(k + 1));
        k += 1;
    }
    assert(clues.deep_view() =~= rows);
    Ok(clues)
}

/// The empty grid: nine rows of nine empty cells.
pub open spec fn empty_grid() -> Seq<Seq<Option<i32>>> {
    Seq::new(9, |r: int| Seq::new(9, |c: int| None::<i32>))
}

/// A sudoku with no clues: nine rows of nine empty cells.
pub fn get_empty_sudoku() -> (r: Result<Vec<Vec<Option<i32>>>, GenericError>)
    ensures
        r matches Ok(grid) && grid.deep_view() == empty_grid(),
{
    let mut grid: Vec<Vec<Option<i32>>> = Vec::new();
    let mut row: usize = 0;
    while row < 9
        invariant
            row <= 9,
            grid.deep_view() == empty_grid().take(row as int),
        decreases 9 - row,
    {
        let mut cells: Vec<Option<i32>> = Vec::new();
        let mut col: usize = 0;
        while col < 9
            invariant
                col <= 9,
                cells@ == Seq::new(col as nat, |c: int| None::<i32>),
            decreases 9 - col,
        {
            cells.push(None);
            assert(cells@ =~= Seq::new((col + 1) as nat, |c: int| None::<i32>));
            col += 1;
        }
        push_row(&mut grid, cells);
        assert(grid.deep_view() =~= empty_grid().take(row + 1));
        row += 1;
    }
    assert(grid.deep_view() =~= empty_grid());
    Ok(grid)
}

/// The character of a decimal digit.
pub open spec fn digit_char(d: int) -> char {
    if d == 0 {
        '0'
    } else if d == 1 {
        '1'
    } else if d == 2 {
        '2'
    } else if d == 3 {
        '3'
    } else if d == 4 {
        '4'
    } else if d == 5 {
        '5'
    } else if d == 6 {
        '6'
    } else if d == 7 {
        '7'
    } else if d == 8 {
        '8'
    } else {
        '9'
    }
}

/// The decimal digits of a natural number, most significant first.
pub open spec fn decimal_text(n: nat) -> Seq<char>
    decreases n,
{
    if n < 10 {
        seq![digit_char(n as int)]
    } else {
        decimal_text(n / 10).push(digit_char((n % 10) as int))
    }
}

/// An integer written in decimal, with a '-' before a negative one.
pub open spec fn int_text(v: int) -> Seq<char> {
    if v < 0 {
        seq!['-'] + decimal_text((-v) as nat)
    } else {
        decimal_text(v as nat)
    }
}

/// A cell as it is written: its value, or '.' when it is empty.
pub open spec fn cell_text(cell: Option<i32>) -> Seq<char> {
    match cell {
        Some(v) => int_text(v as int),
        None => seq!['.'],
    }
}

/// The first nine cells of a row, written one after another.
pub open spec fn row_cells_fn(row: Seq<Option<i32>>) -> spec_fn(int) -> Seq<char> {
    |c: int| cell_text(row[c])
}

/// A row as it is written: its first nine cells and a line break.
pub open spec fn row_text(row: Seq<Option<i32>>) -> Seq<char> {
    concat_map(if row.len() < 9 { row.len() as int } else { 9 }, row_cells_fn(row)).push('\n')
}

/// The rows of a grid, written one after another.
pub open spec fn grid_rows_fn(grid: Seq<Seq<Option<i32>>>) -> spec_fn(int) -> Seq<char> {
    |r: int| row_text(grid[r])
}

/// A grid as it is written: its first nine rows, each on a line of its own.
pub open spec fn grid_text(grid: Seq<Seq<Option<i32>>>) -> Seq<char> {
    concat_map(if grid.len() < 9 { grid.len() as int } else { 9 }, grid_rows_fn(grid))
}

/// The text of one decimal digit.
fn digit_str(d: u32) -> (s: &'static str)
    requires
        d < 10,
    ensures
        s@ == seq![digit_char(d as int)],
{
    if d == 0 {
        proof {
            reveal_strlit("0");
        }
        "0"
    } else if d == 1 {
        proof {
            reveal_strlit("1");
        }
        "1"
    } else if d == 2 {
        proof {
            reveal_strlit("2");
        }
        "2"
    } else if d == 3 {
        proof {
            reveal_strlit("3");
        }
        "3"
    } else if d == 4 {
        proof {
            reveal_strlit("4");
        }
        "4"
    } else if d == 5 {
        proof {
            reveal_strlit("5");
        }
        "5"
    } else if d == 6 {
        proof {
            reveal_strlit("6");
        }
        "6"
    } else if d == 7 {
        proof {
            reveal_strlit("7");
        }
        "7"
    } else if d == 8 {
        proof {
            reveal_strlit("8");
        }
        "8"
    } else {
        proof {
            reveal_strlit("9");
        }
        "9"
    }
}

/// Appends the decimal digits of `n`.
pub(crate) fn append_decimal(text: &mut String, n: u64)
    ensures
        final(text)@ == old(text)@ + decimal_text(n as nat),
    decreases n,
{
    if n >= 10 {
        append_decimal(text, n / 10);
    }
    text.append(digit_str((n % 10) as u32));
    proof {
        if n >= 10 {
            assert(decimal_text(n as nat) == decimal_text((n / 10) as nat).push(digit_char((n % 10) as int)));
        }
    }
    assert(text@ =~= old(text)@ + decimal_text(n as nat));
}

/// Appends a cell as it is written.
pub(crate) fn append_cell(text: &mut String, cell: Option<i32>)
    ensures
        final(text)@ == old(text)@ + cell_text(cell),
{
    match cell {
        Some(v) => {
            if v < 0 {
                proof {
                    reveal_strlit("-");
                }
                text.append("-");
                let magnitude = (-(v as i64)) as u64;
                append_decimal(text, magnitude);
                assert(text@ =~= old(text)@ + cell_text(cell));
            } else {
                append_decimal(text, v as u64);
            }
        },
        None => {
            proof {
                reveal_strlit(".");
            }
            text.append(".");
        },
    }
}

/// Returns a properly formatted string representation of the gived sudoku grid
pub fn string_from_grid(grid: Vec<Vec<Option<i32>>>) -> (text: String)
    ensures
        text@ == grid_text(grid.deep_view()),
{
    let ghost g = grid.deep_view();
    let mut return_string = String::new();
    let rows: usize = if grid.len() < 9 { grid.len() } else { 9 };
    let mut r: usize = 0;
    while r < rows
        invariant
            g == grid.deep_view(),
            rows == (if g.len() < 9 { g.len() as int } else { 9 }),
            r <= rows,
            return_string@ == concat_map(r as int, grid_rows_fn(g)),
        decreases rows - r,
    {
        let row = &grid[r];
        proof {
            lemma_cell_vec_deep_view(*row);
        }
        assert(row@ == g[r as int]);
        let ghost line_start = return_string@;
        let cols: usize = if row.len() < 9 { row.len() } else { 9 };
        let mut c: usize = 0;
        while c < cols
            invariant
                cols == (if row@.len() < 9 { row@.len() as int } else { 9 }),
                c <= cols,
                return_string@ == line_start + concat_map(c as int, row_cells_fn(row@)),
            decreases cols - c,
        {
            append_cell(&mut return_string, row[c]);
            assert(concat_map(c + 1, row_cells_fn(row@)) == concat_map(c as int, row_cells_fn(row@))
                + cell_text(row@[c as int]));
            assert(return_string@ =~= line_start + concat_map(c + 1, row_cells_fn(row@)));
            c += 1;
        }
        proof {
            reveal_strlit("\n");
        }
        return_string.append("\n");
        assert(return_string@ =~= line_start + row_text(row@));
        assert(concat_map(r + 1, grid_rows_fn(g)) == concat_map(r as int, grid_rows_fn(g)) + row_text(
            g[r as int],
        ));
        r += 1;
    }
    return_string
}

// ------------------------------------------------------ text round trip

/// The character a cell is written as: its digit, or '.' when empty.
pub open spec fn cell_char(cell: Option<i32>) -> char {
    match cell {
        Some(v) => digit_char(v as int),
        None => '.',
    }
}

/// A cell that is empty or holds one digit.
pub open spec fn digit_cell(cell: Option<i32>) -> bool {
    cell is None || 0 <= cell->0 <= 9
}

/// A `concat_map` of single characters is the sequence of those characters.
proof fn lemma_concat_singletons(n: int, f: spec_fn(int) -> Seq<char>, h: spec_fn(int) -> char)
    requires
        0 <= n,
        forall|k: int| 0 <= k < n ==> #[trigger] f(k) == seq![h(k)],
    ensures
        concat_map(n, f) == Seq::new(n as nat, |k: int| h(k)),
    decreases n,
{
    if n > 0 {
        lemma_concat_singletons(n - 1, f, h);
        assert(concat_map(n, f) =~= Seq::new(n as nat, |k: int| h(k)));
    } else {
        assert(concat_map(n, f) =~= Seq::new(n as nat, |k: int| h(k)));
    }
}

/// A row of nine digit cells is written as its nine characters.
proof fn lemma_row_line(row: Seq<Option<i32>>)
    requires
        row.len() == 9,
        forall|c: int| 0 <= c < 9 ==> digit_cell(#[trigger] row[c]),
    ensures
        concat_map(9, row_cells_fn(row)) == Seq::new(9, |c: int| cell_char(row[c])),
{
    assert forall|k: int| 0 <= k < 9 implies #[trigger] row_cells_fn(row)(k) == seq![
        (|c: int| cell_char(row[c]))(k),
    ] by {
        match row[k] {
            Some(v) => {
                assert(decimal_text(v as nat) == seq![digit_char(v as int)]);
            },
            None => {},
        }
    }
    lemma_concat_singletons(9, row_cells_fn(row), |c: int| cell_char(row[c]));
}

/// Reading on after text without line breaks extends the current line.
proof fn lemma_lines_no_break(cur: Seq<char>, x: Seq<char>, rest: Seq<char>)
    requires
        forall|i: int| 0 <= i < x.len() ==> #[trigger] x[i] != '\n',
    ensures
        lines_from(cur, x + rest) == lines_from(cur + x, rest),
    decreases x.len(),
{
    if x.len() == 0 {
        assert(x + rest =~= rest);
        assert(cur + x =~= cur);
    } else {
        assert((x + rest)[0] == x[0]);
        assert((x + rest).skip(1) =~= x.skip(1) + rest);
        assert(cur.push(x[0]) + x.skip(1) =~= cur + x);
        lemma_lines_no_break(cur.push(x[0]), x.skip(1), rest);
    }
}

/// Appending a whole line to text that ends at a line break adds that line.
proof fn lemma_lines_append(cur: Seq<char>, s: Seq<char>, x: Seq<char>)
    requires
        (s.len() == 0 && cur.len() == 0) || (s.len() > 0 && s.last() == '\n'),
        forall|i: int| 0 <= i < x.len() ==> #[trigger] x[i] != '\n',
    ensures
        lines_from(cur, s + x.push('\n')) == lines_from(cur, s) + seq![strip_cr(x)],
    decreases s.len(),
{
    let y = x.push('\n');
    if s.len() == 0 {
        assert(s + y =~= x + seq!['\n']);
        lemma_lines_no_break(cur, x, seq!['\n']);
        assert(cur + x =~= x);
        assert(seq!['\n'].skip(1) =~= Seq::<char>::empty());
        assert(lines_from(Seq::empty(), Seq::<char>::empty()) == Seq::<Seq<char>>::empty());
        assert(lines_from(x, seq!['\n']) =~= seq![strip_cr(x)]);
        assert(lines_from(cur, s) =~= Seq::<Seq<char>>::empty());
        assert(lines_from(cur, s) + seq![strip_cr(x)] =~= seq![strip_cr(x)]);
    } else {
        assert((s + y)[0] == s[0]);
        assert((s + y).skip(1) =~= s.skip(1) + y);
        if s[0] == '\n' {
            if s.len() == 1 {
                lemma_lines_append(Seq::empty(), s.skip(1), x);
            } else {
                assert(s.skip(1).last() == s.last());
                lemma_lines_append(Seq::empty(), s.skip(1), x);
            }
            assert(seq![strip_cr(cur)] + (lines_from(Seq::empty(), s.skip(1)) + seq![strip_cr(x)])
                =~= (seq![strip_cr(cur)] + lines_from(Seq::empty(), s.skip(1))) + seq![strip_cr(x)]);
        } else {
            assert(s.len() >= 2);
            assert(s.skip(1).last() == s.last());
            lemma_lines_append(cur.push(s[0]), s.skip(1), x);
        }
    }
}

/// The text of the first `n` rows ends at a line break (or is empty).
proof fn lemma_grid_text_ends(g: Seq<Seq<Option<i32>>>, n: int)
    requires
        1 <= n,
    ensures
        concat_map(n, grid_rows_fn(g)).len() > 0,
        concat_map(n, grid_rows_fn(g)).last() == '\n',
{
    let prev = concat_map(n - 1, grid_rows_fn(g));
    assert(concat_map(n, grid_rows_fn(g)) == prev + row_text(g[n - 1]));
    assert((prev + row_text(g[n - 1])).last() == row_text(g[n - 1]).last());
}

/// The lines of the text of the first `n` rows of a grid of digit cells.
proof fn lemma_grid_lines(g: Seq<Seq<Option<i32>>>, n: int)
    requires
        0 <= n <= 9,
        g.len() == 9,
        forall|r: int| 0 <= r < 9 ==> #[trigger] g[r].len() == 9,
        forall|r: int, c: int| 0 <= r < 9 && 0 <= c < 9 ==> digit_cell(#[trigger] g[r][c]),
    ensures
        text_lines(concat_map(n, grid_rows_fn(g))) == Seq::new(
            n as nat,
            |r: int| Seq::new(9, |c: int| cell_char(g[r][c])),
        ),
    decreases n,
{
    if n == 0 {
        assert(text_lines(concat_map(0, grid_rows_fn(g))) =~= Seq::<Seq<char>>::empty());
        assert(Seq::new(0, |r: int| Seq::new(9, |c: int| cell_char(g[r][c]))) =~= Seq::<
            Seq<char>,
        >::empty());
    } else {
        lemma_grid_lines(g, n - 1);
        let row = g[n - 1];
        assert forall|c: int| 0 <= c < 9 implies digit_cell(#[trigger] row[c]) by {
            assert(digit_cell(g[n - 1][c]));
        }
        lemma_row_line(row);
        let line = Seq::new(9, |c: int| cell_char(row[c]));
        assert forall|i: int| 0 <= i < line.len() implies #[trigger] line[i] != '\n' by {
            match row[i] {
                Some(v) => {},
                None => {},
            }
        }
        let prev = concat_map(n - 1, grid_rows_fn(g));
        if n > 1 {
            lemma_grid_text_ends(g, n - 1);
        }
        assert(row_text(row) == line.push('\n'));
        assert(concat_map(n, grid_rows_fn(g)) == prev + line.push('\n'));
        lemma_lines_append(Seq::empty(), prev, line);
        assert(line.last() != '\r') by {
            match row[8] {
                Some(v) => {},
                None => {},
            }
        }
        assert(strip_cr(line) == line);
        assert(text_lines(concat_map(n, grid_rows_fn(g))) =~= Seq::new(
            n as nat,
            |r: int| Seq::new(9, |c: int| cell_char(g[r][c])),
        ));
    }
}

/// The cells read from the line written for a row of digit cells, with '.'
/// for an empty cell.
proof fn lemma_row_cells_read(row: Seq<Option<i32>>, dot: Seq<char>)
    requires
        dot == seq!['.'],
        row.len() == 9,
        forall|c: int| 0 <= c < 9 ==> digit_cell(#[trigger] row[c]),
    ensures
        row_cells(Seq::new(9, |c: int| cell_char(row[c])), dot) == row,
{
    let line = Seq::new(9, |c: int| cell_char(row[c]));
    let f = pieces_fn(line, dot);
    let pieces = split_pieces(line);
    assert(pieces[0] == Seq::<char>::empty());
    assert(pieces[10] == Seq::<char>::empty());
    assert(Seq::<char>::empty() != dot) by {
        assert(dot.len() == 1);
    }
    assert(f(0) =~= Seq::<Option<i32>>::empty());
    assert(f(10) =~= Seq::<Option<i32>>::empty());
    assert forall|k: int| 1 <= k <= 9 implies #[trigger] f(k) == seq![row[k - 1]] by {
        let ch = line[k - 1];
        assert(pieces[k] == seq![ch]);
        lemma_parse_single(ch);
        match row[k - 1] {
            Some(v) => {
                assert(ch == digit_char(v as int));
                assert(seq![ch] != dot) by {
                    assert(seq![ch][0] != dot[0]);
                }
                assert(is_digit(ch));
                assert(digit_value(ch) == v);
                assert(f(k) =~= seq![Some(v)]);
            },
            None => {
                assert(ch == '.');
                assert(seq![ch] =~= dot);
                assert(f(k) =~= seq![None]);
            },
        }
    }
    let g = |k: int| f(k + 1);
    assert forall|k: int| 0 <= k < 9 implies #[trigger] g(k) == seq![row[k]] by {
        assert(f(k + 1) == seq![row[k]]);
    }
    lemma_concat_map_shift(f, 10);
    lemma_concat_cells(9, g, row);
    assert(concat_map(11, f) == concat_map(10, f) + f(10));
    assert(concat_map(11, f) =~= row);
}

/// `concat_map` of blocks after an empty first block.
proof fn lemma_concat_map_shift(f: spec_fn(int) -> Seq<Option<i32>>, n: int)
    requires
        1 <= n,
        f(0) == Seq::<Option<i32>>::empty(),
    ensures
        concat_map(n, f) == concat_map(n - 1, |k: int| f(k + 1)),
    decreases n,
{
    if n == 1 {
        assert(concat_map(1, f) == concat_map(0, f) + f(0));
        assert(concat_map(1, f) =~= Seq::<Option<i32>>::empty());
    } else {
        lemma_concat_map_shift(f, n - 1);
    }
}

/// A `concat_map` of the single cells of a row is the row.
proof fn lemma_concat_cells(n: int, f: spec_fn(int) -> Seq<Option<i32>>, row: Seq<Option<i32>>)
    requires
        0 <= n <= row.len(),
        forall|k: int| 0 <= k < n ==> #[trigger] f(k) == seq![row[k]],
    ensures
        concat_map(n, f) == row.take(n),
    decreases n,
{
    if n > 0 {
        lemma_concat_cells(n - 1, f, row);
        assert(concat_map(n, f) =~= row.take(n));
    } else {
        assert(concat_map(n, f) =~= row.take(n));
    }
}

/// Writing a grid of nine rows of nine cells, each empty or holding a digit,
/// and reading the text back with '.' for an empty cell gives the grid again.
pub proof fn lemma_grid_text_round_trip(g: Seq<Seq<Option<i32>>>)
    requires
        g.len() == 9,
        forall|r: int| 0 <= r < 9 ==> #[trigger] g[r].len() == 9,
        forall|r: int, c: int| 0 <= r < 9 && 0 <= c < 9 ==> digit_cell(#[trigger] g[r][c]),
    ensures
        spec_clues_from_string(grid_text(g), "."@) == Some(g),
{
    reveal_strlit(".");
    let dot = "."@;
    assert(dot =~= seq!['.']);
    lemma_grid_lines(g, 9);
    let lines = text_lines(grid_text(g));
    let rows = text_rows(grid_text(g), dot);
    assert forall|r: int| 0 <= r < 9 implies #[trigger] rows[r] == g[r] by {
        assert forall|c: int| 0 <= c < 9 implies digit_cell(#[trigger] g[r][c]) by {}
        lemma_row_cells_read(g[r], dot);
        assert(lines[r] == Seq::new(9, |c: int| cell_char(g[r][c])));
    }
    assert(rows =~= g);
    assert(!(exists|k: int| 0 <= k < rows.len() && #[trigger] rows[k].len() != 9));
}

} // verus!
