//! What a grid read from the solver's solution is worth. When the rules chosen
//! for the decimal encoding are enough (every cell holds a value and no row,
//! column or sub-grid repeats one; or every cell holds at most one value and
//! every row, column and sub-grid holds every value) it is a valid sudoku that
//! keeps the clues; the rule that a cell holds at most one value alone keeps
//! the clues. With the binary encoding it is a valid sudoku that keeps the
//! clues.

use vstd::prelude::*;
use crate::app_state::EncodingType;
use crate::cadical_wrapper::{
    all_clauses_satisfied, clause_holds, lit_holds, satisfiable, satisfies, clause_satisfied, lit_true, solver_clauses, solver_value, CadicalSolver,
};
use crate::cnf::cell_pairs;
use crate::cnf::{binary_encoding, decimal_encoding};
use crate::seq_util::concat_map;
use crate::sudoku::solved_grid;
use vstd::relations::injective_on;
use vstd::set_lib::{lemma_int_range, lemma_map_size, lemma_subset_equality, set_int_range};

verus! {

/// Cell (r, c) (0-based) of the 9x9 grid has a clue, and it names a value 1..=9.
pub open spec fn has_clue(clues: Seq<Vec<Option<i32>>>, r: int, c: int) -> bool {
    &&& 0 <= r < 9
    &&& 0 <= c < 9
    &&& r < clues.len()
    &&& c < clues[r]@.len()
    &&& clues[r]@[c] is Some
    &&& 1 <= clues[r]@[c]->0 <= 9
}

/// The clues that name a value 1..=9 of a cell of the 9x9 grid are the
/// values of those cells.
pub open spec fn keeps_clues(grid: Seq<Seq<Option<i32>>>, clues: Seq<Vec<Option<i32>>>) -> bool {
    forall|r: int, c: int| #[trigger] has_clue(clues, r, c) ==> grid[r][c] == clues[r]@[c]
}

/// A block of `concat_map` is part of it.
proof fn lemma_concat_map_contains<A>(n: int, f: spec_fn(int) -> Seq<A>, k: int, x: A)
    requires
        0 <= k < n,
        f(k).contains(x),
    ensures
        concat_map(n, f).contains(x),
    decreases n,
{
    let prev = concat_map(n - 1, f);
    assert(concat_map(n, f) == prev + f(n - 1));
    if k == n - 1 {
        let i = choose|i: int| 0 <= i < f(k).len() && #[trigger] f(k)[i] == x;
        assert((prev + f(n - 1))[prev.len() + i] == x);
    } else {
        lemma_concat_map_contains(n - 1, f, k, x);
        let i = choose|i: int| 0 <= i < prev.len() && prev[i] == x;
        assert((prev + f(n - 1))[i] == x);
    }
}

/// A clause that is part of what was added to the solver is satisfied.
proof fn lemma_added_clause_satisfied(
    solver: CadicalSolver,
    before: Seq<Seq<i32>>,
    added: Seq<Seq<i32>>,
    clause: Seq<i32>,
)
    requires
        all_clauses_satisfied(solver),
        solver_clauses(solver) == before + added,
        added.contains(clause),
    ensures
        clause_satisfied(solver, clause),
{
    let i = choose|i: int| 0 <= i < added.len() && added[i] == clause;
    assert(solver_clauses(solver)[before.len() + i] == clause);
}

/// A satisfied unit clause of a positive literal makes it true.
proof fn lemma_unit_true(solver: CadicalSolver, l: i32)
    requires
        l > 0,
        clause_satisfied(solver, seq![l]),
    ensures
        solver_value(solver, l) == Some(true),
{
    let i = choose|i: int| 0 <= i < 1 && #[trigger] lit_true(solver, seq![l][i]);
    assert(seq![l][i] == l);
}

// ------------------------------------------------------------------- decimal

/// The decimal literal of cell (row, col) and value `val` (all 1..=9) is
/// positive.
proof fn lemma_dec_lit_positive(row: int, col: int, val: int)
    requires
        1 <= row <= 9,
        1 <= col <= 9,
        1 <= val <= 9,
    ensures
        decimal_encoding::lit(row, col, val) > 0,
        decimal_encoding::lit(row, col, val) == decimal_encoding::spec_cnf_identifier(row, col, val),
        (-decimal_encoding::neg(decimal_encoding::lit(row, col, val))) as i32 == decimal_encoding::lit(
            row,
            col,
            val,
        ),
        decimal_encoding::neg(decimal_encoding::lit(row, col, val)) < 0,
{
}

/// The clue clauses of the decimal encoding hold the unit clause of each clue.
proof fn lemma_dec_clue_member(clues: Seq<Vec<Option<i32>>>, r: int, c: int)
    requires
        0 <= r < clues.len(),
        0 <= c < clues[r]@.len(),
        clues[r]@[c] is Some,
    ensures
        decimal_encoding::clue_clauses(clues).contains(
            seq![decimal_encoding::lit(r + 1, c + 1, clues[r]@[c]->0 as int)],
        ),
{
    let x = seq![decimal_encoding::lit(r + 1, c + 1, clues[r]@[c]->0 as int)];
    assert(decimal_encoding::clue_cell(clues, r, c)[0] == x);
    assert(decimal_encoding::clue_cell_fn(clues, r)(c).contains(x));
    lemma_concat_map_contains(
        clues[r]@.len() as int,
        decimal_encoding::clue_cell_fn(clues, r),
        c,
        x,
    );
    assert(decimal_encoding::clue_row_fn(clues)(r) == decimal_encoding::clue_row(clues, r));
    lemma_concat_map_contains(clues.len() as int, decimal_encoding::clue_row_fn(clues), r, x);
}

/// The at-most-one clauses hold, for each cell and values a < b, the clause
/// that the cell does not hold both.
proof fn lemma_dec_amo_member(r0: int, c0: int, a: int, b: int)
    requires
        0 <= r0 < 9,
        0 <= c0 < 9,
        0 <= a < b < 9,
    ensures
        decimal_encoding::at_most_one_clauses().contains(
            seq![
                decimal_encoding::neg(decimal_encoding::lit(r0 + 1, c0 + 1, a + 1)),
                decimal_encoding::neg(decimal_encoding::lit(r0 + 1, c0 + 1, b + 1)),
            ],
        ),
{
    let k = b - a - 1;
    let x = seq![
        decimal_encoding::neg(decimal_encoding::lit(r0 + 1, c0 + 1, a + 1)),
        decimal_encoding::neg(decimal_encoding::lit(r0 + 1, c0 + 1, b + 1)),
    ];
    assert(decimal_encoding::amo_pair(r0, c0, a, k)[0] =~= x);
    assert(decimal_encoding::amo_pair_fn(r0, c0, a)(k).contains(x));
    lemma_concat_map_contains(8 - a, decimal_encoding::amo_pair_fn(r0, c0, a), k, x);
    assert(decimal_encoding::amo_first_fn(r0, c0)(a).contains(x));
    lemma_concat_map_contains(8, decimal_encoding::amo_first_fn(r0, c0), a, x);
    assert(decimal_encoding::amo_cell_fn(r0)(c0).contains(x));
    lemma_concat_map_contains(9, decimal_encoding::amo_cell_fn(r0), c0, x);
    assert(decimal_encoding::amo_row_fn()(r0).contains(x));
    lemma_concat_map_contains(9, decimal_encoding::amo_row_fn(), r0, x);
}

/// Each part of the decimal encoding that is switched on is part of it.
#[verifier::spinoff_prover]
#[verifier::rlimit(40)]
proof fn lemma_dec_parts(
    clues: Seq<Vec<Option<i32>>>,
    a: bool,
    b: bool,
    c: bool,
    d: bool,
    x: Seq<i32>,
)
    ensures
        a && decimal_encoding::at_least_one_clauses().contains(x) ==> decimal_encoding::spec_sudoku_to_cnf(
            clues,
            a,
            b,
            c,
            d,
        ).contains(x),
        b && decimal_encoding::at_most_one_clauses().contains(x) ==> decimal_encoding::spec_sudoku_to_cnf(
            clues,
            a,
            b,
            c,
            d,
        ).contains(x),
        c && decimal_encoding::all_values_clauses().contains(x) ==> decimal_encoding::spec_sudoku_to_cnf(
            clues,
            a,
            b,
            c,
            d,
        ).contains(x),
        d && decimal_encoding::unique_values_clauses().contains(x) ==> decimal_encoding::spec_sudoku_to_cnf(
            clues,
            a,
            b,
            c,
            d,
        ).contains(x),
        decimal_encoding::clue_clauses(clues).contains(x) ==> decimal_encoding::spec_sudoku_to_cnf(
            clues,
            a,
            b,
            c,
            d,
        ).contains(x),
{
    let p1 = if a { decimal_encoding::at_least_one_clauses() } else { Seq::empty() };
    let p2 = if b { decimal_encoding::at_most_one_clauses() } else { Seq::empty() };
    let p3 = if c { decimal_encoding::all_values_clauses() } else { Seq::empty() };
    let p4 = if d { decimal_encoding::unique_values_clauses() } else { Seq::empty() };
    let p5 = decimal_encoding::clue_clauses(clues);
    let all = decimal_encoding::spec_sudoku_to_cnf(clues, a, b, c, d);
    assert(all == p1 + p2 + p3 + p4 + p5);
    if a && p1.contains(x) {
        let i = choose|i: int| 0 <= i < p1.len() && p1[i] == x;
        assert(all[i] == x);
    }
    if b && p2.contains(x) {
        let i = choose|i: int| 0 <= i < p2.len() && p2[i] == x;
        assert(all[p1.len() + i] == x);
    }
    if c && p3.contains(x) {
        let i = choose|i: int| 0 <= i < p3.len() && p3[i] == x;
        assert(all[p1.len() + p2.len() + i] == x);
    }
    if d && p4.contains(x) {
        let i = choose|i: int| 0 <= i < p4.len() && p4[i] == x;
        assert(all[p1.len() + p2.len() + p3.len() + i] == x);
    }
    if p5.contains(x) {
        let i = choose|i: int| 0 <= i < p5.len() && p5[i] == x;
        assert(all[p1.len() + p2.len() + p3.len() + p4.len() + i] == x);
    }
}

/// The cell value read from the solution, from value `val` on: the first
/// value whose variable is true, or -1.
proof fn lemma_cell_value_from(solver: CadicalSolver, row: int, col: int, val: int, w: int)
    requires
        1 <= val <= w <= 9,
        solver_value(solver, decimal_encoding::lit(row, col, w)) == Some(true),
        forall|u: int| val <= u < w ==> solver_value(solver, #[trigger] decimal_encoding::lit(row, col, u)) != Some(true),
    ensures
        decimal_encoding::spec_cell_value_from(solver, row, col, val) == w,
    decreases w - val,
{
    if val < w {
        lemma_cell_value_from(solver, row, col, val + 1, w);
    }
}

/// A cell value read from the solution of the decimal encoding is the
/// clue of the cell, when the encoding says a cell holds at most one value.
proof fn lemma_dec_clue_kept(
    solver: CadicalSolver,
    before: Seq<Seq<i32>>,
    clues: Seq<Vec<Option<i32>>>,
    a: bool,
    c3: bool,
    d: bool,
    r: int,
    c: int,
)
    requires
        all_clauses_satisfied(solver),
        solver_clauses(solver) == before + decimal_encoding::spec_sudoku_to_cnf(clues, a, true, c3, d),
        has_clue(clues, r, c),
    ensures
        decimal_encoding::spec_cell_value(solver, r + 1, c + 1) == clues[r]@[c]->0,
{
    let v = clues[r]@[c]->0 as int;
    let added = decimal_encoding::spec_sudoku_to_cnf(clues, a, true, c3, d);
    lemma_dec_clue_member(clues, r, c);
    lemma_dec_parts(clues, a, true, c3, d, seq![decimal_encoding::lit(r + 1, c + 1, v)]);
    lemma_added_clause_satisfied(solver, before, added, seq![decimal_encoding::lit(r + 1, c + 1, v)]);
    lemma_dec_lit_positive(r + 1, c + 1, v);
    lemma_unit_true(solver, decimal_encoding::lit(r + 1, c + 1, v));
    assert forall|u: int| 1 <= u < v implies solver_value(
        solver,
        #[trigger] decimal_encoding::lit(r + 1, c + 1, u),
    ) != Some(true) by {
        let x = seq![
            decimal_encoding::neg(decimal_encoding::lit(r + 1, c + 1, u)),
            decimal_encoding::neg(decimal_encoding::lit(r + 1, c + 1, v)),
        ];
        lemma_dec_amo_member(r, c, u - 1, v - 1);
        lemma_dec_parts(clues, a, true, c3, d, x);
        lemma_added_clause_satisfied(solver, before, added, x);
        lemma_dec_lit_positive(r + 1, c + 1, u);
        let i = choose|i: int| 0 <= i < x.len() && #[trigger] lit_true(solver, x[i]);
        if i == 1 {
            assert(lit_true(solver, x[1]));
        }
    }
    lemma_cell_value_from(solver, r + 1, c + 1, 1, v);
}

/// The grid read from a solution of the decimal encoding keeps every clue
/// 1..=9 of the 9x9 grid, when the encoding says that a cell holds at most
/// one value, or that it holds at least one and no row, column or sub-grid
/// holds a value twice.
pub proof fn lemma_decimal_solution_keeps_clues(
    solver: CadicalSolver,
    before: Seq<Seq<i32>>,
    clues: Seq<Vec<Option<i32>>>,
    encoding: EncodingType,
)
    requires
        encoding is Decimal,
        encoding->cell_at_most_one || (encoding->cell_at_least_one
            && encoding->sudoku_has_unique_values),
        all_clauses_satisfied(solver),
        solver_clauses(solver) == before + encoding.spec_sudoku_to_cnf(clues),
    ensures
        keeps_clues(solved_grid(encoding, solver), clues),
{
    match encoding {
        EncodingType::Decimal {
            cell_at_least_one,
            cell_at_most_one,
            sudoku_has_all_values,
            sudoku_has_unique_values,
        } => {
            assert forall|r: int, c: int| #[trigger] has_clue(clues, r, c) implies solved_grid(
                encoding,
                solver,
            )[r][c] == clues[r]@[c] by {
                if cell_at_most_one {
                    lemma_dec_clue_kept(
                        solver,
                        before,
                        clues,
                        cell_at_least_one,
                        sudoku_has_all_values,
                        sudoku_has_unique_values,
                        r,
                        c,
                    );
                } else {
                    lemma_dec_clue_kept_unique(
                        solver,
                        before,
                        clues,
                        cell_at_most_one,
                        sudoku_has_all_values,
                        r,
                        c,
                    );
                }
            }
        },
        EncodingType::Binary => {},
    }
}

// -------------------------------------------------------------------- binary

/// The clue clauses of the binary encoding hold the unit clause of each bit
/// of each clue.
proof fn lemma_bin_clue_member(clues: Seq<Vec<Option<i32>>>, r: int, c: int, index: int)
    requires
        0 <= r < clues.len(),
        0 <= c < clues[r]@.len(),
        clues[r]@[c] is Some,
        0 <= index < 4,
    ensures
        binary_encoding::clue_clauses(clues).contains(
            seq![binary_encoding::clue_lit(r, c, clues[r]@[c]->0, index)],
        ),
{
    let x = seq![binary_encoding::clue_lit(r, c, clues[r]@[c]->0, index)];
    assert(binary_encoding::clue_cell(clues, r, c)[index] == x);
    assert(binary_encoding::clue_cell_fn(clues, r)(c).contains(x));
    lemma_concat_map_contains(clues[r]@.len() as int, binary_encoding::clue_cell_fn(clues, r), c, x);
    assert(binary_encoding::clue_row_fn(clues)(r) == binary_encoding::clue_row(clues, r));
    lemma_concat_map_contains(clues.len() as int, binary_encoding::clue_row_fn(clues), r, x);
}

/// The clue clauses are part of the binary encoding.
proof fn lemma_bin_clue_part(clues: Seq<Vec<Option<i32>>>, x: Seq<i32>)
    requires
        binary_encoding::clue_clauses(clues).contains(x),
    ensures
        binary_encoding::spec_sudoku_to_cnf(clues).contains(x),
{
    let p5 = binary_encoding::clue_clauses(clues);
    let all = binary_encoding::spec_sudoku_to_cnf(clues);
    let front = all.subrange(0, all.len() - p5.len());
    assert(all =~= front + p5);
    let i = choose|i: int| 0 <= i < p5.len() && p5[i] == x;
    assert(all[front.len() + i] == x);
}

/// A bit of a clue cell reads, in the solution, as the bit of the clue.
proof fn lemma_bin_clue_bit(
    solver: CadicalSolver,
    before: Seq<Seq<i32>>,
    clues: Seq<Vec<Option<i32>>>,
    r: int,
    c: int,
    index: int,
)
    requires
        all_clauses_satisfied(solver),
        solver_clauses(solver) == before + binary_encoding::spec_sudoku_to_cnf(clues),
        has_clue(clues, r, c),
        0 <= index < 4,
    ensures
        (solver_value(solver, binary_encoding::bl(r + 1, c + 1, index)) == Some(true))
            == binary_encoding::bit_set((clues[r]@[c]->0 - 1) as i32, index),
{
    let v = clues[r]@[c]->0;
    let l = binary_encoding::clue_lit(r, c, v, index);
    lemma_bin_clue_member(clues, r, c, index);
    lemma_bin_clue_part(clues, seq![l]);
    lemma_added_clause_satisfied(solver, before, binary_encoding::spec_sudoku_to_cnf(clues), seq![l]);
    let i = choose|i: int| 0 <= i < 1 && #[trigger] lit_true(solver, seq![l][i]);
    assert(seq![l][i] == l);
    assert(binary_encoding::bl(r + 1, c + 1, index) > 0);
}

/// The grid read from a solution of the binary encoding keeps every clue
/// 1..=9 of the 9x9 grid.
pub proof fn lemma_binary_solution_keeps_clues(
    solver: CadicalSolver,
    before: Seq<Seq<i32>>,
    clues: Seq<Vec<Option<i32>>>,
)
    requires
        all_clauses_satisfied(solver),
        solver_clauses(solver) == before + binary_encoding::spec_sudoku_to_cnf(clues),
    ensures
        keeps_clues(solved_grid(EncodingType::Binary, solver), clues),
{
    assert forall|r: int, c: int| #[trigger] has_clue(clues, r, c) implies solved_grid(
        EncodingType::Binary,
        solver,
    )[r][c] == clues[r]@[c] by {
        let v = clues[r]@[c]->0;
        lemma_bin_clue_bit(solver, before, clues, r, c, 0);
        lemma_bin_clue_bit(solver, before, clues, r, c, 1);
        lemma_bin_clue_bit(solver, before, clues, r, c, 2);
        lemma_bin_clue_bit(solver, before, clues, r, c, 3);
        binary_encoding::lemma_clue_bits_round_trip(v);
    }
}

// ------------------------------------------------------- decimal, valid grid

/// Every cell of the grid holds a value 1..=9.
pub open spec fn cell_filled(x: Option<i32>) -> bool {
    x is Some && 1 <= x->0 <= 9
}

/// Cells (r1, c1) and (r2, c2) (0-based) lie in the same 3x3 sub-grid.
pub open spec fn same_box(r1: int, c1: int, r2: int, c2: int) -> bool {
    r1 / 3 == r2 / 3 && c1 / 3 == c2 / 3
}

/// A solved sudoku: every cell holds a value 1..=9 and no row, column or
/// 3x3 sub-grid holds a value twice.
pub open spec fn valid_grid(grid: Seq<Seq<Option<i32>>>) -> bool {
    &&& forall|r: int, c: int| 0 <= r < 9 && 0 <= c < 9 ==> #[trigger] cell_filled(grid[r][c])
    &&& forall|r: int, c1: int, c2: int|
        0 <= r < 9 && 0 <= c1 < 9 && 0 <= c2 < 9 && c1 != c2 ==> #[trigger] grid[r][c1]
            != #[trigger] grid[r][c2]
    &&& forall|c: int, r1: int, r2: int|
        0 <= c < 9 && 0 <= r1 < 9 && 0 <= r2 < 9 && r1 != r2 ==> #[trigger] grid[r1][c]
            != #[trigger] grid[r2][c]
    &&& forall|r1: int, c1: int, r2: int, c2: int|
        0 <= r1 < 9 && 0 <= c1 < 9 && 0 <= r2 < 9 && 0 <= c2 < 9 && (r1 != r2 || c1 != c2)
            && same_box(r1, c1, r2, c2) ==> #[trigger] grid[r1][c1] != #[trigger] grid[r2][c2]
}

/// The at-least-one clauses hold, for each cell, the clause that it holds
/// one of the values.
proof fn lemma_dec_alo_member(r0: int, c0: int)
    requires
        0 <= r0 < 9,
        0 <= c0 < 9,
    ensures
        decimal_encoding::at_least_one_clauses().contains(
            Seq::new(9, |v0: int| decimal_encoding::lit(r0 + 1, c0 + 1, v0 + 1)),
        ),
{
    let x = Seq::new(9, |v0: int| decimal_encoding::lit(r0 + 1, c0 + 1, v0 + 1));
    assert(decimal_encoding::alo_cell(r0, c0)[0] == x);
    assert(decimal_encoding::alo_cell_fn(r0)(c0).contains(x));
    lemma_concat_map_contains(9, decimal_encoding::alo_cell_fn(r0), c0, x);
    assert(decimal_encoding::alo_row_fn()(r0).contains(x));
    lemma_concat_map_contains(9, decimal_encoding::alo_row_fn(), r0, x);
}

/// The clause that cells (r1, c1) and (r2, c2) (1-based) do not both hold `w`.
pub open spec fn not_both(r1: int, c1: int, r2: int, c2: int, w: int) -> Seq<i32> {
    seq![
        decimal_encoding::neg(decimal_encoding::lit(r1, c1, w)),
        decimal_encoding::neg(decimal_encoding::lit(r2, c2, w)),
    ]
}

/// The block of a pair of cells holds the clause for each value.
proof fn lemma_value_pairs_member(r1: int, c1: int, r2: int, c2: int, w: int)
    requires
        1 <= w <= 9,
    ensures
        (decimal_encoding::value_pairs_block())(r1, c1, r2, c2).contains(not_both(r1, c1, r2, c2, w)),
{
    let x = not_both(r1, c1, r2, c2, w);
    assert(decimal_encoding::value_pair(r1, c1, r2, c2, w - 1)[0] =~= x);
    assert(decimal_encoding::value_pair_fn(r1, c1, r2, c2)(w - 1).contains(x));
    lemma_concat_map_contains(9, decimal_encoding::value_pair_fn(r1, c1, r2, c2), w - 1, x);
}

/// The unique-values clauses hold the clause for two cells of a row.
proof fn lemma_unique_row_member(r0: int, c1: int, c2: int, w: int)
    requires
        0 <= r0 < 9,
        0 <= c1 < c2 < 9,
        1 <= w <= 9,
    ensures
        decimal_encoding::unique_values_clauses().contains(not_both(r0 + 1, c1 + 1, r0 + 1, c2 + 1, w)),
{
    let b = decimal_encoding::value_pairs_block();
    let x = not_both(r0 + 1, c1 + 1, r0 + 1, c2 + 1, w);
    lemma_value_pairs_member(r0 + 1, c1 + 1, r0 + 1, c2 + 1, w);
    lemma_row_block(b, r0, c1, c2, x);
    let all = decimal_encoding::unique_values_clauses();
    let rows = cell_pairs::row_pairs(b);
    let i = choose|i: int| 0 <= i < rows.len() && rows[i] == x;
    assert(all[i] == x);
}

/// The unique-values clauses hold the clause for two cells of a column.
proof fn lemma_unique_col_member(c0: int, r1: int, r2: int, w: int)
    requires
        0 <= c0 < 9,
        0 <= r1 < r2 < 9,
        1 <= w <= 9,
    ensures
        decimal_encoding::unique_values_clauses().contains(not_both(r1 + 1, c0 + 1, r2 + 1, c0 + 1, w)),
{
    let b = decimal_encoding::value_pairs_block();
    let x = not_both(r1 + 1, c0 + 1, r2 + 1, c0 + 1, w);
    lemma_value_pairs_member(r1 + 1, c0 + 1, r2 + 1, c0 + 1, w);
    lemma_col_block(b, c0, r1, r2, x);
    let all = decimal_encoding::unique_values_clauses();
    let rows = cell_pairs::row_pairs(b);
    let cols = cell_pairs::col_pairs(b);
    let i = choose|i: int| 0 <= i < cols.len() && cols[i] == x;
    assert(all[rows.len() + i] == x);
}

/// The unique-values clauses hold the clause for two cells of a sub-grid,
/// given by their indices (column-major) in it.
proof fn lemma_unique_sub_member(sr: int, sc: int, i1: int, i2: int, w: int)
    requires
        0 <= sr < 3,
        0 <= sc < 3,
        0 <= i1 < i2 < 9,
        1 <= w <= 9,
    ensures
        decimal_encoding::unique_values_clauses().contains(
            not_both(
                cell_pairs::sub_row(sr, i1),
                cell_pairs::sub_col(sc, i1),
                cell_pairs::sub_row(sr, i2),
                cell_pairs::sub_col(sc, i2),
                w,
            ),
        ),
{
    let b = decimal_encoding::value_pairs_block();
    let x = not_both(
        cell_pairs::sub_row(sr, i1),
        cell_pairs::sub_col(sc, i1),
        cell_pairs::sub_row(sr, i2),
        cell_pairs::sub_col(sc, i2),
        w,
    );
    lemma_value_pairs_member(
        cell_pairs::sub_row(sr, i1),
        cell_pairs::sub_col(sc, i1),
        cell_pairs::sub_row(sr, i2),
        cell_pairs::sub_col(sc, i2),
        w,
    );
    lemma_sub_block(b, sr, sc, i1, i2, x);
    let all = decimal_encoding::unique_values_clauses();
    let rows = cell_pairs::row_pairs(b);
    let cols = cell_pairs::col_pairs(b);
    let subs = cell_pairs::sub_pairs(b);
    let i = choose|i: int| 0 <= i < subs.len() && subs[i] == x;
    assert(all[rows.len() + cols.len() + i] == x);
}

/// When some value from `val` on has its variable true, the cell value read
/// from the solution is such a value.
proof fn lemma_cell_value_found(solver: CadicalSolver, row: int, col: int, val: int)
    requires
        1 <= val <= 9,
        exists|v: int|
            val <= v <= 9 && solver_value(solver, #[trigger] decimal_encoding::lit(row, col, v)) == Some(true),
    ensures
        val <= decimal_encoding::spec_cell_value_from(solver, row, col, val) <= 9,
        solver_value(
            solver,
            decimal_encoding::lit(row, col, decimal_encoding::spec_cell_value_from(solver, row, col, val)),
        ) == Some(true),
    decreases 10 - val,
{
    if solver_value(solver, decimal_encoding::lit(row, col, val)) != Some(true) {
        let v = choose|v: int|
            val <= v <= 9 && solver_value(solver, #[trigger] decimal_encoding::lit(row, col, v)) == Some(true);
        assert(v != val);
        assert(val + 1 <= v);
        lemma_cell_value_found(solver, row, col, val + 1);
    }
}

/// With the at-least-one rule, the value read for a cell is 1..=9 and its
/// variable is true.
proof fn lemma_dec_cell_filled(
    solver: CadicalSolver,
    before: Seq<Seq<i32>>,
    clues: Seq<Vec<Option<i32>>>,
    b: bool,
    c3: bool,
    d: bool,
    r: int,
    c: int,
)
    requires
        all_clauses_satisfied(solver),
        solver_clauses(solver) == before + decimal_encoding::spec_sudoku_to_cnf(clues, true, b, c3, d),
        0 <= r < 9,
        0 <= c < 9,
    ensures
        1 <= decimal_encoding::spec_cell_value(solver, r + 1, c + 1) <= 9,
        solver_value(
            solver,
            decimal_encoding::lit(r + 1, c + 1, decimal_encoding::spec_cell_value(solver, r + 1, c + 1)),
        ) == Some(true),
{
    let x = Seq::new(9, |v0: int| decimal_encoding::lit(r + 1, c + 1, v0 + 1));
    lemma_dec_alo_member(r, c);
    lemma_dec_parts(clues, true, b, c3, d, x);
    lemma_added_clause_satisfied(
        solver,
        before,
        decimal_encoding::spec_sudoku_to_cnf(clues, true, b, c3, d),
        x,
    );
    let i = choose|i: int| 0 <= i < x.len() && #[trigger] lit_true(solver, x[i]);
    lemma_dec_lit_positive(r + 1, c + 1, i + 1);
    assert(solver_value(solver, decimal_encoding::lit(r + 1, c + 1, i + 1)) == Some(true));
    lemma_cell_value_found(solver, r + 1, c + 1, 1);
}

/// Two cells whose variables for `w` are both true are not related by a
/// clause of the unique-values rule.
proof fn lemma_not_both_true(
    solver: CadicalSolver,
    before: Seq<Seq<i32>>,
    clues: Seq<Vec<Option<i32>>>,
    a: bool,
    b: bool,
    c3: bool,
    r1: int,
    c1: int,
    r2: int,
    c2: int,
    w: int,
)
    requires
        all_clauses_satisfied(solver),
        solver_clauses(solver) == before + decimal_encoding::spec_sudoku_to_cnf(clues, a, b, c3, true),
        decimal_encoding::unique_values_clauses().contains(not_both(r1, c1, r2, c2, w)),
        1 <= r1 <= 9,
        1 <= c1 <= 9,
        1 <= r2 <= 9,
        1 <= c2 <= 9,
        1 <= w <= 9,
    ensures
        !(solver_value(solver, decimal_encoding::lit(r1, c1, w)) == Some(true) && solver_value(
            solver,
            decimal_encoding::lit(r2, c2, w),
        ) == Some(true)),
{
    let x = not_both(r1, c1, r2, c2, w);
    lemma_dec_parts(clues, a, b, c3, true, x);
    lemma_added_clause_satisfied(solver, before, decimal_encoding::spec_sudoku_to_cnf(clues, a, b, c3, true), x);
    lemma_dec_lit_positive(r1, c1, w);
    lemma_dec_lit_positive(r2, c2, w);
    let i = choose|i: int| 0 <= i < x.len() && #[trigger] lit_true(solver, x[i]);
    if i == 0 {
        assert(lit_true(solver, x[0]));
    } else {
        assert(lit_true(solver, x[1]));
    }
}

/// The position of cell (r, c) (0-based) among the cells of its sub-grid,
/// column-major.
pub open spec fn box_index(r: int, c: int) -> int {
    (c - (c / 3) * 3) * 3 + (r - (r / 3) * 3)
}

proof fn lemma_box_index(r: int, c: int)
    requires
        0 <= r < 9,
        0 <= c < 9,
    ensures
        0 <= box_index(r, c) < 9,
        cell_pairs::sub_row(r / 3, box_index(r, c)) == r + 1,
        cell_pairs::sub_col(c / 3, box_index(r, c)) == c + 1,
{
    let i = box_index(r, c);
    let dr = r - (r / 3) * 3;
    let dc = c - (c / 3) * 3;
    assert(0 <= dr < 3 && 0 <= dc < 3);
    assert(i == dc * 3 + dr);
    assert(i % 3 == dr && i / 3 == dc) by (nonlinear_arith)
        requires
            i == dc * 3 + dr,
            0 <= dr < 3,
            0 <= dc < 3,
    ;
}

/// With the rules that each cell holds at least one value and that no row,
/// column or sub-grid holds a value twice, the grid read from a solution of
/// the decimal encoding is a solved sudoku.
pub proof fn lemma_decimal_solution_is_valid(
    solver: CadicalSolver,
    before: Seq<Seq<i32>>,
    clues: Seq<Vec<Option<i32>>>,
    encoding: EncodingType,
)
    requires
        encoding is Decimal,
        encoding->cell_at_least_one,
        encoding->sudoku_has_unique_values,
        all_clauses_satisfied(solver),
        solver_clauses(solver) == before + encoding.spec_sudoku_to_cnf(clues),
    ensures
        valid_grid(solved_grid(encoding, solver)),
{
    let b = encoding->cell_at_most_one;
    let c3 = encoding->sudoku_has_all_values;
    let g = solved_grid(encoding, solver);
    assert(encoding.spec_sudoku_to_cnf(clues) == decimal_encoding::spec_sudoku_to_cnf(clues, true, b, c3, true));
    assert forall|r: int, c: int| 0 <= r < 9 && 0 <= c < 9 implies #[trigger] cell_filled(g[r][c]) by {
        lemma_dec_cell_filled(solver, before, clues, b, c3, true, r, c);
    }
    assert forall|r: int, c1: int, c2: int|
        0 <= r < 9 && 0 <= c1 < 9 && 0 <= c2 < 9 && c1 != c2 implies #[trigger] g[r][c1] != #[trigger] g[r][c2] by {
        lemma_dec_cell_filled(solver, before, clues, b, c3, true, r, c1);
        lemma_dec_cell_filled(solver, before, clues, b, c3, true, r, c2);
        let w = decimal_encoding::spec_cell_value(solver, r + 1, c1 + 1);
        if g[r][c1] == g[r][c2] {
            assert(decimal_encoding::spec_cell_value(solver, r + 1, c2 + 1) == w);
            if c1 < c2 {
                lemma_unique_row_member(r, c1, c2, w);
                lemma_not_both_true(solver, before, clues, true, b, c3, r + 1, c1 + 1, r + 1, c2 + 1, w);
            } else {
                lemma_unique_row_member(r, c2, c1, w);
                lemma_not_both_true(solver, before, clues, true, b, c3, r + 1, c2 + 1, r + 1, c1 + 1, w);
            }
        }
    }
    assert forall|c: int, r1: int, r2: int|
        0 <= c < 9 && 0 <= r1 < 9 && 0 <= r2 < 9 && r1 != r2 implies #[trigger] g[r1][c] != #[trigger] g[r2][c] by {
        lemma_dec_cell_filled(solver, before, clues, b, c3, true, r1, c);
        lemma_dec_cell_filled(solver, before, clues, b, c3, true, r2, c);
        let w = decimal_encoding::spec_cell_value(solver, r1 + 1, c + 1);
        if g[r1][c] == g[r2][c] {
            assert(decimal_encoding::spec_cell_value(solver, r2 + 1, c + 1) == w);
            if r1 < r2 {
                lemma_unique_col_member(c, r1, r2, w);
                lemma_not_both_true(solver, before, clues, true, b, c3, r1 + 1, c + 1, r2 + 1, c + 1, w);
            } else {
                lemma_unique_col_member(c, r2, r1, w);
                lemma_not_both_true(solver, before, clues, true, b, c3, r2 + 1, c + 1, r1 + 1, c + 1, w);
            }
        }
    }
    assert forall|r1: int, c1: int, r2: int, c2: int|
        0 <= r1 < 9 && 0 <= c1 < 9 && 0 <= r2 < 9 && 0 <= c2 < 9 && (r1 != r2 || c1 != c2)
            && same_box(r1, c1, r2, c2) implies #[trigger] g[r1][c1] != #[trigger] g[r2][c2] by {
        lemma_dec_cell_filled(solver, before, clues, b, c3, true, r1, c1);
        lemma_dec_cell_filled(solver, before, clues, b, c3, true, r2, c2);
        let w = decimal_encoding::spec_cell_value(solver, r1 + 1, c1 + 1);
        if g[r1][c1] == g[r2][c2] {
            assert(decimal_encoding::spec_cell_value(solver, r2 + 1, c2 + 1) == w);
            lemma_box_index(r1, c1);
            lemma_box_index(r2, c2);
            let sr = r1 / 3;
            let sc = c1 / 3;
            let i1 = box_index(r1, c1);
            let i2 = box_index(r2, c2);
            assert(i1 != i2);
            if i1 < i2 {
                lemma_unique_sub_member(sr, sc, i1, i2, w);
                lemma_not_both_true(solver, before, clues, true, b, c3, r1 + 1, c1 + 1, r2 + 1, c2 + 1, w);
            } else {
                lemma_unique_sub_member(sr, sc, i2, i1, w);
                lemma_not_both_true(solver, before, clues, true, b, c3, r2 + 1, c2 + 1, r1 + 1, c1 + 1, w);
            }
        }
    }
}

/// A one-to-one map from the positions 0..9 into the values 1..=9 reaches
/// every value.
proof fn lemma_injective_onto(f: spec_fn(int) -> int, v: int)
    requires
        forall|i: int| 0 <= i < 9 ==> 1 <= #[trigger] f(i) <= 9,
        forall|i: int, j: int| 0 <= i < 9 && 0 <= j < 9 && i != j ==> #[trigger] f(i) != #[trigger] f(j),
        1 <= v <= 9,
    ensures
        exists|i: int| 0 <= i < 9 && #[trigger] f(i) == v,
{
    let x = set_int_range(0, 9);
    let y = x.map(f);
    let z = set_int_range(1, 10);
    lemma_int_range(0, 9);
    lemma_int_range(1, 10);
    assert(injective_on(f, x));
    lemma_map_size(x, y, f);
    assert forall|w: int| y.contains(w) implies z.contains(w) by {
        let i = choose|i: int| x.contains(i) && f(i) == w;
    }
    lemma_subset_equality(y, z);
    assert(z.contains(v));
    assert(y.contains(v));
    let i = choose|i: int| x.contains(i) && f(i) == v;
    assert(0 <= i < 9 && f(i) == v);
}

/// The value read from the solution for a clue cell is its clue, when every
/// cell holds at least one value and no row holds a value twice: the nine
/// cells of the clue's row then hold nine different values, so some cell of
/// the row reads the clue's value, and only the clue cell can hold it.
proof fn lemma_dec_clue_kept_unique(
    solver: CadicalSolver,
    before: Seq<Seq<i32>>,
    clues: Seq<Vec<Option<i32>>>,
    b: bool,
    c3: bool,
    r: int,
    c: int,
)
    requires
        all_clauses_satisfied(solver),
        solver_clauses(solver) == before + decimal_encoding::spec_sudoku_to_cnf(clues, true, b, c3, true),
        has_clue(clues, r, c),
    ensures
        decimal_encoding::spec_cell_value(solver, r + 1, c + 1) == clues[r]@[c]->0,
{
    let v = clues[r]@[c]->0 as int;
    let added = decimal_encoding::spec_sudoku_to_cnf(clues, true, b, c3, true);
    let unit = seq![decimal_encoding::lit(r + 1, c + 1, v)];
    lemma_dec_clue_member(clues, r, c);
    lemma_dec_parts(clues, true, b, c3, true, unit);
    lemma_added_clause_satisfied(solver, before, added, unit);
    lemma_dec_lit_positive(r + 1, c + 1, v);
    lemma_unit_true(solver, decimal_encoding::lit(r + 1, c + 1, v));
    let f = |i: int| decimal_encoding::spec_cell_value(solver, r + 1, i + 1);
    assert forall|i: int| 0 <= i < 9 implies 1 <= #[trigger] f(i) <= 9 by {
        lemma_dec_cell_filled(solver, before, clues, b, c3, true, r, i);
    }
    assert forall|i: int, j: int| 0 <= i < 9 && 0 <= j < 9 && i != j implies #[trigger] f(i)
        != #[trigger] f(j) by {
        lemma_dec_cell_filled(solver, before, clues, b, c3, true, r, i);
        lemma_dec_cell_filled(solver, before, clues, b, c3, true, r, j);
        let w = f(i);
        if f(i) == f(j) {
            if i < j {
                lemma_unique_row_member(r, i, j, w);
                lemma_not_both_true(solver, before, clues, true, b, c3, r + 1, i + 1, r + 1, j + 1, w);
            } else {
                lemma_unique_row_member(r, j, i, w);
                lemma_not_both_true(solver, before, clues, true, b, c3, r + 1, j + 1, r + 1, i + 1, w);
            }
        }
    }
    lemma_injective_onto(f, v);
    let k = choose|k: int| 0 <= k < 9 && #[trigger] f(k) == v;
    if k != c {
        lemma_dec_cell_filled(solver, before, clues, b, c3, true, r, k);
        if k < c {
            lemma_unique_row_member(r, k, c, v);
            lemma_not_both_true(solver, before, clues, true, b, c3, r + 1, k + 1, r + 1, c + 1, v);
        } else {
            lemma_unique_row_member(r, c, k, v);
            lemma_not_both_true(solver, before, clues, true, b, c3, r + 1, c + 1, r + 1, k + 1, v);
        }
    }
}

// -------------------------------------------------------- binary, valid grid

/// The block of a pair of cells of a row is part of the row pairs.
proof fn lemma_row_block(b: cell_pairs::PairBlock, r0: int, c1: int, c2: int, x: Seq<i32>)
    requires
        0 <= r0 < 9,
        0 <= c1 < c2 < 9,
        b(r0 + 1, c1 + 1, r0 + 1, c2 + 1).contains(x),
    ensures
        cell_pairs::row_pairs(b).contains(x),
{
    let k = c2 - c1 - 1;
    assert(cell_pairs::row_pair_fn(b, r0, c1)(k).contains(x));
    lemma_concat_map_contains(8 - c1, cell_pairs::row_pair_fn(b, r0, c1), k, x);
    assert(cell_pairs::row_cell_fn(b, r0)(c1).contains(x));
    lemma_concat_map_contains(9, cell_pairs::row_cell_fn(b, r0), c1, x);
    assert(cell_pairs::row_fn(b)(r0).contains(x));
    lemma_concat_map_contains(9, cell_pairs::row_fn(b), r0, x);
}

/// The block of a pair of cells of a column is part of the column pairs.
proof fn lemma_col_block(b: cell_pairs::PairBlock, c0: int, r1: int, r2: int, x: Seq<i32>)
    requires
        0 <= c0 < 9,
        0 <= r1 < r2 < 9,
        b(r1 + 1, c0 + 1, r2 + 1, c0 + 1).contains(x),
    ensures
        cell_pairs::col_pairs(b).contains(x),
{
    let k = r2 - r1 - 1;
    assert(cell_pairs::col_pair_fn(b, c0, r1)(k).contains(x));
    lemma_concat_map_contains(8 - r1, cell_pairs::col_pair_fn(b, c0, r1), k, x);
    assert(cell_pairs::col_cell_fn(b, c0)(r1).contains(x));
    lemma_concat_map_contains(9, cell_pairs::col_cell_fn(b, c0), r1, x);
    assert(cell_pairs::col_fn(b)(c0).contains(x));
    lemma_concat_map_contains(9, cell_pairs::col_fn(b), c0, x);
}

/// The block of a pair of cells of a sub-grid, given by their indices
/// (column-major) in it, is part of the sub-grid pairs.
proof fn lemma_sub_block(b: cell_pairs::PairBlock, sr: int, sc: int, i1: int, i2: int, x: Seq<i32>)
    requires
        0 <= sr < 3,
        0 <= sc < 3,
        0 <= i1 < i2 < 9,
        b(
            cell_pairs::sub_row(sr, i1),
            cell_pairs::sub_col(sc, i1),
            cell_pairs::sub_row(sr, i2),
            cell_pairs::sub_col(sc, i2),
        ).contains(x),
    ensures
        cell_pairs::sub_pairs(b).contains(x),
{
    let k = i2 - i1 - 1;
    assert(cell_pairs::sub_pair_fn(b, sr, sc, i1)(k).contains(x));
    lemma_concat_map_contains(8 - i1, cell_pairs::sub_pair_fn(b, sr, sc, i1), k, x);
    assert(cell_pairs::sub_cell_fn(b, sr, sc)(i1).contains(x));
    lemma_concat_map_contains(9, cell_pairs::sub_cell_fn(b, sr, sc), i1, x);
    assert(cell_pairs::sub_grid_fn(b, sr)(sc).contains(x));
    lemma_concat_map_contains(3, cell_pairs::sub_grid_fn(b, sr), sc, x);
    assert(cell_pairs::sub_band_fn(b)(sr).contains(x));
    lemma_concat_map_contains(3, cell_pairs::sub_band_fn(b), sr, x);
}

/// The pair, forbidden-value and clue parts are part of the binary encoding.
proof fn lemma_bin_parts(clues: Seq<Vec<Option<i32>>>, x: Seq<i32>)
    requires
        cell_pairs::row_pairs(binary_encoding::pair_block_fn()).contains(x) || cell_pairs::col_pairs(
            binary_encoding::pair_block_fn(),
        ).contains(x) || cell_pairs::sub_pairs(binary_encoding::pair_block_fn()).contains(x)
            || binary_encoding::forbidden_clauses().contains(x),
    ensures
        binary_encoding::spec_sudoku_to_cnf(clues).contains(x),
{
    let p1 = cell_pairs::row_pairs(binary_encoding::pair_block_fn());
    let p2 = cell_pairs::col_pairs(binary_encoding::pair_block_fn());
    let p3 = cell_pairs::sub_pairs(binary_encoding::pair_block_fn());
    let p4 = binary_encoding::forbidden_clauses();
    let p5 = binary_encoding::clue_clauses(clues);
    let all = binary_encoding::spec_sudoku_to_cnf(clues);
    assert(all == p1 + p2 + p3 + p4 + p5);
    if p1.contains(x) {
        let i = choose|i: int| 0 <= i < p1.len() && p1[i] == x;
        assert(all[i] == x);
    } else if p2.contains(x) {
        let i = choose|i: int| 0 <= i < p2.len() && p2[i] == x;
        assert(all[p1.len() + i] == x);
    } else if p3.contains(x) {
        let i = choose|i: int| 0 <= i < p3.len() && p3[i] == x;
        assert(all[p1.len() + p2.len() + i] == x);
    } else {
        let i = choose|i: int| 0 <= i < p4.len() && p4[i] == x;
        assert(all[p1.len() + p2.len() + p3.len() + i] == x);
    }
}

/// The block of a pair of cells holds, for each bit, the clauses that make
/// the equality variable true when the two bits agree, and the clause that
/// some equality variable is false.
proof fn lemma_pair_block_members(row: int, col: int, row2: int, col2: int, bit: int)
    requires
        0 <= bit < 4,
    ensures
        binary_encoding::pair_block(row, col, row2, col2).contains(
            binary_encoding::eq_init_bit(row, col, row2, col2, bit)[2],
        ),
        binary_encoding::pair_block(row, col, row2, col2).contains(
            binary_encoding::eq_init_bit(row, col, row2, col2, bit)[3],
        ),
        binary_encoding::pair_block(row, col, row2, col2).contains(
            binary_encoding::differ_clause(row, col, row2, col2),
        ),
{
    let f = binary_encoding::eq_init_bit_fn(row, col, row2, col2);
    let init = binary_encoding::spec_eq_variable_init(row, col, row2, col2);
    let block = binary_encoding::pair_block(row, col, row2, col2);
    let d = binary_encoding::differ_clause(row, col, row2, col2);
    assert(block == init + seq![d]);
    let x2 = binary_encoding::eq_init_bit(row, col, row2, col2, bit)[2];
    let x3 = binary_encoding::eq_init_bit(row, col, row2, col2, bit)[3];
    assert(f(bit)[2] == x2);
    assert(f(bit)[3] == x3);
    lemma_concat_map_contains(4, f, bit, x2);
    lemma_concat_map_contains(4, f, bit, x3);
    let i2 = choose|i: int| 0 <= i < init.len() && init[i] == x2;
    assert(block[i2] == x2);
    let i3 = choose|i: int| 0 <= i < init.len() && init[i] == x3;
    assert(block[i3] == x3);
    assert(block[init.len() as int] == d);
}

/// Equal values read from four bits come from equal bits.
proof fn lemma_value_from_bits_injective(
    a0: bool,
    a1: bool,
    a2: bool,
    a3: bool,
    b0: bool,
    b1: bool,
    b2: bool,
    b3: bool,
)
    requires
        binary_encoding::value_from_bits(a0, a1, a2, a3) == binary_encoding::value_from_bits(
            b0,
            b1,
            b2,
            b3,
        ),
    ensures
        a0 == b0 && a1 == b1 && a2 == b2 && a3 == b3,
{
}

/// Whether bit `bit` of cell (row, col) is true in the solution.
pub open spec fn bit_true(solver: CadicalSolver, row: int, col: int, bit: int) -> bool {
    solver_value(solver, binary_encoding::bl(row, col, bit)) == Some(true)
}

/// Two cells related by a pair block of the encoding read different values:
/// equal values would make every equality variable of the pair true, against
/// the clause that one of them is false.
#[verifier::spinoff_prover]
#[verifier::rlimit(40)]
proof fn lemma_bin_pair_differ(
    solver: CadicalSolver,
    before: Seq<Seq<i32>>,
    clues: Seq<Vec<Option<i32>>>,
    row: int,
    col: int,
    row2: int,
    col2: int,
)
    requires
        all_clauses_satisfied(solver),
        solver_clauses(solver) == before + binary_encoding::spec_sudoku_to_cnf(clues),
        1 <= row <= 9,
        1 <= col <= 9,
        1 <= row2 <= 9,
        1 <= col2 <= 9,
        forall|x: Seq<i32>|
            binary_encoding::pair_block(row, col, row2, col2).contains(x)
                ==> #[trigger] binary_encoding::spec_sudoku_to_cnf(clues).contains(x),
    ensures
        binary_encoding::spec_cell_value(solver, row, col) != binary_encoding::spec_cell_value(
            solver,
            row2,
            col2,
        ),
{
    let all = binary_encoding::spec_sudoku_to_cnf(clues);
    if binary_encoding::spec_cell_value(solver, row, col) == binary_encoding::spec_cell_value(
        solver,
        row2,
        col2,
    ) {
        lemma_value_from_bits_injective(
            bit_true(solver, row, col, 0),
            bit_true(solver, row, col, 1),
            bit_true(solver, row, col, 2),
            bit_true(solver, row, col, 3),
            bit_true(solver, row2, col2, 0),
            bit_true(solver, row2, col2, 1),
            bit_true(solver, row2, col2, 2),
            bit_true(solver, row2, col2, 3),
        );
        assert forall|bit: int| 0 <= bit < 4 implies solver_value(
            solver,
            #[trigger] binary_encoding::el(row, col, row2, col2, bit),
        ) == Some(true) by {
            lemma_pair_block_members(row, col, row2, col2, bit);
            let e = binary_encoding::el(row, col, row2, col2, bit);
            let x = binary_encoding::bl(row, col, bit);
            let y = binary_encoding::bl(row2, col2, bit);
            assert(e > 0 && x > 0 && y > 0);
            assert(bit_true(solver, row, col, bit) == bit_true(solver, row2, col2, bit));
            if bit_true(solver, row, col, bit) {
                let cl = binary_encoding::eq_init_bit(row, col, row2, col2, bit)[2];
                assert(cl == seq![e, binary_encoding::neg(x), binary_encoding::neg(y)]);
                lemma_added_clause_satisfied(solver, before, all, cl);
                let j = choose|j: int| 0 <= j < cl.len() && #[trigger] lit_true(solver, cl[j]);
                if j == 1 {
                    assert(lit_true(solver, cl[1]));
                } else if j == 2 {
                    assert(lit_true(solver, cl[2]));
                }
            } else {
                let cl = binary_encoding::eq_init_bit(row, col, row2, col2, bit)[3];
                assert(cl == seq![e, x, y]);
                lemma_added_clause_satisfied(solver, before, all, cl);
                let j = choose|j: int| 0 <= j < cl.len() && #[trigger] lit_true(solver, cl[j]);
                if j == 1 {
                    assert(lit_true(solver, cl[1]));
                } else if j == 2 {
                    assert(lit_true(solver, cl[2]));
                }
            }
        }
        let d = binary_encoding::differ_clause(row, col, row2, col2);
        lemma_pair_block_members(row, col, row2, col2, 0);
        lemma_added_clause_satisfied(solver, before, all, d);
        let j = choose|j: int| 0 <= j < d.len() && #[trigger] lit_true(solver, d[j]);
        assert(binary_encoding::el(row, col, row2, col2, j) > 0);
        assert(lit_true(solver, d[j]));
    }
}

/// The bits of a value 0..16 written as a sum of the weights of four flags
/// are the flags.
proof fn lemma_bits_of_sum(t0: bool, t1: bool, t2: bool, t3: bool, v: i32)
    requires
        v == (if t0 { 1i32 } else { 0i32 }) + (if t1 { 2i32 } else { 0i32 }) + (if t2 {
            4i32
        } else {
            0i32
        }) + (if t3 { 8i32 } else { 0i32 }),
    ensures
        binary_encoding::bit_set(v, 0) == t0,
        binary_encoding::bit_set(v, 1) == t1,
        binary_encoding::bit_set(v, 2) == t2,
        binary_encoding::bit_set(v, 3) == t3,
{
    assert(((v & 1) != 0) == t0 && ((v & 2) != 0) == t1 && ((v & 4) != 0) == t2 && ((v & 8) != 0)
        == t3) by (bit_vector)
        requires
            v == (if t0 { 1i32 } else { 0i32 }) + (if t1 { 2i32 } else { 0i32 }) + (if t2 {
                4i32
            } else {
                0i32
            }) + (if t3 { 8i32 } else { 0i32 }),
    ;
}

/// The value read for a cell in a solution of the binary encoding is
/// 1..=9: a larger one is ruled out by a clause that it violates.
proof fn lemma_bin_cell_range(
    solver: CadicalSolver,
    before: Seq<Seq<i32>>,
    clues: Seq<Vec<Option<i32>>>,
    r0: int,
    c0: int,
)
    requires
        all_clauses_satisfied(solver),
        solver_clauses(solver) == before + binary_encoding::spec_sudoku_to_cnf(clues),
        0 <= r0 < 9,
        0 <= c0 < 9,
    ensures
        1 <= binary_encoding::spec_cell_value(solver, r0 + 1, c0 + 1) <= 9,
{
    let t0 = bit_true(solver, r0 + 1, c0 + 1, 0);
    let t1 = bit_true(solver, r0 + 1, c0 + 1, 1);
    let t2 = bit_true(solver, r0 + 1, c0 + 1, 2);
    let t3 = bit_true(solver, r0 + 1, c0 + 1, 3);
    let v = binary_encoding::spec_cell_value(solver, r0 + 1, c0 + 1) - 1;
    if v >= 9 {
        let f0 = v - 9;
        let fv = (f0 + 9) as i32;
        lemma_bits_of_sum(t0, t1, t2, t3, fv);
        let x = Seq::new(4, |index: int| binary_encoding::forbidden_lit(r0 + 1, c0 + 1, f0 + 9, index));
        assert(binary_encoding::forbidden_clause(r0, c0, f0)[0] == x);
        assert(binary_encoding::forbidden_clause_fn(r0, c0)(f0).contains(x));
        lemma_concat_map_contains(7, binary_encoding::forbidden_clause_fn(r0, c0), f0, x);
        assert(binary_encoding::forbidden_cell_fn(r0)(c0).contains(x));
        lemma_concat_map_contains(9, binary_encoding::forbidden_cell_fn(r0), c0, x);
        assert(binary_encoding::forbidden_row_fn()(r0).contains(x));
        lemma_concat_map_contains(9, binary_encoding::forbidden_row_fn(), r0, x);
        lemma_bin_parts(clues, x);
        lemma_added_clause_satisfied(solver, before, binary_encoding::spec_sudoku_to_cnf(clues), x);
        let j = choose|j: int| 0 <= j < x.len() && #[trigger] lit_true(solver, x[j]);
        assert(binary_encoding::bl(r0 + 1, c0 + 1, j) > 0);
        assert(lit_true(solver, x[j]));
        assert(binary_encoding::bit_set(fv, j) == bit_true(solver, r0 + 1, c0 + 1, j));
    }
}

/// The grid read from a solution of the binary encoding is a solved sudoku:
/// every cell holds a value 1..=9 and no row, column or sub-grid holds a
/// value twice.
pub proof fn lemma_binary_solution_is_valid(
    solver: CadicalSolver,
    before: Seq<Seq<i32>>,
    clues: Seq<Vec<Option<i32>>>,
)
    requires
        all_clauses_satisfied(solver),
        solver_clauses(solver) == before + binary_encoding::spec_sudoku_to_cnf(clues),
    ensures
        valid_grid(solved_grid(EncodingType::Binary, solver)),
{
    let g = solved_grid(EncodingType::Binary, solver);
    let pb = binary_encoding::pair_block_fn();
    let all = binary_encoding::spec_sudoku_to_cnf(clues);
    assert forall|r: int, c: int| 0 <= r < 9 && 0 <= c < 9 implies #[trigger] cell_filled(g[r][c]) by {
        lemma_bin_cell_range(solver, before, clues, r, c);
    }
    assert forall|r: int, c1: int, c2: int|
        0 <= r < 9 && 0 <= c1 < 9 && 0 <= c2 < 9 && c1 != c2 implies #[trigger] g[r][c1] != #[trigger] g[r][c2] by {
        lemma_bin_cell_range(solver, before, clues, r, c1);
        lemma_bin_cell_range(solver, before, clues, r, c2);
        let (a, b) = if c1 < c2 { (c1, c2) } else { (c2, c1) };
        assert forall|x: Seq<i32>| binary_encoding::pair_block(r + 1, a + 1, r + 1, b + 1).contains(x)
            implies #[trigger] all.contains(x) by {
            lemma_row_block(pb, r, a, b, x);
            lemma_bin_parts(clues, x);
        }
        lemma_bin_pair_differ(solver, before, clues, r + 1, a + 1, r + 1, b + 1);
    }
    assert forall|c: int, r1: int, r2: int|
        0 <= c < 9 && 0 <= r1 < 9 && 0 <= r2 < 9 && r1 != r2 implies #[trigger] g[r1][c] != #[trigger] g[r2][c] by {
        lemma_bin_cell_range(solver, before, clues, r1, c);
        lemma_bin_cell_range(solver, before, clues, r2, c);
        let (a, b) = if r1 < r2 { (r1, r2) } else { (r2, r1) };
        assert forall|x: Seq<i32>| binary_encoding::pair_block(a + 1, c + 1, b + 1, c + 1).contains(x)
            implies #[trigger] all.contains(x) by {
            lemma_col_block(pb, c, a, b, x);
            lemma_bin_parts(clues, x);
        }
        lemma_bin_pair_differ(solver, before, clues, a + 1, c + 1, b + 1, c + 1);
    }
    assert forall|r1: int, c1: int, r2: int, c2: int|
        0 <= r1 < 9 && 0 <= c1 < 9 && 0 <= r2 < 9 && 0 <= c2 < 9 && (r1 != r2 || c1 != c2)
            && same_box(r1, c1, r2, c2) implies #[trigger] g[r1][c1] != #[trigger] g[r2][c2] by {
        lemma_bin_cell_range(solver, before, clues, r1, c1);
        lemma_bin_cell_range(solver, before, clues, r2, c2);
        lemma_box_index(r1, c1);
        lemma_box_index(r2, c2);
        let sr = r1 / 3;
        let sc = c1 / 3;
        let i1 = box_index(r1, c1);
        let i2 = box_index(r2, c2);
        assert(i1 != i2);
        let (ia, ib) = if i1 < i2 { (i1, i2) } else { (i2, i1) };
        let ra = cell_pairs::sub_row(sr, ia);
        let ca = cell_pairs::sub_col(sc, ia);
        let rb = cell_pairs::sub_row(sr, ib);
        let cb = cell_pairs::sub_col(sc, ib);
        assert forall|x: Seq<i32>| binary_encoding::pair_block(ra, ca, rb, cb).contains(x)
            implies #[trigger] all.contains(x) by {
            lemma_sub_block(pb, sr, sc, ia, ib, x);
            lemma_bin_parts(clues, x);
        }
        lemma_bin_pair_differ(solver, before, clues, ra, ca, rb, cb);
    }
}

// ------------------------------------------ decimal, complete set of rules

/// Cell `cell` (1-based row and column) holds value `w` in the solution.
pub open spec fn holds(solver: CadicalSolver, cell: (int, int), w: int) -> bool {
    solver_value(solver, decimal_encoding::lit(cell.0, cell.1, w)) == Some(true)
}

/// Some cell of the nine holds value `w`.
pub open spec fn placed(solver: CadicalSolver, cells: spec_fn(int) -> (int, int), w: int) -> bool {
    exists|k: int| 0 <= k < 9 && #[trigger] holds(solver, cells(k), w)
}

/// The cell holds some value 1..=9.
pub open spec fn filled_at(solver: CadicalSolver, cell: (int, int)) -> bool {
    exists|w: int| 1 <= w <= 9 && #[trigger] holds(solver, cell, w)
}

/// Each of the nine cells holds some value.
pub open spec fn unit_filled(solver: CadicalSolver, cells: spec_fn(int) -> (int, int)) -> bool {
    forall|k: int| 0 <= k < 9 ==> #[trigger] filled_at(solver, cells(k))
}

/// No value is held by two of the nine cells.
pub open spec fn unit_distinct(solver: CadicalSolver, cells: spec_fn(int) -> (int, int)) -> bool {
    forall|k1: int, k2: int, w: int|
        0 <= k1 < 9 && 0 <= k2 < 9 && 1 <= w <= 9 && #[trigger] holds(solver, cells(k1), w)
            && #[trigger] holds(solver, cells(k2), w) ==> k1 == k2
}

/// The cells of row r0 + 1.
pub open spec fn row_cells(r0: int) -> spec_fn(int) -> (int, int) {
    |k: int| (r0 + 1, k + 1)
}

/// The cells of column c0 + 1.
pub open spec fn col_cells(c0: int) -> spec_fn(int) -> (int, int) {
    |k: int| (k + 1, c0 + 1)
}

/// The cells of sub-grid (sr, sc), row by row.
pub open spec fn box_cells(sr: int, sc: int) -> spec_fn(int) -> (int, int) {
    |k: int| box_cell(sr, sc, k)
}

/// Nine cells (a row, a column or a sub-grid) each of which holds at most one
/// value, and which hold every value between them, hold nine different
/// values: each of them holds one, and no value is held twice.
proof fn lemma_unit_bijection(solver: CadicalSolver, cells: spec_fn(int) -> (int, int))
    requires
        forall|w: int| 1 <= w <= 9 ==> #[trigger] placed(solver, cells, w),
        forall|k: int, a: int, b: int|
            0 <= k < 9 && 1 <= a <= 9 && 1 <= b <= 9 && #[trigger] holds(solver, cells(k), a)
                && #[trigger] holds(solver, cells(k), b) ==> a == b,
    ensures
        unit_filled(solver, cells),
        unit_distinct(solver, cells),
{
    let place = |i: int| (choose|k: int| 0 <= k < 9 && #[trigger] holds(solver, cells(k), i + 1)) + 1;
    assert forall|i: int| 0 <= i < 9 implies 1 <= #[trigger] place(i) <= 9 && holds(
        solver,
        cells(place(i) - 1),
        i + 1,
    ) by {
        assert(placed(solver, cells, i + 1));
    }
    assert forall|i: int, j: int| 0 <= i < 9 && 0 <= j < 9 && i != j implies #[trigger] place(i)
        != #[trigger] place(j) by {
        assert(holds(solver, cells(place(i) - 1), i + 1));
        assert(holds(solver, cells(place(j) - 1), j + 1));
    }
    assert forall|k: int, w: int| 0 <= k < 9 && 1 <= w <= 9 && #[trigger] holds(solver, cells(k), w)
        implies place(w - 1) == k + 1 by {
        lemma_injective_onto(place, k + 1);
        let i = choose|i: int| 0 <= i < 9 && #[trigger] place(i) == k + 1;
        assert(holds(solver, cells(k), i + 1));
    }
    assert forall|k: int| 0 <= k < 9 implies #[trigger] filled_at(solver, cells(k)) by {
        lemma_injective_onto(place, k + 1);
        let i = choose|i: int| 0 <= i < 9 && #[trigger] place(i) == k + 1;
        assert(holds(solver, cells(k), i + 1));
    }
}

/// In a solution with the at-most-one rule, a cell holds at most one value.
proof fn lemma_dec_amo_holds(
    solver: CadicalSolver,
    before: Seq<Seq<i32>>,
    clues: Seq<Vec<Option<i32>>>,
    a: bool,
    c3: bool,
    d: bool,
    r0: int,
    c0: int,
    u: int,
    w: int,
)
    requires
        all_clauses_satisfied(solver),
        solver_clauses(solver) == before + decimal_encoding::spec_sudoku_to_cnf(clues, a, true, c3, d),
        0 <= r0 < 9,
        0 <= c0 < 9,
        1 <= u < w <= 9,
    ensures
        !(holds(solver, (r0 + 1, c0 + 1), u) && holds(solver, (r0 + 1, c0 + 1), w)),
{
    let x = seq![
        decimal_encoding::neg(decimal_encoding::lit(r0 + 1, c0 + 1, u)),
        decimal_encoding::neg(decimal_encoding::lit(r0 + 1, c0 + 1, w)),
    ];
    lemma_dec_amo_member(r0, c0, u - 1, w - 1);
    lemma_dec_parts(clues, a, true, c3, d, x);
    lemma_added_clause_satisfied(solver, before, decimal_encoding::spec_sudoku_to_cnf(clues, a, true, c3, d), x);
    lemma_dec_lit_positive(r0 + 1, c0 + 1, u);
    lemma_dec_lit_positive(r0 + 1, c0 + 1, w);
    let i = choose|i: int| 0 <= i < x.len() && #[trigger] lit_true(solver, x[i]);
    if i == 0 {
        assert(lit_true(solver, x[0]));
    } else {
        assert(lit_true(solver, x[1]));
    }
}

/// In a solution with the all-values rule, the clause that a unit holds a
/// value gives a cell of the unit that holds it.
proof fn lemma_dec_av_holds(
    solver: CadicalSolver,
    before: Seq<Seq<i32>>,
    clues: Seq<Vec<Option<i32>>>,
    a: bool,
    b: bool,
    d: bool,
    cells: spec_fn(int) -> (int, int),
    w: int,
)
    requires
        all_clauses_satisfied(solver),
        solver_clauses(solver) == before + decimal_encoding::spec_sudoku_to_cnf(clues, a, b, true, d),
        1 <= w <= 9,
        forall|k: int| 0 <= k < 9 ==> 1 <= (#[trigger] cells(k)).0 <= 9 && 1 <= cells(k).1 <= 9,
        decimal_encoding::all_values_clauses().contains(
            Seq::new(9, |k: int| decimal_encoding::lit(cells(k).0, cells(k).1, w)),
        ),
    ensures
        placed(solver, cells, w),
{
    let x = Seq::new(9, |k: int| decimal_encoding::lit(cells(k).0, cells(k).1, w));
    lemma_dec_parts(clues, a, b, true, d, x);
    lemma_added_clause_satisfied(solver, before, decimal_encoding::spec_sudoku_to_cnf(clues, a, b, true, d), x);
    let k = choose|k: int| 0 <= k < x.len() && #[trigger] lit_true(solver, x[k]);
    lemma_dec_lit_positive(cells(k).0, cells(k).1, w);
    assert(holds(solver, cells(k), w));
}

/// The all-values clauses hold the clause for each row and value.
proof fn lemma_av_row_member(r0: int, w: int)
    requires
        0 <= r0 < 9,
        1 <= w <= 9,
    ensures
        decimal_encoding::all_values_clauses().contains(
            Seq::new(9, |k: int| decimal_encoding::lit(r0 + 1, k + 1, w)),
        ),
{
    let x = Seq::new(9, |k: int| decimal_encoding::lit(r0 + 1, k + 1, w));
    assert(decimal_encoding::av_row_clause(w - 1, r0)[0] =~= x);
    assert(decimal_encoding::av_row_clause_fn(w - 1)(r0).contains(x));
    lemma_concat_map_contains(9, decimal_encoding::av_row_clause_fn(w - 1), r0, x);
    assert(decimal_encoding::av_rows_fn()(w - 1).contains(x));
    lemma_concat_map_contains(9, decimal_encoding::av_rows_fn(), w - 1, x);
    let p = concat_map(9, decimal_encoding::av_rows_fn());
    let all = decimal_encoding::all_values_clauses();
    let i = choose|i: int| 0 <= i < p.len() && p[i] == x;
    assert(all[i] == x);
}

/// The all-values clauses hold the clause for each column and value.
proof fn lemma_av_col_member(c0: int, w: int)
    requires
        0 <= c0 < 9,
        1 <= w <= 9,
    ensures
        decimal_encoding::all_values_clauses().contains(
            Seq::new(9, |k: int| decimal_encoding::lit(k + 1, c0 + 1, w)),
        ),
{
    let x = Seq::new(9, |k: int| decimal_encoding::lit(k + 1, c0 + 1, w));
    assert(decimal_encoding::av_col_clause(w - 1, c0)[0] =~= x);
    assert(decimal_encoding::av_col_clause_fn(w - 1)(c0).contains(x));
    lemma_concat_map_contains(9, decimal_encoding::av_col_clause_fn(w - 1), c0, x);
    assert(decimal_encoding::av_cols_fn()(w - 1).contains(x));
    lemma_concat_map_contains(9, decimal_encoding::av_cols_fn(), w - 1, x);
    let p1 = concat_map(9, decimal_encoding::av_rows_fn());
    let p = concat_map(9, decimal_encoding::av_cols_fn());
    let all = decimal_encoding::all_values_clauses();
    let i = choose|i: int| 0 <= i < p.len() && p[i] == x;
    assert(all[p1.len() + i] == x);
}

/// The cells of sub-grid (sr, sc), row by row.
pub open spec fn box_cell(sr: int, sc: int, k: int) -> (int, int) {
    (3 * sr + k / 3 + 1, 3 * sc + k % 3 + 1)
}

/// The all-values clauses hold the clause for each sub-grid and value.
proof fn lemma_av_sub_member(sr: int, sc: int, w: int)
    requires
        0 <= sr < 3,
        0 <= sc < 3,
        1 <= w <= 9,
    ensures
        decimal_encoding::all_values_clauses().contains(
            Seq::new(9, |k: int| decimal_encoding::lit(box_cell(sr, sc, k).0, box_cell(sr, sc, k).1, w)),
        ),
{
    let x = Seq::new(9, |k: int| decimal_encoding::lit(box_cell(sr, sc, k).0, box_cell(sr, sc, k).1, w));
    assert(decimal_encoding::av_sub_clause(sr, sc, w - 1)[0] =~= x);
    assert(decimal_encoding::av_sub_clause_fn(sr, sc)(w - 1).contains(x));
    lemma_concat_map_contains(9, decimal_encoding::av_sub_clause_fn(sr, sc), w - 1, x);
    assert(decimal_encoding::av_sub_grid_fn(sr)(sc).contains(x));
    lemma_concat_map_contains(3, decimal_encoding::av_sub_grid_fn(sr), sc, x);
    assert(decimal_encoding::av_sub_band_fn()(sr).contains(x));
    lemma_concat_map_contains(3, decimal_encoding::av_sub_band_fn(), sr, x);
    let p1 = concat_map(9, decimal_encoding::av_rows_fn());
    let p2 = concat_map(9, decimal_encoding::av_cols_fn());
    let p = concat_map(3, decimal_encoding::av_sub_band_fn());
    let all = decimal_encoding::all_values_clauses();
    let i = choose|i: int| 0 <= i < p.len() && p[i] == x;
    assert(all[p1.len() + p2.len() + i] == x);
}

/// A cell of the grid is the cell of its sub-grid at position
/// 3 * (row within the sub-grid) + (column within it).
proof fn lemma_box_cell(r: int, c: int)
    requires
        0 <= r < 9,
        0 <= c < 9,
    ensures
        0 <= (r - (r / 3) * 3) * 3 + (c - (c / 3) * 3) < 9,
        box_cell(r / 3, c / 3, (r - (r / 3) * 3) * 3 + (c - (c / 3) * 3)) == (r + 1, c + 1),
{
    let dr = r - (r / 3) * 3;
    let dc = c - (c / 3) * 3;
    let k = dr * 3 + dc;
    assert(0 <= dr < 3 && 0 <= dc < 3);
    assert(k / 3 == dr && k % 3 == dc) by (nonlinear_arith)
        requires
            k == dr * 3 + dc,
            0 <= dr < 3,
            0 <= dc < 3,
    ;
}

/// With the at-most-one and all-values rules, every row holds a value in
/// each cell, and no row, column or sub-grid holds a value twice.
proof fn lemma_amo_av_units(
    solver: CadicalSolver,
    before: Seq<Seq<i32>>,
    clues: Seq<Vec<Option<i32>>>,
    a: bool,
    d: bool,
)
    requires
        all_clauses_satisfied(solver),
        solver_clauses(solver) == before + decimal_encoding::spec_sudoku_to_cnf(clues, a, true, true, d),
        forall|r: int, c: int, u: int, w: int|
            0 <= r < 9 && 0 <= c < 9 && 1 <= u <= 9 && 1 <= w <= 9 && #[trigger] holds(solver, (r + 1, c + 1), u)
                && #[trigger] holds(solver, (r + 1, c + 1), w) ==> u == w,
    ensures
        forall|r: int| 0 <= r < 9 ==> #[trigger] unit_filled(solver, row_cells(r)),
        forall|r: int| 0 <= r < 9 ==> #[trigger] unit_distinct(solver, row_cells(r)),
        forall|c: int| 0 <= c < 9 ==> #[trigger] unit_distinct(solver, col_cells(c)),
        forall|sr: int, sc: int| 0 <= sr < 3 && 0 <= sc < 3 ==> #[trigger] unit_distinct(solver, box_cells(sr, sc)),
{
    assert forall|r: int| 0 <= r < 9 implies #[trigger] unit_filled(solver, row_cells(r)) && unit_distinct(
        solver,
        row_cells(r),
    ) by {
        let cells = row_cells(r);
        assert forall|w: int| 1 <= w <= 9 implies #[trigger] placed(solver, cells, w) by {
            lemma_av_row_member(r, w);
            assert(Seq::new(9, |k: int| decimal_encoding::lit(cells(k).0, cells(k).1, w)) =~= Seq::new(
                9,
                |k: int| decimal_encoding::lit(r + 1, k + 1, w),
            ));
            lemma_dec_av_holds(solver, before, clues, a, true, d, cells, w);
        }
        assert forall|k: int, u: int, w: int|
            0 <= k < 9 && 1 <= u <= 9 && 1 <= w <= 9 && #[trigger] holds(solver, cells(k), u)
                && #[trigger] holds(solver, cells(k), w) implies u == w by {
            assert(holds(solver, (r + 1, k + 1), u) && holds(solver, (r + 1, k + 1), w));
        }
        lemma_unit_bijection(solver, cells);
    }
    assert forall|r: int| 0 <= r < 9 implies #[trigger] unit_distinct(solver, row_cells(r)) by {
        assert(unit_filled(solver, row_cells(r)));
    }
    assert forall|c: int| 0 <= c < 9 implies #[trigger] unit_distinct(solver, col_cells(c)) by {
        let cells = col_cells(c);
        assert forall|w: int| 1 <= w <= 9 implies #[trigger] placed(solver, cells, w) by {
            lemma_av_col_member(c, w);
            assert(Seq::new(9, |k: int| decimal_encoding::lit(cells(k).0, cells(k).1, w)) =~= Seq::new(
                9,
                |k: int| decimal_encoding::lit(k + 1, c + 1, w),
            ));
            lemma_dec_av_holds(solver, before, clues, a, true, d, cells, w);
        }
        assert forall|k: int, u: int, w: int|
            0 <= k < 9 && 1 <= u <= 9 && 1 <= w <= 9 && #[trigger] holds(solver, cells(k), u)
                && #[trigger] holds(solver, cells(k), w) implies u == w by {
            assert(holds(solver, (k + 1, c + 1), u) && holds(solver, (k + 1, c + 1), w));
        }
        lemma_unit_bijection(solver, cells);
    }
    assert forall|sr: int, sc: int| 0 <= sr < 3 && 0 <= sc < 3 implies #[trigger] unit_distinct(
        solver,
        box_cells(sr, sc),
    ) by {
        let cells = box_cells(sr, sc);
        assert forall|k: int| 0 <= k < 9 implies 1 <= (#[trigger] cells(k)).0 <= 9 && 1 <= cells(k).1 <= 9 by {
            assert(0 <= k / 3 < 3 && 0 <= k % 3 < 3);
        }
        assert forall|w: int| 1 <= w <= 9 implies #[trigger] placed(solver, cells, w) by {
            lemma_av_sub_member(sr, sc, w);
            assert(Seq::new(9, |k: int| decimal_encoding::lit(cells(k).0, cells(k).1, w)) =~= Seq::new(
                9,
                |k: int| decimal_encoding::lit(box_cell(sr, sc, k).0, box_cell(sr, sc, k).1, w),
            ));
            lemma_dec_av_holds(solver, before, clues, a, true, d, cells, w);
        }
        assert forall|k: int, u: int, w: int|
            0 <= k < 9 && 1 <= u <= 9 && 1 <= w <= 9 && #[trigger] holds(solver, cells(k), u)
                && #[trigger] holds(solver, cells(k), w) implies u == w by {
            assert(0 <= k / 3 < 3 && 0 <= k % 3 < 3);
            assert(holds(solver, (3 * sr + k / 3 + 1, 3 * sc + k % 3 + 1), u));
            assert(holds(solver, (3 * sr + k / 3 + 1, 3 * sc + k % 3 + 1), w));
        }
        lemma_unit_bijection(solver, cells);
    }
}

/// With the rules that a cell holds at most one value and that every row,
/// column and sub-grid holds every value, the grid read from a solution of
/// the decimal encoding is a solved sudoku.
proof fn lemma_decimal_amo_av_solution_is_valid(
    solver: CadicalSolver,
    before: Seq<Seq<i32>>,
    clues: Seq<Vec<Option<i32>>>,
    a: bool,
    d: bool,
)
    requires
        all_clauses_satisfied(solver),
        solver_clauses(solver) == before + decimal_encoding::spec_sudoku_to_cnf(clues, a, true, true, d),
    ensures
        valid_grid(
            solved_grid(
                EncodingType::Decimal {
                    cell_at_least_one: a,
                    cell_at_most_one: true,
                    sudoku_has_all_values: true,
                    sudoku_has_unique_values: d,
                },
                solver,
            ),
        ),
{
    let encoding = EncodingType::Decimal {
        cell_at_least_one: a,
        cell_at_most_one: true,
        sudoku_has_all_values: true,
        sudoku_has_unique_values: d,
    };
    let g = solved_grid(encoding, solver);
    // every cell holds at most one value
    assert forall|r: int, c: int, u: int, w: int|
        0 <= r < 9 && 0 <= c < 9 && 1 <= u <= 9 && 1 <= w <= 9 && #[trigger] holds(solver, (r + 1, c + 1), u)
            && #[trigger] holds(solver, (r + 1, c + 1), w) implies u == w by {
        if u < w {
            lemma_dec_amo_holds(solver, before, clues, a, true, d, r, c, u, w);
        } else if w < u {
            lemma_dec_amo_holds(solver, before, clues, a, true, d, r, c, w, u);
        }
    }
    lemma_amo_av_units(solver, before, clues, a, d);
    // every cell reads a value it holds
    assert forall|r: int, c: int| 0 <= r < 9 && 0 <= c < 9 implies #[trigger] cell_filled(g[r][c])
        && 1 <= decimal_encoding::spec_cell_value(solver, r + 1, c + 1) <= 9
        && holds(solver, (r + 1, c + 1), decimal_encoding::spec_cell_value(solver, r + 1, c + 1)) by {
        assert(unit_filled(solver, row_cells(r)));
        assert(filled_at(solver, row_cells(r)(c)));
        assert(row_cells(r)(c) == (r + 1, c + 1));
        let w = choose|w: int| 1 <= w <= 9 && #[trigger] holds(solver, (r + 1, c + 1), w);
        assert(solver_value(solver, decimal_encoding::lit(r + 1, c + 1, w)) == Some(true));
        lemma_cell_value_found(solver, r + 1, c + 1, 1);
    }
    assert forall|r: int, c1: int, c2: int|
        0 <= r < 9 && 0 <= c1 < 9 && 0 <= c2 < 9 && c1 != c2 implies #[trigger] g[r][c1] != #[trigger] g[r][c2] by {
        assert(cell_filled(g[r][c1]) && cell_filled(g[r][c2]));
        let w = decimal_encoding::spec_cell_value(solver, r + 1, c1 + 1);
        if g[r][c1] == g[r][c2] {
            assert(decimal_encoding::spec_cell_value(solver, r + 1, c2 + 1) == w);
            assert(unit_distinct(solver, row_cells(r)));
            assert(row_cells(r)(c1) == (r + 1, c1 + 1));
            assert(row_cells(r)(c2) == (r + 1, c2 + 1));
            assert(holds(solver, row_cells(r)(c1), w));
            assert(holds(solver, row_cells(r)(c2), w));
        }
    }
    assert forall|c: int, r1: int, r2: int|
        0 <= c < 9 && 0 <= r1 < 9 && 0 <= r2 < 9 && r1 != r2 implies #[trigger] g[r1][c] != #[trigger] g[r2][c] by {
        assert(cell_filled(g[r1][c]) && cell_filled(g[r2][c]));
        let w = decimal_encoding::spec_cell_value(solver, r1 + 1, c + 1);
        if g[r1][c] == g[r2][c] {
            assert(decimal_encoding::spec_cell_value(solver, r2 + 1, c + 1) == w);
            assert(unit_distinct(solver, col_cells(c)));
            assert(col_cells(c)(r1) == (r1 + 1, c + 1));
            assert(col_cells(c)(r2) == (r2 + 1, c + 1));
            assert(holds(solver, col_cells(c)(r1), w));
            assert(holds(solver, col_cells(c)(r2), w));
        }
    }
    assert forall|r1: int, c1: int, r2: int, c2: int|
        0 <= r1 < 9 && 0 <= c1 < 9 && 0 <= r2 < 9 && 0 <= c2 < 9 && (r1 != r2 || c1 != c2)
            && same_box(r1, c1, r2, c2) implies #[trigger] g[r1][c1] != #[trigger] g[r2][c2] by {
        assert(cell_filled(g[r1][c1]) && cell_filled(g[r2][c2]));
        let w = decimal_encoding::spec_cell_value(solver, r1 + 1, c1 + 1);
        if g[r1][c1] == g[r2][c2] {
            assert(decimal_encoding::spec_cell_value(solver, r2 + 1, c2 + 1) == w);
            lemma_box_cell(r1, c1);
            lemma_box_cell(r2, c2);
            let sr = r1 / 3;
            let sc = c1 / 3;
            let k1 = (r1 - (r1 / 3) * 3) * 3 + (c1 - (c1 / 3) * 3);
            let k2 = (r2 - (r2 / 3) * 3) * 3 + (c2 - (c2 / 3) * 3);
            assert(unit_distinct(solver, box_cells(sr, sc)));
            assert(box_cells(sr, sc)(k1) == (r1 + 1, c1 + 1));
            assert(box_cells(sr, sc)(k2) == (r2 + 1, c2 + 1));
            assert(holds(solver, box_cells(sr, sc)(k1), w));
            assert(holds(solver, box_cells(sr, sc)(k2), w));
        }
    }
}

/// When the rules chosen for the decimal encoding are enough for it
/// (`cnf_encoding_rules_ok`: every cell holds a value and no unit repeats
/// one, or every cell holds at most one value and every unit holds every
/// value), the grid read from a solution is a solved sudoku that keeps the
/// clues.
pub proof fn lemma_complete_decimal_solution_is_solved_sudoku(
    solver: CadicalSolver,
    before: Seq<Seq<i32>>,
    clues: Seq<Vec<Option<i32>>>,
    encoding: EncodingType,
)
    requires
        encoding is Decimal,
        (encoding->cell_at_least_one && encoding->sudoku_has_unique_values) || (
        encoding->cell_at_most_one && encoding->sudoku_has_all_values),
        all_clauses_satisfied(solver),
        solver_clauses(solver) == before + encoding.spec_sudoku_to_cnf(clues),
    ensures
        valid_grid(solved_grid(encoding, solver)),
        keeps_clues(solved_grid(encoding, solver), clues),
{
    lemma_decimal_solution_keeps_clues(solver, before, clues, encoding);
    if encoding->cell_at_least_one && encoding->sudoku_has_unique_values {
        lemma_decimal_solution_is_valid(solver, before, clues, encoding);
    } else {
        lemma_decimal_amo_av_solution_is_valid(
            solver,
            before,
            clues,
            encoding->cell_at_least_one,
            encoding->sudoku_has_unique_values,
        );
    }
}

// ------------------------------------------- decimal, every solution counts

/// The assignment of a grid: the variable of a cell and a value is true when
/// the cell holds that value.
pub open spec fn grid_assign(g: Seq<Seq<Option<i32>>>) -> spec_fn(int) -> bool {
    |id: int|
        exists|r: int, c: int, w: int|
            1 <= r <= 9 && 1 <= c <= 9 && 1 <= w <= 9 && id == #[trigger] decimal_encoding::spec_cnf_identifier(
                r,
                c,
                w,
            ) && g[r - 1][c - 1] == Some(w as i32)
}

/// The clues have a solution: a solved grid that keeps them.
pub open spec fn has_solution(clues: Seq<Vec<Option<i32>>>) -> bool {
    exists|g: Seq<Seq<Option<i32>>>| valid_grid(g) && #[trigger] keeps_clues(g, clues)
}

/// Every clue names a cell of the 9x9 grid and a value 1..=9.
pub open spec fn clues_in_grid(clues: Seq<Vec<Option<i32>>>) -> bool {
    forall|r: int, c: int|
        0 <= r < clues.len() && 0 <= c < clues[r]@.len() && #[trigger] clues[r]@[c] is Some ==> has_clue(
            clues,
            r,
            c,
        )
}

/// The clause holds for the grid's assignment.
pub open spec fn holds_for(g: Seq<Seq<Option<i32>>>) -> spec_fn(Seq<i32>) -> bool {
    |x: Seq<i32>| clause_holds(grid_assign(g), x)
}

/// The literal of a cell and a value holds exactly when the cell holds the
/// value; its negation exactly when it does not.
proof fn lemma_assign_lit(g: Seq<Seq<Option<i32>>>, r: int, c: int, w: int)
    requires
        1 <= r <= 9,
        1 <= c <= 9,
        1 <= w <= 9,
    ensures
        lit_holds(grid_assign(g), decimal_encoding::lit(r, c, w)) <==> g[r - 1][c - 1] == Some(w as i32),
        lit_holds(grid_assign(g), decimal_encoding::neg(decimal_encoding::lit(r, c, w))) <==> g[r - 1][c
            - 1] != Some(w as i32),
{
    lemma_dec_lit_positive(r, c, w);
    let id = decimal_encoding::spec_cnf_identifier(r, c, w);
    assert((decimal_encoding::lit(r, c, w) as int) == id);
    assert(-(decimal_encoding::neg(decimal_encoding::lit(r, c, w)) as int) == id);
    if grid_assign(g)(id) {
        let (r2, c2, w2) = choose|r2: int, c2: int, w2: int|
            1 <= r2 <= 9 && 1 <= c2 <= 9 && 1 <= w2 <= 9 && id == #[trigger] decimal_encoding::spec_cnf_identifier(
                r2,
                c2,
                w2,
            ) && g[r2 - 1][c2 - 1] == Some(w2 as i32);
        if (r, c, w) != (r2, c2, w2) {
            decimal_encoding::lemma_identifier_injective(r, c, w, r2, c2, w2);
        }
    }
    if g[r - 1][c - 1] == Some(w as i32) {
        assert(id == decimal_encoding::spec_cnf_identifier(r, c, w));
    }
}

/// When every block of a `concat_map` holds only clauses with a property,
/// so does the whole.
proof fn lemma_concat_all(n: int, f: spec_fn(int) -> Seq<Seq<i32>>, p: spec_fn(Seq<i32>) -> bool)
    requires
        forall|k: int, i: int| 0 <= k < n && 0 <= i < f(k).len() ==> #[trigger] p(f(k)[i]),
    ensures
        forall|i: int| 0 <= i < concat_map(n, f).len() ==> #[trigger] p(concat_map(n, f)[i]),
    decreases n,
{
    if n > 0 {
        lemma_concat_all(n - 1, f, p);
        let prev = concat_map(n - 1, f);
        assert(concat_map(n, f) == prev + f(n - 1));
        assert forall|i: int| 0 <= i < concat_map(n, f).len() implies #[trigger] p(concat_map(n, f)[i]) by {
            if i < prev.len() {
                assert(concat_map(n, f)[i] == prev[i]);
            } else {
                assert(concat_map(n, f)[i] == f(n - 1)[i - prev.len()]);
            }
        }
    }
}

/// Every clause of both sequences has the property, so every clause of
/// their concatenation has it.
proof fn lemma_append_all(s: Seq<Seq<i32>>, t: Seq<Seq<i32>>, p: spec_fn(Seq<i32>) -> bool)
    requires
        forall|i: int| 0 <= i < s.len() ==> #[trigger] p(s[i]),
        forall|i: int| 0 <= i < t.len() ==> #[trigger] p(t[i]),
    ensures
        forall|i: int| 0 <= i < (s + t).len() ==> #[trigger] p((s + t)[i]),
{
    assert forall|i: int| 0 <= i < (s + t).len() implies #[trigger] p((s + t)[i]) by {
        if i < s.len() {
            assert((s + t)[i] == s[i]);
        } else {
            assert((s + t)[i] == t[i - s.len()]);
        }
    }
}

/// The at-least-one clauses hold for a valid grid.
proof fn lemma_alo_hold(g: Seq<Seq<Option<i32>>>)
    requires
        valid_grid(g),
    ensures
        forall|i: int|
            0 <= i < decimal_encoding::at_least_one_clauses().len() ==> #[trigger] holds_for(g)(
                decimal_encoding::at_least_one_clauses()[i],
            ),
{
    let p = holds_for(g);
    assert forall|r0: int, i: int| 0 <= r0 < 9 && 0 <= i < decimal_encoding::alo_row_fn()(r0).len() implies #[trigger] p(
        decimal_encoding::alo_row_fn()(r0)[i],
    ) by {
        assert forall|c0: int, j: int|
            0 <= c0 < 9 && 0 <= j < decimal_encoding::alo_cell_fn(r0)(c0).len() implies #[trigger] p(
            decimal_encoding::alo_cell_fn(r0)(c0)[j],
        ) by {
            assert(cell_filled(g[r0][c0]));
            let w = g[r0][c0]->0 as int;
            let x = decimal_encoding::alo_cell(r0, c0)[0];
            lemma_assign_lit(g, r0 + 1, c0 + 1, w);
            assert(x[w - 1] == decimal_encoding::lit(r0 + 1, c0 + 1, w));
            assert(lit_holds(grid_assign(g), x[w - 1]));
        }
        lemma_concat_all(9, decimal_encoding::alo_cell_fn(r0), p);
    }
    lemma_concat_all(9, decimal_encoding::alo_row_fn(), p);
}

/// The at-most-one clauses hold for a valid grid.
proof fn lemma_amo_hold(g: Seq<Seq<Option<i32>>>)
    requires
        valid_grid(g),
    ensures
        forall|i: int|
            0 <= i < decimal_encoding::at_most_one_clauses().len() ==> #[trigger] holds_for(g)(
                decimal_encoding::at_most_one_clauses()[i],
            ),
{
    let p = holds_for(g);
    assert forall|r0: int, i: int| 0 <= r0 < 9 && 0 <= i < decimal_encoding::amo_row_fn()(r0).len() implies #[trigger] p(
        decimal_encoding::amo_row_fn()(r0)[i],
    ) by {
        assert forall|c0: int, i2: int|
            0 <= c0 < 9 && 0 <= i2 < decimal_encoding::amo_cell_fn(r0)(c0).len() implies #[trigger] p(
            decimal_encoding::amo_cell_fn(r0)(c0)[i2],
        ) by {
            assert forall|a0: int, i3: int|
                0 <= a0 < 8 && 0 <= i3 < decimal_encoding::amo_first_fn(r0, c0)(a0).len() implies #[trigger] p(
                decimal_encoding::amo_first_fn(r0, c0)(a0)[i3],
            ) by {
                assert forall|k: int, j: int|
                    0 <= k < 8 - a0 && 0 <= j < decimal_encoding::amo_pair_fn(r0, c0, a0)(k).len() implies #[trigger] p(
                    decimal_encoding::amo_pair_fn(r0, c0, a0)(k)[j],
                ) by {
                    let x = decimal_encoding::amo_pair(r0, c0, a0, k)[0];
                    lemma_assign_lit(g, r0 + 1, c0 + 1, a0 + 1);
                    lemma_assign_lit(g, r0 + 1, c0 + 1, a0 + 2 + k);
                    if g[r0][c0] == Some((a0 + 1) as i32) {
                        assert(lit_holds(grid_assign(g), x[1]));
                    } else {
                        assert(lit_holds(grid_assign(g), x[0]));
                    }
                }
                lemma_concat_all(8 - a0, decimal_encoding::amo_pair_fn(r0, c0, a0), p);
            }
            lemma_concat_all(8, decimal_encoding::amo_first_fn(r0, c0), p);
        }
        lemma_concat_all(9, decimal_encoding::amo_cell_fn(r0), p);
    }
    lemma_concat_all(9, decimal_encoding::amo_row_fn(), p);
}

/// Two different cells (1-based) of the grid that share a row, a column or
/// a sub-grid.
pub open spec fn related_cells(r1: int, c1: int, r2: int, c2: int) -> bool {
    &&& 1 <= r1 <= 9
    &&& 1 <= c1 <= 9
    &&& 1 <= r2 <= 9
    &&& 1 <= c2 <= 9
    &&& (r1 != r2 || c1 != c2)
    &&& (r1 == r2 || c1 == c2 || same_box(r1 - 1, c1 - 1, r2 - 1, c2 - 1))
}

/// Every clause of the block of every pair of related cells has the property.
pub open spec fn blocks_hold(b: cell_pairs::PairBlock, p: spec_fn(Seq<i32>) -> bool) -> bool {
    forall|r1: int, c1: int, r2: int, c2: int, i: int|
        related_cells(r1, c1, r2, c2) && 0 <= i < b(r1, c1, r2, c2).len() ==> #[trigger] p(
            b(r1, c1, r2, c2)[i],
        )
}

/// The cells of a sub-grid at two different indices are related.
proof fn lemma_sub_cells(sr: int, sc: int, i1: int, i2: int)
    requires
        0 <= sr < 3,
        0 <= sc < 3,
        0 <= i1 < i2 < 9,
    ensures
        related_cells(
            cell_pairs::sub_row(sr, i1),
            cell_pairs::sub_col(sc, i1),
            cell_pairs::sub_row(sr, i2),
            cell_pairs::sub_col(sc, i2),
        ),
{
    assert(0 <= i1 % 3 < 3 && 0 <= i1 / 3 < 3 && 0 <= i2 % 3 < 3 && 0 <= i2 / 3 < 3);
    assert(i1 == (i1 / 3) * 3 + i1 % 3 && i2 == (i2 / 3) * 3 + i2 % 3);
    assert((3 * sr + i1 % 3) / 3 == sr && (3 * sr + i2 % 3) / 3 == sr);
    assert((3 * sc + i1 / 3) / 3 == sc && (3 * sc + i2 / 3) / 3 == sc);
}

/// The clauses of all pairs of cells of rows, columns and sub-grids have a
/// property when the blocks of related cells have it.
proof fn lemma_pairs_hold(b: cell_pairs::PairBlock, p: spec_fn(Seq<i32>) -> bool)
    requires
        blocks_hold(b, p),
    ensures
        forall|i: int| 0 <= i < cell_pairs::row_pairs(b).len() ==> #[trigger] p(cell_pairs::row_pairs(b)[i]),
        forall|i: int| 0 <= i < cell_pairs::col_pairs(b).len() ==> #[trigger] p(cell_pairs::col_pairs(b)[i]),
        forall|i: int| 0 <= i < cell_pairs::sub_pairs(b).len() ==> #[trigger] p(cell_pairs::sub_pairs(b)[i]),
{
    assert forall|r0: int, i: int| 0 <= r0 < 9 && 0 <= i < cell_pairs::row_fn(b)(r0).len() implies #[trigger] p(
        cell_pairs::row_fn(b)(r0)[i],
    ) by {
        assert forall|c0: int, i2: int| 0 <= c0 < 9 && 0 <= i2 < cell_pairs::row_cell_fn(b, r0)(c0).len() implies #[trigger] p(
            cell_pairs::row_cell_fn(b, r0)(c0)[i2],
        ) by {
            assert forall|k: int, j: int| 0 <= k < 8 - c0 && 0 <= j < cell_pairs::row_pair_fn(b, r0, c0)(k).len() implies #[trigger] p(
                cell_pairs::row_pair_fn(b, r0, c0)(k)[j],
            ) by {
                assert(related_cells(r0 + 1, c0 + 1, r0 + 1, c0 + 2 + k));
                assert(p(b(r0 + 1, c0 + 1, r0 + 1, c0 + 2 + k)[j]));
            }
            lemma_concat_all(8 - c0, cell_pairs::row_pair_fn(b, r0, c0), p);
        }
        lemma_concat_all(9, cell_pairs::row_cell_fn(b, r0), p);
    }
    lemma_concat_all(9, cell_pairs::row_fn(b), p);
    assert forall|c0: int, i: int| 0 <= c0 < 9 && 0 <= i < cell_pairs::col_fn(b)(c0).len() implies #[trigger] p(
        cell_pairs::col_fn(b)(c0)[i],
    ) by {
        assert forall|r0: int, i2: int| 0 <= r0 < 9 && 0 <= i2 < cell_pairs::col_cell_fn(b, c0)(r0).len() implies #[trigger] p(
            cell_pairs::col_cell_fn(b, c0)(r0)[i2],
        ) by {
            assert forall|k: int, j: int| 0 <= k < 8 - r0 && 0 <= j < cell_pairs::col_pair_fn(b, c0, r0)(k).len() implies #[trigger] p(
                cell_pairs::col_pair_fn(b, c0, r0)(k)[j],
            ) by {
                assert(related_cells(r0 + 1, c0 + 1, r0 + 2 + k, c0 + 1));
                assert(p(b(r0 + 1, c0 + 1, r0 + 2 + k, c0 + 1)[j]));
            }
            lemma_concat_all(8 - r0, cell_pairs::col_pair_fn(b, c0, r0), p);
        }
        lemma_concat_all(9, cell_pairs::col_cell_fn(b, c0), p);
    }
    lemma_concat_all(9, cell_pairs::col_fn(b), p);
    assert forall|sr: int, i: int| 0 <= sr < 3 && 0 <= i < cell_pairs::sub_band_fn(b)(sr).len() implies #[trigger] p(
        cell_pairs::sub_band_fn(b)(sr)[i],
    ) by {
        assert forall|sc: int, i2: int| 0 <= sc < 3 && 0 <= i2 < cell_pairs::sub_grid_fn(b, sr)(sc).len() implies #[trigger] p(
            cell_pairs::sub_grid_fn(b, sr)(sc)[i2],
        ) by {
            assert forall|i1: int, i3: int| 0 <= i1 < 9 && 0 <= i3 < cell_pairs::sub_cell_fn(b, sr, sc)(i1).len() implies #[trigger] p(
                cell_pairs::sub_cell_fn(b, sr, sc)(i1)[i3],
            ) by {
                assert forall|k: int, j: int| 0 <= k < 8 - i1 && 0 <= j < cell_pairs::sub_pair_fn(b, sr, sc, i1)(k).len() implies #[trigger] p(
                    cell_pairs::sub_pair_fn(b, sr, sc, i1)(k)[j],
                ) by {
                    lemma_sub_cells(sr, sc, i1, i1 + 1 + k);
                    let ra = cell_pairs::sub_row(sr, i1);
                    let ca = cell_pairs::sub_col(sc, i1);
                    let rb = cell_pairs::sub_row(sr, i1 + 1 + k);
                    let cb = cell_pairs::sub_col(sc, i1 + 1 + k);
                    assert(p(b(ra, ca, rb, cb)[j]));
                }
                lemma_concat_all(8 - i1, cell_pairs::sub_pair_fn(b, sr, sc, i1), p);
            }
            lemma_concat_all(9, cell_pairs::sub_cell_fn(b, sr, sc), p);
        }
        lemma_concat_all(3, cell_pairs::sub_grid_fn(b, sr), p);
    }
    lemma_concat_all(3, cell_pairs::sub_band_fn(b), p);
}

/// Related cells of a valid grid hold different values.
proof fn lemma_related_differ(g: Seq<Seq<Option<i32>>>, r1: int, c1: int, r2: int, c2: int)
    requires
        valid_grid(g),
        related_cells(r1, c1, r2, c2),
    ensures
        g[r1 - 1][c1 - 1] != g[r2 - 1][c2 - 1],
{
    if r1 == r2 {
        assert(g[r1 - 1][c1 - 1] != g[r1 - 1][c2 - 1]);
    } else if c1 == c2 {
        assert(g[r1 - 1][c1 - 1] != g[r2 - 1][c1 - 1]);
    } else {
        assert(g[r1 - 1][c1 - 1] != g[r2 - 1][c2 - 1]);
    }
}

/// The unique-values clauses hold for a valid grid.
proof fn lemma_unique_hold(g: Seq<Seq<Option<i32>>>)
    requires
        valid_grid(g),
    ensures
        forall|i: int|
            0 <= i < decimal_encoding::unique_values_clauses().len() ==> #[trigger] holds_for(g)(
                decimal_encoding::unique_values_clauses()[i],
            ),
{
    let p = holds_for(g);
    let b = decimal_encoding::value_pairs_block();
    assert forall|r1: int, c1: int, r2: int, c2: int, i: int|
        related_cells(r1, c1, r2, c2) && 0 <= i < b(r1, c1, r2, c2).len() implies #[trigger] p(
        b(r1, c1, r2, c2)[i],
    ) by {
        lemma_related_differ(g, r1, c1, r2, c2);
        assert forall|v0: int, j: int|
            0 <= v0 < 9 && 0 <= j < decimal_encoding::value_pair_fn(r1, c1, r2, c2)(v0).len() implies #[trigger] p(
            decimal_encoding::value_pair_fn(r1, c1, r2, c2)(v0)[j],
        ) by {
            let x = decimal_encoding::value_pair(r1, c1, r2, c2, v0)[0];
            lemma_assign_lit(g, r1, c1, v0 + 1);
            lemma_assign_lit(g, r2, c2, v0 + 1);
            if g[r1 - 1][c1 - 1] == Some((v0 + 1) as i32) {
                assert(lit_holds(grid_assign(g), x[1]));
            } else {
                assert(lit_holds(grid_assign(g), x[0]));
            }
        }
        lemma_concat_all(9, decimal_encoding::value_pair_fn(r1, c1, r2, c2), p);
    }
    lemma_pairs_hold(b, p);
    let u = decimal_encoding::unique_values_clauses();
    lemma_append_all(cell_pairs::row_pairs(b), cell_pairs::col_pairs(b), p);
    lemma_append_all(cell_pairs::row_pairs(b) + cell_pairs::col_pairs(b), cell_pairs::sub_pairs(b), p);
}

/// Nine cells of a valid grid with pairwise different values, given by
/// positions 0..9, hold every value 1..=9 between them.
proof fn lemma_unit_has_value(g: Seq<Seq<Option<i32>>>, cells: spec_fn(int) -> (int, int), v: int)
    requires
        1 <= v <= 9,
        forall|k: int| 0 <= k < 9 ==> {
            &&& 0 <= (#[trigger] cells(k)).0 < 9
            &&& 0 <= cells(k).1 < 9
            &&& cell_filled(g[cells(k).0][cells(k).1])
        },
        forall|k1: int, k2: int|
            0 <= k1 < 9 && 0 <= k2 < 9 && k1 != k2 ==> g[(#[trigger] cells(k1)).0][cells(k1).1]
                != g[(#[trigger] cells(k2)).0][cells(k2).1],
    ensures
        exists|k: int| 0 <= k < 9 && g[(#[trigger] cells(k)).0][cells(k).1] == Some(v as i32),
{
    let f = |k: int| g[cells(k).0][cells(k).1]->0 as int;
    assert forall|i: int| 0 <= i < 9 implies 1 <= #[trigger] f(i) <= 9 by {
        assert(cell_filled(g[cells(i).0][cells(i).1]));
    }
    assert forall|i: int, j: int| 0 <= i < 9 && 0 <= j < 9 && i != j implies #[trigger] f(i) != #[trigger] f(j) by {
        assert(cell_filled(g[cells(i).0][cells(i).1]));
        assert(cell_filled(g[cells(j).0][cells(j).1]));
        assert(g[cells(i).0][cells(i).1] != g[cells(j).0][cells(j).1]);
    }
    lemma_injective_onto(f, v);
    let k = choose|k: int| 0 <= k < 9 && #[trigger] f(k) == v;
    assert(cell_filled(g[cells(k).0][cells(k).1]));
    assert(g[cells(k).0][cells(k).1] == Some(v as i32));
}

/// A clause of nine literals of one value, one for each of nine cells one
/// of which holds the value, holds.
proof fn lemma_nine_hold(g: Seq<Seq<Option<i32>>>, cells: spec_fn(int) -> (int, int), v: int)
    requires
        1 <= v <= 9,
        forall|k: int| 0 <= k < 9 ==> 0 <= (#[trigger] cells(k)).0 < 9 && 0 <= cells(k).1 < 9,
        exists|k: int| 0 <= k < 9 && g[(#[trigger] cells(k)).0][cells(k).1] == Some(v as i32),
    ensures
        holds_for(g)(Seq::new(9, |k: int| decimal_encoding::lit(cells(k).0 + 1, cells(k).1 + 1, v))),
{
    let x = Seq::new(9, |k: int| decimal_encoding::lit(cells(k).0 + 1, cells(k).1 + 1, v));
    let k = choose|k: int| 0 <= k < 9 && g[(#[trigger] cells(k)).0][cells(k).1] == Some(v as i32);
    lemma_assign_lit(g, cells(k).0 + 1, cells(k).1 + 1, v);
    assert(lit_holds(grid_assign(g), x[k]));
}

/// The all-values clauses hold for a valid grid.
proof fn lemma_all_values_hold(g: Seq<Seq<Option<i32>>>)
    requires
        valid_grid(g),
    ensures
        forall|i: int|
            0 <= i < decimal_encoding::all_values_clauses().len() ==> #[trigger] holds_for(g)(
                decimal_encoding::all_values_clauses()[i],
            ),
{
    let p = holds_for(g);
    // rows
    assert forall|v0: int, i: int| 0 <= v0 < 9 && 0 <= i < decimal_encoding::av_rows_fn()(v0).len() implies #[trigger] p(
        decimal_encoding::av_rows_fn()(v0)[i],
    ) by {
        assert forall|r0: int, j: int| 0 <= r0 < 9 && 0 <= j < decimal_encoding::av_row_clause_fn(v0)(r0).len() implies #[trigger] p(
            decimal_encoding::av_row_clause_fn(v0)(r0)[j],
        ) by {
            let cells = |k: int| (r0, k);
            assert forall|k1: int, k2: int| 0 <= k1 < 9 && 0 <= k2 < 9 && k1 != k2 implies g[(#[trigger] cells(k1)).0][cells(k1).1]
                != g[(#[trigger] cells(k2)).0][cells(k2).1] by {
                assert(g[r0][k1] != g[r0][k2]);
            }
            lemma_unit_has_value(g, cells, v0 + 1);
            lemma_nine_hold(g, cells, v0 + 1);
            assert(decimal_encoding::av_row_clause(v0, r0)[0] =~= Seq::new(
                9,
                |k: int| decimal_encoding::lit(cells(k).0 + 1, cells(k).1 + 1, v0 + 1),
            ));
        }
        lemma_concat_all(9, decimal_encoding::av_row_clause_fn(v0), p);
    }
    lemma_concat_all(9, decimal_encoding::av_rows_fn(), p);
    // columns
    assert forall|v0: int, i: int| 0 <= v0 < 9 && 0 <= i < decimal_encoding::av_cols_fn()(v0).len() implies #[trigger] p(
        decimal_encoding::av_cols_fn()(v0)[i],
    ) by {
        assert forall|c0: int, j: int| 0 <= c0 < 9 && 0 <= j < decimal_encoding::av_col_clause_fn(v0)(c0).len() implies #[trigger] p(
            decimal_encoding::av_col_clause_fn(v0)(c0)[j],
        ) by {
            let cells = |k: int| (k, c0);
            assert forall|k1: int, k2: int| 0 <= k1 < 9 && 0 <= k2 < 9 && k1 != k2 implies g[(#[trigger] cells(k1)).0][cells(k1).1]
                != g[(#[trigger] cells(k2)).0][cells(k2).1] by {
                assert(g[k1][c0] != g[k2][c0]);
            }
            lemma_unit_has_value(g, cells, v0 + 1);
            lemma_nine_hold(g, cells, v0 + 1);
            assert(decimal_encoding::av_col_clause(v0, c0)[0] =~= Seq::new(
                9,
                |k: int| decimal_encoding::lit(cells(k).0 + 1, cells(k).1 + 1, v0 + 1),
            ));
        }
        lemma_concat_all(9, decimal_encoding::av_col_clause_fn(v0), p);
    }
    lemma_concat_all(9, decimal_encoding::av_cols_fn(), p);
    // sub-grids
    assert forall|sr: int, i: int| 0 <= sr < 3 && 0 <= i < decimal_encoding::av_sub_band_fn()(sr).len() implies #[trigger] p(
        decimal_encoding::av_sub_band_fn()(sr)[i],
    ) by {
        assert forall|sc: int, i2: int| 0 <= sc < 3 && 0 <= i2 < decimal_encoding::av_sub_grid_fn(sr)(sc).len() implies #[trigger] p(
            decimal_encoding::av_sub_grid_fn(sr)(sc)[i2],
        ) by {
            assert forall|v0: int, j: int| 0 <= v0 < 9 && 0 <= j < decimal_encoding::av_sub_clause_fn(sr, sc)(v0).len() implies #[trigger] p(
                decimal_encoding::av_sub_clause_fn(sr, sc)(v0)[j],
            ) by {
                let cells = |k: int| (3 * sr + k / 3, 3 * sc + k % 3);
                assert forall|k: int| 0 <= k < 9 implies {
                    &&& 0 <= (#[trigger] cells(k)).0 < 9
                    &&& 0 <= cells(k).1 < 9
                    &&& cell_filled(g[cells(k).0][cells(k).1])
                } by {
                    assert(0 <= k / 3 < 3 && 0 <= k % 3 < 3);
                }
                assert forall|k1: int, k2: int| 0 <= k1 < 9 && 0 <= k2 < 9 && k1 != k2 implies g[(#[trigger] cells(k1)).0][cells(k1).1]
                    != g[(#[trigger] cells(k2)).0][cells(k2).1] by {
                    assert(0 <= k1 / 3 < 3 && 0 <= k1 % 3 < 3 && 0 <= k2 / 3 < 3 && 0 <= k2 % 3 < 3);
                    assert(k1 == (k1 / 3) * 3 + k1 % 3 && k2 == (k2 / 3) * 3 + k2 % 3);
                    let r1 = 3 * sr + k1 / 3;
                    let c1 = 3 * sc + k1 % 3;
                    let r2 = 3 * sr + k2 / 3;
                    let c2 = 3 * sc + k2 % 3;
                    assert(r1 / 3 == sr && r2 / 3 == sr && c1 / 3 == sc && c2 / 3 == sc);
                    assert(same_box(r1, c1, r2, c2));
                    assert(g[r1][c1] != g[r2][c2]);
                }
                lemma_unit_has_value(g, cells, v0 + 1);
                lemma_nine_hold(g, cells, v0 + 1);
                assert(decimal_encoding::av_sub_clause(sr, sc, v0)[0] =~= Seq::new(
                    9,
                    |k: int| decimal_encoding::lit(cells(k).0 + 1, cells(k).1 + 1, v0 + 1),
                ));
            }
            lemma_concat_all(9, decimal_encoding::av_sub_clause_fn(sr, sc), p);
        }
        lemma_concat_all(3, decimal_encoding::av_sub_grid_fn(sr), p);
    }
    lemma_concat_all(3, decimal_encoding::av_sub_band_fn(), p);
    lemma_append_all(
        concat_map(9, decimal_encoding::av_rows_fn()),
        concat_map(9, decimal_encoding::av_cols_fn()),
        p,
    );
    lemma_append_all(
        concat_map(9, decimal_encoding::av_rows_fn()) + concat_map(9, decimal_encoding::av_cols_fn()),
        concat_map(3, decimal_encoding::av_sub_band_fn()),
        p,
    );
}

/// The clue clauses hold for a grid that keeps the clues.
proof fn lemma_clues_hold(g: Seq<Seq<Option<i32>>>, clues: Seq<Vec<Option<i32>>>)
    requires
        clues_in_grid(clues),
        keeps_clues(g, clues),
    ensures
        forall|i: int|
            0 <= i < decimal_encoding::clue_clauses(clues).len() ==> #[trigger] holds_for(g)(
                decimal_encoding::clue_clauses(clues)[i],
            ),
{
    let p = holds_for(g);
    assert forall|r: int, i: int|
        0 <= r < clues.len() && 0 <= i < decimal_encoding::clue_row_fn(clues)(r).len() implies #[trigger] p(
        decimal_encoding::clue_row_fn(clues)(r)[i],
    ) by {
        assert forall|c: int, j: int|
            0 <= c < clues[r]@.len() && 0 <= j < decimal_encoding::clue_cell_fn(clues, r)(c).len() implies #[trigger] p(
            decimal_encoding::clue_cell_fn(clues, r)(c)[j],
        ) by {
            assert(clues[r]@[c] is Some);
            assert(has_clue(clues, r, c));
            let v = clues[r]@[c]->0 as int;
            lemma_assign_lit(g, r + 1, c + 1, v);
            let x = decimal_encoding::clue_cell(clues, r, c)[0];
            assert(lit_holds(grid_assign(g), x[0]));
        }
        lemma_concat_all(clues[r]@.len() as int, decimal_encoding::clue_cell_fn(clues, r), p);
    }
    lemma_concat_all(clues.len() as int, decimal_encoding::clue_row_fn(clues), p);
}

/// A sudoku that has a solution gives satisfiable clauses under every choice
/// of the decimal encoding's rules: a solved grid that keeps the clues,
/// read as an assignment (the variable of a cell and a value is true when the
/// cell holds the value), satisfies every clause.
pub proof fn lemma_decimal_clauses_satisfiable(
    g: Seq<Seq<Option<i32>>>,
    clues: Seq<Vec<Option<i32>>>,
    encoding: EncodingType,
)
    requires
        encoding is Decimal,
        valid_grid(g),
        clues_in_grid(clues),
        keeps_clues(g, clues),
    ensures
        satisfiable(encoding.spec_sudoku_to_cnf(clues)),
{
    let p = holds_for(g);
    let p1 = if encoding->cell_at_least_one {
        decimal_encoding::at_least_one_clauses()
    } else {
        Seq::empty()
    };
    let p2 = if encoding->cell_at_most_one {
        decimal_encoding::at_most_one_clauses()
    } else {
        Seq::empty()
    };
    let p3 = if encoding->sudoku_has_all_values {
        decimal_encoding::all_values_clauses()
    } else {
        Seq::empty()
    };
    let p4 = if encoding->sudoku_has_unique_values {
        decimal_encoding::unique_values_clauses()
    } else {
        Seq::empty()
    };
    let p5 = decimal_encoding::clue_clauses(clues);
    lemma_alo_hold(g);
    lemma_amo_hold(g);
    lemma_all_values_hold(g);
    lemma_unique_hold(g);
    lemma_clues_hold(g, clues);
    assert(forall|i: int| 0 <= i < p1.len() ==> #[trigger] p(p1[i]));
    assert(forall|i: int| 0 <= i < p2.len() ==> #[trigger] p(p2[i]));
    assert(forall|i: int| 0 <= i < p3.len() ==> #[trigger] p(p3[i]));
    assert(forall|i: int| 0 <= i < p4.len() ==> #[trigger] p(p4[i]));
    lemma_append_all(p1, p2, p);
    lemma_append_all(p1 + p2, p3, p);
    lemma_append_all(p1 + p2 + p3, p4, p);
    lemma_append_all(p1 + p2 + p3 + p4, p5, p);
    let all = encoding.spec_sudoku_to_cnf(clues);
    assert(all == p1 + p2 + p3 + p4 + p5);
    assert forall|i: int| 0 <= i < all.len() implies #[trigger] clause_holds(grid_assign(g), all[i]) by {
        assert(p(all[i]));
    }
    assert(satisfies(grid_assign(g), all));
}

// -------------------------------------------- binary, every solution counts

/// Bit `b` of the value of cell (r, c) (1-based) minus one.
pub open spec fn bit_of(g: Seq<Seq<Option<i32>>>, r: int, c: int, b: int) -> bool {
    binary_encoding::bit_set((g[r - 1][c - 1]->0 - 1) as i32, b)
}

/// The assignment of a grid for the binary encoding: a bit variable is true
/// when the bit of its cell's value (minus one) is set, an equality variable
/// when its two cells agree in that bit.
pub open spec fn bin_assign(g: Seq<Seq<Option<i32>>>) -> spec_fn(int) -> bool {
    |id: int|
        if 1 <= id <= 324 {
            let t = binary_encoding::spec_identifier_to_tuple(id);
            bit_of(g, t.0, t.1, t.2)
        } else {
            let t = binary_encoding::spec_eq_identifier_to_tuple(id);
            bit_of(g, t.0, t.1, t.4) == bit_of(g, t.2, t.3, t.4)
        }
}

/// The clause holds for the grid's binary assignment.
pub open spec fn bin_holds_for(g: Seq<Seq<Option<i32>>>) -> spec_fn(Seq<i32>) -> bool {
    |x: Seq<i32>| clause_holds(bin_assign(g), x)
}

/// A bit literal holds exactly when the bit is set; its negation exactly
/// when it is not.
proof fn lemma_bin_assign_bit(g: Seq<Seq<Option<i32>>>, r: int, c: int, b: int)
    requires
        1 <= r <= 9,
        1 <= c <= 9,
        0 <= b <= 3,
    ensures
        lit_holds(bin_assign(g), binary_encoding::bl(r, c, b)) == bit_of(g, r, c, b),
        lit_holds(bin_assign(g), binary_encoding::neg(binary_encoding::bl(r, c, b))) == !bit_of(g, r, c, b),
{
    binary_encoding::lemma_identifier_round_trip(r, c, b);
    let id = binary_encoding::spec_cnf_identifier(r, c, b);
    assert((binary_encoding::bl(r, c, b) as int) == id);
    assert(-(binary_encoding::neg(binary_encoding::bl(r, c, b)) as int) == id);
}

/// An equality literal holds exactly when the two cells agree in the bit;
/// its negation exactly when they do not.
proof fn lemma_bin_assign_eq(g: Seq<Seq<Option<i32>>>, r: int, c: int, r2: int, c2: int, b: int)
    requires
        1 <= r <= 9,
        1 <= c <= 9,
        1 <= r2 <= 9,
        1 <= c2 <= 9,
        0 <= b <= 3,
    ensures
        lit_holds(bin_assign(g), binary_encoding::el(r, c, r2, c2, b)) == (bit_of(g, r, c, b) == bit_of(
            g,
            r2,
            c2,
            b,
        )),
        lit_holds(bin_assign(g), binary_encoding::neg(binary_encoding::el(r, c, r2, c2, b))) == (bit_of(
            g,
            r,
            c,
            b,
        ) != bit_of(g, r2, c2, b)),
{
    binary_encoding::lemma_eq_identifier_round_trip(r, c, r2, c2, b);
    let id = binary_encoding::spec_eq_cnf_identifier(r, c, r2, c2, b);
    assert((binary_encoding::el(r, c, r2, c2, b) as int) == id);
    assert(-(binary_encoding::neg(binary_encoding::el(r, c, r2, c2, b)) as int) == id);
}

/// Two different numbers 0..16 differ in one of their four bits.
proof fn lemma_bits_differ(a: i32, b: i32)
    requires
        0 <= a < 16,
        0 <= b < 16,
        a != b,
    ensures
        exists|i: int| 0 <= i < 4 && #[trigger] binary_encoding::bit_set(a, i) != binary_encoding::bit_set(b, i),
{
    assert(((a & 1) != 0) != ((b & 1) != 0) || ((a & 2) != 0) != ((b & 2) != 0) || ((a & 4) != 0) != ((b
        & 4) != 0) || ((a & 8) != 0) != ((b & 8) != 0)) by (bit_vector)
        requires
            0 <= a < 16,
            0 <= b < 16,
            a != b,
    ;
    if binary_encoding::bit_set(a, 0) != binary_encoding::bit_set(b, 0) {
    } else if binary_encoding::bit_set(a, 1) != binary_encoding::bit_set(b, 1) {
    } else if binary_encoding::bit_set(a, 2) != binary_encoding::bit_set(b, 2) {
    } else {
        assert(binary_encoding::bit_set(a, 3) != binary_encoding::bit_set(b, 3));
    }
}

/// The clauses that define the equality variables of two cells hold.
#[verifier::spinoff_prover]
proof fn lemma_eq_init_hold(g: Seq<Seq<Option<i32>>>, r1: int, c1: int, r2: int, c2: int)
    requires
        1 <= r1 <= 9,
        1 <= c1 <= 9,
        1 <= r2 <= 9,
        1 <= c2 <= 9,
    ensures
        forall|i: int|
            0 <= i < binary_encoding::spec_eq_variable_init(r1, c1, r2, c2).len() ==> #[trigger] bin_holds_for(
                g,
            )(binary_encoding::spec_eq_variable_init(r1, c1, r2, c2)[i]),
{
    let p = bin_holds_for(g);
    let f = binary_encoding::eq_init_bit_fn(r1, c1, r2, c2);
    assert forall|bit: int, j: int| 0 <= bit < 4 && 0 <= j < f(bit).len() implies #[trigger] p(f(bit)[j]) by {
        lemma_bin_assign_bit(g, r1, c1, bit);
        lemma_bin_assign_bit(g, r2, c2, bit);
        lemma_bin_assign_eq(g, r1, c1, r2, c2, bit);
        let x = f(bit)[j];
        let a = bin_assign(g);
        assert(lit_holds(a, x[0]) || lit_holds(a, x[1]) || lit_holds(a, x[2]));
        if lit_holds(a, x[0]) {
            assert(0 < x.len());
        } else if lit_holds(a, x[1]) {
            assert(1 < x.len());
        } else {
            assert(lit_holds(a, x[2]));
        }
    }
    lemma_concat_all(4, f, p);
}

/// The pair blocks of related cells of a valid grid hold.
proof fn lemma_bin_blocks_hold(g: Seq<Seq<Option<i32>>>)
    requires
        valid_grid(g),
    ensures
        blocks_hold(binary_encoding::pair_block_fn(), bin_holds_for(g)),
{
    let p = bin_holds_for(g);
    let b = binary_encoding::pair_block_fn();
    assert forall|r1: int, c1: int, r2: int, c2: int, i: int|
        related_cells(r1, c1, r2, c2) && 0 <= i < b(r1, c1, r2, c2).len() implies #[trigger] p(
        b(r1, c1, r2, c2)[i],
    ) by {
        lemma_eq_init_hold(g, r1, c1, r2, c2);
        let init = binary_encoding::spec_eq_variable_init(r1, c1, r2, c2);
        let d = binary_encoding::differ_clause(r1, c1, r2, c2);
        lemma_related_differ(g, r1, c1, r2, c2);
        assert(cell_filled(g[r1 - 1][c1 - 1]) && cell_filled(g[r2 - 1][c2 - 1]));
        let v1 = (g[r1 - 1][c1 - 1]->0 - 1) as i32;
        let v2 = (g[r2 - 1][c2 - 1]->0 - 1) as i32;
        lemma_bits_differ(v1, v2);
        let k = choose|k: int| 0 <= k < 4 && #[trigger] binary_encoding::bit_set(v1, k)
            != binary_encoding::bit_set(v2, k);
        lemma_bin_assign_eq(g, r1, c1, r2, c2, k);
        assert(lit_holds(bin_assign(g), d[k]));
        assert(p(d));
        assert(b(r1, c1, r2, c2) == init + seq![d]);
        if i < init.len() {
            assert(b(r1, c1, r2, c2)[i] == init[i]);
        } else {
            assert(b(r1, c1, r2, c2)[i] == d);
        }
    }
}

/// The forbidden-value clauses hold for a valid grid.
proof fn lemma_forbidden_hold(g: Seq<Seq<Option<i32>>>)
    requires
        valid_grid(g),
    ensures
        forall|i: int|
            0 <= i < binary_encoding::forbidden_clauses().len() ==> #[trigger] bin_holds_for(g)(
                binary_encoding::forbidden_clauses()[i],
            ),
{
    let p = bin_holds_for(g);
    assert forall|r0: int, i: int| 0 <= r0 < 9 && 0 <= i < binary_encoding::forbidden_row_fn()(r0).len() implies #[trigger] p(
        binary_encoding::forbidden_row_fn()(r0)[i],
    ) by {
        assert forall|c0: int, i2: int| 0 <= c0 < 9 && 0 <= i2 < binary_encoding::forbidden_cell_fn(r0)(c0).len() implies #[trigger] p(
            binary_encoding::forbidden_cell_fn(r0)(c0)[i2],
        ) by {
            assert forall|f0: int, j: int| 0 <= f0 < 7 && 0 <= j < binary_encoding::forbidden_clause_fn(r0, c0)(f0).len() implies #[trigger] p(
                binary_encoding::forbidden_clause_fn(r0, c0)(f0)[j],
            ) by {
                let x = binary_encoding::forbidden_clause(r0, c0, f0)[0];
                assert(cell_filled(g[r0][c0]));
                let v = (g[r0][c0]->0 - 1) as i32;
                lemma_bits_differ(v, (f0 + 9) as i32);
                let k = choose|k: int| 0 <= k < 4 && #[trigger] binary_encoding::bit_set(v, k)
                    != binary_encoding::bit_set((f0 + 9) as i32, k);
                lemma_bin_assign_bit(g, r0 + 1, c0 + 1, k);
                assert(lit_holds(bin_assign(g), x[k]));
            }
            lemma_concat_all(7, binary_encoding::forbidden_clause_fn(r0, c0), p);
        }
        lemma_concat_all(9, binary_encoding::forbidden_cell_fn(r0), p);
    }
    lemma_concat_all(9, binary_encoding::forbidden_row_fn(), p);
}

/// The clue clauses of the binary encoding hold for a grid that keeps the
/// clues.
proof fn lemma_bin_clues_hold(g: Seq<Seq<Option<i32>>>, clues: Seq<Vec<Option<i32>>>)
    requires
        clues_in_grid(clues),
        keeps_clues(g, clues),
    ensures
        forall|i: int|
            0 <= i < binary_encoding::clue_clauses(clues).len() ==> #[trigger] bin_holds_for(g)(
                binary_encoding::clue_clauses(clues)[i],
            ),
{
    let p = bin_holds_for(g);
    assert forall|r: int, i: int|
        0 <= r < clues.len() && 0 <= i < binary_encoding::clue_row_fn(clues)(r).len() implies #[trigger] p(
        binary_encoding::clue_row_fn(clues)(r)[i],
    ) by {
        assert forall|c: int, j: int|
            0 <= c < clues[r]@.len() && 0 <= j < binary_encoding::clue_cell_fn(clues, r)(c).len() implies #[trigger] p(
            binary_encoding::clue_cell_fn(clues, r)(c)[j],
        ) by {
            assert(clues[r]@[c] is Some);
            assert(has_clue(clues, r, c));
            let v = clues[r]@[c]->0;
            lemma_bin_assign_bit(g, r + 1, c + 1, j);
            let x = binary_encoding::clue_cell(clues, r, c)[j];
            assert(x == seq![binary_encoding::clue_lit(r, c, v, j)]);
            assert(lit_holds(bin_assign(g), x[0]));
        }
        lemma_concat_all(clues[r]@.len() as int, binary_encoding::clue_cell_fn(clues, r), p);
    }
    lemma_concat_all(clues.len() as int, binary_encoding::clue_row_fn(clues), p);
}

/// A sudoku that has a solution gives satisfiable clauses under the binary
/// encoding: a solved grid that keeps the clues, read as an assignment (bits
/// of each cell's value minus one, and whether two cells agree in a bit),
/// satisfies every clause.
pub proof fn lemma_binary_clauses_satisfiable(g: Seq<Seq<Option<i32>>>, clues: Seq<Vec<Option<i32>>>)
    requires
        valid_grid(g),
        clues_in_grid(clues),
        keeps_clues(g, clues),
    ensures
        satisfiable(binary_encoding::spec_sudoku_to_cnf(clues)),
{
    let p = bin_holds_for(g);
    let b = binary_encoding::pair_block_fn();
    lemma_bin_blocks_hold(g);
    lemma_pairs_hold(b, p);
    lemma_forbidden_hold(g);
    lemma_bin_clues_hold(g, clues);
    let p1 = cell_pairs::row_pairs(b);
    let p2 = cell_pairs::col_pairs(b);
    let p3 = cell_pairs::sub_pairs(b);
    let p4 = binary_encoding::forbidden_clauses();
    let p5 = binary_encoding::clue_clauses(clues);
    lemma_append_all(p1, p2, p);
    lemma_append_all(p1 + p2, p3, p);
    lemma_append_all(p1 + p2 + p3, p4, p);
    lemma_append_all(p1 + p2 + p3 + p4, p5, p);
    let all = binary_encoding::spec_sudoku_to_cnf(clues);
    assert(all == p1 + p2 + p3 + p4 + p5);
    assert forall|i: int| 0 <= i < all.len() implies #[trigger] clause_holds(bin_assign(g), all[i]) by {
        assert(p(all[i]));
    }
    assert(satisfies(bin_assign(g), all));
}

} // verus!
