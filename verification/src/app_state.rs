//! State info for the main app: the CNF encoding in use, and the paging and
//! filtering state of the list of learned constraints.

use vstd::prelude::*;
use crate::cadical_wrapper::{solver_status, CadicalSolver};
use crate::cnf::{binary_encoding, cnf_encoding_rules_ok, decimal_encoding, spec_from_cnf, CnfVariable};
use crate::filtering::{page_bounds, unit_literals, ListFilter};
use crate::numeric_input::spec_parse_numeric_input;
use crate::warning::Warning;
use crate::{no_min_literal, parse_numeric_input, ConstraintList, Trail};

verus! {

/// Which CNF encoding of sudoku is in use; the decimal one with the rule
/// families that are switched on.
#[derive(Clone, Copy, Debug, PartialEq, Eq, Structural)]
pub enum EncodingType {
    Decimal {
        cell_at_least_one: bool,
        cell_at_most_one: bool,
        sudoku_has_all_values: bool,
        sudoku_has_unique_values: bool,
    },
    Binary,
}

impl EncodingType {
    /// The clues can be encoded without arithmetic overflow.
    pub open spec fn clues_fit(&self, clues: Seq<Vec<Option<i32>>>) -> bool {
        match *self {
            EncodingType::Decimal { .. } => decimal_encoding::clues_fit(clues),
            EncodingType::Binary => binary_encoding::clues_fit(clues),
        }
    }

    /// The clauses of this encoding for the given clues.
    pub open spec fn spec_sudoku_to_cnf(&self, clues: Seq<Vec<Option<i32>>>) -> Seq<Seq<i32>> {
        match *self {
            EncodingType::Decimal {
                cell_at_least_one,
                cell_at_most_one,
                sudoku_has_all_values,
                sudoku_has_unique_values,
            } => decimal_encoding::spec_sudoku_to_cnf(
                clues,
                cell_at_least_one,
                cell_at_most_one,
                sudoku_has_all_values,
                sudoku_has_unique_values,
            ),
            EncodingType::Binary => binary_encoding::spec_sudoku_to_cnf(clues),
        }
    }

    /// Encodes the sudoku rules and the clues with this encoding.
    pub fn sudoku_to_cnf(&self, clues: &[Vec<Option<i32>>]) -> (clauses: Vec<Vec<i32>>)
        requires
            self.clues_fit(clues@),
        ensures
            clauses.deep_view() == self.spec_sudoku_to_cnf(clues@),
    {
        match self {
            EncodingType::Decimal {
                cell_at_least_one,
                cell_at_most_one,
                sudoku_has_all_values,
                sudoku_has_unique_values,
            } => decimal_encoding::sudoku_to_cnf(
                clues,
                *cell_at_least_one,
                *cell_at_most_one,
                *sudoku_has_all_values,
                *sudoku_has_unique_values,
            ),
            EncodingType::Binary => binary_encoding::sudoku_to_cnf(clues),
        }
    }
}


/// Whether CaDiCaL reports variable `id` as fixed: `fixed` holds, per
/// identifier, what the solver's `fixed` query answers (1 fixed true, -1 fixed
/// false, 0 not fixed); identifiers without an entry count as not fixed.
pub open spec fn fixed_at(fixed: Seq<i32>, id: int) -> i32 {
    if 0 <= id < fixed.len() {
        fixed[id]
    } else {
        0
    }
}

/// Reads `fixed_at` for an identifier.
fn fixed_of(fixed: &Vec<i32>, id: i32) -> (f: i32)
    ensures
        f == fixed_at(fixed@, id as int),
{
    if 0 <= id && (id as usize) < fixed.len() {
        fixed[id as usize]
    } else {
        0
    }
}

impl EncodingType {
    /// The identifiers of the cell's variables can be computed and passed to the solver.
    pub open spec fn cell_literals_ok(&self, row: int, col: int) -> bool {
        match *self {
            EncodingType::Decimal { .. } => decimal_encoding::cell_literals_ok(row, col),
            EncodingType::Binary => binary_encoding::cell_literals_ok(row, col),
        }
    }

    /// The solver can report the cell's value: always for the decimal
    /// encoding; for the binary one, when it has a value for each bit.
    pub open spec fn cell_value_known(&self, solver: CadicalSolver, row: int, col: int) -> bool {
        match *self {
            EncodingType::Decimal { .. } => true,
            EncodingType::Binary => binary_encoding::cell_bits_known(solver, row, col),
        }
    }

    /// The value of cell (row, col) in the solver's solution.
    pub open spec fn spec_cell_value(&self, solver: CadicalSolver, row: int, col: int) -> int {
        match *self {
            EncodingType::Decimal { .. } => decimal_encoding::spec_cell_value(solver, row, col),
            EncodingType::Binary => binary_encoding::spec_cell_value(solver, row, col),
        }
    }

    pub fn get_cell_value(&self, solver: &CadicalSolver, row: i32, col: i32) -> (value: i32)
        requires
            solver_status(*solver) == Some(true),
            self.cell_literals_ok(row as int, col as int),
            self.cell_value_known(*solver, row as int, col as int),
        ensures
            value == self.spec_cell_value(*solver, row as int, col as int),
    {
        match self {
            EncodingType::Decimal { .. } => decimal_encoding::get_cell_value(solver, row, col),
            EncodingType::Binary => binary_encoding::get_cell_value(solver, row, col),
        }
    }

    /// The identifiers `fixed` consults can be computed without overflow.
    pub open spec fn fixed_ids_fit(&self, row: int, col: int, val: int) -> bool {
        match *self {
            EncodingType::Decimal { .. } => decimal_encoding::dec_id_fits(row, col, val),
            EncodingType::Binary => binary_encoding::bit_id_fits(row, col, 0)
                && binary_encoding::bit_id_fits(row, col, 3),
        }
    }

    /// Whether the fixed (root-level) literals force cell (row, col) to hold `val`.
    pub open spec fn spec_fixed(&self, fixed: Seq<i32>, row: int, col: int, val: int) -> bool {
        match *self {
            EncodingType::Decimal { .. } => fixed_at(
                fixed,
                decimal_encoding::spec_cnf_identifier(row, col, val),
            ) == 1,
            EncodingType::Binary => {
                let f0 = fixed_at(fixed, binary_encoding::spec_cnf_identifier(row, col, 0));
                let f1 = fixed_at(fixed, binary_encoding::spec_cnf_identifier(row, col, 1));
                let f2 = fixed_at(fixed, binary_encoding::spec_cnf_identifier(row, col, 2));
                let f3 = fixed_at(fixed, binary_encoding::spec_cnf_identifier(row, col, 3));
                &&& f0 != 0
                &&& f1 != 0
                &&& f2 != 0
                &&& f3 != 0
                &&& binary_encoding::value_from_bits(f0 == 1, f1 == 1, f2 == 1, f3 == 1) == val
            },
        }
    }

    /// Whether the fixed literals force cell (row, col) to hold `val`: for the
    /// decimal encoding its variable is fixed true; for the binary one every
    /// bit is fixed and the bits fixed true read as `val`.
    pub fn fixed(&self, fixed: &Vec<i32>, row: i32, col: i32, val: i32) -> (r: bool)
        requires
            self.fixed_ids_fit(row as int, col as int, val as int),
        ensures
            r == self.spec_fixed(fixed@, row as int, col as int, val as int),
    {
        match self {
            EncodingType::Decimal { .. } => {
                fixed_of(fixed, decimal_encoding::cnf_identifier(row, col, val)) == 1
            },
            EncodingType::Binary => {
                let ghost f = Seq::new(
                    4,
                    |b: int| fixed_at(fixed@, binary_encoding::spec_cnf_identifier(row as int, col as int, b)),
                );
                let mut value: i32 = 1;
                let mut weight: i32 = 1;
                let mut bit: i32 = 0;
                while bit < 4
                    invariant
                        0 <= bit <= 4,
                        *self == EncodingType::Binary,
                        binary_encoding::bit_id_fits(row as int, col as int, 0),
                        binary_encoding::bit_id_fits(row as int, col as int, 3),
                        f == Seq::new(
                            4,
                            |b: int| fixed_at(fixed@, binary_encoding::spec_cnf_identifier(row as int, col as int, b)),
                        ),
                        forall|b: int| 0 <= b < bit ==> f[b] != 0,
                        weight == if bit == 0 { 1int } else if bit == 1 { 2 } else if bit == 2 { 4 } else if bit == 3 { 8 } else { 16 },
                        value == 1 + (if bit > 0 && f[0] == 1 { 1int } else { 0 }) + (if bit > 1 && f[1] == 1 { 2int } else { 0 })
                            + (if bit > 2 && f[2] == 1 { 4int } else { 0 }) + (if bit > 3 && f[3] == 1 { 8int } else { 0 }),
                    decreases 4 - bit,
                {
                    let fix_val = fixed_of(fixed, binary_encoding::cnf_identifier(row, col, bit));
                    assert(fix_val == f[bit as int]);
                    if fix_val == 0 {
                        assert(f[0] == fixed_at(fixed@, binary_encoding::spec_cnf_identifier(row as int, col as int, 0)));
                        assert(f[1] == fixed_at(fixed@, binary_encoding::spec_cnf_identifier(row as int, col as int, 1)));
                        assert(f[2] == fixed_at(fixed@, binary_encoding::spec_cnf_identifier(row as int, col as int, 2)));
                        assert(f[3] == fixed_at(fixed@, binary_encoding::spec_cnf_identifier(row as int, col as int, 3)));
                        assert(f[0] == 0 || f[1] == 0 || f[2] == 0 || f[3] == 0) by {
                            if bit == 0 {} else if bit == 1 {} else if bit == 2 {} else {}
                        }
                        return false;
                    } else if fix_val == 1 {
                        value += weight;
                    }
                    weight *= 2;
                    bit += 1;
                }
                value == val
            },
        }
    }
}


/// The encoding the app starts with.
pub open spec fn default_encoding() -> EncodingType {
    EncodingType::Decimal {
        cell_at_least_one: true,
        cell_at_most_one: false,
        sudoku_has_all_values: false,
        sudoku_has_unique_values: true,
    }
}

/// The number of pages of `page_length` rows that `len` rows fill: the
/// quotient, plus one for a partly filled last page.
pub open spec fn spec_page_count(len: usize, page_length: usize) -> int {
    (len / page_length) as int + if len % page_length == 0 { 0int } else { 1 }
}

/// The page count can be computed without overflow: the page length is not
/// zero and the quotient leaves room for the extra page in an `i32`.
pub open spec fn page_count_fits(len: usize, page_length: usize) -> bool {
    page_length > 0 && len / page_length < i32::MAX
}

/// The page shown for `page_number` clamped into 0..page_count.
pub open spec fn clamp_page(page_number: i32, page_count: i32) -> int {
    let p = if page_number < page_count - 1 { page_number as int } else { page_count - 1 };
    if p > 0 { p } else { 0 }
}

/// The variables of a list of literals under an encoding.
pub open spec fn vars_of(literals: Seq<i32>, encoding: EncodingType) -> Seq<CnfVariable> {
    Seq::new(literals.len(), |j: int| spec_from_cnf(literals[j] as int, encoding))
}

/// No literal is `i32::MIN`.
pub open spec fn no_min(literals: Seq<i32>) -> bool {
    forall|j: int| 0 <= j < literals.len() ==> #[trigger] literals[j] != i32::MIN
}

/// Contains data relevant to app state
pub struct AppState {
    pub filter: ListFilter,
    pub max_length: Option<i32>,
    pub max_length_input: String,
    pub selected_cell: Option<(i32, i32)>,
    pub clicked_constraint_index: Option<usize>,
    pub conflict_literals: Option<Vec<CnfVariable>>,
    pub trail: Option<Vec<CnfVariable>>,
    pub page_number: i32,
    pub page_count: i32,
    pub page_length: usize,
    pub page_length_input: String,
    pub filtered_length: usize,
    pub show_solved_sudoku: bool,
    pub little_number_constraints: Vec<CnfVariable>,
    pub encoding: EncodingType,
    pub show_conflict_literals: bool,
    pub show_trail: bool,
    pub editor_active: bool,
    pub highlight_fixed_literals: bool,
    pub show_warning: Warning,
}

impl AppState {
    /// The filter over the learned constraints.
    pub open spec fn list_filter(&self) -> ListFilter {
        self.filter
    }

    /// The state is consistent: the filter is well formed and every learned
    /// literal can be read back as a variable.
    pub open spec fn wf(&self) -> bool {
        &&& self.list_filter().wf()
        &&& no_min_literal(self.list_filter().constraints_view())
    }

    /// The page number as the filter receives it.
    pub open spec fn page_index(&self) -> usize {
        self.page_number as usize
    }

    /// The current page can be selected in the filter without overflow.
    pub open spec fn page_fits(&self) -> bool {
        &&& self.page_index() < usize::MAX
        &&& (self.page_index() + 1) * self.page_length <= usize::MAX
    }

    /// Everything `get_filtered` needs.
    pub open spec fn can_get_filtered(&self) -> bool {
        &&& self.wf()
        &&& self.page_fits()
        &&& self.list_filter().trails_cover(self.page_index() as int, self.page_length as int)
        &&& page_count_fits(self.list_filter().filtered_indices().len() as usize, self.page_length)
    }

    pub fn new(constraints: ConstraintList, trails: Trail) -> (state: Self)
        requires
            no_min_literal(constraints@),
        ensures
            state.wf(),
            state.list_filter().constraints_view() == constraints@,
            state.list_filter().trails_view() == trails,
            state.list_filter().has_cell_map(),
            state.list_filter().filtered_indices() == crate::filtering::all_indices(
                constraints@.len() as int,
            ),
            state.encoding == default_encoding(),
            state.max_length is None,
            state.max_length_input@ == Seq::<char>::empty(),
            state.selected_cell is None,
            state.clicked_constraint_index is None,
            state.conflict_literals is None,
            state.trail is None,
            state.page_number == 0,
            state.page_count == 0,
            state.page_length == 100,
            state.page_length_input@ == "100"@,
            state.filtered_length == 0,
            state.show_solved_sudoku,
            !state.show_conflict_literals,
            !state.show_trail,
            state.little_number_constraints@.len() == 0,
            !state.editor_active,
            !state.highlight_fixed_literals,
            state.show_warning.text is None,
            state.show_warning.priority == 6,
    {
        let mut filter = ListFilter::new(constraints, trails);
        let encoding = EncodingType::Decimal {
            cell_at_least_one: true,
            cell_at_most_one: false,
            sudoku_has_all_values: false,
            sudoku_has_unique_values: true,
        };
        filter.reinit(&encoding);
        Self {
            filter,
            max_length: None,
            max_length_input: String::new(),
            selected_cell: None,
            clicked_constraint_index: None,
            conflict_literals: None,
            trail: None,
            page_number: 0,
            page_count: 0,
            page_length: 100,
            page_length_input: String::from_str("100"),
            filtered_length: 0,
            show_solved_sudoku: true,
            show_conflict_literals: false,
            show_trail: false,
            little_number_constraints: Vec::new(),
            encoding,
            editor_active: false,
            highlight_fixed_literals: false,
            show_warning: Warning::new(),
        }
    }

    pub fn clear_trail(&mut self)
        ensures
            *final(self) == (AppState { conflict_literals: None, trail: None, ..*old(self) }),
    {
        self.conflict_literals = None;
        self.trail = None;
    }

    pub fn set_trail(&mut self, conflict_literals: Vec<CnfVariable>, trail: Vec<CnfVariable>)
        ensures
            *final(self) == (AppState {
                conflict_literals: Some(conflict_literals),
                trail: Some(trail),
                ..*old(self)
            }),
    {
        self.conflict_literals = Some(conflict_literals);
        self.trail = Some(trail);
    }

    /// Also resets data that becomes invalid when the page changes
    pub fn set_page_number(&mut self, page_number: i32)
        requires
            old(self).page_count > i32::MIN,
        ensures
            *final(self) == (AppState {
                page_number: clamp_page(page_number, old(self).page_count) as i32,
                clicked_constraint_index: None,
                conflict_literals: None,
                trail: None,
                ..*old(self)
            }),
    {
        self.clear_trail();
        self.clicked_constraint_index = None;
        let last = self.page_count - 1;
        self.page_number = if page_number < last { page_number } else { last };
        self.page_number = if self.page_number > 0 { self.page_number } else { 0 };
    }

    /// Recomputes the number of pages from the filtered length and page length.
    pub fn count_pages(&mut self)
        requires
            page_count_fits(old(self).filtered_length, old(self).page_length),
        ensures
            *final(self) == (AppState {
                page_count: spec_page_count(old(self).filtered_length, old(self).page_length) as i32,
                ..*old(self)
            }),
    {
        let q = (self.filtered_length / self.page_length) as i32;
        self.page_count = q + if self.filtered_length % self.page_length == 0 { 0 } else { 1 };
    }
}


/// The single-literal constraints among valid indices hold no `i32::MIN`
/// when the constraints hold none.
proof fn lemma_unit_literals_no_min(constraints: Seq<Seq<i32>>, indices: Seq<usize>)
    requires
        no_min_literal(constraints),
        forall|k: int| 0 <= k < indices.len() ==> #[trigger] indices[k] < constraints.len(),
    ensures
        no_min(unit_literals(constraints, indices)),
    decreases indices.len(),
{
    if indices.len() > 0 {
        let rest = indices.drop_last();
        assert forall|k: int| 0 <= k < rest.len() implies #[trigger] rest[k] < constraints.len() by {
            assert(rest[k] == indices[k]);
        }
        lemma_unit_literals_no_min(constraints, rest);
        let last = indices.last() as int;
        if constraints[last].len() == 1 {
            assert(constraints[last][0] != i32::MIN);
        }
    }
}

/// The constraints shown on a page, in order.
pub open spec fn page_rows(
    constraints: Seq<Seq<i32>>,
    idx: Seq<usize>,
    page_number: int,
    page_length: int,
) -> Seq<Seq<i32>> {
    let (begin, stop) = page_bounds(idx.len() as int, page_number, page_length);
    Seq::new((stop - begin) as nat, |k: int| constraints[idx[begin + k] as int])
}

/// The page count is the number of pages needed to show every row: rounded-up
/// division, so that all rows fit on that many pages and, when there is any
/// row, one page fewer would not hold them.
pub proof fn lemma_page_count_is_ceiling(len: usize, page_length: usize)
    requires
        page_length > 0,
    ensures
        spec_page_count(len, page_length) == (len + page_length - 1) / (page_length as int),
        spec_page_count(len, page_length) * page_length >= len,
        len > 0 ==> (spec_page_count(len, page_length) - 1) * page_length < len,
        len == 0 ==> spec_page_count(len, page_length) == 0,
{
    let q = len / page_length;
    let r = len % page_length;
    let n = spec_page_count(len, page_length);
    assert(len == q * page_length + r) by (nonlinear_arith)
        requires
            page_length > 0,
            q == len / page_length,
            r == len % page_length,
    ;
    assert(0 <= r < page_length);
    if r == 0 {
        assert((len + page_length - 1) / (page_length as int) == q) by (nonlinear_arith)
            requires
                page_length > 0,
                len == q * page_length,
                q >= 0,
        ;
        assert(n * page_length >= len) by (nonlinear_arith)
            requires
                n == q,
                len == q * page_length,
        ;
        assert(len > 0 ==> (n - 1) * page_length < len) by (nonlinear_arith)
            requires
                n == q,
                len == q * page_length,
                page_length > 0,
        ;
        assert(len == 0 ==> n == 0) by (nonlinear_arith)
            requires
                n == q,
                len == q * page_length,
                page_length > 0,
                q >= 0,
        ;
    } else {
        assert((len + page_length - 1) / (page_length as int) == q + 1) by (nonlinear_arith)
            requires
                page_length > 0,
                len == q * page_length + r,
                0 < r < page_length,
                q >= 0,
        ;
        assert(n * page_length >= len) by (nonlinear_arith)
            requires
                n == q + 1,
                len == q * page_length + r,
                r < page_length,
        ;
        assert((n - 1) * page_length < len) by (nonlinear_arith)
            requires
                n == q + 1,
                len == q * page_length + r,
                r > 0,
        ;
    }
}

/// Setting a page number always leaves a page that exists: never below the
/// first page and, when there are pages, never past the last one; a number
/// within range is kept as it is.
pub proof fn lemma_clamp_page_in_range(page_number: i32, page_count: i32)
    ensures
        0 <= clamp_page(page_number, page_count),
        page_count >= 1 ==> clamp_page(page_number, page_count) < page_count,
        0 <= page_number < page_count ==> clamp_page(page_number, page_count) == page_number,
{
}

impl AppState {
    /// Get the filtered and paged list of constraints as CNF variables
    /// Get the filtered and paged list of trails as a single Trail struct
    /// Updates data that should be refreshed when constraints may have changed
    pub fn get_filtered(&mut self) -> (r: (Vec<Vec<CnfVariable>>, Trail))
        requires
            old(self).can_get_filtered(),
        ensures
            ({
                let f = old(self).list_filter();
                let idx = f.filtered_indices();
                let (begin, stop) = page_bounds(
                    idx.len() as int,
                    old(self).page_index() as int,
                    old(self).page_length as int,
                );
                let t = f.trails_view();
                &&& r.0.deep_view() == crate::spec_as_cnf(
                    page_rows(f.constraints_view(), idx, old(self).page_index() as int, old(self).page_length as int),
                    old(self).encoding,
                )
                &&& r.1.conflict_literals.deep_view() == Seq::new(
                    (stop - begin) as nat,
                    |k: int| t.conflict_literals.deep_view()[idx[begin + k] as int],
                )
                &&& r.1.trail.deep_view() == Seq::new(
                    (stop - begin) as nat,
                    |k: int| t.trail.deep_view()[idx[begin + k] as int],
                )
                &&& final(self).little_number_constraints@ == vars_of(
                    unit_literals(f.constraints_view(), idx.take(stop)),
                    old(self).encoding,
                )
                &&& *final(self) == (AppState {
                    filtered_length: idx.len() as usize,
                    page_count: spec_page_count(idx.len() as usize, old(self).page_length) as i32,
                    little_number_constraints: final(self).little_number_constraints,
                    ..*old(self)
                })
            }),
    {
        let ghost cons = self.filter.constraints_view();
        let ghost idx = self.filter.filtered_indices();
        proof {
            self.filter.lemma_filtered_indices();
        }
        let (list, trail, length) = self.filter.get_filtered(self.page_number as usize, self.page_length);
        self.filtered_length = length;
        self.count_pages();
        self.update_little_number_constraints();
        proof {
            let (begin, stop) = page_bounds(idx.len() as int, self.page_index() as int, self.page_length as int);
            let pn = self.page_index() as int;
            let pl = self.page_length as int;
            assert(pn * pl <= (pn + 1) * pl) by (nonlinear_arith)
                requires
                    pn >= 0,
                    pl >= 0,
            ;
            assert(begin <= stop <= idx.len());
            assert forall|i: int, j: int|
                0 <= i < list.deep_view().len() && 0 <= j < list.deep_view()[i].len() implies
                #[trigger] list.deep_view()[i][j] != i32::MIN by {
                assert(list.deep_view()[i] == cons[idx[begin + i] as int]);
                assert(cons[idx[begin + i] as int][j] != i32::MIN);
            }
            assert(list.deep_view() =~= page_rows(cons, idx, self.page_index() as int, self.page_length as int));
        }
        let enum_constraints = crate::literals_as_cnf(&list, &self.encoding);
        (enum_constraints, trail)
    }

    /// Recomputes the literals of the single-literal constraints on the
    /// current and earlier pages, as variables of the encoding.
    pub fn update_little_number_constraints(&mut self)
        requires
            old(self).wf(),
            old(self).page_fits(),
        ensures
            ({
                let f = old(self).list_filter();
                let idx = f.filtered_indices();
                let (_, stop) = page_bounds(
                    idx.len() as int,
                    old(self).page_index() as int,
                    old(self).page_length as int,
                );
                &&& final(self).little_number_constraints@ == vars_of(
                    unit_literals(f.constraints_view(), idx.take(stop)),
                    old(self).encoding,
                )
                &&& *final(self) == (AppState {
                    little_number_constraints: final(self).little_number_constraints,
                    ..*old(self)
                })
            }),
    {
        proof {
            self.filter.lemma_filtered_indices();
        }
        let constraints = self.filter.get_little_number_constraints(
            self.page_number as usize,
            self.page_length,
        );
        proof {
            let idx = self.filter.filtered_indices();
            let (_, stop) = page_bounds(idx.len() as int, self.page_index() as int, self.page_length as int);
            let taken = idx.take(stop);
            assert forall|k: int| 0 <= k < taken.len() implies #[trigger] taken[k]
                < self.filter.constraints_view().len() by {
                assert(taken[k] == idx[k]);
            }
            lemma_unit_literals_no_min(self.filter.constraints_view(), taken);
        }
        self.little_number_constraints = crate::literal_list_as_cnf(&constraints, &self.encoding);
        proof {
            let idx = self.filter.filtered_indices();
            let (_, stop) = page_bounds(idx.len() as int, self.page_index() as int, self.page_length as int);
            assert(self.little_number_constraints@ =~= vars_of(
                unit_literals(self.filter.constraints_view(), idx.take(stop)),
                self.encoding,
            ));
        }
    }
}

/// Two filters hold the same constraints, trails and cell map.
pub open spec fn same_rows(a: ListFilter, b: ListFilter) -> bool {
    &&& a.constraints_view() == b.constraints_view()
    &&& a.trails_view() == b.trails_view()
    &&& a.has_cell_map() == b.has_cell_map()
    &&& forall|r: int, c: int| #[trigger] a.cell_map(r, c) == b.cell_map(r, c)
}

/// What `parse_numeric_input` makes of a text, as the `i32` it returns.
pub open spec fn parsed_input(s: Seq<char>) -> Option<i32> {
    match spec_parse_numeric_input(s) {
        Some(v) => Some(v as i32),
        None => None,
    }
}

/// The name of an encoding as the app shows it.
pub open spec fn encoding_name(encoding: EncodingType) -> Seq<char> {
    match encoding {
        EncodingType::Decimal { .. } => "Decimal"@,
        EncodingType::Binary => "Binary"@,
    }
}

impl AppState {
    /// Also resets data that becomes invalid when the filtering changes
    pub fn clear_length(&mut self)
        requires
            old(self).wf(),
            old(self).page_count > i32::MIN,
        ensures
            final(self).wf(),
            same_rows(final(self).filter, old(self).filter),
            final(self).filter.length_set() == crate::filtering::all_indices(
                old(self).filter.constraints_view().len() as int,
            ).to_set(),
            final(self).filter.cell_set() == old(self).filter.cell_set(),
            final(self).max_length_input@ == Seq::<char>::empty(),
            *final(self) == (AppState {
                filter: final(self).filter,
                page_number: 0,
                clicked_constraint_index: None,
                conflict_literals: None,
                trail: None,
                max_length: None,
                max_length_input: final(self).max_length_input,
                ..*old(self)
            }),
    {
        self.set_page_number(0);
        self.max_length = None;
        self.max_length_input = String::new();
        self.filter.clear_length();
    }

    /// Also resets data that becomes invalid when the filtering changes
    pub fn clear_cell(&mut self)
        requires
            old(self).wf(),
            old(self).page_count > i32::MIN,
        ensures
            final(self).wf(),
            same_rows(final(self).filter, old(self).filter),
            final(self).filter.cell_set() == crate::filtering::all_indices(
                old(self).filter.constraints_view().len() as int,
            ).to_set(),
            final(self).filter.length_set() == old(self).filter.length_set(),
            *final(self) == (AppState {
                filter: final(self).filter,
                page_number: 0,
                clicked_constraint_index: None,
                conflict_literals: None,
                trail: None,
                selected_cell: None,
                ..*old(self)
            }),
    {
        self.set_page_number(0);
        self.selected_cell = None;
        self.filter.clear_cell();
    }

    /// Also resets data that becomes invalid when the filtering changes
    pub fn clear_filters(&mut self)
        requires
            old(self).wf(),
            old(self).page_count > i32::MIN,
        ensures
            final(self).wf(),
            same_rows(final(self).filter, old(self).filter),
            final(self).filter.length_set() == crate::filtering::all_indices(
                old(self).filter.constraints_view().len() as int,
            ).to_set(),
            final(self).filter.cell_set() == crate::filtering::all_indices(
                old(self).filter.constraints_view().len() as int,
            ).to_set(),
            final(self).max_length_input@ == Seq::<char>::empty(),
            *final(self) == (AppState {
                filter: final(self).filter,
                page_number: 0,
                clicked_constraint_index: None,
                conflict_literals: None,
                trail: None,
                max_length: None,
                max_length_input: final(self).max_length_input,
                selected_cell: None,
                ..*old(self)
            }),
    {
        self.set_page_number(0);
        self.clear_length();
        self.clear_cell();
        self.clear_trail();
    }

    /// Filters constraints by their length
    /// Resets data that becomes invalid when the filtering changes
    pub fn filter_by_max_length(&mut self)
        requires
            old(self).wf(),
            old(self).page_count > i32::MIN,
        ensures
            final(self).wf(),
            same_rows(final(self).filter, old(self).filter),
            final(self).filter.cell_set() == old(self).filter.cell_set(),
            final(self).max_length == parsed_input(old(self).max_length_input@),
            match parsed_input(old(self).max_length_input@) {
                Some(m) => {
                    &&& final(self).filter.length_set() == Set::new(
                        |i: usize|
                            i < old(self).filter.constraints_view().len() && (
                            old(self).filter.constraints_view()[i as int].len() as i32) <= m,
                    )
                    &&& *final(self) == (AppState {
                        filter: final(self).filter,
                        max_length: Some(m),
                        page_number: 0,
                        clicked_constraint_index: None,
                        conflict_literals: None,
                        trail: None,
                        ..*old(self)
                    })
                },
                None => *final(self) == (AppState {
                    max_length: None,
                    conflict_literals: None,
                    trail: None,
                    ..*old(self)
                }),
            },
    {
        self.clear_trail();
        self.max_length = parse_numeric_input(self.max_length_input.as_str());
        if let Some(max_length) = self.max_length {
            self.set_page_number(0);
            self.filter.by_max_length(max_length);
        }
    }

    /// Filters constraints that apply to a specific cell
    /// Resets data that becomes invalid when the filtering changes
    pub fn select_cell(&mut self, row: i32, col: i32)
        requires
            old(self).wf(),
            old(self).page_count > i32::MIN,
        ensures
            final(self).wf(),
            same_rows(final(self).filter, old(self).filter),
            final(self).filter.length_set() == old(self).filter.length_set(),
            final(self).filter.cell_set() == if old(self).filter.has_cell_map() && 1 <= row <= 9 && 1
                <= col <= 9 {
                old(self).filter.cell_map(row as int, col as int)
            } else {
                old(self).filter.cell_set()
            },
            *final(self) == (AppState {
                filter: final(self).filter,
                selected_cell: Some((row, col)),
                page_number: 0,
                clicked_constraint_index: None,
                conflict_literals: None,
                trail: None,
                ..*old(self)
            }),
    {
        self.clear_trail();
        self.set_page_number(0);
        self.selected_cell = Some((row, col));
        self.filter.by_cell(row, col);
    }

    /// Also resets data that becomes invalid when the page changes
    pub fn set_page_length(&mut self)
        requires
            match parsed_input(old(self).page_length_input@) {
                Some(n) => page_count_fits(old(self).filtered_length, n as usize),
                None => true,
            },
        ensures
            match parsed_input(old(self).page_length_input@) {
                Some(n) => *final(self) == (AppState {
                    page_length: n as usize,
                    page_count: spec_page_count(old(self).filtered_length, n as usize) as i32,
                    page_number: 0,
                    clicked_constraint_index: None,
                    conflict_literals: None,
                    trail: None,
                    ..*old(self)
                }),
                None => *final(self) == (AppState {
                    conflict_literals: None,
                    trail: None,
                    ..*old(self)
                }),
            },
    {
        self.clear_trail();
        let page_input = parse_numeric_input(self.page_length_input.as_str());
        if let Some(input) = page_input {
            self.page_length = input as usize;
            self.count_pages();
            self.set_page_number(0);
        }
    }

    /// The page length the entry asks for: an empty entry or `*` asks for
    /// every row on one page, and becomes the number of filtered rows.
    pub open spec fn page_length_entry(&self) -> Seq<char> {
        if self.page_length_input@.len() == 0 || self.page_length_input@ == seq!['*'] {
            crate::sudoku::decimal_text(self.filtered_length as nat)
        } else {
            self.page_length_input@
        }
    }

    /// Applies the page length entry (see `page_length_entry`), as
    /// `set_page_length` does.
    pub fn select_page_length(&mut self)
        requires
            old(self).page_length_input@.len() == 0 || old(self).page_length_input@ == seq!['*']
                || match parsed_input(old(self).page_length_input@) {
                Some(n) => page_count_fits(old(self).filtered_length, n as usize),
                None => true,
            },
        ensures
            final(self).page_length_input@ == old(self).page_length_entry(),
            match parsed_input(old(self).page_length_entry()) {
                Some(n) => *final(self) == (AppState {
                    page_length_input: final(self).page_length_input,
                    page_length: n as usize,
                    page_count: spec_page_count(old(self).filtered_length, n as usize) as i32,
                    page_number: 0,
                    clicked_constraint_index: None,
                    conflict_literals: None,
                    trail: None,
                    ..*old(self)
                }),
                None => *final(self) == (AppState {
                    page_length_input: final(self).page_length_input,
                    conflict_literals: None,
                    trail: None,
                    ..*old(self)
                }),
            },
    {
        let entry = self.page_length_input.as_str();
        let len = entry.unicode_len();
        let all_rows = len == 0 || (len == 1 && entry.get_char(0) == '*');
        proof {
            if len == 1 && entry@[0] == '*' {
                assert(entry@ =~= seq!['*']);
            }
            if entry@ == seq!['*'] {
                assert(entry@[0] == '*');
            }
        }
        if all_rows {
            let mut text = String::new();
            crate::sudoku::append_decimal(&mut text, self.filtered_length as u64);
            assert(text@ =~= crate::sudoku::decimal_text(self.filtered_length as nat));
            self.page_length_input = text;
            proof {
                let fl = self.filtered_length as nat;
                crate::numeric_input::lemma_parse_decimal_text(fl);
                if 1 <= fl <= i32::MAX {
                    assert(fl / fl == 1) by (nonlinear_arith)
                        requires
                            fl >= 1,
                    ;
                }
            }
        }
        self.set_page_length();
    }

    pub fn reinit(&mut self)
        requires
            old(self).wf(),
            old(self).page_count > i32::MIN,
        ensures
            final(self).wf(),
            final(self).filter.constraints_view() == old(self).filter.constraints_view(),
            final(self).filter.trails_view() == old(self).filter.trails_view(),
            final(self).filter.length_set() == crate::filtering::all_indices(
                old(self).filter.constraints_view().len() as int,
            ).to_set(),
            final(self).filter.cell_set() == crate::filtering::all_indices(
                old(self).filter.constraints_view().len() as int,
            ).to_set(),
            final(self).filter.has_cell_map(),
            forall|row: int, col: int|
                1 <= row <= 9 && 1 <= col <= 9 ==> #[trigger] final(self).filter.cell_map(row, col)
                    == crate::filtering::constraints_of_cell(
                    old(self).filter.constraints_view(),
                    old(self).encoding,
                    row,
                    col,
                ),
            final(self).max_length_input@ == Seq::<char>::empty(),
            final(self).page_length_input@ == "100"@,
            final(self).little_number_constraints@.len() == 0,
            *final(self) == (AppState {
                filter: final(self).filter,
                max_length: None,
                max_length_input: final(self).max_length_input,
                selected_cell: None,
                clicked_constraint_index: None,
                conflict_literals: None,
                trail: None,
                page_number: 0,
                page_count: 0,
                page_length: 100,
                page_length_input: final(self).page_length_input,
                filtered_length: 0,
                little_number_constraints: final(self).little_number_constraints,
                ..*old(self)
            }),
    {
        self.clear_filters();
        self.filter.reinit(&self.encoding);

        self.page_number = 0;
        self.page_count = 0;
        self.page_length = 100;
        self.page_length_input = String::from_str("100");
        self.filtered_length = 0;
        self.little_number_constraints.clear();
    }

    /// The name of the encoding in use.
    pub fn get_encoding_type(&mut self) -> (name: &str)
        ensures
            name@ == encoding_name(old(self).encoding),
            *final(self) == *old(self),
    {
        match self.encoding {
            EncodingType::Decimal { .. } => "Decimal",
            EncodingType::Binary => "Binary",
        }
    }
}

/// A move between pages of the constraint list.
#[derive(Clone, Copy, Debug, PartialEq, Eq, Structural)]
pub enum PageMove {
    First,
    Previous,
    Next,
    Last,
}

/// The page a move asks for, when the move is possible: back moves need a
/// page before the current one, forward moves a page after it.
pub open spec fn page_target(page_number: i32, page_count: i32, mv: PageMove) -> Option<int> {
    match mv {
        PageMove::First => if page_number > 0 { Some(0) } else { None },
        PageMove::Previous => if page_number > 0 { Some(page_number - 1) } else { None },
        PageMove::Next => if page_count > 0 && page_number < page_count - 1 {
            Some(page_number + 1)
        } else {
            None
        },
        PageMove::Last => if page_count > 0 && page_number < page_count - 1 {
            Some(page_count - 1)
        } else {
            None
        },
    }
}

impl AppState {
    /// Clicking a cell selects it for filtering, or clears the selection when
    /// it is already selected.
    pub fn click_cell(&mut self, row: i32, col: i32)
        requires
            old(self).wf(),
            old(self).page_count > i32::MIN,
        ensures
            final(self).wf(),
            same_rows(final(self).filter, old(self).filter),
            final(self).filter.length_set() == old(self).filter.length_set(),
            old(self).selected_cell == Some((row, col)) ==> {
                &&& final(self).filter.cell_set() == crate::filtering::all_indices(
                    old(self).filter.constraints_view().len() as int,
                ).to_set()
                &&& *final(self) == (AppState {
                    filter: final(self).filter,
                    page_number: 0,
                    clicked_constraint_index: None,
                    conflict_literals: None,
                    trail: None,
                    selected_cell: None,
                    ..*old(self)
                })
            },
            old(self).selected_cell != Some((row, col)) ==> {
                &&& final(self).filter.cell_set() == if old(self).filter.has_cell_map() && 1 <= row
                    <= 9 && 1 <= col <= 9 {
                    old(self).filter.cell_map(row as int, col as int)
                } else {
                    old(self).filter.cell_set()
                }
                &&& *final(self) == (AppState {
                    filter: final(self).filter,
                    selected_cell: Some((row, col)),
                    page_number: 0,
                    clicked_constraint_index: None,
                    conflict_literals: None,
                    trail: None,
                    ..*old(self)
                })
            },
    {
        let selected = match self.selected_cell {
            Some((r, c)) => r == row && c == col,
            None => false,
        };
        if selected {
            self.clear_cell();
        } else {
            self.select_cell(row, col);
        }
    }

    /// Moves between pages; returns whether the page changed (and so the
    /// shown list has to be fetched again).
    pub fn move_page(&mut self, mv: PageMove) -> (moved: bool)
        requires
            old(self).page_count > i32::MIN,
        ensures
            moved == page_target(old(self).page_number, old(self).page_count, mv) is Some,
            match page_target(old(self).page_number, old(self).page_count, mv) {
                Some(p) => *final(self) == (AppState {
                    page_number: clamp_page(p as i32, old(self).page_count) as i32,
                    clicked_constraint_index: None,
                    conflict_literals: None,
                    trail: None,
                    ..*old(self)
                }),
                None => *final(self) == *old(self),
            },
    {
        match mv {
            PageMove::First => {
                if self.page_number > 0 {
                    self.set_page_number(0);
                    return true;
                }
            },
            PageMove::Previous => {
                if self.page_number > 0 {
                    self.set_page_number(self.page_number - 1);
                    return true;
                }
            },
            PageMove::Next => {
                if self.page_count > 0 && self.page_number < self.page_count - 1 {
                    self.set_page_number(self.page_number + 1);
                    return true;
                }
            },
            PageMove::Last => {
                if self.page_count > 0 && self.page_number < self.page_count - 1 {
                    self.set_page_number(self.page_count - 1);
                    return true;
                }
            },
        }
        false
    }
}

/// The rules chosen for the decimal encoding are not enough for the solver to
/// solve a sudoku properly (see `cnf_encoding_rules_ok`); the binary encoding
/// has no such choice.
pub open spec fn rules_incomplete(encoding: EncodingType) -> bool {
    match encoding {
        EncodingType::Decimal {
            cell_at_least_one,
            cell_at_most_one,
            sudoku_has_all_values,
            sudoku_has_unique_values,
        } => !((cell_at_least_one && sudoku_has_unique_values) || (cell_at_most_one
            && sudoku_has_all_values)),
        EncodingType::Binary => false,
    }
}

/// The warning shown for an encoding and a solver status: incomplete
/// encoding rules (priority 0) come before a failed solve (priority 1).
pub open spec fn expected_warning(encoding: EncodingType, status: Option<bool>) -> (Option<Seq<char>>, i32) {
    if rules_incomplete(encoding) {
        (
            Some(
                "Incomplete set of constraints selected for the encoding. This may cause the solving to fail or to produce unexpected results."@,
            ),
            0,
        )
    } else if status == Some(false) {
        (Some("Solving failed. This may be because the sudoku is unsolveable, or because of an error."@), 1)
    } else {
        (None, 6)
    }
}

impl AppState {
    /// Sets the warning anew: a failed solve (the solver's status is false;
    /// no status is no failure) and an incomplete set of encoding rules are
    /// warned about, the latter first.
    pub fn refresh_warning(&mut self, solver: &CadicalSolver)
        ensures
            *final(self) == (AppState { show_warning: final(self).show_warning, ..*old(self) }),
            (
                crate::warning::text_view(final(self).show_warning.text),
                final(self).show_warning.priority,
            ) == expected_warning(old(self).encoding, solver_status(*solver)),
    {
        self.show_warning = Warning::new();
        let failed = match solver.status() {
            Some(sat) => !sat,
            None => false,
        };
        if failed {
            self.show_warning.set(
                Some(
                    String::from_str(
                        "Solving failed. This may be because the sudoku is unsolveable, or because of an error.",
                    ),
                ),
                1,
            );
        }
        if let EncodingType::Decimal {
            cell_at_least_one,
            cell_at_most_one,
            sudoku_has_all_values,
            sudoku_has_unique_values,
        } = self.encoding {
            if !cnf_encoding_rules_ok(
                cell_at_least_one,
                cell_at_most_one,
                sudoku_has_all_values,
                sudoku_has_unique_values,
            ) {
                self.show_warning.set(
                    Some(
                        String::from_str(
                            "Incomplete set of constraints selected for the encoding. This may cause the solving to fail or to produce unexpected results.",
                        ),
                    ),
                    0,
                );
            }
        }
    }
}

/// On a page p between the first and the last, moving to the previous page
/// lands on page p - 1 and moving to the next lands on page p + 1, so a step
/// back and a step forward undo each other.
pub proof fn lemma_page_steps(p: i32, count: i32)
    requires
        0 < p < count - 1,
    ensures
        page_target(p, count, PageMove::Previous) == Some(p - 1),
        clamp_page((p - 1) as i32, count) == p - 1,
        page_target((p - 1) as i32, count, PageMove::Next) == Some(p as int),
        page_target(p, count, PageMove::Next) == Some(p + 1),
        clamp_page((p + 1) as i32, count) == p + 1,
        page_target((p + 1) as i32, count, PageMove::Previous) == Some(p as int),
        page_target(p, count, PageMove::First) == Some(0int),
        page_target(p, count, PageMove::Last) == Some(count - 1),
{
}

} // verus!
