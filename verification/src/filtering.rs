//! For filtering the constraint list shown in the GUI

use std::collections::HashSet;
use vstd::prelude::*;
use crate::app_state::EncodingType;
use crate::cnf::{spec_from_cnf, CnfVariable};
use crate::seq_util::{copy_clause, lemma_int_vec_deep_view};
use crate::{no_min_literal, ConstraintList, Trail};

verus! {

/// Every element is smaller than the next one.
pub open spec fn strictly_increasing(s: Seq<usize>) -> bool {
    forall|i: int, j: int| 0 <= i < j < s.len() ==> s[i] < s[j]
}

/// The elements of `s` that lie in `set`, in the order of `s`.
pub open spec fn keep_in(s: Seq<usize>, set: Set<usize>) -> Seq<usize>
    decreases s.len(),
{
    if s.len() == 0 {
        Seq::empty()
    } else {
        keep_in(s.drop_last(), set) + if set.contains(s.last()) {
            seq![s.last()]
        } else {
            Seq::empty()
        }
    }
}

/// The indices 0..n in order.
pub open spec fn all_indices(n: int) -> Seq<usize> {
    Seq::new(n as nat, |i: int| i as usize)
}

/// The variable refers to cell (row, col): as its cell, or as either cell of an equality.
pub open spec fn touches(var: CnfVariable, row: int, col: int) -> bool {
    match var {
        CnfVariable::Decimal { row: r, col: c, .. } => r == row && c == col,
        CnfVariable::Bit { row: r, col: c, .. } => r == row && c == col,
        CnfVariable::Equality { row: r, col: c, row2, col2, .. } => (r == row && c == col) || (
        row2 == row && col2 == col),
    }
}

/// One of the first `j` literals of constraint `i` refers to cell (row, col).
pub open spec fn touched_upto(
    constraints: Seq<Seq<i32>>,
    encoding: EncodingType,
    i: int,
    j: int,
    row: int,
    col: int,
) -> bool {
    exists|jj: int|
        0 <= jj < j && jj < constraints[i].len() && #[trigger] touches(
            spec_from_cnf(constraints[i][jj] as int, encoding),
            row,
            col,
        )
}

/// Constraint `i` has a literal that refers to cell (row, col).
pub open spec fn constraint_touches(
    constraints: Seq<Seq<i32>>,
    encoding: EncodingType,
    i: int,
    row: int,
    col: int,
) -> bool {
    touched_upto(constraints, encoding, i, constraints[i].len() as int, row, col)
}

/// The indices of the constraints that refer to cell (row, col).
pub open spec fn constraints_of_cell(
    constraints: Seq<Seq<i32>>,
    encoding: EncodingType,
    row: int,
    col: int,
) -> Set<usize> {
    Set::new(
        |i: usize| i < constraints.len() && constraint_touches(constraints, encoding, i as int, row, col),
    )
}

/// The literals of the single-literal constraints among `indices`, in order.
pub open spec fn unit_literals(constraints: Seq<Seq<i32>>, indices: Seq<usize>) -> Seq<i32>
    decreases indices.len(),
{
    if indices.len() == 0 {
        Seq::empty()
    } else {
        unit_literals(constraints, indices.drop_last()) + if constraints[indices.last() as int].len()
            == 1 {
            seq![constraints[indices.last() as int][0]]
        } else {
            Seq::empty()
        }
    }
}

/// The row-major position of cell (row, col) of the grid.
pub open spec fn cell_slot(row: int, col: int) -> int {
    (row - 1) * 9 + (col - 1)
}

/// Struct for filtering the constraint list
pub struct ListFilter {
    constraints: ConstraintList,
    trails: Trail,
    length_filter: HashSet<usize>,
    cell_filter: HashSet<usize>,
    cell_constraints: Vec<HashSet<usize>>,
}

impl ListFilter {
    /// The filters hold valid constraint indices only; the cell map is either
    /// not built yet or has one index set per cell, of valid indices.
    pub closed spec fn wf(&self) -> bool {
        let n = self.constraints@.len();
        &&& n <= usize::MAX
        &&& forall|x: usize| #[trigger] self.length_filter@.contains(x) ==> x < n
        &&& forall|x: usize| #[trigger] self.cell_filter@.contains(x) ==> x < n
        &&& (self.cell_constraints@.len() == 0 || self.cell_constraints@.len() == 81)
        &&& forall|k: int, x: usize|
            0 <= k < self.cell_constraints@.len() && #[trigger] self.cell_constraints@[k]@.contains(x)
                ==> x < n
    }

    /// The constraints being filtered.
    pub closed spec fn constraints_view(&self) -> Seq<Seq<i32>> {
        self.constraints@
    }

    /// The trails that belong to the constraints, entry by entry.
    pub closed spec fn trails_view(&self) -> Trail {
        self.trails
    }

    /// The indices the length filter lets through.
    pub closed spec fn length_set(&self) -> Set<usize> {
        self.length_filter@
    }

    /// The indices the cell filter lets through.
    pub closed spec fn cell_set(&self) -> Set<usize> {
        self.cell_filter@
    }

    /// Whether the map from cells to constraints has been built.
    pub closed spec fn has_cell_map(&self) -> bool {
        self.cell_constraints@.len() == 81
    }

    /// For each cell of the grid (once built), the constraints that refer to it.
    pub closed spec fn cell_map(&self, row: int, col: int) -> Set<usize> {
        self.cell_constraints@[cell_slot(row, col)]@
    }

    /// The indices that pass both filters, ascending.
    pub closed spec fn filtered_indices(&self) -> Seq<usize> {
        keep_in(all_indices(self.constraints@.len() as int), self.length_set().intersect(self.cell_set()))
    }
}


/// The first and one-past-last positions of page `page_number` of `page_length`
/// rows in a list of `len` rows.
pub open spec fn page_bounds(len: int, page_number: int, page_length: int) -> (int, int) {
    let begin = if page_number * page_length < len { page_number * page_length } else { len };
    let stop = if (page_number + 1) * page_length < len { (page_number + 1) * page_length } else { len };
    (begin, stop)
}

/// `keep_in` of an ascending sequence is ascending and holds exactly the
/// elements of the sequence that lie in the set.
pub proof fn lemma_keep_in(s: Seq<usize>, set: Set<usize>)
    requires
        strictly_increasing(s),
    ensures
        strictly_increasing(keep_in(s, set)),
        forall|x: usize| keep_in(s, set).contains(x) <==> (s.contains(x) && set.contains(x)),
        forall|i: int| 0 <= i < keep_in(s, set).len() ==> s.contains(#[trigger] keep_in(s, set)[i]),
    decreases s.len(),
{
    if s.len() > 0 {
        let d = s.drop_last();
        assert(strictly_increasing(d));
        lemma_keep_in(d, set);
        let k = keep_in(d, set);
        assert forall|i: int| 0 <= i < k.len() implies #[trigger] k[i] < s.last() by {
            assert(d.contains(k[i]));
            let j = choose|j: int| 0 <= j < d.len() && d[j] == k[i];
            assert(s[j] == d[j]);
        }
        assert forall|x: usize| keep_in(s, set).contains(x) <==> (s.contains(x) && set.contains(x)) by {
            if s.contains(x) && set.contains(x) {
                let j = choose|j: int| 0 <= j < s.len() && s[j] == x;
                if j < s.len() - 1 {
                    assert(d[j] == x);
                    assert(k.contains(x));
                    let m = choose|m: int| 0 <= m < k.len() && k[m] == x;
                    assert(keep_in(s, set)[m] == x);
                } else {
                    assert(keep_in(s, set)[keep_in(s, set).len() - 1] == x);
                }
            }
            if keep_in(s, set).contains(x) {
                let m = choose|m: int| 0 <= m < keep_in(s, set).len() && keep_in(s, set)[m] == x;
                if m < k.len() {
                    assert(k[m] == x);
                    assert(k.contains(x));
                    let j = choose|j: int| 0 <= j < d.len() && d[j] == x;
                    assert(s[j] == x);
                } else {
                    assert(x == s.last());
                    assert(s[s.len() - 1] == x);
                }
            }
        }
        assert forall|i: int| 0 <= i < keep_in(s, set).len() implies s.contains(
            #[trigger] keep_in(s, set)[i],
        ) by {
            assert(keep_in(s, set).contains(keep_in(s, set)[i]));
        }
    }
}

/// The indices 0..n, as a set.
fn index_set(n: usize) -> (s: HashSet<usize>)
    ensures
        s@ == all_indices(n as int).to_set(),
{
    broadcast use vstd::std_specs::hash::group_hash_axioms;

    let mut s: HashSet<usize> = HashSet::new();
    let mut i: usize = 0;
    while i < n
        invariant
            i <= n,
            s@ == Set::new(|x: usize| x < i),
        decreases n - i,
    {
        s.insert(i);
        assert(s@ =~= Set::new(|x: usize| x < i + 1));
        i += 1;
    }
    proof {
        lemma_all_indices(n as int);
        assert forall|x: usize| #[trigger] s@.contains(x) <==> all_indices(n as int).to_set().contains(x) by {
            if x < n {
                assert(all_indices(n as int)[x as int] == x);
            }
        }
        assert(s@ =~= all_indices(n as int).to_set());
    }
    s
}

proof fn lemma_all_indices(n: int)
    requires
        0 <= n <= usize::MAX,
    ensures
        strictly_increasing(all_indices(n)),
        forall|i: int| 0 <= i < n ==> #[trigger] all_indices(n)[i] == i,
        forall|x: usize| #[trigger] all_indices(n).contains(x) <==> x < n,
{
    assert forall|x: usize| #[trigger] all_indices(n).contains(x) <==> x < n by {
        if x < n {
            assert(all_indices(n)[x as int] == x);
        }
    }
}

impl ListFilter {
    pub fn new(constraints: ConstraintList, trails: Trail) -> (filter: Self)
        ensures
            filter.constraints_view() == constraints@,
            filter.trails_view() == trails,
            filter.length_set() == all_indices(constraints@.len() as int).to_set(),
            filter.cell_set() == all_indices(constraints@.len() as int).to_set(),
            filter.filtered_indices() == all_indices(constraints@.len() as int),
            !filter.has_cell_map(),
            filter.wf(),
    {
        let n = constraints.len();
        let length_filter = index_set(n);
        let cell_filter = index_set(n);
        proof {
            lemma_all_indices(n as int);
        }
        let filter = Self {
            constraints,
            trails,
            length_filter,
            cell_filter,
            cell_constraints: Vec::new(),
        };
        proof {
            let a = all_indices(n as int);
            let both = filter.length_set().intersect(filter.cell_set());
            lemma_keep_in(a, both);
            let k = filter.filtered_indices();
            assert forall|x: usize| k.contains(x) <==> a.contains(x) by {
                if a.contains(x) {
                    assert(a.to_set().contains(x));
                }
            }
            lemma_sorted_same_elements(k, a);
        }
        filter
    }

    /// The indices that pass both filters, ascending.
    pub fn get_filtered_index_list(&self) -> (index_list: Vec<usize>)
        requires
            self.wf(),
        ensures
            index_list@ == self.filtered_indices(),
    {
        broadcast use vstd::std_specs::hash::group_hash_axioms;

        let ghost both = self.length_set().intersect(self.cell_set());
        let n = self.constraints.len();
        let mut index_list: Vec<usize> = Vec::new();
        let mut i: usize = 0;
        while i < n
            invariant
                i <= n,
                n == self.constraints@.len(),
                both == self.length_set().intersect(self.cell_set()),
                index_list@ == keep_in(all_indices(i as int), both),
            decreases n - i,
        {
            let keep = self.length_filter.contains(&i) && self.cell_filter.contains(&i);
            assert(all_indices(i + 1).drop_last() =~= all_indices(i as int));
            if keep {
                index_list.push(i);
            }
            assert(index_list@ =~= keep_in(all_indices(i + 1), both));
            i += 1;
        }
        index_list
    }
}

/// Two ascending sequences with the same elements are equal.
pub proof fn lemma_sorted_same_elements(a: Seq<usize>, b: Seq<usize>)
    requires
        strictly_increasing(a),
        strictly_increasing(b),
        forall|x: usize| a.contains(x) <==> b.contains(x),
    ensures
        a == b,
    decreases a.len() + b.len(),
{
    if a.len() == 0 {
        if b.len() > 0 {
            assert(b.contains(b[0]));
        }
        assert(a =~= b);
    } else if b.len() == 0 {
        assert(a.contains(a[0]));
    } else {
        // The largest elements agree; the rest follows by induction.
        assert(a.contains(a.last()));
        assert(b.contains(b.last()));
        let ja = choose|j: int| 0 <= j < a.len() && a[j] == b.last();
        let jb = choose|j: int| 0 <= j < b.len() && b[j] == a.last();
        assert(a.last() == b.last());
        let da = a.drop_last();
        let db = b.drop_last();
        assert forall|x: usize| da.contains(x) <==> db.contains(x) by {
            if da.contains(x) {
                let j = choose|j: int| 0 <= j < da.len() && da[j] == x;
                assert(a.contains(x));
                assert(x < a.last());
                let m = choose|m: int| 0 <= m < b.len() && b[m] == x;
                assert(m != b.len() - 1);
                assert(db[m] == x);
            }
            if db.contains(x) {
                let j = choose|j: int| 0 <= j < db.len() && db[j] == x;
                assert(b.contains(x));
                assert(x < b.last());
                let m = choose|m: int| 0 <= m < a.len() && a[m] == x;
                assert(m != a.len() - 1);
                assert(da[m] == x);
            }
        }
        lemma_sorted_same_elements(da, db);
        assert(a =~= da.push(a.last()));
        assert(b =~= db.push(b.last()));
    }
}


impl ListFilter {
    /// Every index shown on page `page_number` has an entry in both trail lists.
    pub open spec fn trails_cover(&self, page_number: int, page_length: int) -> bool {
        let idx = self.filtered_indices();
        let (begin, stop) = page_bounds(idx.len() as int, page_number, page_length);
        forall|k: int|
            begin <= k < stop ==> (#[trigger] idx[k]) < self.trails_view().conflict_literals@.len()
                && idx[k] < self.trails_view().trail@.len()
    }

    /// The filtered indices are ascending and are exactly the constraint
    /// indices that pass both the length filter and the cell filter.
    pub proof fn lemma_filtered_indices(&self)
        requires
            self.wf(),
        ensures
            strictly_increasing(self.filtered_indices()),
            forall|x: usize|
                self.filtered_indices().contains(x) <==> (self.length_set().contains(x)
                    && self.cell_set().contains(x)),
            forall|k: int|
                0 <= k < self.filtered_indices().len() ==> #[trigger] self.filtered_indices()[k]
                    < self.constraints_view().len(),
    {
        let n = self.constraints@.len() as int;
        let a = all_indices(n);
        let both = self.length_set().intersect(self.cell_set());
        lemma_all_indices(n);
        lemma_keep_in(a, both);
        assert forall|x: usize|
            self.filtered_indices().contains(x) <==> (self.length_set().contains(x)
                && self.cell_set().contains(x)) by {
            if self.length_set().contains(x) {
                assert(x < n);
                assert(a.contains(x));
            }
        }
        assert forall|k: int| 0 <= k < self.filtered_indices().len() implies #[trigger] self.filtered_indices()[k]
            < self.constraints_view().len() by {
            let x = self.filtered_indices()[k];
            assert(a.contains(x));
        }
    }

    /// Get the filtered and paged constraints and trails
    pub fn get_filtered(&mut self, page_number: usize, page_length: usize) -> (r: (
        Vec<Vec<i32>>,
        Trail,
        usize,
    ))
        requires
            old(self).wf(),
            page_number < usize::MAX,
            (page_number + 1) * page_length <= usize::MAX,
            old(self).trails_cover(page_number as int, page_length as int),
        ensures
            *final(self) == *old(self),
            ({
                let idx = old(self).filtered_indices();
                let (begin, stop) = page_bounds(idx.len() as int, page_number as int, page_length as int);
                let t = old(self).trails_view();
                &&& r.2 == idx.len()
                &&& r.0.deep_view() == Seq::new(
                    (stop - begin) as nat,
                    |k: int| old(self).constraints_view()[idx[begin + k] as int],
                )
                &&& r.1.conflict_literals.deep_view() == Seq::new(
                    (stop - begin) as nat,
                    |k: int| t.conflict_literals.deep_view()[idx[begin + k] as int],
                )
                &&& r.1.trail.deep_view() == Seq::new(
                    (stop - begin) as nat,
                    |k: int| t.trail.deep_view()[idx[begin + k] as int],
                )
            }),
    {
        proof {
            self.lemma_filtered_indices();
        }
        let index_list = self.get_filtered_index_list();
        let filtered_length = index_list.len();
        let ghost idx = index_list@;
        let ghost cons = self.constraints@;
        assert(page_number * page_length <= (page_number + 1) * page_length) by (nonlinear_arith);
        let first = page_number * page_length;
        let last = (page_number + 1) * page_length;
        let begin: usize = if first < filtered_length { first } else { filtered_length };
        let stop: usize = if last < filtered_length { last } else { filtered_length };
        assert(begin <= stop) by (nonlinear_arith)
            requires
                first == page_number * page_length,
                last == (page_number + 1) * page_length,
                begin == if first < filtered_length { first } else { filtered_length },
                stop == if last < filtered_length { last } else { filtered_length },
        ;
        let constraints = self.constraints.borrow();
        let mut final_list: Vec<Vec<i32>> = Vec::new();
        let mut final_trail = Trail::new();
        let mut k: usize = begin;
        while k < stop
            invariant
                begin <= k <= stop,
                stop <= idx.len(),
                index_list@ == idx,
                idx == self.filtered_indices(),
                cons == self.constraints@,
                constraints.deep_view() == cons,
                forall|m: int| 0 <= m < idx.len() ==> #[trigger] idx[m] < cons.len(),
                forall|m: int|
                    begin <= m < stop ==> (#[trigger] idx[m]) < self.trails.conflict_literals@.len()
                        && idx[m] < self.trails.trail@.len(),
                final_list.deep_view() == Seq::new(
                    (k - begin) as nat,
                    |m: int| cons[idx[begin + m] as int],
                ),
                final_trail.conflict_literals.deep_view() == Seq::new(
                    (k - begin) as nat,
                    |m: int| self.trails.conflict_literals.deep_view()[idx[begin + m] as int],
                ),
                final_trail.trail.deep_view() == Seq::new(
                    (k - begin) as nat,
                    |m: int| self.trails.trail.deep_view()[idx[begin + m] as int],
                ),
            decreases stop - k,
        {
            let index = index_list[k];
            assert(index == idx[k as int]);
            let c = copy_clause(&constraints[index]);
            let ghost before = final_list.deep_view();
            crate::seq_util::push_clause(&mut final_list, c);
            assert(final_list.deep_view() =~= Seq::new(
                (k + 1 - begin) as nat,
                |m: int| cons[idx[begin + m] as int],
            )) by {
                assert(constraints.deep_view()[index as int] == constraints@[index as int]@);
            }
            let lits = self.trails.literals_at_index(index);
            let tr = self.trails.trail_at_index(index);
            let ghost cb = final_trail.conflict_literals.deep_view();
            let ghost tb = final_trail.trail.deep_view();
            proof {
                lemma_int_vec_deep_view(self.trails.conflict_literals@[index as int]);
                lemma_int_vec_deep_view(self.trails.trail@[index as int]);
            }
            final_trail.push(lits, tr);
            assert(final_trail.conflict_literals.deep_view() =~= Seq::new(
                (k + 1 - begin) as nat,
                |m: int| self.trails.conflict_literals.deep_view()[idx[begin + m] as int],
            ));
            assert(final_trail.trail.deep_view() =~= Seq::new(
                (k + 1 - begin) as nat,
                |m: int| self.trails.trail.deep_view()[idx[begin + m] as int],
            ));
            k += 1;
        }
        (final_list, final_trail, filtered_length)
    }
}


/// The constraints among the first `index` (and, for constraint `index`, its
/// first `j` literals) that refer to cell (row, col).
pub open spec fn cell_set_upto(
    constraints: Seq<Seq<i32>>,
    encoding: EncodingType,
    index: int,
    j: int,
    row: int,
    col: int,
) -> Set<usize> {
    Set::new(
        |i: usize|
            (i < index && constraint_touches(constraints, encoding, i as int, row, col)) || (i == index
                && touched_upto(constraints, encoding, index, j, row, col)),
    )
}

proof fn lemma_touched_upto_step(
    constraints: Seq<Seq<i32>>,
    encoding: EncodingType,
    i: int,
    j: int,
    row: int,
    col: int,
)
    requires
        0 <= j < constraints[i].len(),
    ensures
        touched_upto(constraints, encoding, i, j + 1, row, col) == (touched_upto(
            constraints,
            encoding,
            i,
            j,
            row,
            col,
        ) || touches(spec_from_cnf(constraints[i][j] as int, encoding), row, col)),
{
    if touched_upto(constraints, encoding, i, j + 1, row, col) {
        let jj = choose|jj: int|
            0 <= jj < j + 1 && jj < constraints[i].len() && #[trigger] touches(
                spec_from_cnf(constraints[i][jj] as int, encoding),
                row,
                col,
            );
        if jj < j {
            assert(touched_upto(constraints, encoding, i, j, row, col));
        }
    }
    if touched_upto(constraints, encoding, i, j, row, col) {
        let jj = choose|jj: int|
            0 <= jj < j && jj < constraints[i].len() && #[trigger] touches(
                spec_from_cnf(constraints[i][jj] as int, encoding),
                row,
                col,
            );
        assert(touched_upto(constraints, encoding, i, j + 1, row, col));
    }
}

/// The cell map under construction: 81 index sets, all below `bound`.
pub open spec fn cells_wf(cells: Seq<HashSet<usize>>, bound: int) -> bool {
    &&& cells.len() == 81
    &&& forall|k: int, x: usize| 0 <= k < 81 && #[trigger] cells[k]@.contains(x) ==> x < bound
}

/// Adds constraint `index` to the set of cell (row, col), if that is a cell of the grid.
fn add_to_cell(cells: &mut Vec<HashSet<usize>>, row: i32, col: i32, index: usize)
    requires
        cells_wf(old(cells)@, index + 1),
    ensures
        cells_wf(final(cells)@, index + 1),
        forall|k: int|
            0 <= k < 81 ==> (#[trigger] final(cells)@[k])@ == if 1 <= row <= 9 && 1 <= col <= 9 && k
                == cell_slot(row as int, col as int) {
                old(cells)@[k]@.insert(index)
            } else {
                old(cells)@[k]@
            },
{
    broadcast use vstd::std_specs::hash::group_hash_axioms;

    if 1 <= row && row <= 9 && 1 <= col && col <= 9 {
        let slot = ((row - 1) * 9 + (col - 1)) as usize;
        cells[slot].insert(index);
    }
}

impl ListFilter {
    /// Kept in case there is a need to reinit more things in future
    pub fn reinit(&mut self, encoding: &EncodingType)
        requires
            old(self).wf(),
            no_min_literal(old(self).constraints_view()),
        ensures
            final(self).wf(),
            final(self).has_cell_map(),
            forall|row: int, col: int|
                1 <= row <= 9 && 1 <= col <= 9 ==> #[trigger] final(self).cell_map(row, col)
                    == constraints_of_cell(old(self).constraints_view(), *encoding, row, col),
            final(self).constraints_view() == old(self).constraints_view(),
            final(self).trails_view() == old(self).trails_view(),
            final(self).length_set() == old(self).length_set(),
            final(self).cell_set() == old(self).cell_set(),
            final(self).filtered_indices() == old(self).filtered_indices(),
    {
        self.create_cell_map(encoding);
    }

    /// Create map for which constraints apply to each cell
    fn create_cell_map(&mut self, encoding: &EncodingType)
        requires
            old(self).wf(),
            no_min_literal(old(self).constraints_view()),
        ensures
            final(self).wf(),
            final(self).has_cell_map(),
            forall|row: int, col: int|
                1 <= row <= 9 && 1 <= col <= 9 ==> #[trigger] final(self).cell_map(row, col)
                    == constraints_of_cell(old(self).constraints_view(), *encoding, row, col),
            final(self).constraints == old(self).constraints,
            final(self).trails == old(self).trails,
            final(self).length_filter == old(self).length_filter,
            final(self).cell_filter == old(self).cell_filter,
    {
        let mut cells: Vec<HashSet<usize>> = Vec::new();
        let mut k: usize = 0;
        while k < 81
            invariant
                k <= 81,
                cells@.len() == k,
                forall|m: int| 0 <= m < k ==> (#[trigger] cells@[m])@ == Set::<usize>::empty(),
            decreases 81 - k,
        {
            cells.push(HashSet::new());
            k += 1;
        }
        let ghost cons = self.constraints@;
        let constraints = self.constraints.borrow();
        assert forall|m: int| 0 <= m < 81 implies (#[trigger] cells@[m])@ == cell_set_upto(
            cons,
            *encoding,
            0,
            0,
            m / 9 + 1,
            m % 9 + 1,
        ) by {
            assert(cells@[m]@ =~= cell_set_upto(cons, *encoding, 0, 0, m / 9 + 1, m % 9 + 1));
        }
        let mut index: usize = 0;
        while index < constraints.len()
            invariant
                index <= cons.len(),
                constraints.deep_view() == cons,
                no_min_literal(cons),
                cells_wf(cells@, index as int),
                forall|m: int| 0 <= m < 81 ==> (#[trigger] cells@[m])@ == cell_set_upto(
                    cons,
                    *encoding,
                    index as int,
                    0,
                    m / 9 + 1,
                    m % 9 + 1,
                ),
            decreases cons.len() - index,
        {
            let list = &constraints[index];
            assert(list@ == cons[index as int]);
            let mut j: usize = 0;
            while j < list.len()
                invariant
                    index < cons.len(),
                    list@ == cons[index as int],
                    j <= list@.len(),
                    no_min_literal(cons),
                    cells_wf(cells@, index + 1),
                    forall|m: int| 0 <= m < 81 ==> (#[trigger] cells@[m])@ == cell_set_upto(
                        cons,
                        *encoding,
                        index as int,
                        j as int,
                        m / 9 + 1,
                        m % 9 + 1,
                    ),
                decreases list@.len() - j,
            {
                assert(cons[index as int][j as int] != i32::MIN);
                let var = CnfVariable::from_cnf(list[j], encoding);
                let ghost before = cells@;
                match var {
                    CnfVariable::Bit { row, col, .. } => {
                        add_to_cell(&mut cells, row, col, index);
                    },
                    CnfVariable::Decimal { row, col, .. } => {
                        add_to_cell(&mut cells, row, col, index);
                    },
                    CnfVariable::Equality { row, col, row2, col2, .. } => {
                        add_to_cell(&mut cells, row, col, index);
                        add_to_cell(&mut cells, row2, col2, index);
                    },
                }
                proof {
                    assert forall|m: int| 0 <= m < 81 implies (#[trigger] cells@[m])@
                        == cell_set_upto(cons, *encoding, index as int, j + 1, m / 9 + 1, m % 9 + 1) by {
                        let r = m / 9 + 1;
                        let c = m % 9 + 1;
                        lemma_touched_upto_step(cons, *encoding, index as int, j as int, r, c);
                        assert(cell_slot(r, c) == m);
                        assert forall|rr: int, cc: int|
                            1 <= rr <= 9 && 1 <= cc <= 9 && cell_slot(rr, cc) == m implies rr == r && cc
                            == c by {
                        }
                        assert(cells@[m]@ =~= cell_set_upto(
                            cons,
                            *encoding,
                            index as int,
                            j + 1,
                            r,
                            c,
                        ));
                    }
                }
                j += 1;
            }
            proof {
                assert forall|m: int| 0 <= m < 81 implies (#[trigger] cells@[m])@
                    == cell_set_upto(cons, *encoding, index + 1, 0, m / 9 + 1, m % 9 + 1) by {
                    assert(cells@[m]@ =~= cell_set_upto(
                        cons,
                        *encoding,
                        index + 1,
                        0,
                        m / 9 + 1,
                        m % 9 + 1,
                    ));
                }
            }
            index += 1;
        }
        self.cell_constraints = cells;
        proof {
            assert forall|row: int, col: int|
                1 <= row <= 9 && 1 <= col <= 9 implies #[trigger] self.cell_map(row, col)
                == constraints_of_cell(cons, *encoding, row, col) by {
                let m = cell_slot(row, col);
                assert(m / 9 + 1 == row && m % 9 + 1 == col);
                assert(self.cell_map(row, col) =~= constraints_of_cell(cons, *encoding, row, col));
            }
        }
    }
}


impl ListFilter {
    /// Filters the constraints by the given max_length.
    pub fn by_max_length(&mut self, max_length: i32)
        requires
            old(self).wf(),
        ensures
            final(self).wf(),
            final(self).length_set() == Set::new(
                |i: usize|
                    i < old(self).constraints_view().len() && (old(self).constraints_view()[i as int].len() as i32)
                        <= max_length,
            ),
            final(self).constraints_view() == old(self).constraints_view(),
            final(self).trails_view() == old(self).trails_view(),
            final(self).cell_set() == old(self).cell_set(),
            final(self).has_cell_map() == old(self).has_cell_map(),
            forall|row: int, col: int| #[trigger]
                final(self).cell_map(row, col) == old(self).cell_map(row, col),
    {
        broadcast use vstd::std_specs::hash::group_hash_axioms;

        let ghost cons = self.constraints@;
        let constraints = self.constraints.borrow();
        let mut filter_set: HashSet<usize> = HashSet::new();
        let mut index: usize = 0;
        while index < constraints.len()
            invariant
                index <= cons.len(),
                constraints.deep_view() == cons,
                filter_set@ == Set::new(
                    |i: usize| i < index && (cons[i as int].len() as i32) <= max_length,
                ),
            decreases cons.len() - index,
        {
            assert(constraints[index as int]@.len() == cons[index as int].len());
            if constraints[index].len() as i32 <= max_length {
                filter_set.insert(index);
            }
            assert(filter_set@ =~= Set::new(
                |i: usize| i < index + 1 && (cons[i as int].len() as i32) <= max_length,
            ));
            index += 1;
        }
        self.length_filter = filter_set;
    }

    /// Filters the constraints by cell clicked through GUI; nothing changes for
    /// a cell outside the grid or before the cell map is built.
    pub fn by_cell(&mut self, row: i32, col: i32)
        requires
            old(self).wf(),
        ensures
            final(self).wf(),
            final(self).cell_set() == if old(self).has_cell_map() && 1 <= row <= 9 && 1 <= col <= 9 {
                old(self).cell_map(row as int, col as int)
            } else {
                old(self).cell_set()
            },
            final(self).constraints_view() == old(self).constraints_view(),
            final(self).trails_view() == old(self).trails_view(),
            final(self).length_set() == old(self).length_set(),
            final(self).has_cell_map() == old(self).has_cell_map(),
            forall|r: int, c: int| #[trigger]
                final(self).cell_map(r, c) == old(self).cell_map(r, c),
    {
        broadcast use vstd::std_specs::hash::group_hash_axioms;

        if self.cell_constraints.len() == 81 && 1 <= row && row <= 9 && 1 <= col && col <= 9 {
            let slot = ((row - 1) * 9 + (col - 1)) as usize;
            let ghost cell = self.cell_constraints@[slot as int]@;
            let n = self.constraints.len();
            let mut copy: HashSet<usize> = HashSet::new();
            let mut i: usize = 0;
            while i < n
                invariant
                    i <= n,
                    slot < self.cell_constraints@.len(),
                    cell == self.cell_constraints@[slot as int]@,
                    copy@ == Set::new(|x: usize| x < i && cell.contains(x)),
                decreases n - i,
            {
                if self.cell_constraints[slot].contains(&i) {
                    copy.insert(i);
                }
                assert(copy@ =~= Set::new(|x: usize| x < i + 1 && cell.contains(x)));
                i += 1;
            }
            assert(copy@ =~= cell);
            self.cell_filter = copy;
        }
    }

    pub fn clear_length(&mut self)
        requires
            old(self).wf(),
        ensures
            final(self).wf(),
            final(self).length_set() == all_indices(old(self).constraints_view().len() as int).to_set(),
            final(self).constraints_view() == old(self).constraints_view(),
            final(self).trails_view() == old(self).trails_view(),
            final(self).cell_set() == old(self).cell_set(),
            final(self).has_cell_map() == old(self).has_cell_map(),
            forall|r: int, c: int| #[trigger]
                final(self).cell_map(r, c) == old(self).cell_map(r, c),
    {
        let n = self.constraints.len();
        self.length_filter = index_set(n);
    }

    pub fn clear_cell(&mut self)
        requires
            old(self).wf(),
        ensures
            final(self).wf(),
            final(self).cell_set() == all_indices(old(self).constraints_view().len() as int).to_set(),
            final(self).constraints_view() == old(self).constraints_view(),
            final(self).trails_view() == old(self).trails_view(),
            final(self).length_set() == old(self).length_set(),
            final(self).has_cell_map() == old(self).has_cell_map(),
            forall|r: int, c: int| #[trigger]
                final(self).cell_map(r, c) == old(self).cell_map(r, c),
    {
        let n = self.constraints.len();
        self.cell_filter = index_set(n);
    }

    /// Get constraints that should be visualized in the sudoku, meaning all constraint literals
    /// that are on the current or earlier pages.
    pub fn get_little_number_constraints(&self, page_number: usize, page_length: usize) -> (r: Vec<
        i32,
    >)
        requires
            self.wf(),
            page_number < usize::MAX,
            (page_number + 1) * page_length <= usize::MAX,
        ensures
            ({
                let idx = self.filtered_indices();
                let (_, stop) = page_bounds(idx.len() as int, page_number as int, page_length as int);
                r@ == unit_literals(self.constraints_view(), idx.take(stop))
            }),
    {
        proof {
            self.lemma_filtered_indices();
        }
        let all_filtered_indexes = self.get_filtered_index_list();
        let ghost idx = all_filtered_indexes@;
        let last = (page_number + 1) * page_length;
        let stop: usize = if last < all_filtered_indexes.len() {
            last
        } else {
            all_filtered_indexes.len()
        };
        let all_constraints = self.constraints.borrow();
        let ghost cons = self.constraints@;
        let mut little_number_constraints: Vec<i32> = Vec::new();
        let mut k: usize = 0;
        while k < stop
            invariant
                k <= stop,
                stop <= idx.len(),
                all_filtered_indexes@ == idx,
                all_constraints.deep_view() == cons,
                forall|m: int| 0 <= m < idx.len() ==> #[trigger] idx[m] < cons.len(),
                little_number_constraints@ == unit_literals(cons, idx.take(k as int)),
            decreases stop - k,
        {
            let index = all_filtered_indexes[k];
            assert(idx.take(k + 1).drop_last() =~= idx.take(k as int));
            assert(all_constraints[index as int]@ == cons[index as int]) by {
                lemma_int_vec_deep_view(all_constraints@[index as int]);
            }
            if all_constraints[index].len() == 1 {
                little_number_constraints.push(all_constraints[index][0]);
            }
            assert(little_number_constraints@ =~= unit_literals(cons, idx.take(k + 1)));
            k += 1;
        }
        little_number_constraints
    }
}

/// A constraint belongs to the constraint set of every cell any of its
/// literals mentions: the cell of a decimal or bit variable, and both cells of
/// an equality variable, the second one as much as the first.
pub proof fn lemma_cells_of_a_literal(
    constraints: Seq<Seq<i32>>,
    encoding: EncodingType,
    i: usize,
    j: int,
    row: i32,
    col: i32,
)
    requires
        i < constraints.len(),
        0 <= j < constraints[i as int].len(),
        ({
            let var = spec_from_cnf(constraints[i as int][j] as int, encoding);
            ||| var matches CnfVariable::Decimal { row: r, col: c, .. } && r == row && c == col
            ||| var matches CnfVariable::Bit { row: r, col: c, .. } && r == row && c == col
            ||| var matches CnfVariable::Equality { row: r, col: c, .. } && r == row && c == col
            ||| var matches CnfVariable::Equality { row2: r, col2: c, .. } && r == row && c == col
        }),
    ensures
        constraints_of_cell(constraints, encoding, row as int, col as int).contains(i),
{
    assert(touches(spec_from_cnf(constraints[i as int][j] as int, encoding), row as int, col as int));
    assert(constraint_touches(constraints, encoding, i as int, row as int, col as int));
}

/// A constraint belongs to the constraint set of a cell only when one of its
/// literals mentions that cell, as the cell of a decimal or bit variable or
/// as either cell of an equality variable.
pub proof fn lemma_cell_set_only_mentioning(
    constraints: Seq<Seq<i32>>,
    encoding: EncodingType,
    i: usize,
    row: int,
    col: int,
)
    requires
        constraints_of_cell(constraints, encoding, row, col).contains(i),
    ensures
        i < constraints.len(),
        exists|j: int|
            0 <= j < constraints[i as int].len() && {
                let var = #[trigger] spec_from_cnf(constraints[i as int][j] as int, encoding);
                ||| var matches CnfVariable::Decimal { row: r, col: c, .. } && r == row && c == col
                ||| var matches CnfVariable::Bit { row: r, col: c, .. } && r == row && c == col
                ||| var matches CnfVariable::Equality { row: r, col: c, .. } && r == row && c == col
                ||| var matches CnfVariable::Equality { row2: r, col2: c, .. } && r == row && c
                    == col
            },
{
    let j = choose|jj: int|
        0 <= jj < constraints[i as int].len() && #[trigger] touches(
            spec_from_cnf(constraints[i as int][jj] as int, encoding),
            row,
            col,
        );
    let var = spec_from_cnf(constraints[i as int][j] as int, encoding);
    assert(touches(var, row, col));
}

} // verus!
