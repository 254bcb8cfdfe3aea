//! Sudoku as a SAT problem: CNF encodings of sudoku, the learned constraints
//! and trails reported by the solver, and the filtering and paging state used
//! to browse them.

pub mod app_state;
pub mod binary_cnf;
pub mod cadical_wrapper;
pub mod cnf;
pub mod cnf_converter;
pub mod ctrl_obj;
pub mod error;
pub mod filtering;
pub mod grid_view;
pub mod labels;
pub mod little_symbols;
pub mod numeric_input;
pub mod seq_util;
pub mod session;
pub mod solution;
pub mod sudoku;
pub mod warning;

use vstd::prelude::*;
use crate::app_state::EncodingType;
use crate::cnf::{spec_from_cnf, CnfVariable};
use crate::seq_util::{copy_clause, copy_clauses, push_clause};

pub use crate::numeric_input::parse_numeric_input;

verus! {

/// ConstraintList stores the learned cnf clauses, in the order they were learned.
#[derive(Clone)]
pub struct ConstraintList {
    constraints: Vec<Vec<i32>>,
}

impl View for ConstraintList {
    type V = Seq<Seq<i32>>;

    closed spec fn view(&self) -> Seq<Seq<i32>> {
        self.constraints.deep_view()
    }
}

impl ConstraintList {
    pub fn new() -> (list: Self)
        ensures
            list@ == Seq::<Seq<i32>>::empty(),
    {
        let list = Self { constraints: Vec::new() };
        assert(list@ =~= Seq::<Seq<i32>>::empty());
        list
    }

    /// A list holding the given constraints.
    pub fn _new(constraints: Vec<Vec<i32>>) -> (list: Self)
        ensures
            list@ == constraints.deep_view(),
    {
        Self { constraints }
    }

    pub fn clone_constraints(&self) -> (constraints: Vec<Vec<i32>>)
        ensures
            constraints.deep_view() == self@,
    {
        copy_clauses(&self.constraints)
    }

    pub fn push(&mut self, constraint: Vec<i32>)
        ensures
            final(self)@ == old(self)@.push(constraint@),
    {
        push_clause(&mut self.constraints, constraint);
    }

    pub fn clear(&mut self)
        ensures
            final(self)@ == Seq::<Seq<i32>>::empty(),
    {
        self.constraints.clear();
        assert(self@ =~= Seq::<Seq<i32>>::empty());
    }

    pub fn len(&self) -> (n: usize)
        ensures
            n == self@.len(),
    {
        self.constraints.len()
    }

    pub fn is_empty(&self) -> (b: bool)
        ensures
            b == (self@.len() == 0),
    {
        self.constraints.len() == 0
    }

    /// The stored constraints.
    pub fn borrow(&self) -> (constraints: &Vec<Vec<i32>>)
        ensures
            constraints.deep_view() == self@,
    {
        &self.constraints
    }
}

impl Default for ConstraintList {
    fn default() -> (list: Self)
        ensures
            list@ == Seq::<Seq<i32>>::empty(),
    {
        Self::new()
    }
}

/// Datastructure to hold conflict literals and trail data: entry `i` of both
/// lists belongs to the `i`-th reported conflict.
#[derive(Clone)]
pub struct Trail {
    pub conflict_literals: Vec<Vec<i32>>,
    pub trail: Vec<Vec<i32>>,
}

/// The variables of a list of literal lists under an encoding.
pub open spec fn spec_as_cnf(literals: Seq<Seq<i32>>, encoding: EncodingType) -> Seq<Seq<CnfVariable>> {
    Seq::new(
        literals.len(),
        |i: int| Seq::new(literals[i].len(), |j: int| spec_from_cnf(literals[i][j] as int, encoding)),
    )
}

/// No literal is `i32::MIN`, whose absolute value does not fit in an `i32`.
pub open spec fn no_min_literal(literals: Seq<Seq<i32>>) -> bool {
    forall|i: int, j: int|
        0 <= i < literals.len() && 0 <= j < literals[i].len() ==> #[trigger] literals[i][j]
            != i32::MIN
}

/// Reads every literal of a list of literal lists as a variable of the encoding.
pub fn literals_as_cnf(literals: &Vec<Vec<i32>>, encoding: &EncodingType) -> (vars: Vec<Vec<CnfVariable>>)
    requires
        no_min_literal(literals.deep_view()),
    ensures
        vars.deep_view() == spec_as_cnf(literals.deep_view(), *encoding),
{
    let mut vars: Vec<Vec<CnfVariable>> = Vec::new();
    let ghost lits = literals.deep_view();
    let mut i: usize = 0;
    while i < literals.len()
        invariant
            lits == literals.deep_view(),
            no_min_literal(lits),
            i <= lits.len(),
            vars.deep_view() == spec_as_cnf(lits, *encoding).subrange(0, i as int),
        decreases lits.len() - i,
    {
        let conflict = &literals[i];
        let mut row: Vec<CnfVariable> = Vec::new();
        let mut j: usize = 0;
        while j < conflict.len()
            invariant
                lits == literals.deep_view(),
                no_min_literal(lits),
                i < lits.len(),
                conflict@ == lits[i as int],
                j <= conflict@.len(),
                row.deep_view() == spec_as_cnf(lits, *encoding)[i as int].subrange(0, j as int),
            decreases conflict@.len() - j,
        {
            assert(lits[i as int][j as int] == conflict@[j as int]);
            let v = CnfVariable::from_cnf(conflict[j], encoding);
            assert(spec_as_cnf(lits, *encoding)[i as int][j as int] == spec_from_cnf(
                lits[i as int][j as int] as int,
                *encoding,
            ));
            let ghost before_row = row.deep_view();
            row.push(v);
            assert(row.deep_view() =~= before_row.push(v));
            assert(row.deep_view() =~= spec_as_cnf(lits, *encoding)[i as int].subrange(0, j + 1));
            j += 1;
        }
        assert(row.deep_view() =~= spec_as_cnf(lits, *encoding)[i as int]);
        let ghost before = vars.deep_view();
        vars.push(row);
        assert(vars.deep_view() =~= spec_as_cnf(lits, *encoding).subrange(0, i + 1)) by {
            assert(vars.deep_view() =~= before.push(spec_as_cnf(lits, *encoding)[i as int]));
        }
        i += 1;
    }
    assert(spec_as_cnf(lits, *encoding).subrange(0, lits.len() as int) =~= spec_as_cnf(
        lits,
        *encoding,
    ));
    vars
}

/// Reads every literal of a list as a variable of the encoding.
pub fn literal_list_as_cnf(literals: &Vec<i32>, encoding: &EncodingType) -> (vars: Vec<CnfVariable>)
    requires
        forall|j: int| 0 <= j < literals@.len() ==> #[trigger] literals@[j] != i32::MIN,
    ensures
        vars@ == Seq::new(literals@.len(), |j: int| spec_from_cnf(literals@[j] as int, *encoding)),
{
    let mut vars: Vec<CnfVariable> = Vec::new();
    let mut j: usize = 0;
    while j < literals.len()
        invariant
            forall|j: int| 0 <= j < literals@.len() ==> #[trigger] literals@[j] != i32::MIN,
            j <= literals@.len(),
            vars@ == Seq::new(j as nat, |k: int| spec_from_cnf(literals@[k] as int, *encoding)),
        decreases literals@.len() - j,
    {
        let v = CnfVariable::from_cnf(literals[j], encoding);
        vars.push(v);
        assert(vars@ =~= Seq::new((j + 1) as nat, |k: int| spec_from_cnf(literals@[k] as int, *encoding)));
        j += 1;
    }
    vars
}

impl Trail {
    pub fn new() -> (t: Self)
        ensures
            t.conflict_literals@.len() == 0,
            t.trail@.len() == 0,
    {
        Self { conflict_literals: Vec::new(), trail: Vec::new() }
    }

    /// The conflict literals of every entry, as CNF variables of the encoding.
    pub fn as_cnf(&mut self, encoding: &EncodingType) -> (vars: Vec<Vec<CnfVariable>>)
        requires
            no_min_literal(old(self).conflict_literals.deep_view()),
        ensures
            *final(self) == *old(self),
            vars.deep_view() == spec_as_cnf(old(self).conflict_literals.deep_view(), *encoding),
    {
        literals_as_cnf(&self.conflict_literals, encoding)
    }

    pub fn push(&mut self, conflict_literals: Vec<i32>, trail: Vec<i32>)
        ensures
            final(self).conflict_literals.deep_view() == old(self).conflict_literals.deep_view().push(
                conflict_literals@,
            ),
            final(self).trail.deep_view() == old(self).trail.deep_view().push(trail@),
    {
        push_clause(&mut self.conflict_literals, conflict_literals);
        push_clause(&mut self.trail, trail);
    }

    pub fn clear(&mut self)
        ensures
            final(self).conflict_literals@.len() == 0,
            final(self).trail@.len() == 0,
    {
        self.conflict_literals.clear();
        self.trail.clear();
    }

    pub fn trail_at_index(&self, index: usize) -> (t: Vec<i32>)
        requires
            index < self.trail@.len(),
        ensures
            t@ == self.trail@[index as int]@,
    {
        copy_clause(&self.trail[index])
    }

    pub fn literals_at_index(&self, index: usize) -> (l: Vec<i32>)
        requires
            index < self.conflict_literals@.len(),
        ensures
            l@ == self.conflict_literals@[index as int]@,
    {
        copy_clause(&self.conflict_literals[index])
    }

    /// The number of entries (conflicts) recorded.
    pub fn len(&self) -> (n: usize)
        ensures
            n == self.trail@.len(),
    {
        self.trail.len()
    }

    pub fn is_empty(&self) -> (b: bool)
        ensures
            b == (self.trail@.len() == 0),
    {
        self.trail.len() == 0
    }
}

impl Default for Trail {
    fn default() -> (t: Self)
        ensures
            t.conflict_literals@.len() == 0,
            t.trail@.len() == 0,
    {
        Self::new()
    }
}

} // verus!
