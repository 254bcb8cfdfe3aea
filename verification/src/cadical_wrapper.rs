//! Interfacing with cadical: the callbacks that collect what the solver
//! learns, and the solver itself behind a small set of trusted calls.

use vstd::prelude::*;
use cadical::{Callbacks, Solver};
use crate::{ConstraintList, Trail};

verus! {

/// Collects the clauses the solver learns (and conflict trails, when reported).
#[derive(Clone)]
pub struct CadicalCallbackWrapper {
    pub learned_clauses: ConstraintList,
    pub trail: Trail,
}

/// A slice copied into a vector.
fn slice_to_vec(s: &[i32]) -> (v: Vec<i32>)
    ensures
        v@ == s@,
{
    let mut v: Vec<i32> = Vec::new();
    let mut i: usize = 0;
    while i < s.len()
        invariant
            i <= s@.len(),
            v@ == s@.subrange(0, i as int),
        decreases s@.len() - i,
    {
        v.push(s[i]);
        i += 1;
    }
    v
}

impl CadicalCallbackWrapper {
    pub fn new(learned_clauses: ConstraintList, trail: Trail) -> (w: Self)
        ensures
            w.learned_clauses == learned_clauses,
            w.trail == trail,
    {
        Self { learned_clauses, trail }
    }

    /// Records a clause the solver has learned; an empty clause is not recorded.
    pub fn record_learned_clause(&mut self, clause: &[i32])
        ensures
            final(self).learned_clauses@ == if clause@.len() == 0 {
                old(self).learned_clauses@
            } else {
                old(self).learned_clauses@.push(clause@)
            },
            final(self).trail == old(self).trail,
    {
        if clause.len() != 0 {
            let tmp_vector = slice_to_vec(clause);
            self.learned_clauses.push(tmp_vector);
        }
    }

    /// Records the conflict literals and the trail of a conflict.
    pub fn record_trail(&mut self, conflict_literals: &[i32], trail: &[i32])
        ensures
            final(self).learned_clauses == old(self).learned_clauses,
            final(self).trail.conflict_literals.deep_view()
                == old(self).trail.conflict_literals.deep_view().push(conflict_literals@),
            final(self).trail.trail.deep_view() == old(self).trail.trail.deep_view().push(trail@),
    {
        let c = slice_to_vec(conflict_literals);
        let t = slice_to_vec(trail);
        self.trail.push(c, t);
    }
}

impl Callbacks for CadicalCallbackWrapper {
    // called by the solver to check if it should terminate
    fn terminate(&mut self) -> (stop: bool)
        ensures
            !stop,
            *final(self) == *old(self),
    {
        false
    }

    // Returns the maximum length of clauses to be passed to `learn`.
    fn max_length(&self) -> (n: i32)
        ensures
            n == i32::MAX,
    {
        i32::MAX
    }

    // called by the solver when a new derived clause is learnt
    fn learn(&mut self, clause: &[i32])
        ensures
            final(self).learned_clauses@ == if clause@.len() == 0 {
                old(self).learned_clauses@
            } else {
                old(self).learned_clauses@.push(clause@)
            },
            final(self).trail == old(self).trail,
    {
        self.record_learned_clause(clause);
    }
}

/// The CaDiCaL solver, with a `CadicalCallbackWrapper` as its callbacks. The
/// solver type's parameter is bounded by the crate's `Callbacks` trait, so it
/// is held in this opaque struct and reached only through the trusted methods
/// below.
#[verifier::external_body]
pub struct CadicalSolver {
    solver: Solver<CadicalCallbackWrapper>,
}

/// The clauses added to the solver so far, in order.
pub uninterp spec fn solver_clauses(solver: CadicalSolver) -> Seq<Seq<i32>>;

/// What `Solver::status` reports: the result of the last `solve`, or `None`
/// after a clause was added.
pub uninterp spec fn solver_status(solver: CadicalSolver) -> Option<bool>;

/// What `Solver::value` reports for a literal in the last solution.
pub uninterp spec fn solver_value(solver: CadicalSolver, lit: i32) -> Option<bool>;

/// The learned clauses held by the callbacks the solver stores (`None` while
/// it stores none).
pub uninterp spec fn stored_learned(solver: CadicalSolver) -> Option<Seq<Seq<i32>>>;

/// The conflict literals and trails held by the callbacks the solver stores
/// (`None` while it stores none).
pub uninterp spec fn stored_trail(solver: CadicalSolver) -> Option<(Seq<Seq<i32>>, Seq<Seq<i32>>)>;

/// The conflict literals and the trails of a `Trail`, as sequences.
pub open spec fn trail_view(t: Trail) -> (Seq<Seq<i32>>, Seq<Seq<i32>>) {
    (t.conflict_literals.deep_view(), t.trail.deep_view())
}

/// What the callbacks hold after solving: the clauses they held before,
/// followed by the non-empty clauses the solver learned.
pub open spec fn learned_more(before: Option<Seq<Seq<i32>>>, after: Option<Seq<Seq<i32>>>) -> bool {
    match before {
        None => after is None,
        Some(b) => match after {
            Some(a) => {
                &&& b.len() <= a.len()
                &&& a.subrange(0, b.len() as int) == b
                &&& forall|k: int| b.len() <= k < a.len() ==> (#[trigger] a[k]).len() > 0
            },
            None => false,
        },
    }
}

/// Literal `lit` holds under an assignment of truth values to variables.
pub open spec fn lit_holds(assign: spec_fn(int) -> bool, lit: i32) -> bool {
    if lit > 0 {
        assign(lit as int)
    } else {
        !assign(-(lit as int))
    }
}

/// Some literal of the clause holds under the assignment.
pub open spec fn clause_holds(assign: spec_fn(int) -> bool, clause: Seq<i32>) -> bool {
    exists|j: int| 0 <= j < clause.len() && #[trigger] lit_holds(assign, clause[j])
}

/// Every clause holds under the assignment.
pub open spec fn satisfies(assign: spec_fn(int) -> bool, clauses: Seq<Seq<i32>>) -> bool {
    forall|i: int| 0 <= i < clauses.len() ==> #[trigger] clause_holds(assign, clauses[i])
}

/// Some assignment satisfies every clause.
pub open spec fn satisfiable(clauses: Seq<Seq<i32>>) -> bool {
    exists|assign: spec_fn(int) -> bool| #[trigger] satisfies(assign, clauses)
}

/// Literal `lit` is true in the solver's solution, read through `Solver::value`
/// on positive literals only: a positive literal when its value is
/// `Some(true)`, a negative one when its variable's value is `Some(false)`.
pub open spec fn lit_true(solver: CadicalSolver, lit: i32) -> bool {
    if lit > 0 {
        solver_value(solver, lit) == Some(true)
    } else {
        solver_value(solver, (-lit) as i32) == Some(false)
    }
}

/// Some literal of the clause is true in the solver's solution.
pub open spec fn clause_satisfied(solver: CadicalSolver, clause: Seq<i32>) -> bool {
    exists|i: int| 0 <= i < clause.len() && #[trigger] lit_true(solver, clause[i])
}

/// Every clause added to the solver is satisfied by its solution.
pub open spec fn all_clauses_satisfied(solver: CadicalSolver) -> bool {
    forall|i: int|
        0 <= i < solver_clauses(solver).len() ==> #[trigger] clause_satisfied(
            solver,
            solver_clauses(solver)[i],
        )
}

/// A literal the solver accepts: `Solver::add_clause` and `Solver::value`
/// (debug-)assert that literals are non-zero and not `i32::MIN`.
pub open spec fn valid_literal(lit: i32) -> bool {
    lit != 0 && lit != i32::MIN
}

impl CadicalSolver {
    /// `Solver::with_config("plain")`: a fresh solver with preprocessing
    /// switched off. "plain" is one of the configurations the crate documents,
    /// so the call succeeds. It holds no clauses and has no status yet.
    #[verifier::external_body]
    pub fn new_plain() -> (s: Self)
        ensures
            solver_clauses(s) == Seq::<Seq<i32>>::empty(),
            solver_status(s) is None,
            stored_learned(s) is None,
            stored_trail(s) is None,
    {
        CadicalSolver { solver: Solver::with_config("plain").unwrap() }
    }

    /// `Solver::set_callbacks(Some(..))`: the callbacks are replaced by the
    /// given ones; the clauses and the status stay.
    #[verifier::external_body]
    pub fn set_callbacks(&mut self, callbacks: CadicalCallbackWrapper)
        ensures
            solver_clauses(*final(self)) == solver_clauses(*old(self)),
            solver_status(*final(self)) == solver_status(*old(self)),
            stored_learned(*final(self)) == Some(callbacks.learned_clauses@),
            stored_trail(*final(self)) == Some(trail_view(callbacks.trail)),
    {
        self.solver.set_callbacks(Some(callbacks))
    }

    /// `Solver::get_callbacks`, copied out: a copy of the stored callbacks,
    /// which stay as they are.
    #[verifier::external_body]
    pub fn callbacks(&mut self) -> (c: Option<CadicalCallbackWrapper>)
        ensures
            solver_clauses(*final(self)) == solver_clauses(*old(self)),
            solver_status(*final(self)) == solver_status(*old(self)),
            stored_learned(*final(self)) == stored_learned(*old(self)),
            stored_trail(*final(self)) == stored_trail(*old(self)),
            c is Some <==> stored_learned(*old(self)) is Some,
            c is Some <==> stored_trail(*old(self)) is Some,
            c matches Some(w) ==> Some(w.learned_clauses@) == stored_learned(*old(self)) && Some(
                trail_view(w.trail),
            ) == stored_trail(*old(self)),
    {
        self.solver.get_callbacks().cloned()
    }

    /// `Solver::add_clause`: the clause is added and the status is reset.
    #[verifier::external_body]
    pub fn add_clause(&mut self, clause: Vec<i32>)
        requires
            forall|i: int| 0 <= i < clause@.len() ==> valid_literal(#[trigger] clause@[i]),
        ensures
            solver_clauses(*final(self)) == solver_clauses(*old(self)).push(clause@),
            solver_status(*final(self)) is None,
            stored_learned(*final(self)) == stored_learned(*old(self)),
            stored_trail(*final(self)) == stored_trail(*old(self)),
    {
        self.solver.add_clause(clause)
    }

    /// `Solver::solve`: the result becomes the status; the clauses stay. The
    /// callbacks never ask to stop and no limit is set, so CaDiCaL finishes
    /// with an answer: `Some(true)` when the added clauses are satisfiable,
    /// and then `value` answers every literal and its solution satisfies
    /// every added clause; `Some(false)` when they are not. While solving, the
    /// solver hands each clause it learns to the callbacks, which keep the
    /// non-empty ones after those they held; their trails stay.
    #[verifier::external_body]
    pub fn solve(&mut self) -> (r: Option<bool>)
        ensures
            solver_clauses(*final(self)) == solver_clauses(*old(self)),
            solver_status(*final(self)) == r,
            r is Some,
            r == Some(true) ==> all_clauses_satisfied(*final(self)),
            r == Some(true) ==> forall|lit: i32|
                valid_literal(lit) ==> (#[trigger] solver_value(*final(self), lit)) is Some,
            r == Some(false) ==> !satisfiable(solver_clauses(*final(self))),
            learned_more(stored_learned(*old(self)), stored_learned(*final(self))),
            stored_trail(*final(self)) == stored_trail(*old(self)),
    {
        self.solver.solve()
    }

    /// `Solver::status`.
    #[verifier::external_body]
    pub fn status(&self) -> (r: Option<bool>)
        ensures
            r == solver_status(*self),
    {
        self.solver.status()
    }

    /// `Solver::value`, which may only be asked after a satisfiable `solve`;
    /// CaDiCaL then answers with the literal or its negation, so there is
    /// always an answer.
    #[verifier::external_body]
    pub fn value(&self, lit: i32) -> (r: Option<bool>)
        requires
            solver_status(*self) == Some(true),
            valid_literal(lit),
        ensures
            r == solver_value(*self, lit),
            r is Some,
    {
        self.solver.value(lit)
    }
}

/// A solution read from the solver that satisfies every added clause shows
/// that the added clauses are satisfiable.
pub proof fn lemma_satisfied_is_satisfiable(solver: CadicalSolver)
    requires
        all_clauses_satisfied(solver),
    ensures
        satisfiable(solver_clauses(solver)),
{
    let assign = |v: int| solver_value(solver, v as i32) == Some(true);
    let cl = solver_clauses(solver);
    assert forall|i: int| 0 <= i < cl.len() implies #[trigger] clause_holds(assign, cl[i]) by {
        assert(clause_satisfied(solver, cl[i]));
        let j = choose|j: int| 0 <= j < cl[i].len() && #[trigger] lit_true(solver, cl[i][j]);
        let lit = cl[i][j];
        if lit > 0 {
            assert((lit as int) as i32 == lit);
        } else {
            assert((-(lit as int)) as i32 == (-lit) as i32);
        }
        assert(lit_holds(assign, cl[i][j]));
    }
    assert(satisfies(assign, cl));
}

} // verus!
