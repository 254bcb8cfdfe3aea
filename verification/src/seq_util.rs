//! Sequence helpers shared by the CNF encoders: a spec-level "concatenate a
//! family of clause blocks" operator and exec helpers that grow a clause list
//! while keeping its deep view in step.

use vstd::prelude::*;

verus! {

/// `concat_map(n, f)` is `f(0) + f(1) + ... + f(n - 1)`.
pub open spec fn concat_map<A>(n: int, f: spec_fn(int) -> Seq<A>) -> Seq<A>
    decreases n,
{
    if n <= 0 {
        Seq::empty()
    } else {
        concat_map(n - 1, f) + f(n - 1)
    }
}

/// The value of `x` lies within the range of `i32`.
pub open spec fn fits_i32(x: int) -> bool {
    i32::MIN <= x <= i32::MAX
}

/// A trailing empty block does not change `concat_map`.
pub proof fn lemma_concat_map_empty_last<A>(n: int, f: spec_fn(int) -> Seq<A>)
    requires
        n >= 0,
        f(n) == Seq::<A>::empty(),
    ensures
        concat_map(n + 1, f) == concat_map(n, f),
{
    assert(concat_map(n, f) + f(n) =~= concat_map(n, f));
}

/// For a vector of integers the deep view is the plain view.
pub broadcast proof fn lemma_int_vec_deep_view(v: Vec<i32>)
    ensures
        #[trigger] v.deep_view() == v@,
{
    assert(v.deep_view() =~= v@);
}

/// Integer division rounding toward zero, as Rust's `/` on signed integers.
pub open spec fn tdiv(a: int, b: int) -> int {
    if a >= 0 {
        a / b
    } else {
        -((-a) / b)
    }
}

/// The remainder that goes with `tdiv`, as Rust's `%` on signed integers.
pub open spec fn trem(a: int, b: int) -> int {
    a - b * tdiv(a, b)
}

/// Absolute value.
pub open spec fn iabs(a: int) -> int {
    if a < 0 {
        -a
    } else {
        a
    }
}

/// One step of `concat_map`, stated together with associativity so that a loop
/// that appends `f(k)` to `start + concat_map(k, f)` re-establishes its invariant.
pub proof fn lemma_concat_map_step<A>(start: Seq<A>, k: int, f: spec_fn(int) -> Seq<A>)
    requires
        k >= 0,
    ensures
        (start + concat_map(k, f)) + f(k) == start + concat_map(k + 1, f),
{
    assert((start + concat_map(k, f)) + f(k) =~= start + (concat_map(k, f) + f(k)));
}

/// Appends `clause` to `clauses`; the deep view grows by the clause's view.
pub fn push_clause(clauses: &mut Vec<Vec<i32>>, clause: Vec<i32>)
    ensures
        final(clauses).deep_view() == old(clauses).deep_view().push(clause@),
{
    let ghost c = clause@;
    clauses.push(clause);
    assert(clauses.deep_view() =~= old(clauses).deep_view().push(c)) by {
        assert forall|i: int| 0 <= i < clauses.len() implies #[trigger] clauses@[i].deep_view()
            == old(clauses).deep_view().push(c)[i] by {
            if i < old(clauses).len() {
                assert(clauses@[i] == old(clauses)@[i]);
            } else {
                assert(clauses@[i].deep_view() =~= c);
            }
        }
    }
}

/// A copy of `clause`.
pub fn copy_clause(clause: &Vec<i32>) -> (r: Vec<i32>)
    ensures
        r@ == clause@,
{
    let mut r: Vec<i32> = Vec::new();
    let mut i: usize = 0;
    while i < clause.len()
        invariant
            i <= clause.len(),
            r@ == clause@.subrange(0, i as int),
        decreases clause.len() - i,
    {
        r.push(clause[i]);
        i += 1;
    }
    r
}

/// A copy of a list of clauses.
pub fn copy_clauses(clauses: &Vec<Vec<i32>>) -> (r: Vec<Vec<i32>>)
    ensures
        r.deep_view() == clauses.deep_view(),
{
    broadcast use lemma_int_vec_deep_view;

    let mut r: Vec<Vec<i32>> = Vec::new();
    let mut i: usize = 0;
    while i < clauses.len()
        invariant
            i <= clauses.len(),
            r.deep_view() == clauses.deep_view().subrange(0, i as int),
        decreases clauses.len() - i,
    {
        let c = copy_clause(&clauses[i]);
        proof {
            lemma_int_vec_deep_view(clauses@[i as int]);
            assert(clauses.deep_view()[i as int] == clauses@[i as int]@);
        }
        push_clause(&mut r, c);
        assert(clauses.deep_view().subrange(0, i + 1) =~= clauses.deep_view().subrange(
            0,
            i as int,
        ).push(clauses.deep_view()[i as int]));
        i += 1;
    }
    assert(clauses.deep_view().subrange(0, clauses.len() as int) =~= clauses.deep_view());
    r
}

/// Appends every clause of `other` to `clauses`.
pub fn append_clauses(clauses: &mut Vec<Vec<i32>>, other: &Vec<Vec<i32>>)
    ensures
        final(clauses).deep_view() == old(clauses).deep_view() + other.deep_view(),
{
    broadcast use lemma_int_vec_deep_view;

    let ghost start = clauses.deep_view();
    let mut i: usize = 0;
    while i < other.len()
        invariant
            i <= other.len(),
            clauses.deep_view() == start + other.deep_view().subrange(0, i as int),
        decreases other.len() - i,
    {
        let c = copy_clause(&other[i]);
        proof {
            lemma_int_vec_deep_view(other@[i as int]);
            assert(other.deep_view()[i as int] == other@[i as int]@);
        }
        push_clause(clauses, c);
        assert(start + other.deep_view().subrange(0, i + 1) =~= (start + other.deep_view().subrange(
            0,
            i as int,
        )).push(other.deep_view()[i as int]));
        i += 1;
    }
    assert(other.deep_view().subrange(0, other.len() as int) =~= other.deep_view());
}

} // verus!
