//! General properties of the solver, stated over the model and proved once
//! for all inputs.  They connect the contracts of `State::solve`,
//! `State::solve_all` and `State::partition_starts`.

use crate::model::{
    cand_seq, chained, in_bounds, is_leap, lemma_cand_seq, lemma_solvable_iff_tour,
    lemma_stamp_at, lemma_stamp_inv, lemma_tour_lift, lemma_tour_next, solvable, stamp,
    tour_from, Cell, StateView,
};
use vstd::prelude::*;

verus! {

/// The single-solution search is exhaustive: `solve` returns `Some` (its
/// contract says exactly when `solvable` holds) if and only if a complete
/// tour extends the state.
pub proof fn law_solve_finds_existing_tour(v: StateView)
    requires
        v.wf(),
    ensures
        solvable(v) <==> exists|t: Seq<Cell>| tour_from(v, t),
{
    lemma_solvable_iff_tour(v);
}

/// In a complete solution of a state whose own visit sequence is already
/// chained (as after placing only a starting cell), every consecutive pair of
/// numbers lies exactly one leaper offset apart.
pub proof fn law_consecutive_leaps(v: StateView, t: Seq<Cell>)
    requires
        tour_from(v, t),
        chained(v.path),
    ensures
        chained(t),
{
    let n = v.path.len() as int;
    assert forall|i: int| 1 <= i < t.len() implies is_leap(t[i - 1], #[trigger] t[i]) by {
        if i < n {
            assert(t.subrange(0, n)[i] == t[i]);
            assert(t.subrange(0, n)[i - 1] == t[i - 1]);
            assert(v.path[i] == t[i]);
            assert(v.path[i - 1] == t[i - 1]);
            assert(is_leap(v.path[i - 1], v.path[i]));
        }
    }
}

/// When exactly one tour extends `v`, every duplicate-free, sound and
/// complete enumeration of its solutions — which is what `solve_all`'s
/// contract guarantees — has length exactly one.
pub proof fn law_single_solution(v: StateView, t0: Seq<Cell>, paths: Seq<Seq<Cell>>)
    requires
        tour_from(v, t0),
        forall|t: Seq<Cell>| #[trigger] tour_from(v, t) ==> t == t0,
        forall|i: int| 0 <= i < paths.len() ==> tour_from(v, #[trigger] paths[i]),
        forall|i: int, j: int| 0 <= i < j < paths.len() ==> paths[i] != paths[j],
        exists|i: int| 0 <= i < paths.len() && paths[i] == t0,
    ensures
        paths.len() == 1,
{
    if paths.len() >= 2 {
        assert(tour_from(v, paths[0]));
        assert(tour_from(v, paths[1]));
        assert(paths[0] != paths[1]);
    }
}

/// The sub-searches that `partition_starts` builds split the solution set of
/// a not yet complete state: every tour of `v` is a tour of exactly one of
/// the stepped states.  Searching them independently (as the concurrent
/// coordinator does, one worker per branch) finds together exactly the
/// solutions of `v`.
pub proof fn law_partition(v: StateView)
    requires
        v.wf(),
        !v.complete(),
    ensures
        forall|t: Seq<Cell>|
            #[trigger] tour_from(v, t) <==> exists|i: int|
                0 <= i < cand_seq(v).len() && tour_from(v.step(cand_seq(v)[i]), t),
        forall|t: Seq<Cell>, i: int, j: int|
            0 <= i < cand_seq(v).len() && 0 <= j < cand_seq(v).len() && tour_from(
                v.step(cand_seq(v)[i]),
                t,
            ) && tour_from(v.step(cand_seq(v)[j]), t) ==> i == j,
{
    lemma_cand_seq(v);
    let n = v.path.len() as int;
    let cs = cand_seq(v);
    assert forall|t: Seq<Cell>| #[trigger] tour_from(v, t) implies exists|i: int|
        0 <= i < cs.len() && tour_from(v.step(cs[i]), t) by {
        lemma_tour_next(v, t);
        let c = t[n];
        assert(cs.contains(c));
        let i = choose|i: int| 0 <= i < cs.len() && cs[i] == c;
        assert(tour_from(v.step(cs[i]), t));
    }
    assert forall|t: Seq<Cell>|
        (exists|i: int| 0 <= i < cs.len() && tour_from(v.step(cs[i]), t)) implies #[trigger]
    tour_from(v, t) by {
        let i = choose|i: int| 0 <= i < cs.len() && tour_from(v.step(cs[i]), t);
        assert(cs.contains(cs[i]));
        lemma_tour_lift(v, cs[i], t);
    }
    assert forall|t: Seq<Cell>, i: int, j: int|
        0 <= i < cs.len() && 0 <= j < cs.len() && tour_from(v.step(cs[i]), t) && tour_from(
            v.step(cs[j]),
            t,
        ) implies i == j by {
        assert(t.subrange(0, n + 1)[n] == v.path.push(cs[i])[n]);
        assert(t.subrange(0, n + 1)[n] == v.path.push(cs[j])[n]);
        assert(cs[i] == cs[j]);
        assert(cs.no_duplicates());
    }
}


/// The stamped numbers of any well-formed state form an initial segment
/// `1..=filled_count` with no duplicates and no gaps; on a complete board
/// they are exactly the permutation of `1..=size*size`.
pub proof fn law_numbers_form_permutation(v: StateView)
    requires
        v.wf(),
    ensures
        forall|n: int|
            1 <= n <= v.path.len() ==> in_bounds(v.size, #[trigger] v.path[n - 1]) && stamp(
                v,
                v.path[n - 1],
            ) == n,
        forall|c1: Cell, c2: Cell|
            #[trigger] stamp(v, c1) == #[trigger] stamp(v, c2) && stamp(v, c1) != 0 ==> c1 == c2,
{
    assert forall|n: int|
        1 <= n <= v.path.len() implies in_bounds(v.size, #[trigger] v.path[n - 1]) && stamp(
        v,
        v.path[n - 1],
    ) == n by {
        lemma_stamp_at(v, n - 1);
    }
    assert forall|c1: Cell, c2: Cell|
        #[trigger] stamp(v, c1) == #[trigger] stamp(v, c2) && stamp(v, c1) != 0 implies c1
        == c2 by {
        lemma_stamp_inv(v, c1);
        lemma_stamp_inv(v, c2);
    }
}

} // verus!
