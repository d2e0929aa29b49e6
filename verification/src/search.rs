//! Search strategies: exhaustive depth-first backtracking for one solution,
//! and (below) the best-first enumeration of all solutions.

use crate::frontier::{frontier_entries, frontier_new, frontier_pop, frontier_push};
use crate::model::{
    cand_seq, global_score, grid_matches, is_prefix, lemma_cand_len_le8, lemma_cand_seq,
    lemma_grid_matches_unique, lemma_prefix_of_push, lemma_prefix_push, lemma_prefix_same_len,
    lemma_prefix_trans, lemma_square_bounds, lemma_tour_lift, lemma_tour_next_cell, partial_from,
    solvable, tour_from, tree_size, tree_size_upto, Cell, StateView,
};
use crate::state::{cellv, lemma_wf_view, Move, State};
use priority_queue::PriorityQueue;
use std::collections::hash_map::RandomState;
use vstd::prelude::*;

verus! {

/// Which heuristic orders candidate moves.  Either heuristic can drive either
/// strategy; the choice affects only the order of exploration, never the set
/// of solutions found.
#[derive(Clone, Copy, Debug, PartialEq, Eq)]
pub enum Scorer {
    /// Warnsdorff's rule: the move whose resulting position keeps the fewest
    /// onward moves open is tried first.
    Local,
    /// The move whose resulting board keeps the highest total flexibility
    /// (sum of onward moves over all empty cells) is tried first.
    Global,
}

/// The heuristic score of placing `c` on `v`, under the given scorer.
spec fn score_of(v: StateView, scorer: Scorer, c: Cell) -> int {
    match scorer {
        Scorer::Local => cand_seq(v.step(c)).len() as int,
        Scorer::Global => global_score(v.step(c)),
    }
}

/// `a` is at least as good a score as `b`: Warnsdorff's rule prefers fewer
/// onward moves, the global scorer prefers more total flexibility.
spec fn score_no_worse(scorer: Scorer, a: int, b: int) -> bool {
    match scorer {
        Scorer::Local => a <= b,
        Scorer::Global => a >= b,
    }
}

/// Scores the candidate moves of `s` and returns them reordered best-first;
/// ties keep the earlier candidate first.  The result holds exactly the given
/// moves, in an order the scorer accepts.
fn order_moves(s: &State, cands: Vec<Move>, scorer: Scorer) -> (r: Vec<Move>)
    requires
        s.wf(),
        !s@.complete(),
        forall|i: int| 0 <= i < cands@.len() ==> s@.is_candidate(cellv(#[trigger] cands@[i])),
    ensures
        r@.len() == cands@.len(),
        forall|j: int| 0 <= j < r@.len() ==> cands@.contains(#[trigger] r@[j]),
        forall|j: int| 0 <= j < cands@.len() ==> r@.contains(#[trigger] cands@[j]),
        forall|j1: int, j2: int|
            0 <= j1 < j2 < r@.len() ==> score_no_worse(
                scorer,
                score_of(s@, scorer, cellv(#[trigger] r@[j1])),
                score_of(s@, scorer, cellv(#[trigger] r@[j2])),
            ),
{
    let ghost cands_view = cands@;
    let mut keys: Vec<u64> = Vec::new();
    let mut i: usize = 0;
    while i < cands.len()
        invariant
            s.wf(),
            !s@.complete(),
            cands@ == cands_view,
            forall|j: int| 0 <= j < cands@.len() ==> s@.is_candidate(cellv(#[trigger] cands@[j])),
            i <= cands@.len(),
            keys@.len() == i,
            forall|j: int|
                0 <= j < i ==> keys@[j] == score_of(s@, scorer, cellv(#[trigger] cands@[j])),
        decreases cands@.len() - i,
    {
        let m = cands[i];
        let k: u64 = match scorer {
            Scorer::Local => s.move_value(m) as u64,
            Scorer::Global => s.sum_moves(m),
        };
        keys.push(k);
        i = i + 1;
    }
    let mut work = cands;
    let mut wk = keys;
    let mut out: Vec<Move> = Vec::new();
    while work.len() > 0
        invariant
            s.wf(),
            wk@.len() == work@.len(),
            out@.len() + work@.len() == cands_view.len(),
            forall|j: int| 0 <= j < out@.len() ==> cands_view.contains(#[trigger] out@[j]),
            forall|j: int| 0 <= j < work@.len() ==> cands_view.contains(#[trigger] work@[j]),
            forall|j: int|
                0 <= j < cands_view.len() ==> out@.contains(#[trigger] cands_view[j])
                    || work@.contains(cands_view[j]),
            forall|j: int|
                0 <= j < work@.len() ==> wk@[j] == score_of(
                    s@,
                    scorer,
                    cellv(#[trigger] work@[j]),
                ),
            forall|j1: int, j2: int|
                0 <= j1 < j2 < out@.len() ==> score_no_worse(
                    scorer,
                    score_of(s@, scorer, cellv(#[trigger] out@[j1])),
                    score_of(s@, scorer, cellv(#[trigger] out@[j2])),
                ),
            forall|j1: int, j2: int|
                0 <= j1 < out@.len() && 0 <= j2 < work@.len() ==> score_no_worse(
                    scorer,
                    score_of(s@, scorer, cellv(#[trigger] out@[j1])),
                    score_of(s@, scorer, cellv(#[trigger] work@[j2])),
                ),
        decreases work@.len(),
    {
        let mut bi: usize = 0;
        let mut j: usize = 1;
        while j < work.len()
            invariant
                work@.len() > 0,
                bi < work@.len(),
                j <= work@.len(),
                wk@.len() == work@.len(),
                forall|j2: int|
                    0 <= j2 < j ==> score_no_worse(
                        scorer,
                        wk@[bi as int] as int,
                        #[trigger] wk@[j2] as int,
                    ),
            decreases work@.len() - j,
        {
            let better: bool = match scorer {
                Scorer::Local => wk[j] < wk[bi],
                Scorer::Global => wk[j] > wk[bi],
            };
            if better {
                bi = j;
            }
            j = j + 1;
        }
        let ghost old_work = work@;
        let ghost old_out = out@;
        let ghost old_wk = wk@;
        let m = work.remove(bi);
        let _discard: u64 = wk.remove(bi);
        out.push(m);
        proof {
            assert(out@[out@.len() - 1] == m);
            assert(old_wk[bi as int] == score_of(s@, scorer, cellv(m)));
            assert forall|j: int|
                0 <= j < work@.len() implies wk@[j] == score_of(
                s@,
                scorer,
                cellv(#[trigger] work@[j]),
            ) by {
                if j < bi {
                    assert(work@[j] == old_work[j] && wk@[j] == old_wk[j]);
                } else {
                    assert(work@[j] == old_work[j + 1] && wk@[j] == old_wk[j + 1]);
                }
            }
            assert forall|j1: int, j2: int|
                0 <= j1 < j2 < out@.len() implies score_no_worse(
                scorer,
                score_of(s@, scorer, cellv(#[trigger] out@[j1])),
                score_of(s@, scorer, cellv(#[trigger] out@[j2])),
            ) by {
                if j2 == out@.len() - 1 {
                    assert(out@[j1] == old_out[j1]);
                    assert(score_no_worse(
                        scorer,
                        score_of(s@, scorer, cellv(old_out[j1])),
                        score_of(s@, scorer, cellv(old_work[bi as int])),
                    ));
                } else {
                    assert(out@[j1] == old_out[j1] && out@[j2] == old_out[j2]);
                }
            }
            assert forall|j1: int, j2: int|
                0 <= j1 < out@.len() && 0 <= j2 < work@.len() implies score_no_worse(
                scorer,
                score_of(s@, scorer, cellv(#[trigger] out@[j1])),
                score_of(s@, scorer, cellv(#[trigger] work@[j2])),
            ) by {
                let oj = if j2 < bi { j2 } else { j2 + 1 };
                assert(work@[j2] == old_work[oj] && wk@[j2] == old_wk[oj]);
                if j1 == out@.len() - 1 {
                    assert(score_no_worse(scorer, old_wk[bi as int] as int, old_wk[oj] as int));
                } else {
                    assert(out@[j1] == old_out[j1]);
                }
            }
            assert forall|jj: int|
                0 <= jj < cands_view.len() implies out@.contains(#[trigger] cands_view[jj])
                    || work@.contains(cands_view[jj]) by {
                let c = cands_view[jj];
                if old_out.contains(c) {
                    let x = choose|x: int| 0 <= x < old_out.len() && old_out[x] == c;
                    assert(out@[x] == c);
                } else if old_work.contains(c) {
                    let x = choose|x: int| 0 <= x < old_work.len() && old_work[x] == c;
                    if x == bi {
                        assert(out@[out@.len() - 1] == c);
                    } else if x < bi {
                        assert(work@[x] == c);
                    } else {
                        assert(work@[x - 1] == c);
                    }
                }
            }
            assert forall|jj: int|
                0 <= jj < work@.len() implies cands_view.contains(#[trigger] work@[jj]) by {
                if jj < bi {
                    assert(old_work.contains(old_work[jj]));
                } else {
                    assert(old_work.contains(old_work[jj + 1]));
                }
            }
        }
    }
    out
}

impl State {
    /// Exhaustive depth-first backtracking from this state, trying candidate
    /// moves best-first under the given heuristic.  Returns a completed
    /// extension of this state if and only if one exists.
    pub fn solve_with(&self, scorer: Scorer) -> (r: Option<State>)
        requires
            self.wf(),
        ensures
            r.is_some() == solvable(self@),
            match r {
                Some(s) => s.wf() && s@.size == self@.size && tour_from(self@, s@.path),
                None => true,
            },
        decreases self@.size * self@.size - self@.path.len(),
    {
        if self.is_complete() {
            let s = self.clone();
            proof {
                lemma_wf_view(self);
                assert(self@.path.subrange(0, self@.path.len() as int) =~= self@.path);
                assert(tour_from(self@, s@.path));
            }
            return Some(s);
        }
        let cands = self.possible_moves();
        let ghost cands_view = cands@;
        proof {
            lemma_wf_view(self);
            lemma_cand_seq(self@);
            assert forall|i: int|
                0 <= i < cands@.len() implies self@.is_candidate(cellv(#[trigger] cands@[i])) by {
                assert(cand_seq(self@).contains(cand_seq(self@)[i]));
            }
        }
        let ordered = order_moves(self, cands, scorer);
        let mut i: usize = 0;
        while i < ordered.len()
            invariant
                self.wf(),
                !self@.complete(),
                i <= ordered@.len(),
                ordered@.len() == cands_view.len(),
                cands_view.len() == cand_seq(self@).len(),
                forall|j: int|
                    0 <= j < cands_view.len() ==> cellv(#[trigger] cands_view[j]) == cand_seq(
                        self@,
                    )[j],
                forall|j: int|
                    0 <= j < cands_view.len() ==> ordered@.contains(#[trigger] cands_view[j]),
                forall|j: int|
                    0 <= j < ordered@.len() ==> cands_view.contains(#[trigger] ordered@[j]),
                forall|j: int|
                    0 <= j < i ==> !solvable(self@.step(cellv(#[trigger] ordered@[j]))),
            decreases ordered@.len() - i,
        {
            let m = ordered[i];
            proof {
                lemma_wf_view(self);
                lemma_cand_seq(self@);
                assert(cands_view.contains(ordered@[i as int]));
                let x = choose|x: int| 0 <= x < cands_view.len() && cands_view[x] == ordered@[i as int];
                assert(cand_seq(self@).contains(cand_seq(self@)[x]));
                assert(self@.is_candidate(cellv(m)));
            }
            let child = self.make_move(m);
            let res = child.solve_with(scorer);
            match res {
                Some(sol) => {
                    proof {
                        lemma_tour_lift(self@, cellv(m), sol@.path);
                        assert(self@.is_candidate(cellv(m)) && solvable(self@.step(cellv(m))));
                        assert(solvable(self@));
                    }
                    return Some(sol);
                },
                None => {},
            }
            i = i + 1;
        }
        proof {
            lemma_wf_view(self);
            lemma_cand_seq(self@);
            assert forall|c: Cell| self@.is_candidate(c) implies !solvable(self@.step(c)) by {
                assert(cand_seq(self@).contains(c));
                let x = choose|x: int| 0 <= x < cand_seq(self@).len() && cand_seq(self@)[x] == c;
                assert(cellv(cands_view[x]) == c);
                assert(ordered@.contains(cands_view[x]));
                let jj = choose|jj: int|
                    0 <= jj < ordered@.len() && ordered@[jj] == cands_view[x];
                assert(!solvable(self@.step(cellv(ordered@[jj]))));
            }
            assert(!solvable(self@));
        }
        None
    }

    /// Exhaustive, deterministic single-solution search under Warnsdorff's
    /// rule: a completed extension of this state, if and only if one exists.
    pub fn solve(&self) -> (r: Option<State>)
        requires
            self.wf(),
        ensures
            r.is_some() == solvable(self@),
            match r {
                Some(s) => s.wf() && s@.size == self@.size && tour_from(self@, s@.path),
                None => true,
            },
    {
        self.solve_with(Scorer::Local)
    }

    /// One state per candidate move: the independent sub-searches whose
    /// solution sets partition the solutions of this state (see
    /// `laws::law_partition`).
    pub fn partition_starts(&self) -> (r: Vec<State>)
        requires
            self.wf(),
            !self@.complete(),
        ensures
            r@.len() == cand_seq(self@).len(),
            forall|i: int|
                0 <= i < r@.len() ==> (#[trigger] r@[i]).wf() && r@[i]@ == self@.step(
                    cand_seq(self@)[i],
                ),
    {
        let cands = self.possible_moves();
        proof {
            lemma_wf_view(self);
            lemma_cand_seq(self@);
        }
        let mut r: Vec<State> = Vec::new();
        let mut i: usize = 0;
        while i < cands.len()
            invariant
                self.wf(),
                !self@.complete(),
                i <= cands@.len(),
                cands@.len() == cand_seq(self@).len(),
                forall|j: int|
                    0 <= j < cands@.len() ==> cellv(#[trigger] cands@[j]) == cand_seq(self@)[j],
                r@.len() == i,
                forall|j: int|
                    0 <= j < i ==> (#[trigger] r@[j]).wf() && r@[j]@ == self@.step(
                        cand_seq(self@)[j],
                    ),
            decreases cands@.len() - i,
        {
            let m = cands[i];
            proof {
                lemma_wf_view(self);
                lemma_cand_seq(self@);
                assert(cand_seq(self@).contains(cand_seq(self@)[i as int]));
                assert(self@.is_candidate(cellv(m)));
            }
            r.push(self.make_move(m));
            i = i + 1;
        }
        r
    }
}

/// Some frontier entry's partial path is a prefix of the tour `t`.
spec fn covered(m: Map<u64, (u64, u64)>, arena: Seq<State>, t: Seq<Cell>) -> bool {
    exists|id: u64|
        #[trigger] m.dom().contains(id) && (id as int) < arena.len() && is_prefix(
            arena[id as int]@.path,
            t,
        )
}

/// The combined search-tree size of the frontier entries listed in `ids`.
spec fn ids_weight(ids: Seq<u64>, arena: Seq<State>) -> nat
    decreases ids.len(),
{
    if ids.len() == 0 {
        0
    } else {
        ids_weight(ids.drop_last(), arena) + (
        if (ids.last() as int) < arena.len() {
            tree_size(arena[ids.last() as int]@)
        } else {
            0nat
        })
    }
}

proof fn lemma_ids_weight_push(ids: Seq<u64>, arena: Seq<State>, x: u64)
    ensures
        ids_weight(ids.push(x), arena) == ids_weight(ids, arena) + (
        if (x as int) < arena.len() {
            tree_size(arena[x as int]@)
        } else {
            0nat
        }),
{
    assert(ids.push(x).drop_last() =~= ids);
    assert(ids.push(x).last() == x);
}

proof fn lemma_ids_weight_remove(ids: Seq<u64>, arena: Seq<State>, j: int)
    requires
        0 <= j < ids.len(),
    ensures
        ids_weight(ids, arena) == ids_weight(ids.remove(j), arena) + (
        if (ids[j] as int) < arena.len() {
            tree_size(arena[ids[j] as int]@)
        } else {
            0nat
        }),
    decreases ids.len(),
{
    if j == ids.len() - 1 {
        assert(ids.remove(j) =~= ids.drop_last());
    } else {
        lemma_ids_weight_remove(ids.drop_last(), arena, j);
        assert(ids.drop_last().remove(j) =~= ids.remove(j).drop_last());
        assert(ids.remove(j).last() == ids.last());
        assert(ids.drop_last()[j] == ids[j]);
    }
}

proof fn lemma_ids_weight_grow(ids: Seq<u64>, arena: Seq<State>, arena2: Seq<State>)
    requires
        arena.len() <= arena2.len(),
        forall|j: int| 0 <= j < arena.len() ==> arena2[j] == arena[j],
        forall|k: int| 0 <= k < ids.len() ==> ((#[trigger] ids[k]) as int) < arena.len(),
    ensures
        ids_weight(ids, arena2) == ids_weight(ids, arena),
    decreases ids.len(),
{
    if ids.len() > 0 {
        lemma_ids_weight_grow(ids.drop_last(), arena, arena2);
        assert(ids[ids.len() - 1] == ids.last());
    }
}

proof fn lemma_pending_remove(ids: Seq<u64>, j: int)
    requires
        0 <= j < ids.len(),
        ids.no_duplicates(),
    ensures
        ids.remove(j).no_duplicates(),
        forall|x: int|
            0 <= x < ids.remove(j).len() ==> (#[trigger] ids.remove(j)[x]) != ids[j]
                && ids.contains(ids.remove(j)[x]),
        forall|id: u64| ids.contains(id) && id != ids[j] ==> ids.remove(j).contains(id),
{
    let r = ids.remove(j);
    assert forall|x: int|
        0 <= x < r.len() implies (#[trigger] r[x]) != ids[j] && ids.contains(r[x]) by {
        if x < j {
            assert(r[x] == ids[x]);
        } else {
            assert(r[x] == ids[x + 1]);
        }
    }
    assert forall|id: u64| ids.contains(id) && id != ids[j] implies r.contains(id) by {
        let x = choose|x: int| 0 <= x < ids.len() && ids[x] == id;
        if x < j {
            assert(r[x] == id);
        } else {
            assert(x > j);
            assert(r[x - 1] == id);
        }
    }
}

/// A resumable best-first exhaustive search: a frontier of not yet expanded
/// states ordered by `(depth, heuristic score)`, highest first, over an arena
/// of reached states.  Each call to `next_solution` pops and expands frontier
/// states until the next complete tour appears; every complete tour reachable
/// from the root is delivered exactly once.
pub struct Search {
    scorer: Scorer,
    root: Ghost<StateView>,
    arena: Vec<State>,
    frontier: PriorityQueue<u64, (u64, u64), RandomState>,
    emitted: Ghost<Set<Seq<Cell>>>,
    /// An enumeration of the frontier's items, carrying the termination
    /// measure `work_left`.
    pending: Ghost<Seq<u64>>,
}

impl Search {
    /// The state this search was seeded from.
    pub closed spec fn root(&self) -> StateView {
        self.root@
    }

    /// The visit sequences of the solutions delivered so far.
    pub closed spec fn emitted(&self) -> Set<Seq<Cell>> {
        self.emitted@
    }

    /// The search invariant: every frontier entry is a reached partial tour;
    /// no frontier entry is a prefix of another; and a tour of the root has
    /// been delivered exactly when no frontier entry can still reach it.
    pub closed spec fn wf(&self) -> bool {
        let m = frontier_entries(self.frontier);
        let v = self.root@;
        &&& v.wf()
        &&& forall|id: u64|
            #[trigger] m.dom().contains(id) ==> ((id as int) < self.arena@.len()
                && self.arena@[id as int].wf() && self.arena@[id as int]@.size == v.size
                && partial_from(v, self.arena@[id as int]@.path))
        &&& forall|id1: u64, id2: u64|
            #![trigger m.dom().contains(id1), m.dom().contains(id2)]
            m.dom().contains(id1) && m.dom().contains(id2) && id1 != id2 ==> !is_prefix(
                self.arena@[id1 as int]@.path,
                self.arena@[id2 as int]@.path,
            )
        &&& forall|t: Seq<Cell>|
            #[trigger] tour_from(v, t) ==> (self.emitted@.contains(t) <==> !covered(
                m,
                self.arena@,
                t,
            ))
        &&& forall|t: Seq<Cell>| #[trigger] self.emitted@.contains(t) ==> tour_from(v, t)
        &&& self.pending@.no_duplicates()
        &&& forall|k: int|
            0 <= k < self.pending@.len() ==> m.dom().contains(#[trigger] self.pending@[k])
        &&& forall|id: u64| #[trigger] m.dom().contains(id) ==> self.pending@.contains(id)
    }

    /// How much of the search tree the frontier can still expand.  Strictly
    /// decreases with every delivered solution: the search terminates.
    pub closed spec fn work_left(&self) -> nat {
        ids_weight(self.pending@, self.arena@)
    }

    /// Pops and expands frontier states best-first until the next complete
    /// tour appears, and delivers it; `None` exactly when every tour
    /// reachable from the root has been delivered.
    #[verifier::rlimit(100)]
    pub fn next_solution(&mut self) -> (r: Option<State>)
        requires
            old(self).wf(),
        ensures
            final(self).wf(),
            final(self).root() == old(self).root(),
            match r {
                Some(s) => {
                    &&& s.wf()
                    &&& s@.size == old(self).root().size
                    &&& tour_from(old(self).root(), s@.path)
                    &&& !old(self).emitted().contains(s@.path)
                    &&& final(self).emitted() == old(self).emitted().insert(s@.path)
                    &&& final(self).work_left() < old(self).work_left()
                },
                None => {
                    &&& final(self).emitted() == old(self).emitted()
                    &&& forall|t: Seq<Cell>|
                        #[trigger] tour_from(old(self).root(), t) ==> old(
                            self,
                        ).emitted().contains(t)
                },
            },
    {
        loop
            invariant
                self.wf(),
                self.root@ == old(self).root(),
                self.emitted@ == old(self).emitted(),
                ids_weight(self.pending@, self.arena@) <= old(self).work_left(),
            decreases ids_weight(self.pending@, self.arena@),
        {
            let ghost v = self.root@;
            let ghost m_pre = frontier_entries(self.frontier);
            let ghost arena_pre = self.arena@;
            let ghost pend_pre = self.pending@;
            let ghost w_pre = ids_weight(pend_pre, arena_pre);
            let popped = frontier_pop(&mut self.frontier);
            match popped {
                None => {
                    proof {
                        assert forall|t: Seq<Cell>|
                            #[trigger] tour_from(v, t) implies self.emitted@.contains(t) by {
                            assert(!covered(m_pre, arena_pre, t));
                        }
                    }
                    return None;
                },
                Some(entry) => {
                    let id: u64 = entry.0;
                    let ghost j = choose|j: int| 0 <= j < pend_pre.len() && pend_pre[j] == id;
                    proof {
                        assert(m_pre.dom().contains(id));
                        assert(pend_pre.contains(id));
                        assert(0 <= j < pend_pre.len() && pend_pre[j] == id);
                        lemma_pending_remove(pend_pre, j);
                        lemma_ids_weight_remove(pend_pre, arena_pre, j);
                    }
                    proof {
                        self.pending@ = pend_pre.remove(j);
                    }
                    let ghost pend_rem = self.pending@;
                    let ghost w_rem = ids_weight(pend_rem, arena_pre);
                    proof {
                        assert(w_pre == w_rem + tree_size(arena_pre[id as int]@));
                        assert forall|k: int|
                            0 <= k < pend_rem.len() implies frontier_entries(
                            self.frontier,
                        ).dom().contains(#[trigger] pend_rem[k]) by {
                            let e = pend_rem[k];
                            assert(pend_pre.contains(e));
                            let x = choose|x: int| 0 <= x < pend_pre.len() && pend_pre[x] == e;
                            assert(m_pre.dom().contains(pend_pre[x]));
                            assert(e != id);
                        }
                        assert forall|id2: u64|
                            #[trigger] frontier_entries(self.frontier).dom().contains(id2) implies
                        pend_rem.contains(id2) by {
                            assert(m_pre.dom().contains(id2));
                            assert(pend_pre.contains(id2));
                            assert(id2 != id);
                        }
                    }
                    proof {
                        assert((id as int) < arena_pre.len() && arena_pre[id as int].wf()
                            && arena_pre[id as int]@.size == v.size && partial_from(
                            v,
                            arena_pre[id as int]@.path,
                        ));
                    }
                    let alen: usize = self.arena.len();
                    proof {
                        assert((id as int) < alen as int);
                    }
                    let st = self.arena[id as usize].clone();
                    let ghost sv = st@.path;
                    proof {
                        lemma_wf_view(&st);
                        assert(sv == arena_pre[id as int]@.path);
                    }
                    if st.is_complete() {
                        let ghost t = sv;
                        proof {
                            assert(tour_from(v, t));
                            assert(is_prefix(t, t)) by {
                                assert(t.subrange(0, t.len() as int) =~= t);
                            }
                            assert(covered(m_pre, arena_pre, t));
                            assert(!self.emitted@.contains(t));
                        }
                        proof {
                            self.emitted@ = self.emitted@.insert(t);
                        }
                        proof {
                            let m = frontier_entries(self.frontier);
                            assert forall|t2: Seq<Cell>|
                                #[trigger] tour_from(v, t2) implies (self.emitted@.contains(t2)
                                <==> !covered(m, self.arena@, t2)) by {
                                if t2 == t {
                                    if covered(m, self.arena@, t2) {
                                        let id2 = choose|id2: u64|
                                            #[trigger] m.dom().contains(id2) && (id2 as int)
                                                < self.arena@.len() && is_prefix(
                                                self.arena@[id2 as int]@.path,
                                                t2,
                                            );
                                        assert(m_pre.dom().contains(id2) && id2 != id);
                                        assert(!is_prefix(
                                            self.arena@[id2 as int]@.path,
                                            self.arena@[id as int]@.path,
                                        ));
                                    }
                                } else {
                                    if covered(m_pre, self.arena@, t2) {
                                        let id2 = choose|id2: u64|
                                            #[trigger] m_pre.dom().contains(id2) && (id2 as int)
                                                < self.arena@.len() && is_prefix(
                                                self.arena@[id2 as int]@.path,
                                                t2,
                                            );
                                        if id2 == id {
                                            lemma_prefix_same_len(t, t2);
                                        } else {
                                            assert(m.dom().contains(id2));
                                            assert(covered(m, self.arena@, t2));
                                        }
                                    }
                                    if covered(m, self.arena@, t2) {
                                        let id2 = choose|id2: u64|
                                            #[trigger] m.dom().contains(id2) && (id2 as int)
                                                < self.arena@.len() && is_prefix(
                                                self.arena@[id2 as int]@.path,
                                                t2,
                                            );
                                        assert(m_pre.dom().contains(id2));
                                        assert(covered(m_pre, self.arena@, t2));
                                    }
                                }
                            }
                            assert(tree_size(st@) == 1);
                            assert(ids_weight(self.pending@, self.arena@) == w_rem);
                            assert(ids_weight(self.pending@, self.arena@) < w_pre);
                            assert(self.wf());
                        }
                        return Some(st);
                    } else {
                        let cands = st.possible_moves();
                        let ghost cs = cand_seq(st@);
                        let ghost m_rem = frontier_entries(self.frontier);
                        let ghost em = self.emitted@;
                        let ghost start = arena_pre.len() as int;
                        proof {
                            lemma_cand_seq(st@);
                            assert(sv.len() < v.size * v.size);
                            assert(tree_size(st@) == 1 + tree_size_upto(st@, cs.len() as int));
                            assert forall|id2: u64| #[trigger] m_rem.dom().contains(id2) implies (
                            !is_prefix(self.arena@[id2 as int]@.path, sv) && !is_prefix(
                                sv,
                                self.arena@[id2 as int]@.path,
                            )) by {
                                assert(m_pre.dom().contains(id2) && id2 != id);
                            }
                            // reshape the coverage fact around the popped state
                            assert forall|t: Seq<Cell>| #[trigger] tour_from(v, t) implies (
                            em.contains(t) <==> !(covered(m_rem, self.arena@, t) || (is_prefix(
                                sv,
                                t,
                            ) && exists|k: int|
                                0 <= k < cs.len() && t[sv.len() as int] == cs[k]))) by {
                                if covered(m_pre, arena_pre, t) {
                                    let id2 = choose|id2: u64|
                                        #[trigger] m_pre.dom().contains(id2) && (id2 as int)
                                            < arena_pre.len() && is_prefix(
                                            arena_pre[id2 as int]@.path,
                                            t,
                                        );
                                    if id2 == id {
                                        lemma_tour_next_cell(v, sv, t);
                                        assert(st@.is_candidate(t[sv.len() as int]));
                                        assert(cs.contains(t[sv.len() as int]));
                                        let k = choose|k: int|
                                            0 <= k < cs.len() && cs[k] == t[sv.len() as int];
                                        assert(0 <= k < cs.len() && t[sv.len() as int] == cs[k]);
                                    } else {
                                        assert(m_rem.dom().contains(id2));
                                        assert(covered(m_rem, self.arena@, t));
                                    }
                                }
                                if covered(m_rem, self.arena@, t) {
                                    let id2 = choose|id2: u64|
                                        #[trigger] m_rem.dom().contains(id2) && (id2 as int)
                                            < self.arena@.len() && is_prefix(
                                            self.arena@[id2 as int]@.path,
                                            t,
                                        );
                                    assert(m_pre.dom().contains(id2));
                                    assert(covered(m_pre, arena_pre, t));
                                }
                                if is_prefix(sv, t) {
                                    assert(covered(m_pre, arena_pre, t));
                                }
                            }
                        }
                        proof {
                            lemma_square_bounds(st@.size);
                        }
                        let depth: u64 = st.filled_count() as u64 + 1;
                        let mut i: usize = 0;
                        while i < cands.len()
                            invariant
                                self.root@ == v,
                                self.root@ == old(self).root(),
                                self.emitted@ == old(self).emitted(),
                                self.emitted@ == em,
                                v.wf(),
                                st.wf(),
                                st@.path == sv,
                                st@.size == v.size,
                                partial_from(v, sv),
                                sv.len() < v.size * v.size,
                                !st@.complete(),
                                cs == cand_seq(st@),
                                cands@.len() == cs.len(),
                                forall|j2: int|
                                    0 <= j2 < cands@.len() ==> cellv(#[trigger] cands@[j2])
                                        == cs[j2],
                                i <= cands@.len(),
                                start == arena_pre.len(),
                                self.arena@.len() == start + i,
                                forall|j2: int| 0 <= j2 < start ==> self.arena@[j2] == arena_pre[j2],
                                forall|k: int|
                                    0 <= k < i ==> ((#[trigger] self.arena@[start + k]).wf()
                                        && self.arena@[start + k]@.size == v.size
                                        && self.arena@[start + k]@.path == sv.push(cs[k])
                                        && partial_from(v, self.arena@[start + k]@.path)),
                                forall|id2: u64|
                                    #[trigger] frontier_entries(self.frontier).dom().contains(id2)
                                        <==> (m_rem.dom().contains(id2) || (start <= id2 as int
                                        && (id2 as int) < start + i)),
                                forall|id2: u64|
                                    #[trigger] m_rem.dom().contains(id2) ==> (id2 as int) < start,
                                forall|id2: u64|
                                    #[trigger] frontier_entries(self.frontier).dom().contains(id2)
                                        ==> ((id2 as int) < self.arena@.len()
                                        && self.arena@[id2 as int].wf()
                                        && self.arena@[id2 as int]@.size == v.size && partial_from(
                                        v,
                                        self.arena@[id2 as int]@.path,
                                    )),
                                forall|id1: u64, id2: u64|
                                    #![trigger frontier_entries(self.frontier).dom().contains(id1), frontier_entries(self.frontier).dom().contains(id2)]
                                    frontier_entries(self.frontier).dom().contains(id1)
                                        && frontier_entries(self.frontier).dom().contains(id2)
                                        && id1 != id2 ==> !is_prefix(
                                        self.arena@[id1 as int]@.path,
                                        self.arena@[id2 as int]@.path,
                                    ),
                                forall|id2: u64|
                                    #[trigger] m_rem.dom().contains(id2) ==> (!is_prefix(
                                        self.arena@[id2 as int]@.path,
                                        sv,
                                    ) && !is_prefix(sv, self.arena@[id2 as int]@.path)),
                                forall|t: Seq<Cell>|
                                    #[trigger] tour_from(v, t) ==> (em.contains(t) <==> !(covered(
                                        frontier_entries(self.frontier),
                                        self.arena@,
                                        t,
                                    ) || (is_prefix(sv, t) && exists|k: int|
                                        i <= k < cs.len() && t[sv.len() as int] == cs[k]))),
                                forall|t: Seq<Cell>|
                                    #[trigger] em.contains(t) ==> tour_from(v, t),
                                pend_rem.no_duplicates(),
                                forall|k: int|
                                    0 <= k < pend_rem.len() ==> m_rem.dom().contains(
                                        #[trigger] pend_rem[k],
                                    ),
                                self.pending@.len() == pend_rem.len() + i,
                                forall|k: int|
                                    0 <= k < pend_rem.len() ==> self.pending@[k] == pend_rem[k],
                                forall|k: int|
                                    0 <= k < i ==> ((#[trigger] self.pending@[pend_rem.len()
                                        + k]) as int) == start + k,
                                self.pending@.no_duplicates(),
                                forall|k: int|
                                    0 <= k < self.pending@.len() ==> frontier_entries(
                                        self.frontier,
                                    ).dom().contains(#[trigger] self.pending@[k]),
                                forall|id2: u64|
                                    #[trigger] frontier_entries(self.frontier).dom().contains(id2)
                                        ==> self.pending@.contains(id2),
                                ids_weight(self.pending@, self.arena@) == w_rem + tree_size_upto(
                                    st@,
                                    i as int,
                                ),
                                w_pre == w_rem + tree_size(st@),
                                w_pre <= old(self).work_left(),
                            decreases cands@.len() - i,
                        {
                            let ghost m_cur = frontier_entries(self.frontier);
                            let ghost arena_cur = self.arena@;
                            let ghost pend_cur = self.pending@;
                            let m = cands[i];
                            proof {
                                lemma_cand_seq(st@);
                                assert(cs.contains(cs[i as int]));
                                assert(st@.is_candidate(cellv(m)));
                            }
                            let child = st.make_move(m);
                            let ghost c = cellv(m);
                            let ghost p_new = sv.push(c);
                            let score: u64 = match self.scorer {
                                Scorer::Local => {
                                    let ct = st.move_value(m);
                                    proof {
                                        lemma_cand_len_le8(st@.step(c));
                                    }
                                    8 - (ct as u64)
                                },
                                Scorer::Global => st.sum_moves(m),
                            };
                            let id2: u64 = self.arena.len() as u64;
                            proof {
                                assert(!frontier_entries(self.frontier).dom().contains(id2));
                            }
                            frontier_push(&mut self.frontier, id2, (depth, score));
                            self.arena.push(child);
                            proof {
                                self.pending@ = pend_cur.push(id2);
                            }
                            i = i + 1;
                            proof {
                                let m_new = frontier_entries(self.frontier);
                                let arena_new = self.arena@;
                                lemma_wf_view(&child);
                                assert(child@ == StateView { size: v.size, path: p_new });
                                // the new entry is a reached partial tour
                                assert(partial_from(v, p_new)) by {
                                    assert(is_prefix(sv, p_new)) by {
                                        assert(p_new.subrange(0, sv.len() as int) =~= sv);
                                    }
                                    lemma_prefix_trans(v.path, sv, p_new);
                                    assert forall|ix: int|
                                        v.path.len() <= ix < p_new.len() && 1 <= ix implies
                                        crate::model::is_leap(
                                            p_new[ix - 1],
                                            #[trigger] p_new[ix],
                                        ) by {
                                        if ix < sv.len() {
                                            assert(partial_from(v, sv));
                                        } else {
                                            assert(p_new[ix] == c);
                                            assert(st@.is_candidate(c));
                                        }
                                    }
                                }
                                // prefix relations of the new entry
                                assert forall|id3: u64|
                                    m_new.dom().contains(id3) && id3 != id2 implies (!is_prefix(
                                    arena_new[id3 as int]@.path,
                                    p_new,
                                ) && !is_prefix(p_new, arena_new[id3 as int]@.path)) by {
                                    let q = arena_new[id3 as int]@.path;
                                    if m_rem.dom().contains(id3) {
                                        assert(q == arena_cur[id3 as int]@.path);
                                        if is_prefix(q, p_new) {
                                            lemma_prefix_of_push(q, sv, c);
                                            if q.len() <= sv.len() {
                                                assert(is_prefix(q, sv));
                                            } else {
                                                assert(q == p_new);
                                                assert(is_prefix(sv, p_new)) by {
                                                    assert(p_new.subrange(0, sv.len() as int)
                                                        =~= sv);
                                                }
                                                assert(is_prefix(sv, q));
                                            }
                                        }
                                        if is_prefix(p_new, q) {
                                            assert(is_prefix(sv, p_new)) by {
                                                assert(p_new.subrange(0, sv.len() as int) =~= sv);
                                            }
                                            lemma_prefix_trans(sv, p_new, q);
                                        }
                                    } else {
                                        let k = id3 as int - start;
                                        assert(m_cur.dom().contains(id3));
                                        assert(0 <= k < i - 1);
                                        assert((id3 as int) < arena_cur.len());
                                        assert(arena_new[id3 as int] == arena_cur[id3 as int]);
                                        assert(arena_cur[start + k]@.path == sv.push(cs[k]));
                                        assert(q == sv.push(cs[k]));
                                        assert(cs[k] != cs[i as int - 1]) by {
                                            lemma_cand_seq(st@);
                                            assert(cs.no_duplicates());
                                        }
                                        if is_prefix(q, p_new) {
                                            lemma_prefix_same_len(q, p_new);
                                            assert(q[q.len() - 1] == cs[k]);
                                            assert(p_new[p_new.len() - 1] == c);
                                        }
                                        if is_prefix(p_new, q) {
                                            lemma_prefix_same_len(p_new, q);
                                            assert(q[q.len() - 1] == cs[k]);
                                            assert(p_new[p_new.len() - 1] == c);
                                        }
                                    }
                                }
                                // coverage after pushing this child
                                assert forall|t: Seq<Cell>| #[trigger] tour_from(v, t) implies (
                                em.contains(t) <==> !(covered(m_new, arena_new, t) || (is_prefix(
                                    sv,
                                    t,
                                ) && exists|k: int|
                                    i <= k < cs.len() && t[sv.len() as int] == cs[k]))) by {
                                    lemma_prefix_push(sv, c, t);
                                    if covered(m_new, arena_new, t) {
                                        let id3 = choose|id3: u64|
                                            #[trigger] m_new.dom().contains(id3) && (id3 as int)
                                                < arena_new.len() && is_prefix(
                                                arena_new[id3 as int]@.path,
                                                t,
                                            );
                                        if id3 == id2 {
                                            assert(is_prefix(p_new, t));
                                            assert(is_prefix(sv, t) && t[sv.len() as int]
                                                == cs[i as int - 1]);
                                            assert(!em.contains(t));
                                        } else {
                                            assert(m_cur.dom().contains(id3));
                                            assert(arena_new[id3 as int]
                                                == arena_cur[id3 as int]);
                                            assert(covered(m_cur, arena_cur, t));
                                            assert(!em.contains(t));
                                        }
                                    }
                                    if is_prefix(sv, t) && exists|k: int|
                                        i <= k < cs.len() && t[sv.len() as int] == cs[k] {
                                        assert(!em.contains(t));
                                    }
                                    if !em.contains(t) {
                                        if covered(m_cur, arena_cur, t) {
                                            let id3 = choose|id3: u64|
                                                #[trigger] m_cur.dom().contains(id3) && (
                                                id3 as int) < arena_cur.len() && is_prefix(
                                                    arena_cur[id3 as int]@.path,
                                                    t,
                                                );
                                            assert(m_new.dom().contains(id3));
                                            assert(arena_new[id3 as int]
                                                == arena_cur[id3 as int]);
                                            assert(covered(m_new, arena_new, t));
                                        } else {
                                            let k = choose|k: int|
                                                (i - 1) <= k < cs.len() && t[sv.len() as int]
                                                    == cs[k];
                                            if k == i - 1 {
                                                assert(is_prefix(p_new, t));
                                                assert(m_new.dom().contains(id2));
                                                assert(arena_new[id2 as int]@.path == p_new);
                                                assert(covered(m_new, arena_new, t));
                                            } else {
                                                assert(i <= k < cs.len() && t[sv.len() as int]
                                                    == cs[k]);
                                            }
                                        }
                                    }
                                }
                                // pending bookkeeping for the new entry
                                assert forall|k: int|
                                    0 <= k < pend_cur.len() implies ((#[trigger] pend_cur[k]) as int)
                                    < arena_cur.len() by {
                                    if k < pend_rem.len() {
                                        assert(pend_cur[k] == pend_rem[k]);
                                        assert(m_rem.dom().contains(pend_rem[k]));
                                        assert((pend_rem[k] as int) < start);
                                    } else {
                                        let kk = k - pend_rem.len();
                                        assert((pend_cur[pend_rem.len() + kk] as int) == start
                                            + kk);
                                        assert(kk < i - 1);
                                    }
                                }
                                lemma_ids_weight_grow(pend_cur, arena_cur, arena_new);
                                lemma_ids_weight_push(pend_cur, arena_new, id2);
                                assert(arena_new[id2 as int]@ == st@.step(cs[i as int - 1]));
                                assert(tree_size_upto(st@, i as int) == tree_size_upto(
                                    st@,
                                    i as int - 1,
                                ) + tree_size(st@.step(cand_seq(st@)[i as int - 1])));
                                assert(ids_weight(self.pending@, self.arena@) == w_rem
                                    + tree_size_upto(st@, i as int));
                                assert(self.pending@.no_duplicates()) by {
                                    assert forall|x1: int, x2: int|
                                        0 <= x1 < x2 < self.pending@.len() implies
                                        self.pending@[x1] != self.pending@[x2] by {
                                        assert(self.pending@[x1] == pend_cur[x1]);
                                        if x2 == self.pending@.len() - 1 {
                                            assert(self.pending@[x2] == id2);
                                            assert((id2 as int) == start + (i - 1));
                                            if x1 < pend_rem.len() {
                                                assert(pend_cur[x1] == pend_rem[x1]);
                                                assert(m_rem.dom().contains(pend_rem[x1]));
                                                assert((pend_rem[x1] as int) < start);
                                            } else {
                                                let kk = x1 - pend_rem.len();
                                                assert((pend_cur[pend_rem.len() + kk] as int)
                                                    == start + kk);
                                                assert(kk < i - 1);
                                            }
                                        } else {
                                            assert(self.pending@[x2] == pend_cur[x2]);
                                        }
                                    }
                                }
                                assert forall|id3: u64|
                                    #[trigger] m_new.dom().contains(id3) implies
                                self.pending@.contains(id3) by {
                                    if id3 == id2 {
                                        assert(self.pending@[self.pending@.len() - 1] == id2);
                                    } else {
                                        assert(m_cur.dom().contains(id3));
                                        assert(pend_cur.contains(id3));
                                        let x = choose|x: int|
                                            0 <= x < pend_cur.len() && pend_cur[x] == id3;
                                        assert(self.pending@[x] == id3);
                                    }
                                }
                            }
                        }
                        proof {
                            let m_end = frontier_entries(self.frontier);
                            assert forall|t: Seq<Cell>|
                                #[trigger] tour_from(v, t) implies (self.emitted@.contains(t)
                                <==> !covered(m_end, self.arena@, t)) by {
                                assert(!(exists|k: int|
                                    cands@.len() <= k < cs.len() && t[sv.len() as int] == cs[k]));
                            }
                            assert(tree_size(st@) == 1 + tree_size_upto(st@, cs.len() as int));
                            assert(ids_weight(self.pending@, self.arena@) == w_rem
                                + tree_size_upto(st@, cs.len() as int));
                            assert(ids_weight(self.pending@, self.arena@) < w_pre);
                            assert(self.wf());
                        }
                    }
                },
            }
        }
    }
}


impl State {
    /// Seeds a best-first exhaustive search at this state.  Successive calls
    /// to `Search::next_solution` stream every complete tour reachable from
    /// here, each exactly once, in the heuristic's exploration order.
    pub fn find_solutions(&self, scorer: Scorer) -> (r: Search)
        requires
            self.wf(),
        ensures
            r.wf(),
            r.root() == self@,
            r.emitted() == Set::<Seq<Cell>>::empty(),
    {
        let mut q = frontier_new();
        frontier_push(&mut q, 0, (0, 0));
        let mut arena: Vec<State> = Vec::new();
        arena.push(self.clone());
        let r = Search {
            scorer,
            root: Ghost(self@),
            arena,
            frontier: q,
            emitted: Ghost(Set::empty()),
            pending: Ghost(Seq::empty().push(0u64)),
        };
        proof {
            lemma_wf_view(self);
            let m = frontier_entries(r.frontier);
            assert(m.dom().contains(0u64));
            assert forall|id: u64| #[trigger] m.dom().contains(id) implies id == 0u64 by {}
            assert(r.arena@[0]@ == self@);
            assert(partial_from(self@, self@.path)) by {
                assert(self@.path.subrange(0, self@.path.len() as int) =~= self@.path);
            }
            assert forall|t: Seq<Cell>| #[trigger] tour_from(self@, t) implies (
            r.emitted@.contains(t) <==> !covered(m, r.arena@, t)) by {
                assert(is_prefix(self@.path, t));
                assert(covered(m, r.arena@, t));
            }
            assert(r.pending@[0] == 0u64);
            assert forall|id: u64| #[trigger] m.dom().contains(id) implies r.pending@.contains(
                id,
            ) by {
                assert(r.pending@[0] == id);
            }
            assert(r.wf());
        }
        r
    }

    /// Runs the best-first exhaustive search to completion and collects every
    /// complete tour reachable from this state, each exactly once.
    pub fn solve_all(&self) -> (r: Vec<State>)
        requires
            self.wf(),
        ensures
            forall|i: int|
                0 <= i < r@.len() ==> ((#[trigger] r@[i]).wf() && r@[i]@.size == self@.size
                    && tour_from(self@, r@[i]@.path)),
            forall|i: int, j: int| 0 <= i < j < r@.len() ==> r@[i]@.path != r@[j]@.path,
            forall|t: Seq<Cell>|
                #[trigger] tour_from(self@, t) ==> exists|i: int|
                    0 <= i < r@.len() && r@[i]@.path == t,
    {
        let mut search = self.find_solutions(Scorer::Global);
        let mut out: Vec<State> = Vec::new();
        loop
            invariant
                search.wf(),
                search.root() == self@,
                forall|i: int|
                    0 <= i < out@.len() ==> ((#[trigger] out@[i]).wf() && out@[i]@.size
                        == self@.size && tour_from(self@, out@[i]@.path)),
                forall|i: int, j: int| 0 <= i < j < out@.len() ==> out@[i]@.path != out@[j]@.path,
                forall|t: Seq<Cell>|
                    #[trigger] search.emitted().contains(t) <==> exists|i: int|
                        0 <= i < out@.len() && out@[i]@.path == t,
            ensures
                forall|i: int|
                    0 <= i < out@.len() ==> ((#[trigger] out@[i]).wf() && out@[i]@.size
                        == self@.size && tour_from(self@, out@[i]@.path)),
                forall|i: int, j: int| 0 <= i < j < out@.len() ==> out@[i]@.path != out@[j]@.path,
                forall|t: Seq<Cell>|
                    #[trigger] tour_from(self@, t) ==> exists|i: int|
                        0 <= i < out@.len() && out@[i]@.path == t,
            decreases search.work_left(),
        {
            let ghost em_before = search.emitted();
            let ghost out_before = out@;
            let next = search.next_solution();
            match next {
                Some(s) => {
                    proof {
                        assert(!(exists|i: int|
                            0 <= i < out_before.len() && out_before[i]@.path == s@.path));
                    }
                    out.push(s);
                    proof {
                        assert forall|t: Seq<Cell>|
                            #[trigger] search.emitted().contains(t) implies exists|i: int|
                            0 <= i < out@.len() && out@[i]@.path == t by {
                            if em_before.contains(t) {
                                let i = choose|i: int|
                                    0 <= i < out_before.len() && out_before[i]@.path == t;
                                assert(out@[i]@.path == t);
                            } else {
                                assert(t == s@.path);
                                assert(out@[out@.len() - 1]@.path == t);
                            }
                        }
                        assert forall|t: Seq<Cell>|
                            (exists|i: int| 0 <= i < out@.len() && out@[i]@.path == t) implies
                            #[trigger] search.emitted().contains(t) by {
                            let i = choose|i: int| 0 <= i < out@.len() && out@[i]@.path == t;
                            if i < out@.len() - 1 {
                                assert(out_before[i]@.path == t);
                            } else {
                                assert(t == s@.path);
                            }
                        }
                    }
                },
                None => {
                    proof {
                        assert forall|t: Seq<Cell>| #[trigger] tour_from(self@, t) implies exists|
                            i: int,
                        | 0 <= i < out@.len() && out@[i]@.path == t by {
                            assert(search.emitted().contains(t));
                        }
                    }
                    break;
                },
            }
        }
        out
    }
}


/// Solves a board handed over as a grid of stamped numbers: the counterpart
/// of the state API for callers that hold plain grids.  Returns the grid of a
/// completed tour when the input encodes a valid position that some tour
/// completes; none when the grid is invalid or no tour completes it.
pub fn solve(field: &Vec<Vec<usize>>) -> (r: Option<Vec<Vec<usize>>>)
    ensures
        match r {
            Some(g) => exists|v: StateView, t: Seq<Cell>|
                v.wf() && grid_matches(v, field.deep_view()) && tour_from(v, t) && grid_matches(
                    (StateView { size: v.size, path: t }),
                    g.deep_view(),
                ),
            None => forall|v: StateView|
                v.wf() && #[trigger] grid_matches(v, field.deep_view()) ==> !solvable(v),
        },
{
    match State::from_grid(field) {
        None => None,
        Some(s) => {
            match s.solve() {
                None => {
                    proof {
                        lemma_wf_view(&s);
                        assert forall|v: StateView|
                            v.wf() && #[trigger] grid_matches(v, field.deep_view()) implies
                        !solvable(v) by {
                            lemma_grid_matches_unique(v, s@, field.deep_view());
                        }
                    }
                    None
                },
                Some(sol) => {
                    let g = sol.to_grid();
                    proof {
                        lemma_wf_view(&s);
                        lemma_wf_view(&sol);
                        assert(sol@ == StateView { size: s@.size, path: sol@.path });
                        assert(grid_matches(s@, field.deep_view()) && tour_from(s@, sol@.path)
                            && grid_matches(
                            (StateView { size: s@.size, path: sol@.path }),
                            g.deep_view(),
                        ));
                    }
                    Some(g)
                },
            }
        },
    }
}

} // verus!
