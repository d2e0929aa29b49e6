//! Mathematical model of the leaper-tour puzzle.
//!
//! A state is modelled as the sequence of cells visited so far (`StateView`).
//! The exec types in `state` carry this sequence as ghost data; the search
//! strategies in `search` are specified entirely over this model.

use vstd::arithmetic::div_mod::lemma_fundamental_div_mod;
use vstd::arithmetic::div_mod::lemma_fundamental_div_mod_converse;
use vstd::prelude::*;

verus! {

/// Largest supported board side.  It keeps `size * size` cell indices and the
/// heuristic scores within the machine integer types the implementation uses.
pub const MAX_SIZE: usize = 46340;

/// A board cell in the model: `(column, row)`.
pub type Cell = (int, int);

/// The eight fixed leaper offsets, in the fixed order move generation follows:
/// distance three along an axis, or two along both diagonals.
pub open spec fn offsets() -> Seq<Cell> {
    seq![(-3, 0), (3, 0), (0, -3), (0, 3), (-2, -2), (-2, 2), (2, -2), (2, 2)]
}

pub open spec fn in_bounds(size: int, c: Cell) -> bool {
    0 <= c.0 < size && 0 <= c.1 < size
}

/// The cell reached from `c` by the offset `o` (the generator subtracts the
/// offset; the offset set is closed under negation, so the reachable set is
/// the same either way).
pub open spec fn leap_target(c: Cell, o: Cell) -> Cell {
    (c.0 - o.0, c.1 - o.1)
}

/// `b` is exactly one leaper move away from `a`.
pub open spec fn is_leap(a: Cell, b: Cell) -> bool {
    exists|k: int| 0 <= k < 8 && b == leap_target(a, offsets()[k])
}

/// The model of a search state: the board side and the visit sequence.
/// `path[k]` is the cell stamped with number `k + 1`.
pub ghost struct StateView {
    pub size: int,
    pub path: Seq<Cell>,
}

impl StateView {
    /// Well-formed: a supported side, and a visit sequence of distinct
    /// in-bounds cells that fits on the board.
    pub open spec fn wf(self) -> bool {
        &&& 1 <= self.size <= MAX_SIZE
        &&& self.path.len() <= self.size * self.size
        &&& forall|k: int| 0 <= k < self.path.len() ==> in_bounds(self.size, #[trigger] self.path[k])
        &&& forall|k1: int, k2: int|
            0 <= k1 < k2 < self.path.len() ==> self.path[k1] != self.path[k2]
    }

    /// Every cell is stamped.
    pub open spec fn complete(self) -> bool {
        self.path.len() == self.size * self.size
    }

    /// The state after stamping one more cell.
    pub open spec fn step(self, c: Cell) -> StateView {
        StateView { size: self.size, path: self.path.push(c) }
    }

    /// `c` is a legal next cell: in bounds, unoccupied, and (once the tour has
    /// started) one leaper move away from the current position.  Before the
    /// first move every in-bounds cell is a candidate.
    pub open spec fn is_candidate(self, c: Cell) -> bool {
        &&& in_bounds(self.size, c)
        &&& !self.path.contains(c)
        &&& self.path.len() > 0 ==> is_leap(self.path.last(), c)
    }
}

/// Row-major index of a cell in the flattened grid.
pub open spec fn cell_index(size: int, c: Cell) -> int {
    c.1 * size + c.0
}

/// The number stamped at cell `c`: the visit order (1-based), or 0 if empty.
pub open spec fn stamp(v: StateView, c: Cell) -> int {
    if v.path.contains(c) {
        v.path.index_of(c) + 1
    } else {
        0
    }
}

/// `g` is exactly the grid of stamped numbers of `v`, row by row: `g[y][x]`
/// holds the visit order of `(x, y)`, or 0 while that cell is empty.
pub open spec fn grid_matches(v: StateView, g: Seq<Seq<usize>>) -> bool {
    &&& g.len() == v.size
    &&& forall|y: int| 0 <= y < v.size ==> (#[trigger] g[y]).len() == v.size
    &&& forall|c: Cell| in_bounds(v.size, c) ==> g[c.1][c.0] == #[trigger] stamp(v, c)
}

/// The number stamped at the `k`-th visited cell is `k + 1`.
pub proof fn lemma_stamp_at(v: StateView, k: int)
    requires
        v.wf(),
        0 <= k < v.path.len(),
    ensures
        stamp(v, v.path[k]) == k + 1,
{
    assert(v.path.contains(v.path[k]));
    let i = v.path.index_of(v.path[k]);
    assert(0 <= i < v.path.len() && v.path[i] == v.path[k]);
}

/// The stamp of any cell is at most the number of visited cells, and a
/// nonzero stamp identifies the visited cell.
pub proof fn lemma_stamp_inv(v: StateView, c: Cell)
    requires
        v.wf(),
    ensures
        0 <= stamp(v, c) <= v.path.len(),
        stamp(v, c) > 0 ==> v.path[stamp(v, c) - 1] == c,
{
    if v.path.contains(c) {
        let i = v.path.index_of(c);
        assert(0 <= i < v.path.len() && v.path[i] == c);
    }
}

/// A grid of stamped numbers determines the state: no two well-formed states
/// share a grid.
pub proof fn lemma_grid_matches_unique(v1: StateView, v2: StateView, g: Seq<Seq<usize>>)
    requires
        v1.wf(),
        v2.wf(),
        grid_matches(v1, g),
        grid_matches(v2, g),
    ensures
        v1 == v2,
{
    assert(v1.size == v2.size);
    assert(v1.path.len() == v2.path.len()) by {
        if v1.path.len() < v2.path.len() {
            let c = v2.path[v1.path.len() as int];
            lemma_stamp_at(v2, v1.path.len() as int);
            lemma_stamp_inv(v1, c);
            assert(in_bounds(v2.size, c));
            assert(g[c.1][c.0] == stamp(v2, c));
            assert(g[c.1][c.0] == stamp(v1, c));
        }
        if v2.path.len() < v1.path.len() {
            let c = v1.path[v2.path.len() as int];
            lemma_stamp_at(v1, v2.path.len() as int);
            lemma_stamp_inv(v2, c);
            assert(in_bounds(v1.size, c));
            assert(g[c.1][c.0] == stamp(v1, c));
            assert(g[c.1][c.0] == stamp(v2, c));
        }
    }
    assert forall|k: int| 0 <= k < v1.path.len() implies v1.path[k] == v2.path[k] by {
        let c = v1.path[k];
        lemma_stamp_at(v1, k);
        assert(in_bounds(v1.size, c));
        assert(g[c.1][c.0] == stamp(v1, c));
        assert(g[c.1][c.0] == stamp(v2, c));
        lemma_stamp_inv(v2, c);
    }
    assert(v1.path =~= v2.path);
}

/// Every cell of the board, in the fixed first-move enumeration order.
pub open spec fn all_cells(size: int) -> Seq<Cell> {
    Seq::new((size * size) as nat, |i: int| (i / size, i % size))
}

/// The legal leaper moves among the first `n` offsets, in offset order.
pub open spec fn leap_cand_upto(v: StateView, n: int) -> Seq<Cell>
    decreases n,
{
    if n <= 0 {
        Seq::empty()
    } else {
        let pre = leap_cand_upto(v, n - 1);
        let c = leap_target(v.path.last(), offsets()[n - 1]);
        if in_bounds(v.size, c) && !v.path.contains(c) {
            pre.push(c)
        } else {
            pre
        }
    }
}

/// The candidate moves of a state, in the fixed generation order.
pub open spec fn cand_seq(v: StateView) -> Seq<Cell> {
    if v.path.len() == 0 {
        all_cells(v.size)
    } else {
        leap_cand_upto(v, 8)
    }
}

/// Number of legal leaper moves from `c` among the first `n` offsets:
/// targets in bounds and unoccupied.
pub open spec fn degree_upto(v: StateView, c: Cell, n: int) -> int
    decreases n,
{
    if n <= 0 {
        0
    } else {
        degree_upto(v, c, n - 1) + (
        if in_bounds(v.size, leap_target(c, offsets()[n - 1])) && !v.path.contains(
            leap_target(c, offsets()[n - 1]),
        ) {
            1int
        } else {
            0int
        })
    }
}

/// Number of legal leaper moves from `c`.
pub open spec fn degree(v: StateView, c: Cell) -> int {
    degree_upto(v, c, 8)
}

/// Sum of the degrees of the empty cells of row `y`, columns `[0, n)`.
pub open spec fn row_score(v: StateView, y: int, n: int) -> int
    decreases n,
{
    if n <= 0 {
        0
    } else {
        row_score(v, y, n - 1) + (
        if v.path.contains((n - 1, y)) {
            0int
        } else {
            degree(v, (n - 1, y))
        })
    }
}

/// Sum of the degrees of the empty cells of rows `[0, n)`.
pub open spec fn rows_score(v: StateView, n: int) -> int
    decreases n,
{
    if n <= 0 {
        0
    } else {
        rows_score(v, n - 1) + row_score(v, n - 1, v.size)
    }
}

/// The global heuristic score: the total remaining flexibility of the board,
/// the sum over every empty cell of the number of legal leaper moves from it.
pub open spec fn global_score(v: StateView) -> int {
    rows_score(v, v.size)
}

pub proof fn lemma_degree_bounds(v: StateView, c: Cell, n: int)
    requires
        0 <= n <= 8,
    ensures
        0 <= degree_upto(v, c, n) <= n,
    decreases n,
{
    if n > 0 {
        lemma_degree_bounds(v, c, n - 1);
    }
}

pub proof fn lemma_row_score_bounds(v: StateView, y: int, n: int)
    requires
        0 <= n,
    ensures
        0 <= row_score(v, y, n) <= 8 * n,
    decreases n,
{
    if n > 0 {
        lemma_row_score_bounds(v, y, n - 1);
        lemma_degree_bounds(v, (n - 1, y), 8);
    }
}

pub proof fn lemma_rows_score_bounds(v: StateView, n: int)
    requires
        0 <= n,
        0 <= v.size,
    ensures
        0 <= rows_score(v, n) <= 8 * v.size * n,
    decreases n,
{
    if n > 0 {
        lemma_rows_score_bounds(v, n - 1);
        lemma_row_score_bounds(v, n - 1, v.size);
        assert(8 * v.size * (n - 1) + 8 * v.size == 8 * v.size * n) by (nonlinear_arith);
    }
}

/// `p` is a prefix of `t`.
pub open spec fn is_prefix(p: Seq<Cell>, t: Seq<Cell>) -> bool {
    p.len() <= t.len() && t.subrange(0, p.len() as int) == p
}

/// `p` extends the visit sequence of `v` by legal leaper moves: `v.path` is a
/// prefix, and every later step follows one of the eight offsets.
pub open spec fn reaches(v: StateView, p: Seq<Cell>) -> bool {
    &&& is_prefix(v.path, p)
    &&& forall|i: int| v.path.len() <= i < p.len() && 1 <= i ==> is_leap(p[i - 1], #[trigger] p[i])
}

/// Every move after the first follows one of the eight offsets.
pub open spec fn chained(p: Seq<Cell>) -> bool {
    forall|i: int| 1 <= i < p.len() ==> is_leap(p[i - 1], #[trigger] p[i])
}

/// `t` is a complete tour that the search rooted at `v` can produce: a
/// well-formed visit sequence of every cell, extending `v.path` by legal
/// leaper moves.
pub open spec fn tour_from(v: StateView, t: Seq<Cell>) -> bool {
    &&& (StateView { size: v.size, path: t }).wf()
    &&& t.len() == v.size * v.size
    &&& reaches(v, t)
}

/// `p` is a partial search result from `v`: a well-formed visit sequence
/// extending `v.path` by legal leaper moves.
pub open spec fn partial_from(v: StateView, p: Seq<Cell>) -> bool {
    &&& (StateView { size: v.size, path: p }).wf()
    &&& reaches(v, p)
}

pub proof fn lemma_prefix_trans(a: Seq<Cell>, b: Seq<Cell>, c: Seq<Cell>)
    requires
        is_prefix(a, b),
        is_prefix(b, c),
    ensures
        is_prefix(a, c),
{
    assert forall|i: int| 0 <= i < a.len() implies c.subrange(0, a.len() as int)[i] == a[i] by {
        assert(b.subrange(0, a.len() as int)[i] == a[i]);
        assert(c.subrange(0, b.len() as int)[i] == b[i]);
    }
    assert(c.subrange(0, a.len() as int) =~= a);
}

pub proof fn lemma_prefix_same_len(a: Seq<Cell>, b: Seq<Cell>)
    requires
        is_prefix(a, b),
        a.len() == b.len(),
    ensures
        a == b,
{
    assert(b.subrange(0, b.len() as int) =~= b);
}

/// A pushed sequence is a prefix exactly when the base is a strict prefix and
/// the pushed cell is the continuation.
pub proof fn lemma_prefix_push(s: Seq<Cell>, c: Cell, t: Seq<Cell>)
    ensures
        is_prefix(s.push(c), t) <==> (s.len() < t.len() && is_prefix(s, t) && t[s.len() as int]
            == c),
{
    let n = s.len() as int;
    if is_prefix(s.push(c), t) {
        assert(t.subrange(0, n + 1)[n] == s.push(c)[n]);
        assert forall|i: int| 0 <= i < n implies t.subrange(0, n)[i] == s[i] by {
            assert(t.subrange(0, n + 1)[i] == s.push(c)[i]);
        }
        assert(t.subrange(0, n) =~= s);
    }
    if s.len() < t.len() && is_prefix(s, t) && t[n] == c {
        assert forall|i: int| 0 <= i < n + 1 implies t.subrange(0, n + 1)[i] == s.push(c)[i] by {
            if i < n {
                assert(t.subrange(0, n)[i] == s[i]);
            }
        }
        assert(t.subrange(0, n + 1) =~= s.push(c));
    }
}

/// A prefix of a pushed sequence is a prefix of the base, or the whole.
pub proof fn lemma_prefix_of_push(a: Seq<Cell>, s: Seq<Cell>, c: Cell)
    requires
        is_prefix(a, s.push(c)),
    ensures
        a.len() <= s.len() ==> is_prefix(a, s),
        a.len() == s.len() + 1 ==> a == s.push(c),
{
    let n = a.len() as int;
    if a.len() <= s.len() {
        assert forall|i: int| 0 <= i < n implies s.subrange(0, n)[i] == a[i] by {
            assert(s.push(c).subrange(0, n)[i] == a[i]);
        }
        assert(s.subrange(0, n) =~= a);
    } else {
        lemma_prefix_same_len(a, s.push(c));
    }
}

/// From a tour of `v` that extends the partial result `s`, the next cell of
/// the tour is a candidate of `s`, and the pushed prefix still precedes the
/// tour.
pub proof fn lemma_tour_next_cell(v: StateView, s: Seq<Cell>, t: Seq<Cell>)
    requires
        v.wf(),
        partial_from(v, s),
        s.len() < v.size * v.size,
        tour_from(v, t),
        is_prefix(s, t),
    ensures
        (StateView { size: v.size, path: s }).is_candidate(t[s.len() as int]),
        is_prefix(s.push(t[s.len() as int]), t),
{
    let n = s.len() as int;
    let c = t[n];
    let sv = StateView { size: v.size, path: s };
    assert(in_bounds(v.size, t[n]));  // the tour's own well-formedness at index n
    assert(!s.contains(c)) by {
        if s.contains(c) {
            let k = choose|k: int| 0 <= k < s.len() && s[k] == c;
            assert(t.subrange(0, n)[k] == t[k]);
            assert(t[k] == c);
            assert(t[k] != t[n]);  // distinctness of the tour
        }
    }
    if n >= 1 {
        assert(v.path.len() <= n) by {
            assert(is_prefix(v.path, s));
        }
        assert(is_leap(t[n - 1], t[n]));  // reaches(v, t) at index n
        assert(t.subrange(0, n)[n - 1] == t[n - 1]);
        assert(s.last() == t[n - 1]);
    }
    lemma_prefix_push(s, c, t);
}

/// A complete tour can be reached from `v`.  This unfolds exactly as the
/// backtracking search explores: a complete state is solved; otherwise some
/// candidate move must lead to a solvable state.
pub open spec fn solvable(v: StateView) -> bool
    decreases v.size * v.size - v.path.len(),
{
    if v.path.len() >= v.size * v.size {
        v.path.len() == v.size * v.size
    } else {
        exists|c: Cell| v.is_candidate(c) && solvable(v.step(c))
    }
}

/// The number of states in the search tree rooted at `v`: one for `v`, plus
/// the trees under each candidate move.  The termination measure of the
/// best-first search.
pub open spec fn tree_size(v: StateView) -> nat
    decreases v.size * v.size - v.path.len(), 1int, 0int,
{
    if v.path.len() >= v.size * v.size {
        1
    } else {
        1 + tree_size_upto(v, cand_seq(v).len() as int)
    }
}

/// The combined size of the trees under the first `k` candidate moves of `v`.
pub open spec fn tree_size_upto(v: StateView, k: int) -> nat
    decreases v.size * v.size - v.path.len(), 0int, k,
{
    if k <= 0 || v.path.len() >= v.size * v.size {
        0
    } else {
        tree_size_upto(v, k - 1) + tree_size(v.step(cand_seq(v)[k - 1]))
    }
}

pub proof fn lemma_cell_index_bounds(size: int, c: Cell)
    requires
        1 <= size,
        in_bounds(size, c),
    ensures
        0 <= cell_index(size, c) < size * size,
{
    assert(0 <= c.1 * size + c.0 < size * size) by (nonlinear_arith)
        requires
            1 <= size,
            0 <= c.0 < size,
            0 <= c.1 < size,
    ;
}

pub proof fn lemma_cell_index_injective(size: int, c1: Cell, c2: Cell)
    requires
        1 <= size,
        in_bounds(size, c1),
        in_bounds(size, c2),
        cell_index(size, c1) == cell_index(size, c2),
    ensures
        c1 == c2,
{
    assert(c1.0 == c2.0 && c1.1 == c2.1) by (nonlinear_arith)
        requires
            1 <= size,
            0 <= c1.0 < size,
            0 <= c1.1 < size,
            0 <= c2.0 < size,
            0 <= c2.1 < size,
            c1.1 * size + c1.0 == c2.1 * size + c2.0,
    ;
}

pub proof fn lemma_all_cells(size: int)
    requires
        1 <= size,
    ensures
        all_cells(size).len() == size * size,
        forall|c: Cell| all_cells(size).contains(c) <==> in_bounds(size, c),
        all_cells(size).no_duplicates(),
{
    assert(0 <= size * size) by (nonlinear_arith)
        requires 1 <= size,
    ;
    assert forall|c: Cell| all_cells(size).contains(c) implies in_bounds(size, c) by {
        let i = choose|i: int| 0 <= i < all_cells(size).len() && all_cells(size)[i] == c;
        lemma_fundamental_div_mod(i, size);
        assert(0 <= i % size < size);
        assert(0 <= i / size < size) by (nonlinear_arith)
            requires
                1 <= size,
                0 <= i < size * size,
                i == size * (i / size) + i % size,
                0 <= i % size < size,
        ;
    }
    assert forall|c: Cell| in_bounds(size, c) implies all_cells(size).contains(c) by {
        let i = c.0 * size + c.1;
        lemma_cell_index_bounds(size, ((c.1, c.0)));
        lemma_fundamental_div_mod_converse(i, size, c.0, c.1);
        assert(all_cells(size)[i] == c);
    }
    assert forall|i: int, j: int|
        0 <= i < all_cells(size).len() && 0 <= j < all_cells(size).len() && i != j implies
        all_cells(size)[i] != all_cells(size)[j] by {
        lemma_fundamental_div_mod(i, size);
        lemma_fundamental_div_mod(j, size);
    }
}

proof fn lemma_offsets_distinct()
    ensures
        forall|k1: int, k2: int| 0 <= k1 < k2 < 8 ==> offsets()[k1] != offsets()[k2],
{
}

proof fn lemma_leap_upto(v: StateView, n: int)
    requires
        v.path.len() > 0,
        0 <= n <= 8,
    ensures
        forall|c: Cell| #[trigger] leap_cand_upto(v, n).contains(c) <==> exists|k: int|
            0 <= k < n && c == leap_target(v.path.last(), offsets()[k]) && in_bounds(v.size, c)
                && !v.path.contains(c),
        leap_cand_upto(v, n).no_duplicates(),
    decreases n,
{
    lemma_offsets_distinct();
    if n > 0 {
        lemma_leap_upto(v, n - 1);
        let pre = leap_cand_upto(v, n - 1);
        let c0 = leap_target(v.path.last(), offsets()[n - 1]);
        if in_bounds(v.size, c0) && !v.path.contains(c0) {
            let cur = pre.push(c0);
            assert forall|c: Cell| #[trigger] cur.contains(c) implies exists|k: int|
                0 <= k < n && c == leap_target(v.path.last(), offsets()[k]) && in_bounds(v.size, c)
                    && !v.path.contains(c) by {
                let i = choose|i: int| 0 <= i < cur.len() && cur[i] == c;
                if i < pre.len() {
                    assert(pre.contains(c));
                } else {
                    assert(c == c0);
                    assert(0 <= n - 1 < n && c == leap_target(v.path.last(), offsets()[n - 1])
                        && in_bounds(v.size, c) && !v.path.contains(c));
                }
            }
            assert forall|c: Cell| (exists|k: int|
                0 <= k < n && c == leap_target(v.path.last(), offsets()[k]) && in_bounds(v.size, c)
                    && !v.path.contains(c)) implies #[trigger] cur.contains(c) by {
                let k = choose|k: int|
                    0 <= k < n && c == leap_target(v.path.last(), offsets()[k])
                        && in_bounds(v.size, c) && !v.path.contains(c);
                if k < n - 1 {
                    assert(pre.contains(c));
                    let i = choose|i: int| 0 <= i < pre.len() && pre[i] == c;
                    assert(cur[i] == c);
                } else {
                    assert(cur[cur.len() - 1] == c0);
                }
            }
            // the new element is not an earlier target, since the offsets differ
            assert(!pre.contains(c0)) by {
                if pre.contains(c0) {
                    let k = choose|k: int|
                        0 <= k < n - 1 && c0 == leap_target(v.path.last(), offsets()[k])
                            && in_bounds(v.size, c0) && !v.path.contains(c0);
                    assert(offsets()[k] != offsets()[n - 1]);
                    assert(leap_target(v.path.last(), offsets()[k])
                        != leap_target(v.path.last(), offsets()[n - 1]));
                }
            }
            assert(cur.no_duplicates()) by {
                assert forall|i: int, j: int|
                    0 <= i < cur.len() && 0 <= j < cur.len() && i != j implies cur[i] != cur[j] by {
                    if i < pre.len() && j < pre.len() {
                    } else if i < pre.len() {
                        assert(pre.contains(pre[i]));
                    } else if j < pre.len() {
                        assert(pre.contains(pre[j]));
                    }
                }
            }
        } else {
            assert forall|c: Cell| (exists|k: int|
                0 <= k < n && c == leap_target(v.path.last(), offsets()[k]) && in_bounds(v.size, c)
                    && !v.path.contains(c)) implies #[trigger] leap_cand_upto(v, n).contains(c) by {
                let k = choose|k: int|
                    0 <= k < n && c == leap_target(v.path.last(), offsets()[k])
                        && in_bounds(v.size, c) && !v.path.contains(c);
                assert(k < n - 1);
                assert(pre.contains(c));
            }
        }
    }
}

/// The candidate sequence of a well-formed state holds exactly the candidate
/// cells, each once; before the first move it holds every cell of the board.
pub proof fn lemma_cand_seq(v: StateView)
    requires
        v.wf(),
    ensures
        forall|c: Cell| #[trigger] cand_seq(v).contains(c) <==> v.is_candidate(c),
        cand_seq(v).no_duplicates(),
        v.path.len() == 0 ==> cand_seq(v).len() == v.size * v.size,
{
    if v.path.len() == 0 {
        lemma_all_cells(v.size);
        assert forall|c: Cell| #[trigger] cand_seq(v).contains(c) <==> v.is_candidate(c) by {
            assert(all_cells(v.size).contains(c) <==> in_bounds(v.size, c));
        }
    } else {
        lemma_leap_upto(v, 8);
        assert forall|c: Cell| #[trigger] cand_seq(v).contains(c) implies v.is_candidate(c) by {
            let k = choose|k: int|
                0 <= k < 8 && c == leap_target(v.path.last(), offsets()[k]) && in_bounds(v.size, c)
                    && !v.path.contains(c);
            assert(is_leap(v.path.last(), c));
        }
        assert forall|c: Cell| v.is_candidate(c) implies #[trigger] cand_seq(v).contains(c) by {
            let k = choose|k: int| 0 <= k < 8 && c == leap_target(v.path.last(), offsets()[k]);
            assert(leap_cand_upto(v, 8).contains(c));
        }
    }
}

/// Bounds on the squared board side, for overflow reasoning.
pub proof fn lemma_square_bounds(size: int)
    requires
        1 <= size <= MAX_SIZE,
    ensures
        size <= size * size,
        size * size <= 2147395600,
{
    assert(size <= size * size && size * size <= 2147395600) by (nonlinear_arith)
        requires 1 <= size <= 46340,
    ;
}

proof fn lemma_leap_upto_len(v: StateView, n: int)
    requires
        0 <= n,
    ensures
        leap_cand_upto(v, n).len() <= n,
    decreases n,
{
    if n > 0 {
        lemma_leap_upto_len(v, n - 1);
    }
}

/// Once the tour has started, at most eight moves are ever open.
pub proof fn lemma_cand_len_le8(v: StateView)
    requires
        v.path.len() > 0,
    ensures
        cand_seq(v).len() <= 8,
{
    lemma_leap_upto_len(v, 8);
}

/// Stamping an in-bounds, unoccupied cell on a well-formed, not yet complete
/// state keeps it well-formed.
pub proof fn lemma_step_wf(v: StateView, c: Cell)
    requires
        v.wf(),
        !v.complete(),
        in_bounds(v.size, c),
        !v.path.contains(c),
    ensures
        v.step(c).wf(),
        v.step(c).path.len() == v.path.len() + 1,
{
    let p = v.step(c).path;
    assert forall|k1: int, k2: int| 0 <= k1 < k2 < p.len() implies p[k1] != p[k2] by {
        if k2 == p.len() - 1 {
            assert(v.path.contains(p[k1]) || p[k1] == c || k1 >= v.path.len());
            if k1 < v.path.len() {
                assert(v.path[k1] == p[k1]);
                assert(v.path.contains(v.path[k1]));
            }
        }
    }
}

/// Lifts a tour of a stepped state back to the state it was stepped from.
pub proof fn lemma_tour_lift(v: StateView, c: Cell, t: Seq<Cell>)
    requires
        v.wf(),
        !v.complete(),
        v.is_candidate(c),
        tour_from(v.step(c), t),
    ensures
        tour_from(v, t),
{
    let n = v.path.len() as int;
    let sp = v.step(c).path;
    assert(sp.len() == n + 1);
    assert(t.subrange(0, n + 1) == sp);
    assert(is_prefix(v.path, t)) by {
        assert forall|i: int| 0 <= i < n implies t.subrange(0, n)[i] == v.path[i] by {
            assert(t.subrange(0, n + 1)[i] == sp[i]);
        }
        assert(t.subrange(0, n) =~= v.path);
    }
    assert forall|i: int| n <= i < t.len() && 1 <= i implies is_leap(t[i - 1], #[trigger] t[i]) by {
        if i == n {
            assert(t.subrange(0, n + 1)[n] == sp[n]);
            assert(t[n] == c);
            if n >= 1 {
                assert(t.subrange(0, n + 1)[n - 1] == sp[n - 1]);
                assert(t[n - 1] == v.path.last());
                assert(is_leap(v.path.last(), c));
            }
        } else {
            assert(v.step(c).path.len() <= i < t.len() && 1 <= i);
        }
    }
}

/// From a tour of a not yet complete state, the tour's next cell is a
/// candidate, and the tour is a tour of the stepped state.
pub proof fn lemma_tour_next(v: StateView, t: Seq<Cell>)
    requires
        v.wf(),
        !v.complete(),
        tour_from(v, t),
    ensures
        v.is_candidate(t[v.path.len() as int]),
        tour_from(v.step(t[v.path.len() as int]), t),
{
    let n = v.path.len() as int;
    let c = t[n];
    let tv = StateView { size: v.size, path: t };
    assert(n < t.len());
    assert(in_bounds(v.size, t[n]));  // tv.wf() applied at index n
    assert(!v.path.contains(c)) by {
        if v.path.contains(c) {
            let k = choose|k: int| 0 <= k < v.path.len() && v.path[k] == c;
            assert(t.subrange(0, n)[k] == t[k]);
            assert(t[k] == c);
            assert(t[k] != t[n]);  // tv.wf() distinctness
        }
    }
    if n >= 1 {
        assert(is_leap(t[n - 1], t[n]));  // reaches at i == n
        assert(t.subrange(0, n)[n - 1] == t[n - 1]);
        assert(v.path.last() == t[n - 1]);
    }
    assert(tour_from(v.step(c), t)) by {
        let sp = v.step(c).path;
        assert(is_prefix(sp, t)) by {
            assert forall|i: int| 0 <= i < n + 1 implies t.subrange(0, n + 1)[i] == sp[i] by {
                if i < n {
                    assert(t.subrange(0, n)[i] == t[i]);
                }
            }
            assert(t.subrange(0, n + 1) =~= sp);
        }
    }
}

/// The search-style unfolding of solvability agrees with the existence of a
/// complete tour.
pub proof fn lemma_solvable_iff_tour(v: StateView)
    requires
        v.wf(),
    ensures
        solvable(v) <==> exists|t: Seq<Cell>| tour_from(v, t),
    decreases v.size * v.size - v.path.len(),
{
    if v.complete() {
        assert(solvable(v));
        assert(tour_from(v, v.path)) by {
            assert(v.path.subrange(0, v.path.len() as int) =~= v.path);
        }
        assert(exists|t: Seq<Cell>| tour_from(v, t));
    } else {
        if solvable(v) {
            let c = choose|c: Cell| v.is_candidate(c) && solvable(v.step(c));
            lemma_step_wf(v, c);
            lemma_solvable_iff_tour(v.step(c));
            let t = choose|t: Seq<Cell>| tour_from(v.step(c), t);
            lemma_tour_lift(v, c, t);
            assert(exists|t: Seq<Cell>| tour_from(v, t));
        }
        if exists|t: Seq<Cell>| tour_from(v, t) {
            let t = choose|t: Seq<Cell>| tour_from(v, t);
            lemma_tour_next(v, t);
            let c = t[v.path.len() as int];
            lemma_step_wf(v, c);
            lemma_solvable_iff_tour(v.step(c));
            assert(v.is_candidate(c) && solvable(v.step(c)));
            assert(solvable(v));
        }
    }
}

} // verus!
