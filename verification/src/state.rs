//! The board and the search state.
//!
//! A `Board` is the flattened grid of stamped numbers together with the ghost
//! visit sequence that the grid encodes; a `State` adds the current token
//! position.  Every operation is specified against the `StateView` model.

use crate::model::{
    all_cells, cand_seq, cell_index, degree_upto, global_score, in_bounds, leap_cand_upto,
    leap_target, lemma_cell_index_bounds, lemma_cell_index_injective,
    lemma_degree_bounds, lemma_row_score_bounds, lemma_rows_score_bounds, lemma_square_bounds,
    lemma_stamp_at, lemma_stamp_inv, lemma_step_wf, grid_matches, offsets, row_score, rows_score,
    stamp, Cell, StateView, MAX_SIZE,
};
use vstd::prelude::*;

verus! {

/// A board coordinate pair `(column, row)`.
pub type Move = (usize, usize);

/// The model cell of a coordinate pair.
pub open spec fn cellv(m: Move) -> Cell {
    (m.0 as int, m.1 as int)
}

/// `c` lies in the region a row-major scan has already visited: a full row
/// before `y`, or row `y` before column `x`.
spec fn scanned(size: int, y: int, x: int, c: Cell) -> bool {
    in_bounds(size, c) && (c.1 < y || (c.1 == y && c.0 < x))
}

pub(crate) struct Board {
    /// Row-major grid; `field[y * size + x]` holds the visit number of
    /// `(x, y)`, or 0 while the cell is empty.
    pub(crate) field: Vec<usize>,
    /// The highest number stamped so far, equal to the count of stamped cells.
    pub(crate) max_n: usize,
    pub(crate) size: usize,
    /// The visit sequence the grid encodes.
    pub(crate) path: Ghost<Seq<Cell>>,
}

impl Board {
    pub(crate) open spec fn view_model(&self) -> StateView {
        StateView { size: self.size as int, path: self.path@ }
    }

    /// The grid is exactly the stamping of the ghost visit sequence.
    pub(crate) open spec fn inv(&self) -> bool {
        &&& self.view_model().wf()
        &&& self.field@.len() == self.size * self.size
        &&& self.max_n == self.path@.len()
        &&& forall|k: int|
            0 <= k < self.path@.len() ==> self.field@[cell_index(
                self.size as int,
                #[trigger] self.path@[k],
            )] == k + 1
        &&& forall|c: Cell|
            in_bounds(self.size as int, c) && !self.path@.contains(c) ==> self.field@[#[trigger] cell_index(self.size as int, c)] == 0
    }

    fn new(size: usize) -> (r: Board)
        requires
            1 <= size <= MAX_SIZE,
        ensures
            r.inv(),
            r.size == size,
            r.path@ == Seq::<Cell>::empty(),
    {
        proof {
            lemma_square_bounds(size as int);
        }
        let n: usize = size * size;
        let mut field: Vec<usize> = Vec::new();
        let mut i: usize = 0;
        while i < n
            invariant
                i <= n,
                field@.len() == i,
                forall|j: int| 0 <= j < i ==> field@[j] == 0,
            decreases n - i,
        {
            field.push(0);
            i = i + 1;
        }
        let r = Board { field, max_n: 0, size, path: Ghost(Seq::empty()) };
        proof {
            assert forall|c: Cell|
                in_bounds(r.size as int, c) && !r.path@.contains(c) implies r.field@[#[trigger] cell_index(r.size as int, c)] == 0 by {
                lemma_cell_index_bounds(r.size as int, c);
            }
        }
        r
    }

    /// Whether the cell is already stamped.
    fn occupied(&self, m: Move) -> (r: bool)
        requires
            self.inv(),
            in_bounds(self.size as int, cellv(m)),
        ensures
            r == self.path@.contains(cellv(m)),
    {
        proof {
            lemma_cell_index_bounds(self.size as int, cellv(m));
            lemma_square_bounds(self.size as int);
            if self.path@.contains(cellv(m)) {
                let k = choose|k: int| 0 <= k < self.path@.len() && self.path@[k] == cellv(m);
                assert(self.field@[cell_index(self.size as int, self.path@[k])] == k + 1);
            }
        }
        self.field[m.1 * self.size + m.0] != 0
    }

    /// Stamps the next number at an empty in-bounds cell.
    fn add_number(&mut self, m: Move)
        requires
            old(self).inv(),
            in_bounds(old(self).size as int, cellv(m)),
            !old(self).path@.contains(cellv(m)),
            old(self).path@.len() < old(self).size * old(self).size,
        ensures
            final(self).inv(),
            final(self).size == old(self).size,
            final(self).path@ == old(self).path@.push(cellv(m)),
    {
        let ghost c = cellv(m);
        proof {
            lemma_cell_index_bounds(self.size as int, c);
            lemma_square_bounds(self.size as int);
            lemma_step_wf(self.view_model(), c);
        }
        let idx: usize = m.1 * self.size + m.0;
        self.max_n = self.max_n + 1;
        let n: usize = self.max_n;
        self.field.set(idx, n);
        proof {
            self.path@ = self.path@.push(c);
        }
        proof {
            let sz = self.size as int;
            let p = self.path@;
            assert forall|k: int|
                0 <= k < p.len() implies self.field@[cell_index(sz, #[trigger] p[k])] == k + 1 by {
                if k < p.len() - 1 {
                    assert(old(self).path@[k] == p[k]);
                    assert(old(self).path@.contains(p[k]));
                    lemma_cell_index_bounds(sz, p[k]);
                    if cell_index(sz, p[k]) == cell_index(sz, c) {
                        lemma_cell_index_injective(sz, p[k], c);
                    }
                } else {
                    assert(p[k] == c);
                }
            }
            assert forall|d: Cell|
                in_bounds(sz, d) && !p.contains(d) implies self.field@[#[trigger] cell_index(sz, d)] == 0 by {
                assert(!old(self).path@.contains(d)) by {
                    if old(self).path@.contains(d) {
                        let k = choose|k: int|
                            0 <= k < old(self).path@.len() && old(self).path@[k] == d;
                        assert(p[k] == d);
                    }
                }
                lemma_cell_index_bounds(sz, d);
                if cell_index(sz, d) == cell_index(sz, c) {
                    lemma_cell_index_injective(sz, d, c);
                    assert(p[p.len() - 1] == c);
                }
            }
        }
    }

    fn is_complete(&self) -> (r: bool)
        requires
            self.inv(),
        ensures
            r == self.view_model().complete(),
    {
        proof {
            lemma_square_bounds(self.size as int);
        }
        self.max_n == self.size * self.size
    }

    /// The legal next cells from `pos`, in the fixed generation order.
    fn possible_moves(&self, pos: Option<Move>) -> (r: Vec<Move>)
        requires
            self.inv(),
            match pos {
                None => self.path@.len() == 0,
                Some(m) => self.path@.len() > 0 && cellv(m) == self.path@.last(),
            },
        ensures
            r@.len() == cand_seq(self.view_model()).len(),
            forall|i: int| 0 <= i < r@.len() ==> cellv(#[trigger] r@[i]) == cand_seq(self.view_model())[i],
    {
        let ghost v = self.view_model();
        let mut r: Vec<Move> = Vec::new();
        match pos {
            None => {
                proof {
                    lemma_square_bounds(self.size as int);
                }
                let n: usize = self.size * self.size;
                let mut i: usize = 0;
                while i < n
                    invariant
                        self.inv(),
                        v == self.view_model(),
                        1 <= self.size <= MAX_SIZE,
                        n == self.size * self.size,
                        i <= n,
                        r@.len() == i,
                        forall|j: int| 0 <= j < i ==> cellv(#[trigger] r@[j]) == all_cells(v.size)[j],
                    decreases n - i,
                {
                    r.push((i / self.size, i % self.size));
                    i = i + 1;
                }
            },
            Some(m) => {
                proof {
                    assert(in_bounds(v.size, v.path[v.path.len() - 1]));
                    lemma_square_bounds(self.size as int);
                }
                let mut k: usize = 0;
                while k < 8
                    invariant
                        self.inv(),
                        v == self.view_model(),
                        1 <= self.size <= MAX_SIZE,
                        v.path.len() > 0,
                        cellv(m) == v.path.last(),
                        in_bounds(v.size, cellv(m)),
                        k <= 8,
                        r@.len() == leap_cand_upto(v, k as int).len(),
                        forall|j: int|
                            0 <= j < r@.len() ==> cellv(#[trigger] r@[j]) == leap_cand_upto(
                                v,
                                k as int,
                            )[j],
                    decreases 8 - k,
                {
                    let o: (i64, i64) = offset(k);
                    let tx: i64 = m.0 as i64 - o.0;
                    let ty: i64 = m.1 as i64 - o.1;
                    let ghost c = leap_target(v.path.last(), offsets()[k as int]);
                    proof {
                        assert(c == (tx as int, ty as int));
                    }
                    if 0 <= tx && tx < self.size as i64 && 0 <= ty && ty < self.size as i64 {
                        let t: Move = (tx as usize, ty as usize);
                        proof {
                            assert(cellv(t) == c);
                        }
                        if !self.occupied(t) {
                            r.push(t);
                        }
                    }
                    k = k + 1;
                }
            },
        }
        r
    }
}

/// The exec offsets, matching the model's `offsets` sequence.
fn offset(k: usize) -> (r: (i64, i64))
    requires
        k < 8,
    ensures
        (r.0 as int, r.1 as int) == offsets()[k as int],
{
    if k == 0 {
        (-3, 0)
    } else if k == 1 {
        (3, 0)
    } else if k == 2 {
        (0, -3)
    } else if k == 3 {
        (0, 3)
    } else if k == 4 {
        (-2, -2)
    } else if k == 5 {
        (-2, 2)
    } else if k == 6 {
        (2, -2)
    } else {
        (2, 2)
    }
}

fn copy_field(v: &Vec<usize>) -> (r: Vec<usize>)
    ensures
        r@ == v@,
{
    let mut r: Vec<usize> = Vec::new();
    let mut i: usize = 0;
    while i < v.len()
        invariant
            i <= v@.len(),
            r@ == v@.subrange(0, i as int),
        decreases v@.len() - i,
    {
        r.push(v[i]);
        i = i + 1;
    }
    proof {
        assert(v@.subrange(0, v@.len() as int) =~= v@);
    }
    r
}

/// A well-formed state has a well-formed model view.
pub proof fn lemma_wf_view(s: &State)
    requires
        s.wf(),
    ensures
        s@.wf(),
{
}

/// A board together with the current token position: the unit the search
/// strategies clone and extend.
pub struct State {
    board: Board,
    pos: Option<Move>,
}

impl View for State {
    type V = StateView;

    closed spec fn view(&self) -> StateView {
        self.board.view_model()
    }
}

impl Clone for State {
    /// Deep copy; search branches never share a board.
    fn clone(&self) -> (r: State)
        ensures
            r@ == self@,
            self.wf() ==> r.wf(),
    {
        State {
            board: Board {
                field: copy_field(&self.board.field),
                max_n: self.board.max_n,
                size: self.board.size,
                path: Ghost(self.board.path@),
            },
            pos: self.pos,
        }
    }
}

impl State {
    /// Well-formed: the board encodes the visit sequence, and the position is
    /// the last visited cell (or none before the first move).
    pub closed spec fn wf(&self) -> bool {
        &&& self.board.inv()
        &&& match self.pos {
            None => self.board.path@.len() == 0,
            Some(m) => self.board.path@.len() > 0 && cellv(m) == self.board.path@.last(),
        }
    }

    /// An empty board of the given side, with no position yet.
    pub fn new(size: usize) -> (r: State)
        requires
            1 <= size <= MAX_SIZE,
        ensures
            r.wf(),
            r@.size == size,
            r@.path == Seq::<Cell>::empty(),
    {
        State { board: Board::new(size), pos: None }
    }

    /// The board side.
    pub fn size(&self) -> (r: usize)
        requires
            self.wf(),
        ensures
            r == self@.size,
    {
        self.board.size
    }

    /// How many cells are stamped, equal to the highest number placed.
    pub fn filled_count(&self) -> (r: usize)
        requires
            self.wf(),
        ensures
            r == self@.path.len(),
    {
        self.board.max_n
    }

    /// The most recently stamped cell, or none before the first move.
    pub fn position(&self) -> (r: Option<Move>)
        requires
            self.wf(),
        ensures
            match r {
                None => self@.path.len() == 0,
                Some(m) => self@.path.len() > 0 && cellv(m) == self@.path.last(),
            },
    {
        self.pos
    }

    /// Every cell is stamped.
    pub fn is_complete(&self) -> (r: bool)
        requires
            self.wf(),
        ensures
            r == self@.complete(),
    {
        self.board.is_complete()
    }

    /// The number stamped at `(x, y)`: its visit order, or 0 while empty.
    pub fn cell(&self, x: usize, y: usize) -> (r: usize)
        requires
            self.wf(),
            x < self@.size,
            y < self@.size,
        ensures
            r == stamp(self@, (x as int, y as int)),
    {
        let c: Move = (x, y);
        proof {
            lemma_cell_index_bounds(self@.size, cellv(c));
            lemma_square_bounds(self@.size);
            let p = self.board.path@;
            if p.contains(cellv(c)) {
                let k = p.index_of(cellv(c));
                assert(p[k] == cellv(c));
                assert(self.board.field@[cell_index(self@.size, p[k])] == k + 1);
            }
        }
        self.board.field[y * self.board.size + x]
    }

    /// All legal next cells from the current position, in the fixed
    /// generation order.  Before the first move this is every cell of the
    /// board.
    pub fn possible_moves(&self) -> (r: Vec<Move>)
        requires
            self.wf(),
        ensures
            r@.len() == cand_seq(self@).len(),
            forall|i: int| 0 <= i < r@.len() ==> cellv(#[trigger] r@[i]) == cand_seq(self@)[i],
            self@.path.len() == 0 ==> r@.len() == self@.size * self@.size,
    {
        self.board.possible_moves(self.pos)
    }

    /// A copy of this state with one more cell stamped; the receiver is not
    /// changed.
    pub fn make_move(&self, m: Move) -> (r: State)
        requires
            self.wf(),
            in_bounds(self@.size, cellv(m)),
            !self@.path.contains(cellv(m)),
            !self@.complete(),
        ensures
            r.wf(),
            r@ == self@.step(cellv(m)),
    {
        let mut r = self.clone();
        r.apply_move(m);
        r
    }

    /// Stamps one more cell in place.
    pub fn apply_move(&mut self, m: Move)
        requires
            old(self).wf(),
            in_bounds(old(self)@.size, cellv(m)),
            !old(self)@.path.contains(cellv(m)),
            !old(self)@.complete(),
        ensures
            final(self).wf(),
            final(self)@ == old(self)@.step(cellv(m)),
    {
        self.board.add_number(m);
        self.pos = Some(m);
    }

    /// The local (Warnsdorff) score of a move: how many moves would remain
    /// open from the resulting position.  Lower is better.
    pub fn move_value(&self, m: Move) -> (r: usize)
        requires
            self.wf(),
            in_bounds(self@.size, cellv(m)),
            !self@.path.contains(cellv(m)),
            !self@.complete(),
        ensures
            r == cand_seq(self@.step(cellv(m))).len(),
    {
        let child = self.make_move(m);
        child.possible_moves().len()
    }

    /// The global score of a move: on the resulting board, the sum over every
    /// still-empty cell of the number of legal leaper moves from that cell.
    /// Higher is better.
    pub fn sum_moves(&self, m: Move) -> (r: u64)
        requires
            self.wf(),
            in_bounds(self@.size, cellv(m)),
            !self@.path.contains(cellv(m)),
            !self@.complete(),
        ensures
            r == global_score(self@.step(cellv(m))),
    {
        let child = self.make_move(m);
        let ghost w = child@;
        let size: usize = child.board.size;
        proof {
            lemma_square_bounds(w.size);
        }
        let mut total: u64 = 0;
        let mut y: usize = 0;
        while y < size
            invariant
                child.wf(),
                w == child@,
                size == w.size,
                1 <= size <= MAX_SIZE,
                y <= size,
                total == rows_score(w, y as int),
            decreases size - y,
        {
            proof {
                lemma_rows_score_bounds(w, y as int);
                lemma_square_bounds(w.size);
                assert(8 * w.size * y <= 8 * w.size * w.size) by (nonlinear_arith)
                    requires
                        0 <= y <= w.size,
                        1 <= w.size,
                ;
            }
            let mut row: u64 = 0;
            let mut x: usize = 0;
            while x < size
                invariant
                    child.wf(),
                    w == child@,
                    size == w.size,
                    1 <= size <= MAX_SIZE,
                    y < size,
                    x <= size,
                    row == row_score(w, y as int, x as int),
                decreases size - x,
            {
                proof {
                    lemma_row_score_bounds(w, y as int, x as int);
                }
                let c: Move = (x, y);
                if !child.board.occupied(c) {
                    let mut d: u64 = 0;
                    let mut k: usize = 0;
                    while k < 8
                        invariant
                            child.wf(),
                            w == child@,
                            size == w.size,
                            1 <= size <= MAX_SIZE,
                            x < size,
                            y < size,
                            c == (x, y),
                            k <= 8,
                            d == degree_upto(w, cellv(c), k as int),
                        decreases 8 - k,
                    {
                        proof {
                            lemma_degree_bounds(w, cellv(c), k as int);
                        }
                        let o: (i64, i64) = offset(k);
                        let tx: i64 = x as i64 - o.0;
                        let ty: i64 = y as i64 - o.1;
                        let ghost t = leap_target(cellv(c), offsets()[k as int]);
                        proof {
                            assert(t == (tx as int, ty as int));
                        }
                        if 0 <= tx && tx < size as i64 && 0 <= ty && ty < size as i64 {
                            let tm: Move = (tx as usize, ty as usize);
                            proof {
                                assert(cellv(tm) == t);
                            }
                            if !child.board.occupied(tm) {
                                d = d + 1;
                            }
                        }
                        k = k + 1;
                    }
                    proof {
                        lemma_degree_bounds(w, cellv(c), 8);
                        lemma_row_score_bounds(w, y as int, x as int);
                    }
                    row = row + d;
                } else {
                    proof {
                        assert(w.path.contains((x as int, y as int)));
                    }
                }
                x = x + 1;
            }
            proof {
                lemma_row_score_bounds(w, y as int, size as int);
                lemma_rows_score_bounds(w, y as int);
                assert(8 * w.size * y + 8 * w.size <= 18000000000) by (nonlinear_arith)
                    requires
                        0 <= y < w.size <= 46340,
                ;
            }
            total = total + row;
            y = y + 1;
        }
        total
    }

    /// The cell stamped with number `n`, or none when `n` is not on the
    /// board (zero, or above the highest number placed).
    pub fn num_pos(&self, n: usize) -> (r: Option<Move>)
        requires
            self.wf(),
        ensures
            match r {
                Some(m) => 1 <= n <= self@.path.len() && cellv(m) == self@.path[n - 1],
                None => !(1 <= n <= self@.path.len()),
            },
    {
        if n == 0 || n > self.board.max_n {
            return None;
        }
        let size: usize = self.board.size;
        let ghost p = self.board.path@;
        let ghost sz = self@.size;
        proof {
            lemma_square_bounds(sz);
        }
        let mut y: usize = 0;
        while y < size
            invariant
                self.wf(),
                p == self.board.path@,
                sz == self@.size,
                size == sz,
                1 <= size <= MAX_SIZE,
                1 <= n <= p.len(),
                y <= size,
                forall|c: Cell|
                    in_bounds(sz, c) && c.1 < y ==> self.board.field@[#[trigger] cell_index(
                        sz,
                        c,
                    )] != n,
            decreases size - y,
        {
            let mut x: usize = 0;
            while x < size
                invariant
                    self.wf(),
                    p == self.board.path@,
                    sz == self@.size,
                    size == sz,
                    1 <= size <= MAX_SIZE,
                    1 <= n <= p.len(),
                    y < size,
                    x <= size,
                    forall|c: Cell|
                        in_bounds(sz, c) && (c.1 < y || (c.1 == y && c.0 < x))
                            ==> self.board.field@[#[trigger] cell_index(sz, c)] != n,
                decreases size - x,
            {
                proof {
                    lemma_cell_index_bounds(sz, (x as int, y as int));
                    lemma_square_bounds(sz);
                }
                if self.board.field[y * size + x] == n {
                    let m: Move = (x, y);
                    proof {
                        let c = cellv(m);
                        assert(self.board.field@[cell_index(sz, c)] == n);
                        assert(p.contains(c)) by {
                            if !p.contains(c) {
                                assert(self.board.field@[cell_index(sz, c)] == 0);
                            }
                        }
                        let k = choose|k: int| 0 <= k < p.len() && p[k] == c;
                        assert(self.board.field@[cell_index(sz, p[k])] == k + 1);
                    }
                    return Some(m);
                }
                x = x + 1;
                proof {
                    assert forall|c: Cell|
                        in_bounds(sz, c) && (c.1 < y || (c.1 == y && c.0 < x)) implies
                    self.board.field@[#[trigger] cell_index(sz, c)] != n by {
                        if c.1 == y && c.0 == x - 1 {
                            assert(cell_index(sz, c) == y * size + (x - 1));
                        }
                    }
                }
            }
            y = y + 1;
        }
        proof {
            let cstar = p[n - 1];
            assert(in_bounds(sz, cstar));
            assert(self.board.field@[cell_index(sz, p[n - 1])] == n);
            assert(false);
        }
        None
    }

    /// Reconstructs the state a grid of stamped numbers encodes.  Returns
    /// the unique well-formed state whose grid is exactly `field`, or none
    /// when no such state exists: a wrong shape, or a number missing,
    /// repeated, or past the board's capacity.
    pub fn from_grid(field: &Vec<Vec<usize>>) -> (r: Option<State>)
        ensures
            match r {
                Some(s) => s.wf() && grid_matches(s@, field.deep_view()),
                None => forall|v: StateView| v.wf() ==> !grid_matches(v, field.deep_view()),
            },
    {
        let ghost g = field.deep_view();
        let size: usize = field.len();
        if size == 0 || size > MAX_SIZE {
            return None;
        }
        let ghost sz = size as int;
        let mut y: usize = 0;
        while y < size
            invariant
                g == field.deep_view(),
                sz == size as int,
                size == field@.len(),
                1 <= size <= MAX_SIZE,
                y <= size,
                forall|yy: int| 0 <= yy < y ==> (#[trigger] g[yy]).len() == size,
            decreases size - y,
        {
            proof {
                assert(g[y as int] == field@[y as int].deep_view());
            }
            if field[y].len() != size {
                proof {
                    assert(g[y as int].len() != size);
                }
                return None;
            }
            y = y + 1;
        }
        let mut maxv: usize = 0;
        let ghost mut wit: Cell = (0, 0);
        let mut y: usize = 0;
        while y < size
            invariant
                g == field.deep_view(),
                sz == size as int,
                size == field@.len(),
                1 <= size <= MAX_SIZE,
                forall|yy: int| 0 <= yy < size ==> (#[trigger] g[yy]).len() == size,
                y <= size,
                forall|c: Cell| scanned(sz, y as int, 0, c) ==> g[c.1][c.0] <= maxv,
                maxv > 0 ==> in_bounds(sz, wit) && g[wit.1][wit.0] == maxv,
            decreases size - y,
        {
            let mut x: usize = 0;
            while x < size
                invariant
                    g == field.deep_view(),
                    sz == size as int,
                    size == field@.len(),
                    1 <= size <= MAX_SIZE,
                    forall|yy: int| 0 <= yy < size ==> (#[trigger] g[yy]).len() == size,
                    y < size,
                    x <= size,
                    forall|c: Cell| scanned(sz, y as int, x as int, c) ==> g[c.1][c.0] <= maxv,
                    maxv > 0 ==> in_bounds(sz, wit) && g[wit.1][wit.0] == maxv,
                decreases size - x,
            {
                proof {
                    assert(g[y as int] == field@[y as int].deep_view());
                    assert(g[y as int][x as int] == field@[y as int]@[x as int]);
                }
                if field[y][x] > maxv {
                    maxv = field[y][x];
                    proof {
                        wit = (x as int, y as int);
                    }
                }
                x = x + 1;
                proof {
                    assert forall|c: Cell| scanned(sz, y as int, x as int, c) implies g[c.1][c.0]
                        <= maxv by {
                        if !(c.1 == y as int && c.0 == x - 1) {
                            assert(scanned(sz, y as int, x as int - 1, c));
                        }
                    }
                }
            }
            proof {
                assert forall|c: Cell| scanned(sz, y as int + 1, 0, c) implies g[c.1][c.0]
                    <= maxv by {
                    assert(scanned(sz, y as int, size as int, c));
                }
            }
            y = y + 1;
        }
        proof {
            lemma_square_bounds(sz);
            assert forall|c: Cell| in_bounds(sz, c) implies g[c.1][c.0] <= maxv by {
                assert(scanned(sz, size as int, 0, c));
            }
        }
        if maxv > size * size {
            proof {
                assert forall|v: StateView| v.wf() implies !grid_matches(v, g) by {
                    if grid_matches(v, g) {
                        assert(g[wit.1][wit.0] == stamp(v, wit));
                        lemma_stamp_inv(v, wit);
                    }
                }
            }
            return None;
        }
        let mut s = State::new(size);
        let mut n: usize = 1;
        while n <= maxv
            invariant
                g == field.deep_view(),
                sz == size as int,
                size == field@.len(),
                1 <= size <= MAX_SIZE,
                forall|yy: int| 0 <= yy < size ==> (#[trigger] g[yy]).len() == size,
                forall|c: Cell| in_bounds(sz, c) ==> g[c.1][c.0] <= maxv,
                maxv > 0 ==> in_bounds(sz, wit) && g[wit.1][wit.0] == maxv,
                maxv <= size * size,
                size * size <= 2147395600,
                1 <= n <= maxv + 1,
                s.wf(),
                s@.size == sz,
                s@.path.len() == n - 1,
                forall|k: int|
                    0 <= k < n - 1 ==> g[(#[trigger] s@.path[k]).1][s@.path[k].0] == k + 1,
                forall|c: Cell, k: int|
                    #![trigger g[c.1][c.0], s@.path[k]]
                    in_bounds(sz, c) && 0 <= k < n - 1 && g[c.1][c.0] == k + 1 ==> c == s@.path[k],
            decreases maxv + 1 - n,
        {
            let mut found_x: usize = 0;
            let mut found_y: usize = 0;
            let mut count: usize = 0;
            let ghost mut dup: (Cell, Cell) = ((0, 0), (0, 0));
            let mut y2: usize = 0;
            while y2 < size
                invariant
                    g == field.deep_view(),
                    sz == size as int,
                    size == field@.len(),
                    1 <= size <= MAX_SIZE,
                    forall|yy: int| 0 <= yy < size ==> (#[trigger] g[yy]).len() == size,
                    1 <= n,
                    y2 <= size,
                    count <= 2,
                    count == 0 ==> forall|c: Cell|
                        scanned(sz, y2 as int, 0, c) ==> g[c.1][c.0] != n,
                    count == 1 ==> (in_bounds(sz, (found_x as int, found_y as int)) && scanned(
                        sz,
                        y2 as int,
                        0,
                        (found_x as int, found_y as int),
                    ) && g[found_y as int][found_x as int] == n && forall|c: Cell|
                        scanned(sz, y2 as int, 0, c) && c != (found_x as int, found_y as int)
                            ==> g[c.1][c.0] != n),
                    count == 2 ==> (dup.0 != dup.1 && in_bounds(sz, dup.0) && in_bounds(sz, dup.1)
                        && g[dup.0.1][dup.0.0] == n && g[dup.1.1][dup.1.0] == n),
                decreases size - y2,
            {
                let mut x2: usize = 0;
                while x2 < size
                    invariant
                        g == field.deep_view(),
                        sz == size as int,
                        size == field@.len(),
                        1 <= size <= MAX_SIZE,
                        forall|yy: int| 0 <= yy < size ==> (#[trigger] g[yy]).len() == size,
                        1 <= n,
                        y2 < size,
                        x2 <= size,
                        count <= 2,
                        count == 0 ==> forall|c: Cell|
                            scanned(sz, y2 as int, x2 as int, c) ==> g[c.1][c.0] != n,
                        count == 1 ==> (in_bounds(sz, (found_x as int, found_y as int)) && scanned(
                            sz,
                            y2 as int,
                            x2 as int,
                            (found_x as int, found_y as int),
                        ) && g[found_y as int][found_x as int] == n && forall|c: Cell|
                            scanned(sz, y2 as int, x2 as int, c) && c != (
                            found_x as int,
                            found_y as int,
                        ) ==> g[c.1][c.0] != n),
                        count == 2 ==> (dup.0 != dup.1 && in_bounds(sz, dup.0) && in_bounds(
                            sz,
                            dup.1,
                        ) && g[dup.0.1][dup.0.0] == n && g[dup.1.1][dup.1.0] == n),
                    decreases size - x2,
                {
                    proof {
                        assert(g[y2 as int] == field@[y2 as int].deep_view());
                        assert(g[y2 as int][x2 as int] == field@[y2 as int]@[x2 as int]);
                    }
                    if field[y2][x2] == n {
                        if count == 0 {
                            found_x = x2;
                            found_y = y2;
                            count = 1;
                        } else if count == 1 {
                            proof {
                                dup = ((found_x as int, found_y as int), (x2 as int, y2 as int));
                                assert(scanned(
                                    sz,
                                    y2 as int,
                                    x2 as int,
                                    (found_x as int, found_y as int),
                                ));
                            }
                            count = 2;
                        }
                    }
                    x2 = x2 + 1;
                    proof {
                        if count == 0 {
                            assert forall|c: Cell| scanned(sz, y2 as int, x2 as int, c) implies g[c.1][c.0]
                                != n by {
                                if !(c.1 == y2 as int && c.0 == x2 - 1) {
                                    assert(scanned(sz, y2 as int, x2 as int - 1, c));
                                }
                            }
                        }
                        if count == 1 {
                            assert forall|c: Cell|
                                scanned(sz, y2 as int, x2 as int, c) && c != (
                                found_x as int,
                                found_y as int,
                            ) implies g[c.1][c.0] != n by {
                                if !(c.1 == y2 as int && c.0 == x2 - 1) {
                                    assert(scanned(sz, y2 as int, x2 as int - 1, c));
                                }
                            }
                        }
                    }
                }
                proof {
                    if count == 0 {
                        assert forall|c: Cell| scanned(sz, y2 as int + 1, 0, c) implies g[c.1][c.0]
                            != n by {
                            assert(scanned(sz, y2 as int, size as int, c));
                        }
                    }
                    if count == 1 {
                        assert(scanned(sz, y2 as int + 1, 0, (found_x as int, found_y as int)));
                        assert forall|c: Cell|
                            scanned(sz, y2 as int + 1, 0, c) && c != (
                            found_x as int,
                            found_y as int,
                        ) implies g[c.1][c.0] != n by {
                            assert(scanned(sz, y2 as int, size as int, c));
                        }
                    }
                }
                y2 = y2 + 1;
            }
            if count == 0 {
                proof {
                    assert forall|v: StateView| v.wf() implies !grid_matches(v, g) by {
                        if grid_matches(v, g) {
                            assert(g[wit.1][wit.0] == stamp(v, wit));
                            lemma_stamp_inv(v, wit);
                            assert(v.path.len() >= maxv);
                            let c = v.path[n - 1];
                            lemma_stamp_at(v, n as int - 1);
                            assert(in_bounds(v.size, c));
                            assert(g[c.1][c.0] == stamp(v, c));
                            assert(scanned(sz, size as int, 0, c));
                        }
                    }
                }
                return None;
            }
            if count >= 2 {
                proof {
                    assert forall|v: StateView| v.wf() implies !grid_matches(v, g) by {
                        if grid_matches(v, g) {
                            assert(g[dup.0.1][dup.0.0] == stamp(v, dup.0));
                            assert(g[dup.1.1][dup.1.0] == stamp(v, dup.1));
                            lemma_stamp_inv(v, dup.0);
                            lemma_stamp_inv(v, dup.1);
                        }
                    }
                }
                return None;
            }
            let m: Move = (found_x, found_y);
            let ghost oldp = s@.path;
            proof {
                assert(in_bounds(s@.size, cellv(m)));
                assert(!s@.path.contains(cellv(m))) by {
                    if s@.path.contains(cellv(m)) {
                        let k = choose|k: int| 0 <= k < s@.path.len() && s@.path[k] == cellv(m);
                        assert(g[s@.path[k].1][s@.path[k].0] == k + 1);
                    }
                }
                assert(s@.path.len() < s@.size * s@.size);
            }
            s.apply_move(m);
            proof {
                assert(s@.path == oldp.push(cellv(m)));
                assert(s@.path[n - 1] == cellv(m));
                assert forall|c: Cell, k: int|
                    #![trigger g[c.1][c.0], s@.path[k]]
                    in_bounds(sz, c) && 0 <= k < n && g[c.1][c.0] == k + 1 implies c
                        == s@.path[k] by {
                    if k == n - 1 {
                        if c != (found_x as int, found_y as int) {
                            assert(scanned(sz, size as int, 0, c));
                        }
                    } else {
                        assert(c == oldp[k]);
                        assert(s@.path[k] == oldp[k]);
                    }
                }
            }
            n = n + 1;
        }
        proof {
            assert forall|c: Cell| in_bounds(sz, c) implies g[c.1][c.0] == #[trigger] stamp(
                s@,
                c,
            ) by {
                lemma_stamp_inv(s@, c);
                if s@.path.contains(c) {
                    let k = choose|k: int| 0 <= k < s@.path.len() && s@.path[k] == c;
                    lemma_stamp_at(s@, k);
                    assert(g[s@.path[k].1][s@.path[k].0] == k + 1);
                } else {
                    let w = g[c.1][c.0];
                    if w > 0 {
                        assert(w <= maxv);
                        assert(c == s@.path[w - 1]);
                        assert(s@.path.contains(s@.path[w - 1]));
                    }
                }
            }
            assert(grid_matches(s@, g));
        }
        Some(s)
    }

    /// The full grid of stamped numbers, row by row: entry `y`, then `x`,
    /// holds the visit order of cell `(x, y)`, or 0 while it is empty.  With
    /// `possible_moves`, the read-only view a renderer needs.
    pub fn to_grid(&self) -> (r: Vec<Vec<usize>>)
        requires
            self.wf(),
        ensures
            r.deep_view().len() == self@.size,
            grid_matches(self@, r.deep_view()),
    {
        let size: usize = self.board.size;
        let mut rows: Vec<Vec<usize>> = Vec::new();
        let mut y: usize = 0;
        while y < size
            invariant
                self.wf(),
                size == self@.size,
                y <= size,
                rows@.len() == y,
                forall|yy: int| 0 <= yy < y ==> (#[trigger] rows@[yy])@.len() == size,
                forall|xx: int, yy: int|
                    0 <= xx < size && 0 <= yy < y ==> rows@[yy]@[xx] == stamp(
                        self@,
                        (xx, yy),
                    ),
            decreases size - y,
        {
            let mut row: Vec<usize> = Vec::new();
            let mut x: usize = 0;
            while x < size
                invariant
                    self.wf(),
                    size == self@.size,
                    y < size,
                    x <= size,
                    row@.len() == x,
                    forall|xx: int| 0 <= xx < x ==> row@[xx] == stamp(self@, (xx, y as int)),
                decreases size - x,
            {
                row.push(self.cell(x, y));
                x = x + 1;
            }
            rows.push(row);
            y = y + 1;
        }
        proof {
            let g = rows.deep_view();
            assert forall|c: Cell| in_bounds(self@.size, c) implies g[c.1][c.0] == #[trigger] stamp(
                self@,
                c,
            ) by {
                assert(g[c.1] == rows@[c.1]@);
                assert(rows@[c.1]@[c.0] == stamp(self@, c));
            }
        }
        rows
    }
}

} // verus!
