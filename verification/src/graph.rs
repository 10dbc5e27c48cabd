//! The maze as a graph: passages between adjacent cells, paths,
//! connectivity and what it means for a maze to be perfect.

use crate::arith::lemma_row_major;
use crate::maze::Grid;
use vstd::prelude::*;

verus! {

/// The sum of `f(x, y)` over the first `n` columns of row `y`.
pub open spec fn row_sum(f: spec_fn(int, int) -> int, y: int, n: int) -> int
    decreases n,
{
    if n <= 0 {
        0
    } else {
        row_sum(f, y, n - 1) + f(n - 1, y)
    }
}

/// The sum of `f(x, y)` over the first `rows` rows of a grid `w` wide.
pub open spec fn grid_sum(f: spec_fn(int, int) -> int, w: int, rows: int) -> int
    decreases rows,
{
    if rows <= 0 {
        0
    } else {
        grid_sum(f, w, rows - 1) + row_sum(f, rows - 1, w)
    }
}

/// Two functions that agree on a row have the same sum over it, but for
/// the one column `cx` where they may differ.
pub proof fn lemma_row_sum_update(
    f: spec_fn(int, int) -> int,
    g: spec_fn(int, int) -> int,
    y: int,
    n: int,
    cx: int,
)
    requires
        forall|x: int| 0 <= x < n && x != cx ==> #[trigger] f(x, y) == g(x, y),
    ensures
        0 <= cx < n ==> row_sum(g, y, n) == row_sum(f, y, n) + g(cx, y) - f(cx, y),
        !(0 <= cx < n) ==> row_sum(g, y, n) == row_sum(f, y, n),
    decreases n,
{
    if n > 0 {
        lemma_row_sum_update(f, g, y, n - 1, cx);
    }
}

/// Two functions that agree on a grid have the same sum over it, but for
/// the one position `(cx, cy)` where they may differ.
pub proof fn lemma_grid_sum_update(
    f: spec_fn(int, int) -> int,
    g: spec_fn(int, int) -> int,
    w: int,
    rows: int,
    cx: int,
    cy: int,
)
    requires
        forall|x: int, y: int|
            0 <= x < w && 0 <= y < rows && !(x == cx && y == cy) ==> #[trigger] f(x, y) == g(x, y),
    ensures
        0 <= cx < w && 0 <= cy < rows ==> grid_sum(g, w, rows) == grid_sum(f, w, rows) + g(cx, cy)
            - f(cx, cy),
        !(0 <= cx < w && 0 <= cy < rows) ==> grid_sum(g, w, rows) == grid_sum(f, w, rows),
    decreases rows,
{
    if rows > 0 {
        lemma_grid_sum_update(f, g, w, rows - 1, cx, cy);
        if cy == rows - 1 {
            lemma_row_sum_update(f, g, rows - 1, w, cx);
        } else {
            lemma_row_sum_update(f, g, rows - 1, w, -1);
        }
    }
}

/// A sum of values between 0 and 1 over a row lies between 0 and its length.
pub proof fn lemma_row_sum_bounds(f: spec_fn(int, int) -> int, y: int, n: int)
    requires
        0 <= n,
        forall|x: int| 0 <= x < n ==> 0 <= #[trigger] f(x, y) <= 1,
    ensures
        0 <= row_sum(f, y, n) <= n,
        (forall|x: int| 0 <= x < n ==> #[trigger] f(x, y) == 0) ==> row_sum(f, y, n) == 0,
    decreases n,
{
    if n > 0 {
        lemma_row_sum_bounds(f, y, n - 1);
    }
}

/// A sum of values between 0 and 1 over a grid lies between 0 and its size.
pub proof fn lemma_grid_sum_bounds(f: spec_fn(int, int) -> int, w: int, rows: int)
    requires
        0 <= w,
        0 <= rows,
        forall|x: int, y: int| 0 <= x < w && 0 <= y < rows ==> 0 <= #[trigger] f(x, y) <= 1,
    ensures
        0 <= grid_sum(f, w, rows) <= w * rows,
        (forall|x: int, y: int| 0 <= x < w && 0 <= y < rows ==> #[trigger] f(x, y) == 0)
            ==> grid_sum(f, w, rows) == 0,
    decreases rows,
{
    if rows > 0 {
        lemma_grid_sum_bounds(f, w, rows - 1);
        lemma_row_sum_bounds(f, rows - 1, w);
        assert(w * rows == w * (rows - 1) + w) by (nonlinear_arith);
    } else {
        assert(w * rows == 0) by (nonlinear_arith)
            requires
                rows == 0,
        ;
    }
}

/// A sum of ones over a grid is its size.
pub proof fn lemma_grid_sum_ones(f: spec_fn(int, int) -> int, w: int, rows: int)
    requires
        0 <= w,
        0 <= rows,
        forall|x: int, y: int| 0 <= x < w && 0 <= y < rows ==> #[trigger] f(x, y) == 1,
    ensures
        grid_sum(f, w, rows) == w * rows,
    decreases rows,
{
    if rows > 0 {
        lemma_grid_sum_ones(f, w, rows - 1);
        lemma_row_sum_ones(f, rows - 1, w);
        assert(w * rows == w * (rows - 1) + w) by (nonlinear_arith);
    } else {
        assert(w * rows == 0) by (nonlinear_arith)
            requires
                rows == 0,
        ;
    }
}

/// A sum of ones over a row is its length.
pub proof fn lemma_row_sum_ones(f: spec_fn(int, int) -> int, y: int, n: int)
    requires
        0 <= n,
        forall|x: int| 0 <= x < n ==> #[trigger] f(x, y) == 1,
    ensures
        row_sum(f, y, n) == n,
    decreases n,
{
    if n > 0 {
        lemma_row_sum_ones(f, y, n - 1);
    }
}

impl Grid {
    /// The passage between the adjacent cells `(ax, ay)` and `(bx, by)` is
    /// open: both lie in the grid, they differ by one step along one axis,
    /// and each has its wall toward the other open.
    pub open spec fn open_between(self, ax: int, ay: int, bx: int, by: int) -> bool {
        &&& self.contains(ax, ay)
        &&& self.contains(bx, by)
        &&& {
            ||| (bx == ax + 1 && by == ay && self.cell(ax, ay).east && self.cell(bx, by).west)
            ||| (bx == ax - 1 && by == ay && self.cell(ax, ay).west && self.cell(bx, by).east)
            ||| (bx == ax && by == ay + 1 && self.cell(ax, ay).south && self.cell(bx, by).north)
            ||| (bx == ax && by == ay - 1 && self.cell(ax, ay).north && self.cell(bx, by).south)
        }
    }

    /// Step `i` of `p` goes through an open passage.
    pub open spec fn step_open(self, p: Seq<(int, int)>, i: int) -> bool {
        self.open_between(p[i].0, p[i].1, p[i + 1].0, p[i + 1].1)
    }

    /// `p` is a walk through open passages that starts inside the grid.
    pub open spec fn is_path(self, p: Seq<(int, int)>) -> bool {
        &&& p.len() >= 1
        &&& self.contains(p[0].0, p[0].1)
        &&& forall|i: int| 0 <= i < p.len() - 1 ==> #[trigger] self.step_open(p, i)
    }

    /// `p` is a walk through open passages from `a` to `b`.
    pub open spec fn is_path_between(
        self,
        p: Seq<(int, int)>,
        a: (int, int),
        b: (int, int),
    ) -> bool {
        self.is_path(p) && p.first() == a && p.last() == b
    }

    /// Some walk through open passages leads from `a` to `b`.
    pub open spec fn connected(self, a: (int, int), b: (int, int)) -> bool {
        exists|p: Seq<(int, int)>| self.is_path_between(p, a, b)
    }

    /// `p` is a cycle: a walk through open passages that ends where it
    /// starts, passes three cells at least, and passes no cell twice.
    pub open spec fn is_cycle(self, p: Seq<(int, int)>) -> bool {
        &&& self.is_path(p)
        &&& p.len() >= 4
        &&& p.first() == p.last()
        &&& forall|i: int, j: int| 0 <= i < j < p.len() - 1 ==> p[i] != p[j]
    }

    /// The open passages form no cycle.
    pub open spec fn acyclic(self) -> bool {
        forall|p: Seq<(int, int)>| !self.is_cycle(p)
    }

    /// Walls agree across every pair of adjacent cells: a cell's east wall
    /// is open exactly when its east neighbour's west wall is, and likewise
    /// for south and north.
    pub open spec fn walls_symmetric(self) -> bool {
        forall|x: int, y: int| #[trigger]
            self.contains(x, y) ==> {
                &&& self.contains(x + 1, y) ==> self.cell(x, y).east == self.cell(x + 1, y).west
                &&& self.contains(x, y + 1) ==> self.cell(x, y).south == self.cell(x, y + 1).north
            }
    }

    /// The number of passages that `(x, y)` opens toward its east and
    /// south neighbours.
    pub open spec fn passages_at(self, x: int, y: int) -> int {
        (if self.contains(x + 1, y) && self.cell(x, y).east {
            1int
        } else {
            0int
        }) + (if self.contains(x, y + 1) && self.cell(x, y).south {
            1int
        } else {
            0int
        })
    }

    /// The number of open passages of the grid, each counted once, from
    /// its western or northern cell.
    pub open spec fn open_passages(self) -> int {
        grid_sum(|x: int, y: int| self.passages_at(x, y), self.width as int, self.height as int)
    }

    /// The maze is perfect: its walls agree, and its passages form a
    /// spanning tree of the grid. There is one passage less than there are
    /// cells, every cell can be reached from every other, and no walk
    /// comes round in a cycle.
    pub open spec fn is_perfect(self) -> bool {
        &&& self.walls_symmetric()
        &&& self.open_passages() == self.width * self.height - 1
        &&& self.acyclic()
        &&& forall|ax: int, ay: int, bx: int, by: int|
            self.contains(ax, ay) && self.contains(bx, by) ==> #[trigger] self.connected(
                (ax, ay),
                (bx, by),
            )
    }

    /// The two grids have the same shape, and every wall that is open in
    /// `self` is open in `other`.
    pub open spec fn walls_within(self, other: Grid) -> bool {
        &&& self.width == other.width
        &&& self.height == other.height
        &&& self.cells.len() == other.cells.len()
        &&& forall|i: int|
            0 <= i < self.cells.len() ==> {
                &&& (#[trigger] self.cells[i]).north ==> other.cells[i].north
                &&& self.cells[i].south ==> other.cells[i].south
                &&& self.cells[i].east ==> other.cells[i].east
                &&& self.cells[i].west ==> other.cells[i].west
            }
    }

    /// The two grids have the same shape and the same walls.
    pub open spec fn same_walls(self, other: Grid) -> bool {
        self.walls_within(other) && other.walls_within(self)
    }
}

/// A passage that is open stays open when walls are only opened.
pub proof fn lemma_open_between_grows(g: Grid, h: Grid, ax: int, ay: int, bx: int, by: int)
    requires
        g.wf(),
        g.walls_within(h),
        g.open_between(ax, ay, bx, by),
    ensures
        h.open_between(ax, ay, bx, by),
{
    lemma_row_major(g.width as int, g.height as int, ax, ay);
    lemma_row_major(g.width as int, g.height as int, bx, by);
}

/// A walk stays a walk when walls are only opened.
pub proof fn lemma_path_grows(g: Grid, h: Grid, p: Seq<(int, int)>)
    requires
        g.wf(),
        g.walls_within(h),
        g.is_path(p),
    ensures
        h.is_path(p),
{
    assert forall|i: int| 0 <= i < p.len() - 1 implies #[trigger] h.step_open(p, i) by {
        assert(g.step_open(p, i));
        lemma_open_between_grows(g, h, p[i].0, p[i].1, p[i + 1].0, p[i + 1].1);
    }
}

/// Connected cells stay connected when walls are only opened.
pub proof fn lemma_connected_grows(g: Grid, h: Grid, a: (int, int), b: (int, int))
    requires
        g.wf(),
        g.walls_within(h),
        g.connected(a, b),
    ensures
        h.connected(a, b),
{
    let p = choose|p: Seq<(int, int)>| g.is_path_between(p, a, b);
    lemma_path_grows(g, h, p);
    assert(h.is_path_between(p, a, b));
}

/// Every cell of the grid is connected to itself.
pub proof fn lemma_connected_refl(g: Grid, a: (int, int))
    requires
        g.contains(a.0, a.1),
    ensures
        g.connected(a, a),
{
    let p = seq![a];
    assert(g.is_path_between(p, a, a));
}

/// A walk can be extended through one more open passage.
pub proof fn lemma_connected_step(g: Grid, a: (int, int), b: (int, int), c: (int, int))
    requires
        g.connected(a, b),
        g.open_between(b.0, b.1, c.0, c.1),
    ensures
        g.connected(a, c),
{
    let p = choose|p: Seq<(int, int)>| g.is_path_between(p, a, b);
    let q = p.push(c);
    assert forall|i: int| 0 <= i < q.len() - 1 implies #[trigger] g.step_open(q, i) by {
        if i < p.len() - 1 {
            assert(g.step_open(p, i));
        }
    }
    assert(g.is_path_between(q, a, c));
}

/// A walk can be walked backwards.
pub proof fn lemma_connected_sym(g: Grid, a: (int, int), b: (int, int))
    requires
        g.connected(a, b),
    ensures
        g.connected(b, a),
{
    let p = choose|p: Seq<(int, int)>| g.is_path_between(p, a, b);
    let q = Seq::new(p.len(), |i: int| p[p.len() - 1 - i]);
    assert forall|i: int| 0 <= i < q.len() - 1 implies #[trigger] g.step_open(q, i) by {
        assert(g.step_open(p, p.len() - 2 - i));
    }
    if p.len() > 1 {
        assert(g.step_open(p, p.len() - 2));
    }
    assert(g.is_path_between(q, b, a));
}

/// Two walks that meet can be joined.
pub proof fn lemma_connected_trans(g: Grid, a: (int, int), b: (int, int), c: (int, int))
    requires
        g.connected(a, b),
        g.connected(b, c),
    ensures
        g.connected(a, c),
{
    let p = choose|p: Seq<(int, int)>| g.is_path_between(p, a, b);
    let q = choose|q: Seq<(int, int)>| g.is_path_between(q, b, c);
    let r = p + q.subrange(1, q.len() as int);
    assert forall|i: int| 0 <= i < r.len() - 1 implies #[trigger] g.step_open(r, i) by {
        if i < p.len() - 1 {
            assert(g.step_open(p, i));
        } else {
            assert(g.step_open(q, i - (p.len() - 1)));
        }
    }
    assert(g.is_path_between(r, a, c));
}

/// Grids with the same walls have the same number of open passages, and
/// symmetric walls in the one are symmetric in the other.
pub proof fn lemma_same_walls(g: Grid, h: Grid)
    requires
        g.wf(),
        g.same_walls(h),
    ensures
        g.open_passages() == h.open_passages(),
        g.walls_symmetric() ==> h.walls_symmetric(),
{
    let f = |x: int, y: int| g.passages_at(x, y);
    let k = |x: int, y: int| h.passages_at(x, y);
    assert forall|x: int, y: int|
        0 <= x < g.width && 0 <= y < g.height implies #[trigger] f(x, y) == k(x, y) by {
        lemma_row_major(g.width as int, g.height as int, x, y);
    }
    lemma_grid_sum_update(f, k, g.width as int, g.height as int, -1, -1);
    if g.walls_symmetric() {
        assert forall|x: int, y: int| #[trigger] h.contains(x, y) implies {
            &&& h.contains(x + 1, y) ==> h.cell(x, y).east == h.cell(x + 1, y).west
            &&& h.contains(x, y + 1) ==> h.cell(x, y).south == h.cell(x, y + 1).north
        } by {
            assert(g.contains(x, y));
            lemma_row_major(g.width as int, g.height as int, x, y);
            if h.contains(x + 1, y) {
                lemma_row_major(g.width as int, g.height as int, x + 1, y);
            }
            if h.contains(x, y + 1) {
                lemma_row_major(g.width as int, g.height as int, x, y + 1);
            }
        }
    }
}

/// Grids with the same walls have the same cycles.
pub proof fn lemma_acyclic_same_walls(g: Grid, h: Grid)
    requires
        g.wf(),
        h.wf(),
        g.same_walls(h),
        g.acyclic(),
    ensures
        h.acyclic(),
{
    assert forall|p: Seq<(int, int)>| !h.is_cycle(p) by {
        if h.is_cycle(p) {
            lemma_path_grows(h, g, p);
            assert(g.is_cycle(p));
        }
    }
}

} // verus!
