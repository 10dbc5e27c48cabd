//! The depth-first search that carves the maze, as what it keeps true
//! from step to step: the passages carved so far form a tree that spans
//! the cells reached so far.

use crate::arith::lemma_row_major;
use crate::graph::{
    grid_sum, lemma_acyclic_same_walls, lemma_connected_grows, lemma_connected_refl,
    lemma_connected_step, lemma_connected_sym, lemma_connected_trans, lemma_grid_sum_bounds,
    lemma_grid_sum_ones, lemma_grid_sum_update, lemma_open_between_grows, lemma_same_walls,
};
use crate::maze::{
    blank_cell, direction_to, lemma_neighbors_where, lemma_with_cell, opposite, with_open_side,
    Grid, MazeCell,
};
use vstd::prelude::*;

verus! {

/// `(x, y)` has been reached by the search: it is visited, or it is the
/// cell on top of the stack, which is visited next.
pub open spec fn reached(g: Grid, s: Seq<(usize, usize)>, x: int, y: int) -> bool {
    g.visited(x, y) || (g.contains(x, y) && s.len() > 0 && s.last().0 == x && s.last().1 == y)
}

/// 1 for a cell of the grid that the search has not reached, else 0.
pub open spec fn unreached_at(g: Grid, s: Seq<(usize, usize)>) -> spec_fn(int, int) -> int {
    |x: int, y: int|
        if g.contains(x, y) && !reached(g, s, x, y) {
            1int
        } else {
            0int
        }
}

/// The number of cells that the search has not reached.
pub open spec fn unreached_count(g: Grid, s: Seq<(usize, usize)>) -> int {
    grid_sum(unreached_at(g, s), g.width as int, g.height as int)
}

/// `(x, y)` is on the stack.
pub open spec fn on_stack(s: Seq<(usize, usize)>, x: int, y: int) -> bool {
    exists|i: int| 0 <= i < s.len() && (#[trigger] s[i]).0 == x && s[i].1 == y
}

/// Every cell on the stack lies in the grid, and all but the top one are
/// visited.
pub open spec fn stack_inv(g: Grid, s: Seq<(usize, usize)>) -> bool {
    &&& g.wf()
    &&& forall|i: int|
        0 <= i < s.len() ==> {
            &&& g.contains((#[trigger] s[i]).0 as int, s[i].1 as int)
            &&& i < s.len() - 1 ==> g.visited(s[i].0 as int, s[i].1 as int)
        }
}

/// Every cell on the stack is visited.
pub open spec fn stack_visited(g: Grid, s: Seq<(usize, usize)>) -> bool {
    forall|i: int| 0 <= i < s.len() ==> g.visited((#[trigger] s[i]).0 as int, s[i].1 as int)
}

/// The two cells are next to each other on the grid.
pub open spec fn adjacent(x: int, y: int, nx: int, ny: int) -> bool {
    ||| (nx == x + 1 && ny == y)
    ||| (nx == x - 1 && ny == y)
    ||| (nx == x && ny == y + 1)
    ||| (nx == x && ny == y - 1)
}

/// What marking a cell changes: its visited flag, and nothing else.
pub proof fn lemma_marked(g: Grid, x: int, y: int)
    requires
        g.wf(),
        g.contains(x, y),
    ensures
        g.marked(x, y).wf(),
        g.marked(x, y).width == g.width,
        g.marked(x, y).height == g.height,
        g.same_walls(g.marked(x, y)),
        g.marked(x, y).visited(x, y),
        forall|x2: int, y2: int|
            g.contains(x2, y2) && !(x2 == x && y2 == y) ==> #[trigger] g.marked(x, y).cell(x2, y2)
                == g.cell(x2, y2),
        g.marked(x, y).cell(x, y) == (MazeCell { visited: true, ..g.cell(x, y) }),
{
    lemma_with_cell(g, x, y, MazeCell { visited: true, ..g.cell(x, y) });
    lemma_row_major(g.width as int, g.height as int, x, y);
    let h = g.marked(x, y);
    assert forall|i: int| 0 <= i < g.cells.len() implies {
        &&& (#[trigger] g.cells[i]).north == h.cells[i].north
        &&& g.cells[i].south == h.cells[i].south
        &&& g.cells[i].east == h.cells[i].east
        &&& g.cells[i].west == h.cells[i].west
    } by {
        assert(i == g.pos(x, y) || h.cells[i] == g.cells[i]);
    }
    assert forall|i: int| 0 <= i < h.cells.len() implies {
        &&& (#[trigger] h.cells[i]).north == g.cells[i].north
        &&& h.cells[i].south == g.cells[i].south
        &&& h.cells[i].east == g.cells[i].east
        &&& h.cells[i].west == g.cells[i].west
    } by {
        assert(i == g.pos(x, y) || h.cells[i] == g.cells[i]);
    }
}

/// What carving between two different cells changes: one wall of each.
pub proof fn lemma_carved(g: Grid, x: int, y: int, nx: int, ny: int)
    requires
        g.wf(),
        g.contains(x, y),
        g.contains(nx, ny),
        !(x == nx && y == ny),
    ensures
        g.carved(x, y, nx, ny).wf(),
        g.carved(x, y, nx, ny).width == g.width,
        g.carved(x, y, nx, ny).height == g.height,
        g.walls_within(g.carved(x, y, nx, ny)),
        g.carved(x, y, nx, ny).cell(x, y) == with_open_side(
            g.cell(x, y),
            direction_to(x, y, nx, ny),
        ),
        g.carved(x, y, nx, ny).cell(nx, ny) == with_open_side(
            g.cell(nx, ny),
            opposite(direction_to(x, y, nx, ny)),
        ),
        forall|x2: int, y2: int|
            g.contains(x2, y2) && !(x2 == x && y2 == y) && !(x2 == nx && y2 == ny)
                ==> #[trigger] g.carved(x, y, nx, ny).cell(x2, y2) == g.cell(x2, y2),
{
    let d = direction_to(x, y, nx, ny);
    let half = g.with_cell(x, y, with_open_side(g.cell(x, y), d));
    lemma_with_cell(g, x, y, with_open_side(g.cell(x, y), d));
    assert(half.cell(nx, ny) == g.cell(nx, ny));
    lemma_with_cell(half, nx, ny, with_open_side(half.cell(nx, ny), opposite(d)));
    let full = g.carved(x, y, nx, ny);
    assert forall|x2: int, y2: int|
        g.contains(x2, y2) && !(x2 == x && y2 == y) && !(x2 == nx && y2 == ny) implies (
    #[trigger] full.cell(x2, y2)) == g.cell(x2, y2) by {
        assert(half.contains(x2, y2));
        assert(full.cell(x2, y2) == half.cell(x2, y2));
    }
    assert(full.cell(x, y) == half.cell(x, y));
    lemma_row_major(g.width as int, g.height as int, x, y);
    lemma_row_major(g.width as int, g.height as int, nx, ny);
    assert forall|i: int| 0 <= i < g.cells.len() implies {
        &&& (#[trigger] g.cells[i]).north ==> full.cells[i].north
        &&& g.cells[i].south ==> full.cells[i].south
        &&& g.cells[i].east ==> full.cells[i].east
        &&& g.cells[i].west ==> full.cells[i].west
    } by {
        assert(i == g.pos(x, y) || half.cells[i] == g.cells[i]);
        assert(i == g.pos(nx, ny) || full.cells[i] == half.cells[i]);
    }
}

/// Marking the top of the stack keeps the stack in order, makes all of it
/// visited, and changes neither the walls nor what has been reached.
pub proof fn lemma_mark_top(g: Grid, s: Seq<(usize, usize)>)
    requires
        stack_inv(g, s),
        s.len() > 0,
    ensures
        stack_inv(g.marked(s.last().0 as int, s.last().1 as int), s),
        stack_visited(g.marked(s.last().0 as int, s.last().1 as int), s),
        forall|x: int, y: int| #[trigger]
            reached(g.marked(s.last().0 as int, s.last().1 as int), s, x, y) == reached(g, s, x, y),
        unreached_count(g.marked(s.last().0 as int, s.last().1 as int), s) == unreached_count(g, s),
{
    let tx = s.last().0 as int;
    let ty = s.last().1 as int;
    let h = g.marked(tx, ty);
    lemma_marked(g, tx, ty);
    assert forall|i: int| 0 <= i < s.len() implies h.visited(
        (#[trigger] s[i]).0 as int,
        s[i].1 as int,
    ) by {
        assert(g.contains(s[i].0 as int, s[i].1 as int));
    }
    assert forall|x: int, y: int| #[trigger] reached(h, s, x, y) == reached(g, s, x, y) by {
        if g.contains(x, y) && !(x == tx && y == ty) {
            assert(h.cell(x, y) == g.cell(x, y));
        }
    }
    lemma_grid_sum_update(
        unreached_at(g, s),
        unreached_at(h, s),
        g.width as int,
        g.height as int,
        -1,
        -1,
    );
}

/// Dropping a visited top keeps the stack in order and changes nothing of
/// what has been reached.
pub proof fn lemma_drop_top(g: Grid, s: Seq<(usize, usize)>)
    requires
        stack_inv(g, s),
        stack_visited(g, s),
        s.len() > 0,
    ensures
        stack_inv(g, s.drop_last()),
        forall|x: int, y: int| #[trigger]
            reached(g, s.drop_last(), x, y) == reached(g, s, x, y),
        unreached_count(g, s.drop_last()) == unreached_count(g, s),
{
    let r = s.drop_last();
    assert forall|i: int| 0 <= i < r.len() implies {
        &&& g.contains((#[trigger] r[i]).0 as int, r[i].1 as int)
        &&& i < r.len() - 1 ==> g.visited(r[i].0 as int, r[i].1 as int)
    } by {
        assert(r[i] == s[i]);
    }
    assert forall|x: int, y: int| #[trigger] reached(g, r, x, y) == reached(g, s, x, y) by {
        assert(g.visited(s.last().0 as int, s.last().1 as int));
        if r.len() > 0 {
            assert(r.last() == s[r.len() - 1]);
            assert(g.visited(r.last().0 as int, r.last().1 as int));
        }
    }
    lemma_grid_sum_update(
        unreached_at(g, s),
        unreached_at(g, r),
        g.width as int,
        g.height as int,
        -1,
        -1,
    );
}

/// Carving from a visited top to an unvisited neighbour and pushing that
/// neighbour keeps the stack in order and reaches one cell more.
pub proof fn lemma_push_next(g: Grid, s: Seq<(usize, usize)>, nx: usize, ny: usize)
    requires
        stack_inv(g, s),
        stack_visited(g, s),
        s.len() > 0,
        g.unvisited(nx as int, ny as int),
    ensures
        stack_inv(
            g.carved(s.last().0 as int, s.last().1 as int, nx as int, ny as int),
            s.push((nx, ny)),
        ),
        forall|x: int, y: int| #[trigger]
            reached(
                g.carved(s.last().0 as int, s.last().1 as int, nx as int, ny as int),
                s.push((nx, ny)),
                x,
                y,
            ) == (reached(g, s, x, y) || (x == nx && y == ny)),
        unreached_count(
            g.carved(s.last().0 as int, s.last().1 as int, nx as int, ny as int),
            s.push((nx, ny)),
        ) == unreached_count(g, s) - 1,
{
    let tx = s.last().0 as int;
    let ty = s.last().1 as int;
    let h = g.carved(tx, ty, nx as int, ny as int);
    let s2 = s.push((nx, ny));
    assert(g.visited(tx, ty));
    lemma_carved(g, tx, ty, nx as int, ny as int);
    assert forall|x: int, y: int| g.contains(x, y) implies (#[trigger] h.cell(x, y)).visited
        == g.cell(x, y).visited by {
        if !(x == tx && y == ty) && !(x == nx && y == ny) {
            assert(h.cell(x, y) == g.cell(x, y));
        }
    }
    assert forall|i: int| 0 <= i < s2.len() implies {
        &&& h.contains((#[trigger] s2[i]).0 as int, s2[i].1 as int)
        &&& i < s2.len() - 1 ==> h.visited(s2[i].0 as int, s2[i].1 as int)
    } by {
        if i < s.len() {
            assert(s2[i] == s[i]);
            assert(g.visited(s[i].0 as int, s[i].1 as int));
            assert(h.cell(s[i].0 as int, s[i].1 as int).visited == g.cell(
                s[i].0 as int,
                s[i].1 as int,
            ).visited);
        }
    }
    assert forall|x: int, y: int| #[trigger]
        reached(h, s2, x, y) == (reached(g, s, x, y) || (x == nx && y == ny)) by {
        if g.contains(x, y) {
            assert(h.cell(x, y).visited == g.cell(x, y).visited);
        }
    }
    assert(!reached(g, s, nx as int, ny as int));
    lemma_grid_sum_update(
        unreached_at(g, s),
        unreached_at(h, s2),
        g.width as int,
        g.height as int,
        nx as int,
        ny as int,
    );
}

/// All four walls of the cell stand.
pub open spec fn closed_cell(c: MazeCell) -> bool {
    !c.north && !c.south && !c.east && !c.west
}

/// Every grid neighbour of `(x, y)` is visited.
pub open spec fn neighbors_visited(g: Grid, x: int, y: int) -> bool {
    &&& g.contains(x - 1, y) ==> g.visited(x - 1, y)
    &&& g.contains(x + 1, y) ==> g.visited(x + 1, y)
    &&& g.contains(x, y - 1) ==> g.visited(x, y - 1)
    &&& g.contains(x, y + 1) ==> g.visited(x, y + 1)
}

/// What the search keeps true of a maze that started blank: the walls
/// agree; the start has been reached; every reached cell is connected to
/// the start; there is one passage less than there are reached cells; the
/// cells not yet reached have all their walls; and a visited cell that is
/// no longer on the stack has no unvisited neighbour.
#[verifier::opaque]
pub open spec fn tree_inv(g: Grid, s: Seq<(usize, usize)>, sx: int, sy: int) -> bool {
    &&& g.walls_symmetric()
    &&& reached(g, s, sx, sy)
    &&& forall|x: int, y: int| #[trigger] reached(g, s, x, y) ==> g.connected((sx, sy), (x, y))
    &&& g.open_passages() + unreached_count(g, s) + 1 == g.width * g.height
    &&& forall|x: int, y: int|
        g.contains(x, y) && !reached(g, s, x, y) ==> closed_cell(#[trigger] g.cell(x, y))
    &&& forall|x: int, y: int|
        g.visited(x, y) && !on_stack(s, x, y) ==> #[trigger] neighbors_visited(g, x, y)
}

/// A blank maze with only the start on the stack is where the search
/// begins.
pub proof fn lemma_start(g: Grid, sx: usize, sy: usize)
    requires
        g.wf(),
        g.contains(sx as int, sy as int),
    ensures
        stack_inv(g, seq![(sx, sy)]),
        g.is_blank() ==> tree_inv(g, seq![(sx, sy)], sx as int, sy as int),
{
    reveal(tree_inv);
    let s = seq![(sx, sy)];
    let w = g.width as int;
    let h = g.height as int;
    if g.is_blank() {
        assert forall|x: int, y: int| #[trigger] g.contains(x, y) implies g.cell(x, y)
            == blank_cell() by {
            lemma_row_major(w, h, x, y);
        }
        assert(g.walls_symmetric()) by {
            assert forall|x: int, y: int| #[trigger] g.contains(x, y) implies {
                &&& g.contains(x + 1, y) ==> g.cell(x, y).east == g.cell(x + 1, y).west
                &&& g.contains(x, y + 1) ==> g.cell(x, y).south == g.cell(x, y + 1).north
            } by {
                if g.contains(x + 1, y) {
                    assert(g.cell(x + 1, y) == blank_cell());
                }
                if g.contains(x, y + 1) {
                    assert(g.cell(x, y + 1) == blank_cell());
                }
            }
        }
        assert forall|x: int, y: int| #[trigger] reached(g, s, x, y) implies g.connected(
            (sx as int, sy as int),
            (x, y),
        ) by {
            if g.contains(x, y) {
                assert(g.cell(x, y) == blank_cell());
            }
            lemma_connected_refl(g, (sx as int, sy as int));
        }
        let pf = |x: int, y: int| g.passages_at(x, y);
        assert forall|x: int, y: int| 0 <= x < w && 0 <= y < h implies #[trigger] pf(x, y) == 0 by {
            assert(g.contains(x, y));
            assert(g.cell(x, y) == blank_cell());
        }
        lemma_grid_sum_bounds(pf, w, h);
        let ones = |x: int, y: int| 1int;
        lemma_grid_sum_ones(ones, w, h);
        assert forall|x: int, y: int|
            0 <= x < w && 0 <= y < h && !(x == sx && y == sy) implies #[trigger] ones(x, y)
            == unreached_at(g, s)(x, y) by {
            assert(g.contains(x, y));
            assert(g.cell(x, y) == blank_cell());
        }
        lemma_grid_sum_update(ones, unreached_at(g, s), w, h, sx as int, sy as int);
        assert forall|x: int, y: int|
            g.visited(x, y) && !on_stack(s, x, y) implies #[trigger] neighbors_visited(g, x, y) by {
            assert(g.cell(x, y) == blank_cell());
        }
    }
}

/// Marking the top of the stack keeps the tree.
pub proof fn lemma_mark_tree(g: Grid, s: Seq<(usize, usize)>, sx: int, sy: int)
    requires
        stack_inv(g, s),
        s.len() > 0,
        tree_inv(g, s, sx, sy),
    ensures
        tree_inv(g.marked(s.last().0 as int, s.last().1 as int), s, sx, sy),
{
    reveal(tree_inv);
    let tx = s.last().0 as int;
    let ty = s.last().1 as int;
    let h = g.marked(tx, ty);
    lemma_marked(g, tx, ty);
    lemma_mark_top(g, s);
    lemma_same_walls(g, h);
    assert forall|x: int, y: int| #[trigger] reached(h, s, x, y) implies h.connected(
        (sx, sy),
        (x, y),
    ) by {
        assert(reached(g, s, x, y));
        lemma_connected_grows(g, h, (sx, sy), (x, y));
    }
    assert forall|x: int, y: int| h.contains(x, y) && !reached(h, s, x, y) implies closed_cell(
        #[trigger] h.cell(x, y),
    ) by {
        assert(!reached(g, s, x, y));
        assert(h.cell(x, y) == g.cell(x, y));
    }
    assert forall|x: int, y: int|
        h.visited(x, y) && !on_stack(s, x, y) implies #[trigger] neighbors_visited(h, x, y) by {
        assert(s[s.len() - 1] == s.last());
        assert(!(x == tx && y == ty));
        assert(h.cell(x, y) == g.cell(x, y));
        assert(g.visited(x, y));
        assert(neighbors_visited(g, x, y));
        if g.contains(x - 1, y) {
            lemma_marked_keeps_visited(g, tx, ty, x - 1, y);
        }
        if g.contains(x + 1, y) {
            lemma_marked_keeps_visited(g, tx, ty, x + 1, y);
        }
        if g.contains(x, y - 1) {
            lemma_marked_keeps_visited(g, tx, ty, x, y - 1);
        }
        if g.contains(x, y + 1) {
            lemma_marked_keeps_visited(g, tx, ty, x, y + 1);
        }
    }
}

/// A cell that was visited is still visited after another is marked.
pub proof fn lemma_marked_keeps_visited(g: Grid, tx: int, ty: int, x: int, y: int)
    requires
        g.wf(),
        g.contains(tx, ty),
        g.visited(x, y),
    ensures
        g.marked(tx, ty).visited(x, y),
{
    lemma_marked(g, tx, ty);
    if !(x == tx && y == ty) {
        assert(g.marked(tx, ty).cell(x, y) == g.cell(x, y));
    }
}

/// Dropping a top that has no frontier neighbour keeps the tree.
pub proof fn lemma_drop_tree(g: Grid, s: Seq<(usize, usize)>, sx: int, sy: int)
    requires
        stack_inv(g, s),
        stack_visited(g, s),
        s.len() > 0,
        tree_inv(g, s, sx, sy),
        g.frontier_neighbors(s.last().0 as int, s.last().1 as int).len() == 0,
    ensures
        tree_inv(g, s.drop_last(), sx, sy),
{
    reveal(tree_inv);
    let tx = s.last().0 as int;
    let ty = s.last().1 as int;
    let r = s.drop_last();
    lemma_drop_top(g, s);
    assert(g.visited(tx, ty));
    lemma_neighbors_where(
        g,
        tx,
        ty,
        g.on_frontier(tx - 1, ty),
        g.on_frontier(tx + 1, ty),
        g.on_frontier(tx, ty - 1),
        g.on_frontier(tx, ty + 1),
    );
    assert forall|x: int, y: int| #[trigger] reached(g, r, x, y) implies g.connected(
        (sx, sy),
        (x, y),
    ) by {
        assert(reached(g, s, x, y));
    }
    assert forall|x: int, y: int| g.contains(x, y) && !reached(g, r, x, y) implies closed_cell(
        #[trigger] g.cell(x, y),
    ) by {
        assert(!reached(g, s, x, y));
    }
    assert forall|x: int, y: int|
        g.visited(x, y) && !on_stack(r, x, y) implies #[trigger] neighbors_visited(g, x, y) by {
        if x == tx && y == ty {
            assert(g.has_visited_neighbor(tx - 1, ty) || !g.contains(tx - 1, ty));
            assert(g.has_visited_neighbor(tx + 1, ty) || !g.contains(tx + 1, ty));
            assert(g.has_visited_neighbor(tx, ty - 1) || !g.contains(tx, ty - 1));
            assert(g.has_visited_neighbor(tx, ty + 1) || !g.contains(tx, ty + 1));
        } else {
            if on_stack(s, x, y) {
                let i = choose|i: int| 0 <= i < s.len() && (#[trigger] s[i]).0 == x && s[i].1 == y;
                assert(i < s.len() - 1);
                assert(r[i] == s[i]);
                assert(on_stack(r, x, y));
            }
        }
    }
}

/// Carving between two adjacent cells keeps the walls in agreement.
pub proof fn lemma_carved_symmetric(g: Grid, x: int, y: int, nx: int, ny: int)
    requires
        g.wf(),
        g.contains(x, y),
        g.contains(nx, ny),
        adjacent(x, y, nx, ny),
        g.walls_symmetric(),
    ensures
        g.carved(x, y, nx, ny).walls_symmetric(),
{
    let h = g.carved(x, y, nx, ny);
    lemma_carved(g, x, y, nx, ny);
    assert forall|a: int, b: int| #[trigger] h.contains(a, b) implies {
        &&& h.contains(a + 1, b) ==> h.cell(a, b).east == h.cell(a + 1, b).west
        &&& h.contains(a, b + 1) ==> h.cell(a, b).south == h.cell(a, b + 1).north
    } by {
        assert(g.contains(a, b));
        lemma_carved_cell(g, x, y, nx, ny, a, b);
        if h.contains(a + 1, b) {
            lemma_carved_cell(g, x, y, nx, ny, a + 1, b);
        }
        if h.contains(a, b + 1) {
            lemma_carved_cell(g, x, y, nx, ny, a, b + 1);
        }
    }
}

/// The walls of the cell `(a, b)` after carving between the adjacent cells
/// `(x, y)` and `(nx, ny)`: a wall is open if it was open, or if it is the
/// one between the two.
pub proof fn lemma_carved_cell(g: Grid, x: int, y: int, nx: int, ny: int, a: int, b: int)
    requires
        g.wf(),
        g.contains(x, y),
        g.contains(nx, ny),
        adjacent(x, y, nx, ny),
        g.contains(a, b),
    ensures
        g.carved(x, y, nx, ny).cell(a, b).visited == g.cell(a, b).visited,
        g.carved(x, y, nx, ny).cell(a, b).east == (g.cell(a, b).east || (a == x && b == y && nx == x
            + 1) || (a == nx && b == ny && x == nx + 1)),
        g.carved(x, y, nx, ny).cell(a, b).west == (g.cell(a, b).west || (a == x && b == y && nx == x
            - 1) || (a == nx && b == ny && x == nx - 1)),
        g.carved(x, y, nx, ny).cell(a, b).south == (g.cell(a, b).south || (a == x && b == y && ny
            == y + 1) || (a == nx && b == ny && y == ny + 1)),
        g.carved(x, y, nx, ny).cell(a, b).north == (g.cell(a, b).north || (a == x && b == y && ny
            == y - 1) || (a == nx && b == ny && y == ny - 1)),
{
    lemma_carved(g, x, y, nx, ny);
    if !(a == x && b == y) && !(a == nx && b == ny) {
        assert(g.carved(x, y, nx, ny).cell(a, b) == g.cell(a, b));
    }
}

/// Carving from the visited top to an adjacent unvisited cell and pushing
/// that cell keeps the tree.
pub proof fn lemma_push_tree(
    g: Grid,
    s: Seq<(usize, usize)>,
    nx: usize,
    ny: usize,
    sx: int,
    sy: int,
)
    requires
        stack_inv(g, s),
        stack_visited(g, s),
        s.len() > 0,
        g.unvisited(nx as int, ny as int),
        adjacent(s.last().0 as int, s.last().1 as int, nx as int, ny as int),
        tree_inv(g, s, sx, sy),
    ensures
        tree_inv(
            g.carved(s.last().0 as int, s.last().1 as int, nx as int, ny as int),
            s.push((nx, ny)),
            sx,
            sy,
        ),
{
    reveal(tree_inv);
    let tx = s.last().0 as int;
    let ty = s.last().1 as int;
    let ax = nx as int;
    let ay = ny as int;
    let h = g.carved(tx, ty, ax, ay);
    let s2 = s.push((nx, ny));
    let w = g.width as int;
    let ht = g.height as int;
    assert(g.visited(tx, ty));
    lemma_carved(g, tx, ty, ax, ay);
    lemma_push_next(g, s, nx, ny);
    lemma_carved_symmetric(g, tx, ty, ax, ay);
    assert(!reached(g, s, ax, ay));
    assert(closed_cell(g.cell(ax, ay)));
    // every reached cell is connected to the start
    lemma_carved_cell(g, tx, ty, ax, ay, tx, ty);
    lemma_carved_cell(g, tx, ty, ax, ay, ax, ay);
    assert(h.open_between(tx, ty, ax, ay));
    assert forall|x: int, y: int| #[trigger] reached(h, s2, x, y) implies h.connected(
        (sx, sy),
        (x, y),
    ) by {
        if reached(g, s, x, y) {
            lemma_connected_grows(g, h, (sx, sy), (x, y));
        } else {
            assert(reached(g, s, tx, ty));
            lemma_connected_grows(g, h, (sx, sy), (tx, ty));
            lemma_connected_step(h, (sx, sy), (tx, ty), (ax, ay));
        }
    }
    // one passage more
    let ox = if ax == tx + 1 || ay == ty + 1 {
        tx
    } else {
        ax
    };
    let oy = if ax == tx + 1 || ay == ty + 1 {
        ty
    } else {
        ay
    };
    let pf = |x: int, y: int| g.passages_at(x, y);
    let ph = |x: int, y: int| h.passages_at(x, y);
    assert forall|x: int, y: int|
        0 <= x < w && 0 <= y < ht && !(x == ox && y == oy) implies #[trigger] pf(x, y) == ph(
        x,
        y,
    ) by {
        assert(g.contains(x, y));
        lemma_carved_cell(g, tx, ty, ax, ay, x, y);
    }
    lemma_grid_sum_update(pf, ph, w, ht, ox, oy);
    assert(g.contains(tx, ty));
    assert(ph(ox, oy) == pf(ox, oy) + 1) by {
        lemma_carved_cell(g, tx, ty, ax, ay, ox, oy);
        assert(g.contains(ox, oy));
    }
    // the cells not reached keep their walls
    assert forall|x: int, y: int| h.contains(x, y) && !reached(h, s2, x, y) implies closed_cell(
        #[trigger] h.cell(x, y),
    ) by {
        assert(!reached(g, s, x, y));
        assert(!(x == tx && y == ty));
        assert(h.cell(x, y) == g.cell(x, y));
    }
    // finished cells keep their visited neighbours
    assert forall|x: int, y: int|
        h.visited(x, y) && !on_stack(s2, x, y) implies #[trigger] neighbors_visited(h, x, y) by {
        lemma_carved_cell(g, tx, ty, ax, ay, x, y);
        assert(g.visited(x, y));
        if on_stack(s, x, y) {
            let i = choose|i: int| 0 <= i < s.len() && (#[trigger] s[i]).0 == x && s[i].1 == y;
            assert(s2[i] == s[i]);
            assert(on_stack(s2, x, y));
        }
        assert(neighbors_visited(g, x, y));
        if g.contains(x - 1, y) {
            lemma_carved_cell(g, tx, ty, ax, ay, x - 1, y);
        }
        if g.contains(x + 1, y) {
            lemma_carved_cell(g, tx, ty, ax, ay, x + 1, y);
        }
        if g.contains(x, y - 1) {
            lemma_carved_cell(g, tx, ty, ax, ay, x, y - 1);
        }
        if g.contains(x, y + 1) {
            lemma_carved_cell(g, tx, ty, ax, ay, x, y + 1);
        }
    }
}

/// Where every visited cell has only visited neighbours and the start is
/// visited, every cell is visited.
pub proof fn lemma_reach_all(g: Grid, sx: int, sy: int, x: int, y: int)
    requires
        g.visited(sx, sy),
        g.contains(x, y),
        forall|a: int, b: int| g.visited(a, b) ==> #[trigger] neighbors_visited(g, a, b),
    ensures
        g.visited(x, y),
    decreases (if x >= sx {
        x - sx
    } else {
        sx - x
    }) + (if y >= sy {
        y - sy
    } else {
        sy - y
    }),
{
    if x > sx {
        lemma_reach_all(g, sx, sy, x - 1, y);
        assert(neighbors_visited(g, x - 1, y));
    } else if x < sx {
        lemma_reach_all(g, sx, sy, x + 1, y);
        assert(neighbors_visited(g, x + 1, y));
    } else if y > sy {
        lemma_reach_all(g, sx, sy, x, y - 1);
        assert(neighbors_visited(g, x, y - 1));
    } else if y < sy {
        lemma_reach_all(g, sx, sy, x, y + 1);
        assert(neighbors_visited(g, x, y + 1));
    }
}

/// From `c` an open passage leads to `n`, which was reached earlier.
pub open spec fn leads_back(
    g: Grid,
    ord: spec_fn((int, int)) -> int,
    c: (int, int),
    n: (int, int),
) -> bool {
    g.open_between(c.0, c.1, n.0, n.1) && ord(n) < ord(c)
}

/// The numbering `ord` with the cell `c` numbered `k`.
pub open spec fn numbered(ord: spec_fn((int, int)) -> int, c: (int, int), k: int) -> spec_fn(
    (int, int),
) -> int {
    |a: (int, int)|
        if a == c {
            k
        } else {
            ord(a)
        }
}

/// What the search keeps true of the order in which it reaches the cells
/// of a maze that started blank: `ord` numbers the reached cells, each
/// with a number of its own below `count`; passages lead only between
/// reached cells; and from no cell does more than one passage lead back to
/// a cell reached earlier.
#[verifier::opaque]
pub open spec fn order_inv(
    g: Grid,
    s: Seq<(usize, usize)>,
    ord: spec_fn((int, int)) -> int,
    count: int,
) -> bool {
    &&& forall|a: (int, int)| #[trigger] reached(g, s, a.0, a.1) ==> 0 <= ord(a) < count
    &&& forall|a: (int, int), b: (int, int)|
        #[trigger] reached(g, s, a.0, a.1) && #[trigger] reached(g, s, b.0, b.1) && ord(a) == ord(
            b,
        ) ==> a == b
    &&& forall|a: (int, int), b: (int, int)| #[trigger]
        g.open_between(a.0, a.1, b.0, b.1) ==> reached(g, s, a.0, a.1) && reached(g, s, b.0, b.1)
    &&& forall|c: (int, int), n1: (int, int), n2: (int, int)|
        #[trigger] leads_back(g, ord, c, n1) && #[trigger] leads_back(g, ord, c, n2) ==> n1 == n2
}

/// On a blank maze with only the start on the stack, any numbering orders
/// the one cell reached.
pub proof fn lemma_order_start(g: Grid, sx: usize, sy: usize)
    requires
        g.wf(),
        g.contains(sx as int, sy as int),
        g.is_blank(),
    ensures
        order_inv(g, seq![(sx, sy)], |a: (int, int)| 0int, 1),
{
    reveal(order_inv);
    let s = seq![(sx, sy)];
    let ord = |a: (int, int)| 0int;
    assert forall|x: int, y: int| #[trigger] g.contains(x, y) implies g.cell(x, y)
        == blank_cell() by {
        lemma_row_major(g.width as int, g.height as int, x, y);
    }
    assert forall|a: (int, int), b: (int, int)|
        #[trigger] reached(g, s, a.0, a.1) && #[trigger] reached(g, s, b.0, b.1) && ord(a) == ord(
            b,
        ) implies a == b by {
        assert(g.cell(a.0, a.1) == blank_cell());
        assert(g.cell(b.0, b.1) == blank_cell());
    }
    assert forall|a: (int, int), b: (int, int)| #[trigger]
        g.open_between(a.0, a.1, b.0, b.1) implies reached(g, s, a.0, a.1) && reached(
        g,
        s,
        b.0,
        b.1,
    ) by {
        assert(g.cell(a.0, a.1) == blank_cell());
    }
}

/// Marking the top of the stack keeps the order.
pub proof fn lemma_order_mark(
    g: Grid,
    s: Seq<(usize, usize)>,
    ord: spec_fn((int, int)) -> int,
    count: int,
)
    requires
        stack_inv(g, s),
        s.len() > 0,
        order_inv(g, s, ord, count),
    ensures
        order_inv(g.marked(s.last().0 as int, s.last().1 as int), s, ord, count),
{
    reveal(order_inv);
    let tx = s.last().0 as int;
    let ty = s.last().1 as int;
    let h = g.marked(tx, ty);
    lemma_marked(g, tx, ty);
    lemma_mark_top(g, s);
    assert forall|a: (int, int), b: (int, int)| #[trigger]
        h.open_between(a.0, a.1, b.0, b.1) implies g.open_between(a.0, a.1, b.0, b.1) by {
        lemma_open_between_grows(h, g, a.0, a.1, b.0, b.1);
    }
    assert forall|a: (int, int)| #[trigger] reached(h, s, a.0, a.1) implies 0 <= ord(a)
        < count by {
        assert(reached(g, s, a.0, a.1));
    }
    assert forall|a: (int, int), b: (int, int)|
        #[trigger] reached(h, s, a.0, a.1) && #[trigger] reached(h, s, b.0, b.1) && ord(a) == ord(
            b,
        ) implies a == b by {
        assert(reached(g, s, a.0, a.1));
        assert(reached(g, s, b.0, b.1));
    }
    assert forall|c: (int, int), n1: (int, int), n2: (int, int)|
        #[trigger] leads_back(h, ord, c, n1) && #[trigger] leads_back(h, ord, c, n2) implies n1
        == n2 by {
        assert(leads_back(g, ord, c, n1));
        assert(leads_back(g, ord, c, n2));
    }
}

/// Dropping a visited top keeps the order.
pub proof fn lemma_order_drop(
    g: Grid,
    s: Seq<(usize, usize)>,
    ord: spec_fn((int, int)) -> int,
    count: int,
)
    requires
        stack_inv(g, s),
        stack_visited(g, s),
        s.len() > 0,
        order_inv(g, s, ord, count),
    ensures
        order_inv(g, s.drop_last(), ord, count),
{
    reveal(order_inv);
    let r = s.drop_last();
    lemma_drop_top(g, s);
    assert forall|a: (int, int)| #[trigger] reached(g, r, a.0, a.1) implies 0 <= ord(a)
        < count by {
        assert(reached(g, s, a.0, a.1));
    }
    assert forall|a: (int, int), b: (int, int)|
        #[trigger] reached(g, r, a.0, a.1) && #[trigger] reached(g, r, b.0, b.1) && ord(a) == ord(
            b,
        ) implies a == b by {
        assert(reached(g, s, a.0, a.1));
        assert(reached(g, s, b.0, b.1));
    }
    assert forall|a: (int, int), b: (int, int)| #[trigger]
        g.open_between(a.0, a.1, b.0, b.1) implies reached(g, r, a.0, a.1) && reached(
        g,
        r,
        b.0,
        b.1,
    ) by {
        assert(reached(g, s, a.0, a.1));
        assert(reached(g, s, b.0, b.1));
    }
}

/// A passage that is open after carving between two adjacent cells was
/// open before, or is the one between the two.
pub proof fn lemma_carved_open_between(
    g: Grid,
    x: int,
    y: int,
    nx: int,
    ny: int,
    a: (int, int),
    b: (int, int),
)
    requires
        g.wf(),
        g.contains(x, y),
        g.contains(nx, ny),
        adjacent(x, y, nx, ny),
        g.carved(x, y, nx, ny).open_between(a.0, a.1, b.0, b.1),
    ensures
        g.open_between(a.0, a.1, b.0, b.1) || (a == (x, y) && b == (nx, ny)) || (a == (nx, ny) && b
            == (x, y)),
{
    lemma_carved(g, x, y, nx, ny);
    lemma_carved_cell(g, x, y, nx, ny, a.0, a.1);
    lemma_carved_cell(g, x, y, nx, ny, b.0, b.1);
}

/// Carving from the visited top to an adjacent unvisited cell, pushing
/// that cell and giving it the next number keeps the order.
pub proof fn lemma_order_push(
    g: Grid,
    s: Seq<(usize, usize)>,
    nx: usize,
    ny: usize,
    ord: spec_fn((int, int)) -> int,
    count: int,
)
    requires
        stack_inv(g, s),
        stack_visited(g, s),
        s.len() > 0,
        g.unvisited(nx as int, ny as int),
        adjacent(s.last().0 as int, s.last().1 as int, nx as int, ny as int),
        order_inv(g, s, ord, count),
    ensures
        order_inv(
            g.carved(s.last().0 as int, s.last().1 as int, nx as int, ny as int),
            s.push((nx, ny)),
            numbered(ord, (nx as int, ny as int), count),
            count + 1,
        ),
{
    reveal(order_inv);
    let tx = s.last().0 as int;
    let ty = s.last().1 as int;
    let t = (tx, ty);
    let n = (nx as int, ny as int);
    let h = g.carved(tx, ty, n.0, n.1);
    let s2 = s.push((nx, ny));
    let ord2 = numbered(ord, n, count);
    assert(g.visited(tx, ty));
    assert(reached(g, s, tx, ty));
    assert(!reached(g, s, n.0, n.1));
    lemma_carved(g, tx, ty, n.0, n.1);
    lemma_push_next(g, s, nx, ny);
    assert forall|a: (int, int)| #[trigger] reached(h, s2, a.0, a.1) implies 0 <= ord2(a) < count
        + 1 by {
        if a != n {
            assert(reached(g, s, a.0, a.1));
        }
    }
    assert forall|a: (int, int), b: (int, int)|
        #[trigger] reached(h, s2, a.0, a.1) && #[trigger] reached(h, s2, b.0, b.1) && ord2(a)
            == ord2(b) implies a == b by {
        if a != n {
            assert(reached(g, s, a.0, a.1));
        }
        if b != n {
            assert(reached(g, s, b.0, b.1));
        }
    }
    assert forall|a: (int, int), b: (int, int)| #[trigger]
        h.open_between(a.0, a.1, b.0, b.1) implies reached(h, s2, a.0, a.1) && reached(
        h,
        s2,
        b.0,
        b.1,
    ) by {
        lemma_carved_open_between(g, tx, ty, n.0, n.1, a, b);
        if g.open_between(a.0, a.1, b.0, b.1) {
            assert(reached(g, s, a.0, a.1) && reached(g, s, b.0, b.1));
        }
        assert(reached(h, s2, tx, ty));
        assert(reached(h, s2, n.0, n.1));
    }
    assert forall|c: (int, int), n1: (int, int), n2: (int, int)|
        #[trigger] leads_back(h, ord2, c, n1) && #[trigger] leads_back(h, ord2, c, n2) implies n1
        == n2 by {
        lemma_carved_open_between(g, tx, ty, n.0, n.1, c, n1);
        lemma_carved_open_between(g, tx, ty, n.0, n.1, c, n2);
        if g.open_between(c.0, c.1, n1.0, n1.1) {
            assert(reached(g, s, c.0, c.1) && reached(g, s, n1.0, n1.1));
        }
        if g.open_between(c.0, c.1, n2.0, n2.1) {
            assert(reached(g, s, c.0, c.1) && reached(g, s, n2.0, n2.1));
        }
        if c == n {
            // The cell just reached has the one passage, to the top.
            assert(n1 == t);
            assert(n2 == t);
        } else {
            // An earlier cell gains no passage to an earlier cell.
            assert(reached(g, s, t.0, t.1));
            assert(0 <= ord(t) < count);
            if g.open_between(c.0, c.1, n1.0, n1.1) && g.open_between(c.0, c.1, n2.0, n2.1) {
                assert(leads_back(g, ord, c, n1));
                assert(leads_back(g, ord, c, n2));
            }
        }
    }
}

/// An index of `p` below `n` at which `ord` is greatest.
pub proof fn lemma_latest(p: Seq<(int, int)>, ord: spec_fn((int, int)) -> int, n: int) -> (m: int)
    requires
        1 <= n <= p.len(),
    ensures
        0 <= m < n,
        forall|i: int| 0 <= i < n ==> ord(#[trigger] p[i]) <= ord(p[m]),
    decreases n,
{
    if n == 1 {
        0
    } else {
        let m = lemma_latest(p, ord, n - 1);
        if ord(p[n - 1]) > ord(p[m]) {
            n - 1
        } else {
            m
        }
    }
}

/// Where the cells are ordered so that from no cell more than one passage
/// leads back, no walk comes round in a cycle: of the cell of a cycle that
/// was reached last, both neighbours on the cycle would lead back.
pub proof fn lemma_order_finish(
    g: Grid,
    s: Seq<(usize, usize)>,
    ord: spec_fn((int, int)) -> int,
    count: int,
)
    requires
        order_inv(g, s, ord, count),
    ensures
        g.acyclic(),
{
    reveal(order_inv);
    assert forall|p: Seq<(int, int)>| !g.is_cycle(p) by {
        if g.is_cycle(p) {
            let len = p.len() as int - 1;
            let m = lemma_latest(p, ord, len);
            let before = if m == 0 {
                len - 1
            } else {
                m - 1
            };
            let after = if m == len - 1 {
                0
            } else {
                m + 1
            };
            assert(p[len] == p[0]);
            assert(g.step_open(p, m));
            assert(g.step_open(p, before));
            assert(g.step_open(p, after));
            assert(p[m + 1] == p[after]);
            assert(p[before + 1] == p[m]);
            assert(g.open_between(p[m].0, p[m].1, p[after].0, p[after].1));
            assert(g.open_between(p[m].0, p[m].1, p[before].0, p[before].1));
            assert(reached(g, s, p[m].0, p[m].1));
            assert(reached(g, s, p[after].0, p[after].1));
            assert(reached(g, s, p[before].0, p[before].1));
            assert(p[before] != p[m]);
            assert(p[after] != p[m]);
            assert(p[before] != p[after]);
            assert(ord(p[before]) <= ord(p[m]));
            assert(ord(p[after]) <= ord(p[m]));
            assert(leads_back(g, ord, p[m], p[before]));
            assert(leads_back(g, ord, p[m], p[after]));
        }
    }
}

/// When the stack is empty the tree spans the grid: the maze is perfect.
pub proof fn lemma_finish(g: Grid, sx: int, sy: int)
    requires
        g.wf(),
        tree_inv(g, Seq::empty(), sx, sy),
        g.acyclic(),
    ensures
        g.is_perfect(),
{
    reveal(tree_inv);
    let s = Seq::<(usize, usize)>::empty();
    let w = g.width as int;
    let h = g.height as int;
    assert(g.visited(sx, sy));
    assert forall|a: int, b: int| g.visited(a, b) implies #[trigger] neighbors_visited(g, a, b) by {
        assert(!on_stack(s, a, b));
    }
    assert forall|x: int, y: int| 0 <= x < w && 0 <= y < h implies #[trigger] unreached_at(g, s)(
        x,
        y,
    ) == 0 by {
        lemma_reach_all(g, sx, sy, x, y);
    }
    lemma_grid_sum_bounds(unreached_at(g, s), w, h);
    assert forall|ax: int, ay: int, bx: int, by: int|
        g.contains(ax, ay) && g.contains(bx, by) implies #[trigger] g.connected(
        (ax, ay),
        (bx, by),
    ) by {
        lemma_reach_all(g, sx, sy, ax, ay);
        lemma_reach_all(g, sx, sy, bx, by);
        assert(reached(g, s, ax, ay));
        assert(reached(g, s, bx, by));
        lemma_connected_sym(g, (sx, sy), (ax, ay));
        lemma_connected_trans(g, (ax, ay), (sx, sy), (bx, by));
    }
}

/// A maze with the walls of a perfect maze is perfect.
pub proof fn lemma_perfect_same_walls(g: Grid, h: Grid)
    requires
        g.wf(),
        h.wf(),
        g.same_walls(h),
        g.is_perfect(),
    ensures
        h.is_perfect(),
{
    lemma_same_walls(g, h);
    lemma_acyclic_same_walls(g, h);
    assert forall|ax: int, ay: int, bx: int, by: int|
        h.contains(ax, ay) && h.contains(bx, by) implies #[trigger] h.connected(
        (ax, ay),
        (bx, by),
    ) by {
        assert(g.connected((ax, ay), (bx, by)));
        lemma_connected_grows(g, h, (ax, ay), (bx, by));
    }
}

/// The number of cells not reached lies between zero and the size of the
/// grid.
pub proof fn lemma_unreached_bounds(g: Grid, s: Seq<(usize, usize)>)
    ensures
        0 <= unreached_count(g, s) <= g.width * g.height,
{
    lemma_grid_sum_bounds(unreached_at(g, s), g.width as int, g.height as int);
}

} // verus!
