//! Maze generation by randomized depth-first search.

use crate::graph::lemma_same_walls;
use crate::maze::{lemma_neighbors_where, Maze, MazeCell};
use crate::search::{
    lemma_carved, lemma_carved_symmetric, lemma_drop_top, lemma_drop_tree, lemma_finish,
    lemma_mark_top, lemma_mark_tree, lemma_marked, lemma_order_drop, lemma_order_finish,
    lemma_order_mark, lemma_order_push, lemma_order_start, lemma_perfect_same_walls,
    lemma_push_next, lemma_push_tree, lemma_start, lemma_unreached_bounds, numbered, order_inv,
    stack_inv, tree_inv, unreached_count,
};
use rand::Rng;
use vstd::prelude::*;

verus! {

/// Draws an index below `n` from the thread-local random number generator:
/// `rand::Rng::gen_range` over `0..n` on `rand::thread_rng()`. The range
/// must not be empty. Believed of it: the result lies in the range. Which
/// index it is differs from call to call.
#[verifier::external_body]
fn random_below(n: usize) -> (r: usize)
    requires
        n > 0,
    ensures
        r < n,
{
    rand::thread_rng().gen_range(0..n)
}

impl Maze {
    /// Takes the `k`-th of `neighbors` out of the list and opens the wall
    /// pair between `(x, y)` and it. Returns the neighbour taken.
    pub fn carve_toward(
        &mut self,
        x: usize,
        y: usize,
        neighbors: &mut Vec<(usize, usize)>,
        k: usize,
    ) -> (n: (usize, usize))
        requires
            old(self).wf(),
            old(self)@.contains(x as int, y as int),
            k < old(neighbors)@.len(),
            old(self)@.contains(
                old(neighbors)@[k as int].0 as int,
                old(neighbors)@[k as int].1 as int,
            ),
        ensures
            n == old(neighbors)@[k as int],
            final(neighbors)@ == old(neighbors)@.remove(k as int),
            final(self)@ == old(self)@.carved(x as int, y as int, n.0 as int, n.1 as int),
            final(self).wf(),
    {
        let (nx, ny) = neighbors.remove(k);
        self.connect(x, y, nx, ny);
        (nx, ny)
    }

    /// Carves a maze by randomized depth-first search from `(x, y)`: the
    /// search marks the cell on top of its stack, picks at random one of
    /// that cell's unvisited neighbours, opens the wall pair toward it and
    /// goes on from there; where there is none it goes back. At the end
    /// every visited mark is cleared.
    ///
    /// Walls are only ever opened. On a blank maze the result is perfect,
    /// whatever the random choices were.
    #[verifier::rlimit(40)]
    pub fn generate(&mut self, x: usize, y: usize)
        requires
            old(self).wf(),
            old(self)@.contains(x as int, y as int),
        ensures
            final(self).wf(),
            final(self).width == old(self).width,
            final(self).height == old(self).height,
            forall|i: int|
                0 <= i < final(self).cells@.len() ==> !(#[trigger] final(self).cells@[i]).visited,
            old(self)@.walls_within(final(self)@),
            old(self)@.walls_symmetric() ==> final(self)@.walls_symmetric(),
            old(self)@.is_blank() ==> final(self)@.is_perfect(),
    {
        let ghost g_old = self@;
        let mut stack: Vec<(usize, usize)> = Vec::new();
        stack.push((x, y));
        let ghost mut ord: spec_fn((int, int)) -> int = |a: (int, int)| 0int;
        let ghost mut count: int = 1;
        proof {
            assert(stack@ =~= seq![(x, y)]);
            lemma_start(g_old, x, y);
            lemma_unreached_bounds(g_old, stack@);
            if g_old.is_blank() {
                lemma_order_start(g_old, x, y);
            }
        }
        while stack.len() > 0
            invariant
                self.width == g_old.width,
                self.height == g_old.height,
                self@.contains(x as int, y as int),
                stack_inv(self@, stack@),
                g_old.walls_within(self@),
                g_old.walls_symmetric() ==> self@.walls_symmetric(),
                g_old.is_blank() ==> tree_inv(self@, stack@, x as int, y as int),
                g_old.is_blank() ==> order_inv(self@, stack@, ord, count),
                unreached_count(self@, stack@) >= 0,
            decreases 2 * unreached_count(self@, stack@) + stack@.len(),
        {
            let ghost g0 = self@;
            let ghost s0 = stack@;
            let top = stack.pop();
            let (cx, cy) = top.unwrap();
            self.mark_visited(cx, cy);
            let ghost g1 = self@;
            proof {
                assert(stack@ =~= s0.drop_last());
                lemma_marked(g0, cx as int, cy as int);
                lemma_mark_top(g0, s0);
                if g_old.is_blank() {
                    lemma_mark_tree(g0, s0, x as int, y as int);
                    lemma_order_mark(g0, s0, ord, count);
                }
                if g_old.walls_symmetric() {
                    lemma_same_walls(g0, g1);
                }
            }
            let mut neighbors = self.get_cell_unvisited_neighbors_with_visited_neighbors(cx, cy);
            if neighbors.len() == 0 {
                proof {
                    lemma_drop_top(g1, s0);
                    if g_old.is_blank() {
                        lemma_drop_tree(g1, s0, x as int, y as int);
                        lemma_order_drop(g1, s0, ord, count);
                    }
                }
            } else {
                stack.push((cx, cy));
                let k = random_below(neighbors.len());
                proof {
                    lemma_neighbors_where(
                        g1,
                        cx as int,
                        cy as int,
                        g1.on_frontier(cx - 1, cy as int),
                        g1.on_frontier(cx + 1, cy as int),
                        g1.on_frontier(cx as int, cy - 1),
                        g1.on_frontier(cx as int, cy + 1),
                    );
                }
                proof {
                    assert(g1.is_kept_neighbor(
                        cx as int,
                        cy as int,
                        g1.on_frontier(cx - 1, cy as int),
                        g1.on_frontier(cx + 1, cy as int),
                        g1.on_frontier(cx as int, cy - 1),
                        g1.on_frontier(cx as int, cy + 1),
                        neighbors@[k as int],
                    ));
                }
                let (nx, ny) = self.carve_toward(cx, cy, &mut neighbors, k);
                stack.push((nx, ny));
                proof {
                    assert(stack@ =~= s0.push((nx, ny)));
                    lemma_carved(g1, cx as int, cy as int, nx as int, ny as int);
                    lemma_push_next(g1, s0, nx, ny);
                    if g_old.is_blank() {
                        lemma_push_tree(g1, s0, nx, ny, x as int, y as int);
                        lemma_order_push(g1, s0, nx, ny, ord, count);
                        ord = numbered(ord, (nx as int, ny as int), count);
                        count = count + 1;
                    }
                    if g_old.walls_symmetric() {
                        lemma_carved_symmetric(g1, cx as int, cy as int, nx as int, ny as int);
                    }
                    lemma_unreached_bounds(self@, stack@);
                }
            }
        }
        let ghost g_done = self@;
        proof {
            assert(stack@ =~= Seq::<(usize, usize)>::empty());
            if g_old.is_blank() {
                lemma_order_finish(g_done, stack@, ord, count);
                lemma_finish(g_done, x as int, y as int);
            }
        }
        let n = self.cells.len();
        let mut i: usize = 0;
        while i < n
            invariant
                i <= n,
                n == self.cells@.len(),
                n == g_done.cells.len(),
                self.width == g_done.width,
                self.height == g_done.height,
                forall|k: int|
                    0 <= k < i ==> #[trigger] self.cells@[k] == (MazeCell {
                        visited: false,
                        ..g_done.cells[k]
                    }),
                forall|k: int| i <= k < n ==> #[trigger] self.cells@[k] == g_done.cells[k],
            decreases n - i,
        {
            self.cells[i].visited = false;
            i += 1;
        }
        proof {
            assert(g_done.same_walls(self@));
            lemma_same_walls(g_done, self@);
            if g_old.is_blank() {
                lemma_perfect_same_walls(g_done, self@);
            }
        }
    }
}

} // verus!
