//! Playing the maze: a tap is resolved to the nearest clickable cell,
//! which is joined to the solved region.

use crate::arith::{
    lemma_axis_length, lemma_row_major, lemma_scaled, lemma_square_sign, lemma_step,
};
use crate::search::{
    adjacent, lemma_carved, lemma_carved_cell, lemma_carved_symmetric, lemma_marked,
    lemma_perfect_same_walls,
};
use crate::geometry::{
    draw_pixels, lemma_plotted_all_concat, plotted_all, DrawSurface, Pixel, Style,
};
use crate::graph::lemma_same_walls;
use crate::hit_test::lemma_resolves_once;
use crate::maze::{
    direction_to, lemma_neighbors_where, one_if, opposite, with_open_side, Direction, Grid,
    MazeCell,
};
use crate::maze_painter::{
    lemma_kept_neighbor_listed, MazePainter, CLICK_APPROXIMATION, GRID_REACH,
};
use crate::shapes::{line_pixels, styled_line_pixels};
use vstd::prelude::*;

verus! {

impl Grid {
    /// The grid after `(x, y)` was offered the neighbour `n`: where `n` is
    /// visited, the wall pair between the two is open and `(x, y)` is
    /// visited; else nothing has changed.
    pub open spec fn joined_to(self, x: int, y: int, n: (usize, usize)) -> Grid {
        if self.visited(n.0 as int, n.1 as int) {
            self.carved(x, y, n.0 as int, n.1 as int).marked(x, y)
        } else {
            self
        }
    }

    /// The grid after `(x, y)` was offered the neighbours `ns`, in order.
    pub open spec fn joined(self, x: int, y: int, ns: Seq<(usize, usize)>) -> Grid
        decreases ns.len(),
    {
        if ns.len() == 0 {
            self
        } else {
            self.joined(x, y, ns.drop_last()).joined_to(x, y, ns.last())
        }
    }

    /// Offering `(x, y)` the neighbours `ns` joins it to one of them at
    /// least.
    pub open spec fn joins(self, x: int, y: int, ns: Seq<(usize, usize)>) -> bool
        decreases ns.len(),
    {
        if ns.len() == 0 {
            false
        } else {
            self.joins(x, y, ns.drop_last()) || self.joined(x, y, ns.drop_last()).visited(
                ns.last().0 as int,
                ns.last().1 as int,
            )
        }
    }

    /// The grid after the move to `(x, y)`: the cell offered each grid
    /// neighbour toward which it has an open wall.
    pub open spec fn moved(self, x: int, y: int) -> Grid {
        self.joined(x, y, self.passable_neighbors(x, y))
    }

    /// The cell at `(a, b)` after the move to `(x, y)`. The cell played is
    /// visited where it was, or where it had an open wall toward a visited
    /// neighbour. Such a neighbour has its wall toward the cell played
    /// open. Any other cell is as it was.
    pub open spec fn cell_after_move(self, x: int, y: int, a: int, b: int) -> MazeCell {
        let c = self.cell(x, y);
        let n = self.cell(a, b);
        if a == x && b == y {
            MazeCell { visited: c.visited || self.touches_visited(x, y), ..c }
        } else if a == x - 1 && b == y && c.west && n.visited {
            MazeCell { east: true, ..n }
        } else if a == x + 1 && b == y && c.east && n.visited {
            MazeCell { west: true, ..n }
        } else if a == x && b == y - 1 && c.north && n.visited {
            MazeCell { south: true, ..n }
        } else if a == x && b == y + 1 && c.south && n.visited {
            MazeCell { north: true, ..n }
        } else {
            n
        }
    }
}

impl MazePainter {
    /// The pixels of the line between the centres of the cells `(x, y)`
    /// and `(nx, ny)`, in `style`.
    pub open spec fn link_pixels(&self, x: int, y: int, nx: int, ny: int, style: Style) -> Seq<
        Pixel,
    > {
        line_pixels(
            self.center_x(x),
            self.center_y(y),
            self.center_x(nx),
            self.center_y(ny),
            style.stroke_color,
            style.stroke_width as int,
        )
    }

    /// The pixels that the move to `(x, y)` on the grid `g` draws when the
    /// cell is offered the neighbours `ns`: a line from its centre to the
    /// centre of each one that it is joined to.
    pub open spec fn trail(
        &self,
        g: Grid,
        x: int,
        y: int,
        ns: Seq<(usize, usize)>,
        style: Style,
    ) -> Seq<Pixel>
        decreases ns.len(),
    {
        if ns.len() == 0 {
            Seq::empty()
        } else {
            self.trail(g, x, y, ns.drop_last(), style) + (if g.joined(x, y, ns.drop_last()).visited(
                ns.last().0 as int,
                ns.last().1 as int,
            ) {
                self.link_pixels(x, y, ns.last().0 as int, ns.last().1 as int, style)
            } else {
                Seq::empty()
            })
        }
    }

    /// The pixels that the move to `(x, y)` draws.
    pub open spec fn move_pixels(&self, x: int, y: int, style: Style) -> Seq<Pixel> {
        self.trail(self.maze@, x, y, self.maze@.passable_neighbors(x, y), style)
    }

    /// Draws the line between the centres of two neighbouring cells.
    fn draw_link<D: DrawSurface>(
        &self,
        x: usize,
        y: usize,
        nx: usize,
        ny: usize,
        style: &Style,
        target: &mut D,
    )
        requires
            self.wf(),
            self.can_stroke(*style),
            self.maze@.contains(x as int, y as int),
            self.maze@.contains(nx as int, ny as int),
            adjacent(x as int, y as int, nx as int, ny as int),
            old(target).usable(),
        ensures
            final(target).usable(),
            final(target).model() == plotted_all::<D>(
                old(target).model(),
                self.link_pixels(x as int, y as int, nx as int, ny as int, *style),
            ),
    {
        let a = self.get_cell_central_point(x, y);
        let b = self.get_cell_central_point(nx, ny);
        proof {
            lemma_scaled(
                self.maze.width as int,
                x + 1,
                self.cell_size.width as int,
                GRID_REACH as int,
            );
            lemma_scaled(
                self.maze.height as int,
                y + 1,
                self.cell_size.height as int,
                GRID_REACH as int,
            );
            lemma_scaled(
                self.maze.width as int,
                nx + 1,
                self.cell_size.width as int,
                GRID_REACH as int,
            );
            lemma_scaled(
                self.maze.height as int,
                ny + 1,
                self.cell_size.height as int,
                GRID_REACH as int,
            );
            lemma_step(x as int, self.cell_size.width as int);
            lemma_step(y as int, self.cell_size.height as int);
            lemma_step(nx as int, self.cell_size.width as int);
            lemma_step(ny as int, self.cell_size.height as int);
            lemma_axis_length(b.0 - a.0, b.1 - a.1);
            lemma_square_sign(self.cell_size.width as int);
            lemma_square_sign(self.cell_size.height as int);
        }
        let pixels = styled_line_pixels(a.0, a.1, b.0, b.1, style);
        draw_pixels(target, &pixels);
    }

    /// Plays the cell `cell`: toward each visited neighbour to which it has
    /// an open wall, the wall pair is opened, the line between the two
    /// centres is drawn in `style`, and the cell is marked visited. Returns
    /// whether there was such a neighbour. A cell outside the grid changes
    /// nothing.
    pub fn apply_move<D: DrawSurface>(
        &mut self,
        cell: (usize, usize),
        style: &Style,
        target: &mut D,
    ) -> (r: bool)
        requires
            old(self).wf(),
            old(self).can_stroke(*style),
            old(target).usable(),
        ensures
            final(self).wf(),
            final(self).style == old(self).style,
            final(self).cell_size == old(self).cell_size,
            final(self).offset == old(self).offset,
            final(target).usable(),
            old(self).maze@.walls_within(final(self).maze@),
            old(self).maze@.walls_symmetric() ==> final(self).maze@.walls_symmetric(),
            !old(self).maze@.contains(cell.0 as int, cell.1 as int) ==> {
                &&& !r
                &&& final(self).maze@ == old(self).maze@
                &&& final(target).model() == old(target).model()
            },
            old(self).maze@.contains(cell.0 as int, cell.1 as int) ==> {
                &&& r == old(self).maze@.touches_visited(cell.0 as int, cell.1 as int)
                &&& final(self).maze@ == old(self).maze@.moved(cell.0 as int, cell.1 as int)
                &&& final(target).model() == plotted_all::<D>(
                    old(target).model(),
                    old(self).move_pixels(cell.0 as int, cell.1 as int, *style),
                )
            },
    {
        let (x, y) = cell;
        if x >= self.maze.width || y >= self.maze.height {
            return false;
        }
        let ghost g0 = self.maze@;
        let ghost m0 = target.model();
        let ghost painter0 = *self;
        let neighbors = self.get_cell_neighbors(x, y);
        let ghost ns = neighbors@;
        let ghost c0 = g0.cell(x as int, y as int);
        proof {
            lemma_neighbors_where(g0, x as int, y as int, c0.west, c0.east, c0.north, c0.south);
            lemma_joined(g0, x as int, y as int, ns);
        }
        let mut ret = false;
        let mut i: usize = 0;
        while i < neighbors.len()
            invariant
                i <= ns.len(),
                ns == neighbors@,
                ns == g0.passable_neighbors(x as int, y as int),
                c0 == g0.cell(x as int, y as int),
                g0.wf(),
                g0.contains(x as int, y as int),
                painter0.wf(),
                painter0.maze@ == g0,
                painter0.can_stroke(*style),
                forall|k: int|
                    0 <= k < ns.len() ==> g0.is_kept_neighbor(
                        x as int,
                        y as int,
                        c0.west,
                        c0.east,
                        c0.north,
                        c0.south,
                        #[trigger] ns[k],
                    ),
                self.wf(),
                self.style == painter0.style,
                self.cell_size == painter0.cell_size,
                self.offset == painter0.offset,
                self.maze.width == painter0.maze.width,
                self.maze.height == painter0.maze.height,
                self.maze@ == g0.joined(x as int, y as int, ns.take(i as int)),
                ret == g0.joins(x as int, y as int, ns.take(i as int)),
                target.usable(),
                target.model() == plotted_all::<D>(
                    m0,
                    painter0.trail(g0, x as int, y as int, ns.take(i as int), *style),
                ),
            decreases ns.len() - i,
        {
            let n = neighbors[i];
            let ghost before = ns.take(i as int);
            let ghost g = self.maze@;
            proof {
                assert(g0.is_kept_neighbor(
                    x as int,
                    y as int,
                    c0.west,
                    c0.east,
                    c0.north,
                    c0.south,
                    ns[i as int],
                ));
                let next = ns.take(i + 1);
                assert(next.drop_last() =~= before);
                assert(next.last() == n);
                lemma_plotted_all_concat::<D>(
                    m0,
                    painter0.trail(g0, x as int, y as int, before, *style),
                    if g.visited(n.0 as int, n.1 as int) {
                        painter0.link_pixels(x as int, y as int, n.0 as int, n.1 as int, *style)
                    } else {
                        Seq::empty()
                    },
                );
            }
            if self.maze.at(n.0, n.1).visited {
                self.maze.connect(x, y, n.0, n.1);
                self.draw_link(x, y, n.0, n.1, style, target);
                self.maze.mark_visited(x, y);
                ret = true;
            }
            i += 1;
        }
        proof {
            assert(ns.take(i as int) =~= ns);
            lemma_joins(g0, x as int, y as int);
        }
        ret
    }

    /// Plays a tap at `(x, y)`: the tap is resolved to the closest
    /// clickable cell within `CLICK_APPROXIMATION` pixels, and that cell
    /// is played. Returns whether a cell was played.
    pub fn on_click<D: DrawSurface>(
        &mut self,
        x: i32,
        y: i32,
        style: Style,
        target: &mut D,
    ) -> (r: bool)
        requires
            old(self).wf(),
            old(self).can_stroke(style),
            old(target).usable(),
        ensures
            final(self).wf(),
            final(self).style == old(self).style,
            final(self).cell_size == old(self).cell_size,
            final(self).offset == old(self).offset,
            final(target).usable(),
            old(self).maze@.walls_within(final(self).maze@),
            old(self).maze@.walls_symmetric() ==> final(self).maze@.walls_symmetric(),
            forall|c: Option<(usize, usize)>|
                (#[trigger] old(self).resolves_to(
                    x as int,
                    y as int,
                    CLICK_APPROXIMATION as int,
                    c,
                )) ==> match c {
                    None => {
                        &&& !r
                        &&& final(self).maze@ == old(self).maze@
                        &&& final(target).model() == old(target).model()
                    },
                    Some(cell) => {
                        &&& r
                        &&& final(self).maze@ == old(self).maze@.moved(cell.0 as int, cell.1 as int)
                        &&& final(target).model() == plotted_all::<D>(
                            old(target).model(),
                            old(self).move_pixels(cell.0 as int, cell.1 as int, style),
                        )
                    },
                },
    {
        let cell = self.get_closest_clickable_cell(x, y, CLICK_APPROXIMATION);
        proof {
            assert forall|c: Option<(usize, usize)>| #[trigger]
                self.resolves_to(x as int, y as int, CLICK_APPROXIMATION as int, c) implies c
                == cell by {
                lemma_resolves_once(*self, x as int, y as int, CLICK_APPROXIMATION as int, c, cell);
            }
        }
        match cell {
            None => false,
            Some(found) => self.apply_move(found, &style, target),
        }
    }
}

/// What a move changes, cell by cell: the cell played is visited where it
/// was, or where it had an open wall toward a visited neighbour; each
/// such neighbour has its wall toward the cell played open; every other
/// cell is as it was.
pub proof fn law_move_changes(g: Grid, x: int, y: int, a: int, b: int)
    requires
        g.wf(),
        g.contains(x, y),
        g.contains(a, b),
    ensures
        g.moved(x, y).wf(),
        g.moved(x, y).width == g.width,
        g.moved(x, y).height == g.height,
        g.moved(x, y).cell(a, b) == g.cell_after_move(x, y, a, b),
{
    let c = g.cell(x, y);
    let ow = g.contains(x - 1, y) && c.west;
    let oe = g.contains(x + 1, y) && c.east;
    let on = g.contains(x, y - 1) && c.north;
    let os = g.contains(x, y + 1) && c.south;
    let tw = ow && g.visited(x - 1, y);
    let te = oe && g.visited(x + 1, y);
    let tn = on && g.visited(x, y - 1);
    let ts = os && g.visited(x, y + 1);
    lemma_moved_in_turn(g, x, y);
    let g1 = offered(g, ow, x, y, x - 1, y);
    let g2 = offered(g1, oe, x, y, x + 1, y);
    let g3 = offered(g2, on, x, y, x, y - 1);
    let g4 = offered(g3, os, x, y, x, y + 1);
    assert forall|p: int, q: int| g.contains(p, q) implies #[trigger] g.cell(p, q) == cell_joined(
        g,
        x,
        y,
        p,
        q,
        false,
        false,
        false,
        false,
    ) by {}
    lemma_offer_joins(g, g, x, y, Direction::West, ow, false, false, false, false);
    lemma_offer_joins(g, g1, x, y, Direction::East, oe, tw, false, false, false);
    lemma_offer_joins(g, g2, x, y, Direction::North, on, tw, te, false, false);
    lemma_offer_joins(g, g3, x, y, Direction::South, os, tw, te, tn, false);
    assert(g4.cell(a, b) == cell_joined(g, x, y, a, b, tw, te, tn, ts));
}

/// A move keeps the walls in agreement, and on a maze whose walls agree it
/// opens no wall: the walls toward the neighbours that the cell is joined
/// to were open on both sides already.
pub proof fn law_move_keeps_walls(g: Grid, x: int, y: int)
    requires
        g.wf(),
        g.contains(x, y),
        g.walls_symmetric(),
    ensures
        g.moved(x, y).walls_symmetric(),
        g.same_walls(g.moved(x, y)),
{
    let c = g.cell(x, y);
    let ns = g.passable_neighbors(x, y);
    lemma_neighbors_where(g, x, y, c.west, c.east, c.north, c.south);
    lemma_joined_keeps_walls(g, x, y, ns);
    lemma_same_walls(g, g.moved(x, y));
}

/// A move on a perfect maze leaves it perfect.
pub proof fn law_move_keeps_perfect(g: Grid, x: int, y: int)
    requires
        g.wf(),
        g.contains(x, y),
        g.is_perfect(),
    ensures
        g.moved(x, y).is_perfect(),
{
    let c = g.cell(x, y);
    lemma_neighbors_where(g, x, y, c.west, c.east, c.north, c.south);
    lemma_joined_keeps_walls(g, x, y, g.passable_neighbors(x, y));
    lemma_perfect_same_walls(g, g.moved(x, y));
}

/// What offering a cell its neighbours changes: the grid keeps its shape;
/// walls are only opened, and where the walls agreed they still do; no
/// other cell's visited mark changes; and the cell is visited afterwards
/// where it was before or where it was joined to a neighbour.
pub proof fn lemma_joined(g: Grid, x: int, y: int, ns: Seq<(usize, usize)>)
    requires
        g.wf(),
        g.contains(x, y),
        forall|k: int|
            0 <= k < ns.len() ==> g.contains((#[trigger] ns[k]).0 as int, ns[k].1 as int)
                && adjacent(x, y, ns[k].0 as int, ns[k].1 as int),
    ensures
        g.joined(x, y, ns).wf(),
        g.joined(x, y, ns).width == g.width,
        g.joined(x, y, ns).height == g.height,
        g.walls_within(g.joined(x, y, ns)),
        g.walls_symmetric() ==> g.joined(x, y, ns).walls_symmetric(),
        forall|a: int, b: int|
            g.contains(a, b) && !(a == x && b == y) ==> (#[trigger] g.joined(x, y, ns).cell(
                a,
                b,
            )).visited == g.cell(a, b).visited,
        g.joined(x, y, ns).cell(x, y).visited == (g.cell(x, y).visited || g.joins(x, y, ns)),
        g.joins(x, y, ns) <==> exists|k: int|
            0 <= k < ns.len() && g.visited((#[trigger] ns[k]).0 as int, ns[k].1 as int),
    decreases ns.len(),
{
    if ns.len() > 0 {
        let front = ns.drop_last();
        let n = ns.last();
        assert forall|k: int| 0 <= k < front.len() implies g.contains(
            (#[trigger] front[k]).0 as int,
            front[k].1 as int,
        ) && adjacent(x, y, front[k].0 as int, front[k].1 as int) by {
            assert(front[k] == ns[k]);
        }
        lemma_joined(g, x, y, front);
        let h = g.joined(x, y, front);
        let nx = n.0 as int;
        let ny = n.1 as int;
        assert(g.contains(nx, ny) && adjacent(x, y, nx, ny)) by {
            assert(ns[ns.len() - 1] == n);
        }
        assert(h.cell(nx, ny).visited == g.cell(nx, ny).visited);
        if h.visited(nx, ny) {
            let c = h.carved(x, y, nx, ny);
            let f = c.marked(x, y);
            lemma_carved(h, x, y, nx, ny);
            lemma_marked(c, x, y);
            assert(g.walls_within(f));
            if g.walls_symmetric() {
                lemma_carved_symmetric(h, x, y, nx, ny);
                lemma_same_walls(c, f);
            }
            assert forall|a: int, b: int| g.contains(a, b) && !(a == x && b == y) implies (
            #[trigger] f.cell(a, b)).visited == g.cell(a, b).visited by {
                lemma_carved_cell(h, x, y, nx, ny, a, b);
                assert(f.cell(a, b) == c.cell(a, b));
            }
            assert(g.visited(ns[ns.len() - 1].0 as int, ns[ns.len() - 1].1 as int));
        } else {
            if g.joins(x, y, ns) {
                let k = choose|k: int|
                    0 <= k < front.len() && g.visited(
                        (#[trigger] front[k]).0 as int,
                        front[k].1 as int,
                    );
                assert(front[k] == ns[k]);
            }
            if exists|k: int|
                0 <= k < ns.len() && g.visited((#[trigger] ns[k]).0 as int, ns[k].1 as int) {
                let k = choose|k: int|
                    0 <= k < ns.len() && g.visited((#[trigger] ns[k]).0 as int, ns[k].1 as int);
                assert(k < front.len());
                assert(front[k] == ns[k]);
            }
        }
        if g.joins(x, y, front) {
            let k = choose|k: int|
                0 <= k < front.len() && g.visited(
                    (#[trigger] front[k]).0 as int,
                    front[k].1 as int,
                );
            assert(front[k] == ns[k]);
        }
    }
}

/// A move joins the cell to a neighbour exactly where the cell has an open
/// wall toward a visited neighbour.
pub proof fn lemma_joins(g: Grid, x: int, y: int)
    requires
        g.wf(),
        g.contains(x, y),
    ensures
        g.joins(x, y, g.passable_neighbors(x, y)) == g.touches_visited(x, y),
{
    let c = g.cell(x, y);
    let ns = g.passable_neighbors(x, y);
    lemma_neighbors_where(g, x, y, c.west, c.east, c.north, c.south);
    lemma_kept_neighbor_listed(g, x, y, c.west, c.east, c.north, c.south);
    assert forall|k: int| 0 <= k < ns.len() implies g.contains(
        (#[trigger] ns[k]).0 as int,
        ns[k].1 as int,
    ) && adjacent(x, y, ns[k].0 as int, ns[k].1 as int) by {
        assert(g.is_kept_neighbor(x, y, c.west, c.east, c.north, c.south, ns[k]));
    }
    lemma_joined(g, x, y, ns);
    if g.touches_visited(x, y) {
        let n = if c.west && g.visited(x - 1, y) {
            ((x - 1) as usize, y as usize)
        } else if c.east && g.visited(x + 1, y) {
            ((x + 1) as usize, y as usize)
        } else if c.north && g.visited(x, y - 1) {
            (x as usize, (y - 1) as usize)
        } else {
            (x as usize, (y + 1) as usize)
        };
        let k = ns.index_of(n);
        assert(ns[k] == n);
        assert(g.visited(ns[k].0 as int, ns[k].1 as int));
    }
    if g.joins(x, y, ns) {
        let k = choose|k: int|
            0 <= k < ns.len() && g.visited((#[trigger] ns[k]).0 as int, ns[k].1 as int);
        assert(g.is_kept_neighbor(x, y, c.west, c.east, c.north, c.south, ns[k]));
    }
}

/// Offering a cell neighbours toward which its walls are open, on a maze
/// whose walls agree, opens no wall.
pub proof fn lemma_joined_keeps_walls(g: Grid, x: int, y: int, ns: Seq<(usize, usize)>)
    requires
        g.wf(),
        g.contains(x, y),
        g.walls_symmetric(),
        forall|k: int|
            0 <= k < ns.len() ==> g.is_kept_neighbor(
                x,
                y,
                g.cell(x, y).west,
                g.cell(x, y).east,
                g.cell(x, y).north,
                g.cell(x, y).south,
                #[trigger] ns[k],
            ),
    ensures
        g.same_walls(g.joined(x, y, ns)),
        g.joined(x, y, ns).wf(),
    decreases ns.len(),
{
    if ns.len() > 0 {
        let front = ns.drop_last();
        let n = ns.last();
        let nx = n.0 as int;
        let ny = n.1 as int;
        assert forall|k: int| 0 <= k < front.len() implies g.is_kept_neighbor(
            x,
            y,
            g.cell(x, y).west,
            g.cell(x, y).east,
            g.cell(x, y).north,
            g.cell(x, y).south,
            #[trigger] front[k],
        ) by {
            assert(front[k] == ns[k]);
        }
        lemma_joined_keeps_walls(g, x, y, front);
        let h = g.joined(x, y, front);
        lemma_same_walls(g, h);
        assert(g.is_kept_neighbor(
            x,
            y,
            g.cell(x, y).west,
            g.cell(x, y).east,
            g.cell(x, y).north,
            g.cell(x, y).south,
            ns[ns.len() - 1],
        ));
        lemma_row_major(g.width as int, g.height as int, x, y);
        lemma_row_major(g.width as int, g.height as int, nx, ny);
        assert(h.cell(x, y).west == g.cell(x, y).west);
        assert(h.cell(x, y).east == g.cell(x, y).east);
        assert(h.cell(x, y).north == g.cell(x, y).north);
        assert(h.cell(x, y).south == g.cell(x, y).south);
        if h.visited(nx, ny) {
            let d = direction_to(x, y, nx, ny);
            assert(h.contains(x, y));
            assert(h.contains(nx, ny));
            assert(with_open_side(h.cell(x, y), d) == h.cell(x, y));
            let half = h.with_cell(x, y, with_open_side(h.cell(x, y), d));
            assert(half.cells =~= h.cells);
            assert(half == h);
            assert(with_open_side(h.cell(nx, ny), opposite(d)) == h.cell(
                nx,
                ny,
            ));
            let full = h.carved(x, y, nx, ny);
            assert(full.cells =~= h.cells);
            assert(full == h);
            lemma_marked(h, x, y);
        }
    }
}

/// Offering a cell two runs of neighbours one after the other is offering
/// it their concatenation.
pub proof fn lemma_joined_concat(g: Grid, x: int, y: int, a: Seq<(usize, usize)>, b: Seq<
    (usize, usize),
>)
    ensures
        g.joined(x, y, a + b) == g.joined(x, y, a).joined(x, y, b),
    decreases b.len(),
{
    if b.len() == 0 {
        assert(a + b =~= a);
    } else {
        lemma_joined_concat(g, x, y, a, b.drop_last());
        assert((a + b).drop_last() =~= a + b.drop_last());
        assert((a + b).last() == b.last());
    }
}

/// The grid after `(x, y)` was offered the neighbour `(nx, ny)`, or not.
pub open spec fn offered(g: Grid, offer: bool, x: int, y: int, nx: int, ny: int) -> Grid {
    if offer {
        g.joined_to(x, y, (nx as usize, ny as usize))
    } else {
        g
    }
}

/// A move offers the cell its four grid neighbours in turn, each where its
/// wall toward it is open.
pub proof fn lemma_moved_in_turn(g: Grid, x: int, y: int)
    ensures
        g.moved(x, y) == offered(
            offered(
                offered(
                    offered(g, g.contains(x - 1, y) && g.cell(x, y).west, x, y, x - 1, y),
                    g.contains(x + 1, y) && g.cell(x, y).east,
                    x,
                    y,
                    x + 1,
                    y,
                ),
                g.contains(x, y - 1) && g.cell(x, y).north,
                x,
                y,
                x,
                y - 1,
            ),
            g.contains(x, y + 1) && g.cell(x, y).south,
            x,
            y,
            x,
            y + 1,
        ),
{
    let c = g.cell(x, y);
    let w = one_if(g.contains(x - 1, y) && c.west, x - 1, y);
    let e = one_if(g.contains(x + 1, y) && c.east, x + 1, y);
    let n = one_if(g.contains(x, y - 1) && c.north, x, y - 1);
    let s = one_if(g.contains(x, y + 1) && c.south, x, y + 1);
    assert(g.passable_neighbors(x, y) == w + e + n + s);
    lemma_joined_concat(g, x, y, w + e + n, s);
    lemma_joined_concat(g, x, y, w + e, n);
    lemma_joined_concat(g, x, y, w, e);
    let g1 = g.joined(x, y, w);
    let g2 = g1.joined(x, y, e);
    let g3 = g2.joined(x, y, n);
    lemma_joined_one(g, g.contains(x - 1, y) && c.west, x, y, x - 1, y);
    lemma_joined_one(g1, g.contains(x + 1, y) && c.east, x, y, x + 1, y);
    lemma_joined_one(g2, g.contains(x, y - 1) && c.north, x, y, x, y - 1);
    lemma_joined_one(g3, g.contains(x, y + 1) && c.south, x, y, x, y + 1);
}

/// Offering a cell a list of one neighbour, or of none.
pub proof fn lemma_joined_one(g: Grid, offer: bool, x: int, y: int, nx: int, ny: int)
    ensures
        g.joined(x, y, one_if(offer, nx, ny)) == offered(g, offer, x, y, nx, ny),
{
    let s = one_if(offer, nx, ny);
    reveal_with_fuel(Grid::joined, 2);
    if offer {
        assert(s.drop_last() =~= Seq::<(usize, usize)>::empty());
        assert(s.last() == (nx as usize, ny as usize));
    }
}

/// What one offer changes, cell by cell.
pub proof fn lemma_offered(g: Grid, offer: bool, x: int, y: int, nx: int, ny: int, a: int, b: int)
    requires
        g.wf(),
        g.contains(x, y),
        offer ==> g.contains(nx, ny) && adjacent(x, y, nx, ny),
        g.contains(a, b),
    ensures
        offered(g, offer, x, y, nx, ny).wf(),
        offered(g, offer, x, y, nx, ny).width == g.width,
        offered(g, offer, x, y, nx, ny).height == g.height,
        offered(g, offer, x, y, nx, ny).cell(a, b) == if offer && g.visited(nx, ny) {
            let old = g.cell(a, b);
            MazeCell {
                visited: old.visited || (a == x && b == y),
                east: old.east || (a == x && b == y && nx == x + 1) || (a == nx && b == ny && x
                    == nx + 1),
                west: old.west || (a == x && b == y && nx == x - 1) || (a == nx && b == ny && x
                    == nx - 1),
                south: old.south || (a == x && b == y && ny == y + 1) || (a == nx && b == ny && y
                    == ny + 1),
                north: old.north || (a == x && b == y && ny == y - 1) || (a == nx && b == ny && y
                    == ny - 1),
            }
        } else {
            g.cell(a, b)
        },
{
    if offer && g.visited(nx, ny) {
        let c = g.carved(x, y, nx, ny);
        lemma_carved(g, x, y, nx, ny);
        lemma_carved_cell(g, x, y, nx, ny, a, b);
        lemma_marked(c, x, y);
        if !(a == x && b == y) {
            assert(c.marked(x, y).cell(a, b) == c.cell(a, b));
        }
    }
}

/// The grid neighbour of `(x, y)` on side `d`.
pub open spec fn toward(x: int, y: int, d: Direction) -> (int, int) {
    match d {
        Direction::West => (x - 1, y),
        Direction::East => (x + 1, y),
        Direction::North => (x, y - 1),
        Direction::South => (x, y + 1),
    }
}

/// The cell at `(a, b)` of `g` after `(x, y)` was joined to its neighbours
/// on the sides whose flag is set.
pub open spec fn cell_joined(
    g: Grid,
    x: int,
    y: int,
    a: int,
    b: int,
    w: bool,
    e: bool,
    n: bool,
    s: bool,
) -> MazeCell {
    let old = g.cell(a, b);
    let played = a == x && b == y;
    MazeCell {
        visited: old.visited || (played && (w || e || n || s)),
        west: old.west || (played && w) || (a == x + 1 && b == y && e),
        east: old.east || (played && e) || (a == x - 1 && b == y && w),
        north: old.north || (played && n) || (a == x && b == y + 1 && s),
        south: old.south || (played && s) || (a == x && b == y - 1 && n),
    }
}

/// One more offer, on side `d`, joins the cell to the neighbour there
/// where the offer is made and the neighbour is visited.
pub proof fn lemma_offer_joins(
    g: Grid,
    h: Grid,
    x: int,
    y: int,
    d: Direction,
    offer: bool,
    w: bool,
    e: bool,
    n: bool,
    s: bool,
)
    requires
        g.wf(),
        h.wf(),
        h.width == g.width,
        h.height == g.height,
        g.contains(x, y),
        offer ==> g.contains(toward(x, y, d).0, toward(x, y, d).1),
        forall|a: int, b: int|
            g.contains(a, b) ==> #[trigger] h.cell(a, b) == cell_joined(g, x, y, a, b, w, e, n, s),
    ensures
        ({
            let t = toward(x, y, d);
            let took = offer && g.visited(t.0, t.1);
            let k = offered(h, offer, x, y, t.0, t.1);
            &&& k.wf()
            &&& k.width == g.width
            &&& k.height == g.height
            &&& forall|a: int, b: int|
                g.contains(a, b) ==> #[trigger] k.cell(a, b) == cell_joined(
                    g,
                    x,
                    y,
                    a,
                    b,
                    w || (d == Direction::West && took),
                    e || (d == Direction::East && took),
                    n || (d == Direction::North && took),
                    s || (d == Direction::South && took),
                )
        }),
{
    let t = toward(x, y, d);
    let took = offer && g.visited(t.0, t.1);
    let k = offered(h, offer, x, y, t.0, t.1);
    lemma_offered(h, offer, x, y, t.0, t.1, x, y);
    if offer {
        assert(h.cell(t.0, t.1) == cell_joined(g, x, y, t.0, t.1, w, e, n, s));
        assert(h.visited(t.0, t.1) == g.visited(t.0, t.1));
    }
    assert forall|a: int, b: int| g.contains(a, b) implies #[trigger] k.cell(a, b) == cell_joined(
        g,
        x,
        y,
        a,
        b,
        w || (d == Direction::West && took),
        e || (d == Direction::East && took),
        n || (d == Direction::North && took),
        s || (d == Direction::South && took),
    ) by {
        lemma_offered(h, offer, x, y, t.0, t.1, a, b);
        assert(h.cell(a, b) == cell_joined(g, x, y, a, b, w, e, n, s));
    }
}

} // verus!
