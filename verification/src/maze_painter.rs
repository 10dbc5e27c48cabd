//! Drawing the maze: its standing walls and the markers of its start and
//! goal, and which of its cells can be played.

use crate::arith::{lemma_axis_length, lemma_scaled, lemma_step};
use crate::geometry::{
    draw_pixels, lemma_plotted_all_concat, plotted_all, DrawSurface, Pixel, Point, Size, Style,
};
use crate::maze::{lemma_neighbors_where, one_if, Grid, Maze};
use crate::shapes::{
    circle_pixels, line_pixels, styled_circle_pixels, styled_line_pixels, CIRCLE_SPAN,
};
use vstd::prelude::*;

verus! {

/// How far from a clickable cell, in pixels, a tap may land and still
/// choose it.
pub const CLICK_APPROXIMATION: u32 = 20;

/// The farthest that the grid may extend, and that its offset may lie from
/// the origin, in pixels along either axis.
pub const GRID_REACH: i32 = 0x1000_0000;

/// The maze with how and where it is drawn.
pub struct MazePainter {
    pub maze: Maze,
    pub style: Style,
    pub cell_size: Size,
    pub offset: Point,
}

/// The squared distance between two points.
pub open spec fn dist_sq_spec(ax: int, ay: int, bx: int, by: int) -> int {
    (ax - bx) * (ax - bx) + (ay - by) * (ay - by)
}

impl Grid {
    /// `(x, y)` has an open wall toward a visited grid neighbour.
    pub open spec fn touches_visited(self, x: int, y: int) -> bool {
        &&& self.contains(x, y)
        &&& {
            ||| (self.cell(x, y).west && self.visited(x - 1, y))
            ||| (self.cell(x, y).east && self.visited(x + 1, y))
            ||| (self.cell(x, y).north && self.visited(x, y - 1))
            ||| (self.cell(x, y).south && self.visited(x, y + 1))
        }
    }

    /// `(x, y)` can be played: it is not visited, and a passage leads from
    /// it to a visited neighbour.
    pub open spec fn clickable(self, x: int, y: int) -> bool {
        self.unvisited(x, y) && self.touches_visited(x, y)
    }

    /// The grid neighbours of `(x, y)` toward which it has an open wall, in
    /// the order west, east, north, south.
    pub open spec fn passable_neighbors(self, x: int, y: int) -> Seq<(usize, usize)> {
        self.neighbors_where(
            x,
            y,
            self.cell(x, y).west,
            self.cell(x, y).east,
            self.cell(x, y).north,
            self.cell(x, y).south,
        )
    }
}

impl MazePainter {
    /// The maze is well-formed and not empty, a cell is at least one pixel
    /// wide and high, and the grid and its offset stay within `GRID_REACH`.
    pub open spec fn wf(&self) -> bool {
        &&& self.maze.wf()
        &&& self.maze.width >= 1
        &&& self.maze.height >= 1
        &&& self.cell_size.width >= 1
        &&& self.cell_size.height >= 1
        &&& self.maze.width * self.cell_size.width <= GRID_REACH
        &&& self.maze.height * self.cell_size.height <= GRID_REACH
        &&& -GRID_REACH <= self.offset.x <= GRID_REACH
        &&& -GRID_REACH <= self.offset.y <= GRID_REACH
    }

    /// The horizontal pixel position of the left edge of column `x`.
    pub open spec fn edge_x(&self, x: int) -> int {
        x * self.cell_size.width + self.offset.x
    }

    /// The vertical pixel position of the top edge of row `y`.
    pub open spec fn edge_y(&self, y: int) -> int {
        y * self.cell_size.height + self.offset.y
    }

    /// The horizontal pixel position of the centre of column `x`.
    pub open spec fn center_x(&self, x: int) -> int {
        x * self.cell_size.width + self.cell_size.width / 2 + self.offset.x
    }

    /// The vertical pixel position of the centre of row `y`.
    pub open spec fn center_y(&self, y: int) -> int {
        y * self.cell_size.height + self.cell_size.height / 2 + self.offset.y
    }

    /// A stroke of `style` between two neighbouring grid points or cell
    /// centres can be rasterized in 32-bit arithmetic.
    pub open spec fn can_stroke(&self, style: Style) -> bool {
        let w = style.stroke_width as int;
        let cw = self.cell_size.width as int;
        let ch = self.cell_size.height as int;
        &&& 4 * (w + 1) * (w + 1) * (cw * cw + 1) <= i32::MAX
        &&& 4 * (w + 1) * (w + 1) * (ch * ch + 1) <= i32::MAX
    }

    /// The side of a cell's marker: the lesser side of a cell, less three
    /// pixels.
    pub open spec fn marker_diameter(&self) -> int {
        (if self.cell_size.width <= self.cell_size.height {
            self.cell_size.width
        } else {
            self.cell_size.height
        }) - 3
    }

    /// A marker in `style` fits a cell and can be rasterized in 32-bit
    /// arithmetic.
    pub open spec fn can_mark(&self, style: Style) -> bool {
        &&& self.marker_diameter() >= 0
        &&& self.marker_diameter() + style.stroke_width <= CIRCLE_SPAN
    }

    /// The pixels of the wall segment between the grid points `(x0, y0)`
    /// and `(x1, y1)`, counted in cells, in `style`.
    pub open spec fn wall_pixels(&self, x0: int, y0: int, x1: int, y1: int, style: Style) -> Seq<
        Pixel,
    > {
        line_pixels(
            self.edge_x(x0),
            self.edge_y(y0),
            self.edge_x(x1),
            self.edge_y(y1),
            style.stroke_color,
            style.stroke_width as int,
        )
    }

    /// The pixels of the marker of the cell `(x, y)`, in `style`: a circle
    /// two pixels inside the cell's top left corner.
    pub open spec fn marker_pixels(&self, x: int, y: int, style: Style) -> Seq<Pixel> {
        circle_pixels(
            self.edge_x(x) + 2,
            self.edge_y(y) + 2,
            self.marker_diameter(),
            style.fill_color,
            style.stroke_color,
            style.stroke_width as int,
        )
    }

    /// The pixels of the wall segment, or none where the wall is open.
    pub open spec fn wall_if(&self, stands: bool, x0: int, y0: int, x1: int, y1: int) -> Seq<
        Pixel,
    > {
        if stands {
            self.wall_pixels(x0, y0, x1, y1, self.style)
        } else {
            Seq::empty()
        }
    }

    /// The pixels of the walls of the cell `(x, y)` that stand: north,
    /// south, east, west.
    pub open spec fn cell_pixels(&self, x: int, y: int) -> Seq<Pixel> {
        let c = self.maze@.cell(x, y);
        self.wall_if(!c.north, x, y, x + 1, y) + self.wall_if(!c.south, x, y + 1, x + 1, y + 1)
            + self.wall_if(!c.east, x + 1, y, x + 1, y + 1) + self.wall_if(!c.west, x, y, x, y + 1)
    }

    /// The pixels of the first `n` cells of row `y`.
    pub open spec fn row_pixels(&self, y: int, n: int) -> Seq<Pixel>
        decreases n,
    {
        if n <= 0 {
            Seq::empty()
        } else {
            self.row_pixels(y, n - 1) + self.cell_pixels(n - 1, y)
        }
    }

    /// The pixels of the first `rows` rows of the grid.
    pub open spec fn grid_pixels(&self, rows: int) -> Seq<Pixel>
        decreases rows,
    {
        if rows <= 0 {
            Seq::empty()
        } else {
            self.grid_pixels(rows - 1) + self.row_pixels(rows - 1, self.maze.width as int)
        }
    }

    /// The pixels of the whole picture: every standing wall, cell by cell
    /// and row by row, then the markers of the start and of the goal.
    pub open spec fn scene(&self) -> Seq<Pixel> {
        self.grid_pixels(self.maze.height as int) + self.marker_pixels(0, 0, self.style)
            + self.marker_pixels(self.maze.width - 1, self.maze.height - 1, self.style)
    }

    /// A painter for `maze`, with the cell at the origin marked visited:
    /// that is where the game starts.
    pub fn new(maze: Maze, style: Style, cell_size: Size, offset: Point) -> (r: Self)
        requires
            maze.wf(),
            maze.width >= 1,
            maze.height >= 1,
        ensures
            r.maze@ == maze@.marked(0, 0),
            r.maze.wf(),
            r.style == style,
            r.cell_size == cell_size,
            r.offset == offset,
    {
        let mut maze = maze;
        maze.mark_visited(0, 0);
        Self { maze, style, cell_size, offset }
    }

    /// The grid neighbours of `(x, y)` toward which it has an open wall, in
    /// the order west, east, north, south.
    pub fn get_cell_neighbors(&self, x: usize, y: usize) -> (r: Vec<(usize, usize)>)
        requires
            self.maze.wf(),
            self.maze@.contains(x as int, y as int),
        ensures
            r@ == self.maze@.passable_neighbors(x as int, y as int),
    {
        let mut neighbors: Vec<(usize, usize)> = Vec::new();
        let cell = *self.maze.at(x, y);
        if x > 0 && cell.west {
            neighbors.push((x - 1, y));
        }
        if x < self.maze.width - 1 && cell.east {
            neighbors.push((x + 1, y));
        }
        if y > 0 && cell.north {
            neighbors.push((x, y - 1));
        }
        if y < self.maze.height - 1 && cell.south {
            neighbors.push((x, y + 1));
        }
        proof {
            assert(neighbors@ =~= self.maze@.passable_neighbors(x as int, y as int));
        }
        neighbors
    }

    /// Whether `(x, y)` can be played: it lies in the grid, is not
    /// visited, and a passage leads from it to a visited neighbour.
    pub fn is_cell_clickable(&self, x: usize, y: usize) -> (r: bool)
        requires
            self.maze.wf(),
        ensures
            r == self.maze@.clickable(x as int, y as int),
    {
        if x >= self.maze.width || y >= self.maze.height {
            return false;
        }
        if self.maze.at(x, y).visited {
            return false;
        }
        let neighbors = self.get_cell_neighbors(x, y);
        let ghost g = self.maze@;
        let ghost c = g.cell(x as int, y as int);
        proof {
            lemma_neighbors_where(g, x as int, y as int, c.west, c.east, c.north, c.south);
        }
        let mut i: usize = 0;
        while i < neighbors.len()
            invariant
                i <= neighbors@.len(),
                self.maze.wf(),
                g == self.maze@,
                c == g.cell(x as int, y as int),
                g.unvisited(x as int, y as int),
                neighbors@ == g.passable_neighbors(x as int, y as int),
                forall|k: int|
                    0 <= k < neighbors@.len() ==> g.is_kept_neighbor(
                        x as int,
                        y as int,
                        c.west,
                        c.east,
                        c.north,
                        c.south,
                        #[trigger] neighbors@[k],
                    ),
                forall|k: int|
                    0 <= k < i ==> !g.visited(
                        (#[trigger] neighbors@[k]).0 as int,
                        neighbors@[k].1 as int,
                    ),
            decreases neighbors@.len() - i,
        {
            let n = neighbors[i];
            proof {
                assert(g.is_kept_neighbor(
                    x as int,
                    y as int,
                    c.west,
                    c.east,
                    c.north,
                    c.south,
                    neighbors@[i as int],
                ));
            }
            if self.maze.at(n.0, n.1).visited {
                return true;
            }
            i += 1;
        }
        proof {
            if g.touches_visited(x as int, y as int) {
                lemma_kept_neighbor_listed(g, x as int, y as int, c.west, c.east, c.north, c.south);
                if c.west && g.visited(x - 1, y as int) {
                    let k = neighbors@.index_of(((x - 1) as usize, y));
                    assert(neighbors@[k] == ((x - 1) as usize, y));
                } else if c.east && g.visited(x + 1, y as int) {
                    let k = neighbors@.index_of(((x + 1) as usize, y));
                    assert(neighbors@[k] == ((x + 1) as usize, y));
                } else if c.north && g.visited(x as int, y - 1) {
                    let k = neighbors@.index_of((x, (y - 1) as usize));
                    assert(neighbors@[k] == (x, (y - 1) as usize));
                } else {
                    let k = neighbors@.index_of((x, (y + 1) as usize));
                    assert(neighbors@[k] == (x, (y + 1) as usize));
                }
            }
        }
        false
    }

    /// The centre of the cell `(x, y)`, in pixels.
    pub fn get_cell_central_point(&self, x: usize, y: usize) -> (r: (i32, i32))
        requires
            self.wf(),
            self.maze@.contains(x as int, y as int),
        ensures
            r.0 == self.center_x(x as int),
            r.1 == self.center_y(y as int),
    {
        proof {
            lemma_scaled(
                self.maze.width as int,
                x as int,
                self.cell_size.width as int,
                GRID_REACH as int,
            );
            lemma_scaled(
                self.maze.height as int,
                y as int,
                self.cell_size.height as int,
                GRID_REACH as int,
            );
        }
        let cx: i64 = (x as i64) * (self.cell_size.width as i64) + (self.cell_size.width as i64) / 2
            + (self.offset.x as i64);
        let cy: i64 = (y as i64) * (self.cell_size.height as i64) + (self.cell_size.height as i64)
            / 2 + (self.offset.y as i64);
        (cx as i32, cy as i32)
    }

    /// The pixel position of the grid point `(x, y)`, counted in cells.
    fn grid_point(&self, x: usize, y: usize) -> (r: (i32, i32))
        requires
            self.wf(),
            x <= self.maze.width,
            y <= self.maze.height,
        ensures
            r.0 == self.edge_x(x as int),
            r.1 == self.edge_y(y as int),
            -2 * GRID_REACH <= r.0 <= 2 * GRID_REACH,
            -2 * GRID_REACH <= r.1 <= 2 * GRID_REACH,
    {
        proof {
            lemma_scaled(
                self.maze.width as int,
                x as int,
                self.cell_size.width as int,
                GRID_REACH as int,
            );
            lemma_scaled(
                self.maze.height as int,
                y as int,
                self.cell_size.height as int,
                GRID_REACH as int,
            );
        }
        let px: i64 = (x as i64) * (self.cell_size.width as i64) + (self.offset.x as i64);
        let py: i64 = (y as i64) * (self.cell_size.height as i64) + (self.offset.y as i64);
        (px as i32, py as i32)
    }

    /// Draws the wall segment between two grid points one cell apart.
    fn draw_wall<D: DrawSurface>(&self, x0: usize, y0: usize, x1: usize, y1: usize, target: &mut D)
        requires
            self.wf(),
            self.can_stroke(self.style),
            old(target).usable(),
            x1 <= self.maze.width,
            y1 <= self.maze.height,
            (x1 == x0 + 1 && y1 == y0) || (x1 == x0 && y1 == y0 + 1),
        ensures
            final(target).usable(),
            final(target).model() == plotted_all::<D>(
                old(target).model(),
                self.wall_pixels(x0 as int, y0 as int, x1 as int, y1 as int, self.style),
            ),
    {
        let a = self.grid_point(x0, y0);
        let b = self.grid_point(x1, y1);
        proof {
            lemma_step(x0 as int, self.cell_size.width as int);
            lemma_step(y0 as int, self.cell_size.height as int);
            lemma_axis_length(b.0 - a.0, b.1 - a.1);
        }
        let pixels = styled_line_pixels(a.0, a.1, b.0, b.1, &self.style);
        draw_pixels(target, &pixels);
    }

    /// Draws the walls of the cell `(x, y)` that stand.
    fn draw_cell<D: DrawSurface>(&self, x: usize, y: usize, target: &mut D)
        requires
            self.wf(),
            self.can_stroke(self.style),
            self.maze@.contains(x as int, y as int),
            old(target).usable(),
        ensures
            final(target).usable(),
            final(target).model() == plotted_all::<D>(
                old(target).model(),
                self.cell_pixels(x as int, y as int),
            ),
    {
        let cell = *self.maze.at(x, y);
        let ghost m0 = target.model();
        let ghost north = self.wall_if(!cell.north, x as int, y as int, x + 1, y as int);
        let ghost south = self.wall_if(!cell.south, x as int, y + 1, x + 1, y + 1);
        let ghost east = self.wall_if(!cell.east, x + 1, y as int, x + 1, y + 1);
        let ghost west = self.wall_if(!cell.west, x as int, y as int, x as int, y + 1);
        if !cell.north {
            self.draw_wall(x, y, x + 1, y, target);
        }
        let ghost m1 = target.model();
        if !cell.south {
            self.draw_wall(x, y + 1, x + 1, y + 1, target);
        }
        let ghost m2 = target.model();
        if !cell.east {
            self.draw_wall(x + 1, y, x + 1, y + 1, target);
        }
        let ghost m3 = target.model();
        if !cell.west {
            self.draw_wall(x, y, x, y + 1, target);
        }
        proof {
            assert(m1 == plotted_all::<D>(m0, north));
            assert(m2 == plotted_all::<D>(m1, south));
            assert(m3 == plotted_all::<D>(m2, east));
            assert(target.model() == plotted_all::<D>(m3, west));
            lemma_plotted_all_concat::<D>(m0, north, south);
            lemma_plotted_all_concat::<D>(m0, north + south, east);
            lemma_plotted_all_concat::<D>(m0, north + south + east, west);
        }
    }

    /// Draws the marker of the cell `(x, y)` in `style`: a circle a little
    /// smaller than the cell.
    pub fn draw_marker<D: DrawSurface>(&self, x: usize, y: usize, style: &Style, target: &mut D)
        requires
            self.wf(),
            self.can_mark(*style),
            self.maze@.contains(x as int, y as int),
            old(target).usable(),
        ensures
            final(target).usable(),
            final(target).model() == plotted_all::<D>(
                old(target).model(),
                self.marker_pixels(x as int, y as int, *style),
            ),
    {
        let corner = self.grid_point(x, y);
        proof {
            lemma_scaled(
                self.maze.width as int,
                x + 1,
                self.cell_size.width as int,
                GRID_REACH as int,
            );
            lemma_scaled(
                self.maze.height as int,
                y + 1,
                self.cell_size.height as int,
                GRID_REACH as int,
            );
            lemma_step(x as int, self.cell_size.width as int);
            lemma_step(y as int, self.cell_size.height as int);
        }
        let side = if self.cell_size.width <= self.cell_size.height {
            self.cell_size.width
        } else {
            self.cell_size.height
        };
        let pixels = styled_circle_pixels(corner.0 + 2, corner.1 + 2, side - 3, style);
        draw_pixels(target, &pixels);
    }

    /// Draws the whole maze: for each cell, row by row, the walls that
    /// stand; then the markers of the start and of the goal.
    pub fn draw<D: DrawSurface>(&self, target: &mut D)
        requires
            self.wf(),
            self.can_stroke(self.style),
            self.can_mark(self.style),
            old(target).usable(),
        ensures
            final(target).usable(),
            final(target).model() == plotted_all::<D>(old(target).model(), self.scene()),
    {
        let ghost m0 = target.model();
        let mut y: usize = 0;
        while y < self.maze.height
            invariant
                self.wf(),
                self.can_stroke(self.style),
                y <= self.maze.height,
                target.usable(),
                target.model() == plotted_all::<D>(m0, self.grid_pixels(y as int)),
            decreases self.maze.height - y,
        {
            let ghost row_start = target.model();
            let mut x: usize = 0;
            while x < self.maze.width
                invariant
                    self.wf(),
                    self.can_stroke(self.style),
                    y < self.maze.height,
                    x <= self.maze.width,
                    target.usable(),
                    target.model() == plotted_all::<D>(
                        row_start,
                        self.row_pixels(y as int, x as int),
                    ),
                decreases self.maze.width - x,
            {
                proof {
                    lemma_plotted_all_concat::<D>(
                        row_start,
                        self.row_pixels(y as int, x as int),
                        self.cell_pixels(x as int, y as int),
                    );
                }
                self.draw_cell(x, y, target);
                x += 1;
            }
            proof {
                lemma_plotted_all_concat::<D>(
                    m0,
                    self.grid_pixels(y as int),
                    self.row_pixels(y as int, self.maze.width as int),
                );
            }
            y += 1;
        }
        let ghost grid = self.grid_pixels(self.maze.height as int);
        let ghost start = self.marker_pixels(0, 0, self.style);
        let ghost goal = self.marker_pixels(self.maze.width - 1, self.maze.height - 1, self.style);
        self.draw_marker(0, 0, &self.style, target);
        self.draw_marker(self.maze.width - 1, self.maze.height - 1, &self.style, target);
        proof {
            lemma_plotted_all_concat::<D>(m0, grid, start);
            lemma_plotted_all_concat::<D>(m0, grid + start, goal);
        }
    }
}

/// Each grid neighbour whose flag is set is listed.
pub proof fn lemma_kept_neighbor_listed(g: Grid, x: int, y: int, w: bool, e: bool, n: bool, s: bool)
    requires
        g.contains(x, y),
        g.width <= usize::MAX,
        g.height <= usize::MAX,
    ensures
        g.contains(x - 1, y) && w ==> g.neighbors_where(x, y, w, e, n, s).contains(
            ((x - 1) as usize, y as usize),
        ),
        g.contains(x + 1, y) && e ==> g.neighbors_where(x, y, w, e, n, s).contains(
            ((x + 1) as usize, y as usize),
        ),
        g.contains(x, y - 1) && n ==> g.neighbors_where(x, y, w, e, n, s).contains(
            (x as usize, (y - 1) as usize),
        ),
        g.contains(x, y + 1) && s ==> g.neighbors_where(x, y, w, e, n, s).contains(
            (x as usize, (y + 1) as usize),
        ),
{
    let a = one_if(g.contains(x - 1, y) && w, x - 1, y);
    let b = one_if(g.contains(x + 1, y) && e, x + 1, y);
    let c = one_if(g.contains(x, y - 1) && n, x, y - 1);
    let d = one_if(g.contains(x, y + 1) && s, x, y + 1);
    let r = g.neighbors_where(x, y, w, e, n, s);
    assert(r == a + b + c + d);
    if g.contains(x - 1, y) && w {
        assert(r[0] == ((x - 1) as usize, y as usize));
    }
    if g.contains(x + 1, y) && e {
        assert(r[a.len() as int] == ((x + 1) as usize, y as usize));
    }
    if g.contains(x, y - 1) && n {
        assert(r[(a.len() + b.len()) as int] == (x as usize, (y - 1) as usize));
    }
    if g.contains(x, y + 1) && s {
        assert(r[(a.len() + b.len() + c.len()) as int] == (x as usize, (y + 1) as usize));
    }
}

/// The squared distance between two points, where it fits 31 bits.
pub fn dist_sq(a: (i32, i32), b: (i32, i32)) -> (d: u32)
    requires
        dist_sq_spec(a.0 as int, a.1 as int, b.0 as int, b.1 as int) <= i32::MAX,
    ensures
        d == dist_sq_spec(a.0 as int, a.1 as int, b.0 as int, b.1 as int),
{
    let dx: i64 = (a.0 as i64) - (b.0 as i64);
    let dy: i64 = (a.1 as i64) - (b.1 as i64);
    proof {
        assert(0 <= dx * dx && 0 <= dy * dy) by (nonlinear_arith);
    }
    (dx * dx + dy * dy) as u32
}

/// The squared distance between two points, whatever they are.
pub fn dist_sq_wide(a: (i32, i32), b: (i32, i32)) -> (d: u128)
    ensures
        d == dist_sq_spec(a.0 as int, a.1 as int, b.0 as int, b.1 as int),
{
    let dx: i128 = (a.0 as i128) - (b.0 as i128);
    let dy: i128 = (a.1 as i128) - (b.1 as i128);
    proof {
        assert(0 <= dx * dx <= 0x1_0000_0000 * 0x1_0000_0000) by (nonlinear_arith)
            requires
                -0x1_0000_0000 <= dx <= 0x1_0000_0000,
        ;
        assert(0 <= dy * dy <= 0x1_0000_0000 * 0x1_0000_0000) by (nonlinear_arith)
            requires
                -0x1_0000_0000 <= dy <= 0x1_0000_0000,
        ;
    }
    (dx * dx + dy * dy) as u128
}

} // verus!
