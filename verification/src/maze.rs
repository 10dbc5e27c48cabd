//! The maze grid: cells, wall flags, neighbourhood queries and generation.

use crate::arith::{lemma_row_major, lemma_row_major_injective};
use vstd::prelude::*;

verus! {

/// The four sides of a cell.
#[derive(Clone, Copy, Debug, PartialEq, Eq, Structural)]
pub enum Direction {
    North,
    South,
    East,
    West,
}

/// One cell of the grid. A wall flag that is `true` means that the side is
/// open (passable); `false` means that the wall stands.
#[derive(Clone, Copy, Debug, PartialEq, Eq, Structural)]
pub struct MazeCell {
    pub north: bool,
    pub south: bool,
    pub east: bool,
    pub west: bool,
    pub visited: bool,
}

/// A grid of `width * height` cells in row-major order.
pub struct Maze {
    pub width: usize,
    pub height: usize,
    pub cells: Vec<MazeCell>,
}

/// A cell with all four walls standing and not visited.
pub open spec fn blank_cell() -> MazeCell {
    MazeCell { north: false, south: false, east: false, west: false, visited: false }
}

/// The mathematical model of a maze: its dimensions and its cells in
/// row-major order.
pub struct Grid {
    pub width: nat,
    pub height: nat,
    pub cells: Seq<MazeCell>,
}

/// The side of `(x, y)` that faces `(nx, ny)`, by the coordinate delta:
/// east or west where the columns differ, else south or north.
pub open spec fn direction_to(x: int, y: int, nx: int, ny: int) -> Direction {
    if nx > x {
        Direction::East
    } else if nx < x {
        Direction::West
    } else if ny > y {
        Direction::South
    } else {
        Direction::North
    }
}

/// The side that faces `d` from the other cell.
pub open spec fn opposite(d: Direction) -> Direction {
    match d {
        Direction::North => Direction::South,
        Direction::South => Direction::North,
        Direction::East => Direction::West,
        Direction::West => Direction::East,
    }
}

/// The cell `c` with its wall on side `d` open.
pub open spec fn with_open_side(c: MazeCell, d: Direction) -> MazeCell {
    match d {
        Direction::North => MazeCell { north: true, ..c },
        Direction::South => MazeCell { south: true, ..c },
        Direction::East => MazeCell { east: true, ..c },
        Direction::West => MazeCell { west: true, ..c },
    }
}

/// A sequence of one position, or of none.
pub open spec fn one_if(keep: bool, x: int, y: int) -> Seq<(usize, usize)> {
    if keep {
        seq![(x as usize, y as usize)]
    } else {
        Seq::empty()
    }
}

impl Grid {
    /// The grid has exactly one cell per position.
    pub open spec fn wf(self) -> bool {
        &&& self.cells.len() == self.width * self.height
        &&& self.width <= usize::MAX
        &&& self.height <= usize::MAX
        &&& self.width * self.height <= usize::MAX
    }

    /// `(x, y)` is a position of the grid.
    pub open spec fn contains(self, x: int, y: int) -> bool {
        0 <= x < self.width && 0 <= y < self.height
    }

    /// Row-major index of `(x, y)`.
    pub open spec fn pos(self, x: int, y: int) -> int {
        y * self.width + x
    }

    /// The cell at `(x, y)`.
    pub open spec fn cell(self, x: int, y: int) -> MazeCell {
        self.cells[self.pos(x, y)]
    }

    /// `(x, y)` lies in the grid and is marked visited.
    pub open spec fn visited(self, x: int, y: int) -> bool {
        self.contains(x, y) && self.cell(x, y).visited
    }

    /// `(x, y)` lies in the grid and is not marked visited.
    pub open spec fn unvisited(self, x: int, y: int) -> bool {
        self.contains(x, y) && !self.cell(x, y).visited
    }

    /// The grid with the cell at `(x, y)` replaced by `c`.
    pub open spec fn with_cell(self, x: int, y: int, c: MazeCell) -> Grid {
        Grid { width: self.width, height: self.height, cells: self.cells.update(self.pos(x, y), c) }
    }

    /// The grid with `(x, y)` marked visited.
    pub open spec fn marked(self, x: int, y: int) -> Grid {
        self.with_cell(x, y, MazeCell { visited: true, ..self.cell(x, y) })
    }

    /// The grid with the wall pair between `(x, y)` and `(nx, ny)` open:
    /// the side of `(x, y)` that faces `(nx, ny)`, and the opposite side of
    /// `(nx, ny)`.
    pub open spec fn carved(self, x: int, y: int, nx: int, ny: int) -> Grid {
        let d = direction_to(x, y, nx, ny);
        let half = self.with_cell(x, y, with_open_side(self.cell(x, y), d));
        half.with_cell(nx, ny, with_open_side(half.cell(nx, ny), opposite(d)))
    }

    /// Every wall stands and no cell is visited.
    pub open spec fn is_blank(self) -> bool {
        forall|i: int| 0 <= i < self.cells.len() ==> self.cells[i] == blank_cell()
    }

    /// The grid neighbours of `(x, y)` in the order west, east, north,
    /// south, each kept only where its flag is set.
    pub open spec fn neighbors_where(
        self,
        x: int,
        y: int,
        w: bool,
        e: bool,
        n: bool,
        s: bool,
    ) -> Seq<(usize, usize)> {
        one_if(self.contains(x - 1, y) && w, x - 1, y) + one_if(
            self.contains(x + 1, y) && e,
            x + 1,
            y,
        ) + one_if(self.contains(x, y - 1) && n, x, y - 1) + one_if(
            self.contains(x, y + 1) && s,
            x,
            y + 1,
        )
    }

    /// `p` is a grid neighbour of `(x, y)` whose flag is set.
    pub open spec fn is_kept_neighbor(
        self,
        x: int,
        y: int,
        w: bool,
        e: bool,
        n: bool,
        s: bool,
        p: (usize, usize),
    ) -> bool {
        &&& self.contains(p.0 as int, p.1 as int)
        &&& {
            ||| (p.0 == x - 1 && p.1 == y && w)
            ||| (p.0 == x + 1 && p.1 == y && e)
            ||| (p.0 == x && p.1 == y - 1 && n)
            ||| (p.0 == x && p.1 == y + 1 && s)
        }
    }

    /// The grid neighbours of `(x, y)` that are not visited.
    pub open spec fn unvisited_neighbors(self, x: int, y: int) -> Seq<(usize, usize)> {
        self.neighbors_where(
            x,
            y,
            self.unvisited(x - 1, y),
            self.unvisited(x + 1, y),
            self.unvisited(x, y - 1),
            self.unvisited(x, y + 1),
        )
    }

    /// The grid neighbours of `(x, y)` that are visited.
    pub open spec fn visited_neighbors(self, x: int, y: int) -> Seq<(usize, usize)> {
        self.neighbors_where(
            x,
            y,
            self.visited(x - 1, y),
            self.visited(x + 1, y),
            self.visited(x, y - 1),
            self.visited(x, y + 1),
        )
    }

    /// Some grid neighbour of `(x, y)` is visited.
    pub open spec fn has_visited_neighbor(self, x: int, y: int) -> bool {
        self.visited(x - 1, y) || self.visited(x + 1, y) || self.visited(x, y - 1) || self.visited(
            x,
            y + 1,
        )
    }

    /// `(x, y)` is not visited and touches the visited region.
    pub open spec fn on_frontier(self, x: int, y: int) -> bool {
        self.unvisited(x, y) && self.has_visited_neighbor(x, y)
    }

    /// The grid neighbours of `(x, y)` that are on the frontier.
    pub open spec fn frontier_neighbors(self, x: int, y: int) -> Seq<(usize, usize)> {
        self.neighbors_where(
            x,
            y,
            self.on_frontier(x - 1, y),
            self.on_frontier(x + 1, y),
            self.on_frontier(x, y - 1),
            self.on_frontier(x, y + 1),
        )
    }
}

/// What a neighbour list holds: each entry is one of the four grid
/// neighbours, kept by its flag, and each kept neighbour is an entry.
pub proof fn lemma_neighbors_where(g: Grid, x: int, y: int, w: bool, e: bool, n: bool, s: bool)
    requires
        g.contains(x, y),
        g.width <= usize::MAX,
        g.height <= usize::MAX,
    ensures
        forall|i: int|
            0 <= i < g.neighbors_where(x, y, w, e, n, s).len() ==> g.is_kept_neighbor(
                x,
                y,
                w,
                e,
                n,
                s,
                #[trigger] g.neighbors_where(x, y, w, e, n, s)[i],
            ),
        g.neighbors_where(x, y, w, e, n, s).len() == 0 <==> !(g.contains(x - 1, y) && w) && !(
        g.contains(x + 1, y) && e) && !(g.contains(x, y - 1) && n) && !(g.contains(x, y + 1) && s),
{
    let a = one_if(g.contains(x - 1, y) && w, x - 1, y);
    let b = one_if(g.contains(x + 1, y) && e, x + 1, y);
    let c = one_if(g.contains(x, y - 1) && n, x, y - 1);
    let d = one_if(g.contains(x, y + 1) && s, x, y + 1);
    let r = g.neighbors_where(x, y, w, e, n, s);
    assert(r == a + b + c + d);
    assert(r.len() == a.len() + b.len() + c.len() + d.len());
    assert forall|i: int| 0 <= i < r.len() implies g.is_kept_neighbor(
        x,
        y,
        w,
        e,
        n,
        s,
        #[trigger] r[i],
    ) by {
        if i < a.len() {
            assert(r[i] == a[i]);
        } else if i < a.len() + b.len() {
            assert(r[i] == b[i - a.len()]);
        } else if i < a.len() + b.len() + c.len() {
            assert(r[i] == c[i - a.len() - b.len()]);
        } else {
            assert(r[i] == d[i - a.len() - b.len() - c.len()]);
        }
    }
}

/// The test "touches a visited cell" on the positions of `g`.
pub open spec fn touches_visited_cell(g: Grid) -> spec_fn((usize, usize)) -> bool {
    |p: (usize, usize)| g.has_visited_neighbor(p.0 as int, p.1 as int)
}

/// The frontier neighbours are the unvisited neighbours that touch a
/// visited cell.
pub proof fn lemma_frontier_is_filtered(g: Grid, x: int, y: int)
    requires
        g.width <= usize::MAX,
        g.height <= usize::MAX,
    ensures
        g.unvisited_neighbors(x, y).filter(touches_visited_cell(g)) == g.frontier_neighbors(x, y),
{
    let pred = touches_visited_cell(g);
    let a = one_if(g.contains(x - 1, y) && g.unvisited(x - 1, y), x - 1, y);
    let b = one_if(g.contains(x + 1, y) && g.unvisited(x + 1, y), x + 1, y);
    let c = one_if(g.contains(x, y - 1) && g.unvisited(x, y - 1), x, y - 1);
    let d = one_if(g.contains(x, y + 1) && g.unvisited(x, y + 1), x, y + 1);
    lemma_filter_one_if(g, g.contains(x - 1, y) && g.unvisited(x - 1, y), x - 1, y);
    lemma_filter_one_if(g, g.contains(x + 1, y) && g.unvisited(x + 1, y), x + 1, y);
    lemma_filter_one_if(g, g.contains(x, y - 1) && g.unvisited(x, y - 1), x, y - 1);
    lemma_filter_one_if(g, g.contains(x, y + 1) && g.unvisited(x, y + 1), x, y + 1);
    Seq::filter_distributes_over_add(a, b, pred);
    Seq::filter_distributes_over_add(a + b, c, pred);
    Seq::filter_distributes_over_add(a + b + c, d, pred);
    assert(g.unvisited_neighbors(x, y) == a + b + c + d);
    assert((a + b + c + d).filter(pred) == a.filter(pred) + b.filter(pred) + c.filter(pred)
        + d.filter(pred));
    assert(a.filter(pred) == one_if(g.contains(x - 1, y) && g.on_frontier(x - 1, y), x - 1, y));
    assert(b.filter(pred) == one_if(g.contains(x + 1, y) && g.on_frontier(x + 1, y), x + 1, y));
    assert(c.filter(pred) == one_if(g.contains(x, y - 1) && g.on_frontier(x, y - 1), x, y - 1));
    assert(d.filter(pred) == one_if(g.contains(x, y + 1) && g.on_frontier(x, y + 1), x, y + 1));
}

/// Filtering a list of at most one grid position by "touches a visited
/// cell".
pub proof fn lemma_filter_one_if(g: Grid, keep: bool, x: int, y: int)
    requires
        keep ==> g.contains(x, y),
        g.width <= usize::MAX,
        g.height <= usize::MAX,
    ensures
        one_if(keep, x, y).filter(touches_visited_cell(g)) == one_if(
            keep && g.has_visited_neighbor(x, y),
            x,
            y,
        ),
{
    let pred = touches_visited_cell(g);
    let s = one_if(keep, x, y);
    reveal_with_fuel(Seq::filter, 2);
    if keep {
        assert(s.drop_last() =~= Seq::<(usize, usize)>::empty());
        assert(s.last() == (x as usize, y as usize));
        assert(pred(s.last()) == g.has_visited_neighbor(x, y));
        assert(s.filter(pred) =~= one_if(keep && g.has_visited_neighbor(x, y), x, y));
    } else {
        assert(s.filter(pred) =~= one_if(keep && g.has_visited_neighbor(x, y), x, y));
    }
}

/// Replacing one cell changes that cell and no other.
pub proof fn lemma_with_cell(g: Grid, x: int, y: int, c: MazeCell)
    requires
        g.wf(),
        g.contains(x, y),
    ensures
        g.with_cell(x, y, c).wf(),
        g.with_cell(x, y, c).width == g.width,
        g.with_cell(x, y, c).height == g.height,
        g.with_cell(x, y, c).cell(x, y) == c,
        forall|x2: int, y2: int|
            g.contains(x2, y2) && !(x2 == x && y2 == y) ==> #[trigger] g.with_cell(x, y, c).cell(
                x2,
                y2,
            ) == g.cell(x2, y2),
{
    let h = g.with_cell(x, y, c);
    lemma_row_major(g.width as int, g.height as int, x, y);
    assert forall|x2: int, y2: int|
        g.contains(x2, y2) && !(x2 == x && y2 == y) implies #[trigger] h.cell(x2, y2) == g.cell(
        x2,
        y2,
    ) by {
        lemma_row_major(g.width as int, g.height as int, x2, y2);
        if g.pos(x2, y2) == g.pos(x, y) {
            lemma_row_major_injective(g.width as int, x, y, x2, y2);
        }
    }
}

/// What the predicate `f` may answer for the cell at `(x, y)`: outside the
/// grid it is not asked, so any answer stands.
pub open spec fn answers<F: Fn(&MazeCell) -> bool>(f: F, g: Grid, x: int, y: int, b: bool) -> bool {
    g.contains(x, y) ==> call_ensures(f, (&g.cell(x, y),), b)
}

impl View for Maze {
    type V = Grid;

    open spec fn view(&self) -> Grid {
        Grid { width: self.width as nat, height: self.height as nat, cells: self.cells@ }
    }
}

impl Maze {
    /// The maze owns exactly one cell per position.
    pub open spec fn wf(&self) -> bool {
        self@.wf()
    }

    pub proof fn lemma_pos_in_range(&self, x: int, y: int)
        requires
            self.wf(),
            self@.contains(x, y),
        ensures
            0 <= y * self.width <= self@.pos(x, y) < self.cells@.len(),
    {
        lemma_row_major(self.width as int, self.height as int, x, y);
    }

    /// An empty maze: all walls closed, nothing visited.
    pub fn new(width: usize, height: usize) -> (maze: Maze)
        requires
            width * height <= usize::MAX,
        ensures
            maze.wf(),
            maze.width == width,
            maze.height == height,
            maze@.is_blank(),
    {
        let total: usize = width * height;
        let mut cells: Vec<MazeCell> = Vec::with_capacity(total);
        let mut i: usize = 0;
        while i < total
            invariant
                i <= total,
                cells@.len() == i,
                forall|k: int| 0 <= k < i ==> cells@[k] == blank_cell(),
            decreases total - i,
        {
            cells.push(
                MazeCell { north: false, south: false, east: false, west: false, visited: false },
            );
            i += 1;
        }
        Maze { width, height, cells }
    }

    /// The cell at `(x, y)`, or `None` outside the grid.
    pub fn get(&self, x: usize, y: usize) -> (r: Option<&MazeCell>)
        requires
            self.wf(),
        ensures
            r.is_some() == self@.contains(x as int, y as int),
            r.is_some() ==> *r.unwrap() == self@.cell(x as int, y as int),
    {
        if x < self.width && y < self.height {
            proof {
                self.lemma_pos_in_range(x as int, y as int);
            }
            Some(&self.cells[y * self.width + x])
        } else {
            None
        }
    }

    /// The cell at `(x, y)` to write to, or `None` outside the grid.
    pub fn get_mut(&mut self, x: usize, y: usize) -> (r: Option<&mut MazeCell>)
        requires
            old(self).wf(),
        ensures
            r.is_some() == old(self)@.contains(x as int, y as int),
            match r {
                Some(c) => *c == old(self)@.cell(x as int, y as int) && final(self)@ == old(
                    self,
                )@.with_cell(x as int, y as int, *final(c)),
                None => final(self)@ == old(self)@,
            },
    {
        if x < self.width && y < self.height {
            proof {
                self.lemma_pos_in_range(x as int, y as int);
            }
            let i: usize = y * self.width + x;
            Some(&mut self.cells[i])
        } else {
            None
        }
    }

    /// The cell at `(x, y)` of the grid. The position must lie in the
    /// grid; `get` answers for any position.
    pub fn at(&self, x: usize, y: usize) -> (r: &MazeCell)
        requires
            self.wf(),
            self@.contains(x as int, y as int),
        ensures
            *r == self@.cell(x as int, y as int),
    {
        proof {
            self.lemma_pos_in_range(x as int, y as int);
        }
        &self.cells[y * self.width + x]
    }

    /// Marks the cell at `(x, y)` visited.
    pub fn mark_visited(&mut self, x: usize, y: usize)
        requires
            old(self).wf(),
            old(self)@.contains(x as int, y as int),
        ensures
            final(self)@ == old(self)@.marked(x as int, y as int),
            final(self).wf(),
    {
        proof {
            self.lemma_pos_in_range(x as int, y as int);
            lemma_with_cell(
                self@,
                x as int,
                y as int,
                MazeCell { visited: true, ..self@.cell(x as int, y as int) },
            );
        }
        let i: usize = y * self.width + x;
        self.cells[i].visited = true;
    }

    /// Opens the wall on side `d` of the cell at `(x, y)`.
    pub fn open_side(&mut self, x: usize, y: usize, d: Direction)
        requires
            old(self).wf(),
            old(self)@.contains(x as int, y as int),
        ensures
            final(self)@ == old(self)@.with_cell(
                x as int,
                y as int,
                with_open_side(old(self)@.cell(x as int, y as int), d),
            ),
            final(self).wf(),
    {
        proof {
            self.lemma_pos_in_range(x as int, y as int);
            lemma_with_cell(
                self@,
                x as int,
                y as int,
                with_open_side(self@.cell(x as int, y as int), d),
            );
        }
        let i: usize = y * self.width + x;
        match d {
            Direction::North => {
                self.cells[i].north = true;
            },
            Direction::South => {
                self.cells[i].south = true;
            },
            Direction::East => {
                self.cells[i].east = true;
            },
            Direction::West => {
                self.cells[i].west = true;
            },
        }
    }

    /// Opens the wall pair between `(x, y)` and `(nx, ny)`: the side of
    /// `(x, y)` that faces `(nx, ny)` by the coordinate delta, and the
    /// opposite side of `(nx, ny)`. Returns the side of `(x, y)`.
    pub fn connect(&mut self, x: usize, y: usize, nx: usize, ny: usize) -> (d: Direction)
        requires
            old(self).wf(),
            old(self)@.contains(x as int, y as int),
            old(self)@.contains(nx as int, ny as int),
        ensures
            d == direction_to(x as int, y as int, nx as int, ny as int),
            final(self)@ == old(self)@.carved(x as int, y as int, nx as int, ny as int),
            final(self).wf(),
    {
        let direction = if nx > x {
            Direction::East
        } else if nx < x {
            Direction::West
        } else if ny > y {
            Direction::South
        } else {
            Direction::North
        };
        match direction {
            Direction::North => {
                self.open_side(x, y, Direction::North);
                self.open_side(nx, ny, Direction::South);
            },
            Direction::East => {
                self.open_side(x, y, Direction::East);
                self.open_side(nx, ny, Direction::West);
            },
            Direction::West => {
                self.open_side(x, y, Direction::West);
                self.open_side(nx, ny, Direction::East);
            },
            Direction::South => {
                self.open_side(x, y, Direction::South);
                self.open_side(nx, ny, Direction::North);
            },
        }
        direction
    }

    /// The grid neighbours of `(x, y)`, in the order west, east, north,
    /// south, for whose cell `f` answers `true`.
    pub fn get_cell_neighbors_when<F: Fn(&MazeCell) -> bool>(&self, x: usize, y: usize, f: F) -> (r:
        Vec<(usize, usize)>)
        requires
            self.wf(),
            self@.contains(x as int, y as int),
            forall|c: &MazeCell| call_requires(f, (c,)),
        ensures
            exists|w: bool, e: bool, n: bool, s: bool|
                {
                    &&& #[trigger] answers(f, self@, x - 1, y as int, w)
                    &&& #[trigger] answers(f, self@, x + 1, y as int, e)
                    &&& #[trigger] answers(f, self@, x as int, y - 1, n)
                    &&& #[trigger] answers(f, self@, x as int, y + 1, s)
                    &&& r@ == self@.neighbors_where(x as int, y as int, w, e, n, s)
                },
    {
        let mut neighbors: Vec<(usize, usize)> = Vec::new();
        let ghost mut w = false;
        let ghost mut e = false;
        let ghost mut n = false;
        let ghost mut s = false;
        if x > 0 {
            let b = f(self.at(x - 1, y));
            proof {
                w = b;
            }
            if b {
                neighbors.push((x - 1, y));
            }
        }
        if x < self.width - 1 {
            let b = f(self.at(x + 1, y));
            proof {
                e = b;
            }
            if b {
                neighbors.push((x + 1, y));
            }
        }
        if y > 0 {
            let b = f(self.at(x, y - 1));
            proof {
                n = b;
            }
            if b {
                neighbors.push((x, y - 1));
            }
        }
        if y < self.height - 1 {
            let b = f(self.at(x, y + 1));
            proof {
                s = b;
            }
            if b {
                neighbors.push((x, y + 1));
            }
        }
        proof {
            assert(neighbors@ =~= self@.neighbors_where(x as int, y as int, w, e, n, s));
            assert(answers(f, self@, x - 1, y as int, w));
            assert(answers(f, self@, x + 1, y as int, e));
            assert(answers(f, self@, x as int, y - 1, n));
            assert(answers(f, self@, x as int, y + 1, s));
        }
        neighbors
    }

    /// The grid neighbours of `(x, y)` that are not visited.
    pub fn get_cell_unvisited_neighbors(&self, x: usize, y: usize) -> (r: Vec<(usize, usize)>)
        requires
            self.wf(),
            self@.contains(x as int, y as int),
        ensures
            r@ == self@.unvisited_neighbors(x as int, y as int),
    {
        let unvisited = |cell: &MazeCell| -> (b: bool)
            ensures
                b == !cell.visited,
            {
                let b = !cell.visited;
                b
            };
        self.get_cell_neighbors_when(x, y, unvisited)
    }

    /// The grid neighbours of `(x, y)` that are visited.
    pub fn get_cell_visited_neighbors(&self, x: usize, y: usize) -> (r: Vec<(usize, usize)>)
        requires
            self.wf(),
            self@.contains(x as int, y as int),
        ensures
            r@ == self@.visited_neighbors(x as int, y as int),
    {
        let visited = |cell: &MazeCell| -> (b: bool)
            ensures
                b == cell.visited,
            {
                let b = cell.visited;
                b
            };
        self.get_cell_neighbors_when(x, y, visited)
    }

    /// The grid neighbours of `(x, y)` that are not visited and that
    /// themselves touch a visited cell.
    pub fn get_cell_unvisited_neighbors_with_visited_neighbors(
        &self,
        x: usize,
        y: usize,
    ) -> (r: Vec<(usize, usize)>)
        requires
            self.wf(),
            self@.contains(x as int, y as int),
        ensures
            r@ == self@.frontier_neighbors(x as int, y as int),
    {
        let ghost g = self@;
        let ghost pred = touches_visited_cell(g);
        let unvisited = self.get_cell_unvisited_neighbors(x, y);
        let mut neighbors: Vec<(usize, usize)> = Vec::new();
        proof {
            lemma_neighbors_where(
                g,
                x as int,
                y as int,
                g.unvisited(x - 1, y as int),
                g.unvisited(x + 1, y as int),
                g.unvisited(x as int, y - 1),
                g.unvisited(x as int, y + 1),
            );
            assert(unvisited@.take(0).filter(pred) =~= Seq::<(usize, usize)>::empty());
        }
        let mut i: usize = 0;
        while i < unvisited.len()
            invariant
                self.wf(),
                g == self@,
                pred == touches_visited_cell(g),
                i <= unvisited@.len(),
                forall|k: int|
                    0 <= k < unvisited@.len() ==> g.contains(
                        (#[trigger] unvisited@[k]).0 as int,
                        unvisited@[k].1 as int,
                    ),
                neighbors@ == unvisited@.take(i as int).filter(pred),
            decreases unvisited@.len() - i,
        {
            let (nx, ny) = unvisited[i];
            let touching = self.get_cell_visited_neighbors(nx, ny);
            proof {
                lemma_neighbors_where(
                    g,
                    nx as int,
                    ny as int,
                    g.visited(nx - 1, ny as int),
                    g.visited(nx + 1, ny as int),
                    g.visited(nx as int, ny - 1),
                    g.visited(nx as int, ny + 1),
                );
                let next = unvisited@.take(i + 1);
                assert(next.drop_last() =~= unvisited@.take(i as int));
                assert(next.last() == (nx, ny));
                reveal_with_fuel(Seq::filter, 1);
            }
            if !touching.is_empty() {
                neighbors.push((nx, ny));
            }
            i += 1;
        }
        proof {
            assert(unvisited@.take(i as int) =~= unvisited@);
            lemma_frontier_is_filtered(g, x as int, y as int);
        }
        neighbors
    }
}

} // verus!
