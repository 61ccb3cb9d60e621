//! The grid model: cells, coordinates, the maze itself and its neighbour queries.

use vstd::prelude::*;

verus! {

/// What a grid cell holds: a wall blocks movement, a path cell can be walked on.
#[derive(Debug, Clone, Copy, PartialEq, Eq, Structural)]
pub enum Cell {
    Wall,
    Path,
}

/// A grid coordinate: column `x`, row `y`.
#[derive(Debug, Clone, Copy, PartialEq, Eq, Hash, Structural)]
pub struct Point {
    pub x: usize,
    pub y: usize,
}

/// A rectangular maze with a designated start and end cell.
pub struct Maze {
    pub grid: Vec<Vec<Cell>>,
    pub width: usize,
    pub height: usize,
    pub start: Point,
    pub end: Point,
}

/// Two cells are adjacent when they differ by one step along exactly one axis.
pub open spec fn adjacent(a: Point, b: Point) -> bool {
    ||| (a.x == b.x && a.y + 1 == b.y)
    ||| (a.x + 1 == b.x && a.y == b.y)
    ||| (a.x == b.x && b.y + 1 == a.y)
    ||| (b.x + 1 == a.x && a.y == b.y)
}

/// The cell at position `i` of `s` is adjacent to the one after it.
pub open spec fn hops(s: Seq<Point>, i: int) -> bool {
    adjacent(s[i], s[i + 1])
}

impl Maze {
    /// The grid has `height` rows of `width` cells each, and the number of
    /// cells is below the largest machine word.
    pub open spec fn shaped(&self) -> bool {
        &&& self.grid@.len() == self.height
        &&& forall|y: int| 0 <= y < self.height ==> (#[trigger] self.grid@[y])@.len() == self.width
        &&& self.width * self.height < usize::MAX
    }

    /// The coordinate lies inside the grid.
    pub open spec fn contains(&self, p: Point) -> bool {
        p.x < self.width && p.y < self.height
    }

    /// The cell at column `x`, row `y` lies inside the grid and is a path cell.
    pub open spec fn passable_at(&self, x: int, y: int) -> bool {
        &&& 0 <= x < self.width
        &&& 0 <= y < self.height
        &&& self.grid@[y]@[x] == Cell::Path
    }

    /// The coordinate lies inside the grid and names a path cell.
    pub open spec fn passable(&self, p: Point) -> bool {
        self.passable_at(p.x as int, p.y as int)
    }

    /// A maze is well formed when its grid is rectangular and both the start
    /// and the end are path cells.
    pub open spec fn wf(&self) -> bool {
        &&& self.shaped()
        &&& self.passable(self.start)
        &&& self.passable(self.end)
    }

    /// `acc`, extended by the cell at (`x`, `y`) when that cell is passable.
    pub open spec fn with_neighbor(&self, acc: Seq<Point>, x: int, y: int) -> Seq<Point> {
        if self.passable_at(x, y) {
            acc.push(Point { x: x as usize, y: y as usize })
        } else {
            acc
        }
    }

    /// The passable cells next to `p`, in the fixed order in which every
    /// search visits them: up (`y - 1`), right (`x + 1`), down (`y + 1`),
    /// left (`x - 1`). Rows are counted from the top, so up is the direction
    /// in which `y` falls.
    pub open spec fn neighbors(&self, p: Point) -> Seq<Point> {
        let s0 = self.with_neighbor(Seq::empty(), p.x as int, p.y - 1);
        let s1 = self.with_neighbor(s0, p.x + 1, p.y as int);
        let s2 = self.with_neighbor(s1, p.x as int, p.y + 1);
        self.with_neighbor(s2, p.x - 1, p.y as int)
    }

    /// Every cell of `s` is passable and each is adjacent to the one after it.
    pub open spec fn is_walk(&self, s: Seq<Point>) -> bool {
        &&& forall|i: int| 0 <= i < s.len() ==> self.passable(#[trigger] s[i])
        &&& forall|i: int| 0 <= i < s.len() - 1 ==> #[trigger] hops(s, i)
    }

    /// `s` is a walk that begins at `a` and ends at `b`.
    pub open spec fn is_route(&self, a: Point, b: Point, s: Seq<Point>) -> bool {
        &&& s.len() > 0
        &&& s.first() == a
        &&& s.last() == b
        &&& self.is_walk(s)
    }

    /// Some walk over path cells leads from `a` to `b`.
    pub open spec fn connected(&self, a: Point, b: Point) -> bool {
        exists|s: Seq<Point>| self.is_route(a, b, s)
    }

    /// Whether the maze is well formed.
    pub fn is_well_formed(&self) -> (ok: bool)
        ensures
            ok == self.wf(),
    {
        if self.grid.len() != self.height {
            return false;
        }
        let mut y: usize = 0;
        while y < self.height
            invariant
                y <= self.height,
                self.grid@.len() == self.height,
                forall|r: int| 0 <= r < y ==> (#[trigger] self.grid@[r])@.len() == self.width,
            decreases self.height - y,
        {
            if self.grid[y].len() != self.width {
                return false;
            }
            y = y + 1;
        }
        match self.width.checked_mul(self.height) {
            None => false,
            Some(cells) => cells < usize::MAX && self.is_path(self.start) && self.is_path(self.end),
        }
    }

    /// Whether `point` lies inside the grid and is a path cell.
    pub fn is_path(&self, point: Point) -> (open: bool)
        requires
            self.shaped(),
        ensures
            open == self.passable(point),
    {
        if point.x >= self.width || point.y >= self.height {
            return false;
        }
        self.grid[point.y][point.x] == Cell::Path
    }

    /// The passable cells next to `point`, at most four, in the fixed order
    /// of `neighbors`.
    pub fn get_neighbors(&self, point: Point) -> (found: Vec<Point>)
        requires
            self.shaped(),
        ensures
            found@ == self.neighbors(point),
    {
        let mut found: Vec<Point> = Vec::new();
        if point.y > 0 {
            let q = Point { x: point.x, y: point.y - 1 };
            if self.is_path(q) {
                found.push(q);
            }
        }
        if point.x < usize::MAX {
            let q = Point { x: point.x + 1, y: point.y };
            if self.is_path(q) {
                found.push(q);
            }
        }
        if point.y < usize::MAX {
            let q = Point { x: point.x, y: point.y + 1 };
            if self.is_path(q) {
                found.push(q);
            }
        }
        if point.x > 0 {
            let q = Point { x: point.x - 1, y: point.y };
            if self.is_path(q) {
                found.push(q);
            }
        }
        found
    }

    /// Turns the cell at `p` into a path cell and leaves every other cell as
    /// it was.
    pub fn open_cell(&mut self, p: Point)
        requires
            old(self).shaped(),
            old(self).contains(p),
        ensures
            final(self).shaped(),
            final(self).width == old(self).width,
            final(self).height == old(self).height,
            final(self).start == old(self).start,
            final(self).end == old(self).end,
            final(self).passable(p),
            forall|q: Point| q != p ==> final(self).passable(q) == old(self).passable(q),
    {
        self.grid[p.y][p.x] = Cell::Path;
    }
}

/// A route stays a route when cells are opened: every cell passable in `m`
/// is passable in `wider`.
pub proof fn lemma_route_survives(m: Maze, wider: Maze, a: Point, b: Point, s: Seq<Point>)
    requires
        m.is_route(a, b, s),
        forall|q: Point| m.passable(q) ==> wider.passable(q),
    ensures
        wider.is_route(a, b, s),
{
    assert forall|i: int| 0 <= i < s.len() - 1 implies #[trigger] hops(s, i) by {}
}

/// A route to `b` followed by one more step to a passable cell next to `b`
/// is a route to that cell.
pub proof fn lemma_route_extends(m: Maze, a: Point, b: Point, c: Point, s: Seq<Point>)
    requires
        m.is_route(a, b, s),
        adjacent(b, c),
        m.passable(c),
    ensures
        m.is_route(a, c, s.push(c)),
{
    let t = s.push(c);
    assert forall|i: int| 0 <= i < t.len() implies m.passable(#[trigger] t[i]) by {
        if i < s.len() {
            assert(t[i] == s[i]);
        }
    }
    assert forall|i: int| 0 <= i < t.len() - 1 implies #[trigger] hops(t, i) by {
        if i < s.len() - 1 {
            assert(hops(s, i));
            assert(t[i] == s[i]);
            assert(t[i + 1] == s[i + 1]);
        } else {
            assert(t[i] == b);
        }
    }
}

/// The neighbours of a cell are passable, adjacent to it and pairwise
/// distinct, and every passable cell adjacent to it is among them.
pub proof fn lemma_neighbors(m: Maze, p: Point)
    requires
        m.shaped(),
    ensures
        m.neighbors(p).len() <= 4,
        m.neighbors(p).no_duplicates(),
        forall|i: int|
            0 <= i < m.neighbors(p).len() ==> m.passable(#[trigger] m.neighbors(p)[i]) && adjacent(
                p,
                m.neighbors(p)[i],
            ),
        forall|q: Point| adjacent(p, q) && m.passable(q) ==> m.neighbors(p).contains(q),
{
    let s0 = m.with_neighbor(Seq::empty(), p.x as int, p.y - 1);
    let s1 = m.with_neighbor(s0, p.x + 1, p.y as int);
    let s2 = m.with_neighbor(s1, p.x as int, p.y + 1);
    let s3 = m.with_neighbor(s2, p.x - 1, p.y as int);
    assert forall|q: Point| adjacent(p, q) && m.passable(q) implies s3.contains(q) by {
        if p.x == q.x && q.y + 1 == p.y {
            assert(s0[s0.len() - 1] == q);
            assert(s3[s0.len() - 1] == q);
        } else if p.x + 1 == q.x && p.y == q.y {
            assert(s1[s1.len() - 1] == q);
            assert(s3[s1.len() - 1] == q);
        } else if p.x == q.x && p.y + 1 == q.y {
            assert(s2[s2.len() - 1] == q);
            assert(s3[s2.len() - 1] == q);
        } else {
            assert(s3[s3.len() - 1] == q);
        }
    }
}

} // verus!
