//! Maze generation: a randomized depth-first carving over the cells with odd
//! coordinates, which opens the wall cell between a room and the next.

use vstd::prelude::*;
use crate::grid::{adjacent, lemma_route_extends, lemma_route_survives, Cell, Maze, Point};
use crate::point_set::PointSet;
use crate::rng::draw_below;
use crate::tree::{
    hangs_on, lemma_leaf_keeps_single_paths, lemma_one_cell_has_single_paths, single_paths,
};

verus! {

/// (`x`, `y`) lies strictly inside the outer boundary of a grid `width`
/// cells wide and `height` cells high.
pub open spec fn within(width: int, height: int, x: int, y: int) -> bool {
    0 < x < width - 1 && 0 < y < height - 1
}

/// (`x`, `y`) lies strictly inside the outer boundary of `m`.
pub open spec fn inside(m: Maze, x: int, y: int) -> bool {
    within(m.width as int, m.height as int, x, y)
}

/// `p` is a room: a cell inside the boundary with both coordinates odd.
pub open spec fn room(m: Maze, p: Point) -> bool {
    inside(m, p.x as int, p.y as int) && p.x % 2 == 1 && p.y % 2 == 1
}

/// `p` is a cell that carving may open: inside the boundary and not at even
/// coordinates on both axes.
pub open spec fn carvable(m: Maze, p: Point) -> bool {
    inside(m, p.x as int, p.y as int) && (p.x % 2 == 1 || p.y % 2 == 1)
}

/// Two cells are two steps apart along exactly one axis.
pub open spec fn two_apart(a: Point, b: Point) -> bool {
    ||| (a.x == b.x && a.y + 2 == b.y)
    ||| (a.x + 2 == b.x && a.y == b.y)
    ||| (a.x == b.x && b.y + 2 == a.y)
    ||| (b.x + 2 == a.x && a.y == b.y)
}

/// The cell halfway between two cells.
pub open spec fn midpoint(a: Point, b: Point) -> Point {
    Point { x: ((a.x + b.x) / 2) as usize, y: ((a.y + b.y) / 2) as usize }
}

/// `acc`, extended by the cell at (`x`, `y`) when that cell lies inside the
/// boundary of the grid and is not in `visited`.
pub open spec fn with_unvisited(
    width: int,
    height: int,
    acc: Seq<Point>,
    visited: Set<Point>,
    x: int,
    y: int,
) -> Seq<Point> {
    if within(width, height, x, y) && !visited.contains(Point { x: x as usize, y: y as usize }) {
        acc.push(Point { x: x as usize, y: y as usize })
    } else {
        acc
    }
}

/// The cells two steps from `p` that lie inside the boundary of a grid
/// `width` by `height` and are not in `visited`, in the order `y + 2`,
/// `x + 2`, `y - 2`, `x - 2`.
pub open spec fn room_options(width: int, height: int, p: Point, visited: Set<Point>) -> Seq<
    Point,
> {
    let s0 = with_unvisited(width, height, Seq::empty(), visited, p.x as int, p.y + 2);
    let s1 = with_unvisited(width, height, s0, visited, p.x + 2, p.y as int);
    let s2 = with_unvisited(width, height, s1, visited, p.x as int, p.y - 2);
    with_unvisited(width, height, s2, visited, p.x - 2, p.y as int)
}

/// The cells two steps from `p` that lie inside the boundary of `m` and are
/// not in `visited`, in the order `y + 2`, `x + 2`, `y - 2`, `x - 2`.
pub open spec fn unvisited_neighbors(m: Maze, p: Point, visited: Set<Point>) -> Seq<Point> {
    room_options(m.width as int, m.height as int, p, visited)
}

/// The state of a carving: the cells opened so far, the rooms visited, and
/// the stack of rooms from the first to the one carving stands in.
pub struct Dig {
    pub open: Set<Point>,
    pub visited: Set<Point>,
    pub stack: Seq<Point>,
}

/// The carving before its first step: the room at (1, 1) is open, visited
/// and alone on the stack.
pub open spec fn dig_start() -> Dig {
    Dig {
        open: Set::<Point>::empty().insert(Point { x: 1, y: 1 }),
        visited: Set::<Point>::empty().insert(Point { x: 1, y: 1 }),
        stack: Seq::<Point>::empty().push(Point { x: 1, y: 1 }),
    }
}

/// One step of the carving, given the index `pick` drawn among the unvisited
/// neighbours of the room on top of the stack: with such neighbours the one
/// picked is opened together with the cell between, visited and pushed; with
/// none the top of the stack is dropped. An empty stack, or a pick that is
/// no index of a neighbour, leaves the carving as it is.
pub open spec fn dig_step(width: int, height: int, st: Dig, pick: int) -> Dig {
    if st.stack.len() == 0 {
        st
    } else {
        let current = st.stack.last();
        let options = room_options(width, height, current, st.visited);
        if options.len() == 0 {
            Dig { open: st.open, visited: st.visited, stack: st.stack.drop_last() }
        } else if 0 <= pick < options.len() {
            Dig {
                open: st.open.insert(midpoint(current, options[pick])).insert(options[pick]),
                visited: st.visited.insert(options[pick]),
                stack: st.stack.push(options[pick]),
            }
        } else {
            st
        }
    }
}

/// The carving after one step for each of `picks`, in order.
pub open spec fn dig_run(width: int, height: int, picks: Seq<int>) -> Dig
    decreases picks.len(),
{
    if picks.len() == 0 {
        dig_start()
    } else {
        dig_step(width, height, dig_run(width, height, picks.drop_last()), picks.last())
    }
}

/// `m` is the maze that depth-first carving leaves when it draws `picks`:
/// the carving has run until its stack was empty, and the open cells of `m`
/// are the cells it opened.
pub open spec fn carved_by(m: Maze, picks: Seq<int>) -> bool {
    &&& dig_run(m.width as int, m.height as int, picks).stack.len() == 0
    &&& open_cells(m) == dig_run(m.width as int, m.height as int, picks).open
}

/// The unvisited neighbours of a room are unvisited rooms two steps from it,
/// and every unvisited room two steps from it is among them.
pub proof fn lemma_unvisited_neighbors(m: Maze, p: Point, visited: Set<Point>)
    requires
        room(m, p),
    ensures
        forall|i: int|
            0 <= i < unvisited_neighbors(m, p, visited).len() ==> {
                let n = #[trigger] unvisited_neighbors(m, p, visited)[i];
                two_apart(p, n) && room(m, n) && !visited.contains(n)
            },
        forall|n: Point|
            two_apart(p, n) && room(m, n) && !visited.contains(n) ==> unvisited_neighbors(
                m,
                p,
                visited,
            ).len() > 0,
{
}

/// What holds while a maze is carved, with `visited` the rooms reached and
/// `stack` the rooms that may still have unvisited neighbours: every visited
/// cell is an open room; every open cell is connected to the start and is a
/// cell that carving may open; and a visited room that is not on the stack
/// has no unvisited room two steps away.
pub open spec fn carving(m: Maze, visited: Set<Point>, stack: Seq<Point>) -> bool {
    &&& visited.contains(m.start)
    &&& forall|p: Point| #[trigger] visited.contains(p) ==> room(m, p) && m.passable(p)
    &&& forall|p: Point| #[trigger] m.passable(p) ==> m.connected(m.start, p) && carvable(m, p)
    &&& forall|i: int| 0 <= i < stack.len() ==> visited.contains(#[trigger] stack[i])
    &&& forall|v: Point, n: Point|
        #[trigger] two_apart(v, n) && visited.contains(v) && !stack.contains(v) && room(m, n)
            ==> visited.contains(n)
}

/// The open cells of `m`.
pub open spec fn open_cells(m: Maze) -> Set<Point> {
    Set::new(|p: Point| m.passable(p))
}

/// The rooms of `m`.
pub open spec fn rooms_of(m: Maze) -> Set<Point> {
    Set::new(|p: Point| room(m, p))
}

/// The open cells form a tree over the visited rooms: every open room has
/// been visited, every open cell between two rooms lies between two visited
/// ones, and there is one such cell for every visited room but the first.
pub open spec fn branching(m: Maze, visited: Set<Point>) -> bool {
    &&& visited.finite()
    &&& open_cells(m).finite()
    &&& open_cells(m).len() + 1 == 2 * visited.len()
    &&& forall|p: Point| #[trigger] m.passable(p) && room(m, p) ==> visited.contains(p)
    &&& forall|p: Point|
        #[trigger] m.passable(p) && p.x % 2 == 0 ==> visited.contains(
            Point { x: (p.x - 1) as usize, y: p.y },
        ) && visited.contains(Point { x: (p.x + 1) as usize, y: p.y })
    &&& forall|p: Point|
        #[trigger] m.passable(p) && p.y % 2 == 0 ==> visited.contains(
            Point { x: p.x, y: (p.y - 1) as usize },
        ) && visited.contains(Point { x: p.x, y: (p.y + 1) as usize })
}

/// The cell between a room and an unvisited room two steps away is a wall,
/// and so is the unvisited room.
pub proof fn lemma_wall_between(m: Maze, visited: Set<Point>, current: Point, next: Point)
    requires
        branching(m, visited),
        room(m, current),
        two_apart(current, next),
        room(m, next),
        !visited.contains(next),
    ensures
        !m.passable(next),
        !m.passable(midpoint(current, next)),
        adjacent(current, midpoint(current, next)),
        adjacent(midpoint(current, next), next),
        midpoint(current, next) != next,
        midpoint(current, next) != current,
{
    let mid = midpoint(current, next);
    if m.passable(mid) {
        if current.y == next.y {
            assert(mid.x % 2 == 0);
            let left = Point { x: (mid.x - 1) as usize, y: mid.y };
            let right = Point { x: (mid.x + 1) as usize, y: mid.y };
            assert(visited.contains(left) && visited.contains(right));
            assert(left == next || right == next);
        } else {
            assert(mid.y % 2 == 0);
            let above = Point { x: mid.x, y: (mid.y - 1) as usize };
            let below = Point { x: mid.x, y: (mid.y + 1) as usize };
            assert(visited.contains(above) && visited.contains(below));
            assert(above == next || below == next);
        }
    }
}

/// Carving to an unvisited room adds two open cells and one visited room,
/// and keeps the open cells a tree over the visited rooms.
pub proof fn lemma_branch(
    m: Maze,
    wider: Maze,
    visited: Set<Point>,
    stack: Seq<Point>,
    current: Point,
    next: Point,
)
    requires
        m.shaped(),
        wider.shaped(),
        wider.width == m.width,
        wider.height == m.height,
        carving(m, visited, stack),
        branching(m, visited),
        visited.contains(current),
        two_apart(current, next),
        room(m, next),
        !visited.contains(next),
        forall|q: Point|
            wider.passable(q) <==> m.passable(q) || q == midpoint(current, next) || q == next,
    ensures
        branching(wider, visited.insert(next)),
{
    let mid = midpoint(current, next);
    assert(room(m, current));
    lemma_wall_between(m, visited, current, next);
    assert(open_cells(wider) =~= open_cells(m).insert(mid).insert(next));
    assert forall|p: Point| #[trigger] wider.passable(p) && p.x % 2 == 0 implies visited.insert(
        next,
    ).contains(Point { x: (p.x - 1) as usize, y: p.y }) && visited.insert(next).contains(
        Point { x: (p.x + 1) as usize, y: p.y },
    ) by {
        if p != mid {
            assert(m.passable(p));
        }
    }
    assert forall|p: Point| #[trigger] wider.passable(p) && p.y % 2 == 0 implies visited.insert(
        next,
    ).contains(Point { x: p.x, y: (p.y - 1) as usize }) && visited.insert(next).contains(
        Point { x: p.x, y: (p.y + 1) as usize },
    ) by {
        if p != mid {
            assert(m.passable(p));
        }
    }
    assert forall|p: Point| #[trigger] wider.passable(p) && room(wider, p) implies visited.insert(
        next,
    ).contains(p) by {
        if p != next {
            assert(m.passable(p));
        }
    }
}

/// Carving to an unvisited room keeps the paths between open cells single:
/// the wall cell opened touches the open cells in the room left alone, and
/// the room entered touches them in that wall cell alone.
pub proof fn lemma_carve_single_paths(
    m: Maze,
    wider: Maze,
    visited: Set<Point>,
    stack: Seq<Point>,
    current: Point,
    next: Point,
)
    requires
        m.shaped(),
        wider.shaped(),
        wider.width == m.width,
        wider.height == m.height,
        carving(m, visited, stack),
        branching(m, visited),
        single_paths(open_cells(m)),
        visited.contains(current),
        two_apart(current, next),
        room(m, next),
        !visited.contains(next),
        forall|q: Point|
            wider.passable(q) <==> m.passable(q) || q == midpoint(current, next) || q == next,
    ensures
        single_paths(open_cells(wider)),
{
    let mid = midpoint(current, next);
    let open = open_cells(m);
    let half = open.insert(mid);
    assert(room(m, current));
    assert(m.passable(current));
    lemma_wall_between(m, visited, current, next);
    assert forall|n: Point| #[trigger] adjacent(mid, n) && open.contains(n) implies n
        == current by {
        assert(m.passable(n));
        assert(carvable(m, n));
    }
    assert(hangs_on(open, mid, current));
    lemma_leaf_keeps_single_paths(open, mid, current);
    assert forall|n: Point| #[trigger] adjacent(next, n) && half.contains(n) implies n == mid by {
        if n != mid {
            assert(m.passable(n));
        }
    }
    assert(hangs_on(half, next, mid));
    lemma_leaf_keeps_single_paths(half, next, mid);
    assert(open_cells(wider) =~= half.insert(next));
}

/// What holds of a carving holds of every maze of the same size with the
/// same open cells.
pub proof fn lemma_same_cells(m: Maze, other: Maze, visited: Set<Point>, stack: Seq<Point>)
    requires
        other.width == m.width,
        other.height == m.height,
        other.start == m.start,
        forall|q: Point| other.passable(q) == m.passable(q),
        carving(m, visited, stack),
        branching(m, visited),
        single_paths(open_cells(m)),
    ensures
        carving(other, visited, stack),
        branching(other, visited),
        single_paths(open_cells(other)),
{
    assert(open_cells(other) =~= open_cells(m));
    assert forall|p: Point| #[trigger] other.passable(p) implies other.connected(other.start, p)
        && carvable(other, p) by {
        assert(m.passable(p));
        let t = choose|t: Seq<Point>| m.is_route(m.start, p, t);
        lemma_route_survives(m, other, m.start, p, t);
        assert(other.is_route(other.start, p, t));
    }
    assert forall|v: Point, n: Point|
        #[trigger] two_apart(v, n) && visited.contains(v) && !stack.contains(v) && room(
            other,
            n,
        ) implies visited.contains(n) by {
        assert(room(m, n));
    }
    assert forall|p: Point| #[trigger] visited.contains(p) implies room(other, p)
        && other.passable(p) by {
        assert(room(m, p));
    }
}

/// Carving from the room on top of the stack to an unvisited room two steps
/// away keeps what holds of the carving.
pub proof fn lemma_advance(
    m: Maze,
    wider: Maze,
    visited: Set<Point>,
    rest: Seq<Point>,
    current: Point,
    next: Point,
)
    requires
        m.shaped(),
        wider.shaped(),
        wider.width == m.width,
        wider.height == m.height,
        wider.start == m.start,
        carving(m, visited, rest.push(current)),
        two_apart(current, next),
        room(m, next),
        !visited.contains(next),
        forall|q: Point|
            wider.passable(q) <==> m.passable(q) || q == midpoint(current, next) || q == next,
    ensures
        carving(wider, visited.insert(next), rest.push(current).push(next)),
{
    let stack = rest.push(current);
    let grown = stack.push(next);
    let mid = midpoint(current, next);
    assert(stack[rest.len() as int] == current);
    assert(visited.contains(current));
    assert(m.passable(current));
    let s = choose|s: Seq<Point>| m.is_route(m.start, current, s);
    lemma_route_survives(m, wider, m.start, current, s);
    assert(adjacent(current, mid));
    assert(adjacent(mid, next));
    assert(wider.passable(mid));
    assert(wider.passable(next));
    lemma_route_extends(wider, m.start, current, mid, s);
    lemma_route_extends(wider, m.start, mid, next, s.push(mid));
    assert forall|p: Point| #[trigger] wider.passable(p) implies wider.connected(wider.start, p)
        && carvable(wider, p) by {
        if p == mid {
            assert(wider.is_route(wider.start, p, s.push(mid)));
        } else if p == next {
            assert(wider.is_route(wider.start, p, s.push(mid).push(next)));
        } else {
            assert(m.passable(p));
            let t = choose|t: Seq<Point>| m.is_route(m.start, p, t);
            lemma_route_survives(m, wider, m.start, p, t);
            assert(wider.is_route(wider.start, p, t));
        }
    }
    assert forall|i: int| 0 <= i < grown.len() implies visited.insert(next).contains(
        #[trigger] grown[i],
    ) by {
        if i < stack.len() {
            assert(grown[i] == stack[i]);
        }
    }
    assert forall|v: Point, n: Point|
        #[trigger] two_apart(v, n) && visited.insert(next).contains(v) && !grown.contains(v)
            && room(wider, n) implies visited.insert(next).contains(n) by {
        assert(grown[stack.len() as int] == next);
        if stack.contains(v) {
            let i = choose|i: int| 0 <= i < stack.len() && stack[i] == v;
            assert(grown[i] == v);
        }
        assert(room(m, n));
    }
    assert forall|p: Point| #[trigger] visited.insert(next).contains(p) implies room(wider, p)
        && wider.passable(p) by {
        if p != next {
            assert(room(m, p));
        }
    }
}

/// Dropping the room on top of the stack once it has no unvisited neighbour
/// keeps what holds of the carving.
pub proof fn lemma_retreat(m: Maze, visited: Set<Point>, rest: Seq<Point>, current: Point)
    requires
        carving(m, visited, rest.push(current)),
        unvisited_neighbors(m, current, visited).len() == 0,
    ensures
        carving(m, visited, rest),
{
    let stack = rest.push(current);
    assert(stack[rest.len() as int] == current);
    assert(room(m, current));
    lemma_unvisited_neighbors(m, current, visited);
    assert forall|i: int| 0 <= i < rest.len() implies visited.contains(#[trigger] rest[i]) by {
        assert(stack[i] == rest[i]);
    }
    assert forall|v: Point, n: Point|
        #[trigger] two_apart(v, n) && visited.contains(v) && !rest.contains(v) && room(
            m,
            n,
        ) implies visited.contains(n) by {
        if v != current {
            if stack.contains(v) {
                let i = choose|i: int| 0 <= i < stack.len() && stack[i] == v;
                assert(rest[i] == v);
            }
        }
    }
}

/// Once the stack is empty every room has been visited.
pub proof fn lemma_every_room(m: Maze, visited: Set<Point>, p: Point)
    requires
        carving(m, visited, Seq::<Point>::empty()),
        m.start == (Point { x: 1, y: 1 }),
        room(m, p),
    ensures
        visited.contains(p),
    decreases p.x + p.y,
{
    if p.x > 1 {
        let q = Point { x: (p.x - 2) as usize, y: p.y };
        lemma_every_room(m, visited, q);
        assert(two_apart(q, p));
    } else if p.y > 1 {
        let q = Point { x: p.x, y: (p.y - 2) as usize };
        lemma_every_room(m, visited, q);
        assert(two_apart(q, p));
    }
}

impl Maze {
    /// Generates a maze of the given size: `width` and `height` are odd and
    /// at least 5. The start is (1, 1) and the end (`width - 2`,
    /// `height - 2`). Which maze comes out is drawn at random; in every
    /// outcome each room is open, every open cell is connected to the start,
    /// the outer boundary and the cells at even coordinates on both axes
    /// stay walls, between the rooms just as many cells are open as a tree
    /// over the rooms has edges, one less than there are rooms, and between
    /// any two open cells there is only one path that visits no cell twice.
    /// The maze is one that depth-first carving leaves for some sequence of
    /// draws.
    pub fn new(width: usize, height: usize) -> (maze: Maze)
        requires
            width >= 5,
            height >= 5,
            width % 2 == 1,
            height % 2 == 1,
            width * height < usize::MAX,
        ensures
            maze.wf(),
            maze.width == width,
            maze.height == height,
            maze.start == (Point { x: 1, y: 1 }),
            maze.end == (Point { x: (width - 2) as usize, y: (height - 2) as usize }),
            forall|p: Point| maze.passable(p) ==> maze.connected(maze.start, p),
            forall|p: Point| room(maze, p) ==> maze.passable(p),
            forall|p: Point| maze.passable(p) ==> carvable(maze, p),
            open_cells(maze).finite(),
            rooms_of(maze).finite(),
            open_cells(maze).len() + 1 == 2 * rooms_of(maze).len(),
            single_paths(open_cells(maze)),
            exists|picks: Seq<int>| #[trigger] carved_by(maze, picks),
    {
        let mut grid: Vec<Vec<Cell>> = Vec::new();
        while grid.len() < height
            invariant
                grid@.len() <= height,
                forall|y: int|
                    0 <= y < grid@.len() ==> (#[trigger] grid@[y])@.len() == width && forall|
                        x: int,
                    |
                        0 <= x < width ==> grid@[y]@[x] == Cell::Wall,
            decreases height - grid@.len(),
        {
            let mut row: Vec<Cell> = Vec::new();
            while row.len() < width
                invariant
                    row@.len() <= width,
                    forall|x: int| 0 <= x < row@.len() ==> row@[x] == Cell::Wall,
                decreases width - row@.len(),
            {
                row.push(Cell::Wall);
            }
            grid.push(row);
        }
        let mut maze = Maze {
            grid,
            width,
            height,
            start: Point { x: 1, y: 1 },
            end: Point { x: width - 2, y: height - 2 },
        };
        maze.generate();
        maze
    }

    /// Carves the maze out of a grid of walls.
    fn generate(&mut self)
        requires
            old(self).shaped(),
            old(self).width >= 5,
            old(self).height >= 5,
            old(self).width % 2 == 1,
            old(self).height % 2 == 1,
            old(self).start == (Point { x: 1, y: 1 }),
            old(self).end == (Point {
                x: (old(self).width - 2) as usize,
                y: (old(self).height - 2) as usize,
            }),
            forall|p: Point| !old(self).passable(p),
        ensures
            final(self).wf(),
            final(self).width == old(self).width,
            final(self).height == old(self).height,
            final(self).start == old(self).start,
            final(self).end == old(self).end,
            forall|p: Point| final(self).passable(p) ==> final(self).connected(final(self).start, p),
            forall|p: Point| room(*final(self), p) ==> final(self).passable(p),
            forall|p: Point| final(self).passable(p) ==> carvable(*final(self), p),
            open_cells(*final(self)).finite(),
            rooms_of(*final(self)).finite(),
            open_cells(*final(self)).len() + 1 == 2 * rooms_of(*final(self)).len(),
            single_paths(open_cells(*final(self))),
            exists|picks: Seq<int>| #[trigger] carved_by(*final(self), picks),
    {
        let mut rng = rand::thread_rng();
        let mut stack: Vec<Point> = Vec::new();
        let mut visited = PointSet::new(self.width, self.height);
        let start = Point { x: 1, y: 1 };
        self.open_cell(start);
        visited.insert(start);
        stack.push(start);
        let ghost cells = (self.width * self.height) as nat;
        let ghost mut picks: Seq<int> = Seq::<int>::empty();
        proof {
            let route = Seq::<Point>::empty().push(start);
            assert(route[0] == start);
            assert(self.is_route(start, start, route));
            assert forall|v: Point| stack@.contains(v) implies v == start by {}
            assert(stack@.contains(start)) by {
                assert(stack@[0] == start);
            }
            assert(carving(*self, visited@, stack@));
            visited.lemma_members();
            assert(open_cells(*self) =~= Set::<Point>::empty().insert(start));
            assert(branching(*self, visited@));
            lemma_one_cell_has_single_paths(start);
        }
        while stack.len() > 0
            invariant
                self.shaped(),
                self.width == old(self).width,
                self.height == old(self).height,
                self.start == old(self).start,
                self.end == old(self).end,
                self.start == (Point { x: 1, y: 1 }),
                cells == self.width * self.height,
                visited.wf(),
                visited.cols() == self.width,
                visited.rows() == self.height,
                visited@.len() <= cells,
                carving(*self, visited@, stack@),
                branching(*self, visited@),
                single_paths(open_cells(*self)),
                dig_run(self.width as int, self.height as int, picks).open == open_cells(*self),
                dig_run(self.width as int, self.height as int, picks).visited == visited@,
                dig_run(self.width as int, self.height as int, picks).stack == stack@,
            decreases cells - visited@.len(), stack@.len(),
        {
            let ghost before = stack@;
            let ghost rest = stack@.drop_last();
            let ghost narrow = *self;
            let ghost reached = visited@;
            let current = stack[stack.len() - 1];
            proof {
                assert(before =~= rest.push(current));
                assert(visited@.contains(before[before.len() - 1]));
                assert(room(*self, current));
                lemma_unvisited_neighbors(*self, current, visited@);
                visited.lemma_members();
            }
            let neighbors = self.get_unvisited_neighbors(current, &visited);
            let pick = if neighbors.len() == 0 {
                0
            } else {
                draw_below(&mut rng, neighbors.len())
            };
            self.carve_step(&mut stack, &mut visited, &neighbors, pick);
            proof {
                let drawn = picks;
                picks = picks.push(pick as int);
                assert(picks.drop_last() =~= drawn);
                if neighbors@.len() > 0 {
                    let next = neighbors@[pick as int];
                    let mid = midpoint(current, next);
                    assert forall|q: Point|
                        self.passable(q) <==> narrow.passable(q) || q == mid || q == next by {
                        assert(open_cells(*self).contains(q) <==> open_cells(narrow).insert(
                            mid,
                        ).insert(next).contains(q));
                    }
                    lemma_carve_single_paths(narrow, *self, reached, before, current, next);
                    lemma_branch(narrow, *self, reached, before, current, next);
                    lemma_advance(narrow, *self, reached, rest, current, next);
                    visited.lemma_members();
                    assert(visited@.len() == reached.len() + 1);
                } else {
                    lemma_retreat(narrow, reached, rest, current);
                    assert(open_cells(*self) =~= open_cells(narrow));
                    assert forall|q: Point| self.passable(q) == narrow.passable(q) by {
                        assert(open_cells(*self).contains(q) == open_cells(narrow).contains(q));
                    }
                    lemma_same_cells(narrow, *self, visited@, stack@);
                }
            }
        }
        proof {
            assert(stack@ =~= Seq::<Point>::empty());
            assert forall|p: Point| room(*self, p) implies self.passable(p) by {
                lemma_every_room(*self, visited@, p);
            }
            assert(room(*self, self.end));
            assert(rooms_of(*self) =~= visited@);
        }
        let ghost carved = *self;
        let start = self.start;
        self.open_cell(start);
        let end = self.end;
        self.open_cell(end);
        proof {
            assert forall|p: Point| self.passable(p) implies self.connected(self.start, p) by {
                assert(carved.passable(p));
                let t = choose|t: Seq<Point>| carved.is_route(carved.start, p, t);
                lemma_route_survives(carved, *self, carved.start, p, t);
            }
            assert(open_cells(*self) =~= open_cells(carved));
            assert(rooms_of(*self) =~= rooms_of(carved));
            assert(carved_by(*self, picks));
        }
    }

    /// Takes one step of the carving: with options, opens `options[pick]`
    /// and the cell between it and the room on top of the stack, marks it
    /// visited and pushes it; with none, drops the top of the stack.
    pub fn carve_step(
        &mut self,
        stack: &mut Vec<Point>,
        visited: &mut PointSet,
        options: &Vec<Point>,
        pick: usize,
    )
        requires
            old(self).shaped(),
            old(visited).wf(),
            old(visited).cols() == old(self).width,
            old(visited).rows() == old(self).height,
            old(stack)@.len() > 0,
            old(self).contains(old(stack)@.last()),
            options@ == unvisited_neighbors(*old(self), old(stack)@.last(), old(visited)@),
            options@.len() > 0 ==> pick < options@.len(),
        ensures
            final(self).shaped(),
            final(self).width == old(self).width,
            final(self).height == old(self).height,
            final(self).start == old(self).start,
            final(self).end == old(self).end,
            final(visited).wf(),
            final(visited).cols() == old(visited).cols(),
            final(visited).rows() == old(visited).rows(),
            open_cells(*final(self)) == dig_step(
                old(self).width as int,
                old(self).height as int,
                Dig { open: open_cells(*old(self)), visited: old(visited)@, stack: old(stack)@ },
                pick as int,
            ).open,
            final(visited)@ == dig_step(
                old(self).width as int,
                old(self).height as int,
                Dig { open: open_cells(*old(self)), visited: old(visited)@, stack: old(stack)@ },
                pick as int,
            ).visited,
            final(stack)@ == dig_step(
                old(self).width as int,
                old(self).height as int,
                Dig { open: open_cells(*old(self)), visited: old(visited)@, stack: old(stack)@ },
                pick as int,
            ).stack,
    {
        if options.len() == 0 {
            stack.pop();
            proof {
                assert(open_cells(*self) =~= open_cells(*old(self)));
            }
        } else {
            let current = stack[stack.len() - 1];
            let next = options[pick];
            let ghost narrow = *self;
            proof {
                let w = self.width as int;
                let h = self.height as int;
                assert(within(w, h, next.x as int, next.y as int));
                assert(2 * w <= w * h && 2 * h <= w * h) by (nonlinear_arith)
                    requires
                        w >= 2,
                        h >= 2,
                ;
            }
            self.carve_passage(current, next);
            visited.insert(next);
            stack.push(next);
            proof {
                assert(open_cells(*self) =~= open_cells(narrow).insert(
                    midpoint(current, next),
                ).insert(next));
            }
        }
    }

    /// Whether (`x`, `y`) lies strictly inside the outer boundary.
    fn is_inside(&self, x: usize, y: usize) -> (within: bool)
        ensures
            within == inside(*self, x as int, y as int),
    {
        x > 0 && y > 0 && self.width > 0 && x < self.width - 1 && self.height > 0 && y
            < self.height - 1
    }

    /// The cells two steps from `point` that lie inside the boundary and are
    /// not in `visited`, at most four, in the order of `unvisited_neighbors`.
    pub fn get_unvisited_neighbors(&self, point: Point, visited: &PointSet) -> (found: Vec<Point>)
        requires
            visited.wf(),
        ensures
            found@ == unvisited_neighbors(*self, point, visited@),
    {
        let mut found: Vec<Point> = Vec::new();
        if point.y <= usize::MAX - 2 {
            let q = Point { x: point.x, y: point.y + 2 };
            if self.is_inside(q.x, q.y) && !visited.contains(q) {
                found.push(q);
            }
        }
        if point.x <= usize::MAX - 2 {
            let q = Point { x: point.x + 2, y: point.y };
            if self.is_inside(q.x, q.y) && !visited.contains(q) {
                found.push(q);
            }
        }
        if point.y >= 2 {
            let q = Point { x: point.x, y: point.y - 2 };
            if self.is_inside(q.x, q.y) && !visited.contains(q) {
                found.push(q);
            }
        }
        if point.x >= 2 {
            let q = Point { x: point.x - 2, y: point.y };
            if self.is_inside(q.x, q.y) && !visited.contains(q) {
                found.push(q);
            }
        }
        found
    }

    /// Opens `next` and the cell halfway between `current` and `next`, and
    /// leaves every other cell as it was.
    pub fn carve_passage(&mut self, current: Point, next: Point)
        requires
            old(self).shaped(),
            old(self).contains(current),
            old(self).contains(next),
            current.x + next.x <= usize::MAX,
            current.y + next.y <= usize::MAX,
        ensures
            final(self).shaped(),
            final(self).width == old(self).width,
            final(self).height == old(self).height,
            final(self).start == old(self).start,
            final(self).end == old(self).end,
            forall|q: Point|
                final(self).passable(q) <==> old(self).passable(q) || q == midpoint(current, next)
                    || q == next,
    {
        let wall_x = (current.x + next.x) / 2;
        let wall_y = (current.y + next.y) / 2;
        self.open_cell(Point { x: wall_x, y: wall_y });
        self.open_cell(next);
    }
}

} // verus!
