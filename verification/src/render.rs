//! What each cell of a solved maze shows.

use vstd::prelude::*;
use crate::grid::{Cell, Maze, Point};
use crate::point_set::PointSet;

verus! {

/// What a cell shows when a maze is drawn with a path.
#[derive(Debug, Clone, Copy, PartialEq, Eq, Structural)]
pub enum Tile {
    Start,
    End,
    OnPath,
    Wall,
    Open,
}

/// What the cell at `p` shows: the start and the end come first, then
/// whether the cell is on the path, then whether it is a wall.
pub open spec fn tile_of(m: Maze, path: Seq<Point>, p: Point) -> Tile {
    if p == m.start {
        Tile::Start
    } else if p == m.end {
        Tile::End
    } else if path.contains(p) {
        Tile::OnPath
    } else if m.passable(p) {
        Tile::Open
    } else {
        Tile::Wall
    }
}

/// The cells of `m` that are among the first `upto` cells of `path`.
pub open spec fn marked_cells(m: Maze, path: Seq<Point>, upto: int) -> Set<Point> {
    Set::new(|p: Point| m.contains(p) && path.take(upto).contains(p))
}

impl Maze {
    /// The tiles of the maze drawn with `path`, row by row.
    pub fn display_with_path(&self, path: &Vec<Point>) -> (rows: Vec<Vec<Tile>>)
        requires
            self.shaped(),
        ensures
            rows@.len() == self.height,
            forall|y: int| 0 <= y < self.height ==> (#[trigger] rows@[y])@.len() == self.width,
            forall|y: int, x: int|
                0 <= y < self.height && 0 <= x < self.width ==> #[trigger] rows@[y]@[x]
                    == tile_of(*self, path@, Point { x: x as usize, y: y as usize }),
    {
        let mut on_path = PointSet::new(self.width, self.height);
        let mut i: usize = 0;
        while i < path.len()
            invariant
                i <= path.len(),
                on_path.wf(),
                on_path.cols() == self.width,
                on_path.rows() == self.height,
                on_path@ == marked_cells(*self, path@, i as int),
            decreases path.len() - i,
        {
            let p = path[i];
            proof {
                assert(path@.take(i + 1) =~= path@.take(i as int).push(p));
                vstd::seq_lib::lemma_seq_contains_after_push(path@.take(i as int), p, p);
                assert forall|q: Point|
                    path@.take(i + 1).contains(q) <==> path@.take(i as int).contains(q) || q
                        == p by {
                    vstd::seq_lib::lemma_seq_contains_after_push(path@.take(i as int), p, q);
                }
            }
            if p.x < self.width && p.y < self.height {
                on_path.insert(p);
            }
            proof {
                assert(on_path@ =~= marked_cells(*self, path@, i + 1));
            }
            i = i + 1;
        }
        proof {
            assert(path@.take(path@.len() as int) =~= path@);
        }
        let mut rows: Vec<Vec<Tile>> = Vec::new();
        let mut y: usize = 0;
        while y < self.height
            invariant
                y <= self.height,
                self.shaped(),
                on_path.wf(),
                on_path@ == marked_cells(*self, path@, path@.len() as int),
                path@.take(path@.len() as int) == path@,
                rows@.len() == y,
                forall|r: int| 0 <= r < y ==> (#[trigger] rows@[r])@.len() == self.width,
                forall|r: int, x: int|
                    0 <= r < y && 0 <= x < self.width ==> #[trigger] rows@[r]@[x] == tile_of(
                        *self,
                        path@,
                        Point { x: x as usize, y: r as usize },
                    ),
            decreases self.height - y,
        {
            let mut row: Vec<Tile> = Vec::new();
            let mut x: usize = 0;
            while x < self.width
                invariant
                    x <= self.width,
                    y < self.height,
                    self.shaped(),
                    on_path.wf(),
                    on_path@ == marked_cells(*self, path@, path@.len() as int),
                    path@.take(path@.len() as int) == path@,
                    row@.len() == x,
                    forall|c: int|
                        0 <= c < x ==> #[trigger] row@[c] == tile_of(
                            *self,
                            path@,
                            Point { x: c as usize, y },
                        ),
                decreases self.width - x,
            {
                let point = Point { x, y };
                let tile = if point == self.start {
                    Tile::Start
                } else if point == self.end {
                    Tile::End
                } else if on_path.contains(point) {
                    Tile::OnPath
                } else {
                    match self.grid[y][x] {
                        Cell::Wall => Tile::Wall,
                        Cell::Path => Tile::Open,
                    }
                };
                row.push(tile);
                x = x + 1;
            }
            rows.push(row);
            y = y + 1;
        }
        rows
    }
}

} // verus!
