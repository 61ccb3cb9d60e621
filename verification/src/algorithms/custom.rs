//! Wall following by the right-hand rule: turn right where that cell is
//! open, else go straight where that cell is open, else turn left on the
//! spot.

use std::time::Instant;
use vstd::prelude::*;
use vstd::seq_lib::lemma_seq_contains_after_push;
use crate::grid::{adjacent, hops, Maze, Point};
use crate::point_set::PointSet;
use crate::solution::Solution;

verus! {

/// The state of a wall follower: the cell it stands on, the direction it
/// faces (0 up, towards `y - 1`; 1 right, towards `x + 1`; 2 down, towards
/// `y + 1`; 3 left, towards `x - 1`), every cell it has stood on in order,
/// the set of those cells, their number, and the number of steps taken.
pub struct Walker {
    pub at: Point,
    pub facing: usize,
    pub path: Seq<Point>,
    pub seen: Set<Point>,
    pub explored: nat,
    pub steps: nat,
}

/// The cell one step from `p` in direction `d`; stepping below 0 gives
/// `usize::MAX`, which no grid contains. There is no cell for a direction
/// above 3.
pub open spec fn toward(p: Point, d: usize) -> Option<Point> {
    if d == 0 {
        Some(
            Point {
                x: p.x,
                y: if p.y == 0 {
                    usize::MAX
                } else {
                    (p.y - 1) as usize
                },
            },
        )
    } else if d == 1 {
        Some(Point { x: (p.x + 1) as usize, y: p.y })
    } else if d == 2 {
        Some(Point { x: p.x, y: (p.y + 1) as usize })
    } else if d == 3 {
        Some(
            Point {
                x: if p.x == 0 {
                    usize::MAX
                } else {
                    (p.x - 1) as usize
                },
                y: p.y,
            },
        )
    } else {
        None
    }
}

/// The cell one step from `point` in `direction`, as `toward` defines it.
pub fn get_neighbor_in_direction(point: Point, direction: usize) -> (next: Option<Point>)
    requires
        direction == 1 ==> point.x < usize::MAX,
        direction == 2 ==> point.y < usize::MAX,
    ensures
        next == toward(point, direction),
{
    if direction == 0 {
        let y = if point.y == 0 {
            usize::MAX
        } else {
            point.y - 1
        };
        Some(Point { x: point.x, y })
    } else if direction == 1 {
        Some(Point { x: point.x + 1, y: point.y })
    } else if direction == 2 {
        Some(Point { x: point.x, y: point.y + 1 })
    } else if direction == 3 {
        let x = if point.x == 0 {
            usize::MAX
        } else {
            point.x - 1
        };
        Some(Point { x, y: point.y })
    } else {
        None
    }
}

/// Whether `point` lies inside the grid and is a path cell.
pub fn is_valid_path(maze: &Maze, point: Point) -> (open: bool)
    requires
        maze.shaped(),
    ensures
        open == maze.passable(point),
{
    maze.is_path(point)
}

/// There is a cell one step from `p` in direction `d`, and it is passable.
pub open spec fn can_enter(m: Maze, p: Point, d: usize) -> bool {
    toward(p, d) matches Some(q) && m.passable(q)
}

/// The follower after it has moved to `to`, now facing `facing`.
pub open spec fn moved(st: Walker, to: Point, facing: usize) -> Walker {
    Walker {
        at: to,
        facing,
        path: st.path.push(to),
        seen: st.seen.insert(to),
        explored: if st.seen.contains(to) {
            st.explored
        } else {
            st.explored + 1
        },
        steps: st.steps + 1,
    }
}

/// One step of the right-hand rule.
pub open spec fn follow_step(m: Maze, st: Walker) -> Walker {
    let right = ((st.facing + 1) % 4) as usize;
    let left = ((st.facing + 3) % 4) as usize;
    if can_enter(m, st.at, right) {
        moved(st, toward(st.at, right).unwrap(), right)
    } else if can_enter(m, st.at, st.facing) {
        moved(st, toward(st.at, st.facing).unwrap(), st.facing)
    } else {
        Walker {
            at: st.at,
            facing: left,
            path: st.path,
            seen: st.seen,
            explored: st.explored,
            steps: st.steps + 1,
        }
    }
}

/// The follower when it stops: on the end, or with `budget` steps taken.
pub open spec fn follow_run(m: Maze, st: Walker, budget: nat) -> Walker
    decreases budget - st.steps,
{
    if st.at == m.end || st.steps >= budget {
        st
    } else {
        follow_run(m, follow_step(m, st), budget)
    }
}

/// The follower before its first step: on the start, facing direction 1.
pub open spec fn setting_out(m: Maze) -> Walker {
    Walker {
        at: m.start,
        facing: 1,
        path: Seq::<Point>::empty().push(m.start),
        seen: Set::<Point>::empty().insert(m.start),
        explored: 1,
        steps: 0,
    }
}

/// The number of steps a follower may take in `m`: four per cell.
pub open spec fn follow_budget(m: Maze) -> nat {
    (m.width * m.height * 4) as nat
}

/// The follower that `custom_solve` ends with on `m`.
pub open spec fn follow_outcome(m: Maze) -> Walker {
    follow_run(m, setting_out(m), follow_budget(m))
}

/// What holds of a follower after any number of steps: its path is a walk
/// from the start to where it stands, the cells seen are the cells of the
/// path, and the path has at most one cell more than steps were taken.
pub open spec fn treading(m: Maze, st: Walker) -> bool {
    &&& st.path.len() > 0
    &&& st.path[0] == m.start
    &&& st.path.last() == st.at
    &&& m.is_walk(st.path)
    &&& st.facing < 4
    &&& st.seen.finite()
    &&& st.seen == st.path.to_set()
    &&& st.explored == st.seen.len()
    &&& st.path.len() <= st.steps + 1
}

/// A step of the right-hand rule keeps what holds of a follower.
pub proof fn lemma_follow_step(m: Maze, st: Walker)
    requires
        m.shaped(),
        treading(m, st),
    ensures
        treading(m, follow_step(m, st)),
        follow_step(m, st).steps == st.steps + 1,
{
    broadcast use lemma_seq_contains_after_push;

    let right = ((st.facing + 1) % 4) as usize;
    let next = follow_step(m, st);
    if can_enter(m, st.at, right) || can_enter(m, st.at, st.facing) {
        let to = next.at;
        assert(m.passable(st.at));
        assert(adjacent(st.at, to));
        assert(next.path == st.path.push(to));
        assert forall|i: int| 0 <= i < next.path.len() implies m.passable(#[trigger] next.path[i]) by {
            if i < st.path.len() {
                assert(next.path[i] == st.path[i]);
            }
        }
        assert forall|i: int| 0 <= i < next.path.len() - 1 implies #[trigger] hops(next.path, i) by {
            if i < st.path.len() - 1 {
                assert(hops(st.path, i));
                assert(next.path[i] == st.path[i]);
                assert(next.path[i + 1] == st.path[i + 1]);
            } else {
                assert(next.path[i] == st.at);
            }
        }
        assert(next.seen =~= next.path.to_set());
    }
}

/// A follower never takes more steps than its budget, and stops short of
/// the budget only on the end.
pub proof fn lemma_follow_run(m: Maze, st: Walker, budget: nat)
    requires
        m.shaped(),
        treading(m, st),
        st.steps <= budget,
    ensures
        treading(m, follow_run(m, st, budget)),
        follow_run(m, st, budget).steps <= budget,
        follow_run(m, st, budget).at == m.end || follow_run(m, st, budget).steps == budget,
    decreases budget - st.steps,
{
    if !(st.at == m.end || st.steps >= budget) {
        lemma_follow_step(m, st);
        lemma_follow_run(m, follow_step(m, st), budget);
    }
}

/// The walk itself: every cell stood on, in order, and the number of
/// distinct cells among them.
fn follow(maze: &Maze) -> (found: (Vec<Point>, usize))
    requires
        maze.wf(),
        maze.width * maze.height * 4 <= usize::MAX,
    ensures
        found.0@ == follow_outcome(*maze).path,
        found.1 == follow_outcome(*maze).explored,
        treading(*maze, follow_outcome(*maze)),
        follow_outcome(*maze).steps <= follow_budget(*maze),
        follow_outcome(*maze).at == maze.end || follow_outcome(*maze).steps == follow_budget(
            *maze,
        ),
{
    let mut path: Vec<Point> = Vec::new();
    path.push(maze.start);
    let mut visited = PointSet::new(maze.width, maze.height);
    visited.insert(maze.start);
    let mut nodes_explored: usize = 1;
    let mut direction: usize = 1;
    let mut current = maze.start;
    let max_iterations = maze.width * maze.height * 4;
    let mut iterations: usize = 0;
    proof {
        let st = setting_out(*maze);
        assert(st.path[0] == maze.start);
        assert(st.seen =~= st.path.to_set()) by {
            assert forall|p: Point| st.path.contains(p) implies p == maze.start by {}
            assert(st.path.contains(maze.start));
        }
        assert(treading(*maze, st));
    }
    while current != maze.end && iterations < max_iterations
        invariant
            maze.wf(),
            max_iterations == follow_budget(*maze),
            visited.wf(),
            visited.cols() == maze.width,
            visited.rows() == maze.height,
            iterations <= max_iterations,
            treading(
                *maze,
                Walker {
                    at: current,
                    facing: direction,
                    path: path@,
                    seen: visited@,
                    explored: nodes_explored as nat,
                    steps: iterations as nat,
                },
            ),
            follow_outcome(*maze) == follow_run(
                *maze,
                Walker {
                    at: current,
                    facing: direction,
                    path: path@,
                    seen: visited@,
                    explored: nodes_explored as nat,
                    steps: iterations as nat,
                },
                follow_budget(*maze),
            ),
        decreases max_iterations - iterations,
    {
        let ghost st = Walker {
            at: current,
            facing: direction,
            path: path@,
            seen: visited@,
            explored: nodes_explored as nat,
            steps: iterations as nat,
        };
        proof {
            lemma_follow_step(*maze, st);
            visited.lemma_members();
            assert(maze.passable(current));
        }
        iterations = iterations + 1;
        let right_dir = (direction + 1) % 4;
        let front_dir = direction;
        let left_dir = (direction + 3) % 4;
        let right_neighbor = get_neighbor_in_direction(current, right_dir);
        let has_right_wall = right_neighbor.is_none() || !is_valid_path(
            maze,
            right_neighbor.unwrap(),
        );
        let front_neighbor = get_neighbor_in_direction(current, front_dir);
        let can_go_front = front_neighbor.is_some() && is_valid_path(
            maze,
            front_neighbor.unwrap(),
        );
        if !has_right_wall {
            direction = right_dir;
            current = right_neighbor.unwrap();
            if !visited.contains(current) {
                visited.insert(current);
                proof {
                    visited.lemma_members();
                }
                nodes_explored = nodes_explored + 1;
            } else {
                assert(visited@.insert(current) =~= visited@);
            }
            path.push(current);
        } else if can_go_front {
            current = front_neighbor.unwrap();
            if !visited.contains(current) {
                visited.insert(current);
                proof {
                    visited.lemma_members();
                }
                nodes_explored = nodes_explored + 1;
            } else {
                assert(visited@.insert(current) =~= visited@);
            }
            path.push(current);
        } else {
            direction = left_dir;
        }
    }
    proof {
        lemma_follow_run(*maze, setting_out(*maze), follow_budget(*maze));
    }
    (path, nodes_explored)
}

/// Solves the maze by following the wall on the right. The path returned is
/// every cell the follower stood on, in order: a walk from the start that
/// ends on the end unless the budget of four steps per cell ran out first.
/// `nodes_explored` counts the distinct cells of the path.
pub fn custom_solve(maze: &Maze) -> (sol: Solution)
    requires
        maze.wf(),
        maze.width * maze.height * 4 <= usize::MAX,
    ensures
        sol.algorithm@ == "Wall-Following"@,
        sol.path@ == follow_outcome(*maze).path,
        sol.path_length == sol.path@.len(),
        sol.nodes_explored == sol.path@.to_set().len(),
        sol.path@.len() > 0,
        sol.path@[0] == maze.start,
        maze.is_walk(sol.path@),
        follow_outcome(*maze).steps <= follow_budget(*maze),
        sol.path@.len() <= follow_outcome(*maze).steps + 1,
        sol.path@.last() == maze.end || follow_outcome(*maze).steps == follow_budget(*maze),
{
    let start_time = Instant::now();
    let (path, nodes_explored) = follow(maze);
    let path_length = path.len();
    Solution {
        algorithm: "Wall-Following".to_string(),
        path,
        path_length,
        nodes_explored,
        time_taken: start_time.elapsed().as_micros(),
    }
}

} // verus!
