//! Depth-first search: waiting cells are expanded last in, first out.

use std::collections::VecDeque;
use std::time::Instant;
use vstd::prelude::*;
use crate::grid::{adjacent, lemma_neighbors, Maze, Point};
use crate::point_map::PointMap;
use crate::point_set::PointSet;
use crate::search::{
    discover, expand, expand_rank, finds_route, initial, lemma_expand, lemma_initial,
    lemma_linked_reachable, lemma_release, lemma_seen_bound, lemma_subset_of_reach, lemma_swept,
    lemma_take_last, lemma_trail_route, reachable, reconstruct, steady, trail, within_reach,
    Sweep,
};
use crate::solution::Solution;

verus! {

/// The path and the number of expanded cells that a depth-first sweep ends
/// with when it continues from `st` for at most `fuel` expansions: the last
/// waiting cell is taken; if it is the end, the trail to it is the path;
/// otherwise its neighbours are looked at and the sweep goes on. With
/// nothing waiting there is no path.
pub open spec fn dfs_run(m: Maze, st: Sweep, fuel: nat) -> (Seq<Point>, nat)
    decreases fuel,
{
    if fuel == 0 || st.pending.len() == 0 {
        (Seq::<Point>::empty(), st.explored)
    } else {
        let cur = st.pending.last();
        let taken = Sweep {
            pending: st.pending.drop_last(),
            seen: st.seen,
            parent: st.parent,
            explored: st.explored + 1,
        };
        if cur == m.end {
            (trail(st.parent, m.start, cur, (m.width * m.height) as nat), taken.explored)
        } else {
            dfs_run(
                m,
                expand(taken, cur, m.neighbors(cur), m.neighbors(cur).len()),
                (fuel - 1) as nat,
            )
        }
    }
}

/// The path that depth-first search returns on `m`.
pub open spec fn dfs_path(m: Maze) -> Seq<Point> {
    dfs_run(m, initial(m), (m.width * m.height) as nat).0
}

/// The number of cells that depth-first search expands on `m`.
pub open spec fn dfs_explored(m: Maze) -> nat {
    dfs_run(m, initial(m), (m.width * m.height) as nat).1
}

/// A steady depth-first sweep with fuel for every cell not yet expanded ends
/// with a route, or with no path when there is none.
pub proof fn lemma_dfs_run(m: Maze, st: Sweep, rank: Map<Point, nat>, fuel: nat)
    requires
        m.wf(),
        steady(m, st, rank, None),
        fuel + st.explored >= m.width * m.height,
    ensures
        finds_route(m, dfs_run(m, st, fuel).0),
        dfs_run(m, st, fuel).0.len() <= dfs_run(m, st, fuel).1 <= m.width * m.height,
        within_reach(m, dfs_run(m, st, fuel).0, dfs_run(m, st, fuel).1),
    decreases fuel,
{
    lemma_seen_bound(m, st, rank, None);
    lemma_linked_reachable(m, st.parent, rank);
    lemma_subset_of_reach(m, st.seen);
    if st.pending.len() == 0 {
        if m.connected(m.start, m.end) {
            let s = choose|s: Seq<Point>| m.is_route(m.start, m.end, s);
            lemma_swept(m, st, rank, s, s.len() - 1);
            let k = choose|k: int| 0 <= k < st.pending.len() && st.pending[k] == m.end;
            assert(false);
        }
        assert forall|p: Point| reachable(m).contains(p) implies st.seen.contains(p) by {
            let s = choose|s: Seq<Point>| m.is_route(m.start, p, s);
            lemma_swept(m, st, rank, s, s.len() - 1);
        }
        assert(st.seen =~= reachable(m));
    } else {
        let cur = st.pending.last();
        let taken = Sweep {
            pending: st.pending.drop_last(),
            seen: st.seen,
            parent: st.parent,
            explored: st.explored + 1,
        };
        lemma_take_last(m, st, rank);
        if cur == m.end {
            lemma_trail_route(m, st.parent, rank, cur, (m.width * m.height) as nat);
        } else {
            let nbrs = m.neighbors(cur);
            let after = expand(taken, cur, nbrs, nbrs.len());
            let ranked = expand_rank(taken, rank, cur, nbrs, nbrs.len());
            lemma_expand(m, taken, rank, cur, nbrs.len());
            lemma_neighbors(m, cur);
            assert forall|n: Point| adjacent(cur, n) && m.passable(
                n,
            ) implies after.seen.contains(n) by {
                let j = choose|j: int| 0 <= j < nbrs.len() && nbrs[j] == n;
                assert(after.seen.contains(nbrs[j]));
            }
            lemma_release(m, after, ranked, cur);
            lemma_dfs_run(m, after, ranked, (fuel - 1) as nat);
        }
    }
}

/// On a well-formed maze the depth-first path is empty exactly when the end
/// cannot be reached, and otherwise a route from start to end; the cells
/// expanded are at least as many as the path has, and no more than the grid
/// has.
pub proof fn lemma_dfs_path(m: Maze)
    requires
        m.wf(),
    ensures
        finds_route(m, dfs_path(m)),
        dfs_path(m).len() <= dfs_explored(m) <= m.width * m.height,
        within_reach(m, dfs_path(m), dfs_explored(m)),
{
    lemma_initial(m);
    lemma_dfs_run(
        m,
        initial(m),
        Map::<Point, nat>::empty().insert(m.start, 0nat),
        (m.width * m.height) as nat,
    );
}

/// The sweep itself: the path found and the number of cells expanded.
fn dfs_search(maze: &Maze) -> (found: (Vec<Point>, usize))
    requires
        maze.wf(),
    ensures
        found.0@ == dfs_path(*maze),
        found.1 == dfs_explored(*maze),
        found.0@.len() > 0 <==> maze.connected(maze.start, maze.end),
        found.0@.len() > 0 ==> maze.is_route(maze.start, maze.end, found.0@),
        found.0@.len() <= found.1 <= maze.width * maze.height,
{
    let mut stack: VecDeque<Point> = VecDeque::new();
    let mut seen = PointSet::new(maze.width, maze.height);
    let mut parent: PointMap<Point> = PointMap::new(maze.width, maze.height);
    let mut explored: usize = 0;
    let ghost mut rank: Map<Point, nat> = Map::<Point, nat>::empty().insert(maze.start, 0nat);
    let ghost cells = (maze.width * maze.height) as nat;
    stack.push_back(maze.start);
    seen.insert(maze.start);
    proof {
        let st = Sweep { pending: stack@, seen: seen@, parent: parent@, explored: 0 };
        assert(st == initial(*maze));
        assert(st.pending[0] == maze.start);
        assert forall|v: Point| st.pending.contains(v) implies v == maze.start by {}
        assert(st.pending.contains(maze.start));
        assert(steady(*maze, st, rank, None));
    }
    while stack.len() > 0
        invariant
            maze.wf(),
            cells == maze.width * maze.height,
            seen.wf(),
            seen.cols() == maze.width,
            seen.rows() == maze.height,
            parent.wf(),
            parent.cols() == maze.width,
            parent.rows() == maze.height,
            steady(
                *maze,
                Sweep { pending: stack@, seen: seen@, parent: parent@, explored: explored as nat },
                rank,
                None,
            ),
            explored <= cells,
            dfs_run(*maze, initial(*maze), cells) == dfs_run(
                *maze,
                Sweep { pending: stack@, seen: seen@, parent: parent@, explored: explored as nat },
                (cells - explored) as nat,
            ),
        decreases cells - explored,
    {
        let ghost st = Sweep {
            pending: stack@,
            seen: seen@,
            parent: parent@,
            explored: explored as nat,
        };
        proof {
            lemma_take_last(*maze, st, rank);
            seen.lemma_members();
        }
        let cur = stack.pop_back().unwrap();
        explored = explored + 1;
        proof {
            assert(stack@ == st.pending.drop_last());
        }
        if cur == maze.end {
            let path = reconstruct(maze, &parent, cur, Ghost(rank));
            proof {
                lemma_trail_route(*maze, parent@, rank, cur, cells);
            }
            return (path, explored);
        }
        let ranked = discover(
            maze,
            cur,
            &mut stack,
            &mut seen,
            &mut parent,
            Ghost(explored as nat),
            Ghost(rank),
        );
        proof {
            rank = ranked@;
            let after = Sweep {
                pending: stack@,
                seen: seen@,
                parent: parent@,
                explored: explored as nat,
            };
            lemma_release(*maze, after, rank, cur);
            seen.lemma_members();
        }
    }
    proof {
        let st = Sweep { pending: stack@, seen: seen@, parent: parent@, explored: explored as nat };
        if maze.connected(maze.start, maze.end) {
            let s = choose|s: Seq<Point>| maze.is_route(maze.start, maze.end, s);
            lemma_swept(*maze, st, rank, s, s.len() - 1);
            let k = choose|k: int| 0 <= k < st.pending.len() && st.pending[k] == maze.end;
            assert(false);
        }
    }
    (Vec::new(), explored)
}

/// Solves the maze depth first. The path returned is a route from start to
/// end, not necessarily a shortest one, or empty when the end cannot be
/// reached.
pub fn dfs_solve(maze: &Maze) -> (sol: Solution)
    requires
        maze.wf(),
    ensures
        sol.algorithm@ == "DFS"@,
        sol.path@ == dfs_path(*maze),
        sol.path_length == sol.path@.len(),
        sol.nodes_explored == dfs_explored(*maze),
        sol.path@.len() > 0 <==> maze.connected(maze.start, maze.end),
        sol.path@.len() > 0 ==> maze.is_route(maze.start, maze.end, sol.path@),
        sol.path_length <= sol.nodes_explored <= maze.width * maze.height,
        sol.path@.no_duplicates(),
        sol.nodes_explored <= reachable(*maze).len(),
        !maze.connected(maze.start, maze.end) ==> sol.nodes_explored == reachable(*maze).len(),
{
    let start_time = Instant::now();
    let (path, nodes_explored) = dfs_search(maze);
    proof {
        lemma_dfs_path(*maze);
    }
    let path_length = path.len();
    Solution {
        algorithm: "DFS".to_string(),
        path,
        path_length,
        nodes_explored,
        time_taken: start_time.elapsed().as_micros(),
    }
}

} // verus!
