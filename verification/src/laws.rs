//! Laws that relate the strategies to one another and to themselves.

use vstd::prelude::*;
use crate::algorithms::astar::{
    astar_explored, astar_path, cheapest_upto, kickoff, lemma_astar_path,
};
use crate::algorithms::bfs::{bfs_explored, bfs_path, lemma_bfs_path};
use crate::algorithms::custom::{
    follow_budget, follow_outcome, lemma_follow_run, setting_out, treading,
};
use crate::algorithms::dfs::{dfs_explored, dfs_path, lemma_dfs_path};
use crate::algorithms::random::{roaming, Trek};
use crate::algorithms::dijkstra::{
    before, dijkstra_explored, dijkstra_path, lemma_dijkstra_path, lemma_opening,
    lemma_scan_rows, opening, scan_rows,
};
use crate::grid::{Maze, Point};
use crate::search::initial;
use crate::solution::Solution;

verus! {

/// Whatever route from start to end another strategy returns, breadth-first
/// search finds a path too, and its path is no longer.
pub proof fn lemma_bfs_never_longer(m: Maze, other: Seq<Point>)
    requires
        m.wf(),
        m.is_route(m.start, m.end, other),
    ensures
        0 < bfs_path(m).len() <= other.len(),
{
    lemma_bfs_path(m);
}

/// When depth-first search finds a path, breadth-first search finds one that
/// is no longer.
pub proof fn lemma_bfs_no_longer_than_dfs(m: Maze)
    requires
        m.wf(),
        dfs_path(m).len() > 0,
    ensures
        0 < bfs_path(m).len() <= dfs_path(m).len(),
{
    lemma_dfs_path(m);
    lemma_bfs_path(m);
}

/// When best-first search finds a path, breadth-first search finds one that
/// is no longer.
pub proof fn lemma_bfs_no_longer_than_astar(m: Maze)
    requires
        m.wf(),
        astar_path(m).len() > 0,
    ensures
        0 < bfs_path(m).len() <= astar_path(m).len(),
{
    lemma_astar_path(m);
    lemma_bfs_path(m);
}

/// When a wall follower ends on the end, breadth-first search finds a path
/// that is no longer than the follower's.
pub proof fn lemma_bfs_no_longer_than_follower(m: Maze)
    requires
        m.wf(),
        follow_outcome(m).at == m.end,
    ensures
        0 < bfs_path(m).len() <= follow_outcome(m).path.len(),
{
    lemma_follow_within_budget(m);
    lemma_bfs_path(m);
    assert(m.is_route(m.start, m.end, follow_outcome(m).path));
}

/// When a random walk stands on the end, breadth-first search finds a path
/// that is no longer than the walk's.
pub proof fn lemma_bfs_no_longer_than_walk(m: Maze, walk: Trek)
    requires
        m.wf(),
        roaming(m, walk),
        walk.path.last() == m.end,
    ensures
        0 < bfs_path(m).len() <= walk.path.len(),
{
    lemma_bfs_path(m);
    assert(m.is_route(m.start, m.end, walk.path));
}

/// In a maze whose open cells are all connected to the start, as generation
/// leaves them, each of the four tree searches finds a route to the end.
pub proof fn lemma_connected_maze_is_solved(m: Maze)
    requires
        m.wf(),
        forall|p: Point| m.passable(p) ==> m.connected(m.start, p),
    ensures
        m.is_route(m.start, m.end, bfs_path(m)),
        m.is_route(m.start, m.end, dfs_path(m)),
        m.is_route(m.start, m.end, astar_path(m)),
        m.is_route(m.start, m.end, dijkstra_path(m)),
{
    assert(m.passable(m.end));
    lemma_bfs_path(m);
    lemma_dfs_path(m);
    lemma_astar_path(m);
    lemma_dijkstra_path(m);
}

/// Where the start is the end, each of the four tree searches and the wall
/// follower return the start alone, with one cell explored.
pub proof fn lemma_start_on_end(m: Maze)
    requires
        m.wf(),
        m.start == m.end,
    ensures
        bfs_path(m) == seq![m.start],
        bfs_explored(m) == 1,
        dfs_path(m) == seq![m.start],
        dfs_explored(m) == 1,
        astar_path(m) == seq![m.start],
        astar_explored(m) == 1,
        dijkstra_path(m) == seq![m.start],
        dijkstra_explored(m) == 1,
        follow_outcome(m).path == seq![m.start],
        follow_outcome(m).explored == 1,
{
    let cells = m.width * m.height;
    assert(cells >= 1 && cells * cells >= 1) by (nonlinear_arith)
        requires
            cells == m.width * m.height,
            m.width >= 1,
            m.height >= 1,
    ;
    assert(initial(m).pending[0] == m.start);
    assert(kickoff(m).open[0] == m.start);
    assert(cheapest_upto(kickoff(m).open, kickoff(m).f, 1) == 0);
    lemma_opening(m);
    let st = opening(m);
    assert(st.unvisited.contains(m.end));
    lemma_scan_rows(st.unvisited, st.dist, m.width as nat, m.height as nat);
    assert(before(m.start, 0, m.height as int));
    assert(scan_rows(st.unvisited, st.dist, m.width as nat, m.height as nat) == Some(m.start));
}

/// Breadth-first and uniform-cost search find paths of the same length: both
/// find a shortest route, or both find none.
pub proof fn lemma_bfs_matches_dijkstra(m: Maze)
    requires
        m.wf(),
    ensures
        bfs_path(m).len() == dijkstra_path(m).len(),
{
    lemma_bfs_path(m);
    lemma_dijkstra_path(m);
}

/// Two records that breadth-first search returns for one maze agree in path,
/// path length and cells explored.
pub proof fn lemma_bfs_repeatable(m: Maze, a: Solution, b: Solution)
    requires
        a.path@ == bfs_path(m),
        a.path_length == a.path@.len(),
        a.nodes_explored == bfs_explored(m),
        b.path@ == bfs_path(m),
        b.path_length == b.path@.len(),
        b.nodes_explored == bfs_explored(m),
    ensures
        a.path@ == b.path@,
        a.path_length == b.path_length,
        a.nodes_explored == b.nodes_explored,
{
}

/// Two records that depth-first search returns for one maze agree in path,
/// path length and cells explored.
pub proof fn lemma_dfs_repeatable(m: Maze, a: Solution, b: Solution)
    requires
        a.path@ == dfs_path(m),
        a.path_length == a.path@.len(),
        a.nodes_explored == dfs_explored(m),
        b.path@ == dfs_path(m),
        b.path_length == b.path@.len(),
        b.nodes_explored == dfs_explored(m),
    ensures
        a.path@ == b.path@,
        a.path_length == b.path_length,
        a.nodes_explored == b.nodes_explored,
{
}

/// Two records that best-first search returns for one maze agree in path,
/// path length and cells explored.
pub proof fn lemma_astar_repeatable(m: Maze, a: Solution, b: Solution)
    requires
        a.path@ == astar_path(m),
        a.path_length == a.path@.len(),
        a.nodes_explored == astar_explored(m),
        b.path@ == astar_path(m),
        b.path_length == b.path@.len(),
        b.nodes_explored == astar_explored(m),
    ensures
        a.path@ == b.path@,
        a.path_length == b.path_length,
        a.nodes_explored == b.nodes_explored,
{
}

/// Two records that uniform-cost search returns for one maze agree in path,
/// path length and cells explored.
pub proof fn lemma_dijkstra_repeatable(m: Maze, a: Solution, b: Solution)
    requires
        a.path@ == dijkstra_path(m),
        a.path_length == a.path@.len(),
        a.nodes_explored == dijkstra_explored(m),
        b.path@ == dijkstra_path(m),
        b.path_length == b.path@.len(),
        b.nodes_explored == dijkstra_explored(m),
    ensures
        a.path@ == b.path@,
        a.path_length == b.path_length,
        a.nodes_explored == b.nodes_explored,
{
}

/// A wall follower never takes more steps than its budget of four per cell;
/// it stops short of the budget only on the end, and what it leaves is a
/// walk from the start.
pub proof fn lemma_follow_within_budget(m: Maze)
    requires
        m.wf(),
    ensures
        follow_outcome(m).steps <= follow_budget(m),
        follow_outcome(m).at == m.end || follow_outcome(m).steps == follow_budget(m),
        treading(m, follow_outcome(m)),
{
    let st = setting_out(m);
    assert(st.path[0] == m.start);
    assert(st.seen =~= st.path.to_set()) by {
        assert forall|p: Point| st.path.contains(p) implies p == m.start by {}
        assert(st.path.contains(m.start));
    }
    lemma_follow_run(m, st, follow_budget(m));
}

} // verus!
