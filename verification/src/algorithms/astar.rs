//! Best-first search guided by the Manhattan distance to the end: of the
//! cells in the open list, one with the least sum of cost so far and
//! estimate is expanded next.

use std::time::Instant;
use vstd::prelude::*;
use vstd::seq_lib::lemma_seq_contains_after_push;
use vstd::set_lib::lemma_len_subset;
use crate::grid::{adjacent, hops, lemma_neighbors, Maze, Point};
use crate::point_map::PointMap;
use crate::point_set::{lemma_rectangle, rectangle};
use crate::search::{
    cost, cost_of, finds_route, lemma_linked_reachable, lemma_subset_of_reach,
    lemma_trail_route, linked, reachable, reconstruct, trail, within_reach,
};
use crate::solution::Solution;

verus! {

/// The state of the search: the open list in order of insertion, the cost
/// `g` of the best way found so far to each discovered cell, the priority
/// `f` of each (cost plus estimate), the cell each was reached from, and how
/// many cells have been taken from the open list.
pub struct Agenda {
    pub open: Seq<Point>,
    pub g: Map<Point, usize>,
    pub f: Map<Point, u128>,
    pub came_from: Map<Point, Point>,
    pub explored: nat,
}

/// The distance between two numbers.
pub open spec fn gap(a: usize, b: usize) -> nat {
    if a >= b {
        (a - b) as nat
    } else {
        (b - a) as nat
    }
}

/// The Manhattan distance between two cells.
pub open spec fn manhattan(p: Point, q: Point) -> nat {
    gap(p.x, q.x) + gap(p.y, q.y)
}

/// The priority recorded for `p`, `u128::MAX` where none is recorded.
pub open spec fn priority_of(f: Map<Point, u128>, p: Point) -> u128 {
    if f.dom().contains(p) {
        f[p]
    } else {
        u128::MAX
    }
}

/// The state before the first expansion: only the start is open, at cost 0.
pub open spec fn kickoff(m: Maze) -> Agenda {
    Agenda {
        open: Seq::<Point>::empty().push(m.start),
        g: Map::<Point, usize>::empty().insert(m.start, 0usize),
        f: Map::<Point, u128>::empty().insert(m.start, manhattan(m.start, m.end) as u128),
        came_from: Map::<Point, Point>::empty(),
        explored: 0,
    }
}

/// The index, among the first `k` entries of the open list, of the entry
/// with the least priority; among entries of equal priority the one inserted
/// last.
pub open spec fn cheapest_upto(open: Seq<Point>, f: Map<Point, u128>, k: nat) -> int
    decreases k,
{
    if k <= 1 {
        0
    } else {
        let b = cheapest_upto(open, f, (k - 1) as nat);
        if priority_of(f, open[k - 1]) <= priority_of(f, open[b]) {
            k - 1
        } else {
            b
        }
    }
}

/// The state after neighbour `n` of `cur` has been looked at: when the way
/// through `cur` is cheaper than what is recorded for `n`, the cost, the
/// priority and the link of `n` are replaced, and `n` joins the open list
/// unless it is in it already.
pub open spec fn improve(m: Maze, st: Agenda, cur: Point, n: Point) -> Agenda {
    let tentative = cost_of(st.g, cur) + 1;
    if tentative < cost_of(st.g, n) {
        Agenda {
            open: if st.open.contains(n) {
                st.open
            } else {
                st.open.push(n)
            },
            g: st.g.insert(n, tentative as usize),
            f: st.f.insert(n, (tentative + manhattan(n, m.end)) as u128),
            came_from: st.came_from.insert(n, cur),
            explored: st.explored,
        }
    } else {
        st
    }
}

/// The state after the first `k` cells of `nbrs` have been looked at as
/// neighbours of `cur`.
pub open spec fn improve_all(m: Maze, st: Agenda, cur: Point, nbrs: Seq<Point>, k: nat) -> Agenda
    decreases k,
{
    if k == 0 {
        st
    } else {
        improve(m, improve_all(m, st, cur, nbrs, (k - 1) as nat), cur, nbrs[k - 1])
    }
}

/// The path and the number of expanded cells that the search ends with when
/// it continues from `st` for at most `fuel` expansions: the cheapest open
/// cell is taken from the list; if it is the end, the trail to it is the
/// path; otherwise its neighbours are looked at and the search goes on. With
/// an empty open list there is no path.
pub open spec fn astar_run(m: Maze, st: Agenda, fuel: nat) -> (Seq<Point>, nat)
    decreases fuel,
{
    if fuel == 0 || st.open.len() == 0 {
        (Seq::<Point>::empty(), st.explored)
    } else {
        let i = cheapest_upto(st.open, st.f, st.open.len());
        let cur = st.open[i];
        let taken = Agenda {
            open: st.open.remove(i),
            g: st.g,
            f: st.f,
            came_from: st.came_from,
            explored: st.explored + 1,
        };
        if cur == m.end {
            (trail(st.came_from, m.start, cur, (m.width * m.height) as nat), taken.explored)
        } else {
            astar_run(
                m,
                improve_all(m, taken, cur, m.neighbors(cur), m.neighbors(cur).len()),
                (fuel - 1) as nat,
            )
        }
    }
}

/// The path that the search returns on `m`.
pub open spec fn astar_path(m: Maze) -> Seq<Point> {
    astar_run(m, kickoff(m), (m.width * m.height) as nat).0
}

/// The number of cells that the search expands on `m`.
pub open spec fn astar_explored(m: Maze) -> nat {
    astar_run(m, kickoff(m), (m.width * m.height) as nat).1
}

/// The costs of the discovered cells.
pub open spec fn costs(st: Agenda) -> Map<Point, nat> {
    Map::new(|p: Point| st.g.dom().contains(p), |p: Point| st.g[p] as nat)
}

/// `v` is discovered, not in the open list, and not the cell held for
/// expansion right now.
pub open spec fn closed(st: Agenda, hold: Option<Point>, v: Point) -> bool {
    st.g.dom().contains(v) && !st.open.contains(v) && hold != Some(v)
}

/// What holds of the search between any two of its steps, with `hold` the
/// cell under expansion, if any, and `level` the priority of the cell taken
/// from the open list last: the priority of every discovered cell is its
/// cost plus its estimate; no open cell has a priority below `level` and no
/// closed cell one above it; and every discovered cell is open, closed or
/// held, so that as many cells have been taken as are discovered and not
/// open.
pub open spec fn tidy(m: Maze, st: Agenda, hold: Option<Point>, level: nat) -> bool {
    &&& st.g.dom().finite()
    &&& st.g[m.start] == 0
    &&& linked(m, st.came_from, costs(st))
    &&& forall|v: Point|
        #[trigger] st.g.dom().contains(v) ==> {
            &&& st.g[v] < st.g.dom().len()
            &&& st.g[v] <= st.explored
            &&& st.f.dom().contains(v)
            &&& st.f[v] == st.g[v] + manhattan(v, m.end)
        }
    &&& forall|i: int|
        0 <= i < st.open.len() ==> st.g.dom().contains(#[trigger] st.open[i]) && st.f[st.open[i]]
            >= level
    &&& st.explored + st.open.len() == st.g.dom().len()
    &&& (hold matches Some(c) ==> st.g.dom().contains(c) && st.g[c] < st.explored && st.f[c]
        == level)
    &&& forall|v: Point| #[trigger] closed(st, hold, v) ==> st.f[v] <= level
    &&& forall|v: Point, n: Point|
        #[trigger] adjacent(v, n) && closed(st, hold, v) && m.passable(n) ==> st.g.dom().contains(
            n,
        )
    &&& (st.g.dom().contains(m.end) ==> st.open.contains(m.end) || hold == Some(m.end))
}

/// The estimates of two adjacent cells differ by at most one.
pub proof fn lemma_manhattan_step(a: Point, b: Point, e: Point)
    requires
        adjacent(a, b),
    ensures
        manhattan(a, e) <= manhattan(b, e) + 1,
{
}

/// The discovered cells are no more than the grid has cells.
pub proof fn lemma_discovered_bound(m: Maze, st: Agenda, hold: Option<Point>, level: nat)
    requires
        tidy(m, st, hold, level),
    ensures
        st.g.dom().len() <= m.width * m.height,
{
    let rect = rectangle(m.width as nat, m.height as nat);
    lemma_rectangle(m.width as nat, m.height as nat);
    assert forall|p: Point| st.g.dom().contains(p) implies rect.contains(p) by {
        assert(costs(st).dom().contains(p));
    }
    lemma_len_subset(st.g.dom(), rect);
}

/// Looking at one neighbour keeps the search tidy and leaves that neighbour
/// discovered. A closed cell is never made cheaper, so no cell joins the
/// open list twice.
pub proof fn lemma_improve(m: Maze, st: Agenda, cur: Point, n: Point, level: nat)
    requires
        m.shaped(),
        tidy(m, st, Some(cur), level),
        adjacent(cur, n),
        m.passable(n),
    ensures
        tidy(m, improve(m, st, cur, n), Some(cur), level),
        improve(m, st, cur, n).g.dom().contains(n),
        improve(m, st, cur, n).explored == st.explored,
        forall|v: Point| st.g.dom().contains(v) ==> improve(m, st, cur, n).g.dom().contains(v),
{
    broadcast use lemma_seq_contains_after_push;

    let st2 = improve(m, st, cur, n);
    let tentative = st.g[cur] + 1;
    lemma_discovered_bound(m, st, Some(cur), level);
    lemma_manhattan_step(cur, n, m.end);
    assert(costs(st).dom().contains(m.start));
    if tentative < cost_of(st.g, n) {
        let hold = Some(cur);
        assert(n != m.start);
        assert(n != cur);
        if closed(st, hold, n) {
            assert(st.f[n] <= level);
            assert(false);
        }
        if !st.open.contains(n) {
            assert(!st.g.dom().contains(n));
        } else {
            let i = choose|i: int| 0 <= i < st.open.len() && st.open[i] == n;
            assert(st.g.dom().contains(st.open[i]));
            assert(st.g.dom().insert(n) =~= st.g.dom());
        }
        assert(st2.open.contains(n)) by {
            if !st.open.contains(n) {
                assert(st2.open[st.open.len() as int] == n);
            }
        }
        assert forall|v: Point| closed(st2, hold, v) implies closed(st, hold, v) && v != n by {
            if st.open.contains(v) {
                assert(st2.open.contains(v));
            }
        }
        assert forall|v: Point, q: Point|
            #[trigger] adjacent(v, q) && closed(st2, hold, v) && m.passable(
                q,
            ) implies st2.g.dom().contains(q) by {
            assert(closed(st, hold, v));
        }
        assert forall|v: Point| #[trigger] closed(st2, hold, v) implies st2.f[v] <= level by {
            assert(closed(st, hold, v));
        }
        assert forall|v: Point| #[trigger] costs(st2).dom().contains(v) implies m.passable(v) && (v
            != m.start ==> st2.came_from.dom().contains(v)) by {
            if v != n {
                assert(costs(st).dom().contains(v));
            }
        }
        assert forall|v: Point| costs(st2).dom().contains(v) && v != m.start implies {
            &&& costs(st2).dom().contains(#[trigger] st2.came_from[v])
            &&& adjacent(st2.came_from[v], v)
            &&& costs(st2)[st2.came_from[v]] < costs(st2)[v]
        } by {
            if v != n {
                assert(costs(st).dom().contains(v));
                let u = st.came_from[v];
                assert(costs(st).dom().contains(u));
                assert(costs(st)[u] < costs(st)[v]);
            }
        }
        assert(linked(m, st2.came_from, costs(st2)));
        assert forall|i: int| 0 <= i < st2.open.len() implies st2.g.dom().contains(
            #[trigger] st2.open[i],
        ) && st2.f[st2.open[i]] >= level by {
            if i < st.open.len() {
                assert(st2.open[i] == st.open[i]);
            }
        }
        if st.g.dom().contains(m.end) && st.open.contains(m.end) {
            assert(st2.open.contains(m.end));
        }
        assert(tidy(m, st2, hold, level));
    }
}

/// The cheapest of the first `k` entries is one of them, and none of them
/// has a lower priority.
pub proof fn lemma_cheapest_upto(open: Seq<Point>, f: Map<Point, u128>, k: nat)
    requires
        k >= 1,
    ensures
        0 <= cheapest_upto(open, f, k) < k,
        forall|j: int|
            0 <= j < k ==> priority_of(f, open[cheapest_upto(open, f, k)]) <= priority_of(
                f,
                #[trigger] open[j],
            ),
    decreases k,
{
    if k > 1 {
        lemma_cheapest_upto(open, f, (k - 1) as nat);
    }
}

/// Taking the cheapest entry from the open list keeps the search tidy, at
/// the level of that entry's priority.
pub proof fn lemma_take(m: Maze, st: Agenda, i: int, level: nat)
    requires
        tidy(m, st, None, level),
        0 <= i < st.open.len(),
        forall|j: int| 0 <= j < st.open.len() ==> st.f[st.open[i]] <= st.f[#[trigger] st.open[j]],
    ensures
        tidy(
            m,
            Agenda {
                open: st.open.remove(i),
                g: st.g,
                f: st.f,
                came_from: st.came_from,
                explored: st.explored + 1,
            },
            Some(st.open[i]),
            st.f[st.open[i]] as nat,
        ),
{
    let cur = st.open[i];
    let rest = st.open.remove(i);
    let top = st.f[cur] as nat;
    let st2 = Agenda {
        open: rest,
        g: st.g,
        f: st.f,
        came_from: st.came_from,
        explored: st.explored + 1,
    };
    assert(costs(st2) =~= costs(st));
    assert(st.g.dom().contains(st.open[i]));
    assert forall|v: Point| st.open.contains(v) implies v == cur || rest.contains(v) by {
        let j = choose|j: int| 0 <= j < st.open.len() && st.open[j] == v;
        if j < i {
            assert(rest[j] == v);
        } else if j > i {
            assert(rest[j - 1] == v);
        }
    }
    assert forall|k: int| 0 <= k < rest.len() implies st.g.dom().contains(#[trigger] rest[k])
        && st.f[rest[k]] >= top by {
        if k < i {
            assert(rest[k] == st.open[k]);
        } else {
            assert(rest[k] == st.open[k + 1]);
        }
    }
    assert forall|v: Point| #[trigger] closed(st2, Some(cur), v) implies st2.f[v] <= top by {
        assert(closed(st, None, v));
    }
    assert forall|v: Point, q: Point|
        #[trigger] adjacent(v, q) && closed(st2, Some(cur), v) && m.passable(
            q,
        ) implies st2.g.dom().contains(q) by {
        assert(closed(st, None, v));
    }
}

/// Once every passable neighbour of the held cell is discovered, the cell
/// counts as closed and the search is tidy with nothing held.
pub proof fn lemma_close(m: Maze, st: Agenda, cur: Point, level: nat)
    requires
        tidy(m, st, Some(cur), level),
        cur != m.end,
        forall|n: Point| adjacent(cur, n) && m.passable(n) ==> st.g.dom().contains(n),
    ensures
        tidy(m, st, None, level),
{
    assert forall|v: Point, q: Point|
        #[trigger] adjacent(v, q) && closed(st, None, v) && m.passable(
            q,
        ) implies st.g.dom().contains(q) by {
        if v != cur {
            assert(closed(st, Some(cur), v));
        }
    }
    assert forall|v: Point| #[trigger] closed(st, None, v) implies st.f[v] <= level by {
        if v != cur {
            assert(closed(st, Some(cur), v));
        }
    }
}

/// When the open list is empty and nothing is held, every cell that a walk
/// from the start reaches is discovered.
pub proof fn lemma_drained(m: Maze, st: Agenda, level: nat, s: Seq<Point>, i: int)
    requires
        tidy(m, st, None, level),
        st.open.len() == 0,
        m.is_walk(s),
        s.len() > 0,
        s[0] == m.start,
        0 <= i < s.len(),
    ensures
        st.g.dom().contains(s[i]),
    decreases i,
{
    if i == 0 {
        assert(costs(st).dom().contains(m.start));
    } else {
        lemma_drained(m, st, level, s, i - 1);
        assert(hops(s, i - 1));
        assert(m.passable(s[i]));
        assert(closed(st, None, s[i - 1]));
    }
}

/// Looking at the first `k` neighbours of the held cell keeps the search
/// tidy and leaves those neighbours discovered.
pub proof fn lemma_improve_all(m: Maze, st: Agenda, cur: Point, level: nat, k: nat)
    requires
        m.shaped(),
        tidy(m, st, Some(cur), level),
        k <= m.neighbors(cur).len(),
    ensures
        tidy(m, improve_all(m, st, cur, m.neighbors(cur), k), Some(cur), level),
        improve_all(m, st, cur, m.neighbors(cur), k).explored == st.explored,
        forall|v: Point|
            st.g.dom().contains(v) ==> improve_all(m, st, cur, m.neighbors(cur), k).g.dom().contains(
                v,
            ),
        forall|j: int|
            0 <= j < k ==> improve_all(m, st, cur, m.neighbors(cur), k).g.dom().contains(
                #[trigger] m.neighbors(cur)[j],
            ),
    decreases k,
{
    if k > 0 {
        let nbrs = m.neighbors(cur);
        lemma_improve_all(m, st, cur, level, (k - 1) as nat);
        lemma_neighbors(m, cur);
        let mid = improve_all(m, st, cur, nbrs, (k - 1) as nat);
        assert(m.passable(nbrs[k - 1]) && adjacent(cur, nbrs[k - 1]));
        lemma_improve(m, mid, cur, nbrs[k - 1], level);
        let now = improve(m, mid, cur, nbrs[k - 1]);
        assert forall|j: int| 0 <= j < k implies now.g.dom().contains(#[trigger] nbrs[j]) by {
            if j < k - 1 {
                assert(mid.g.dom().contains(nbrs[j]));
            }
        }
    }
}

/// Before the first expansion the search is tidy.
pub proof fn lemma_kickoff(m: Maze)
    requires
        m.wf(),
    ensures
        tidy(m, kickoff(m), None, 0),
{
    let st = kickoff(m);
    assert(st.open[0] == m.start);
    assert(st.open.contains(m.start));
    assert forall|v: Point| closed(st, None, v) implies false by {}
}

/// A tidy search with fuel for every cell not yet expanded ends with a
/// route, or with no path when there is none, and expands no cell twice.
pub proof fn lemma_astar_run(m: Maze, st: Agenda, level: nat, fuel: nat)
    requires
        m.wf(),
        tidy(m, st, None, level),
        fuel + st.explored >= m.width * m.height,
    ensures
        finds_route(m, astar_run(m, st, fuel).0),
        astar_run(m, st, fuel).0.len() <= astar_run(m, st, fuel).1 <= m.width * m.height,
        within_reach(m, astar_run(m, st, fuel).0, astar_run(m, st, fuel).1),
    decreases fuel,
{
    lemma_discovered_bound(m, st, None, level);
    lemma_linked_reachable(m, st.came_from, costs(st));
    assert forall|p: Point| st.g.dom().contains(p) implies reachable(m).contains(p) by {
        assert(costs(st).dom().contains(p));
    }
    lemma_subset_of_reach(m, st.g.dom());
    if st.open.len() == 0 {
        if m.connected(m.start, m.end) {
            let s = choose|s: Seq<Point>| m.is_route(m.start, m.end, s);
            lemma_drained(m, st, level, s, s.len() - 1);
            let k = choose|k: int| 0 <= k < st.open.len() && st.open[k] == m.end;
            assert(false);
        }
        assert forall|p: Point| reachable(m).contains(p) implies st.g.dom().contains(p) by {
            let s = choose|s: Seq<Point>| m.is_route(m.start, p, s);
            lemma_drained(m, st, level, s, s.len() - 1);
        }
        assert(st.g.dom() =~= reachable(m));
    } else {
        lemma_cheapest_upto(st.open, st.f, st.open.len());
        let i = cheapest_upto(st.open, st.f, st.open.len());
        let cur = st.open[i];
        let top = st.f[cur] as nat;
        let taken = Agenda {
            open: st.open.remove(i),
            g: st.g,
            f: st.f,
            came_from: st.came_from,
            explored: st.explored + 1,
        };
        assert forall|j: int| 0 <= j < st.open.len() implies st.f[st.open[i]] <= st.f[#[trigger] st.open[j]] by {
            assert(st.g.dom().contains(st.open[j]));
            assert(st.g.dom().contains(st.open[i]));
        }
        lemma_take(m, st, i, level);
        if cur == m.end {
            let cells = (m.width * m.height) as nat;
            lemma_trail_route(m, st.came_from, costs(taken), cur, cells);
        } else {
            let nbrs = m.neighbors(cur);
            lemma_improve_all(m, taken, cur, top, nbrs.len());
            let after = improve_all(m, taken, cur, nbrs, nbrs.len());
            lemma_neighbors(m, cur);
            assert forall|n: Point| adjacent(cur, n) && m.passable(
                n,
            ) implies after.g.dom().contains(n) by {
                let j = choose|j: int| 0 <= j < nbrs.len() && nbrs[j] == n;
                assert(after.g.dom().contains(nbrs[j]));
            }
            lemma_close(m, after, cur, top);
            lemma_astar_run(m, after, top, (fuel - 1) as nat);
        }
    }
}

/// On a well-formed maze the best-first path is empty exactly when the end
/// cannot be reached, and otherwise a route from start to end; the cells
/// expanded are at least as many as the path has, and no more than the grid
/// has, as no cell is expanded twice.
pub proof fn lemma_astar_path(m: Maze)
    requires
        m.wf(),
    ensures
        finds_route(m, astar_path(m)),
        astar_path(m).len() <= astar_explored(m) <= m.width * m.height,
        within_reach(m, astar_path(m), astar_explored(m)),
{
    lemma_kickoff(m);
    lemma_astar_run(m, kickoff(m), 0, (m.width * m.height) as nat);
}

/// The Manhattan distance from `p` to the end of the maze.
fn heuristic(maze: &Maze, p: Point) -> (h: usize)
    requires
        maze.wf(),
        maze.contains(p),
    ensures
        h == manhattan(p, maze.end),
{
    let dx = if p.x >= maze.end.x {
        p.x - maze.end.x
    } else {
        maze.end.x - p.x
    };
    let dy = if p.y >= maze.end.y {
        p.y - maze.end.y
    } else {
        maze.end.y - p.y
    };
    proof {
        let w = maze.width as int;
        let h = maze.height as int;
        assert((w - 1) * (h - 1) >= 0) by (nonlinear_arith)
            requires
                w >= 1,
                h >= 1,
        ;
        assert((w - 1) * (h - 1) == w * h - w - h + 1) by (nonlinear_arith);
    }
    dx + dy
}

/// The priority recorded for `p`, or `u128::MAX` where none is recorded.
fn priority(f: &PointMap<u128>, p: Point) -> (value: u128)
    requires
        f.wf(),
    ensures
        value == priority_of(f@, p),
{
    match f.get(p) {
        Some(value) => value,
        None => u128::MAX,
    }
}

/// Whether `p` is in the open list.
fn holds(open: &Vec<Point>, p: Point) -> (found: bool)
    ensures
        found == open@.contains(p),
{
    let mut i: usize = 0;
    while i < open.len()
        invariant
            i <= open.len(),
            forall|j: int| 0 <= j < i ==> open@[j] != p,
        decreases open.len() - i,
    {
        if open[i] == p {
            return true;
        }
        i = i + 1;
    }
    false
}

/// The index of the open cell to expand next: least priority, and among
/// equals the one inserted last.
fn cheapest(open: &Vec<Point>, f: &PointMap<u128>) -> (best: usize)
    requires
        open@.len() > 0,
        f.wf(),
    ensures
        best == cheapest_upto(open@, f@, open@.len()),
        best < open@.len(),
{
    let mut best: usize = 0;
    let mut k: usize = 1;
    while k < open.len()
        invariant
            1 <= k <= open.len(),
            f.wf(),
            best < k,
            best == cheapest_upto(open@, f@, k as nat),
        decreases open.len() - k,
    {
        if priority(f, open[k]) <= priority(f, open[best]) {
            best = k;
        }
        k = k + 1;
    }
    best
}

/// Looks at every neighbour of the held cell `cur` in the fixed order.
fn improve_neighbors(
    maze: &Maze,
    cur: Point,
    open: &mut Vec<Point>,
    g: &mut PointMap<usize>,
    f: &mut PointMap<u128>,
    came_from: &mut PointMap<Point>,
    Ghost(explored): Ghost<nat>,
    Ghost(level): Ghost<nat>,
)
    requires
        maze.wf(),
        old(g).wf(),
        old(g).cols() == maze.width,
        old(g).rows() == maze.height,
        old(f).wf(),
        old(f).cols() == maze.width,
        old(f).rows() == maze.height,
        old(came_from).wf(),
        old(came_from).cols() == maze.width,
        old(came_from).rows() == maze.height,
        tidy(
            *maze,
            Agenda {
                open: old(open)@,
                g: old(g)@,
                f: old(f)@,
                came_from: old(came_from)@,
                explored,
            },
            Some(cur),
            level,
        ),
    ensures
        final(g).wf(),
        final(g).cols() == maze.width,
        final(g).rows() == maze.height,
        final(f).wf(),
        final(f).cols() == maze.width,
        final(f).rows() == maze.height,
        final(came_from).wf(),
        final(came_from).cols() == maze.width,
        final(came_from).rows() == maze.height,
        (Agenda {
            open: final(open)@,
            g: final(g)@,
            f: final(f)@,
            came_from: final(came_from)@,
            explored,
        }) == improve_all(
            *maze,
            Agenda {
                open: old(open)@,
                g: old(g)@,
                f: old(f)@,
                came_from: old(came_from)@,
                explored,
            },
            cur,
            maze.neighbors(cur),
            maze.neighbors(cur).len(),
        ),
        tidy(
            *maze,
            Agenda {
                open: final(open)@,
                g: final(g)@,
                f: final(f)@,
                came_from: final(came_from)@,
                explored,
            },
            Some(cur),
            level,
        ),
        forall|n: Point| adjacent(cur, n) && maze.passable(n) ==> final(g)@.dom().contains(n),
{
    let nbrs = maze.get_neighbors(cur);
    let ghost st0 = Agenda { open: open@, g: g@, f: f@, came_from: came_from@, explored };
    proof {
        lemma_neighbors(*maze, cur);
    }
    let mut i: usize = 0;
    while i < nbrs.len()
        invariant
            i <= nbrs.len(),
            nbrs@ == maze.neighbors(cur),
            maze.wf(),
            g.wf(),
            g.cols() == maze.width,
            g.rows() == maze.height,
            f.wf(),
            f.cols() == maze.width,
            f.rows() == maze.height,
            came_from.wf(),
            came_from.cols() == maze.width,
            came_from.rows() == maze.height,
            forall|j: int|
                0 <= j < nbrs@.len() ==> maze.passable(#[trigger] nbrs@[j]) && adjacent(
                    cur,
                    nbrs@[j],
                ),
            (Agenda { open: open@, g: g@, f: f@, came_from: came_from@, explored })
                == improve_all(*maze, st0, cur, nbrs@, i as nat),
            tidy(
                *maze,
                Agenda { open: open@, g: g@, f: f@, came_from: came_from@, explored },
                Some(cur),
                level,
            ),
            forall|j: int| 0 <= j < i ==> g@.dom().contains(#[trigger] nbrs@[j]),
        decreases nbrs.len() - i,
    {
        let n = nbrs[i];
        let ghost here = Agenda { open: open@, g: g@, f: f@, came_from: came_from@, explored };
        proof {
            lemma_discovered_bound(*maze, here, Some(cur), level);
            lemma_improve(*maze, here, cur, n, level);
            assert forall|j: int| 0 <= j < i implies here.g.dom().contains(#[trigger] nbrs@[j]) by {}
        }
        let tentative = cost(g, cur) + 1;
        if tentative < cost(g, n) {
            came_from.insert(n, cur);
            g.insert(n, tentative);
            let h = heuristic(maze, n);
            f.insert(n, tentative as u128 + h as u128);
            if !holds(open, n) {
                open.push(n);
            }
        }
        i = i + 1;
    }
    proof {
        assert forall|n: Point| adjacent(cur, n) && maze.passable(n) implies g@.dom().contains(
            n,
        ) by {
            let j = choose|j: int| 0 <= j < nbrs@.len() && nbrs@[j] == n;
            assert(g@.dom().contains(nbrs@[j]));
        }
    }
}

/// The search itself: the path found and the number of cells expanded.
fn astar_search(maze: &Maze) -> (found: (Vec<Point>, usize))
    requires
        maze.wf(),
    ensures
        found.0@ == astar_path(*maze),
        found.1 == astar_explored(*maze),
        found.0@.len() > 0 <==> maze.connected(maze.start, maze.end),
        found.0@.len() > 0 ==> maze.is_route(maze.start, maze.end, found.0@),
        found.0@.len() <= found.1 <= maze.width * maze.height,
{
    let mut open: Vec<Point> = Vec::new();
    let mut came_from: PointMap<Point> = PointMap::new(maze.width, maze.height);
    let mut g: PointMap<usize> = PointMap::new(maze.width, maze.height);
    let mut f: PointMap<u128> = PointMap::new(maze.width, maze.height);
    let mut explored: usize = 0;
    let ghost cells = (maze.width * maze.height) as nat;
    let ghost mut level: nat = 0;
    g.insert(maze.start, 0);
    let h = heuristic(maze, maze.start);
    f.insert(maze.start, h as u128);
    open.push(maze.start);
    proof {
        let st = Agenda { open: open@, g: g@, f: f@, came_from: came_from@, explored: 0 };
        assert(st == kickoff(*maze));
        lemma_kickoff(*maze);
    }
    while !open.is_empty()
        invariant
            maze.wf(),
            cells == maze.width * maze.height,
            g.wf(),
            g.cols() == maze.width,
            g.rows() == maze.height,
            f.wf(),
            f.cols() == maze.width,
            f.rows() == maze.height,
            came_from.wf(),
            came_from.cols() == maze.width,
            came_from.rows() == maze.height,
            tidy(
                *maze,
                Agenda {
                    open: open@,
                    g: g@,
                    f: f@,
                    came_from: came_from@,
                    explored: explored as nat,
                },
                None,
                level,
            ),
            explored <= cells,
            astar_run(*maze, kickoff(*maze), cells) == astar_run(
                *maze,
                Agenda {
                    open: open@,
                    g: g@,
                    f: f@,
                    came_from: came_from@,
                    explored: explored as nat,
                },
                (cells - explored) as nat,
            ),
        decreases cells - explored,
    {
        let ghost st = Agenda {
            open: open@,
            g: g@,
            f: f@,
            came_from: came_from@,
            explored: explored as nat,
        };
        let i = cheapest(&open, &f);
        proof {
            lemma_discovered_bound(*maze, st, None, level);
            lemma_cheapest_upto(st.open, st.f, st.open.len());
            assert forall|j: int| 0 <= j < st.open.len() implies st.f[st.open[i as int]]
                <= st.f[#[trigger] st.open[j]] by {
                assert(st.g.dom().contains(st.open[j]));
                assert(st.g.dom().contains(st.open[i as int]));
            }
            lemma_take(*maze, st, i as int, level);
            level = st.f[st.open[i as int]] as nat;
        }
        let cur = open.remove(i);
        explored = explored + 1;
        let ghost taken = Agenda {
            open: open@,
            g: g@,
            f: f@,
            came_from: came_from@,
            explored: explored as nat,
        };
        if cur == maze.end {
            let path = reconstruct(maze, &came_from, cur, Ghost(costs(taken)));
            proof {
                lemma_trail_route(*maze, came_from@, costs(taken), cur, cells);
            }
            return (path, explored);
        }
        improve_neighbors(
            maze,
            cur,
            &mut open,
            &mut g,
            &mut f,
            &mut came_from,
            Ghost(explored as nat),
            Ghost(level),
        );
        proof {
            let after = Agenda {
                open: open@,
                g: g@,
                f: f@,
                came_from: came_from@,
                explored: explored as nat,
            };
            lemma_close(*maze, after, cur, level);
            lemma_discovered_bound(*maze, after, None, level);
        }
    }
    proof {
        let st = Agenda {
            open: open@,
            g: g@,
            f: f@,
            came_from: came_from@,
            explored: explored as nat,
        };
        if maze.connected(maze.start, maze.end) {
            let s = choose|s: Seq<Point>| maze.is_route(maze.start, maze.end, s);
            lemma_drained(*maze, st, level, s, s.len() - 1);
            let k = choose|k: int| 0 <= k < st.open.len() && st.open[k] == maze.end;
            assert(false);
        }
    }
    (Vec::new(), explored)
}

/// Solves the maze by best-first search with the Manhattan distance as the
/// estimate. The path returned is a route from start to end, or empty when
/// the end cannot be reached. No cell is expanded twice.
pub fn astar_solve(maze: &Maze) -> (sol: Solution)
    requires
        maze.wf(),
    ensures
        sol.algorithm@ == "A*"@,
        sol.path@ == astar_path(*maze),
        sol.path_length == sol.path@.len(),
        sol.nodes_explored == astar_explored(*maze),
        sol.path@.len() > 0 <==> maze.connected(maze.start, maze.end),
        sol.path@.len() > 0 ==> maze.is_route(maze.start, maze.end, sol.path@),
        sol.path_length <= sol.nodes_explored <= maze.width * maze.height,
        sol.path@.no_duplicates(),
        sol.nodes_explored <= reachable(*maze).len(),
        !maze.connected(maze.start, maze.end) ==> sol.nodes_explored == reachable(*maze).len(),
{
    let start_time = Instant::now();
    let (path, nodes_explored) = astar_search(maze);
    proof {
        lemma_astar_path(*maze);
    }
    let path_length = path.len();
    Solution {
        algorithm: "A*".to_string(),
        path,
        path_length,
        nodes_explored,
        time_taken: start_time.elapsed().as_micros(),
    }
}

} // verus!
