//! Uniform-cost search: of the cells not yet visited, the one with the least
//! tentative distance is expanded next.

use std::time::Instant;
use vstd::prelude::*;
use crate::grid::{adjacent, hops, lemma_neighbors, Maze, Point};
use crate::point_map::PointMap;
use crate::point_set::{lemma_rectangle, rectangle, PointSet};
use crate::search::{
    cost, cost_of, finds_route, lemma_linked_reachable, lemma_subset_of_reach,
    lemma_trail_route, linked, never_longer, reachable, reconstruct, tight, trail,
    within_reach,
};
use crate::solution::Solution;

verus! {

/// The state of a uniform-cost search: the cells not yet visited, the
/// tentative distance of every path cell (`usize::MAX` standing for
/// "unreachable so far"), the cell through which each distance was reached,
/// and how many cells have been visited.
pub struct Ledger {
    pub unvisited: Set<Point>,
    pub dist: Map<Point, usize>,
    pub prev: Map<Point, Point>,
    pub explored: nat,
}

/// The state before the first visit: every path cell is unvisited and
/// unreachable so far, but for the start, which has distance 0.
pub open spec fn opening(m: Maze) -> Ledger {
    Ledger {
        unvisited: Set::new(|p: Point| m.passable(p)),
        dist: Map::new(
            |p: Point| m.passable(p),
            |p: Point|
                if p == m.start {
                    0usize
                } else {
                    usize::MAX
                },
        ),
        prev: Map::<Point, Point>::empty(),
        explored: 0,
    }
}

/// The better of `best` and `p`: `p` wins when it is unvisited and strictly
/// nearer than `best`, or when there is no `best` yet.
pub open spec fn nearer(
    unvisited: Set<Point>,
    dist: Map<Point, usize>,
    best: Option<Point>,
    p: Point,
) -> Option<Point> {
    if unvisited.contains(p) && (match best {
        None => true,
        Some(b) => cost_of(dist, p) < cost_of(dist, b),
    }) {
        Some(p)
    } else {
        best
    }
}

/// The nearest unvisited cell after columns `0..x` of row `y` have been
/// compared with `acc`.
pub open spec fn scan_row(
    unvisited: Set<Point>,
    dist: Map<Point, usize>,
    y: nat,
    x: nat,
    acc: Option<Point>,
) -> Option<Point>
    decreases x,
{
    if x == 0 {
        acc
    } else {
        nearer(
            unvisited,
            dist,
            scan_row(unvisited, dist, y, (x - 1) as nat, acc),
            Point { x: (x - 1) as usize, y: y as usize },
        )
    }
}

/// The nearest unvisited cell of rows `0..y` of a grid `width` cells wide;
/// among equally near cells the first in row-major order.
pub open spec fn scan_rows(
    unvisited: Set<Point>,
    dist: Map<Point, usize>,
    width: nat,
    y: nat,
) -> Option<Point>
    decreases y,
{
    if y == 0 {
        None
    } else {
        scan_row(
            unvisited,
            dist,
            (y - 1) as nat,
            width,
            scan_rows(unvisited, dist, width, (y - 1) as nat),
        )
    }
}

/// The state after neighbour `n` of `cur` has been relaxed: an unvisited
/// neighbour that is nearer through `cur` takes the shorter distance and
/// `cur` as the cell it is reached through.
pub open spec fn relax(st: Ledger, cur: Point, n: Point) -> Ledger {
    if st.unvisited.contains(n) && cost_of(st.dist, cur) + 1 < cost_of(st.dist, n) {
        Ledger {
            unvisited: st.unvisited,
            dist: st.dist.insert(n, (cost_of(st.dist, cur) + 1) as usize),
            prev: st.prev.insert(n, cur),
            explored: st.explored,
        }
    } else {
        st
    }
}

/// The state after the first `k` cells of `nbrs` have been relaxed as
/// neighbours of `cur`.
pub open spec fn relax_all(st: Ledger, cur: Point, nbrs: Seq<Point>, k: nat) -> Ledger
    decreases k,
{
    if k == 0 {
        st
    } else {
        relax(relax_all(st, cur, nbrs, (k - 1) as nat), cur, nbrs[k - 1])
    }
}

/// The path and the number of visited cells that uniform-cost search ends
/// with when it continues from `st` for at most `fuel` visits: the nearest
/// unvisited cell is chosen; if even that one is unreachable so far, there is
/// no path; otherwise it is visited, and if it is the end the trail to it is
/// the path, else its neighbours are relaxed and the search goes on.
pub open spec fn dijkstra_run(m: Maze, st: Ledger, fuel: nat) -> (Seq<Point>, nat)
    decreases fuel,
{
    if fuel == 0 || st.unvisited.len() == 0 {
        (Seq::<Point>::empty(), st.explored)
    } else {
        match scan_rows(st.unvisited, st.dist, m.width as nat, m.height as nat) {
            None => (Seq::<Point>::empty(), st.explored),
            Some(cur) => {
                if cost_of(st.dist, cur) == usize::MAX {
                    (Seq::<Point>::empty(), st.explored)
                } else {
                    let taken = Ledger {
                        unvisited: st.unvisited.remove(cur),
                        dist: st.dist,
                        prev: st.prev,
                        explored: st.explored + 1,
                    };
                    if cur == m.end {
                        (
                            trail(st.prev, m.start, cur, (m.width * m.height) as nat),
                            taken.explored,
                        )
                    } else {
                        dijkstra_run(
                            m,
                            relax_all(taken, cur, m.neighbors(cur), m.neighbors(cur).len()),
                            (fuel - 1) as nat,
                        )
                    }
                }
            },
        }
    }
}

/// The path that uniform-cost search returns on `m`.
pub open spec fn dijkstra_path(m: Maze) -> Seq<Point> {
    dijkstra_run(m, opening(m), (m.width * m.height) as nat).0
}

/// The number of cells that uniform-cost search visits on `m`.
pub open spec fn dijkstra_explored(m: Maze) -> nat {
    dijkstra_run(m, opening(m), (m.width * m.height) as nat).1
}

/// `p` has a distance that is not the "unreachable" mark.
pub open spec fn reached(st: Ledger, p: Point) -> bool {
    st.dist.dom().contains(p) && st.dist[p] < usize::MAX
}

/// The distances of the reached cells.
pub open spec fn ranks(st: Ledger) -> Map<Point, nat> {
    Map::new(|p: Point| reached(st, p), |p: Point| st.dist[p] as nat)
}

/// `v` is a path cell that has been visited and is not the cell held for
/// relaxing right now.
pub open spec fn visited(m: Maze, st: Ledger, hold: Option<Point>, v: Point) -> bool {
    m.passable(v) && !st.unvisited.contains(v) && hold != Some(v)
}

/// What holds of a uniform-cost search between any two of its steps, with
/// `hold` the cell whose neighbours are being relaxed, if any, and `total`
/// the number of path cells.
pub open spec fn sound(m: Maze, st: Ledger, hold: Option<Point>, total: nat) -> bool {
    &&& st.unvisited.finite()
    &&& st.explored + st.unvisited.len() == total
    &&& forall|p: Point| #[trigger] st.dist.dom().contains(p) ==> m.passable(p)
    &&& forall|p: Point| #[trigger] m.passable(p) ==> st.dist.dom().contains(p)
    &&& forall|p: Point| #[trigger] st.unvisited.contains(p) ==> m.passable(p)
    &&& linked(m, st.prev, ranks(st))
    &&& tight(m, st.prev, ranks(st))
    &&& forall|v: Point| #[trigger] reached(st, v) ==> st.dist[v] <= st.explored
    &&& (hold matches Some(c) ==> reached(st, c) && !st.unvisited.contains(c) && st.dist[c]
        < st.explored && forall|v: Point|
        #[trigger] reached(st, v) && !st.unvisited.contains(v) ==> st.dist[v] <= st.dist[c])
    &&& forall|v: Point| m.passable(v) && !st.unvisited.contains(v) ==> #[trigger] reached(st, v)
    &&& forall|v: Point, n: Point|
        #[trigger] adjacent(v, n) && visited(m, st, hold, v) && m.passable(n) ==> reached(st, n)
            && st.dist[n] <= st.dist[v] + 1
    &&& forall|v: Point, q: Point|
        #[trigger] reached(st, v) && !st.unvisited.contains(v) && #[trigger] st.unvisited.contains(
            q,
        ) ==> st.dist[v] <= cost_of(st.dist, q)
    &&& (st.unvisited.contains(m.end) || hold == Some(m.end))
    &&& forall|v: Point|
        #[trigger] reached(st, v) && v != m.start ==> !st.unvisited.contains(st.prev[v])
}

/// Relaxing one neighbour keeps the search sound and leaves that neighbour
/// reached.
pub proof fn lemma_relax(m: Maze, st: Ledger, cur: Point, n: Point, total: nat)
    requires
        sound(m, st, Some(cur), total),
        adjacent(cur, n),
        m.passable(n),
        st.explored < usize::MAX,
    ensures
        sound(m, relax(st, cur, n), Some(cur), total),
        reached(relax(st, cur, n), n),
        relax(st, cur, n).dist[n] <= st.dist[cur] + 1,
        relax(st, cur, n).dist[cur] == st.dist[cur],
        forall|v: Point|
            reached(st, v) ==> reached(relax(st, cur, n), v) && relax(st, cur, n).dist[v]
                <= st.dist[v],
{
    let st2 = relax(st, cur, n);
    if st.unvisited.contains(n) && cost_of(st.dist, cur) + 1 < cost_of(st.dist, n) {
        let alt = (st.dist[cur] + 1) as usize;
        assert(st.dist.dom().contains(n));
        assert(reached(st, m.start));
        assert(ranks(st).dom().contains(m.start));
        assert(n != m.start);
        assert(n != cur);
        assert forall|v: Point| reached(st2, v) <==> reached(st, v) || v == n by {}
        assert forall|v: Point| #[trigger] ranks(st2).dom().contains(v) implies m.passable(v) by {
            if v != n {
                assert(ranks(st).dom().contains(v));
            }
        }
        assert forall|v: Point| #[trigger]
            ranks(st2).dom().contains(v) && v != m.start implies st2.prev.dom().contains(v)
            && ranks(st2).dom().contains(st2.prev[v]) && adjacent(st2.prev[v], v) && ranks(
            st2,
        )[st2.prev[v]] < ranks(st2)[v] && ranks(st2)[st2.prev[v]] + 1 == ranks(st2)[v] by {
            if v == n {
                assert(reached(st2, cur));
            } else {
                assert(reached(st, v));
                assert(ranks(st).dom().contains(v));
                let u = st.prev[v];
                assert(ranks(st).dom().contains(u));
                assert(reached(st, u));
                assert(!st.unvisited.contains(u));
                assert(u != n);
            }
        }
        assert(ranks(st2).dom().contains(m.start));
        assert(linked(m, st2.prev, ranks(st2)));
        assert(tight(m, st2.prev, ranks(st2)));
        assert forall|v: Point| #[trigger] reached(st2, v) && v != m.start implies !st2.unvisited.contains(
            st2.prev[v],
        ) by {
            if v != n {
                assert(reached(st, v));
            }
        }
        assert forall|v: Point, q: Point|
            #[trigger] adjacent(v, q) && visited(m, st2, Some(cur), v) && m.passable(
                q,
            ) implies reached(st2, q) && st2.dist[q] <= st2.dist[v] + 1 by {
            assert(visited(m, st, Some(cur), v));
            assert(reached(st, q));
            assert(reached(st, v));
        }
        assert forall|v: Point| m.passable(v) && !st2.unvisited.contains(v) implies #[trigger] reached(
            st2,
            v,
        ) by {
            assert(reached(st, v));
        }
        assert forall|p: Point| #[trigger] st2.dist.dom().contains(p) implies m.passable(p) by {}
        assert forall|v: Point, q: Point|
            #[trigger] reached(st2, v) && !st2.unvisited.contains(v) && #[trigger] st2.unvisited.contains(
                q,
            ) implies st2.dist[v] <= cost_of(st2.dist, q) by {
            assert(reached(st, v));
            assert(st.dist[v] <= st.dist[cur]);
        }
        assert forall|v: Point| #[trigger]
            reached(st2, v) && !st2.unvisited.contains(v) implies st2.dist[v] <= st2.dist[cur] by {
            assert(reached(st, v));
        }
        assert(sound(m, st2, Some(cur), total));
    } else {
        if !st.unvisited.contains(n) {
            assert(reached(st, n));
        }
    }
}

/// Visiting the chosen cell keeps the search sound.
pub proof fn lemma_visit(m: Maze, st: Ledger, cur: Point, total: nat)
    requires
        sound(m, st, None, total),
        st.unvisited.contains(cur),
        cost_of(st.dist, cur) < usize::MAX,
        forall|q: Point|
            st.unvisited.contains(q) ==> cost_of(st.dist, cur) <= cost_of(st.dist, q),
    ensures
        sound(
            m,
            Ledger {
                unvisited: st.unvisited.remove(cur),
                dist: st.dist,
                prev: st.prev,
                explored: st.explored + 1,
            },
            Some(cur),
            total,
        ),
{
    let st2 = Ledger {
        unvisited: st.unvisited.remove(cur),
        dist: st.dist,
        prev: st.prev,
        explored: st.explored + 1,
    };
    assert(ranks(st2) =~= ranks(st));
    assert(reached(st, cur));
    assert forall|v: Point, q: Point|
        #[trigger] adjacent(v, q) && visited(m, st2, Some(cur), v) && m.passable(
            q,
        ) implies reached(st2, q) && st2.dist[q] <= st2.dist[v] + 1 by {
        assert(visited(m, st, None, v));
        assert(reached(st, q));
    }
    assert forall|v: Point| m.passable(v) && !st2.unvisited.contains(v) implies #[trigger] reached(
        st2,
        v,
    ) by {
        if v != cur {
            assert(reached(st, v));
        }
    }
    assert forall|v: Point, q: Point|
        #[trigger] reached(st2, v) && !st2.unvisited.contains(v) && #[trigger] st2.unvisited.contains(
            q,
        ) implies st2.dist[v] <= cost_of(st2.dist, q) by {
        assert(st.unvisited.contains(q));
        if v != cur {
            assert(reached(st, v));
        }
    }
    assert forall|v: Point| #[trigger]
        reached(st2, v) && !st2.unvisited.contains(v) implies st2.dist[v] <= st2.dist[cur] by {
        if v != cur {
            assert(reached(st, v));
            assert(st.unvisited.contains(cur));
        }
    }
    assert forall|v: Point| #[trigger] reached(st2, v) implies st2.dist[v] <= st2.explored by {
        assert(reached(st, v));
    }
    assert forall|v: Point| #[trigger] reached(st2, v) && v != m.start implies !st2.unvisited.contains(
        st2.prev[v],
    ) by {
        assert(reached(st, v));
    }
}

/// Once every passable neighbour of the held cell is reached, the cell counts
/// as visited and the search is sound with nothing held.
pub proof fn lemma_settle(m: Maze, st: Ledger, cur: Point, total: nat)
    requires
        sound(m, st, Some(cur), total),
        cur != m.end,
        forall|n: Point|
            adjacent(cur, n) && m.passable(n) ==> reached(st, n) && st.dist[n] <= st.dist[cur]
                + 1,
    ensures
        sound(m, st, None, total),
{
    assert forall|v: Point, q: Point|
        #[trigger] adjacent(v, q) && visited(m, st, None, v) && m.passable(q) implies reached(
        st,
        q,
    ) && st.dist[q] <= st.dist[v] + 1 by {
        if v != cur {
            assert(visited(m, st, Some(cur), v));
        }
    }
}

/// While the end is held, a walk from the start cannot get ahead of the
/// distances: its `i`-th cell is reached and no farther than `i`, as long as
/// `i` does not exceed the distance of the end.
pub proof fn lemma_no_shortcut(m: Maze, st: Ledger, total: nat, s: Seq<Point>, i: int)
    requires
        sound(m, st, Some(m.end), total),
        m.is_walk(s),
        s.len() > 0,
        s[0] == m.start,
        0 <= i < s.len(),
        i <= st.dist[m.end],
    ensures
        reached(st, s[i]),
        st.dist[s[i]] <= i,
    decreases i,
{
    if i == 0 {
        assert(ranks(st).dom().contains(m.start));
        assert(ranks(st)[m.start] == 0);
    } else {
        lemma_no_shortcut(m, st, total, s, i - 1);
        let v = s[i - 1];
        assert(hops(s, i - 1));
        assert(m.passable(v));
        assert(m.passable(s[i]));
        assert(reached(st, m.end));
        if st.unvisited.contains(v) {
            assert(st.dist[m.end] <= cost_of(st.dist, v));
        }
        assert(visited(m, st, Some(m.end), v));
    }
}

/// When no unvisited cell is reached, every cell that a walk from the start
/// gets to is reached and visited.
pub proof fn lemma_exhausted(m: Maze, st: Ledger, total: nat, s: Seq<Point>, i: int)
    requires
        sound(m, st, None, total),
        forall|q: Point| st.unvisited.contains(q) ==> !reached(st, q),
        m.is_walk(s),
        s.len() > 0,
        s[0] == m.start,
        0 <= i < s.len(),
    ensures
        reached(st, s[i]),
    decreases i,
{
    if i == 0 {
        assert(ranks(st).dom().contains(m.start));
    } else {
        lemma_exhausted(m, st, total, s, i - 1);
        assert(hops(s, i - 1));
        assert(m.passable(s[i - 1]));
        assert(m.passable(s[i]));
        assert(visited(m, st, None, s[i - 1]));
    }
}

/// `q` comes before column `x` of row `y` in row-major order.
pub open spec fn before(q: Point, x: int, y: int) -> bool {
    q.y < y || (q.y == y && q.x < x)
}

/// `best` is the nearest unvisited cell before column `x` of row `y`, if
/// there is an unvisited cell there at all.
pub open spec fn nearest_before(
    unvisited: Set<Point>,
    dist: Map<Point, usize>,
    best: Option<Point>,
    x: int,
    y: int,
) -> bool {
    &&& best matches Some(b) ==> unvisited.contains(b) && forall|q: Point|
        unvisited.contains(q) && before(q, x, y) ==> cost_of(dist, b) <= cost_of(dist, q)
    &&& best is None ==> forall|q: Point| before(q, x, y) ==> !unvisited.contains(q)
}

/// Scanning the first `x` columns of a row keeps the nearest cell so far.
pub proof fn lemma_scan_row(
    unvisited: Set<Point>,
    dist: Map<Point, usize>,
    y: nat,
    x: nat,
    acc: Option<Point>,
)
    requires
        nearest_before(unvisited, dist, acc, 0, y as int),
        x <= usize::MAX,
        y <= usize::MAX,
    ensures
        nearest_before(unvisited, dist, scan_row(unvisited, dist, y, x, acc), x as int, y as int),
    decreases x,
{
    if x > 0 {
        lemma_scan_row(unvisited, dist, y, (x - 1) as nat, acc);
        let p = Point { x: (x - 1) as usize, y: y as usize };
        assert forall|q: Point| before(q, x as int, y as int) implies before(
            q,
            x - 1,
            y as int,
        ) || q == p by {}
    }
}

/// Scanning the first `y` rows finds the nearest unvisited cell of those
/// rows, or none when they hold no unvisited cell.
pub proof fn lemma_scan_rows(unvisited: Set<Point>, dist: Map<Point, usize>, width: nat, y: nat)
    requires
        forall|q: Point| unvisited.contains(q) ==> q.x < width,
        width <= usize::MAX,
        y <= usize::MAX,
    ensures
        nearest_before(unvisited, dist, scan_rows(unvisited, dist, width, y), 0, y as int),
    decreases y,
{
    if y > 0 {
        lemma_scan_rows(unvisited, dist, width, (y - 1) as nat);
        let above = scan_rows(unvisited, dist, width, (y - 1) as nat);
        lemma_scan_row(unvisited, dist, (y - 1) as nat, width, above);
        assert forall|q: Point| unvisited.contains(q) && before(q, 0, y as int) implies before(
            q,
            width as int,
            y - 1,
        ) by {}
    }
}

/// Relaxing the first `k` neighbours of the held cell keeps the search
/// sound and leaves those neighbours reached, no farther than one step
/// beyond the held cell.
pub proof fn lemma_relax_all(m: Maze, st: Ledger, cur: Point, total: nat, k: nat)
    requires
        m.shaped(),
        sound(m, st, Some(cur), total),
        st.explored < usize::MAX,
        k <= m.neighbors(cur).len(),
    ensures
        sound(m, relax_all(st, cur, m.neighbors(cur), k), Some(cur), total),
        relax_all(st, cur, m.neighbors(cur), k).unvisited == st.unvisited,
        relax_all(st, cur, m.neighbors(cur), k).explored == st.explored,
        relax_all(st, cur, m.neighbors(cur), k).dist[cur] == st.dist[cur],
        forall|v: Point|
            reached(st, v) ==> reached(relax_all(st, cur, m.neighbors(cur), k), v) && relax_all(
                st,
                cur,
                m.neighbors(cur),
                k,
            ).dist[v] <= st.dist[v],
        forall|j: int|
            0 <= j < k ==> reached(
                relax_all(st, cur, m.neighbors(cur), k),
                #[trigger] m.neighbors(cur)[j],
            ) && relax_all(st, cur, m.neighbors(cur), k).dist[m.neighbors(cur)[j]]
                <= st.dist[cur] + 1,
    decreases k,
{
    if k > 0 {
        let nbrs = m.neighbors(cur);
        lemma_relax_all(m, st, cur, total, (k - 1) as nat);
        lemma_neighbors(m, cur);
        let mid = relax_all(st, cur, nbrs, (k - 1) as nat);
        assert(m.passable(nbrs[k - 1]) && adjacent(cur, nbrs[k - 1]));
        lemma_relax(m, mid, cur, nbrs[k - 1], total);
        let now = relax(mid, cur, nbrs[k - 1]);
        assert forall|j: int| 0 <= j < k implies reached(now, #[trigger] nbrs[j]) && now.dist[nbrs[j]]
            <= st.dist[cur] + 1 by {
            if j < k - 1 {
                assert(reached(mid, nbrs[j]));
            }
        }
        assert forall|v: Point| reached(st, v) implies reached(now, v) && now.dist[v]
            <= st.dist[v] by {
            assert(reached(mid, v));
        }
    }
}

/// Before the first visit the search is sound, and the path cells are no
/// more than the grid has cells.
pub proof fn lemma_opening(m: Maze)
    requires
        m.wf(),
    ensures
        opening(m).unvisited.finite(),
        opening(m).unvisited.len() <= m.width * m.height,
        sound(m, opening(m), None, opening(m).unvisited.len()),
{
    let st = opening(m);
    lemma_rectangle(m.width as nat, m.height as nat);
    assert(st.unvisited.subset_of(rectangle(m.width as nat, m.height as nat)));
    vstd::set_lib::lemma_len_subset(st.unvisited, rectangle(m.width as nat, m.height as nat));
    assert forall|v: Point| reached(st, v) implies v == m.start by {}
    assert(reached(st, m.start));
}

/// The path cells that have been visited.
pub open spec fn visited_cells(m: Maze, st: Ledger) -> Set<Point> {
    Set::new(|p: Point| m.passable(p) && !st.unvisited.contains(p))
}

/// The cells visited are as many as were counted, and all of them can be
/// reached from the start.
pub proof fn lemma_visited_cells(m: Maze, st: Ledger, hold: Option<Point>, total: nat)
    requires
        sound(m, st, hold, total),
        opening(m).unvisited.finite(),
        total == opening(m).unvisited.len(),
    ensures
        visited_cells(m, st).finite(),
        visited_cells(m, st).len() == st.explored,
        st.explored <= reachable(m).len(),
        forall|p: Point| visited_cells(m, st).contains(p) ==> reachable(m).contains(p),
{
    let all = opening(m).unvisited;
    let seen = visited_cells(m, st);
    vstd::set_lib::lemma_set_difference_len(all, st.unvisited);
    assert(all.difference(st.unvisited) =~= seen);
    assert(all.intersect(st.unvisited) =~= st.unvisited);
    lemma_linked_reachable(m, st.prev, ranks(st));
    assert forall|p: Point| seen.contains(p) implies reachable(m).contains(p) by {
        assert(reached(st, p));
        assert(ranks(st).dom().contains(p));
    }
    lemma_subset_of_reach(m, seen);
}

/// A sound uniform-cost search with fuel for every unvisited cell ends with
/// a shortest route, or with no path when there is none.
pub proof fn lemma_dijkstra_run(m: Maze, st: Ledger, total: nat, fuel: nat)
    requires
        m.wf(),
        sound(m, st, None, total),
        total <= m.width * m.height,
        opening(m).unvisited.finite(),
        total == opening(m).unvisited.len(),
        fuel >= st.unvisited.len(),
    ensures
        finds_route(m, dijkstra_run(m, st, fuel).0),
        never_longer(m, dijkstra_run(m, st, fuel).0),
        dijkstra_run(m, st, fuel).0.len() <= dijkstra_run(m, st, fuel).1 <= m.width * m.height,
        within_reach(m, dijkstra_run(m, st, fuel).0, dijkstra_run(m, st, fuel).1),
    decreases fuel,
{
    let cells = (m.width * m.height) as nat;
    lemma_visited_cells(m, st, None, total);
    assert(st.unvisited.contains(m.end));
    assert(st.unvisited.len() > 0) by {
        if st.unvisited.len() == 0 {
            assert(st.unvisited =~= Set::<Point>::empty()) by {
                vstd::set_lib::lemma_set_empty_equivalency_len(st.unvisited);
            }
        }
    }
    lemma_scan_rows(st.unvisited, st.dist, m.width as nat, m.height as nat);
    let chosen = scan_rows(st.unvisited, st.dist, m.width as nat, m.height as nat);
    assert(before(m.end, 0, m.height as int));
    let cur = chosen.unwrap();
    assert forall|q: Point| st.unvisited.contains(q) implies cost_of(st.dist, cur) <= cost_of(
        st.dist,
        q,
    ) by {
        assert(m.passable(q));
        assert(before(q, 0, m.height as int));
    }
    if cost_of(st.dist, cur) == usize::MAX {
        if m.connected(m.start, m.end) {
            let s = choose|s: Seq<Point>| m.is_route(m.start, m.end, s);
            lemma_exhausted(m, st, total, s, s.len() - 1);
            assert(false);
        }
        assert forall|p: Point| reachable(m).contains(p) implies visited_cells(m, st).contains(
            p,
        ) by {
            let s = choose|s: Seq<Point>| m.is_route(m.start, p, s);
            lemma_exhausted(m, st, total, s, s.len() - 1);
            assert(m.passable(s[s.len() - 1]));
        }
        assert(visited_cells(m, st) =~= reachable(m));
    } else {
        lemma_visit(m, st, cur, total);
        let taken = Ledger {
            unvisited: st.unvisited.remove(cur),
            dist: st.dist,
            prev: st.prev,
            explored: st.explored + 1,
        };
        lemma_visited_cells(m, taken, Some(cur), total);
        if cur == m.end {
            let path = trail(st.prev, m.start, cur, cells);
            lemma_trail_route(m, st.prev, ranks(taken), cur, cells);
            assert forall|s: Seq<Point>| m.is_route(m.start, m.end, s) implies path.len()
                <= s.len() by {
                if s.len() < path.len() {
                    lemma_no_shortcut(m, taken, total, s, s.len() - 1);
                }
            }
        } else {
            let nbrs = m.neighbors(cur);
            lemma_relax_all(m, taken, cur, total, nbrs.len());
            let after = relax_all(taken, cur, nbrs, nbrs.len());
            lemma_neighbors(m, cur);
            assert forall|n: Point| adjacent(cur, n) && m.passable(n) implies reached(after, n)
                && after.dist[n] <= after.dist[cur] + 1 by {
                let j = choose|j: int| 0 <= j < nbrs.len() && nbrs[j] == n;
                assert(reached(after, nbrs[j]));
            }
            lemma_settle(m, after, cur, total);
            lemma_dijkstra_run(m, after, total, (fuel - 1) as nat);
        }
    }
}

/// On a well-formed maze the uniform-cost path is empty exactly when the end
/// cannot be reached, and otherwise a route from start to end that no other
/// route undercuts; the cells visited are at least as many as the path has,
/// and no more than the grid has.
pub proof fn lemma_dijkstra_path(m: Maze)
    requires
        m.wf(),
    ensures
        finds_route(m, dijkstra_path(m)),
        never_longer(m, dijkstra_path(m)),
        dijkstra_path(m).len() <= dijkstra_explored(m) <= m.width * m.height,
        within_reach(m, dijkstra_path(m), dijkstra_explored(m)),
{
    lemma_opening(m);
    lemma_dijkstra_run(m, opening(m), opening(m).unvisited.len(), (m.width * m.height) as nat);
}

/// The path cells that come before column `x` of row `y`.
pub open spec fn cells_before(m: Maze, x: int, y: int) -> Set<Point> {
    Set::new(|q: Point| m.passable(q) && before(q, x, y))
}

/// The map that marks every path cell before column `x` of row `y` as
/// unreachable so far.
pub open spec fn marks_before(m: Maze, x: int, y: int) -> Map<Point, usize> {
    Map::new(|q: Point| m.passable(q) && before(q, x, y), |q: Point| usize::MAX)
}

/// The nearest unvisited cell, the first in row-major order among equally
/// near ones; `None` when every cell has been visited.
fn select(maze: &Maze, unvisited: &PointSet, dist: &PointMap<usize>) -> (best: Option<Point>)
    requires
        unvisited.wf(),
        unvisited.cols() == maze.width,
        unvisited.rows() == maze.height,
        dist.wf(),
    ensures
        best == scan_rows(unvisited@, dist@, maze.width as nat, maze.height as nat),
        best matches Some(b) ==> unvisited@.contains(b) && forall|q: Point|
            unvisited@.contains(q) ==> cost_of(dist@, b) <= cost_of(dist@, q),
        best is None ==> forall|q: Point| !unvisited@.contains(q),
{
    proof {
        unvisited.lemma_members();
    }
    let mut best: Option<Point> = None;
    let mut y: usize = 0;
    while y < maze.height
        invariant
            y <= maze.height,
            unvisited.wf(),
            dist.wf(),
            best == scan_rows(unvisited@, dist@, maze.width as nat, y as nat),
            best matches Some(b) ==> unvisited@.contains(b) && forall|q: Point|
                unvisited@.contains(q) && before(q, 0, y as int) ==> cost_of(dist@, b) <= cost_of(
                    dist@,
                    q,
                ),
            best is None ==> forall|q: Point| before(q, 0, y as int) ==> !unvisited@.contains(q),
            forall|p: Point|
                unvisited@.contains(p) ==> p.x < maze.width && p.y < maze.height,
        decreases maze.height - y,
    {
        let ghost row_start = best;
        let mut x: usize = 0;
        while x < maze.width
            invariant
                x <= maze.width,
                y < maze.height,
                unvisited.wf(),
                dist.wf(),
                best == scan_row(unvisited@, dist@, y as nat, x as nat, row_start),
                best matches Some(b) ==> unvisited@.contains(b) && forall|q: Point|
                    unvisited@.contains(q) && before(q, x as int, y as int) ==> cost_of(dist@, b)
                        <= cost_of(dist@, q),
                best is None ==> forall|q: Point|
                    before(q, x as int, y as int) ==> !unvisited@.contains(q),
                forall|p: Point|
                    unvisited@.contains(p) ==> p.x < maze.width && p.y < maze.height,
            decreases maze.width - x,
        {
            let p = Point { x, y };
            if unvisited.contains(p) {
                let wins = match best {
                    None => true,
                    Some(b) => cost(dist, p) < cost(dist, b),
                };
                if wins {
                    best = Some(p);
                }
            }
            x = x + 1;
        }
        y = y + 1;
    }
    best
}

/// Relaxes every neighbour of the held cell `cur` in the fixed order.
fn relax_neighbors(
    maze: &Maze,
    cur: Point,
    unvisited: &PointSet,
    dist: &mut PointMap<usize>,
    prev: &mut PointMap<Point>,
    Ghost(explored): Ghost<nat>,
    Ghost(total): Ghost<nat>,
)
    requires
        maze.shaped(),
        unvisited.wf(),
        old(dist).wf(),
        old(dist).cols() == maze.width,
        old(dist).rows() == maze.height,
        old(prev).wf(),
        old(prev).cols() == maze.width,
        old(prev).rows() == maze.height,
        explored < usize::MAX,
        sound(
            *maze,
            Ledger { unvisited: unvisited@, dist: old(dist)@, prev: old(prev)@, explored },
            Some(cur),
            total,
        ),
    ensures
        final(dist).wf(),
        final(dist).cols() == maze.width,
        final(dist).rows() == maze.height,
        final(prev).wf(),
        final(prev).cols() == maze.width,
        final(prev).rows() == maze.height,
        (Ledger { unvisited: unvisited@, dist: final(dist)@, prev: final(prev)@, explored })
            == relax_all(
            Ledger { unvisited: unvisited@, dist: old(dist)@, prev: old(prev)@, explored },
            cur,
            maze.neighbors(cur),
            maze.neighbors(cur).len(),
        ),
        sound(
            *maze,
            Ledger { unvisited: unvisited@, dist: final(dist)@, prev: final(prev)@, explored },
            Some(cur),
            total,
        ),
        forall|n: Point|
            adjacent(cur, n) && maze.passable(n) ==> reached(
                Ledger { unvisited: unvisited@, dist: final(dist)@, prev: final(prev)@, explored },
                n,
            ) && final(dist)@[n] <= final(dist)@[cur] + 1,
{
    let nbrs = maze.get_neighbors(cur);
    let ghost st0 = Ledger { unvisited: unvisited@, dist: dist@, prev: prev@, explored };
    proof {
        lemma_neighbors(*maze, cur);
    }
    let mut i: usize = 0;
    while i < nbrs.len()
        invariant
            i <= nbrs.len(),
            nbrs@ == maze.neighbors(cur),
            maze.shaped(),
            unvisited.wf(),
            dist.wf(),
            dist.cols() == maze.width,
            dist.rows() == maze.height,
            prev.wf(),
            prev.cols() == maze.width,
            prev.rows() == maze.height,
            explored < usize::MAX,
            forall|j: int|
                0 <= j < nbrs@.len() ==> maze.passable(#[trigger] nbrs@[j]) && adjacent(
                    cur,
                    nbrs@[j],
                ),
            (Ledger { unvisited: unvisited@, dist: dist@, prev: prev@, explored }) == relax_all(
                st0,
                cur,
                nbrs@,
                i as nat,
            ),
            sound(
                *maze,
                Ledger { unvisited: unvisited@, dist: dist@, prev: prev@, explored },
                Some(cur),
                total,
            ),
            forall|j: int|
                0 <= j < i ==> reached(
                    Ledger { unvisited: unvisited@, dist: dist@, prev: prev@, explored },
                    #[trigger] nbrs@[j],
                ) && dist@[nbrs@[j]] <= dist@[cur] + 1,
        decreases nbrs.len() - i,
    {
        let n = nbrs[i];
        let ghost here = Ledger { unvisited: unvisited@, dist: dist@, prev: prev@, explored };
        proof {
            lemma_relax(*maze, here, cur, n, total);
            assert forall|j: int| 0 <= j < i implies reached(here, #[trigger] nbrs@[j]) by {}
        }
        if unvisited.contains(n) {
            let alt = cost(dist, cur) + 1;
            if alt < cost(dist, n) {
                dist.insert(n, alt);
                prev.insert(n, cur);
            }
        }
        i = i + 1;
    }
    proof {
        let end_state = Ledger { unvisited: unvisited@, dist: dist@, prev: prev@, explored };
        assert forall|n: Point| adjacent(cur, n) && maze.passable(n) implies reached(
            end_state,
            n,
        ) && dist@[n] <= dist@[cur] + 1 by {
            let j = choose|j: int| 0 <= j < nbrs@.len() && nbrs@[j] == n;
            assert(reached(end_state, nbrs@[j]));
        }
    }
}

/// The search itself: the path found and the number of cells visited.
fn dijkstra_search(maze: &Maze) -> (found: (Vec<Point>, usize))
    requires
        maze.wf(),
    ensures
        found.0@ == dijkstra_path(*maze),
        found.1 == dijkstra_explored(*maze),
        found.0@.len() > 0 <==> maze.connected(maze.start, maze.end),
        found.0@.len() > 0 ==> maze.is_route(maze.start, maze.end, found.0@),
        forall|s: Seq<Point>|
            maze.is_route(maze.start, maze.end, s) ==> found.0@.len() <= s.len(),
        found.0@.len() <= found.1 <= maze.width * maze.height,
{
    let mut dist: PointMap<usize> = PointMap::new(maze.width, maze.height);
    let mut prev: PointMap<Point> = PointMap::new(maze.width, maze.height);
    let mut unvisited = PointSet::new(maze.width, maze.height);
    let mut explored: usize = 0;
    let ghost cells = (maze.width * maze.height) as nat;
    let mut y: usize = 0;
    while y < maze.height
        invariant
            y <= maze.height,
            maze.wf(),
            unvisited.wf(),
            unvisited.cols() == maze.width,
            unvisited.rows() == maze.height,
            dist.wf(),
            dist.cols() == maze.width,
            dist.rows() == maze.height,
            unvisited@ == cells_before(*maze, 0, y as int),
            dist@ == marks_before(*maze, 0, y as int),
        decreases maze.height - y,
    {
        let mut x: usize = 0;
        while x < maze.width
            invariant
                x <= maze.width,
                y < maze.height,
                maze.wf(),
                unvisited.wf(),
                unvisited.cols() == maze.width,
                unvisited.rows() == maze.height,
                dist.wf(),
                dist.cols() == maze.width,
                dist.rows() == maze.height,
                unvisited@ == cells_before(*maze, x as int, y as int),
                dist@ == marks_before(*maze, x as int, y as int),
            decreases maze.width - x,
        {
            let point = Point { x, y };
            if maze.is_path(point) {
                dist.insert(point, usize::MAX);
                unvisited.insert(point);
            }
            proof {
                assert(unvisited@ =~= cells_before(*maze, x + 1, y as int));
                assert(dist@ =~= marks_before(*maze, x + 1, y as int));
            }
            x = x + 1;
        }
        proof {
            assert(cells_before(*maze, x as int, y as int) =~= cells_before(*maze, 0, y + 1));
            assert(marks_before(*maze, x as int, y as int) =~= marks_before(*maze, 0, y + 1));
        }
        y = y + 1;
    }
    dist.insert(maze.start, 0);
    let ghost total = unvisited@.len();
    proof {
        unvisited.lemma_members();
        let st = Ledger { unvisited: unvisited@, dist: dist@, prev: prev@, explored: 0 };
        assert(st.unvisited =~= opening(*maze).unvisited);
        assert(st.dist =~= opening(*maze).dist);
        assert(st == opening(*maze));
        assert forall|v: Point| reached(st, v) implies v == maze.start by {}
        assert(reached(st, maze.start));
        assert(sound(*maze, st, None, total));
    }
    while !unvisited.is_empty()
        invariant
            maze.wf(),
            cells == maze.width * maze.height,
            unvisited.wf(),
            unvisited.cols() == maze.width,
            unvisited.rows() == maze.height,
            dist.wf(),
            dist.cols() == maze.width,
            dist.rows() == maze.height,
            prev.wf(),
            prev.cols() == maze.width,
            prev.rows() == maze.height,
            total <= cells,
            sound(
                *maze,
                Ledger { unvisited: unvisited@, dist: dist@, prev: prev@, explored: explored as nat },
                None,
                total,
            ),
            dijkstra_run(*maze, opening(*maze), cells) == dijkstra_run(
                *maze,
                Ledger { unvisited: unvisited@, dist: dist@, prev: prev@, explored: explored as nat },
                (cells - explored) as nat,
            ),
        decreases unvisited@.len(),
    {
        let ghost st = Ledger {
            unvisited: unvisited@,
            dist: dist@,
            prev: prev@,
            explored: explored as nat,
        };
        let chosen = select(maze, &unvisited, &dist);
        proof {
            if chosen is None {
                assert(unvisited@ =~= Set::<Point>::empty());
            }
        }
        let cur = chosen.unwrap();
        if cost(&dist, cur) == usize::MAX {
            proof {
                if maze.connected(maze.start, maze.end) {
                    let s = choose|s: Seq<Point>| maze.is_route(maze.start, maze.end, s);
                    lemma_exhausted(*maze, st, total, s, s.len() - 1);
                    assert(false);
                }
            }
            return (Vec::new(), explored);
        }
        proof {
            lemma_visit(*maze, st, cur, total);
        }
        unvisited.remove(cur);
        explored = explored + 1;
        let ghost taken = Ledger {
            unvisited: unvisited@,
            dist: dist@,
            prev: prev@,
            explored: explored as nat,
        };
        if cur == maze.end {
            let path = reconstruct(maze, &prev, cur, Ghost(ranks(taken)));
            proof {
                lemma_trail_route(*maze, prev@, ranks(taken), cur, cells);
                assert forall|s: Seq<Point>|
                    maze.is_route(maze.start, maze.end, s) implies path@.len() <= s.len() by {
                    if s.len() < path@.len() {
                        lemma_no_shortcut(*maze, taken, total, s, s.len() - 1);
                    }
                }
            }
            return (path, explored);
        }
        relax_neighbors(
            maze,
            cur,
            &unvisited,
            &mut dist,
            &mut prev,
            Ghost(explored as nat),
            Ghost(total),
        );
        proof {
            let after = Ledger {
                unvisited: unvisited@,
                dist: dist@,
                prev: prev@,
                explored: explored as nat,
            };
            lemma_settle(*maze, after, cur, total);
        }
    }
    proof {
        assert(unvisited@.contains(maze.end));
        assert(unvisited@.len() > 0);
        assert(false);
    }
    (Vec::new(), explored)
}

/// Solves the maze by uniform-cost search. The path returned is a shortest
/// route from start to end, or empty when the end cannot be reached. Among
/// equally near cells the first in row-major order is visited first.
pub fn dijkstra_solve(maze: &Maze) -> (sol: Solution)
    requires
        maze.wf(),
    ensures
        sol.algorithm@ == "Dijkstra"@,
        sol.path@ == dijkstra_path(*maze),
        sol.path_length == sol.path@.len(),
        sol.nodes_explored == dijkstra_explored(*maze),
        sol.path@.len() > 0 <==> maze.connected(maze.start, maze.end),
        sol.path@.len() > 0 ==> maze.is_route(maze.start, maze.end, sol.path@),
        forall|s: Seq<Point>|
            maze.is_route(maze.start, maze.end, s) ==> sol.path@.len() <= s.len(),
        sol.path_length <= sol.nodes_explored <= maze.width * maze.height,
        sol.path@.no_duplicates(),
        sol.nodes_explored <= reachable(*maze).len(),
        !maze.connected(maze.start, maze.end) ==> sol.nodes_explored == reachable(*maze).len(),
{
    let start_time = Instant::now();
    let (path, nodes_explored) = dijkstra_search(maze);
    proof {
        lemma_dijkstra_path(*maze);
    }
    let path_length = path.len();
    Solution {
        algorithm: "Dijkstra".to_string(),
        path,
        path_length,
        nodes_explored,
        time_taken: start_time.elapsed().as_micros(),
    }
}

} // verus!
