//! What the tree-building searches share: the parent links that a search
//! leaves behind, the trail those links spell out, and the bookkeeping of a
//! frontier that is swept cell by cell.

use std::collections::VecDeque;
use vstd::prelude::*;
use vstd::seq_lib::lemma_seq_contains_after_push;
use vstd::set_lib::lemma_len_subset;
use crate::grid::{adjacent, hops, lemma_neighbors, Maze, Point};
use crate::point_map::PointMap;
use crate::point_set::{lemma_rectangle, rectangle, PointSet};

verus! {

/// The cells from `start` to `node` that the parent links spell out,
/// following at most `fuel` links back from `node`.
pub open spec fn trail(parent: Map<Point, Point>, start: Point, node: Point, fuel: nat) -> Seq<
    Point,
>
    decreases fuel,
{
    if node == start || fuel == 0 || !parent.dom().contains(node) {
        seq![node]
    } else {
        trail(parent, start, parent[node], (fuel - 1) as nat).push(node)
    }
}

/// The parent links form a tree over the ranked cells: every ranked cell is
/// passable, and every ranked cell but the start has a ranked parent next to
/// it, of lower rank.
pub open spec fn linked(m: Maze, parent: Map<Point, Point>, rank: Map<Point, nat>) -> bool {
    &&& rank.dom().contains(m.start)
    &&& forall|v: Point|
        #[trigger] rank.dom().contains(v) ==> m.passable(v) && (v != m.start
            ==> parent.dom().contains(v))
    &&& forall|v: Point|
        rank.dom().contains(v) && v != m.start ==> {
            &&& rank.dom().contains(#[trigger] parent[v])
            &&& adjacent(parent[v], v)
            &&& rank[parent[v]] < rank[v]
        }
}

/// The start has rank 0 and every other ranked cell has the rank of its
/// parent plus one.
pub open spec fn tight(m: Maze, parent: Map<Point, Point>, rank: Map<Point, nat>) -> bool {
    &&& rank[m.start] == 0
    &&& forall|v: Point|
        #[trigger] rank.dom().contains(v) && v != m.start ==> rank[parent[v]] + 1 == rank[v]
}

/// With enough fuel, the trail of a ranked cell is a route from the start to
/// that cell, no longer than the cell's rank allows, and as long as the rank
/// says when the ranks are tight. Its cells are ranked no higher than the
/// cell it leads to, and none occurs twice.
pub proof fn lemma_trail_route(
    m: Maze,
    parent: Map<Point, Point>,
    rank: Map<Point, nat>,
    v: Point,
    fuel: nat,
)
    requires
        linked(m, parent, rank),
        rank.dom().contains(v),
        fuel >= rank[v],
    ensures
        m.is_route(m.start, v, trail(parent, m.start, v, fuel)),
        trail(parent, m.start, v, fuel).len() <= rank[v] + 1,
        tight(m, parent, rank) ==> trail(parent, m.start, v, fuel).len() == rank[v] + 1,
        trail(parent, m.start, v, fuel) == trail(parent, m.start, v, rank[v]),
        forall|i: int|
            0 <= i < trail(parent, m.start, v, fuel).len() ==> rank.dom().contains(
                #[trigger] trail(parent, m.start, v, fuel)[i],
            ) && rank[trail(parent, m.start, v, fuel)[i]] <= rank[v],
        trail(parent, m.start, v, fuel).no_duplicates(),
    decreases rank[v],
{
    if v != m.start {
        let u = parent[v];
        lemma_trail_route(m, parent, rank, u, (fuel - 1) as nat);
        lemma_trail_route(m, parent, rank, u, (rank[v] - 1) as nat);
        let t = trail(parent, m.start, u, (fuel - 1) as nat);
        let tv = trail(parent, m.start, v, fuel);
        assert(tv == t.push(v));
        assert forall|i: int| 0 <= i < tv.len() implies rank.dom().contains(#[trigger] tv[i])
            && rank[tv[i]] <= rank[v] by {
            if i < t.len() {
                assert(tv[i] == t[i]);
            }
        }
        assert forall|i: int, j: int|
            0 <= i < tv.len() && 0 <= j < tv.len() && i != j implies tv[i] != tv[j] by {
            if i < t.len() {
                assert(tv[i] == t[i]);
            }
            if j < t.len() {
                assert(tv[j] == t[j]);
            }
        }
        assert forall|i: int| 0 <= i < tv.len() implies m.passable(#[trigger] tv[i]) by {
            if i < t.len() {
                assert(tv[i] == t[i]);
            }
        }
        assert forall|i: int| 0 <= i < tv.len() - 1 implies #[trigger] hops(tv, i) by {
            if i < t.len() - 1 {
                assert(hops(t, i));
                assert(tv[i] == t[i]);
                assert(tv[i + 1] == t[i + 1]);
            } else {
                assert(tv[i] == t.last());
            }
        }
    }
}

/// The cells that can be reached from the start.
pub open spec fn reachable(m: Maze) -> Set<Point> {
    Set::new(|p: Point| m.connected(m.start, p))
}

/// The cells that can be reached from the start are no more than the grid
/// has cells.
pub proof fn lemma_reachable(m: Maze)
    ensures
        reachable(m).finite(),
        reachable(m).len() <= m.width * m.height,
{
    let rect = rectangle(m.width as nat, m.height as nat);
    lemma_rectangle(m.width as nat, m.height as nat);
    assert forall|p: Point| reachable(m).contains(p) implies rect.contains(p) by {
        let s = choose|s: Seq<Point>| m.is_route(m.start, p, s);
        assert(m.passable(s[s.len() - 1]));
    }
    lemma_len_subset(reachable(m), rect);
}

/// Cells that can all be reached from the start are no more than the cells
/// that can be reached.
pub proof fn lemma_subset_of_reach(m: Maze, cells: Set<Point>)
    requires
        forall|p: Point| cells.contains(p) ==> reachable(m).contains(p),
    ensures
        cells.finite(),
        cells.len() <= reachable(m).len(),
{
    lemma_reachable(m);
    assert(cells.subset_of(reachable(m)));
    lemma_len_subset(cells, reachable(m));
}

/// Every cell that the parent links rank can be reached from the start.
pub proof fn lemma_linked_reachable(m: Maze, parent: Map<Point, Point>, rank: Map<Point, nat>)
    requires
        linked(m, parent, rank),
    ensures
        forall|v: Point| rank.dom().contains(v) ==> reachable(m).contains(v),
{
    assert forall|v: Point| rank.dom().contains(v) implies reachable(m).contains(v) by {
        lemma_trail_route(m, parent, rank, v, rank[v]);
        assert(m.is_route(m.start, v, trail(parent, m.start, v, rank[v])));
    }
}

/// `path` visits no cell twice, and `explored` counts no more cells than can
/// be reached from the start, and all of them when the end cannot be
/// reached.
pub open spec fn within_reach(m: Maze, path: Seq<Point>, explored: nat) -> bool {
    &&& path.no_duplicates()
    &&& explored <= reachable(m).len()
    &&& (!m.connected(m.start, m.end) ==> explored == reachable(m).len())
}

/// `path` is what a search owes on `m`: empty exactly when the end cannot be
/// reached from the start, and otherwise a route from start to end.
pub open spec fn finds_route(m: Maze, path: Seq<Point>) -> bool {
    &&& path.len() > 0 <==> m.connected(m.start, m.end)
    &&& path.len() > 0 ==> m.is_route(m.start, m.end, path)
}

/// No route from start to end is shorter than `path`.
pub open spec fn never_longer(m: Maze, path: Seq<Point>) -> bool {
    forall|s: Seq<Point>| m.is_route(m.start, m.end, s) ==> path.len() <= s.len()
}

/// The cost recorded for `p`, `usize::MAX` where none is recorded.
pub open spec fn cost_of(costs: Map<Point, usize>, p: Point) -> usize {
    if costs.dom().contains(p) {
        costs[p]
    } else {
        usize::MAX
    }
}

/// The cost recorded for `p`, or `usize::MAX` where none is recorded.
pub fn cost(costs: &PointMap<usize>, p: Point) -> (c: usize)
    requires
        costs.wf(),
    ensures
        c == cost_of(costs@, p),
{
    match costs.get(p) {
        Some(c) => c,
        None => usize::MAX,
    }
}

/// The cells of `v` in opposite order.
pub fn reversed(v: &Vec<Point>) -> (r: Vec<Point>)
    ensures
        r@ == v@.reverse(),
{
    let mut r: Vec<Point> = Vec::new();
    let mut i: usize = v.len();
    while i > 0
        invariant
            i <= v.len(),
            r@.len() == v.len() - i,
            forall|j: int| 0 <= j < r@.len() ==> r@[j] == v@[v.len() - 1 - j],
        decreases i,
    {
        i = i - 1;
        r.push(v[i]);
    }
    r
}

/// Walks the parent links back from `node` to the start and returns the
/// cells met, start first.
pub(crate) fn reconstruct(
    maze: &Maze,
    parent: &PointMap<Point>,
    node: Point,
    Ghost(rank): Ghost<Map<Point, nat>>,
) -> (path: Vec<Point>)
    requires
        parent.wf(),
        linked(*maze, parent@, rank),
        rank.dom().contains(node),
    ensures
        path@ == trail(parent@, maze.start, node, rank[node]),
{
    let mut back: Vec<Point> = Vec::new();
    let mut at = node;
    let ghost full = rank[node];
    while at != maze.start
        invariant
            parent.wf(),
            linked(*maze, parent@, rank),
            rank.dom().contains(at),
            back@.len() + rank[at] <= full,
            trail(parent@, maze.start, node, full) == trail(
                parent@,
                maze.start,
                at,
                (full - back@.len()) as nat,
            ) + back@.reverse(),
        decreases rank[at],
    {
        proof {
            assert(rank.dom().contains(parent@[at]));
        }
        let up = parent.get(at).unwrap();
        proof {
            let f = (full - back@.len()) as nat;
            let t = trail(parent@, maze.start, up, (f - 1) as nat);
            assert(trail(parent@, maze.start, at, f) == t.push(at));
            assert(back@.push(at).reverse() =~= seq![at] + back@.reverse());
            assert(t.push(at) + back@.reverse() =~= t + (seq![at] + back@.reverse()));
        }
        back.push(at);
        at = up;
    }
    proof {
        assert(back@.push(at).reverse() =~= seq![at] + back@.reverse());
    }
    back.push(at);
    reversed(&back)
}

/// The state of a sweep: the cells waiting to be expanded, in the order in
/// which they were found; the cells found so far; the parent of each found
/// cell but the start; and how many cells have been taken for expansion.
pub struct Sweep {
    pub pending: Seq<Point>,
    pub seen: Set<Point>,
    pub parent: Map<Point, Point>,
    pub explored: nat,
}

/// The sweep before anything has been expanded: only the start is known, and
/// it waits.
pub open spec fn initial(m: Maze) -> Sweep {
    Sweep {
        pending: Seq::<Point>::empty().push(m.start),
        seen: Set::<Point>::empty().insert(m.start),
        parent: Map::<Point, Point>::empty(),
        explored: 0,
    }
}

/// The sweep after neighbour `n` of `cur` has been looked at: a cell not yet
/// seen is marked, linked to `cur` and appended to the waiting cells.
pub open spec fn note(st: Sweep, cur: Point, n: Point) -> Sweep {
    if st.seen.contains(n) {
        st
    } else {
        Sweep {
            pending: st.pending.push(n),
            seen: st.seen.insert(n),
            parent: st.parent.insert(n, cur),
            explored: st.explored,
        }
    }
}

/// The sweep after the first `k` cells of `nbrs` have been looked at as
/// neighbours of `cur`.
pub open spec fn expand(st: Sweep, cur: Point, nbrs: Seq<Point>, k: nat) -> Sweep
    decreases k,
{
    if k == 0 {
        st
    } else {
        note(expand(st, cur, nbrs, (k - 1) as nat), cur, nbrs[k - 1])
    }
}

/// The ranks after neighbour `n` of `cur` has been looked at: a new cell
/// ranks one above `cur`.
pub open spec fn note_rank(st: Sweep, rank: Map<Point, nat>, cur: Point, n: Point) -> Map<
    Point,
    nat,
> {
    if st.seen.contains(n) {
        rank
    } else {
        rank.insert(n, rank[cur] + 1)
    }
}

/// The ranks after the first `k` cells of `nbrs` have been looked at as
/// neighbours of `cur`.
pub open spec fn expand_rank(
    st: Sweep,
    rank: Map<Point, nat>,
    cur: Point,
    nbrs: Seq<Point>,
    k: nat,
) -> Map<Point, nat>
    decreases k,
{
    if k == 0 {
        rank
    } else {
        note_rank(
            expand(st, cur, nbrs, (k - 1) as nat),
            expand_rank(st, rank, cur, nbrs, (k - 1) as nat),
            cur,
            nbrs[k - 1],
        )
    }
}

/// `v` has been expanded: it is seen, waits no longer, and is not the cell
/// held for expansion right now.
pub open spec fn settled(st: Sweep, hold: Option<Point>, v: Point) -> bool {
    st.seen.contains(v) && !st.pending.contains(v) && hold != Some(v)
}

/// Every passable cell next to a settled cell has been seen.
pub open spec fn closed_off(m: Maze, st: Sweep, hold: Option<Point>) -> bool {
    forall|v: Point, n: Point|
        #[trigger] adjacent(v, n) && settled(st, hold, v) && m.passable(n) ==> st.seen.contains(n)
}

/// What holds of a sweep between any two of its steps, with `hold` the cell
/// under expansion, if any.
pub open spec fn steady(m: Maze, st: Sweep, rank: Map<Point, nat>, hold: Option<Point>) -> bool {
    &&& rank.dom() == st.seen
    &&& st.seen.finite()
    &&& linked(m, st.parent, rank)
    &&& st.explored + st.pending.len() == st.seen.len()
    &&& forall|i: int| 0 <= i < st.pending.len() ==> st.seen.contains(#[trigger] st.pending[i])
    &&& (hold matches Some(c) ==> st.seen.contains(c))
    &&& closed_off(m, st, hold)
    &&& forall|v: Point| #[trigger] st.seen.contains(v) ==> rank[v] <= st.explored
    &&& (hold matches Some(c) ==> rank[c] < st.explored)
    &&& (st.seen.contains(m.end) ==> st.pending.contains(m.end) || hold == Some(m.end))
}

/// The waiting cell at position `i` ranks no higher than the one at `j`.
pub open spec fn in_order(pending: Seq<Point>, rank: Map<Point, nat>, i: int, j: int) -> bool {
    rank[pending[i]] <= rank[pending[j]]
}

/// What holds in addition when the waiting cells are taken first in, first
/// out: ranks are distances in steps, the waiting cells are in order of rank
/// and rank `c` or `c + 1`, and across an edge out of a settled cell the rank
/// grows by at most one.
pub open spec fn layered(
    m: Maze,
    st: Sweep,
    rank: Map<Point, nat>,
    hold: Option<Point>,
    c: nat,
) -> bool {
    &&& tight(m, st.parent, rank)
    &&& forall|i: int|
        0 <= i < st.pending.len() ==> c <= rank[#[trigger] st.pending[i]] <= c + 1
    &&& forall|i: int, j: int|
        0 <= i < j < st.pending.len() ==> #[trigger] in_order(st.pending, rank, i, j)
    &&& forall|v: Point| #[trigger] st.seen.contains(v) ==> rank[v] <= c + 1
    &&& (hold matches Some(x) ==> rank[x] == c)
    &&& forall|v: Point, n: Point|
        #[trigger] adjacent(v, n) && settled(st, hold, v) && m.passable(n) ==> rank[n] <= rank[v]
            + 1
}

/// Looking at one neighbour keeps a sweep steady, and layered if it was.
pub proof fn lemma_note(m: Maze, st: Sweep, rank: Map<Point, nat>, cur: Point, n: Point)
    requires
        steady(m, st, rank, Some(cur)),
        adjacent(cur, n),
        m.passable(n),
    ensures
        steady(m, note(st, cur, n), note_rank(st, rank, cur, n), Some(cur)),
        note(st, cur, n).seen.contains(n),
        note_rank(st, rank, cur, n)[cur] == rank[cur],
        forall|v: Point| st.seen.contains(v) ==> note(st, cur, n).seen.contains(v),
        layered(m, st, rank, Some(cur), rank[cur]) ==> layered(
            m,
            note(st, cur, n),
            note_rank(st, rank, cur, n),
            Some(cur),
            rank[cur],
        ),
{
    broadcast use lemma_seq_contains_after_push;

    if !st.seen.contains(n) {
        let st2 = note(st, cur, n);
        let rank2 = note_rank(st, rank, cur, n);
        let hold = Some(cur);
        assert(st2.pending.contains(n)) by {
            assert(st2.pending[st.pending.len() as int] == n);
        }
        assert forall|v: Point| settled(st2, hold, v) implies settled(st, hold, v) by {
            if st.pending.contains(v) {
                assert(st2.pending.contains(v));
            }
        }
        assert(closed_off(m, st2, hold)) by {
            assert forall|v: Point, q: Point|
                #[trigger] adjacent(v, q) && settled(st2, hold, v) && m.passable(
                    q,
                ) implies st2.seen.contains(q) by {
                assert(settled(st, hold, v));
            }
        }
        assert forall|v: Point| rank2.dom().contains(v) && v != m.start implies {
            &&& rank2.dom().contains(#[trigger] st2.parent[v])
            &&& adjacent(st2.parent[v], v)
            &&& rank2[st2.parent[v]] < rank2[v]
        } by {
            if v != n {
                assert(rank.dom().contains(st.parent[v]));
            }
        }
        assert(linked(m, st2.parent, rank2));
        assert forall|i: int| 0 <= i < st2.pending.len() implies st2.seen.contains(
            #[trigger] st2.pending[i],
        ) by {
            if i < st.pending.len() {
                assert(st2.pending[i] == st.pending[i]);
            }
        }
        if st.seen.contains(m.end) {
            if st.pending.contains(m.end) {
                assert(st2.pending.contains(m.end));
            }
        }
        assert(steady(m, st2, rank2, hold));
        if layered(m, st, rank, hold, rank[cur]) {
            let c = rank[cur];
            assert forall|i: int| 0 <= i < st2.pending.len() implies c <= rank2[#[trigger] st2.pending[i]]
                <= c + 1 by {
                if i < st.pending.len() {
                    assert(st2.pending[i] == st.pending[i]);
                }
            }
            assert forall|i: int, j: int| 0 <= i < j < st2.pending.len() implies #[trigger] in_order(
                st2.pending,
                rank2,
                i,
                j,
            ) by {
                assert(st2.pending[i] == st.pending[i]);
                if j < st.pending.len() {
                    assert(st2.pending[j] == st.pending[j]);
                    assert(in_order(st.pending, rank, i, j));
                }
            }
            assert forall|v: Point, q: Point|
                #[trigger] adjacent(v, q) && settled(st2, hold, v) && m.passable(q) implies rank2[q]
                <= rank2[v] + 1 by {
                assert(settled(st, hold, v));
                assert(st.seen.contains(q));
            }
            assert(layered(m, st2, rank2, hold, c));
        }
    }
}

/// Taking the first waiting cell for expansion keeps a sweep steady, and
/// layered if it was.
pub proof fn lemma_take_first(m: Maze, st: Sweep, rank: Map<Point, nat>)
    requires
        steady(m, st, rank, None),
        st.pending.len() > 0,
    ensures
        steady(
            m,
            Sweep {
                pending: st.pending.drop_first(),
                seen: st.seen,
                parent: st.parent,
                explored: st.explored + 1,
            },
            rank,
            Some(st.pending[0]),
        ),
        layered(m, st, rank, None, rank[st.pending[0]]) ==> layered(
            m,
            Sweep {
                pending: st.pending.drop_first(),
                seen: st.seen,
                parent: st.parent,
                explored: st.explored + 1,
            },
            rank,
            Some(st.pending[0]),
            rank[st.pending[0]],
        ),
{
    let cur = st.pending[0];
    let rest = st.pending.drop_first();
    let st2 = Sweep { pending: rest, seen: st.seen, parent: st.parent, explored: st.explored + 1 };
    assert forall|v: Point| st.pending.contains(v) implies v == cur || rest.contains(v) by {
        let i = choose|i: int| 0 <= i < st.pending.len() && st.pending[i] == v;
        if i > 0 {
            assert(rest[i - 1] == v);
        }
    }
    assert forall|v: Point| settled(st2, Some(cur), v) implies settled(st, None, v) by {}
    assert forall|i: int| 0 <= i < rest.len() implies st.seen.contains(#[trigger] rest[i]) by {
        assert(rest[i] == st.pending[i + 1]);
    }
    assert(closed_off(m, st2, Some(cur))) by {
        assert forall|v: Point, q: Point|
            #[trigger] adjacent(v, q) && settled(st2, Some(cur), v) && m.passable(
                q,
            ) implies st2.seen.contains(q) by {
            assert(settled(st, None, v));
        }
    }
    assert(steady(m, st2, rank, Some(cur)));
    if layered(m, st, rank, None, rank[cur]) {
        let c = rank[cur];
        assert forall|i: int| 0 <= i < rest.len() implies c <= rank[#[trigger] rest[i]] <= c + 1 by {
            assert(rest[i] == st.pending[i + 1]);
        }
        assert forall|i: int, j: int| 0 <= i < j < rest.len() implies #[trigger] in_order(
            rest,
            rank,
            i,
            j,
        ) by {
            assert(rest[i] == st.pending[i + 1]);
            assert(rest[j] == st.pending[j + 1]);
            assert(in_order(st.pending, rank, i + 1, j + 1));
        }
        assert forall|v: Point, q: Point|
            #[trigger] adjacent(v, q) && settled(st2, Some(cur), v) && m.passable(q) implies rank[q]
            <= rank[v] + 1 by {
            assert(settled(st, None, v));
        }
        assert(layered(m, st2, rank, Some(cur), c));
    }
}

/// Taking the last waiting cell for expansion keeps a sweep steady.
pub proof fn lemma_take_last(m: Maze, st: Sweep, rank: Map<Point, nat>)
    requires
        steady(m, st, rank, None),
        st.pending.len() > 0,
    ensures
        steady(
            m,
            Sweep {
                pending: st.pending.drop_last(),
                seen: st.seen,
                parent: st.parent,
                explored: st.explored + 1,
            },
            rank,
            Some(st.pending.last()),
        ),
{
    let cur = st.pending.last();
    let rest = st.pending.drop_last();
    let st2 = Sweep { pending: rest, seen: st.seen, parent: st.parent, explored: st.explored + 1 };
    assert forall|v: Point| st.pending.contains(v) implies v == cur || rest.contains(v) by {
        let i = choose|i: int| 0 <= i < st.pending.len() && st.pending[i] == v;
        if i < rest.len() {
            assert(rest[i] == v);
        }
    }
    assert forall|i: int| 0 <= i < rest.len() implies st.seen.contains(#[trigger] rest[i]) by {
        assert(rest[i] == st.pending[i]);
    }
    assert(closed_off(m, st2, Some(cur))) by {
        assert forall|v: Point, q: Point|
            #[trigger] adjacent(v, q) && settled(st2, Some(cur), v) && m.passable(
                q,
            ) implies st2.seen.contains(q) by {
            assert(settled(st, None, v));
        }
    }
}

/// Once every passable neighbour of the held cell has been seen, the cell
/// counts as settled: the sweep is steady with nothing held, and layered by
/// the rank of the first waiting cell if it was layered.
pub proof fn lemma_release(m: Maze, st: Sweep, rank: Map<Point, nat>, cur: Point)
    requires
        steady(m, st, rank, Some(cur)),
        cur != m.end,
        forall|n: Point| adjacent(cur, n) && m.passable(n) ==> st.seen.contains(n),
    ensures
        steady(m, st, rank, None),
        layered(m, st, rank, Some(cur), rank[cur]) && st.pending.len() > 0 ==> layered(
            m,
            st,
            rank,
            None,
            rank[st.pending[0]],
        ),
{
    assert(closed_off(m, st, None)) by {
        assert forall|v: Point, q: Point|
            #[trigger] adjacent(v, q) && settled(st, None, v) && m.passable(
                q,
            ) implies st.seen.contains(q) by {
            if v != cur {
                assert(settled(st, Some(cur), v));
            }
        }
    }
    if layered(m, st, rank, Some(cur), rank[cur]) && st.pending.len() > 0 {
        let c = rank[cur];
        let c2 = rank[st.pending[0]];
        assert forall|i: int| 0 <= i < st.pending.len() implies c2 <= rank[#[trigger] st.pending[i]]
            <= c2 + 1 by {
            if i > 0 {
                assert(in_order(st.pending, rank, 0, i));
            }
        }
        assert forall|v: Point, q: Point|
            #[trigger] adjacent(v, q) && settled(st, None, v) && m.passable(q) implies rank[q]
            <= rank[v] + 1 by {
            if v != cur {
                assert(settled(st, Some(cur), v));
            }
        }
        assert(layered(m, st, rank, None, c2));
    }
}

/// When nothing waits and nothing is held, every cell that a walk from the
/// start reaches has been seen.
pub proof fn lemma_swept(m: Maze, st: Sweep, rank: Map<Point, nat>, s: Seq<Point>, i: int)
    requires
        steady(m, st, rank, None),
        st.pending.len() == 0,
        m.is_walk(s),
        s.len() > 0,
        s[0] == m.start,
        0 <= i < s.len(),
    ensures
        st.seen.contains(s[i]),
    decreases i,
{
    if i > 0 {
        lemma_swept(m, st, rank, s, i - 1);
        assert(hops(s, i - 1));
        assert(settled(st, None, s[i - 1]));
        assert(m.passable(s[i]));
    }
}

/// In a layered sweep that holds the end, a walk from the start cannot get
/// ahead of the ranks: its `i`-th cell has been seen and ranks at most `i`,
/// as long as `i` does not exceed the rank of the end.
pub proof fn lemma_floor(m: Maze, st: Sweep, rank: Map<Point, nat>, s: Seq<Point>, i: int)
    requires
        steady(m, st, rank, Some(m.end)),
        layered(m, st, rank, Some(m.end), rank[m.end]),
        m.is_walk(s),
        s.len() > 0,
        s[0] == m.start,
        0 <= i < s.len(),
        i <= rank[m.end],
    ensures
        st.seen.contains(s[i]),
        rank[s[i]] <= i,
    decreases i,
{
    if i > 0 {
        lemma_floor(m, st, rank, s, i - 1);
        let v = s[i - 1];
        assert(hops(s, i - 1));
        assert(m.passable(s[i]));
        if st.pending.contains(v) {
            let k = choose|k: int| 0 <= k < st.pending.len() && st.pending[k] == v;
            assert(rank[m.end] <= rank[st.pending[k]]);
        }
        assert(settled(st, Some(m.end), v));
    }
}

/// Looking at the first `k` neighbours of the held cell keeps a sweep steady,
/// and layered if it was, and leaves those neighbours seen.
pub proof fn lemma_expand(m: Maze, st: Sweep, rank: Map<Point, nat>, cur: Point, k: nat)
    requires
        m.shaped(),
        steady(m, st, rank, Some(cur)),
        k <= m.neighbors(cur).len(),
    ensures
        steady(
            m,
            expand(st, cur, m.neighbors(cur), k),
            expand_rank(st, rank, cur, m.neighbors(cur), k),
            Some(cur),
        ),
        expand_rank(st, rank, cur, m.neighbors(cur), k)[cur] == rank[cur],
        expand(st, cur, m.neighbors(cur), k).explored == st.explored,
        forall|j: int|
            0 <= j < k ==> expand(st, cur, m.neighbors(cur), k).seen.contains(
                #[trigger] m.neighbors(cur)[j],
            ),
        layered(m, st, rank, Some(cur), rank[cur]) ==> layered(
            m,
            expand(st, cur, m.neighbors(cur), k),
            expand_rank(st, rank, cur, m.neighbors(cur), k),
            Some(cur),
            rank[cur],
        ),
    decreases k,
{
    if k > 0 {
        let nbrs = m.neighbors(cur);
        let j = (k - 1) as nat;
        lemma_expand(m, st, rank, cur, j);
        lemma_neighbors(m, cur);
        let mid = expand(st, cur, nbrs, j);
        let mid_rank = expand_rank(st, rank, cur, nbrs, j);
        assert(m.passable(nbrs[k - 1]) && adjacent(cur, nbrs[k - 1]));
        lemma_note(m, mid, mid_rank, cur, nbrs[k - 1]);
    }
}

/// The cells seen by a steady sweep are no more than the grid has cells.
pub proof fn lemma_seen_bound(m: Maze, st: Sweep, rank: Map<Point, nat>, hold: Option<Point>)
    requires
        steady(m, st, rank, hold),
    ensures
        st.seen.len() <= m.width * m.height,
{
    lemma_rectangle(m.width as nat, m.height as nat);
    assert forall|p: Point| st.seen.contains(p) implies rectangle(
        m.width as nat,
        m.height as nat,
    ).contains(p) by {
        assert(rank.dom().contains(p));
        assert(m.passable(p));
    }
    lemma_len_subset(st.seen, rectangle(m.width as nat, m.height as nat));
}

/// The sweep before anything has been expanded is steady and layered.
pub proof fn lemma_initial(m: Maze)
    requires
        m.wf(),
    ensures
        steady(m, initial(m), Map::<Point, nat>::empty().insert(m.start, 0nat), None),
        layered(m, initial(m), Map::<Point, nat>::empty().insert(m.start, 0nat), None, 0),
        initial(m).pending.len() == 1,
        initial(m).pending[0] == m.start,
{
    let st = initial(m);
    assert(st.pending[0] == m.start);
    assert forall|v: Point| st.pending.contains(v) implies v == m.start by {}
    assert(st.pending.contains(m.start));
}

/// Looks at every neighbour of `cur` in the fixed order: a cell not yet seen
/// is marked, linked to `cur` and appended to the waiting cells.
pub(crate) fn discover(
    maze: &Maze,
    cur: Point,
    pending: &mut VecDeque<Point>,
    seen: &mut PointSet,
    parent: &mut PointMap<Point>,
    Ghost(explored): Ghost<nat>,
    Ghost(rank): Ghost<Map<Point, nat>>,
) -> (ranked: Ghost<Map<Point, nat>>)
    requires
        maze.shaped(),
        old(seen).wf(),
        old(seen).cols() == maze.width,
        old(seen).rows() == maze.height,
        old(parent).wf(),
        old(parent).cols() == maze.width,
        old(parent).rows() == maze.height,
        steady(
            *maze,
            Sweep { pending: old(pending)@, seen: old(seen)@, parent: old(parent)@, explored },
            rank,
            Some(cur),
        ),
    ensures
        final(seen).wf(),
        final(seen).cols() == maze.width,
        final(seen).rows() == maze.height,
        final(parent).wf(),
        final(parent).cols() == maze.width,
        final(parent).rows() == maze.height,
        (Sweep { pending: final(pending)@, seen: final(seen)@, parent: final(parent)@, explored })
            == expand(
            Sweep { pending: old(pending)@, seen: old(seen)@, parent: old(parent)@, explored },
            cur,
            maze.neighbors(cur),
            maze.neighbors(cur).len(),
        ),
        steady(
            *maze,
            Sweep { pending: final(pending)@, seen: final(seen)@, parent: final(parent)@, explored },
            ranked@,
            Some(cur),
        ),
        ranked@[cur] == rank[cur],
        forall|n: Point| adjacent(cur, n) && maze.passable(n) ==> final(seen)@.contains(n),
        layered(
            *maze,
            Sweep { pending: old(pending)@, seen: old(seen)@, parent: old(parent)@, explored },
            rank,
            Some(cur),
            rank[cur],
        ) ==> layered(
            *maze,
            Sweep { pending: final(pending)@, seen: final(seen)@, parent: final(parent)@, explored },
            ranked@,
            Some(cur),
            rank[cur],
        ),
{
    let nbrs = maze.get_neighbors(cur);
    let ghost st0 = Sweep { pending: pending@, seen: seen@, parent: parent@, explored };
    let ghost mut rk = rank;
    proof {
        lemma_neighbors(*maze, cur);
    }
    let mut i: usize = 0;
    while i < nbrs.len()
        invariant
            i <= nbrs.len(),
            nbrs@ == maze.neighbors(cur),
            maze.shaped(),
            seen.wf(),
            seen.cols() == maze.width,
            seen.rows() == maze.height,
            parent.wf(),
            parent.cols() == maze.width,
            parent.rows() == maze.height,
            forall|j: int|
                0 <= j < nbrs@.len() ==> maze.passable(#[trigger] nbrs@[j]) && adjacent(
                    cur,
                    nbrs@[j],
                ),
            (Sweep { pending: pending@, seen: seen@, parent: parent@, explored }) == expand(
                st0,
                cur,
                nbrs@,
                i as nat,
            ),
            steady(
                *maze,
                Sweep { pending: pending@, seen: seen@, parent: parent@, explored },
                rk,
                Some(cur),
            ),
            rk[cur] == rank[cur],
            forall|j: int| 0 <= j < i ==> seen@.contains(#[trigger] nbrs@[j]),
            layered(*maze, st0, rank, Some(cur), rank[cur]) ==> layered(
                *maze,
                Sweep { pending: pending@, seen: seen@, parent: parent@, explored },
                rk,
                Some(cur),
                rank[cur],
            ),
        decreases nbrs.len() - i,
    {
        let n = nbrs[i];
        let ghost before = Sweep { pending: pending@, seen: seen@, parent: parent@, explored };
        proof {
            lemma_note(*maze, before, rk, cur, n);
        }
        if !seen.contains(n) {
            seen.insert(n);
            parent.insert(n, cur);
            pending.push_back(n);
            proof {
                rk = rk.insert(n, rk[cur] + 1);
            }
        }
        i = i + 1;
    }
    proof {
        assert forall|n: Point| adjacent(cur, n) && maze.passable(n) implies seen@.contains(n) by {
            let j = choose|j: int| 0 <= j < nbrs@.len() && nbrs@[j] == n;
            assert(seen@.contains(nbrs@[j]));
        }
    }
    Ghost(rk)
}

} // verus!
