//! A random walk with backtracking: step to a random neighbour not yet
//! visited, or step back when there is none.

use std::time::Instant;
use vstd::prelude::*;
use vstd::set_lib::lemma_len_subset;
use crate::grid::{adjacent, hops, lemma_neighbors, lemma_route_extends, Maze, Point};
use crate::point_set::PointSet;
use crate::rng::draw_below;
use crate::search::{finds_route, lemma_reachable, reachable};
use crate::solution::Solution;

verus! {

/// The state of a random walk as proofs see it: the cells from the start to
/// where the walk stands, the cells visited, their number, and the number of
/// steps taken.
pub struct Trek {
    pub path: Seq<Point>,
    pub seen: Set<Point>,
    pub explored: nat,
    pub steps: nat,
}

/// Those of the first `k` cells of `nbrs` that are not in `seen`, in order.
pub open spec fn keep_fresh(nbrs: Seq<Point>, seen: Set<Point>, k: nat) -> Seq<Point>
    decreases k,
{
    if k == 0 {
        Seq::<Point>::empty()
    } else {
        let kept = keep_fresh(nbrs, seen, (k - 1) as nat);
        if seen.contains(nbrs[k - 1]) {
            kept
        } else {
            kept.push(nbrs[k - 1])
        }
    }
}

/// The neighbours of `p` that have not been visited, in the fixed order.
pub open spec fn fresh(m: Maze, seen: Set<Point>, p: Point) -> Seq<Point> {
    keep_fresh(m.neighbors(p), seen, m.neighbors(p).len())
}

/// Every cell kept is one of the first `k` cells of `nbrs` and not in `seen`.
pub proof fn lemma_keep_fresh(nbrs: Seq<Point>, seen: Set<Point>, k: nat)
    requires
        k <= nbrs.len(),
    ensures
        keep_fresh(nbrs, seen, k).len() <= k,
        forall|j: int|
            0 <= j < keep_fresh(nbrs, seen, k).len() ==> !seen.contains(
                #[trigger] keep_fresh(nbrs, seen, k)[j],
            ) && exists|i: int| 0 <= i < k && nbrs[i] == keep_fresh(nbrs, seen, k)[j],
        keep_fresh(nbrs, seen, k).len() == 0 ==> forall|i: int|
            0 <= i < k ==> seen.contains(#[trigger] nbrs[i]),
    decreases k,
{
    if k > 0 {
        lemma_keep_fresh(nbrs, seen, (k - 1) as nat);
        let kept = keep_fresh(nbrs, seen, (k - 1) as nat);
        let now = keep_fresh(nbrs, seen, k);
        assert forall|j: int| 0 <= j < now.len() implies !seen.contains(#[trigger] now[j])
            && exists|i: int| 0 <= i < k && nbrs[i] == now[j] by {
            if j < kept.len() {
                assert(now[j] == kept[j]);
                let i = choose|i: int| 0 <= i < k - 1 && nbrs[i] == kept[j];
                assert(0 <= i < k && nbrs[i] == now[j]);
            } else {
                assert(now[j] == nbrs[k - 1]);
            }
        }
    }
}

/// The walk before its first step: on the start, which counts as visited.
pub open spec fn at_start(m: Maze) -> Trek {
    Trek {
        path: Seq::<Point>::empty().push(m.start),
        seen: Set::<Point>::empty().insert(m.start),
        explored: 1,
        steps: 0,
    }
}

/// The walk can neither advance nor step back: it stands on its first cell
/// and every neighbour has been visited.
pub open spec fn stuck(m: Maze, st: Trek) -> bool {
    st.path.len() <= 1 && fresh(m, st.seen, st.path.last()).len() == 0
}

/// One step of the walk, given the index `pick` drawn among the unvisited
/// neighbours: with such neighbours the walk moves to the one picked; with
/// none it steps back one cell, or stays where it is when it stands on its
/// first cell.
pub open spec fn walk_step(m: Maze, st: Trek, pick: int) -> Trek {
    let options = fresh(m, st.seen, st.path.last());
    if options.len() == 0 {
        Trek {
            path: if st.path.len() > 1 {
                st.path.drop_last()
            } else {
                st.path
            },
            seen: st.seen,
            explored: st.explored,
            steps: st.steps + 1,
        }
    } else {
        Trek {
            path: st.path.push(options[pick]),
            seen: st.seen.insert(options[pick]),
            explored: st.explored + 1,
            steps: st.steps + 1,
        }
    }
}

/// What holds of a random walk after any number of steps, whatever was
/// drawn: its path is a walk from the start that visits no cell twice; every
/// cell of it has been visited; every visited cell is connected to the
/// start; a visited cell that the walk has stepped back from has no
/// unvisited neighbour; and neither the path nor the count of visited cells
/// outruns the steps.
pub open spec fn roaming(m: Maze, st: Trek) -> bool {
    &&& st.path.len() > 0
    &&& st.path[0] == m.start
    &&& m.is_walk(st.path)
    &&& st.path.no_duplicates()
    &&& forall|i: int| 0 <= i < st.path.len() ==> st.seen.contains(#[trigger] st.path[i])
    &&& forall|p: Point|
        #[trigger] st.seen.contains(p) ==> m.passable(p) && m.connected(m.start, p)
    &&& forall|v: Point, n: Point|
        #[trigger] adjacent(v, n) && st.seen.contains(v) && !st.path.contains(v) && m.passable(n)
            ==> st.seen.contains(n)
    &&& st.seen.finite()
    &&& st.explored == st.seen.len()
    &&& st.path.len() <= st.explored
    &&& st.explored <= st.steps + 1
}

/// Every passable cell next to a cell of `seen` is in `seen`.
pub open spec fn fenced(m: Maze, seen: Set<Point>) -> bool {
    forall|v: Point, n: Point|
        #[trigger] adjacent(v, n) && seen.contains(v) && m.passable(n) ==> seen.contains(n)
}

/// `seen` can be the cells that a random walk visited before it returned
/// `path`: finitely many cells, all connected to the start, among them the
/// start and every cell of `path`, and such that a passable cell next to one
/// of them that is not on `path` is one of them too.
pub open spec fn visited_by_walk(m: Maze, path: Seq<Point>, seen: Set<Point>) -> bool {
    &&& seen.finite()
    &&& seen.contains(m.start)
    &&& forall|p: Point| #[trigger] seen.contains(p) ==> m.connected(m.start, p)
    &&& forall|i: int| 0 <= i < path.len() ==> seen.contains(#[trigger] path[i])
    &&& forall|v: Point, n: Point|
        #[trigger] adjacent(v, n) && seen.contains(v) && !path.contains(v) && m.passable(n)
            ==> seen.contains(n)
}

/// What a walk has left to spend: two for every cell not yet visited and one
/// for every cell of its path. Every step that changes the walk spends one.
pub open spec fn walk_credit(m: Maze, st: Trek) -> int {
    2 * (m.width * m.height - st.seen.len()) + st.path.len()
}

/// A step keeps what holds of a random walk, whatever index is picked.
pub proof fn lemma_walk_step(m: Maze, st: Trek, pick: int)
    requires
        m.shaped(),
        roaming(m, st),
        fresh(m, st.seen, st.path.last()).len() > 0 ==> 0 <= pick < fresh(
            m,
            st.seen,
            st.path.last(),
        ).len(),
    ensures
        roaming(m, walk_step(m, st, pick)),
        walk_step(m, st, pick).steps == st.steps + 1,
        !stuck(m, st) ==> walk_credit(m, walk_step(m, st, pick)) == walk_credit(m, st) - 1,
        stuck(m, st) ==> walk_step(m, st, pick).path == st.path && walk_step(m, st, pick).seen
            == st.seen,
        walk_step(m, st, pick).seen.contains(m.end) ==> st.seen.contains(m.end) || walk_step(
            m,
            st,
            pick,
        ).path.last() == m.end,
{
    broadcast use vstd::seq_lib::lemma_seq_contains_after_push;

    let cur = st.path.last();
    let options = fresh(m, st.seen, cur);
    let next = walk_step(m, st, pick);
    if options.len() == 0 {
        if st.path.len() > 1 {
            assert forall|i: int| 0 <= i < next.path.len() - 1 implies #[trigger] hops(
                next.path,
                i,
            ) by {
                assert(hops(st.path, i));
            }
            lemma_neighbors(m, cur);
            lemma_keep_fresh(m.neighbors(cur), st.seen, m.neighbors(cur).len());
            assert forall|v: Point, n: Point|
                #[trigger] adjacent(v, n) && next.seen.contains(v) && !next.path.contains(v)
                    && m.passable(n) implies next.seen.contains(n) by {
                if st.path.contains(v) {
                    let i = choose|i: int| 0 <= i < st.path.len() && st.path[i] == v;
                    if i < next.path.len() {
                        assert(next.path[i] == v);
                    }
                    assert(v == cur);
                    let k = choose|k: int|
                        0 <= k < m.neighbors(cur).len() && m.neighbors(cur)[k] == n;
                    assert(st.seen.contains(m.neighbors(cur)[k]));
                }
            }
        }
    } else {
        let to = options[pick];
        lemma_neighbors(m, cur);
        lemma_keep_fresh(m.neighbors(cur), st.seen, m.neighbors(cur).len());
        assert(!st.seen.contains(to));
        let k = choose|k: int| 0 <= k < m.neighbors(cur).len() && m.neighbors(cur)[k] == to;
        assert(m.passable(m.neighbors(cur)[k]));
        assert(adjacent(cur, to));
        assert(st.seen.contains(st.path[st.path.len() - 1]));
        let r = choose|r: Seq<Point>| m.is_route(m.start, cur, r);
        lemma_route_extends(m, m.start, cur, to, r);
        assert(m.connected(m.start, to));
        assert forall|i: int| 0 <= i < next.path.len() implies m.passable(#[trigger] next.path[i])
            && next.seen.contains(next.path[i]) by {
            if i < st.path.len() {
                assert(next.path[i] == st.path[i]);
            }
        }
        assert forall|i: int| 0 <= i < next.path.len() - 1 implies #[trigger] hops(next.path, i) by {
            if i < st.path.len() - 1 {
                assert(hops(st.path, i));
                assert(next.path[i] == st.path[i]);
                assert(next.path[i + 1] == st.path[i + 1]);
            } else {
                assert(next.path[i] == cur);
            }
        }
        assert forall|i: int, j: int|
            0 <= i < next.path.len() && 0 <= j < next.path.len() && i != j implies next.path[i]
            != next.path[j] by {
            if i < st.path.len() {
                assert(st.seen.contains(st.path[i]));
            }
            if j < st.path.len() {
                assert(st.seen.contains(st.path[j]));
            }
        }
        assert forall|v: Point, n: Point|
            #[trigger] adjacent(v, n) && next.seen.contains(v) && !next.path.contains(v)
                && m.passable(n) implies next.seen.contains(n) by {
            assert(next.path.contains(to));
            if st.path.contains(v) {
                assert(next.path.contains(v));
            }
        }
    }
}

/// A walk that is stuck has visited every passable cell next to a visited
/// one.
pub proof fn lemma_stuck_is_fenced(m: Maze, st: Trek)
    requires
        m.shaped(),
        roaming(m, st),
        stuck(m, st),
    ensures
        fenced(m, st.seen),
{
    assert forall|v: Point, n: Point|
        #[trigger] adjacent(v, n) && st.seen.contains(v) && m.passable(
            n,
        ) implies st.seen.contains(n) by {
        if st.path.contains(v) {
            let k = choose|k: int| 0 <= k < st.path.len() && st.path[k] == v;
            lemma_neighbors(m, v);
            lemma_keep_fresh(m.neighbors(v), st.seen, m.neighbors(v).len());
            let j = choose|j: int| 0 <= j < m.neighbors(v).len() && m.neighbors(v)[j] == n;
            assert(st.seen.contains(m.neighbors(v)[j]));
        }
    }
}

/// A walk that is stuck has visited every cell that a walk from the start
/// reaches.
pub proof fn lemma_walled_in(m: Maze, st: Trek, s: Seq<Point>, i: int)
    requires
        m.shaped(),
        roaming(m, st),
        stuck(m, st),
        m.is_walk(s),
        s.len() > 0,
        s[0] == m.start,
        0 <= i < s.len(),
    ensures
        st.seen.contains(s[i]),
    decreases i,
{
    if i == 0 {
        assert(st.seen.contains(st.path[0]));
    } else {
        lemma_walled_in(m, st, s, i - 1);
        let v = s[i - 1];
        assert(hops(s, i - 1));
        assert(m.passable(s[i]));
        if st.path.contains(v) {
            let k = choose|k: int| 0 <= k < st.path.len() && st.path[k] == v;
            assert(v == m.start);
            lemma_neighbors(m, v);
            lemma_keep_fresh(m.neighbors(v), st.seen, m.neighbors(v).len());
            let j = choose|j: int| 0 <= j < m.neighbors(v).len() && m.neighbors(v)[j] == s[i];
            assert(st.seen.contains(m.neighbors(v)[j]));
        }
    }
}

/// A random walk in progress.
pub struct Walk {
    pub path: Vec<Point>,
    pub visited: PointSet,
    pub nodes_explored: usize,
    pub steps: usize,
}

impl View for Walk {
    type V = Trek;

    open spec fn view(&self) -> Trek {
        Trek {
            path: self.path@,
            seen: self.visited@,
            explored: self.nodes_explored as nat,
            steps: self.steps as nat,
        }
    }
}

impl Walk {
    /// The walk belongs to `maze` and is in a state that steps from the
    /// start lead to.
    pub open spec fn wf(&self, maze: &Maze) -> bool {
        &&& self.visited.wf()
        &&& self.visited.cols() == maze.width
        &&& self.visited.rows() == maze.height
        &&& roaming(*maze, self@)
    }

    /// A walk that stands on the start of `maze`.
    pub fn begin(maze: &Maze) -> (walk: Walk)
        requires
            maze.wf(),
        ensures
            walk.wf(maze),
            walk@ == at_start(*maze),
    {
        let mut path: Vec<Point> = Vec::new();
        path.push(maze.start);
        let mut visited = PointSet::new(maze.width, maze.height);
        visited.insert(maze.start);
        let walk = Walk { path, visited, nodes_explored: 1, steps: 0 };
        proof {
            assert(walk@.path[0] == maze.start);
            assert(maze.is_route(maze.start, maze.start, walk@.path));
        }
        walk
    }

    /// The cell the walk stands on.
    pub fn current(&self) -> (at: Point)
        requires
            self.path@.len() > 0,
        ensures
            at == self.path@.last(),
    {
        self.path[self.path.len() - 1]
    }

    /// The unvisited neighbours of the cell the walk stands on, in the fixed
    /// order.
    pub fn choices(&self, maze: &Maze) -> (options: Vec<Point>)
        requires
            maze.wf(),
            self.wf(maze),
        ensures
            options@ == fresh(*maze, self@.seen, self@.path.last()),
    {
        let nbrs = maze.get_neighbors(self.current());
        let mut options: Vec<Point> = Vec::new();
        let mut i: usize = 0;
        while i < nbrs.len()
            invariant
                i <= nbrs.len(),
                self.visited.wf(),
                options@ == keep_fresh(nbrs@, self.visited@, i as nat),
            decreases nbrs.len() - i,
        {
            if !self.visited.contains(nbrs[i]) {
                options.push(nbrs[i]);
            }
            i = i + 1;
        }
        options
    }

    /// Takes one step: to `options[pick]` when there are options, else one
    /// cell back. Says whether the walk can go on: `false` when it stands on
    /// its first cell with nowhere to go.
    pub fn step(&mut self, maze: &Maze, options: &Vec<Point>, pick: usize) -> (going: bool)
        requires
            maze.wf(),
            old(self).wf(maze),
            old(self).steps < usize::MAX,
            options@ == fresh(*maze, old(self)@.seen, old(self)@.path.last()),
            options@.len() > 0 ==> pick < options@.len(),
        ensures
            final(self).wf(maze),
            final(self)@ == walk_step(*maze, old(self)@, pick as int),
            going == !stuck(*maze, old(self)@),
    {
        proof {
            lemma_walk_step(*maze, self@, pick as int);
            self.visited.lemma_members();
        }
        self.steps = self.steps + 1;
        if options.len() == 0 {
            if self.path.len() > 1 {
                self.path.pop();
                true
            } else {
                false
            }
        } else {
            let next = options[pick];
            proof {
                lemma_neighbors(*maze, self.path@.last());
                lemma_keep_fresh(
                    maze.neighbors(self.path@.last()),
                    self.visited@,
                    maze.neighbors(self.path@.last()).len(),
                );
                let k = choose|k: int|
                    0 <= k < maze.neighbors(self.path@.last()).len() && maze.neighbors(
                        self.path@.last(),
                    )[k] == next;
                assert(maze.passable(maze.neighbors(self.path@.last())[k]));
            }
            self.visited.insert(next);
            self.path.push(next);
            proof {
                self.visited.lemma_members();
            }
            self.nodes_explored = self.nodes_explored + 1;
            true
        }
    }
}

/// The number of steps a random walk may take in `m`: ten per cell.
pub open spec fn walk_budget(m: Maze) -> nat {
    (m.width * m.height * 10) as nat
}

/// Walks at random from the start until the end is reached, the budget of
/// ten steps per cell is used up, or the walk is stuck on the start. Which
/// of the unvisited neighbours is taken at each step is drawn at random, so
/// two calls may differ; what is stated holds whatever was drawn: the walk
/// stops within two steps per cell, well inside its budget; it stands on the
/// end exactly when the end can be reached; and when it cannot, the walk is
/// back on the start and has visited every cell that can be reached.
pub fn random_walk(maze: &Maze) -> (walk: Walk)
    requires
        maze.wf(),
        maze.width * maze.height * 10 <= usize::MAX,
    ensures
        walk.wf(maze),
        walk@.steps <= 2 * (maze.width * maze.height),
        walk@.steps <= walk_budget(*maze),
        walk@.path.last() == maze.end <==> maze.connected(maze.start, maze.end),
        !maze.connected(maze.start, maze.end) ==> walk@.path.len() == 1 && fenced(
            *maze,
            walk@.seen,
        ),
{
    let mut rng = rand::thread_rng();
    let mut walk = Walk::begin(maze);
    let max_iterations = maze.width * maze.height * 10;
    let ghost cells = maze.width * maze.height;
    proof {
        walk.visited.lemma_members();
        assert(cells >= 1) by (nonlinear_arith)
            requires
                cells == maze.width * maze.height,
                maze.width >= 1,
                maze.height >= 1,
        ;
        if walk@.path.last() == maze.end {
            assert(maze.is_route(maze.start, maze.end, walk@.path));
        }
    }
    while walk.current() != maze.end && walk.steps < max_iterations
        invariant_except_break
            walk@.steps + walk_credit(*maze, walk@) == 2 * cells - 1,
        invariant
            maze.wf(),
            cells == maze.width * maze.height,
            cells >= 1,
            max_iterations == cells * 10,
            max_iterations == walk_budget(*maze),
            walk.wf(maze),
            walk@.seen.len() <= cells,
            walk@.seen.contains(maze.end) ==> walk@.path.last() == maze.end,
            walk@.path.last() == maze.end ==> maze.connected(maze.start, maze.end),
        ensures
            walk.wf(maze),
            walk@.steps <= 2 * cells,
            walk@.steps <= max_iterations,
            walk@.path.last() == maze.end <==> maze.connected(maze.start, maze.end),
            !maze.connected(maze.start, maze.end) ==> walk@.path.len() == 1 && fenced(
                *maze,
                walk@.seen,
            ),
        decreases max_iterations - walk.steps,
    {
        let ghost here = walk@;
        let options = walk.choices(maze);
        let pick = if options.len() == 0 {
            0
        } else {
            draw_below(&mut rng, options.len())
        };
        proof {
            lemma_walk_step(*maze, here, pick as int);
        }
        let going = walk.step(maze, &options, pick);
        proof {
            walk.visited.lemma_members();
            if walk@.path.last() == maze.end {
                assert(maze.is_route(maze.start, maze.end, walk@.path));
            }
        }
        if !going {
            proof {
                if maze.connected(maze.start, maze.end) {
                    let s = choose|s: Seq<Point>| maze.is_route(maze.start, maze.end, s);
                    lemma_walled_in(*maze, here, s, s.len() - 1);
                    assert(false);
                }
                lemma_stuck_is_fenced(*maze, here);
            }
            break ;
        }
    }
    walk
}

/// Solves the maze by a random walk with backtracking. Whatever is drawn,
/// the path returned is a route from start to end that visits no cell twice
/// when the end can be reached, and empty when it cannot. `nodes_explored`
/// counts the cells visited, those stepped back from included: the cells of
/// the path and, for every other cell visited, that cell's passable
/// neighbours too, none of them out of reach of the start.
pub fn random_solve(maze: &Maze) -> (sol: Solution)
    requires
        maze.wf(),
        maze.width * maze.height * 10 <= usize::MAX,
    ensures
        sol.algorithm@ == "Random"@,
        sol.path_length == sol.path@.len(),
        finds_route(*maze, sol.path@),
        sol.path@.no_duplicates(),
        exists|seen: Set<Point>|
            #[trigger] visited_by_walk(*maze, sol.path@, seen) && sol.nodes_explored == seen.len(),
        sol.path_length <= sol.nodes_explored <= reachable(*maze).len(),
        sol.nodes_explored >= 1,
        reachable(*maze).len() <= maze.width * maze.height,
{
    let start_time = Instant::now();
    let walk = random_walk(maze);
    let found = walk.current() == maze.end;
    let ghost seen = walk@.seen;
    let ghost trail = walk@.path;
    let Walk { path: stack, visited, nodes_explored, steps: _ } = walk;
    let path = if found {
        stack
    } else {
        Vec::new()
    };
    proof {
        lemma_reachable(*maze);
        assert(seen.contains(trail[0]));
        assert(seen.subset_of(reachable(*maze)));
        lemma_len_subset(seen, reachable(*maze));
        if found {
            assert(maze.is_route(maze.start, maze.end, trail));
        }
        assert(visited_by_walk(*maze, path@, seen));
        assert(seen.len() >= 1) by {
            if seen.len() == 0 {
                vstd::set_lib::lemma_set_empty_equivalency_len(seen);
            }
        }
    }
    let path_length = path.len();
    Solution {
        algorithm: "Random".to_string(),
        path,
        path_length,
        nodes_explored,
        time_taken: start_time.elapsed().as_micros(),
    }
}

} // verus!
