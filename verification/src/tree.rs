//! Cells that form a tree: between any two of them there is one path that
//! visits no cell twice, and adding a cell that touches the others in one
//! place keeps it so.

use vstd::prelude::*;
use crate::grid::{adjacent, hops, Point};

verus! {

/// `s` is a walk over cells of `open`.
pub open spec fn walk_in(open: Set<Point>, s: Seq<Point>) -> bool {
    &&& forall|i: int| 0 <= i < s.len() ==> open.contains(#[trigger] s[i])
    &&& forall|i: int| 0 <= i < s.len() - 1 ==> #[trigger] hops(s, i)
}

/// `s` is a walk over cells of `open` from `a` to `b` that visits no cell
/// twice.
pub open spec fn simple_path(open: Set<Point>, a: Point, b: Point, s: Seq<Point>) -> bool {
    &&& s.len() > 0
    &&& s[0] == a
    &&& s.last() == b
    &&& walk_in(open, s)
    &&& s.no_duplicates()
}

/// Between any two cells of `open` there is at most one walk that visits no
/// cell twice.
pub open spec fn single_paths(open: Set<Point>) -> bool {
    forall|a: Point, b: Point, s: Seq<Point>, t: Seq<Point>|
        #[trigger] simple_path(open, a, b, s) && #[trigger] simple_path(open, a, b, t) ==> s == t
}

/// `x` is not in `open` and touches it in `y` alone.
pub open spec fn hangs_on(open: Set<Point>, x: Point, y: Point) -> bool {
    &&& !open.contains(x)
    &&& open.contains(y)
    &&& adjacent(y, x)
    &&& forall|n: Point| #[trigger] adjacent(x, n) && open.contains(n) ==> n == y
}

/// A walk that visits no cell twice does not pass through a cell that hangs
/// on the others: the cell can only be its first or its last.
pub proof fn lemma_leaf_is_an_end(open: Set<Point>, x: Point, y: Point, s: Seq<Point>, i: int)
    requires
        hangs_on(open, x, y),
        walk_in(open.insert(x), s),
        s.no_duplicates(),
        0 <= i < s.len(),
        s[i] == x,
    ensures
        i == 0 || i == s.len() - 1,
{
    if 0 < i < s.len() - 1 {
        assert(hops(s, i - 1));
        assert(hops(s, i));
        assert(adjacent(x, s[i - 1]));
        assert(adjacent(x, s[i + 1]));
        assert(open.insert(x).contains(s[i - 1]));
        assert(open.insert(x).contains(s[i + 1]));
        assert(s[i - 1] != s[i]);
        assert(s[i + 1] != s[i]);
        assert(s[i - 1] == y);
        assert(s[i + 1] == y);
        assert(false);
    }
}

/// A simple path between two cells other than the hanging one stays within
/// the others.
pub proof fn lemma_path_avoids_leaf(
    open: Set<Point>,
    x: Point,
    y: Point,
    a: Point,
    b: Point,
    s: Seq<Point>,
)
    requires
        hangs_on(open, x, y),
        simple_path(open.insert(x), a, b, s),
        a != x,
        b != x,
    ensures
        simple_path(open, a, b, s),
{
    assert forall|i: int| 0 <= i < s.len() implies open.contains(#[trigger] s[i]) by {
        if s[i] == x {
            lemma_leaf_is_an_end(open, x, y, s, i);
        }
    }
}

/// A simple path that ends on the hanging cell, and does not begin there,
/// is a simple path to the cell it hangs on, followed by the hanging cell.
pub proof fn lemma_path_to_leaf(open: Set<Point>, x: Point, y: Point, a: Point, s: Seq<Point>)
    requires
        hangs_on(open, x, y),
        simple_path(open.insert(x), a, x, s),
        a != x,
    ensures
        s.len() >= 2,
        simple_path(open, a, y, s.drop_last()),
        s == s.drop_last().push(x),
{
    let r = s.drop_last();
    let last = s.len() - 1;
    assert(hops(s, last - 1));
    assert(open.insert(x).contains(s[last - 1]));
    assert(s[last - 1] != s[last]);
    assert(adjacent(x, s[last - 1]));
    assert forall|i: int| 0 <= i < r.len() implies open.contains(#[trigger] r[i]) by {
        assert(r[i] == s[i]);
        assert(open.insert(x).contains(s[i]));
        assert(s[i] != s[last]);
    }
    assert forall|i: int| 0 <= i < r.len() - 1 implies #[trigger] hops(r, i) by {
        assert(hops(s, i));
        assert(r[i] == s[i]);
        assert(r[i + 1] == s[i + 1]);
    }
    assert(s =~= r.push(x));
}

/// A simple path that begins on the hanging cell, and does not end there,
/// is the hanging cell followed by a simple path from the cell it hangs on.
pub proof fn lemma_path_from_leaf(open: Set<Point>, x: Point, y: Point, b: Point, s: Seq<Point>)
    requires
        hangs_on(open, x, y),
        simple_path(open.insert(x), x, b, s),
        b != x,
    ensures
        s.len() >= 2,
        simple_path(open, y, b, s.drop_first()),
        s == seq![x] + s.drop_first(),
{
    let r = s.drop_first();
    assert(hops(s, 0));
    assert(open.insert(x).contains(s[1]));
    assert(s[1] != s[0]);
    assert(adjacent(x, s[1]));
    assert forall|i: int| 0 <= i < r.len() implies open.contains(#[trigger] r[i]) by {
        assert(r[i] == s[i + 1]);
        assert(open.insert(x).contains(s[i + 1]));
        assert(s[i + 1] != s[0]);
    }
    assert forall|i: int| 0 <= i < r.len() - 1 implies #[trigger] hops(r, i) by {
        assert(hops(s, i + 1));
        assert(r[i] == s[i + 1]);
        assert(r[i + 1] == s[i + 2]);
    }
    assert forall|i: int, j: int| 0 <= i < r.len() && 0 <= j < r.len() && i != j implies r[i]
        != r[j] by {
        assert(r[i] == s[i + 1]);
        assert(r[j] == s[j + 1]);
    }
    assert(s =~= seq![x] + r);
}

/// Two simple paths between the same cells are one and the same after a
/// hanging cell has been added, if they were so before.
pub proof fn lemma_two_paths(
    open: Set<Point>,
    x: Point,
    y: Point,
    a: Point,
    b: Point,
    s: Seq<Point>,
    t: Seq<Point>,
)
    requires
        single_paths(open),
        hangs_on(open, x, y),
        simple_path(open.insert(x), a, b, s),
        simple_path(open.insert(x), a, b, t),
    ensures
        s == t,
{
    if a == x && b == x {
        assert(s.len() == 1);
        assert(t.len() == 1);
        assert(s =~= t);
    } else if b == x {
        lemma_path_to_leaf(open, x, y, a, s);
        lemma_path_to_leaf(open, x, y, a, t);
        assert(simple_path(open, a, y, s.drop_last()) && simple_path(open, a, y, t.drop_last()));
    } else if a == x {
        lemma_path_from_leaf(open, x, y, b, s);
        lemma_path_from_leaf(open, x, y, b, t);
        assert(simple_path(open, y, b, s.drop_first()) && simple_path(
            open,
            y,
            b,
            t.drop_first(),
        ));
    } else {
        lemma_path_avoids_leaf(open, x, y, a, b, s);
        lemma_path_avoids_leaf(open, x, y, a, b, t);
    }
}

/// Adding a cell that touches the others in one place keeps the paths
/// between cells single.
pub proof fn lemma_leaf_keeps_single_paths(open: Set<Point>, x: Point, y: Point)
    requires
        single_paths(open),
        hangs_on(open, x, y),
    ensures
        single_paths(open.insert(x)),
{
    let wider = open.insert(x);
    assert forall|a: Point, b: Point, s: Seq<Point>, t: Seq<Point>|
        #[trigger] simple_path(wider, a, b, s) && #[trigger] simple_path(
            wider,
            a,
            b,
            t,
        ) implies s == t by {
        lemma_two_paths(open, x, y, a, b, s, t);
    }
}

/// A single cell has single paths: the cell alone.
pub proof fn lemma_one_cell_has_single_paths(p: Point)
    ensures
        single_paths(Set::<Point>::empty().insert(p)),
{
    let open = Set::<Point>::empty().insert(p);
    assert forall|a: Point, b: Point, s: Seq<Point>, t: Seq<Point>|
        #[trigger] simple_path(open, a, b, s) && #[trigger] simple_path(
            open,
            a,
            b,
            t,
        ) implies s == t by {
        if s.len() > 1 {
            assert(open.contains(s[0]) && open.contains(s[1]));
        }
        if t.len() > 1 {
            assert(open.contains(t[0]) && open.contains(t[1]));
        }
        assert(open.contains(s[0]) && open.contains(t[0]));
        assert(s =~= t);
    }
}

} // verus!
