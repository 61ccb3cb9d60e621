//! A set of grid coordinates, kept as one flag per cell of a rectangle.

use vstd::arithmetic::div_mod::lemma_fundamental_div_mod_converse;
use vstd::prelude::*;
use vstd::set_lib::{lemma_int_range, lemma_len_subset, lemma_map_size_bound, set_int_range};
use crate::grid::Point;

verus! {

/// The position of cell (`x`, `y`) in a row-major table with `width` columns.
pub open spec fn slot(width: int, x: int, y: int) -> int {
    y * width + x
}

/// A cell inside a `width` by `height` rectangle has its slot inside the table.
pub proof fn lemma_slot_bound(width: int, height: int, x: int, y: int)
    requires
        0 <= x < width,
        0 <= y < height,
    ensures
        0 <= y * width,
        0 <= slot(width, x, y) < width * height,
{
    assert(0 <= y * width) by (nonlinear_arith)
        requires
            0 <= y,
            0 <= width,
    ;
    assert((y + 1) * width <= height * width) by (nonlinear_arith)
        requires
            y + 1 <= height,
            0 <= width,
    ;
    assert((y + 1) * width == y * width + width) by (nonlinear_arith);
    assert(height * width == width * height) by (nonlinear_arith);
}

/// Two distinct cells of one rectangle never share a slot.
pub proof fn lemma_slot_injective(width: int, x1: int, y1: int, x2: int, y2: int)
    requires
        0 <= x1 < width,
        0 <= x2 < width,
        0 <= y1,
        0 <= y2,
        slot(width, x1, y1) == slot(width, x2, y2),
    ensures
        x1 == x2,
        y1 == y2,
{
    if y1 < y2 {
        assert((y1 + 1) * width <= y2 * width) by (nonlinear_arith)
            requires
                y1 + 1 <= y2,
                0 <= width,
        ;
        assert((y1 + 1) * width == y1 * width + width) by (nonlinear_arith);
    } else if y2 < y1 {
        assert((y2 + 1) * width <= y1 * width) by (nonlinear_arith)
            requires
                y2 + 1 <= y1,
                0 <= width,
        ;
        assert((y2 + 1) * width == y2 * width + width) by (nonlinear_arith);
    }
}

/// The coordinates of a rectangle `width` cells wide and `height` cells high.
pub open spec fn rectangle(width: nat, height: nat) -> Set<Point> {
    Set::new(|p: Point| p.x < width && p.y < height)
}

/// A rectangle holds finitely many coordinates, no more than its area.
pub proof fn lemma_rectangle(width: nat, height: nat)
    ensures
        rectangle(width, height).finite(),
        rectangle(width, height).len() <= width * height,
{
    let rect = rectangle(width, height);
    if width == 0 {
        assert(rect =~= Set::<Point>::empty());
    } else {
        let w = width as int;
        let area = width * height;
        let range = set_int_range(0, area as int);
        lemma_int_range(0, area as int);
        let f = |i: int| Point { x: (i % w) as usize, y: (i / w) as usize };
        let image = range.map(f);
        lemma_map_size_bound(range, image, f);
        assert forall|p: Point| rect.contains(p) implies image.contains(p) by {
            let i = slot(w, p.x as int, p.y as int);
            lemma_slot_bound(w, height as int, p.x as int, p.y as int);
            lemma_fundamental_div_mod_converse(i, w, p.y as int, p.x as int);
            assert(range.contains(i));
            assert(f(i) == p);
        }
        lemma_len_subset(rect, image);
    }
}

/// How many flags of `s` are raised.
pub open spec fn count_raised(s: Seq<bool>) -> nat
    decreases s.len(),
{
    if s.len() == 0 {
        0
    } else {
        count_raised(s.drop_last()) + if s.last() {
            1nat
        } else {
            0nat
        }
    }
}

/// No more flags are raised than there are flags.
pub proof fn lemma_count_raised_bound(s: Seq<bool>)
    ensures
        count_raised(s) <= s.len(),
    decreases s.len(),
{
    if s.len() > 0 {
        lemma_count_raised_bound(s.drop_last());
    }
}

/// Changing one flag changes the count by that flag's difference.
pub proof fn lemma_count_raised_update(s: Seq<bool>, i: int, b: bool)
    requires
        0 <= i < s.len(),
    ensures
        count_raised(s.update(i, b)) + (if s[i] { 1int } else { 0int })
            == count_raised(s) + (if b { 1int } else { 0int }),
    decreases s.len(),
{
    let t = s.update(i, b);
    if i == s.len() - 1 {
        assert(t.drop_last() =~= s.drop_last());
    } else {
        assert(t.drop_last() =~= s.drop_last().update(i, b));
        lemma_count_raised_update(s.drop_last(), i, b);
    }
}

/// A table of `n` lowered flags counts none.
pub proof fn lemma_count_raised_none(s: Seq<bool>)
    requires
        forall|i: int| 0 <= i < s.len() ==> !s[i],
    ensures
        count_raised(s) == 0,
    decreases s.len(),
{
    if s.len() > 0 {
        lemma_count_raised_none(s.drop_last());
    }
}

/// A set of coordinates drawn from a rectangle of fixed size.
pub struct PointSet {
    width: usize,
    height: usize,
    flags: Vec<bool>,
    count: usize,
}

impl View for PointSet {
    type V = Set<Point>;

    closed spec fn view(&self) -> Set<Point> {
        Set::new(
            |p: Point|
                p.x < self.width && p.y < self.height && self.flags@[slot(
                    self.width as int,
                    p.x as int,
                    p.y as int,
                )],
        )
    }
}

impl PointSet {
    /// Number of columns of the rectangle.
    pub closed spec fn cols(&self) -> nat {
        self.width as nat
    }

    /// Number of rows of the rectangle.
    pub closed spec fn rows(&self) -> nat {
        self.height as nat
    }

    /// The flags cover the rectangle and the stored count is the number of
    /// members.
    pub closed spec fn wf(&self) -> bool {
        &&& self.flags@.len() == self.width * self.height
        &&& self.count == count_raised(self.flags@)
        &&& self@.finite()
        &&& self@.len() == self.count
    }

    /// Members lie inside the rectangle, and there are no more of them than
    /// the rectangle has cells.
    pub proof fn lemma_members(&self)
        requires
            self.wf(),
        ensures
            self@.finite(),
            self@.len() <= self.cols() * self.rows(),
            forall|p: Point| self@.contains(p) ==> p.x < self.cols() && p.y < self.rows(),
    {
        lemma_count_raised_bound(self.flags@);
    }

    /// The empty set over a `width` by `height` rectangle.
    pub fn new(width: usize, height: usize) -> (s: PointSet)
        requires
            width * height <= usize::MAX,
        ensures
            s.wf(),
            s.cols() == width,
            s.rows() == height,
            s@ == Set::<Point>::empty(),
    {
        let n = width * height;
        let mut flags: Vec<bool> = Vec::new();
        while flags.len() < n
            invariant
                flags@.len() <= n,
                forall|i: int| 0 <= i < flags@.len() ==> !flags@[i],
            decreases n - flags@.len(),
        {
            flags.push(false);
        }
        let s = PointSet { width, height, flags, count: 0 };
        proof {
            lemma_count_raised_none(s.flags@);
            assert forall|p: Point| !s@.contains(p) by {
                if p.x < width && p.y < height {
                    lemma_slot_bound(width as int, height as int, p.x as int, p.y as int);
                }
            }
            assert(s@ =~= Set::<Point>::empty());
        }
        s
    }

    /// The slot of a cell of the rectangle, as a machine index.
    fn index_of(&self, p: Point) -> (i: usize)
        requires
            self.flags@.len() == self.width * self.height,
            p.x < self.width,
            p.y < self.height,
        ensures
            i == slot(self.width as int, p.x as int, p.y as int),
            i < self.flags@.len(),
    {
        proof {
            lemma_slot_bound(self.width as int, self.height as int, p.x as int, p.y as int);
            assert(self.flags.len() <= usize::MAX);
        }
        p.y * self.width + p.x
    }

    /// Whether `p` is a member.
    pub fn contains(&self, p: Point) -> (found: bool)
        requires
            self.wf(),
        ensures
            found == self@.contains(p),
    {
        if p.x >= self.width || p.y >= self.height {
            return false;
        }
        let i = self.index_of(p);
        self.flags[i]
    }

    /// The number of members.
    pub fn len(&self) -> (n: usize)
        requires
            self.wf(),
        ensures
            n == self@.len(),
    {
        self.count
    }

    /// Whether the set has no member.
    pub fn is_empty(&self) -> (none: bool)
        requires
            self.wf(),
        ensures
            none == (self@.len() == 0),
    {
        self.count == 0
    }

    /// Adds `p`; says whether it was new.
    pub fn insert(&mut self, p: Point) -> (fresh: bool)
        requires
            old(self).wf(),
            p.x < old(self).cols(),
            p.y < old(self).rows(),
        ensures
            final(self).wf(),
            final(self).cols() == old(self).cols(),
            final(self).rows() == old(self).rows(),
            final(self)@ == old(self)@.insert(p),
            fresh == !old(self)@.contains(p),
    {
        let i = self.index_of(p);
        let fresh = !self.flags[i];
        if fresh {
            proof {
                lemma_count_raised_update(self.flags@, i as int, true);
                lemma_count_raised_bound(self.flags@.update(i as int, true));
                assert(self.flags.len() <= usize::MAX);
            }
            self.flags[i] = true;
            self.count = self.count + 1;
        }
        proof {
            let w = self.width as int;
            assert forall|q: Point| self@.contains(q) <==> old(self)@.insert(p).contains(q) by {
                if q.x < self.width && q.y < self.height {
                    lemma_slot_bound(w, self.height as int, q.x as int, q.y as int);
                    if q != p && slot(w, q.x as int, q.y as int) == i {
                        lemma_slot_injective(w, q.x as int, q.y as int, p.x as int, p.y as int);
                    }
                }
            }
            assert(self@ =~= old(self)@.insert(p));
        }
        fresh
    }

    /// Removes `p`; says whether it was a member.
    pub fn remove(&mut self, p: Point) -> (present: bool)
        requires
            old(self).wf(),
        ensures
            final(self).wf(),
            final(self).cols() == old(self).cols(),
            final(self).rows() == old(self).rows(),
            final(self)@ == old(self)@.remove(p),
            present == old(self)@.contains(p),
    {
        if p.x >= self.width || p.y >= self.height {
            assert(self@.remove(p) =~= self@);
            return false;
        }
        let i = self.index_of(p);
        let present = self.flags[i];
        if present {
            proof {
                lemma_count_raised_update(self.flags@, i as int, false);
            }
            self.flags[i] = false;
            self.count = self.count - 1;
        }
        proof {
            let w = self.width as int;
            assert forall|q: Point| self@.contains(q) <==> old(self)@.remove(p).contains(q) by {
                if q.x < self.width && q.y < self.height {
                    lemma_slot_bound(w, self.height as int, q.x as int, q.y as int);
                    if q != p && slot(w, q.x as int, q.y as int) == i {
                        lemma_slot_injective(w, q.x as int, q.y as int, p.x as int, p.y as int);
                    }
                }
            }
            assert(self@ =~= old(self)@.remove(p));
        }
        present
    }
}

} // verus!
