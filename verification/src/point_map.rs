//! A map keyed by grid coordinates, kept as one optional value per cell of a
//! rectangle.

use vstd::prelude::*;
use crate::grid::Point;
use crate::point_set::{
    count_raised, lemma_count_raised_bound, lemma_count_raised_none, lemma_count_raised_update,
    lemma_slot_bound, lemma_slot_injective, slot,
};

verus! {

/// For each entry of `s`, whether it holds a value.
pub open spec fn occupied<V>(s: Seq<Option<V>>) -> Seq<bool> {
    Seq::new(s.len(), |i: int| s[i] is Some)
}

/// A map from the coordinates of a rectangle of fixed size to values.
pub struct PointMap<V> {
    width: usize,
    height: usize,
    slots: Vec<Option<V>>,
    count: usize,
}

impl<V> View for PointMap<V> {
    type V = Map<Point, V>;

    closed spec fn view(&self) -> Map<Point, V> {
        Map::new(
            |p: Point|
                p.x < self.width && p.y < self.height && self.slots@[slot(
                    self.width as int,
                    p.x as int,
                    p.y as int,
                )] is Some,
            |p: Point| self.slots@[slot(self.width as int, p.x as int, p.y as int)].unwrap(),
        )
    }
}

impl<V: Copy> PointMap<V> {
    /// Number of columns of the rectangle.
    pub closed spec fn cols(&self) -> nat {
        self.width as nat
    }

    /// Number of rows of the rectangle.
    pub closed spec fn rows(&self) -> nat {
        self.height as nat
    }

    /// The entries cover the rectangle and the stored count is the number of
    /// keys.
    pub closed spec fn wf(&self) -> bool {
        &&& self.slots@.len() == self.width * self.height
        &&& self.count == count_raised(occupied(self.slots@))
        &&& self@.dom().finite()
        &&& self@.dom().len() == self.count
    }

    /// The empty map over a `width` by `height` rectangle.
    pub fn new(width: usize, height: usize) -> (m: PointMap<V>)
        requires
            width * height <= usize::MAX,
        ensures
            m.wf(),
            m.cols() == width,
            m.rows() == height,
            m@ == Map::<Point, V>::empty(),
    {
        let n = width * height;
        let mut slots: Vec<Option<V>> = Vec::new();
        while slots.len() < n
            invariant
                slots@.len() <= n,
                forall|i: int| 0 <= i < slots@.len() ==> slots@[i] is None,
            decreases n - slots@.len(),
        {
            slots.push(None);
        }
        let m = PointMap { width, height, slots, count: 0 };
        proof {
            lemma_count_raised_none(occupied(m.slots@));
            assert forall|p: Point| !m@.dom().contains(p) by {
                if p.x < width && p.y < height {
                    lemma_slot_bound(width as int, height as int, p.x as int, p.y as int);
                }
            }
            assert(m@ =~= Map::<Point, V>::empty());
        }
        m
    }

    /// The slot of a cell of the rectangle, as a machine index.
    fn index_of(&self, p: Point) -> (i: usize)
        requires
            self.slots@.len() == self.width * self.height,
            p.x < self.width,
            p.y < self.height,
        ensures
            i == slot(self.width as int, p.x as int, p.y as int),
            i < self.slots@.len(),
    {
        proof {
            lemma_slot_bound(self.width as int, self.height as int, p.x as int, p.y as int);
            assert(self.slots.len() <= usize::MAX);
        }
        p.y * self.width + p.x
    }

    /// The value stored for `p`, if any.
    pub fn get(&self, p: Point) -> (value: Option<V>)
        requires
            self.wf(),
        ensures
            value == (if self@.dom().contains(p) {
                Some(self@[p])
            } else {
                None
            }),
    {
        if p.x >= self.width || p.y >= self.height {
            return None;
        }
        let i = self.index_of(p);
        self.slots[i]
    }

    /// The number of keys.
    pub fn len(&self) -> (n: usize)
        requires
            self.wf(),
        ensures
            n == self@.dom().len(),
    {
        self.count
    }

    /// Stores `v` for `p`, replacing what was stored for it before.
    pub fn insert(&mut self, p: Point, v: V)
        requires
            old(self).wf(),
            p.x < old(self).cols(),
            p.y < old(self).rows(),
        ensures
            final(self).wf(),
            final(self).cols() == old(self).cols(),
            final(self).rows() == old(self).rows(),
            final(self)@ == old(self)@.insert(p, v),
    {
        let i = self.index_of(p);
        let fresh = self.slots[i].is_none();
        proof {
            lemma_count_raised_update(occupied(self.slots@), i as int, true);
            assert(occupied(self.slots@.update(i as int, Some(v))) =~= occupied(
                self.slots@,
            ).update(i as int, true));
            lemma_count_raised_bound(occupied(self.slots@.update(i as int, Some(v))));
            assert(self.slots.len() <= usize::MAX);
        }
        self.slots[i] = Some(v);
        if fresh {
            self.count = self.count + 1;
        }
        proof {
            let w = self.width as int;
            assert forall|q: Point|
                self@.dom().contains(q) <==> old(self)@.insert(p, v).dom().contains(q) by {
                if q.x < self.width && q.y < self.height {
                    lemma_slot_bound(w, self.height as int, q.x as int, q.y as int);
                    if q != p && slot(w, q.x as int, q.y as int) == i {
                        lemma_slot_injective(w, q.x as int, q.y as int, p.x as int, p.y as int);
                    }
                }
            }
            assert forall|q: Point| self@.dom().contains(q) implies self@[q] == old(
                self,
            )@.insert(p, v)[q] by {
                lemma_slot_bound(w, self.height as int, q.x as int, q.y as int);
                if q != p && slot(w, q.x as int, q.y as int) == i {
                    lemma_slot_injective(w, q.x as int, q.y as int, p.x as int, p.y as int);
                }
            }
            assert(self@ =~= old(self)@.insert(p, v));
        }
    }
}

} // verus!
