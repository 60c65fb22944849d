use vstd::prelude::*;

verus! {

/// A queue entry ordered so that the smallest distance leaves first.
pub struct Closest<T> {
    pub node: T,
    pub dist: u128,
}

/// A queue entry ordered so that the largest distance leaves first.
pub struct Furthest<T> {
    pub node: T,
    pub dist: u128,
}

/// A queue that hands out its entries by increasing distance; entries of equal distance leave
/// in the order they came in.
///
/// The entries are kept by non-increasing distance, newest first among equals, so the next
/// entry to leave is always the last one.
pub struct ClosestQueue<T> {
    items: Vec<Closest<T>>,
}

/// A queue that hands out its entries by decreasing distance; entries of equal distance leave
/// in the order they came in.
///
/// The entries are kept by non-decreasing distance, newest first among equals, so the next
/// entry to leave is always the last one.
pub struct FurthestQueue<T> {
    items: Vec<Furthest<T>>,
}

impl<T> View for ClosestQueue<T> {
    type V = Seq<Closest<T>>;

    /// The entries, last to leave first.
    closed spec fn view(&self) -> Seq<Closest<T>> {
        self.items@
    }
}

impl<T> View for FurthestQueue<T> {
    type V = Seq<Furthest<T>>;

    /// The entries, last to leave first.
    closed spec fn view(&self) -> Seq<Furthest<T>> {
        self.items@
    }
}

/// Entries by non-increasing distance.
pub open spec fn closest_sorted<T>(s: Seq<Closest<T>>) -> bool {
    forall|i: int, j: int| 0 <= i < j < s.len() ==> s[i].dist >= s[j].dist
}

/// Entries by non-decreasing distance.
pub open spec fn furthest_sorted<T>(s: Seq<Furthest<T>>) -> bool {
    forall|i: int, j: int| 0 <= i < j < s.len() ==> s[i].dist <= s[j].dist
}

/// The position at which a closest-first queue inserts an entry of distance `d`: the first
/// position from `i` on whose entry is not further than `d`.
pub open spec fn closest_pos<T>(s: Seq<Closest<T>>, d: u128, i: int) -> int
    decreases s.len() - i,
{
    if 0 <= i < s.len() && s[i].dist > d {
        closest_pos(s, d, i + 1)
    } else {
        i
    }
}

/// The position at which a furthest-first queue inserts an entry of distance `d`: the first
/// position from `i` on whose entry is not closer than `d`.
pub open spec fn furthest_pos<T>(s: Seq<Furthest<T>>, d: u128, i: int) -> int
    decreases s.len() - i,
{
    if 0 <= i < s.len() && s[i].dist < d {
        furthest_pos(s, d, i + 1)
    } else {
        i
    }
}

/// A furthest-first queue's entries handed to a closest-first queue.
pub open spec fn as_closest<T>(w: Seq<Furthest<T>>) -> Seq<Closest<T>> {
    Seq::new(w.len(), |i: int| Closest { node: w[w.len() - 1 - i].node, dist: w[w.len() - 1 - i].dist })
}

impl<T> ClosestQueue<T> {
    /// An empty queue.
    pub fn new() -> (r: Self)
        ensures
            r@ == Seq::<Closest<T>>::empty(),
    {
        ClosestQueue { items: Vec::new() }
    }

    /// The number of entries.
    pub fn len(&self) -> (r: usize)
        ensures
            r == self@.len(),
    {
        self.items.len()
    }

    /// Whether the queue holds no entry.
    pub fn is_empty(&self) -> (r: bool)
        ensures
            r == (self@.len() == 0),
    {
        self.items.len() == 0
    }

    /// Adds an entry. It goes after every entry of greater distance and before every other one,
    /// so it leaves after the entries of equal distance that came before it.
    pub fn push(&mut self, x: Closest<T>)
        requires
            closest_sorted(old(self)@),
        ensures
            closest_sorted(final(self)@),
            final(self)@ == old(self)@.insert(closest_pos(old(self)@, x.dist, 0), x),
            exists|p: int|
                0 <= p <= old(self)@.len() && final(self)@ == old(self)@.insert(p, x) && (forall|
                    i: int,
                | 0 <= i < p ==> old(self)@[i].dist > x.dist) && (forall|i: int|
                    p <= i < old(self)@.len() ==> old(self)@[i].dist <= x.dist),
    {
        let mut p: usize = 0;
        while p < self.items.len() && self.items[p].dist > x.dist
            invariant
                p <= self.items@.len(),
                forall|i: int| 0 <= i < p ==> self.items@[i].dist > x.dist,
                closest_pos(self.items@, x.dist, p as int) == closest_pos(self.items@, x.dist, 0),
            decreases self.items@.len() - p,
        {
            p = p + 1;
        }
        let ghost pre = self.items@;
        self.items.insert(p, x);
        assert(forall|i: int| p <= i < pre.len() ==> pre[i].dist <= x.dist) by {
            assert forall|i: int| p <= i < pre.len() implies pre[i].dist <= x.dist by {
                if p < pre.len() {
                    assert(pre[p as int].dist <= x.dist);
                }
            }
        }
        assert(self.items@ == pre.insert(p as int, x));
    }

    /// Removes and returns the entry of smallest distance; among equals, the one that came first.
    pub fn pop(&mut self) -> (r: Option<Closest<T>>)
        requires
            closest_sorted(old(self)@),
        ensures
            closest_sorted(final(self)@),
            old(self)@.len() == 0 ==> r is None && final(self)@ == old(self)@,
            old(self)@.len() > 0 ==> r == Some(old(self)@.last()) && final(self)@ == old(
                self,
            )@.drop_last(),
    {
        self.items.pop()
    }
}

impl<T> FurthestQueue<T> {
    /// An empty queue.
    pub fn new() -> (r: Self)
        ensures
            r@ == Seq::<Furthest<T>>::empty(),
    {
        FurthestQueue { items: Vec::new() }
    }

    /// The number of entries.
    pub fn len(&self) -> (r: usize)
        ensures
            r == self@.len(),
    {
        self.items.len()
    }

    /// Whether the queue holds no entry.
    pub fn is_empty(&self) -> (r: bool)
        ensures
            r == (self@.len() == 0),
    {
        self.items.len() == 0
    }

    /// Adds an entry. It goes after every entry of smaller distance and before every other one,
    /// so it leaves after the entries of equal distance that came before it.
    pub fn push(&mut self, x: Furthest<T>)
        requires
            furthest_sorted(old(self)@),
        ensures
            furthest_sorted(final(self)@),
            final(self)@ == old(self)@.insert(furthest_pos(old(self)@, x.dist, 0), x),
            exists|p: int|
                0 <= p <= old(self)@.len() && final(self)@ == old(self)@.insert(p, x) && (forall|
                    i: int,
                | 0 <= i < p ==> old(self)@[i].dist < x.dist) && (forall|i: int|
                    p <= i < old(self)@.len() ==> old(self)@[i].dist >= x.dist),
    {
        let mut p: usize = 0;
        while p < self.items.len() && self.items[p].dist < x.dist
            invariant
                p <= self.items@.len(),
                forall|i: int| 0 <= i < p ==> self.items@[i].dist < x.dist,
                furthest_pos(self.items@, x.dist, p as int) == furthest_pos(self.items@, x.dist, 0),
            decreases self.items@.len() - p,
        {
            p = p + 1;
        }
        let ghost pre = self.items@;
        self.items.insert(p, x);
        assert(forall|i: int| p <= i < pre.len() ==> pre[i].dist >= x.dist) by {
            assert forall|i: int| p <= i < pre.len() implies pre[i].dist >= x.dist by {
                if p < pre.len() {
                    assert(pre[p as int].dist >= x.dist);
                }
            }
        }
        assert(self.items@ == pre.insert(p as int, x));
    }

    /// The same entries in a queue that hands out the closest first.
    pub fn into_closest(self) -> (r: ClosestQueue<T>)
        requires
            furthest_sorted(self@),
        ensures
            closest_sorted(r@),
            r@ == as_closest(self@),
            r@.len() == self@.len(),
            forall|i: int|
                0 <= i < r@.len() ==> (#[trigger] r@[i]).node == self@[self@.len() - 1 - i].node
                    && r@[i].dist == self@[self@.len() - 1 - i].dist,
    {
        let ghost w = self.items@;
        let mut items = self.items;
        let mut out: Vec<Closest<T>> = Vec::new();
        while items.len() > 0
            invariant
                items@ == w.subrange(0, items@.len() as int),
                out@.len() + items@.len() == w.len(),
                forall|i: int|
                    0 <= i < out@.len() ==> (#[trigger] out@[i]).node == w[w.len() - 1 - i].node
                        && out@[i].dist == w[w.len() - 1 - i].dist,
            decreases items@.len(),
        {
            let x = items.pop().unwrap();
            out.push(Closest { node: x.node, dist: x.dist });
        }
        assert forall|i: int, j: int| 0 <= i < j < out@.len() implies out@[i].dist >= out@[j].dist by {
            assert(out@[i].dist == w[w.len() - 1 - i].dist);
            assert(out@[j].dist == w[w.len() - 1 - j].dist);
        }
        assert(out@ =~= as_closest(w));
        ClosestQueue { items: out }
    }

    /// The distance of the entry that would leave next, if any.
    pub fn peek_dist(&self) -> (r: Option<u128>)
        ensures
            self@.len() == 0 ==> r is None,
            self@.len() > 0 ==> r == Some(self@.last().dist),
    {
        if self.items.len() == 0 {
            None
        } else {
            Some(self.items[self.items.len() - 1].dist)
        }
    }

    /// Removes and returns the entry of largest distance; among equals, the one that came first.
    pub fn pop(&mut self) -> (r: Option<Furthest<T>>)
        requires
            furthest_sorted(old(self)@),
        ensures
            furthest_sorted(final(self)@),
            old(self)@.len() == 0 ==> r is None && final(self)@ == old(self)@,
            old(self)@.len() > 0 ==> r == Some(old(self)@.last()) && final(self)@ == old(
                self,
            )@.drop_last(),
    {
        self.items.pop()
    }
}

} // verus!
