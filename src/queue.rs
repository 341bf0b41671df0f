//! The two priority structures of the layer search, over `(slot, distance)`
//! pairs ordered by [`dist_key`] of the distance bits.

use vstd::prelude::*;
use crate::metric::{dist_key, distance_key};

verus! {

/// A node slot paired with the IEEE-754 bits of its distance to a query.
pub type Scored = (usize, u32);

/// Whether a sequence of scored entries is ascending by distance.
pub open spec fn ascending(s: Seq<Scored>) -> bool {
    forall|i: int, j: int| 0 <= i < j < s.len() ==> dist_key(#[trigger] s[i].1) <= dist_key(#[trigger] s[j].1)
}

/// Whether no slot occurs twice in a sequence of scored entries.
pub open spec fn distinct_slots(s: Seq<Scored>) -> bool {
    forall|i: int, j: int| 0 <= i < j < s.len() ==> #[trigger] s[i].0 != #[trigger] s[j].0
}

/// Whether a slot occurs in a sequence of scored entries.
pub open spec fn has_slot(s: Seq<Scored>, x: usize) -> bool {
    exists|i: int| 0 <= i < s.len() && #[trigger] s[i].0 == x
}

/// Min-priority queue: taking yields an entry nearest the query.
pub struct MinQueue {
    items: Vec<Scored>,
}

impl View for MinQueue {
    type V = Seq<Scored>;

    closed spec fn view(&self) -> Seq<Scored> {
        self.items@
    }
}

impl MinQueue {
    pub fn new() -> (r: MinQueue)
        ensures
            r@ == Seq::<Scored>::empty(),
    {
        MinQueue { items: Vec::new() }
    }

    pub fn push(&mut self, item: Scored)
        ensures
            final(self)@ == old(self)@.push(item),
    {
        self.items.push(item);
    }

    /// Removes and returns an entry of least distance.
    pub fn pop_nearest(&mut self) -> (r: Option<Scored>)
        ensures
            old(self)@.len() == 0 ==> r is None && final(self)@ == old(self)@,
            old(self)@.len() > 0 ==> (r matches Some(x) && exists|i: int|
                0 <= i < old(self)@.len() && old(self)@[i] == x && final(self)@ == old(self)@.remove(i)
                    && forall|j: int| 0 <= j < old(self)@.len() ==> dist_key(x.1) <= dist_key(#[trigger] old(self)@[j].1)),
    {
        if self.items.len() == 0 {
            return None;
        }
        let mut best: usize = 0;
        let mut best_key: u32 = distance_key(self.items[0].1);
        let mut i: usize = 1;
        while i < self.items.len()
            invariant
                1 <= i <= self.items@.len(),
                best < i,
                best_key == dist_key(self.items@[best as int].1),
                forall|j: int| 0 <= j < i ==> best_key <= dist_key(#[trigger] self.items@[j].1),
            decreases self.items@.len() - i,
        {
            let k = distance_key(self.items[i].1);
            if k < best_key {
                best = i;
                best_key = k;
            }
            i = i + 1;
        }
        let x = self.items.remove(best);
        Some(x)
    }
}

/// Max-priority result set, kept ascending by distance: its last entry is the
/// farthest, the one evicted first.
pub struct MaxQueue {
    items: Vec<Scored>,
}

impl View for MaxQueue {
    type V = Seq<Scored>;

    closed spec fn view(&self) -> Seq<Scored> {
        self.items@
    }
}

impl MaxQueue {
    pub fn new() -> (r: MaxQueue)
        ensures
            r@ == Seq::<Scored>::empty(),
    {
        MaxQueue { items: Vec::new() }
    }

    pub fn len(&self) -> (r: usize)
        ensures
            r == self@.len(),
    {
        self.items.len()
    }

    /// Distance bits of the farthest entry.
    pub fn farthest(&self) -> (r: Option<u32>)
        ensures
            self@.len() == 0 ==> r is None,
            self@.len() > 0 ==> r == Some(self@.last().1),
    {
        if self.items.len() == 0 {
            None
        } else {
            Some(self.items[self.items.len() - 1].1)
        }
    }

    /// Adds an entry at its place in ascending order; it goes after every
    /// entry whose distance is not larger.
    pub fn push(&mut self, item: Scored)
        requires
            ascending(old(self)@),
        ensures
            ascending(final(self)@),
            exists|p: int| 0 <= p <= old(self)@.len() && final(self)@ == old(self)@.insert(p, item),
    {
        let k = distance_key(item.1);
        let mut p: usize = self.items.len();
        while p > 0 && distance_key(self.items[p - 1].1) > k
            invariant
                p <= self.items@.len(),
                forall|j: int| p <= j < self.items@.len() ==> dist_key(#[trigger] self.items@[j].1) > k,
            decreases p,
        {
            p = p - 1;
        }
        self.items.insert(p, item);
        assert(ascending(self.items@)) by {
            assert forall|i: int, j: int| 0 <= i < j < self.items@.len() implies dist_key(
                #[trigger] self.items@[i].1,
            ) <= dist_key(#[trigger] self.items@[j].1) by {
                let s = old(self)@;
                if i < p && j == p {
                    assert(dist_key(s[i].1) <= dist_key(s[p - 1].1) || i == p - 1);
                }
            }
        }
    }

    /// Drops the farthest entry.
    pub fn pop_farthest(&mut self)
        ensures
            old(self)@.len() == 0 ==> final(self)@ == old(self)@,
            old(self)@.len() > 0 ==> final(self)@ == old(self)@.drop_last(),
    {
        if self.items.len() > 0 {
            self.items.pop();
        }
    }

    pub fn into_vec(self) -> (r: Vec<Scored>)
        ensures
            r@ == self@,
    {
        self.items
    }
}

} // verus!
