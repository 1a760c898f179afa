//! The chronological sample window: a fixed-capacity FIFO of the most
//! recently pushed samples.

use vstd::prelude::*;

verus! {

use std::collections::VecDeque;

/// Fixed-capacity FIFO of the most recently pushed samples, oldest first.
pub struct Window {
    items: VecDeque<i64>,
    capacity: usize,
}

impl Window {
    /// The samples, oldest first.
    pub closed spec fn view(&self) -> Seq<i64> {
        self.items@
    }

    /// The fixed capacity, set at construction.
    pub closed spec fn cap(&self) -> int {
        self.capacity as int
    }

    /// The window never exceeds its capacity.
    pub closed spec fn wf(&self) -> bool {
        self@.len() <= self.cap() && self.cap() >= 1
    }

    /// What well-formedness guarantees about the visible state.
    pub proof fn lemma_wf_bounds(&self)
        requires
            self.wf(),
        ensures
            self@.len() <= self.cap(),
            1 <= self.cap(),
    {
    }

    /// An empty window that will hold at most `capacity` samples.
    pub fn with_capacity(capacity: usize) -> (r: Window)
        requires
            1 <= capacity,
        ensures
            r.wf(),
            r@ == Seq::<i64>::empty(),
            r.cap() == capacity,
    {
        Window { items: VecDeque::with_capacity(capacity), capacity }
    }

    /// Number of samples currently held.
    pub fn len(&self) -> (r: usize)
        ensures
            r == self@.len(),
    {
        self.items.len()
    }

    /// Append `item`; at capacity, the oldest sample leaves and is returned.
    pub fn push(&mut self, item: i64) -> (popped: Option<i64>)
        requires
            old(self).wf(),
        ensures
            final(self).wf(),
            final(self).cap() == old(self).cap(),
            old(self)@.len() == old(self).cap() ==> popped == Some(old(self)@[0]) && final(
                self)@ == old(self)@.drop_first().push(item),
            old(self)@.len() < old(self).cap() ==> popped is None && final(self)@ == old(
                self)@.push(item),
    {
        let popped_item = if self.items.len() == self.capacity {
            self.items.pop_front()
        } else {
            None
        };
        self.items.push_back(item);
        proof {
            if old(self)@.len() == old(self).cap() {
                assert(old(self)@.subrange(1, old(self)@.len() as int) =~= old(
                    self)@.drop_first());
            }
        }
        popped_item
    }

    /// Remove every sample; the capacity is unchanged.
    pub fn clear(&mut self)
        requires
            old(self).wf(),
        ensures
            final(self).wf(),
            final(self)@ == Seq::<i64>::empty(),
            final(self).cap() == old(self).cap(),
    {
        self.items.clear();
    }
}

} // verus!
