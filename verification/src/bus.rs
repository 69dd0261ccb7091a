//! Bounded single-producer, multi-consumer fan-out of occurrences.
//!
//! Every subscriber receives every occurrence published after it subscribed,
//! in publication order.  Capacity bounds how far the slowest subscriber may
//! lag: when it is exhausted, publishing fails with `OverflowError` and the
//! occurrence is delivered to nobody — the run terminates rather than drop
//! occurrences silently.  A slow subscriber never blocks the others; it only
//! ever surfaces as this shared overflow.

use vstd::prelude::*;

use crate::decoder::Occurrence;

verus! {

/// The bus is at capacity and a subscriber has not drained: fatal to the
/// run.
#[derive(Clone, Copy, Debug, PartialEq, Eq, Structural)]
pub struct OverflowError {
    /// Index of a subscriber that is `capacity` occurrences behind.
    pub lagging: usize,
}

/// Bounded fan-out bus.  `published` keeps the occurrences in publication
/// order; each subscriber holds a cursor of how many it has consumed.
pub struct EventBus {
    capacity: usize,
    published: Vec<Occurrence>,
    cursors: Vec<usize>,
}

impl EventBus {
    pub closed spec fn spec_capacity(self) -> usize {
        self.capacity
    }

    /// Everything published so far, in order.
    pub closed spec fn log(self) -> Seq<Occurrence> {
        self.published@
    }

    /// Per-subscriber count of consumed occurrences.
    pub closed spec fn spec_cursors(self) -> Seq<usize> {
        self.cursors@
    }

    pub closed spec fn wf(self) -> bool {
        &&& self.capacity > 0
        &&& forall|i: int|
            0 <= i < self.cursors@.len() ==> #[trigger] self.cursors@[i] <= self.published@.len()
    }

    /// A subscriber is about to be `capacity` behind: publishing one more
    /// would exceed the bound.
    pub open spec fn spec_full(self) -> bool {
        exists|i: int|
            0 <= i < self.spec_cursors().len() && #[trigger] self.spec_cursors()[i]
                + self.spec_capacity() <= self.log().len()
    }

    /// A fresh bus with the given positive capacity and no subscribers.
    pub fn new(capacity: usize) -> (b: EventBus)
        requires
            capacity > 0,
        ensures
            b.wf(),
            b.spec_capacity() == capacity,
            b.log() == Seq::<Occurrence>::empty(),
            b.spec_cursors() == Seq::<usize>::empty(),
    {
        EventBus { capacity, published: Vec::new(), cursors: Vec::new() }
    }

    /// Registers a subscriber.  It will see exactly the occurrences
    /// published from now on; subscribe before the source starts to see
    /// them all.
    pub fn subscribe(&mut self) -> (sub: usize)
        requires
            old(self).wf(),
        ensures
            final(self).wf(),
            sub == old(self).spec_cursors().len(),
            final(self).spec_cursors() == old(self).spec_cursors().push(
                old(self).log().len() as usize,
            ),
            final(self).log() == old(self).log(),
            final(self).spec_capacity() == old(self).spec_capacity(),
    {
        let sub = self.cursors.len();
        let at = self.published.len();
        self.cursors.push(at);
        sub
    }

    /// Publishes one occurrence to every subscriber, in order.  Fails with
    /// `OverflowError` — delivering to nobody and leaving the bus unchanged
    /// — exactly when some subscriber already lags by the full capacity.
    pub fn publish(&mut self, occ: Occurrence) -> (r: Result<(), OverflowError>)
        requires
            old(self).wf(),
        ensures
            final(self).wf(),
            final(self).spec_capacity() == old(self).spec_capacity(),
            final(self).spec_cursors() == old(self).spec_cursors(),
            match r {
                Ok(()) => !old(self).spec_full() && final(self).log() == old(self).log().push(occ),
                Err(e) => {
                    &&& old(self).spec_full()
                    &&& *final(self) == *old(self)
                    &&& e.lagging < old(self).spec_cursors().len()
                    &&& old(self).spec_cursors()[e.lagging as int] + old(self).spec_capacity()
                        <= old(self).log().len()
                },
            },
    {
        let len = self.published.len();
        let mut i: usize = 0;
        while i < self.cursors.len()
            invariant
                i <= self.cursors@.len(),
                len == self.published@.len(),
                self.wf(),
                forall|j: int| 0 <= j < i ==> #[trigger] self.cursors@[j] + self.capacity > len,
            decreases self.cursors@.len() - i,
        {
            if len - self.cursors[i] >= self.capacity {
                return Err(OverflowError { lagging: i });
            }
            i += 1;
        }
        self.published.push(occ);
        Ok(())
    }

    /// Hands subscriber `sub` its next occurrence, if one is pending.
    pub fn recv(&mut self, sub: usize) -> (r: Option<Occurrence>)
        requires
            old(self).wf(),
            sub < old(self).spec_cursors().len(),
        ensures
            final(self).wf(),
            final(self).log() == old(self).log(),
            final(self).spec_capacity() == old(self).spec_capacity(),
            match r {
                Some(occ) => {
                    &&& old(self).spec_cursors()[sub as int] < old(self).log().len()
                    &&& occ == old(self).log()[old(self).spec_cursors()[sub as int] as int]
                    &&& final(self).spec_cursors() == old(self).spec_cursors().update(
                        sub as int,
                        (old(self).spec_cursors()[sub as int] + 1) as usize,
                    )
                },
                None => {
                    &&& old(self).spec_cursors()[sub as int] == old(self).log().len()
                    &&& *final(self) == *old(self)
                },
            },
    {
        let at = self.cursors[sub];
        if at < self.published.len() {
            let occ = self.published[at];
            self.cursors.set(sub, at + 1);
            Some(occ)
        } else {
            None
        }
    }
}

} // verus!
