//! Minimum-priority queue over vertices keyed by tentative distance.

use vstd::prelude::*;

verus! {

/// What the queue holds: each queued vertex with its current priority.
pub uninterp spec fn queue_view(q: MinQueue) -> Map<usize, u64>;

/// The contents of a queue holding nothing.
pub open spec fn empty_queue() -> Map<usize, u64> {
    Map::empty()
}

/// A min-priority queue of vertices, backed by `priority_queue`'s hashed
/// heap with reversed priorities: popping the crate's greatest priority
/// yields the least distance.
#[verifier::external_body]
pub struct MinQueue {
    q: priority_queue::PriorityQueue<usize, core::cmp::Reverse<u64>>,
}

impl MinQueue {
    /// Relies on `PriorityQueue::with_capacity`: an empty queue with room
    /// reserved for `capacity` vertices.
    #[verifier::external_body]
    pub fn with_capacity(capacity: usize) -> (r: MinQueue)
        ensures
            queue_view(r) == empty_queue(),
    {
        MinQueue { q: priority_queue::PriorityQueue::with_capacity(capacity) }
    }

    /// Relies on `PriorityQueue::is_empty`: whether nothing is queued.
    #[verifier::external_body]
    pub fn is_empty(&self) -> (r: bool)
        ensures
            r <==> queue_view(*self).dom() == Set::<usize>::empty(),
    {
        self.q.is_empty()
    }

    /// Relies on `PriorityQueue::push`: queues the vertex, or updates its
    /// priority if it is already queued.
    #[verifier::external_body]
    pub fn push(&mut self, v: usize, d: u64)
        ensures
            queue_view(*final(self)) == queue_view(*old(self)).insert(v, d),
    {
        self.q.push(v, core::cmp::Reverse(d));
    }

    /// Relies on `PriorityQueue::pop`: removes and returns a pair with the
    /// greatest priority, or `None` if the queue is empty — under the
    /// reversed order, a queued vertex of least distance.
    #[verifier::external_body]
    pub fn pop(&mut self) -> (r: Option<(usize, u64)>)
        ensures
            match r {
                Some(p) => {
                    &&& queue_view(*old(self)).dom().contains(p.0)
                    &&& queue_view(*old(self))[p.0] == p.1
                    &&& queue_view(*final(self)) == queue_view(*old(self)).remove(p.0)
                    &&& forall|u: usize|
                        #[trigger] queue_view(*old(self)).dom().contains(u) ==> p.1 <= queue_view(
                            *old(self),
                        )[u]
                },
                None => {
                    &&& queue_view(*old(self)).dom() == Set::<usize>::empty()
                    &&& queue_view(*final(self)) == queue_view(*old(self))
                },
            },
    {
        match self.q.pop() {
            Some((v, core::cmp::Reverse(d))) => Some((v, d)),
            None => None,
        }
    }

    /// Relies on `PriorityQueue::change_priority`: sets the priority of a
    /// queued vertex; a vertex that is not queued is left alone.
    #[verifier::external_body]
    pub fn change_priority(&mut self, v: usize, d: u64)
        ensures
            queue_view(*old(self)).dom().contains(v) ==> queue_view(*final(self)) == queue_view(
                *old(self),
            ).insert(v, d),
            !queue_view(*old(self)).dom().contains(v) ==> queue_view(*final(self)) == queue_view(
                *old(self),
            ),
    {
        self.q.change_priority(&v, core::cmp::Reverse(d));
    }
}

} // verus!
