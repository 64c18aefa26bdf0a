//! Per-graph allocation of node and edge ids.
use vstd::prelude::*;

verus! {

/// Two monotonic counters: the next node id and the next edge id to hand out.
/// An id, once handed out or observed, is never handed out again.
pub struct IdGenerator {
    next_node_id: u64,
    next_edge_id: u64,
}

impl View for IdGenerator {
    /// `(next_node_id, next_edge_id)`.
    type V = (u64, u64);

    closed spec fn view(&self) -> (u64, u64) {
        (self.next_node_id, self.next_edge_id)
    }
}

impl IdGenerator {
    /// A fresh generator: both counters start at 1.
    pub fn new() -> (r: IdGenerator)
        ensures
            r@ == (1u64, 1u64),
    {
        IdGenerator { next_node_id: 1, next_edge_id: 1 }
    }

    /// A generator restored with the given next ids.
    pub fn from(initial_node_id: u64, initial_edge_id: u64) -> (r: IdGenerator)
        ensures
            r@ == (initial_node_id, initial_edge_id),
    {
        IdGenerator { next_node_id: initial_node_id, next_edge_id: initial_edge_id }
    }

    pub fn next_node_id(&self) -> (r: u64)
        ensures
            r == self@.0,
    {
        self.next_node_id
    }

    pub fn next_edge_id(&self) -> (r: u64)
        ensures
            r == self@.1,
    {
        self.next_edge_id
    }

    /// Hands out the next node id.
    pub fn generate_node_id(&mut self) -> (r: u64)
        requires
            old(self)@.0 < u64::MAX,
        ensures
            r == old(self)@.0,
            final(self)@ == ((old(self)@.0 + 1) as u64, old(self)@.1),
    {
        let r = self.next_node_id;
        self.next_node_id = r + 1;
        r
    }

    /// Hands out the next edge id.
    pub fn generate_edge_id(&mut self) -> (r: u64)
        requires
            old(self)@.1 < u64::MAX,
        ensures
            r == old(self)@.1,
            final(self)@ == (old(self)@.0, (old(self)@.1 + 1) as u64),
    {
        let r = self.next_edge_id;
        self.next_edge_id = r + 1;
        r
    }

    /// Records that node id `id` is taken, so that it is never handed out.
    pub fn observe_node_id(&mut self, id: u64)
        requires
            id < u64::MAX,
        ensures
            final(self)@.0 == if id < old(self)@.0 { old(self)@.0 } else { (id + 1) as u64 },
            final(self)@.1 == old(self)@.1,
    {
        if id >= self.next_node_id {
            self.next_node_id = id + 1;
        }
    }

    /// Records that edge id `id` is taken, so that it is never handed out.
    pub fn observe_edge_id(&mut self, id: u64)
        requires
            id < u64::MAX,
        ensures
            final(self)@.1 == if id < old(self)@.1 { old(self)@.1 } else { (id + 1) as u64 },
            final(self)@.0 == old(self)@.0,
    {
        if id >= self.next_edge_id {
            self.next_edge_id = id + 1;
        }
    }
}

impl Clone for IdGenerator {
    fn clone(&self) -> (r: Self)
        ensures
            r@ == self@,
    {
        IdGenerator { next_node_id: self.next_node_id, next_edge_id: self.next_edge_id }
    }
}

} // verus!
