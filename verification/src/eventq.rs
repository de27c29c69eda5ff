use vstd::prelude::*;
use crate::state::FillEvent;

verus! {

/// The fill-event log: an append-only queue of fixed-size records with a
/// drain-and-compact consumption model, bounded by a logical capacity.
pub struct EventQueue {
    pub events: Vec<FillEvent>,
    pub capacity: u32,
}

impl EventQueue {
    /// The queue never holds more records than its logical capacity.
    pub open spec fn wf(self) -> bool {
        self.events@.len() <= self.capacity as int
    }

    /// An empty queue with the given logical capacity.
    pub fn new(capacity: u32) -> (q: EventQueue)
        ensures
            q.wf(),
            q.capacity == capacity,
            q.events@.len() == 0,
    {
        EventQueue { events: Vec::new(), capacity }
    }

    /// Number of records waiting to be settled.
    pub fn len(&self) -> (r: usize)
        ensures
            r == self.events@.len(),
    {
        self.events.len()
    }

    /// Appends one record at the end. The caller must have ensured capacity.
    pub fn push(&mut self, ev: FillEvent)
        requires
            old(self).wf(),
            old(self).events@.len() < old(self).capacity as int,
        ensures
            final(self).wf(),
            final(self).capacity == old(self).capacity,
            final(self).events@ == old(self).events@.push(ev),
    {
        self.events.push(ev);
    }

    /// Logically removes the first `n` records. Draining everything resets
    /// the queue in place; a partial drain copies the remainder down to the
    /// front, since settlement always reads from the front.
    pub fn drain_prefix(&mut self, n: usize)
        requires
            old(self).wf(),
            n <= old(self).events@.len(),
        ensures
            final(self).wf(),
            final(self).capacity == old(self).capacity,
            final(self).events@ == old(self).events@.skip(n as int),
    {
        if n == self.events.len() {
            self.events.clear();
            proof {
                assert(self.events@ =~= old(self).events@.skip(n as int));
            }
            return ;
        }
        let len = self.events.len();
        let mut i: usize = n;
        while i < len
            invariant
                n <= i <= len,
                n < len,
                len == old(self).events@.len(),
                self.capacity == old(self).capacity,
                self.events@.len() == len,
                forall|k: int| 0 <= k < i - n ==> self.events@[k] == old(self).events@[k + n],
                forall|k: int| i - n <= k < len ==> self.events@[k] == old(self).events@[k],
            decreases len - i,
        {
            let ev = self.events[i];
            self.events[i - n] = ev;
            i = i + 1;
        }
        self.events.truncate(len - n);
        proof {
            assert(self.events@ =~= old(self).events@.skip(n as int));
        }
    }

    /// Empties the queue in one step.
    pub fn clear(&mut self)
        requires
            old(self).wf(),
        ensures
            final(self).wf(),
            final(self).capacity == old(self).capacity,
            final(self).events@.len() == 0,
    {
        self.events.clear();
    }
}

/// Encoded size of a `FillEvent` in bytes, padding included.
pub const FILL_EVENT_LEN: usize = 32 + 32 + 8 + 4 + 1 + 3;

} // verus!
