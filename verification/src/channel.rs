//! The import channel: a bounded FIFO queue, the sole hand-off point
//! between converter-side producers and the storage-writing consumer. A
//! send against a full queue is refused with the item handed back intact,
//! which is what lets a blocking wrapper provide backpressure without
//! ever losing or duplicating an item.

use vstd::prelude::*;

verus! {

/// Import channel capacity used when none is configured.
pub const DEFAULT_CHANNEL_SIZE: usize = 1000;

/// Whether a queue holding `q` with capacity `cap` accepts one more item.
pub open spec fn send_accepted<T>(q: Seq<T>, cap: nat, x: T) -> bool {
    q.len() < cap
}

/// The queue after offering an item: appended when there is room,
/// untouched when full.
pub open spec fn send_result<T>(q: Seq<T>, cap: nat, x: T) -> Seq<T> {
    if q.len() < cap {
        q.push(x)
    } else {
        q
    }
}

/// The queue after taking one item off the front, when any is there.
pub open spec fn recv_result<T>(q: Seq<T>) -> Seq<T> {
    if q.len() == 0 {
        q
    } else {
        q.drop_first()
    }
}

/// A bounded FIFO queue with a fixed capacity.
pub struct BoundedQueue<T> {
    items: Vec<T>,
    capacity: usize,
}

impl<T> BoundedQueue<T> {
    /// The queued items, oldest first.
    pub closed spec fn contents(&self) -> Seq<T> {
        self.items@
    }

    /// The fixed capacity.
    pub closed spec fn cap(&self) -> nat {
        self.capacity as nat
    }

    #[verifier::type_invariant]
    spec fn inv(self) -> bool {
        self.items@.len() <= self.capacity
    }

    /// An empty queue of the given capacity.
    pub fn new(capacity: usize) -> (r: Self)
        ensures
            r.contents() == Seq::<T>::empty(),
            r.cap() == capacity,
    {
        BoundedQueue { items: Vec::new(), capacity }
    }

    /// The fixed capacity.
    pub fn capacity(&self) -> (r: usize)
        ensures
            r == self.cap(),
    {
        self.capacity
    }

    /// How many items are queued.
    pub fn len(&self) -> (r: usize)
        ensures
            r == self.contents().len(),
            r <= self.cap(),
    {
        proof {
            use_type_invariant(self);
        }
        self.items.len()
    }

    /// Offer an item: queued when there is room, handed back whole when
    /// the queue is full. A blocking sender retries until accepted.
    pub fn try_send(&mut self, item: T) -> (r: Option<T>)
        ensures
            final(self).cap() == old(self).cap(),
            final(self).contents() == send_result(old(self).contents(), old(self).cap(), item),
            match r {
                None => send_accepted(old(self).contents(), old(self).cap(), item),
                Some(back) => !send_accepted(old(self).contents(), old(self).cap(), item) && back
                    == item,
            },
    {
        proof {
            use_type_invariant(&*self);
        }
        if self.items.len() >= self.capacity {
            return Some(item);
        }
        let mut items: Vec<T> = Vec::new();
        core::mem::swap(&mut items, &mut self.items);
        items.push(item);
        self.items = items;
        None
    }

    /// Take the oldest item, or nothing when the queue is empty. A
    /// blocking receiver retries until the senders close.
    pub fn recv(&mut self) -> (r: Option<T>)
        ensures
            final(self).cap() == old(self).cap(),
            final(self).contents() == recv_result(old(self).contents()),
            match r {
                None => old(self).contents().len() == 0,
                Some(x) => old(self).contents().len() > 0 && x == old(self).contents().first(),
            },
    {
        proof {
            use_type_invariant(&*self);
        }
        if self.items.len() == 0 {
            return None;
        }
        let mut items: Vec<T> = Vec::new();
        core::mem::swap(&mut items, &mut self.items);
        let x = items.remove(0);
        self.items = items;
        Some(x)
    }
}

/// Backpressure at the import channel: with the queue at capacity a send
/// is refused and changes nothing, so the item stays with its producer;
/// after one receive the same send is accepted, and the queue then holds
/// every earlier item in order with the new one at the back — no item
/// lost, none duplicated.
pub proof fn lemma_backpressure<T>(q: Seq<T>, cap: nat, x: T)
    requires
        q.len() == cap,
        cap >= 1,
    ensures
        !send_accepted(q, cap, x),
        send_result(q, cap, x) == q,
        send_accepted(recv_result(q), cap, x),
        send_result(recv_result(q), cap, x) == q.drop_first().push(x),
        send_result(recv_result(q), cap, x).len() == cap,
{
}

} // verus!
