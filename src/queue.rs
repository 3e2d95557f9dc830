//! Bounded outbound notification queue of one open substream, with slots that
//! producers reserve ahead of sending.
use vstd::prelude::*;

verus! {

/// The views of a sequence of payloads.
pub open spec fn payloads_view(v: Seq<Vec<u8>>) -> Seq<Seq<u8>> {
    v.map_values(|p: Vec<u8>| p@)
}

/// A FIFO queue of payloads with a fixed capacity. A slot is either free,
/// held by a queued payload, or reserved for a producer that will send.
pub struct NotificationQueue {
    entries: Vec<Vec<u8>>,
    capacity: usize,
    reserved: usize,
    accepted: Ghost<Seq<Seq<u8>>>,
    delivered: Ghost<Seq<Seq<u8>>>,
}

impl NotificationQueue {
    /// Payloads waiting to be written, oldest first.
    pub closed spec fn pending(&self) -> Seq<Seq<u8>> {
        payloads_view(self.entries@)
    }

    /// Every payload the queue ever took, in the order it took them.
    pub closed spec fn accepted(&self) -> Seq<Seq<u8>> {
        self.accepted@
    }

    /// Every payload the queue ever handed to the write path, in order.
    pub closed spec fn delivered(&self) -> Seq<Seq<u8>> {
        self.delivered@
    }

    /// The fixed number of slots.
    pub closed spec fn slots(&self) -> nat {
        self.capacity as nat
    }

    /// The number of slots reserved by producers.
    pub closed spec fn reservations(&self) -> nat {
        self.reserved as nat
    }

    /// Whether a slot is neither used nor reserved.
    pub open spec fn has_room(&self) -> bool {
        self.pending().len() + self.reservations() < self.slots()
    }

    /// The queue's invariant: used and reserved slots fit in the capacity, and
    /// what was taken is exactly what was handed on followed by what waits.
    pub closed spec fn wf(&self) -> bool {
        &&& self.entries@.len() + self.reserved <= self.capacity
        &&& self.accepted@ == self.delivered@ + payloads_view(self.entries@)
    }

    /// An empty queue of `capacity` slots.
    pub fn new(capacity: usize) -> (r: NotificationQueue)
        ensures
            r.wf(),
            r.slots() == capacity,
            r.pending() == Seq::<Seq<u8>>::empty(),
            r.reservations() == 0,
            r.accepted() == Seq::<Seq<u8>>::empty(),
            r.delivered() == Seq::<Seq<u8>>::empty(),
    {
        let r = NotificationQueue {
            entries: Vec::new(),
            capacity,
            reserved: 0,
            accepted: Ghost(Seq::empty()),
            delivered: Ghost(Seq::empty()),
        };
        assert(payloads_view(r.entries@) =~= Seq::<Seq<u8>>::empty());
        r
    }

    /// Number of queued payloads.
    pub fn len(&self) -> (r: usize)
        requires
            self.wf(),
        ensures
            r == self.pending().len(),
    {
        self.entries.len()
    }

    /// Whether a payload can be queued without a reservation.
    pub fn has_free_slot(&self) -> (r: bool)
        requires
            self.wf(),
        ensures
            r == self.has_room(),
    {
        self.entries.len() < self.capacity - self.reserved
    }

    proof fn lemma_push_view(entries: Seq<Vec<u8>>, p: Vec<u8>)
        ensures
            payloads_view(entries.push(p)) == payloads_view(entries).push(p@),
    {
        assert(payloads_view(entries.push(p)) =~= payloads_view(entries).push(p@));
    }

    /// Best-effort enqueue: the payload is queued iff a slot is free, and
    /// dropped otherwise.
    pub fn try_push(&mut self, payload: Vec<u8>) -> (r: bool)
        requires
            old(self).wf(),
        ensures
            final(self).wf(),
            r == old(self).has_room(),
            final(self).slots() == old(self).slots(),
            final(self).reservations() == old(self).reservations(),
            final(self).delivered() == old(self).delivered(),
            r ==> final(self).pending() == old(self).pending().push(payload@),
            r ==> final(self).accepted() == old(self).accepted().push(payload@),
            !r ==> *final(self) == *old(self),
    {
        if self.entries.len() < self.capacity - self.reserved {
            proof {
                Self::lemma_push_view(self.entries@, payload);
            }
            self.accepted = Ghost(self.accepted@.push(payload@));
            self.entries.push(payload);
            true
        } else {
            false
        }
    }

    /// Reserve a slot for a producer, if one is free.
    pub fn reserve(&mut self) -> (r: bool)
        requires
            old(self).wf(),
        ensures
            final(self).wf(),
            r == old(self).has_room(),
            final(self).pending() == old(self).pending(),
            final(self).accepted() == old(self).accepted(),
            final(self).delivered() == old(self).delivered(),
            final(self).slots() == old(self).slots(),
            final(self).reservations() == old(self).reservations() + (if r { 1nat } else { 0nat }),
    {
        if self.entries.len() < self.capacity - self.reserved {
            self.reserved = self.reserved + 1;
            true
        } else {
            false
        }
    }

    /// Number of reserved slots.
    pub fn reserved_slots(&self) -> (r: usize)
        ensures
            r == self.reservations(),
    {
        self.reserved
    }

    /// Give back a reservation without sending.
    pub fn cancel_reservation(&mut self)
        requires
            old(self).wf(),
            old(self).reservations() > 0,
        ensures
            final(self).wf(),
            final(self).pending() == old(self).pending(),
            final(self).accepted() == old(self).accepted(),
            final(self).delivered() == old(self).delivered(),
            final(self).slots() == old(self).slots(),
            final(self).reservations() == old(self).reservations() - 1,
    {
        self.reserved = self.reserved - 1;
    }

    /// Queue a payload in a slot reserved before: always succeeds.
    pub fn push_reserved(&mut self, payload: Vec<u8>)
        requires
            old(self).wf(),
            old(self).reservations() > 0,
        ensures
            final(self).wf(),
            final(self).pending() == old(self).pending().push(payload@),
            final(self).accepted() == old(self).accepted().push(payload@),
            final(self).delivered() == old(self).delivered(),
            final(self).slots() == old(self).slots(),
            final(self).reservations() == old(self).reservations() - 1,
    {
        proof {
            Self::lemma_push_view(self.entries@, payload);
        }
        self.reserved = self.reserved - 1;
        self.accepted = Ghost(self.accepted@.push(payload@));
        self.entries.push(payload);
    }

    /// Hand the oldest payload to the write path.
    pub fn pop(&mut self) -> (r: Option<Vec<u8>>)
        requires
            old(self).wf(),
        ensures
            final(self).wf(),
            final(self).accepted() == old(self).accepted(),
            final(self).slots() == old(self).slots(),
            final(self).reservations() == old(self).reservations(),
            old(self).pending().len() == 0 ==> r.is_none() && *final(self) == *old(self),
            old(self).pending().len() > 0 ==> {
                &&& r.is_some()
                &&& r.unwrap()@ == old(self).pending()[0]
                &&& final(self).pending() == old(self).pending().drop_first()
                &&& final(self).delivered() == old(self).delivered().push(r.unwrap()@)
            },
    {
        if self.entries.len() == 0 {
            None
        } else {
            let p = self.entries.remove(0);
            proof {
                assert(payloads_view(self.entries@) =~= payloads_view(old(self).entries@).drop_first());
                self.delivered = Ghost(self.delivered@.push(p@));
                assert(self.accepted@ =~= self.delivered@ + payloads_view(self.entries@));
            }
            Some(p)
        }
    }
}

/// Every payload a queue accepted is handed to the write path once, in the
/// order it was accepted: what was delivered, followed by what still waits,
/// is exactly what was accepted.
pub proof fn lemma_delivered_in_order(q: &NotificationQueue)
    requires
        q.wf(),
    ensures
        q.accepted() == q.delivered() + q.pending(),
        q.delivered().len() <= q.accepted().len(),
        forall|i: int| 0 <= i < q.delivered().len() ==> #[trigger] q.delivered()[i] == q.accepted()[i],
{
    assert(q.accepted().len() == q.delivered().len() + q.pending().len());
}

} // verus!
