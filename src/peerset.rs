//! Admission control: which peers may hold a connection, with a reserved pool
//! that is always admitted and bounded inbound and outbound regular pools.
use vstd::prelude::*;

verus! {

/// Who opened a connection or substream.
#[derive(Clone, Copy, PartialEq, Eq, Structural, Debug)]
pub enum Direction {
    Inbound,
    Outbound,
}

/// A connected peer and the pool its slot is accounted in.
#[derive(Clone, Copy, PartialEq, Eq, Structural, Debug)]
pub struct PeerSlot {
    pub peer: u64,
    pub direction: Direction,
    pub reserved: bool,
}

/// Number of regular (not reserved) slots of direction `d` in `s`.
pub open spec fn regular_count(s: Seq<PeerSlot>, d: Direction) -> nat
    decreases s.len(),
{
    if s.len() == 0 {
        0
    } else {
        regular_count(s.drop_last(), d) + (if !s.last().reserved && s.last().direction == d {
            1nat
        } else {
            0nat
        })
    }
}

proof fn lemma_count_push(s: Seq<PeerSlot>, x: PeerSlot, d: Direction)
    ensures
        regular_count(s.push(x), d) == regular_count(s, d) + (if !x.reserved && x.direction == d {
            1nat
        } else {
            0nat
        }),
{
    assert(s.push(x).drop_last() =~= s);
}

proof fn lemma_count_remove(s: Seq<PeerSlot>, i: int, d: Direction)
    requires
        0 <= i < s.len(),
    ensures
        regular_count(s, d) == regular_count(s.remove(i), d) + (if !s[i].reserved && s[i].direction == d {
            1nat
        } else {
            0nat
        }),
    decreases s.len(),
{
    if i == s.len() - 1 {
        assert(s.remove(i) =~= s.drop_last());
    } else {
        lemma_count_remove(s.drop_last(), i, d);
        assert(s.remove(i).drop_last() =~= s.drop_last().remove(i));
        assert(s.remove(i).last() == s.last());
    }
}

/// The admission controller of one node.
pub struct PeerSet {
    reserved_peers: Vec<u64>,
    in_peers: u32,
    out_peers: u32,
    in_used: u32,
    out_used: u32,
    slots: Vec<PeerSlot>,
}

impl PeerSet {
    /// Whether `peer` is in the reserved pool.
    pub closed spec fn is_reserved(&self, peer: u64) -> bool {
        self.reserved_peers@.contains(peer)
    }

    /// The connected peers and their slots.
    pub closed spec fn slots_view(&self) -> Seq<PeerSlot> {
        self.slots@
    }

    /// Whether `peer` holds a slot.
    pub open spec fn connected(&self, peer: u64) -> bool {
        exists|i: int| 0 <= i < self.slots_view().len() && (#[trigger] self.slots_view()[i]).peer == peer
    }

    /// Capacity of the regular inbound pool.
    pub closed spec fn in_capacity(&self) -> nat {
        self.in_peers as nat
    }

    /// Capacity of the regular outbound pool.
    pub closed spec fn out_capacity(&self) -> nat {
        self.out_peers as nat
    }

    /// Regular inbound slots in use.
    pub open spec fn in_count(&self) -> nat {
        regular_count(self.slots_view(), Direction::Inbound)
    }

    /// Regular outbound slots in use.
    pub open spec fn out_count(&self) -> nat {
        regular_count(self.slots_view(), Direction::Outbound)
    }

    /// Whether a connection of `peer` in direction `d` is admitted: the peer
    /// is already connected, or reserved, or the pool of `d` has a free slot.
    pub open spec fn admits(&self, peer: u64, d: Direction) -> bool {
        self.connected(peer) || self.is_reserved(peer) || match d {
            Direction::Inbound => self.in_count() < self.in_capacity(),
            Direction::Outbound => self.out_count() < self.out_capacity(),
        }
    }

    /// The invariant: the counters match the slots and stay within capacity,
    /// and a peer holds at most one slot.
    pub closed spec fn wf(&self) -> bool {
        &&& self.in_used as nat == regular_count(self.slots@, Direction::Inbound)
        &&& self.out_used as nat == regular_count(self.slots@, Direction::Outbound)
        &&& self.in_used <= self.in_peers
        &&& self.out_used <= self.out_peers
        &&& forall|i: int, j: int|
            0 <= i < j < self.slots@.len() ==> (#[trigger] self.slots@[i]).peer != (#[trigger] self.slots@[j]).peer
    }

    /// A controller with no connected peer.
    pub fn new(reserved_peers: Vec<u64>, in_peers: u32, out_peers: u32) -> (r: PeerSet)
        ensures
            r.wf(),
            r.slots_view() == Seq::<PeerSlot>::empty(),
            r.in_capacity() == in_peers,
            r.out_capacity() == out_peers,
            forall|p: u64| r.is_reserved(p) == reserved_peers@.contains(p),
    {
        PeerSet { reserved_peers, in_peers, out_peers, in_used: 0, out_used: 0, slots: Vec::new() }
    }

    /// Whether `peer` is in the reserved pool.
    pub fn is_reserved_peer(&self, peer: u64) -> (r: bool)
        ensures
            r == self.is_reserved(peer),
    {
        let mut i: usize = 0;
        while i < self.reserved_peers.len()
            invariant
                i <= self.reserved_peers@.len(),
                forall|j: int| 0 <= j < i ==> self.reserved_peers@[j] != peer,
            decreases self.reserved_peers@.len() - i,
        {
            if self.reserved_peers[i] == peer {
                return true;
            }
            i = i + 1;
        }
        false
    }

    /// The position of `peer`'s slot, if it holds one.
    fn find_slot(&self, peer: u64) -> (r: Option<usize>)
        ensures
            match r {
                Some(i) => i < self.slots@.len() && self.slots@[i as int].peer == peer,
                None => !self.connected(peer),
            },
    {
        let mut i: usize = 0;
        while i < self.slots.len()
            invariant
                i <= self.slots@.len(),
                forall|j: int| 0 <= j < i ==> self.slots@[j].peer != peer,
            decreases self.slots@.len() - i,
        {
            if self.slots[i].peer == peer {
                return Some(i);
            }
            i = i + 1;
        }
        None
    }

    /// Whether `peer` holds a slot.
    pub fn is_connected(&self, peer: u64) -> (r: bool)
        ensures
            r == self.connected(peer),
    {
        self.find_slot(peer).is_some()
    }

    /// Regular inbound slots in use.
    pub fn in_peers_used(&self) -> (r: u32)
        requires
            self.wf(),
        ensures
            r == self.in_count(),
    {
        self.in_used
    }

    /// Regular outbound slots in use.
    pub fn out_peers_used(&self) -> (r: u32)
        requires
            self.wf(),
        ensures
            r == self.out_count(),
    {
        self.out_used
    }

    /// Whether a connection of `peer` in direction `d` would be admitted.
    pub fn admits_peer(&self, peer: u64, d: Direction) -> (r: bool)
        requires
            self.wf(),
        ensures
            r == self.admits(peer, d),
    {
        if self.is_connected(peer) || self.is_reserved_peer(peer) {
            return true;
        }
        match d {
            Direction::Inbound => self.in_used < self.in_peers,
            Direction::Outbound => self.out_used < self.out_peers,
        }
    }

    /// Admit a connection of `peer` in direction `d`. A peer already connected
    /// keeps its slot; a reserved peer is always admitted outside the pools; a
    /// regular peer takes a slot of the pool of `d` if one is free, and is
    /// refused, with nothing changed, otherwise.
    pub fn try_connect(&mut self, peer: u64, d: Direction) -> (r: bool)
        requires
            old(self).wf(),
        ensures
            final(self).wf(),
            r == old(self).admits(peer, d),
            r ==> final(self).connected(peer),
            r && !old(self).connected(peer) ==> final(self).slots_view() == old(self).slots_view().push(
                (PeerSlot { peer, direction: d, reserved: old(self).is_reserved(peer) }),
            ),
            !r ==> *final(self) == *old(self),
            old(self).connected(peer) ==> *final(self) == *old(self),
            forall|p: u64| p != peer ==> (final(self).connected(p) == old(self).connected(p)),
            forall|p: u64| final(self).is_reserved(p) == old(self).is_reserved(p),
            final(self).in_capacity() == old(self).in_capacity(),
            final(self).out_capacity() == old(self).out_capacity(),
    {
        if self.find_slot(peer).is_some() {
            return true;
        }
        let reserved = self.is_reserved_peer(peer);
        if !reserved {
            match d {
                Direction::Inbound => {
                    if self.in_used >= self.in_peers {
                        return false;
                    }
                    self.in_used = self.in_used + 1;
                },
                Direction::Outbound => {
                    if self.out_used >= self.out_peers {
                        return false;
                    }
                    self.out_used = self.out_used + 1;
                },
            }
        }
        let slot = PeerSlot { peer, direction: d, reserved };
        proof {
            lemma_count_push(self.slots@, slot, Direction::Inbound);
            lemma_count_push(self.slots@, slot, Direction::Outbound);
        }
        self.slots.push(slot);
        assert(self.slots@[self.slots@.len() - 1].peer == peer);
        assert forall|p: u64| p != peer implies (self.connected(p) == old(self).connected(p)) by {
            if old(self).connected(p) {
                let i = choose|i: int|
                    0 <= i < old(self).slots@.len() && (#[trigger] old(self).slots@[i]).peer == p;
                assert(self.slots@[i] == old(self).slots@[i]);
            }
            if self.connected(p) {
                let i = choose|i: int| 0 <= i < self.slots@.len() && (#[trigger] self.slots@[i]).peer == p;
                assert(old(self).slots@[i] == self.slots@[i]);
            }
        }
        true
    }

    /// Free the slot of `peer`, if it holds one.
    pub fn release(&mut self, peer: u64)
        requires
            old(self).wf(),
        ensures
            final(self).wf(),
            !final(self).connected(peer),
            forall|p: u64| p != peer ==> (final(self).connected(p) == old(self).connected(p)),
            forall|p: u64| final(self).is_reserved(p) == old(self).is_reserved(p),
            final(self).in_capacity() == old(self).in_capacity(),
            final(self).out_capacity() == old(self).out_capacity(),
            !old(self).connected(peer) ==> *final(self) == *old(self),
            old(self).connected(peer) ==> exists|i: int|
                0 <= i < old(self).slots_view().len() && (#[trigger] old(self).slots_view()[i]).peer == peer
                    && final(self).slots_view() == old(self).slots_view().remove(i),
    {
        match self.find_slot(peer) {
            None => {},
            Some(i) => {
                let slot = self.slots[i];
                proof {
                    lemma_count_remove(self.slots@, i as int, Direction::Inbound);
                    lemma_count_remove(self.slots@, i as int, Direction::Outbound);
                }
                if !slot.reserved {
                    match slot.direction {
                        Direction::Inbound => {
                            self.in_used = self.in_used - 1;
                        },
                        Direction::Outbound => {
                            self.out_used = self.out_used - 1;
                        },
                    }
                }
                self.slots.remove(i);
                let ghost s0 = old(self).slots@;
                assert(self.slots@ == s0.remove(i as int));
                assert(s0[i as int].peer == peer);
                assert forall|a: int, b: int|
                    0 <= a < b < self.slots@.len() implies (#[trigger] self.slots@[a]).peer != (
                #[trigger] self.slots@[b]).peer by {
                    let a0 = if a < i { a } else { a + 1 };
                    let b0 = if b < i { b } else { b + 1 };
                    assert(self.slots@[a] == s0[a0]);
                    assert(self.slots@[b] == s0[b0]);
                }
                assert forall|k: int| 0 <= k < self.slots@.len() implies (#[trigger] self.slots@[k]).peer
                    != peer by {
                    let k0 = if k < i { k } else { k + 1 };
                    assert(self.slots@[k] == s0[k0]);
                }
                assert forall|p: u64| p != peer implies (self.connected(p) == old(self).connected(
                    p,
                )) by {
                    if old(self).connected(p) {
                        let k0 = choose|k0: int| 0 <= k0 < s0.len() && (#[trigger] s0[k0]).peer == p;
                        let k = if k0 < i { k0 } else { k0 - 1 };
                        assert(k0 != i);
                        assert(self.slots@[k] == s0[k0]);
                    }
                    if self.connected(p) {
                        let k = choose|k: int| 0 <= k < self.slots@.len() && (#[trigger] self.slots@[k]).peer == p;
                        let k0 = if k < i { k } else { k + 1 };
                        assert(self.slots@[k] == s0[k0]);
                    }
                }
            },
        }
    }
}

/// Regular peers never exceed the capacities, whatever admissions and
/// releases came before; reserved peers are accounted outside the pools.
pub proof fn lemma_capacity_respected(ps: &PeerSet)
    requires
        ps.wf(),
    ensures
        ps.in_count() <= ps.in_capacity(),
        ps.out_count() <= ps.out_capacity(),
{
}

} // verus!
