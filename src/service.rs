//! The node's notification service: one lifecycle state machine per
//! (peer, protocol) pair, their queues and admission, and the ordered event
//! log that every subscriber reads.
use vstd::prelude::*;
use crate::config::{
    config_consistent, ensure_addresses_consistent_with_transport, ConfigError,
    NetworkConfiguration,
};
use crate::events::{concerns, lemma_push_event, open_after, well_ordered, Event};
use crate::peerset::{Direction, PeerSet};
use crate::protocol::{
    is_selection, lemma_selection_unique, names_view, negotiate, registry_supports, Negotiation,
    ProtocolDescriptor,
};
use crate::queue::NotificationQueue;

verus! {

/// Lifecycle state of the substream of one (peer, protocol) pair.
#[derive(Clone, Copy, PartialEq, Eq, Structural, Debug)]
pub enum SubstreamState {
    Closed,
    Opening,
    Open,
    Closing,
}

/// Whether the pair has been reported open and not yet closed.
pub open spec fn reported_open(s: SubstreamState) -> bool {
    s is Open || s is Closing
}

/// The live substream of a (peer, protocol) pair.
pub struct Substream {
    pub peer: u64,
    pub protocol: usize,
    pub id: u64,
    pub direction: Direction,
    pub state: SubstreamState,
    pub queue: NotificationQueue,
}

/// The entry of the pair (`peer`, `k`) in the table `subs`, if it has one.
pub open spec fn entry_in(subs: Seq<Substream>, peer: u64, k: int) -> Option<Substream>
    decreases subs.len(),
{
    if subs.len() == 0 {
        None
    } else if subs.last().peer == peer && subs.last().protocol == k {
        Some(subs.last())
    } else {
        entry_in(subs.drop_last(), peer, k)
    }
}

/// State of the pair (`peer`, `k`) in the table `subs`: that of its entry,
/// or `Closed` when it has none.
pub open spec fn state_in(subs: Seq<Substream>, peer: u64, k: int) -> SubstreamState {
    match entry_in(subs, peer, k) {
        Some(s) => s.state,
        None => SubstreamState::Closed,
    }
}

/// Whether no two entries of `subs` are for the same pair.
pub open spec fn keys_unique(subs: Seq<Substream>) -> bool {
    forall|i: int, j: int|
        0 <= i < j < subs.len() ==> !((#[trigger] subs[i]).peer == (#[trigger] subs[j]).peer
            && subs[i].protocol == subs[j].protocol)
}

proof fn lemma_state_at(subs: Seq<Substream>, i: int)
    requires
        keys_unique(subs),
        0 <= i < subs.len(),
    ensures
        entry_in(subs, subs[i].peer, subs[i].protocol as int) == Some(subs[i]),
        state_in(subs, subs[i].peer, subs[i].protocol as int) == subs[i].state,
    decreases subs.len(),
{
    if i < subs.len() - 1 {
        assert(subs.drop_last()[i] == subs[i]);
        lemma_state_at(subs.drop_last(), i);
    }
}

proof fn lemma_state_absent(subs: Seq<Substream>, peer: u64, k: int)
    requires
        forall|i: int| 0 <= i < subs.len() ==> !((#[trigger] subs[i]).peer == peer && subs[i].protocol == k),
    ensures
        entry_in(subs, peer, k) == None::<Substream>,
        state_in(subs, peer, k) == SubstreamState::Closed,
    decreases subs.len(),
{
    if subs.len() > 0 {
        assert(subs[subs.len() - 1] == subs.last());
        assert forall|i: int| 0 <= i < subs.drop_last().len() implies !((
        #[trigger] subs.drop_last()[i]).peer == peer && subs.drop_last()[i].protocol == k) by {
            assert(subs.drop_last()[i] == subs[i]);
        }
        lemma_state_absent(subs.drop_last(), peer, k);
    }
}

proof fn lemma_state_update(subs: Seq<Substream>, i: int, s: Substream, peer: u64, k: int)
    requires
        keys_unique(subs),
        0 <= i < subs.len(),
        s.peer == subs[i].peer,
        s.protocol == subs[i].protocol,
    ensures
        keys_unique(subs.update(i, s)),
        entry_in(subs.update(i, s), peer, k) == if peer == s.peer && k == s.protocol {
            Some(s)
        } else {
            entry_in(subs, peer, k)
        },
    decreases subs.len(),
{
    let u = subs.update(i, s);
    assert forall|a: int, b: int| 0 <= a < b < u.len() implies !((#[trigger] u[a]).peer == (
    #[trigger] u[b]).peer && u[a].protocol == u[b].protocol) by {
        assert(subs[a].peer == u[a].peer && subs[a].protocol == u[a].protocol);
        assert(subs[b].peer == u[b].peer && subs[b].protocol == u[b].protocol);
    }
    if peer == s.peer && k == s.protocol {
        lemma_state_at(u, i);
    } else if i == subs.len() - 1 {
        assert(u.drop_last() =~= subs.drop_last());
    } else {
        assert(u.drop_last() =~= subs.drop_last().update(i, s));
        assert(subs.drop_last()[i] == subs[i]);
        assert(keys_unique(subs.drop_last()));
        lemma_state_update(subs.drop_last(), i, s, peer, k);
    }
}

proof fn lemma_state_remove(subs: Seq<Substream>, i: int, peer: u64, k: int)
    requires
        keys_unique(subs),
        0 <= i < subs.len(),
    ensures
        keys_unique(subs.remove(i)),
        entry_in(subs.remove(i), peer, k) == if peer == subs[i].peer && k == subs[i].protocol {
            None
        } else {
            entry_in(subs, peer, k)
        },
    decreases subs.len(),
{
    let r = subs.remove(i);
    assert forall|a: int, b: int| 0 <= a < b < r.len() implies !((#[trigger] r[a]).peer == (
    #[trigger] r[b]).peer && r[a].protocol == r[b].protocol) by {
        let a0 = if a < i { a } else { a + 1 };
        let b0 = if b < i { b } else { b + 1 };
        assert(r[a] == subs[a0]);
        assert(r[b] == subs[b0]);
    }
    if peer == subs[i].peer && k == subs[i].protocol {
        assert forall|j: int| 0 <= j < r.len() implies !((#[trigger] r[j]).peer == peer && r[j].protocol
            == k) by {
            let j0 = if j < i { j } else { j + 1 };
            assert(r[j] == subs[j0]);
        }
        lemma_state_absent(r, peer, k);
    } else if i == subs.len() - 1 {
        assert(r =~= subs.drop_last());
    } else {
        assert(r.drop_last() =~= subs.drop_last().remove(i));
        assert(r.last() == subs.last());
        assert(keys_unique(subs.drop_last()));
        lemma_state_remove(subs.drop_last(), i, peer, k);
    }
}

proof fn lemma_state_push(subs: Seq<Substream>, s: Substream, peer: u64, k: int)
    requires
        keys_unique(subs),
        state_in(subs, s.peer, s.protocol as int) == SubstreamState::Closed,
        s.state != SubstreamState::Closed,
        forall|i: int| 0 <= i < subs.len() ==> (#[trigger] subs[i]).state != SubstreamState::Closed,
    ensures
        keys_unique(subs.push(s)),
        entry_in(subs.push(s), peer, k) == if peer == s.peer && k == s.protocol {
            Some(s)
        } else {
            entry_in(subs, peer, k)
        },
{
    assert(subs.push(s).drop_last() =~= subs);
    let u = subs.push(s);
    assert forall|a: int, b: int| 0 <= a < b < u.len() implies !((#[trigger] u[a]).peer == (
    #[trigger] u[b]).peer && u[a].protocol == u[b].protocol) by {
        if b == subs.len() && u[a].peer == s.peer && u[a].protocol == s.protocol {
            assert(u[a] == subs[a]);
            lemma_state_at_or_closed(subs, a);
        }
    }
}

/// An entry's own state is never `Closed` in a well-formed table, so a pair
/// found `Closed` has no entry.
proof fn lemma_state_at_or_closed(subs: Seq<Substream>, a: int)
    requires
        keys_unique(subs),
        0 <= a < subs.len(),
        subs[a].state != SubstreamState::Closed,
    ensures
        state_in(subs, subs[a].peer, subs[a].protocol as int) != SubstreamState::Closed,
{
    lemma_state_at(subs, a);
}

/// The event log agrees with the table: a pair has been reported open (and
/// not yet closed) iff its state is `Open` or `Closing`, names that are not
/// configured never were, and every pair's events are well ordered.
pub open spec fn events_inv(reg: Seq<ProtocolDescriptor>, subs: Seq<Substream>, evs: Seq<Event>) -> bool {
    &&& forall|p: u64, k: int|
        0 <= k < reg.len() ==> open_after(evs, p, reg[k].name@) == reported_open(
            #[trigger] state_in(subs, p, k),
        )
    &&& forall|p: u64, n: Seq<char>|
        (forall|k: int| 0 <= k < reg.len() ==> (#[trigger] reg[k]).name@ != n) ==> !(#[trigger] open_after(
            evs,
            p,
            n,
        ))
    &&& forall|p: u64, n: Seq<char>| #[trigger] well_ordered(evs, p, n)
}

/// A table change that reports no pair as opened or closed keeps the log
/// consistent.
proof fn lemma_events_same(
    reg: Seq<ProtocolDescriptor>,
    subs0: Seq<Substream>,
    subs1: Seq<Substream>,
    evs: Seq<Event>,
)
    requires
        events_inv(reg, subs0, evs),
        forall|p: u64, k: int|
            0 <= k < reg.len() ==> reported_open(#[trigger] state_in(subs1, p, k)) == reported_open(
                state_in(subs0, p, k),
            ),
    ensures
        events_inv(reg, subs1, evs),
{
    assert forall|p: u64, k: int| 0 <= k < reg.len() implies open_after(evs, p, reg[k].name@)
        == reported_open(#[trigger] state_in(subs1, p, k)) by {
        assert(open_after(evs, p, reg[k].name@) == reported_open(state_in(subs0, p, k)));
    }
}

/// Publishing an event about exactly the pair (`peer`, `k`), allowed in the
/// pair's reported status, together with a table change that moves only that
/// pair to the status the event implies, keeps the log consistent.
proof fn lemma_events_push(
    reg: Seq<ProtocolDescriptor>,
    subs0: Seq<Substream>,
    subs1: Seq<Substream>,
    evs: Seq<Event>,
    e: Event,
    peer: u64,
    k: int,
)
    requires
        events_inv(reg, subs0, evs),
        names_distinct(reg),
        0 <= k < reg.len(),
        forall|p: u64, n: Seq<char>| #[trigger] concerns(e, p, n) <==> (p == peer && n == reg[k].name@),
        crate::events::step_ok(reported_open(state_in(subs0, peer, k)), e, peer, reg[k].name@),
        reported_open(state_in(subs1, peer, k)) == crate::events::open_next(
            reported_open(state_in(subs0, peer, k)),
            e,
            peer,
            reg[k].name@,
        ),
        forall|p: u64, j: int|
            0 <= j < reg.len() && !(p == peer && j == k) ==> reported_open(
                #[trigger] state_in(subs1, p, j),
            ) == reported_open(state_in(subs0, p, j)),
    ensures
        events_inv(reg, subs1, evs.push(e)),
{
    let evs1 = evs.push(e);
    assert(open_after(evs, peer, reg[k].name@) == reported_open(state_in(subs0, peer, k)));
    assert forall|p: u64, n: Seq<char>| #[trigger] well_ordered(evs1, p, n) by {
        lemma_push_event(evs, e, p, n);
        assert(well_ordered(evs, p, n));
    }
    assert forall|p: u64, j: int| 0 <= j < reg.len() implies open_after(evs1, p, reg[j].name@)
        == reported_open(#[trigger] state_in(subs1, p, j)) by {
        lemma_push_event(evs, e, p, reg[j].name@);
        assert(open_after(evs, p, reg[j].name@) == reported_open(state_in(subs0, p, j)));
        if !(p == peer && j == k) {
            if j != k {
                if j < k {
                    assert(reg[j].name@ != reg[k].name@);
                } else {
                    assert(reg[k].name@ != reg[j].name@);
                }
            }
            assert(!concerns(e, p, reg[j].name@));
        }
    }
    assert forall|p: u64, n: Seq<char>|
        (forall|j: int| 0 <= j < reg.len() ==> (#[trigger] reg[j]).name@ != n) implies !(
        #[trigger] open_after(evs1, p, n)) by {
        lemma_push_event(evs, e, p, n);
        assert(reg[k].name@ != n);
        assert(!concerns(e, p, n));
    }
}

/// Why a notification could not be sent.
#[derive(Clone, Copy, PartialEq, Eq, Structural, Debug)]
pub enum NotificationError {
    /// No open substream exists with that peer for that protocol.
    NoSuchPeerOrProtocol,
    /// The payload exceeds the protocol's size limit.
    NotificationTooLarge,
}

/// A handle for sending on one open substream, one reserved slot at a time.
pub struct NotificationSender {
    peer: u64,
    protocol: usize,
    substream: u64,
    reserved: bool,
}

impl NotificationSender {
    /// The peer this handle sends to.
    pub closed spec fn spec_peer(&self) -> u64 {
        self.peer
    }

    /// The protocol index this handle sends on.
    pub closed spec fn spec_protocol(&self) -> int {
        self.protocol as int
    }

    /// The identifier of the substream this handle was made for.
    pub closed spec fn spec_substream(&self) -> u64 {
        self.substream
    }

    /// Whether a queue slot is reserved for this handle.
    pub closed spec fn is_ready(&self) -> bool {
        self.reserved
    }

    /// Whether a queue slot is reserved for this handle.
    pub fn has_reserved_slot(&self) -> (r: bool)
        ensures
            r == self.is_ready(),
    {
        self.reserved
    }
}

/// A subscriber's position in the event log.
pub struct Subscription {
    cursor: usize,
}

impl Subscription {
    /// How many events this subscriber has read.
    pub closed spec fn position(&self) -> nat {
        self.cursor as nat
    }
}

/// The notification service of one node.
pub struct NotificationService {
    local_peer_id: u64,
    protocols: Vec<ProtocolDescriptor>,
    peersets: Vec<PeerSet>,
    substreams: Vec<Substream>,
    events: Vec<Event>,
    queue_capacity: usize,
    next_id: u64,
}

/// Whether the canonical names of `reg` are pairwise distinct.
pub open spec fn names_distinct(reg: Seq<ProtocolDescriptor>) -> bool {
    forall|i: int, j: int| 0 <= i < j < reg.len() ==> (#[trigger] reg[i]).name@ != (#[trigger] reg[j]).name@
}

impl NotificationService {
    /// The configured protocols.
    pub closed spec fn protocols_view(&self) -> Seq<ProtocolDescriptor> {
        self.protocols@
    }

    /// The canonical name of protocol `k`.
    pub open spec fn name_of(&self, k: int) -> Seq<char> {
        self.protocols_view()[k].name@
    }

    /// The events published so far, in order.
    pub closed spec fn events_view(&self) -> Seq<Event> {
        self.events@
    }

    /// The identity of this node.
    pub closed spec fn spec_local_peer_id(&self) -> u64 {
        self.local_peer_id
    }

    /// The live substream table.
    pub closed spec fn table(&self) -> Seq<Substream> {
        self.substreams@
    }

    /// Lifecycle state of the pair (`peer`, protocol `k`).
    pub open spec fn pair_state(&self, peer: u64, k: int) -> SubstreamState {
        state_in(self.table(), peer, k)
    }

    /// The admission controller of protocol `k`.
    pub closed spec fn peerset_of(&self, k: int) -> PeerSet {
        self.peersets@[k]
    }

    /// Queue capacity given to every new substream.
    pub closed spec fn spec_queue_capacity(&self) -> nat {
        self.queue_capacity as nat
    }

    /// The service's invariant.
    pub closed spec fn wf(&self) -> bool {
        &&& self.peersets@.len() == self.protocols@.len()
        &&& names_distinct(self.protocols@)
        &&& forall|k: int| 0 <= k < self.peersets@.len() ==> (#[trigger] self.peersets@[k]).wf()
        &&& keys_unique(self.substreams@)
        &&& forall|i: int|
            0 <= i < self.substreams@.len() ==> {
                &&& (#[trigger] self.substreams@[i]).protocol < self.protocols@.len()
                &&& self.substreams@[i].state != SubstreamState::Closed
                &&& self.substreams@[i].queue.wf()
                &&& self.substreams@[i].id < self.next_id
            }
        &&& events_inv(self.protocols@, self.substreams@, self.events@)
    }
}

/// The peer ids of the reserved nodes of a configuration.
pub open spec fn reserved_ids(c: NetworkConfiguration) -> Seq<u64> {
    c.default_peers_set.reserved_nodes@.map_values(|m: crate::config::MultiaddrWithPeerId| m.peer_id)
}

fn reserved_peer_ids(c: &NetworkConfiguration) -> (r: Vec<u64>)
    ensures
        r@ == reserved_ids(*c),
{
    let mut r: Vec<u64> = Vec::new();
    let mut i: usize = 0;
    while i < c.default_peers_set.reserved_nodes.len()
        invariant
            i <= c.default_peers_set.reserved_nodes@.len(),
            r@ == reserved_ids(*c).take(i as int),
        decreases c.default_peers_set.reserved_nodes@.len() - i,
    {
        r.push(c.default_peers_set.reserved_nodes[i].peer_id);
        assert(reserved_ids(*c).take(i + 1) =~= reserved_ids(*c).take(i as int).push(
            reserved_ids(*c)[i as int],
        ));
        i = i + 1;
    }
    assert(reserved_ids(*c).take(i as int) =~= reserved_ids(*c));
    r
}

fn canonical_names_distinct(reg: &Vec<ProtocolDescriptor>) -> (r: bool)
    ensures
        r == names_distinct(reg@),
{
    let mut j: usize = 0;
    while j < reg.len()
        invariant
            j <= reg@.len(),
            forall|a: int, b: int| 0 <= a < b < j ==> (#[trigger] reg@[a]).name@ != (#[trigger] reg@[b]).name@,
        decreases reg@.len() - j,
    {
        let mut i: usize = 0;
        while i < j
            invariant
                i <= j < reg@.len(),
                forall|a: int| 0 <= a < i ==> (#[trigger] reg@[a]).name@ != reg@[j as int].name@,
            decreases j - i,
        {
            if reg[i].name == reg[j].name {
                return false;
            }
            i = i + 1;
        }
        j = j + 1;
    }
    true
}

impl NotificationService {
    /// Build a node's service from its configuration, checking first that
    /// every configured address suits the transport and that the protocols'
    /// canonical names are distinct. Each protocol gets an admission
    /// controller over the default set's reserved nodes and capacities.
    pub fn new(local_peer_id: u64, config: NetworkConfiguration, queue_capacity: usize) -> (r: Result<
        NotificationService,
        ConfigError,
    >)
        ensures
            (r == Err::<NotificationService, ConfigError>(ConfigError::AddressesForAnotherTransport))
                <==> !config_consistent(config),
            (r == Err::<NotificationService, ConfigError>(ConfigError::DuplicateProtocolName)) <==> (
            config_consistent(config) && !names_distinct(config.extra_sets@)),
            match r {
                Ok(s) => {
                    &&& s.wf()
                    &&& s.spec_local_peer_id() == local_peer_id
                    &&& s.protocols_view() == config.extra_sets@
                    &&& s.events_view() == Seq::<Event>::empty()
                    &&& s.spec_queue_capacity() == queue_capacity
                    &&& forall|p: u64, k: int| #[trigger] s.pair_state(p, k) == SubstreamState::Closed
                    &&& forall|k: int|
                        0 <= k < config.extra_sets@.len() ==> {
                            &&& (#[trigger] s.peerset_of(k)).in_capacity()
                                == config.default_peers_set.in_peers
                            &&& s.peerset_of(k).out_capacity() == config.default_peers_set.out_peers
                            &&& forall|p: u64| #[trigger]
                                s.peerset_of(k).is_reserved(p) == reserved_ids(config).contains(p)
                            &&& forall|p: u64| !(#[trigger] s.peerset_of(k).connected(p))
                        }
                },
                Err(_) => true,
            },
    {
        if ensure_addresses_consistent_with_transport(&config).is_err() {
            return Err(ConfigError::AddressesForAnotherTransport);
        }
        if !canonical_names_distinct(&config.extra_sets) {
            return Err(ConfigError::DuplicateProtocolName);
        }
        let mut peersets: Vec<PeerSet> = Vec::new();
        let mut k: usize = 0;
        while k < config.extra_sets.len()
            invariant
                k <= config.extra_sets@.len(),
                peersets@.len() == k,
                forall|j: int|
                    0 <= j < k ==> {
                        &&& (#[trigger] peersets@[j]).wf()
                        &&& peersets@[j].in_capacity() == config.default_peers_set.in_peers
                        &&& peersets@[j].out_capacity() == config.default_peers_set.out_peers
                        &&& forall|p: u64| #[trigger]
                            peersets@[j].is_reserved(p) == reserved_ids(config).contains(p)
                        &&& peersets@[j].slots_view() == Seq::<crate::peerset::PeerSlot>::empty()
                    },
            decreases config.extra_sets@.len() - k,
        {
            let ids = reserved_peer_ids(&config);
            let ps = PeerSet::new(
                ids,
                config.default_peers_set.in_peers,
                config.default_peers_set.out_peers,
            );
            peersets.push(ps);
            k = k + 1;
        }
        let s = NotificationService {
            local_peer_id,
            protocols: config.extra_sets,
            peersets,
            substreams: Vec::new(),
            events: Vec::new(),
            queue_capacity,
            next_id: 0,
        };
        assert forall|p: u64, k: int| #[trigger] s.pair_state(p, k) == SubstreamState::Closed by {
            lemma_state_absent(s.substreams@, p, k);
        }
        assert forall|p: u64, n: Seq<char>| #[trigger] well_ordered(s.events@, p, n) by {
        }
        assert forall|p: u64, n: Seq<char>|
            (forall|k: int| 0 <= k < s.protocols@.len() ==> (#[trigger] s.protocols@[k]).name@ != n)
                implies !(#[trigger] open_after(s.events@, p, n)) by {
        }
        assert forall|p: u64, k: int|
            0 <= k < s.protocols@.len() implies open_after(s.events@, p, s.protocols@[k].name@)
            == reported_open(#[trigger] state_in(s.substreams@, p, k)) by {
            lemma_state_absent(s.substreams@, p, k);
        }
        assert(events_inv(s.protocols@, s.substreams@, s.events@));
        Ok(s)
    }

    /// The identity of this node.
    pub fn local_peer_id(&self) -> (r: u64)
        ensures
            r == self.spec_local_peer_id(),
    {
        self.local_peer_id
    }

    /// Number of configured protocols.
    pub fn protocol_count(&self) -> (r: usize)
        ensures
            r == self.protocols_view().len(),
    {
        self.protocols.len()
    }

    /// The names protocol `k` offers when opening, canonical first.
    pub fn offered_names(&self, k: usize) -> (r: Vec<String>)
        requires
            k < self.protocols_view().len(),
        ensures
            names_view(r@) == self.protocols_view()[k as int].names(),
    {
        self.protocols[k].offered_names()
    }

    /// The protocol whose canonical name is `name`, if any.
    pub fn protocol_index(&self, name: &String) -> (r: Option<usize>)
        ensures
            match r {
                Some(k) => k < self.protocols_view().len() && self.name_of(k as int) == name@,
                None => forall|k: int| 0 <= k < self.protocols_view().len() ==> self.name_of(k) != name@,
            },
    {
        let mut k: usize = 0;
        while k < self.protocols.len()
            invariant
                k <= self.protocols@.len(),
                forall|j: int| 0 <= j < k ==> self.protocols@[j].name@ != name@,
            decreases self.protocols@.len() - k,
        {
            if self.protocols[k].name == *name {
                return Some(k);
            }
            k = k + 1;
        }
        None
    }

    /// The table entry of the pair (`peer`, `k`), if it has one.
    fn find_entry(&self, peer: u64, k: usize) -> (r: Option<usize>)
        requires
            self.wf(),
        ensures
            match r {
                Some(i) => {
                    &&& i < self.substreams@.len()
                    &&& self.substreams@[i as int].peer == peer
                    &&& self.substreams@[i as int].protocol == k
                    &&& self.pair_state(peer, k as int) == self.substreams@[i as int].state
                },
                None => self.pair_state(peer, k as int) == SubstreamState::Closed,
            },
    {
        let mut i: usize = 0;
        while i < self.substreams.len()
            invariant
                self.wf(),
                i <= self.substreams@.len(),
                forall|j: int|
                    0 <= j < i ==> !((#[trigger] self.substreams@[j]).peer == peer
                        && self.substreams@[j].protocol == k),
            decreases self.substreams@.len() - i,
        {
            if self.substreams[i].peer == peer && self.substreams[i].protocol == k {
                proof {
                    lemma_state_at(self.substreams@, i as int);
                }
                return Some(i);
            }
            i = i + 1;
        }
        proof {
            lemma_state_absent(self.substreams@, peer, k as int);
        }
        None
    }

    /// Lifecycle state of the pair (`peer`, protocol `k`).
    pub fn substream_state(&self, peer: u64, k: usize) -> (r: SubstreamState)
        requires
            self.wf(),
        ensures
            r == self.pair_state(peer, k as int),
    {
        match self.find_entry(peer, k) {
            Some(i) => self.substreams[i].state,
            None => SubstreamState::Closed,
        }
    }
}

impl NotificationService {
    /// The substream entry of the pair (`peer`, protocol `k`): its state,
    /// direction and queue, or `None` when the pair is closed.
    pub open spec fn entry(&self, peer: u64, k: int) -> Option<Substream> {
        entry_in(self.table(), peer, k)
    }

    /// Whether every pair but (`peer`, `k`) has the same entry in `self` and
    /// `other`.
    pub open spec fn others_unchanged(&self, other: &NotificationService, peer: u64, k: int) -> bool {
        forall|p: u64, j: int| !(p == peer && j == k) ==> #[trigger] self.entry(p, j) == other.entry(p, j)
    }

    /// Whether `self` and `other` have the same identity and protocols.
    pub open spec fn same_setup(&self, other: &NotificationService) -> bool {
        &&& self.spec_local_peer_id() == other.spec_local_peer_id()
        &&& self.protocols_view() == other.protocols_view()
        &&& self.spec_queue_capacity() == other.spec_queue_capacity()
    }

    /// Whether a new substream can still get a fresh identifier.
    pub closed spec fn can_open(&self) -> bool {
        self.next_id < u64::MAX
    }

    /// Begin opening the substream of the pair (`peer`, protocol `k`), for a
    /// local dial (`Outbound`) or a remote request (`Inbound`). It starts
    /// (`Closed -> Opening`) iff the pair is closed and the protocol's
    /// admission controller admits the peer; otherwise nothing changes.
    pub fn open_substream(&mut self, peer: u64, k: usize, direction: Direction) -> (r: bool)
        requires
            old(self).wf(),
            k < old(self).protocols_view().len(),
        ensures
            final(self).wf(),
            final(self).same_setup(old(self)),
            final(self).events_view() == old(self).events_view(),
            r == (old(self).pair_state(peer, k as int) == SubstreamState::Closed && old(self).peerset_of(
                k as int,
            ).admits(peer, direction) && old(self).can_open()),
            !r ==> *final(self) == *old(self),
            r ==> final(self).pair_state(peer, k as int) == SubstreamState::Opening,
            r ==> final(self).entry(peer, k as int).unwrap().direction == direction,
            r ==> final(self).peerset_of(k as int).connected(peer),
            final(self).others_unchanged(old(self), peer, k as int),
    {
        if self.find_entry(peer, k).is_some() {
            return false;
        }
        if self.next_id == u64::MAX {
            return false;
        }
        if !self.peersets[k].admits_peer(peer, direction) {
            return false;
        }
        let admitted = self.peersets[k].try_connect(peer, direction);
        assert(admitted);
        let id = self.next_id;
        self.next_id = self.next_id + 1;
        let s = Substream {
            peer,
            protocol: k,
            id,
            direction,
            state: SubstreamState::Opening,
            queue: NotificationQueue::new(self.queue_capacity),
        };
        let ghost subs0 = self.substreams@;
        proof {
            lemma_state_push(subs0, s, peer, k as int);
        }
        self.substreams.push(s);
        proof {
            assert forall|p: u64, j: int| #[trigger] entry_in(self.substreams@, p, j) == if p == peer && j
                == k {
                Some(s)
            } else {
                entry_in(subs0, p, j)
            } by {
                lemma_state_push(subs0, s, p, j);
            }
            assert forall|p: u64, j: int|
                0 <= j < self.protocols@.len() implies reported_open(
                #[trigger] state_in(self.substreams@, p, j),
            ) == reported_open(state_in(subs0, p, j)) by {
                assert(entry_in(self.substreams@, p, j) == if p == peer && j == k {
                    Some(s)
                } else {
                    entry_in(subs0, p, j)
                });
            }
            lemma_events_same(self.protocols@, subs0, self.substreams@, self.events@);
            assert forall|j: int| 0 <= j < self.peersets@.len() implies (#[trigger] self.peersets@[j]).wf() by {
                if j != k {
                    assert(self.peersets@[j] == old(self).peersets@[j]);
                }
            }
            assert forall|a: int| 0 <= a < self.substreams@.len() implies {
                &&& (#[trigger] self.substreams@[a]).protocol < self.protocols@.len()
                &&& self.substreams@[a].state != SubstreamState::Closed
                &&& self.substreams@[a].queue.wf()
                &&& self.substreams@[a].id < self.next_id
            } by {
                if a < subs0.len() {
                    assert(self.substreams@[a] == subs0[a]);
                }
            }
            assert forall|p: u64, j: int| !(p == peer && j == k) implies #[trigger] self.entry(p, j)
                == old(self).entry(p, j) by {
                assert(entry_in(self.substreams@, p, j) == entry_in(subs0, p, j));
            }
        }
        true
    }
}

proof fn lemma_entries_update(subs: Seq<Substream>, i: int, s: Substream)
    requires
        keys_unique(subs),
        0 <= i < subs.len(),
        s.peer == subs[i].peer,
        s.protocol == subs[i].protocol,
    ensures
        keys_unique(subs.update(i, s)),
        forall|p: u64, j: int| #[trigger] entry_in(subs.update(i, s), p, j) == if p == s.peer && j == s.protocol {
            Some(s)
        } else {
            entry_in(subs, p, j)
        },
{
    lemma_state_update(subs, i, s, 0, 0);
    assert forall|p: u64, j: int| #[trigger] entry_in(subs.update(i, s), p, j) == if p == s.peer && j
        == s.protocol {
        Some(s)
    } else {
        entry_in(subs, p, j)
    } by {
        lemma_state_update(subs, i, s, p, j);
    }
}

proof fn lemma_entries_remove(subs: Seq<Substream>, i: int)
    requires
        keys_unique(subs),
        0 <= i < subs.len(),
    ensures
        keys_unique(subs.remove(i)),
        forall|p: u64, j: int| #[trigger] entry_in(subs.remove(i), p, j) == if p == subs[i].peer && j
            == subs[i].protocol {
            None
        } else {
            entry_in(subs, p, j)
        },
{
    lemma_state_remove(subs, i, 0, 0);
    assert forall|p: u64, j: int| #[trigger] entry_in(subs.remove(i), p, j) == if p == subs[i].peer
        && j == subs[i].protocol {
        None
    } else {
        entry_in(subs, p, j)
    } by {
        lemma_state_remove(subs, i, p, j);
    }
}

/// The state a pair moves to when it is closed: an open substream starts its
/// teardown, an opening one is abandoned without a trace, and a closing or
/// closed one stays as it is.
pub open spec fn closing_of(s: SubstreamState) -> SubstreamState {
    match s {
        SubstreamState::Open => SubstreamState::Closing,
        SubstreamState::Opening => SubstreamState::Closed,
        _ => s,
    }
}

impl NotificationService {
    /// Negotiation of the pair's substream succeeded (`Opening -> Open`):
    /// publishes `StreamOpened` with the fallback name that was selected, if
    /// any. Does nothing unless the pair is opening.
    pub fn stream_opened(&mut self, peer: u64, k: usize, negotiated_fallback: Option<String>) -> (r: bool)
        requires
            old(self).wf(),
            k < old(self).protocols_view().len(),
        ensures
            final(self).wf(),
            final(self).same_setup(old(self)),
            r == (old(self).pair_state(peer, k as int) == SubstreamState::Opening),
            !r ==> *final(self) == *old(self),
            r ==> final(self).pair_state(peer, k as int) == SubstreamState::Open,
            r ==> final(self).events_view() == old(self).events_view().push(
                (Event::StreamOpened {
                    remote: peer,
                    protocol: old(self).protocols_view()[k as int].name,
                    negotiated_fallback,
                }),
            ),
            r ==> final(self).entry(peer, k as int).unwrap().queue == old(self).entry(
                peer,
                k as int,
            ).unwrap().queue,
            r ==> final(self).entry(peer, k as int).unwrap().direction == old(self).entry(
                peer,
                k as int,
            ).unwrap().direction,
            final(self).others_unchanged(old(self), peer, k as int),
    {
        let i = match self.find_entry(peer, k) {
            None => {
                return false;
            },
            Some(i) => i,
        };
        match self.substreams[i].state {
            SubstreamState::Opening => {},
            _ => {
                return false;
            },
        }
        let ghost subs0 = self.substreams@;
        self.substreams[i].state = SubstreamState::Open;
        let e = Event::StreamOpened {
            remote: peer,
            protocol: self.protocols[k].name.clone(),
            negotiated_fallback,
        };
        proof {
            lemma_entries_update(subs0, i as int, self.substreams@[i as int]);
            lemma_state_at(subs0, i as int);
            assert(self.substreams@ == subs0.update(i as int, self.substreams@[i as int]));
            lemma_events_push(self.protocols@, subs0, self.substreams@, self.events@, e, peer, k as int);
            assert forall|a: int| 0 <= a < self.substreams@.len() implies {
                &&& (#[trigger] self.substreams@[a]).protocol < self.protocols@.len()
                &&& self.substreams@[a].state != SubstreamState::Closed
                &&& self.substreams@[a].queue.wf()
                &&& self.substreams@[a].id < self.next_id
            } by {
                if a != i {
                    assert(self.substreams@[a] == subs0[a]);
                }
            }
        }
        self.events.push(e);
        true
    }

    /// Close the substream of the pair (`peer`, protocol `k`): on a local
    /// disconnect, a remote close, a negotiation failure or timeout, or a
    /// policy rejection. An open one starts its teardown (`Open -> Closing`),
    /// an opening one is abandoned (`Opening -> Closed`, no event) and frees
    /// its admission slot. A closing or closed pair is left as it is.
    pub fn close_substream(&mut self, peer: u64, k: usize)
        requires
            old(self).wf(),
            k < old(self).protocols_view().len(),
        ensures
            final(self).wf(),
            final(self).same_setup(old(self)),
            final(self).events_view() == old(self).events_view(),
            final(self).pair_state(peer, k as int) == closing_of(old(self).pair_state(peer, k as int)),
            old(self).pair_state(peer, k as int) is Open ==> final(self).entry(
                peer,
                k as int,
            ).unwrap().queue == old(self).entry(peer, k as int).unwrap().queue,
            old(self).pair_state(peer, k as int) is Closed ==> *final(self) == *old(self),
            old(self).pair_state(peer, k as int) is Closing ==> *final(self) == *old(self),
            old(self).pair_state(peer, k as int) is Open ==> final(self).peerset_of(k as int) == old(
                self,
            ).peerset_of(k as int),
            old(self).pair_state(peer, k as int) is Opening ==> !final(self).peerset_of(
                k as int,
            ).connected(peer),
            forall|j: int|
                0 <= j < old(self).protocols_view().len() && j != k ==> #[trigger] final(self).peerset_of(j)
                    == old(self).peerset_of(j),
            final(self).others_unchanged(old(self), peer, k as int),
    {
        let i = match self.find_entry(peer, k) {
            None => {
                return;
            },
            Some(i) => i,
        };
        let ghost subs0 = self.substreams@;
        match self.substreams[i].state {
            SubstreamState::Open => {
                self.substreams[i].state = SubstreamState::Closing;
                proof {
                    lemma_entries_update(subs0, i as int, self.substreams@[i as int]);
                    lemma_state_at(subs0, i as int);
                    assert(self.substreams@ == subs0.update(i as int, self.substreams@[i as int]));
                    assert forall|p: u64, j: int|
                        0 <= j < self.protocols@.len() implies reported_open(
                        #[trigger] state_in(self.substreams@, p, j),
                    ) == reported_open(state_in(subs0, p, j)) by {}
                    lemma_events_same(self.protocols@, subs0, self.substreams@, self.events@);
                    assert forall|a: int| 0 <= a < self.substreams@.len() implies {
                        &&& (#[trigger] self.substreams@[a]).protocol < self.protocols@.len()
                        &&& self.substreams@[a].state != SubstreamState::Closed
                        &&& self.substreams@[a].queue.wf()
                        &&& self.substreams@[a].id < self.next_id
                    } by {
                        if a != i {
                            assert(self.substreams@[a] == subs0[a]);
                        }
                    }
                }
            },
            SubstreamState::Opening => {
                self.remove_entry(i, peer, k);
            },
            _ => {},
        }
    }

    /// Drop table entry `i` of the pair (`peer`, `k`) and free the peer's
    /// admission slot for protocol `k`.
    fn remove_entry(&mut self, i: usize, peer: u64, k: usize)
        requires
            old(self).wf(),
            i < old(self).substreams@.len(),
            old(self).substreams@[i as int].peer == peer,
            old(self).substreams@[i as int].protocol == k,
            !reported_open(old(self).substreams@[i as int].state),
        ensures
            final(self).wf(),
            final(self).same_setup(old(self)),
            final(self).events_view() == old(self).events_view(),
            final(self).pair_state(peer, k as int) == SubstreamState::Closed,
            final(self).others_unchanged(old(self), peer, k as int),
            !final(self).peerset_of(k as int).connected(peer),
            forall|j: int|
                0 <= j < old(self).protocols_view().len() && j != k ==> #[trigger] final(self).peerset_of(j)
                    == old(self).peerset_of(j),
    {
        let ghost subs0 = self.substreams@;
        self.substreams.remove(i);
        self.peersets[k].release(peer);
        proof {
            lemma_entries_remove(subs0, i as int);
            lemma_state_at(subs0, i as int);
            assert forall|p: u64, j: int|
                0 <= j < self.protocols@.len() implies reported_open(
                #[trigger] state_in(self.substreams@, p, j),
            ) == reported_open(state_in(subs0, p, j)) by {}
            lemma_events_same(self.protocols@, subs0, self.substreams@, self.events@);
            assert forall|a: int| 0 <= a < self.substreams@.len() implies {
                &&& (#[trigger] self.substreams@[a]).protocol < self.protocols@.len()
                &&& self.substreams@[a].state != SubstreamState::Closed
                &&& self.substreams@[a].queue.wf()
                &&& self.substreams@[a].id < self.next_id
            } by {
                if a < i {
                    assert(self.substreams@[a] == subs0[a]);
                } else {
                    assert(self.substreams@[a] == subs0[a + 1]);
                }
            }
            assert forall|j: int| 0 <= j < self.peersets@.len() implies (#[trigger] self.peersets@[j]).wf() by {
                if j != k {
                    assert(self.peersets@[j] == old(self).peersets@[j]);
                }
            }
        }
    }

    /// Teardown of the pair's substream is complete (`Closing -> Closed`):
    /// publishes `StreamClosed` and frees the admission slot. Does nothing
    /// unless the pair is closing.
    pub fn stream_closed(&mut self, peer: u64, k: usize) -> (r: bool)
        requires
            old(self).wf(),
            k < old(self).protocols_view().len(),
        ensures
            final(self).wf(),
            final(self).same_setup(old(self)),
            r == (old(self).pair_state(peer, k as int) == SubstreamState::Closing),
            !r ==> *final(self) == *old(self),
            r ==> final(self).pair_state(peer, k as int) == SubstreamState::Closed,
            r ==> final(self).events_view() == old(self).events_view().push(
                (Event::StreamClosed { remote: peer, protocol: old(self).protocols_view()[k as int].name }),
            ),
            r ==> !final(self).peerset_of(k as int).connected(peer),
            forall|j: int|
                0 <= j < old(self).protocols_view().len() && j != k ==> #[trigger] final(self).peerset_of(j)
                    == old(self).peerset_of(j),
            final(self).others_unchanged(old(self), peer, k as int),
    {
        let i = match self.find_entry(peer, k) {
            None => {
                return false;
            },
            Some(i) => i,
        };
        match self.substreams[i].state {
            SubstreamState::Closing => {},
            _ => {
                return false;
            },
        }
        let ghost subs0 = self.substreams@;
        let e = Event::StreamClosed { remote: peer, protocol: self.protocols[k].name.clone() };
        proof {
            lemma_entries_remove(subs0, i as int);
            lemma_state_at(subs0, i as int);
        }
        self.substreams.remove(i);
        self.peersets[k].release(peer);
        proof {
            lemma_events_push(self.protocols@, subs0, self.substreams@, self.events@, e, peer, k as int);
            assert forall|a: int| 0 <= a < self.substreams@.len() implies {
                &&& (#[trigger] self.substreams@[a]).protocol < self.protocols@.len()
                &&& self.substreams@[a].state != SubstreamState::Closed
                &&& self.substreams@[a].queue.wf()
                &&& self.substreams@[a].id < self.next_id
            } by {
                if a < i {
                    assert(self.substreams@[a] == subs0[a]);
                } else {
                    assert(self.substreams@[a] == subs0[a + 1]);
                }
            }
            assert forall|j: int| 0 <= j < self.peersets@.len() implies (#[trigger] self.peersets@[j]).wf() by {
                if j != k {
                    assert(self.peersets@[j] == old(self).peersets@[j]);
                }
            }
        }
        self.events.push(e);
        true
    }
}

/// Whether `e` is the reception from `peer` of the single notification
/// `payload` on the protocol named `name`.
pub open spec fn is_reception(e: Event, peer: u64, name: String, payload: Seq<u8>) -> bool {
    match e {
        Event::NotificationsReceived { remote, messages } => {
            &&& remote == peer
            &&& messages@.len() == 1
            &&& messages@[0].0 == name
            &&& messages@[0].1@ == payload
        },
        _ => false,
    }
}

proof fn lemma_reception_concerns(e: Event, peer: u64, name: String, payload: Seq<u8>)
    requires
        is_reception(e, peer, name, payload),
    ensures
        forall|p: u64, n: Seq<char>| #[trigger] concerns(e, p, n) <==> (p == peer && n == name@),
{
    if let Event::NotificationsReceived { remote, messages } = e {
        assert forall|p: u64, n: Seq<char>| #[trigger] concerns(e, p, n) <==> (p == peer && n == name@) by {
            if p == peer && n == name@ {
                assert(messages@[0].0@ == n);
            }
            if concerns(e, p, n) {
                let j = choose|j: int| 0 <= j < messages@.len() && (#[trigger] messages@[j]).0@ == n;
                assert(j == 0);
            }
        }
    }
}

/// Whether `a` and `b` agree on everything but the queue.
pub open spec fn same_but_queue(a: Substream, b: Substream) -> bool {
    &&& a.peer == b.peer
    &&& a.protocol == b.protocol
    &&& a.id == b.id
    &&& a.direction == b.direction
    &&& a.state == b.state
}

impl NotificationService {
    /// Whether `k` is a configured protocol with canonical name `n`.
    pub open spec fn has_name(&self, k: int, n: Seq<char>) -> bool {
        0 <= k < self.protocols_view().len() && self.name_of(k) == n
    }

    /// The size limit of protocol `k`.
    pub open spec fn max_size(&self, k: int) -> nat {
        self.protocols_view()[k].max_notification_size as nat
    }

    /// A notification arrived from `peer` on protocol `k`. On an open pair it
    /// is published as `NotificationsReceived`, unless it exceeds the size
    /// limit, in which case the pair starts its teardown instead. On a pair
    /// that is not open it is ignored.
    pub fn on_notification(&mut self, peer: u64, k: usize, payload: Vec<u8>) -> (r: bool)
        requires
            old(self).wf(),
            k < old(self).protocols_view().len(),
        ensures
            final(self).wf(),
            final(self).same_setup(old(self)),
            r == (old(self).pair_state(peer, k as int) is Open && payload@.len() <= old(self).max_size(
                k as int,
            )),
            r ==> final(self).events_view().len() == old(self).events_view().len() + 1,
            r ==> final(self).events_view().drop_last() == old(self).events_view(),
            r ==> is_reception(
                final(self).events_view().last(),
                peer,
                old(self).protocols_view()[k as int].name,
                payload@,
            ),
            r ==> final(self).entry(peer, k as int) == old(self).entry(peer, k as int),
            old(self).pair_state(peer, k as int) is Open && !r ==> final(self).pair_state(peer, k as int)
                == SubstreamState::Closing && final(self).events_view() == old(self).events_view(),
            !(old(self).pair_state(peer, k as int) is Open) ==> *final(self) == *old(self),
            final(self).others_unchanged(old(self), peer, k as int),
    {
        let i = match self.find_entry(peer, k) {
            None => {
                return false;
            },
            Some(i) => i,
        };
        match self.substreams[i].state {
            SubstreamState::Open => {},
            _ => {
                return false;
            },
        }
        if payload.len() as u64 > self.protocols[k].max_notification_size {
            self.close_substream(peer, k);
            return false;
        }
        let name = self.protocols[k].name.clone();
        let ghost pl = payload@;
        let mut messages: Vec<(String, Vec<u8>)> = Vec::new();
        messages.push((name, payload));
        let e = Event::NotificationsReceived { remote: peer, messages };
        proof {
            lemma_state_at(self.substreams@, i as int);
            assert(is_reception(e, peer, self.protocols@[k as int].name, pl));
            lemma_reception_concerns(e, peer, self.protocols@[k as int].name, pl);
            lemma_events_push(
                self.protocols@,
                self.substreams@,
                self.substreams@,
                self.events@,
                e,
                peer,
                k as int,
            );
        }
        self.events.push(e);
        proof {
            assert(self.events@.drop_last() =~= old(self).events@);
        }
        true
    }

    /// Close the pair (`peer`, `protocol`) from this side, as
    /// [`Self::close_substream`] does; a name that is not configured, or a
    /// pair that is already closed, leaves everything as it is.
    pub fn disconnect_peer(&mut self, peer: u64, protocol: &String)
        requires
            old(self).wf(),
        ensures
            final(self).wf(),
            final(self).same_setup(old(self)),
            final(self).events_view() == old(self).events_view(),
            forall|k: int| #[trigger]
                old(self).has_name(k, protocol@) ==> final(self).pair_state(peer, k) == closing_of(
                    old(self).pair_state(peer, k),
                ) && final(self).others_unchanged(old(self), peer, k),
            forall|k: int| #[trigger]
                old(self).has_name(k, protocol@) && old(self).pair_state(peer, k) is Closed ==> *final(self)
                    == *old(self),
            (forall|k: int| !(#[trigger] old(self).has_name(k, protocol@))) ==> *final(self) == *old(self),
    {
        match self.protocol_index(protocol) {
            None => {},
            Some(k) => {
                assert(old(self).has_name(k as int, protocol@));
                self.close_substream(peer, k);
                proof {
                    assert forall|j: int| #[trigger] old(self).has_name(j, protocol@) implies j == k by {
                        if j < k {
                            assert(self.protocols@[j].name@ != self.protocols@[k as int].name@);
                        } else if j > k {
                            assert(self.protocols@[k as int].name@ != self.protocols@[j].name@);
                        }
                    }
                }
            },
        }
    }

    /// The connection with `peer` was lost: every protocol's pair with it is
    /// closed as [`Self::close_substream`] does.
    pub fn connection_lost(&mut self, peer: u64)
        requires
            old(self).wf(),
        ensures
            final(self).wf(),
            final(self).same_setup(old(self)),
            final(self).events_view() == old(self).events_view(),
            forall|k: int|
                0 <= k < old(self).protocols_view().len() ==> #[trigger] final(self).pair_state(peer, k)
                    == closing_of(old(self).pair_state(peer, k)),
            forall|p: u64, j: int| p != peer ==> #[trigger] final(self).entry(p, j) == old(self).entry(p, j),
    {
        let n = self.protocols.len();
        let mut k: usize = 0;
        while k < n
            invariant
                self.wf(),
                n == self.protocols_view().len(),
                k <= n,
                self.same_setup(old(self)),
                self.events_view() == old(self).events_view(),
                forall|j: int|
                    0 <= j < k ==> #[trigger] self.pair_state(peer, j) == closing_of(
                        old(self).pair_state(peer, j),
                    ),
                forall|j: int| k <= j ==> #[trigger] self.entry(peer, j) == old(self).entry(peer, j),
                forall|p: u64, j: int| p != peer ==> #[trigger] self.entry(p, j) == old(self).entry(p, j),
            decreases n - k,
        {
            let ghost before = *self;
            self.close_substream(peer, k);
            proof {
                assert forall|j: int| 0 <= j < k + 1 implies #[trigger] self.pair_state(peer, j)
                    == closing_of(old(self).pair_state(peer, j)) by {
                    if j < k {
                        assert(self.entry(peer, j) == before.entry(peer, j));
                        assert(before.pair_state(peer, j) == closing_of(old(self).pair_state(peer, j)));
                        assert(self.pair_state(peer, j) == before.pair_state(peer, j));
                    } else {
                        assert(before.entry(peer, j) == old(self).entry(peer, j));
                        assert(before.pair_state(peer, j) == old(self).pair_state(peer, j));
                    }
                }
                assert forall|j: int| k + 1 <= j implies #[trigger] self.entry(peer, j) == old(self).entry(
                    peer,
                    j,
                ) by {
                    assert(self.entry(peer, j) == before.entry(peer, j));
                }
                assert forall|p: u64, j: int| p != peer implies #[trigger] self.entry(p, j) == old(
                    self,
                ).entry(p, j) by {
                    assert(self.entry(p, j) == before.entry(p, j));
                }
            }
            k = k + 1;
        }
    }

    /// Best-effort send on the pair (`peer`, `protocol`): the payload is
    /// queued iff the pair is open, the payload is within the size limit and
    /// the queue has a free slot. Otherwise it is dropped silently.
    pub fn write_notification(&mut self, peer: u64, protocol: &String, payload: Vec<u8>)
        requires
            old(self).wf(),
        ensures
            final(self).wf(),
            final(self).same_setup(old(self)),
            final(self).events_view() == old(self).events_view(),
            forall|k: int| #[trigger]
                old(self).has_name(k, protocol@) ==> {
                    let e0 = old(self).entry(peer, k);
                    let queued = e0 is Some && e0.unwrap().state is Open && payload@.len()
                        <= old(self).max_size(k) && e0.unwrap().queue.has_room();
                    &&& queued ==> {
                        let e1 = final(self).entry(peer, k);
                        &&& e1 is Some
                        &&& same_but_queue(e1.unwrap(), e0.unwrap())
                        &&& e1.unwrap().queue.wf()
                        &&& e1.unwrap().queue.pending() == e0.unwrap().queue.pending().push(payload@)
                        &&& e1.unwrap().queue.accepted() == e0.unwrap().queue.accepted().push(payload@)
                        &&& e1.unwrap().queue.delivered() == e0.unwrap().queue.delivered()
                        &&& e1.unwrap().queue.reservations() == e0.unwrap().queue.reservations()
                        &&& final(self).others_unchanged(old(self), peer, k)
                    }
                    &&& !queued ==> *final(self) == *old(self)
                },
            (forall|k: int| !(#[trigger] old(self).has_name(k, protocol@))) ==> *final(self) == *old(self),
    {
        let k = match self.protocol_index(protocol) {
            None => {
                return;
            },
            Some(k) => k,
        };
        proof {
            assert(old(self).has_name(k as int, protocol@));
            assert forall|j: int| #[trigger] old(self).has_name(j, protocol@) implies j == k by {
                if j < k {
                    assert(self.protocols@[j].name@ != self.protocols@[k as int].name@);
                } else if j > k {
                    assert(self.protocols@[k as int].name@ != self.protocols@[j].name@);
                }
            }
        }
        let i = match self.find_entry(peer, k) {
            None => {
                return;
            },
            Some(i) => i,
        };
        proof {
            lemma_state_at(self.substreams@, i as int);
        }
        match self.substreams[i].state {
            SubstreamState::Open => {},
            _ => {
                return;
            },
        }
        if payload.len() as u64 > self.protocols[k].max_notification_size {
            return;
        }
        if !self.substreams[i].queue.has_free_slot() {
            return;
        }
        let ghost subs0 = self.substreams@;
        let pushed = self.substreams[i].queue.try_push(payload);
        proof {
            lemma_entries_update(subs0, i as int, self.substreams@[i as int]);
            lemma_state_at(subs0, i as int);
            assert(self.substreams@ == subs0.update(i as int, self.substreams@[i as int]));
            assert forall|p: u64, j: int|
                0 <= j < self.protocols@.len() implies reported_open(
                #[trigger] state_in(self.substreams@, p, j),
            ) == reported_open(state_in(subs0, p, j)) by {}
            lemma_events_same(self.protocols@, subs0, self.substreams@, self.events@);
            assert forall|a: int| 0 <= a < self.substreams@.len() implies {
                &&& (#[trigger] self.substreams@[a]).protocol < self.protocols@.len()
                &&& self.substreams@[a].state != SubstreamState::Closed
                &&& self.substreams@[a].queue.wf()
                &&& self.substreams@[a].id < self.next_id
            } by {
                if a != i {
                    assert(self.substreams@[a] == subs0[a]);
                }
            }
        }
    }
}

impl NotificationService {
    /// Whether the substream `sender` was made for is still the open
    /// substream of its pair.
    pub open spec fn sender_live(&self, sender: &NotificationSender) -> bool {
        let e = self.entry(sender.spec_peer(), sender.spec_protocol());
        e is Some && e.unwrap().state is Open && e.unwrap().id == sender.spec_substream()
    }

    /// A handle for sending with backpressure on the pair (`peer`,
    /// `protocol`). Fails with `NoSuchPeerOrProtocol` unless the pair is open.
    pub fn notification_sender(&self, peer: u64, protocol: &String) -> (r: Result<
        NotificationSender,
        NotificationError,
    >)
        requires
            self.wf(),
        ensures
            r is Ok <==> exists|k: int| #[trigger]
                self.has_name(k, protocol@) && self.pair_state(peer, k) is Open,
            r is Err ==> r == Err::<NotificationSender, NotificationError>(
                NotificationError::NoSuchPeerOrProtocol,
            ),
            r is Ok ==> {
                let h = r.unwrap();
                &&& h.spec_peer() == peer
                &&& self.has_name(h.spec_protocol(), protocol@)
                &&& !h.is_ready()
                &&& self.sender_live(&h)
            },
    {
        let k = match self.protocol_index(protocol) {
            None => {
                return Err(NotificationError::NoSuchPeerOrProtocol);
            },
            Some(k) => k,
        };
        proof {
            assert(self.has_name(k as int, protocol@));
            assert forall|j: int| #[trigger] self.has_name(j, protocol@) implies j == k by {
                if j < k {
                    assert(self.protocols@[j].name@ != self.protocols@[k as int].name@);
                } else if j > k {
                    assert(self.protocols@[k as int].name@ != self.protocols@[j].name@);
                }
            }
        }
        let i = match self.find_entry(peer, k) {
            None => {
                return Err(NotificationError::NoSuchPeerOrProtocol);
            },
            Some(i) => i,
        };
        match self.substreams[i].state {
            SubstreamState::Open => {},
            _ => {
                return Err(NotificationError::NoSuchPeerOrProtocol);
            },
        }
        proof {
            lemma_state_at(self.substreams@, i as int);
        }
        Ok(NotificationSender { peer, protocol: k, substream: self.substreams[i].id, reserved: false })
    }

    /// The table entry that `sender` was made for, if it is still live.
    fn live_entry(&self, sender: &NotificationSender) -> (r: Option<usize>)
        requires
            self.wf(),
        ensures
            r is Some <==> self.sender_live(sender),
            r is Some ==> {
                let i = r.unwrap() as int;
                &&& 0 <= i < self.substreams@.len()
                &&& sender.spec_protocol() < self.protocols_view().len()
                &&& self.substreams@[i].peer == sender.spec_peer()
                &&& self.substreams@[i].protocol == sender.spec_protocol()
                &&& self.entry(sender.spec_peer(), sender.spec_protocol()) == Some(self.substreams@[i])
            },
    {
        if sender.protocol >= self.protocols.len() {
            proof {
                lemma_state_absent(self.substreams@, sender.peer, sender.protocol as int);
            }
            return None;
        }
        match self.find_entry(sender.peer, sender.protocol) {
            None => None,
            Some(i) => {
                proof {
                    lemma_state_at(self.substreams@, i as int);
                }
                match self.substreams[i].state {
                    SubstreamState::Open => {
                        if self.substreams[i].id == sender.substream {
                            Some(i)
                        } else {
                            None
                        }
                    },
                    _ => None,
                }
            },
        }
    }

    /// Try to reserve a queue slot for `sender`. `Ok(true)`: a slot is held
    /// for it (already, or now); `Ok(false)`: the queue is full, to be tried
    /// again once it drains; `NoSuchPeerOrProtocol`: its substream is gone.
    pub fn ready(&mut self, sender: &mut NotificationSender) -> (r: Result<bool, NotificationError>)
        requires
            old(self).wf(),
        ensures
            final(self).wf(),
            final(self).same_setup(old(self)),
            final(self).events_view() == old(self).events_view(),
            final(sender).spec_peer() == old(sender).spec_peer(),
            final(sender).spec_protocol() == old(sender).spec_protocol(),
            final(sender).spec_substream() == old(sender).spec_substream(),
            old(sender).is_ready() ==> r == Ok::<bool, NotificationError>(true) && *final(self) == *old(
                self,
            ) && *final(sender) == *old(sender),
            !old(sender).is_ready() && !old(self).sender_live(old(sender)) ==> r == Err::<
                bool,
                NotificationError,
            >(NotificationError::NoSuchPeerOrProtocol) && *final(self) == *old(self) && *final(sender)
                == *old(sender),
            !old(sender).is_ready() && old(self).sender_live(old(sender)) ==> {
                let e0 = old(self).entry(old(sender).spec_peer(), old(sender).spec_protocol()).unwrap();
                let e1 = final(self).entry(old(sender).spec_peer(), old(sender).spec_protocol()).unwrap();
                &&& r == Ok::<bool, NotificationError>(e0.queue.has_room())
                &&& final(sender).is_ready() == e0.queue.has_room()
                &&& same_but_queue(e1, e0)
                &&& e1.queue.pending() == e0.queue.pending()
                &&& e1.queue.accepted() == e0.queue.accepted()
                &&& e1.queue.delivered() == e0.queue.delivered()
                &&& e1.queue.reservations() == e0.queue.reservations() + (if e0.queue.has_room() {
                    1nat
                } else {
                    0nat
                })
                &&& final(self).others_unchanged(
                    old(self),
                    old(sender).spec_peer(),
                    old(sender).spec_protocol(),
                )
            },
    {
        if sender.reserved {
            return Ok(true);
        }
        let i = match self.live_entry(sender) {
            None => {
                return Err(NotificationError::NoSuchPeerOrProtocol);
            },
            Some(i) => i,
        };
        if !self.substreams[i].queue.has_free_slot() {
            return Ok(false);
        }
        let ghost subs0 = self.substreams@;
        let got = self.substreams[i].queue.reserve();
        sender.reserved = got;
        proof {
            lemma_entries_update(subs0, i as int, self.substreams@[i as int]);
            lemma_state_at(subs0, i as int);
            assert(self.substreams@ == subs0.update(i as int, self.substreams@[i as int]));
            assert forall|p: u64, j: int|
                0 <= j < self.protocols@.len() implies reported_open(
                #[trigger] state_in(self.substreams@, p, j),
            ) == reported_open(state_in(subs0, p, j)) by {}
            lemma_events_same(self.protocols@, subs0, self.substreams@, self.events@);
            assert forall|a: int| 0 <= a < self.substreams@.len() implies {
                &&& (#[trigger] self.substreams@[a]).protocol < self.protocols@.len()
                &&& self.substreams@[a].state != SubstreamState::Closed
                &&& self.substreams@[a].queue.wf()
                &&& self.substreams@[a].id < self.next_id
            } by {
                if a != i {
                    assert(self.substreams@[a] == subs0[a]);
                }
            }
        }
        Ok(got)
    }

    /// Send `payload` in the slot reserved for `sender` by [`Self::ready`]:
    /// it is queued, unless the substream is gone (`NoSuchPeerOrProtocol`)
    /// or the payload exceeds the size limit (`NotificationTooLarge`, the
    /// reservation is given back). Either way the reservation is used up.
    pub fn send(&mut self, sender: &mut NotificationSender, payload: Vec<u8>) -> (r: Result<
        (),
        NotificationError,
    >)
        requires
            old(self).wf(),
            old(sender).is_ready(),
        ensures
            final(self).wf(),
            final(self).same_setup(old(self)),
            final(self).events_view() == old(self).events_view(),
            final(sender).spec_peer() == old(sender).spec_peer(),
            final(sender).spec_protocol() == old(sender).spec_protocol(),
            final(sender).spec_substream() == old(sender).spec_substream(),
            !final(sender).is_ready(),
            !old(self).sender_live(old(sender)) ==> r == Err::<(), NotificationError>(
                NotificationError::NoSuchPeerOrProtocol,
            ) && *final(self) == *old(self),
            old(self).sender_live(old(sender)) ==> {
                let e0 = old(self).entry(old(sender).spec_peer(), old(sender).spec_protocol()).unwrap();
                let e1 = final(self).entry(old(sender).spec_peer(), old(sender).spec_protocol()).unwrap();
                let too_large = payload@.len() > old(self).max_size(old(sender).spec_protocol());
                &&& too_large ==> r == Err::<(), NotificationError>(NotificationError::NotificationTooLarge)
                &&& e0.queue.reservations() == 0 ==> *final(self) == *old(self)
                &&& !too_large && e0.queue.reservations() == 0 ==> r == Err::<(), NotificationError>(
                    NotificationError::NoSuchPeerOrProtocol,
                )
                &&& e0.queue.reservations() > 0 ==> {
                    &&& same_but_queue(e1, e0)
                    &&& e1.queue.reservations() == e0.queue.reservations() - 1
                    &&& e1.queue.delivered() == e0.queue.delivered()
                    &&& final(self).others_unchanged(
                        old(self),
                        old(sender).spec_peer(),
                        old(sender).spec_protocol(),
                    )
                    &&& too_large ==> e1.queue.pending() == e0.queue.pending() && e1.queue.accepted()
                        == e0.queue.accepted()
                    &&& !too_large ==> r == Ok::<(), NotificationError>(()) && e1.queue.pending()
                        == e0.queue.pending().push(payload@) && e1.queue.accepted()
                        == e0.queue.accepted().push(payload@)
                }
            },
    {
        sender.reserved = false;
        let i = match self.live_entry(sender) {
            None => {
                return Err(NotificationError::NoSuchPeerOrProtocol);
            },
            Some(i) => i,
        };
        let too_large = payload.len() as u64 > self.protocols[sender.protocol].max_notification_size;
        if !too_large && self.substreams[i].queue.reserved_slots() == 0 {
            return Err(NotificationError::NoSuchPeerOrProtocol);
        }
        if too_large && self.substreams[i].queue.reserved_slots() == 0 {
            return Err(NotificationError::NotificationTooLarge);
        }
        let ghost subs0 = self.substreams@;
        if too_large {
            self.substreams[i].queue.cancel_reservation();
        } else {
            self.substreams[i].queue.push_reserved(payload);
        }
        proof {
            lemma_entries_update(subs0, i as int, self.substreams@[i as int]);
            lemma_state_at(subs0, i as int);
            assert(self.substreams@ == subs0.update(i as int, self.substreams@[i as int]));
            assert forall|p: u64, j: int|
                0 <= j < self.protocols@.len() implies reported_open(
                #[trigger] state_in(self.substreams@, p, j),
            ) == reported_open(state_in(subs0, p, j)) by {}
            lemma_events_same(self.protocols@, subs0, self.substreams@, self.events@);
            assert forall|a: int| 0 <= a < self.substreams@.len() implies {
                &&& (#[trigger] self.substreams@[a]).protocol < self.protocols@.len()
                &&& self.substreams@[a].state != SubstreamState::Closed
                &&& self.substreams@[a].queue.wf()
                &&& self.substreams@[a].id < self.next_id
            } by {
                if a != i {
                    assert(self.substreams@[a] == subs0[a]);
                }
            }
        }
        if too_large {
            Err(NotificationError::NotificationTooLarge)
        } else {
            Ok(())
        }
    }
}

impl NotificationService {
    /// The write path takes the oldest queued payload of the open pair
    /// (`peer`, protocol `k`), if there is one.
    pub fn next_outbound(&mut self, peer: u64, k: usize) -> (r: Option<Vec<u8>>)
        requires
            old(self).wf(),
            k < old(self).protocols_view().len(),
        ensures
            final(self).wf(),
            final(self).same_setup(old(self)),
            final(self).events_view() == old(self).events_view(),
            ({
                let e0 = old(self).entry(peer, k as int);
                let e1 = final(self).entry(peer, k as int);
                if e0 is Some && e0.unwrap().state is Open && e0.unwrap().queue.pending().len() > 0 {
                    &&& r is Some
                    &&& r.unwrap()@ == e0.unwrap().queue.pending()[0]
                    &&& same_but_queue(e1.unwrap(), e0.unwrap())
                    &&& e1 is Some
                    &&& e1.unwrap().queue.pending() == e0.unwrap().queue.pending().drop_first()
                    &&& e1.unwrap().queue.delivered() == e0.unwrap().queue.delivered().push(r.unwrap()@)
                    &&& e1.unwrap().queue.accepted() == e0.unwrap().queue.accepted()
                    &&& e1.unwrap().queue.reservations() == e0.unwrap().queue.reservations()
                    &&& final(self).others_unchanged(old(self), peer, k as int)
                } else {
                    r is None && *final(self) == *old(self)
                }
            }),
    {
        let i = match self.find_entry(peer, k) {
            None => {
                return None;
            },
            Some(i) => i,
        };
        proof {
            lemma_state_at(self.substreams@, i as int);
        }
        match self.substreams[i].state {
            SubstreamState::Open => {},
            _ => {
                return None;
            },
        }
        if self.substreams[i].queue.len() == 0 {
            return None;
        }
        let ghost subs0 = self.substreams@;
        let r = self.substreams[i].queue.pop();
        proof {
            lemma_entries_update(subs0, i as int, self.substreams@[i as int]);
            assert(self.substreams@ == subs0.update(i as int, self.substreams@[i as int]));
            assert forall|p: u64, j: int|
                0 <= j < self.protocols@.len() implies reported_open(
                #[trigger] state_in(self.substreams@, p, j),
            ) == reported_open(state_in(subs0, p, j)) by {}
            lemma_events_same(self.protocols@, subs0, self.substreams@, self.events@);
            assert forall|a: int| 0 <= a < self.substreams@.len() implies {
                &&& (#[trigger] self.substreams@[a]).protocol < self.protocols@.len()
                &&& self.substreams@[a].state != SubstreamState::Closed
                &&& self.substreams@[a].queue.wf()
                &&& self.substreams@[a].id < self.next_id
            } by {
                if a != i {
                    assert(self.substreams@[a] == subs0[a]);
                }
            }
        }
        r
    }

    /// A new subscriber, which will read every event from the first on.
    pub fn subscribe(&self) -> (r: Subscription)
        ensures
            r.position() == 0,
    {
        Subscription { cursor: 0 }
    }

    /// The next event for subscriber `sub`, if it has not read them all.
    /// Subscribers read independently of one another, each in log order.
    pub fn next_event<'a>(&'a self, sub: &mut Subscription) -> (r: Option<&'a Event>)
        ensures
            old(sub).position() < self.events_view().len() ==> r is Some && *r.unwrap()
                == self.events_view()[old(sub).position() as int] && final(sub).position() == old(
                sub,
            ).position() + 1,
            old(sub).position() >= self.events_view().len() ==> r is None && final(sub).position()
                == old(sub).position(),
    {
        if sub.cursor < self.events.len() {
            let e = &self.events[sub.cursor];
            sub.cursor = sub.cursor + 1;
            Some(e)
        } else {
            None
        }
    }

    /// Number of events published so far.
    pub fn event_count(&self) -> (r: usize)
        ensures
            r == self.events_view().len(),
    {
        self.events.len()
    }

    /// The responder's side of an inbound substream request from `peer`
    /// offering `offered`: the first offered name that a configured protocol
    /// supports selects that protocol; if its pair with `peer` is closed and
    /// admission allows, the substream opens at once and `StreamOpened` is
    /// published under the protocol's own name, with no fallback. Returns
    /// the selection made; with `None` nothing changes.
    pub fn accept_inbound(&mut self, peer: u64, offered: &Vec<String>) -> (r: Option<Negotiation>)
        requires
            old(self).wf(),
        ensures
            final(self).wf(),
            final(self).same_setup(old(self)),
            (forall|j: int|
                0 <= j < offered@.len() ==> !registry_supports(old(self).protocols_view(), #[trigger] offered@[j]@))
                ==> r is None,
            r is None ==> *final(self) == *old(self),
            r is Some <==> exists|x: Negotiation| #[trigger]
                is_selection(names_view(offered@), old(self).protocols_view(), x) && old(self).pair_state(
                    peer,
                    x.responder_index as int,
                ) is Closed && old(self).peerset_of(x.responder_index as int).admits(
                    peer,
                    Direction::Inbound,
                ) && old(self).can_open(),
            r is Some ==> {
                let k = r.unwrap().responder_index as int;
                &&& is_selection(names_view(offered@), old(self).protocols_view(), r.unwrap())
                &&& old(self).pair_state(peer, k) is Closed
                &&& final(self).pair_state(peer, k) is Open
                &&& final(self).entry(peer, k).unwrap().direction == Direction::Inbound
                &&& final(self).events_view() == old(self).events_view().push(
                    (Event::StreamOpened {
                        remote: peer,
                        protocol: old(self).protocols_view()[k].name,
                        negotiated_fallback: None,
                    }),
                )
                &&& final(self).others_unchanged(old(self), peer, k)
            },
    {
        let x = match negotiate(offered, &self.protocols) {
            None => {
                proof {
                    assert forall|y: Negotiation| !#[trigger] is_selection(
                        names_view(offered@),
                        self.protocols@,
                        y,
                    ) by {
                        if is_selection(names_view(offered@), self.protocols@, y) {
                            let j = y.offer_index as int;
                            assert(names_view(offered@)[j] == offered@[j]@);
                            assert(self.protocols@[y.responder_index as int].supports(offered@[j]@));
                            assert(registry_supports(self.protocols@, offered@[j]@));
                        }
                    }
                }
                return None;
            },
            Some(x) => x,
        };
        let k = x.responder_index;
        if !self.open_substream(peer, k, Direction::Inbound) {
            proof {
                assert forall|y: Negotiation| #[trigger]
                    is_selection(names_view(offered@), self.protocols@, y) implies y == x by {
                    lemma_selection_unique(names_view(offered@), self.protocols@, x, y);
                }
            }
            return None;
        }
        let ghost mid = *self;
        let opened = self.stream_opened(peer, k, None);
        assert(opened);
        proof {
            assert(is_selection(names_view(offered@), old(self).protocols_view(), x));
            assert forall|p: u64, j: int| !(p == peer && j == k) implies #[trigger] self.entry(p, j)
                == old(self).entry(p, j) by {
                assert(self.entry(p, j) == mid.entry(p, j));
            }
        }
        Some(x)
    }
}

impl NotificationService {
    /// Pass a peer-discovery event through to subscribers, untouched. It
    /// concerns no pair.
    pub fn publish_dht(&mut self, payload: Vec<u8>)
        requires
            old(self).wf(),
        ensures
            final(self).wf(),
            final(self).same_setup(old(self)),
            final(self).table() == old(self).table(),
            final(self).events_view() == old(self).events_view().push(Event::Dht(payload)),
    {
        let ghost evs0 = self.events@;
        let e = Event::Dht(payload);
        self.events.push(e);
        proof {
            assert forall|p: u64, n: Seq<char>| #[trigger] well_ordered(self.events@, p, n) by {
                lemma_push_event(evs0, e, p, n);
                assert(well_ordered(evs0, p, n));
            }
            assert forall|p: u64, k: int|
                0 <= k < self.protocols@.len() implies open_after(self.events@, p, self.protocols@[k].name@)
                == reported_open(#[trigger] state_in(self.substreams@, p, k)) by {
                lemma_push_event(evs0, e, p, self.protocols@[k].name@);
                assert(open_after(evs0, p, self.protocols@[k].name@) == reported_open(
                    state_in(self.substreams@, p, k),
                ));
            }
            assert forall|p: u64, n: Seq<char>|
                (forall|k: int| 0 <= k < self.protocols@.len() ==> (#[trigger] self.protocols@[k]).name@ != n)
                    implies !(#[trigger] open_after(self.events@, p, n)) by {
                lemma_push_event(evs0, e, p, n);
            }
        }
    }
}

proof fn lemma_entry_member(subs: Seq<Substream>, peer: u64, k: int)
    requires
        entry_in(subs, peer, k) is Some,
    ensures
        exists|i: int| 0 <= i < subs.len() && #[trigger] subs[i] == entry_in(subs, peer, k).unwrap(),
    decreases subs.len(),
{
    if subs.last().peer == peer && subs.last().protocol == k {
        assert(subs[subs.len() - 1] == subs.last());
    } else {
        lemma_entry_member(subs.drop_last(), peer, k);
        let i = choose|i: int|
            0 <= i < subs.drop_last().len() && #[trigger] subs.drop_last()[i] == entry_in(
                subs.drop_last(),
                peer,
                k,
            ).unwrap();
        assert(subs[i] == subs.drop_last()[i]);
    }
}

/// Every notification a live pair's queue took, through either send path,
/// is handed to the write path exactly once and in the order it was taken:
/// what was delivered, followed by what still waits, is what was accepted.
pub proof fn lemma_pair_delivery_in_order(s: &NotificationService, peer: u64, k: int)
    requires
        s.wf(),
        s.entry(peer, k) is Some,
    ensures
        s.entry(peer, k).unwrap().queue.accepted() == s.entry(peer, k).unwrap().queue.delivered() + s.entry(
            peer,
            k,
        ).unwrap().queue.pending(),
{
    lemma_entry_member(s.substreams@, peer, k);
    let i = choose|i: int|
        0 <= i < s.substreams@.len() && #[trigger] s.substreams@[i] == entry_in(s.substreams@, peer, k).unwrap();
    assert(s.substreams@[i].queue.wf());
    crate::queue::lemma_delivered_in_order(&s.substreams@[i].queue);
}

/// For every (peer, protocol) pair, the events a node publishes alternate
/// `StreamOpened, (NotificationsReceived)*, StreamClosed`, repeated: an
/// opening comes only while the pair is closed, and a closing or a reception
/// only between an opening and its closing. The pair counts as open in the
/// log exactly while its substream is `Open` or `Closing`.
pub proof fn lemma_events_alternate(s: &NotificationService, peer: u64, protocol: Seq<char>)
    requires
        s.wf(),
    ensures
        well_ordered(s.events_view(), peer, protocol),
        forall|k: int| #[trigger]
            s.has_name(k, protocol) ==> open_after(s.events_view(), peer, protocol) == reported_open(
                s.pair_state(peer, k),
            ),
        (forall|k: int| !(#[trigger] s.has_name(k, protocol))) ==> !open_after(
            s.events_view(),
            peer,
            protocol,
        ),
{
    assert(well_ordered(s.events@, peer, protocol));
    assert forall|k: int| #[trigger] s.has_name(k, protocol) implies open_after(
        s.events_view(),
        peer,
        protocol,
    ) == reported_open(s.pair_state(peer, k)) by {
        assert(open_after(s.events@, peer, s.protocols@[k].name@) == reported_open(
            state_in(s.substreams@, peer, k),
        ));
    }
    if forall|k: int| !(#[trigger] s.has_name(k, protocol)) {
        assert forall|k: int| 0 <= k < s.protocols@.len() implies (#[trigger] s.protocols@[k]).name@
            != protocol by {
            assert(!s.has_name(k, protocol));
        }
    }
}

} // verus!
