//! Events published to upper layers, and what a well-ordered event sequence
//! is for one (peer, protocol) pair.
use vstd::prelude::*;

verus! {

/// An event observed by subscribers of a node.
#[derive(Clone, Debug, PartialEq, Eq)]
pub enum Event {
    /// A substream with `remote` is open for `protocol`; `negotiated_fallback`
    /// is the fallback name selected, if the canonical name was not.
    StreamOpened { remote: u64, protocol: String, negotiated_fallback: Option<String> },
    /// The substream with `remote` for `protocol` is closed.
    StreamClosed { remote: u64, protocol: String },
    /// Notifications arrived from `remote`, each with its protocol.
    NotificationsReceived { remote: u64, messages: Vec<(String, Vec<u8>)> },
    /// A peer-discovery event, passed through untouched.
    Dht(Vec<u8>),
}

/// Whether `e` is about the pair of `peer` and the protocol named `proto`.
pub open spec fn concerns(e: Event, peer: u64, proto: Seq<char>) -> bool {
    match e {
        Event::StreamOpened { remote, protocol, .. } => remote == peer && protocol@ == proto,
        Event::StreamClosed { remote, protocol } => remote == peer && protocol@ == proto,
        Event::NotificationsReceived { remote, messages } => remote == peer && exists|i: int|
            0 <= i < messages@.len() && (#[trigger] messages@[i]).0@ == proto,
        Event::Dht(_) => false,
    }
}

/// Whether the pair is open after event `e`, given whether it was before.
pub open spec fn open_next(open: bool, e: Event, peer: u64, proto: Seq<char>) -> bool {
    if !concerns(e, peer, proto) {
        open
    } else {
        match e {
            Event::StreamOpened { .. } => true,
            Event::StreamClosed { .. } => false,
            _ => open,
        }
    }
}

/// Whether `e` may follow for the pair: an opening only while closed, a
/// closing or a reception only while open.
pub open spec fn step_ok(open: bool, e: Event, peer: u64, proto: Seq<char>) -> bool {
    concerns(e, peer, proto) ==> match e {
        Event::StreamOpened { .. } => !open,
        _ => open,
    }
}

/// Whether the pair is open after the events `evs`, starting closed.
pub open spec fn open_after(evs: Seq<Event>, peer: u64, proto: Seq<char>) -> bool
    decreases evs.len(),
{
    if evs.len() == 0 {
        false
    } else {
        open_next(open_after(evs.drop_last(), peer, proto), evs.last(), peer, proto)
    }
}

/// Whether the events of the pair in `evs` alternate as
/// `Opened, (Received)*, Closed`, repeated, from a closed start.
pub open spec fn well_ordered(evs: Seq<Event>, peer: u64, proto: Seq<char>) -> bool
    decreases evs.len(),
{
    if evs.len() == 0 {
        true
    } else {
        well_ordered(evs.drop_last(), peer, proto) && step_ok(
            open_after(evs.drop_last(), peer, proto),
            evs.last(),
            peer,
            proto,
        )
    }
}

/// Appending one event: the pair's status advances by `open_next`, and the
/// sequence stays well ordered iff the event may follow.
pub proof fn lemma_push_event(evs: Seq<Event>, e: Event, peer: u64, proto: Seq<char>)
    ensures
        open_after(evs.push(e), peer, proto) == open_next(open_after(evs, peer, proto), e, peer, proto),
        well_ordered(evs.push(e), peer, proto) == (well_ordered(evs, peer, proto) && step_ok(
            open_after(evs, peer, proto),
            e,
            peer,
            proto,
        )),
{
    assert(evs.push(e).drop_last() =~= evs);
}

} // verus!
