//! Protocol descriptors and name negotiation, with fallback names for
//! protocols that are being renamed across a live network.
use vstd::prelude::*;

verus! {

/// A notification protocol as configured: a canonical name, fallback names in
/// order of preference, a size limit for one notification, and a handshake.
#[derive(Clone, Debug)]
pub struct ProtocolDescriptor {
    pub name: String,
    pub fallback_names: Vec<String>,
    pub max_notification_size: u64,
    pub handshake: Option<Vec<u8>>,
}

/// The views of a sequence of names.
pub open spec fn names_view(v: Seq<String>) -> Seq<Seq<char>> {
    v.map_values(|s: String| s@)
}

impl ProtocolDescriptor {
    /// The names offered when opening a substream: canonical first, then the
    /// fallbacks in declared order.
    pub open spec fn names(&self) -> Seq<Seq<char>> {
        seq![self.name@] + names_view(self.fallback_names@)
    }

    /// Whether `n` is one of the names of this protocol.
    pub open spec fn supports(&self, n: Seq<char>) -> bool {
        self.names().contains(n)
    }

    /// The names this protocol offers, canonical first.
    pub fn offered_names(&self) -> (r: Vec<String>)
        ensures
            names_view(r@) == self.names(),
    {
        let mut r: Vec<String> = Vec::new();
        r.push(self.name.clone());
        let mut i: usize = 0;
        while i < self.fallback_names.len()
            invariant
                i <= self.fallback_names@.len(),
                names_view(r@) == seq![self.name@] + names_view(self.fallback_names@.take(i as int)),
            decreases self.fallback_names@.len() - i,
        {
            let ghost before = r@;
            r.push(self.fallback_names[i].clone());
            proof {
                assert(names_view(r@) =~= names_view(before).push(self.fallback_names@[i as int]@));
                assert(names_view(self.fallback_names@.take(i + 1)) =~= names_view(
                    self.fallback_names@.take(i as int),
                ).push(self.fallback_names@[i as int]@));
                assert(self.fallback_names@.take(i + 1) == self.fallback_names@.take(i as int).push(
                    self.fallback_names@[i as int],
                ));
                assert(names_view(r@) =~= seq![self.name@] + names_view(
                    self.fallback_names@.take(i + 1),
                ));
            }
            i = i + 1;
        }
        assert(self.fallback_names@.take(i as int) =~= self.fallback_names@);
        r
    }

    /// Whether `n` is one of the names of this protocol.
    pub fn supports_name(&self, n: &String) -> (r: bool)
        ensures
            r == self.supports(n@),
    {
        if self.name == *n {
            assert(self.names()[0] == n@);
            return true;
        }
        let mut i: usize = 0;
        while i < self.fallback_names.len()
            invariant
                i <= self.fallback_names@.len(),
                self.name@ != n@,
                forall|j: int| 0 <= j < i ==> self.fallback_names@[j]@ != n@,
            decreases self.fallback_names@.len() - i,
        {
            if self.fallback_names[i] == *n {
                assert(self.names()[i + 1] == n@);
                return true;
            }
            i = i + 1;
        }
        assert forall|k: int| 0 <= k < self.names().len() implies self.names()[k] != n@ by {
            if k > 0 {
                assert(self.names()[k] == self.fallback_names@[k - 1]@);
            }
        }
        false
    }
}

/// Whether some protocol of `reg` has the name `n`.
pub open spec fn registry_supports(reg: Seq<ProtocolDescriptor>, n: Seq<char>) -> bool {
    exists|k: int| 0 <= k < reg.len() && #[trigger] reg[k].supports(n)
}

/// Outcome of a successful negotiation: which offered name was selected, and
/// which of the responder's protocols it belongs to.
#[derive(Clone, Copy, PartialEq, Eq, Structural, Debug)]
pub struct Negotiation {
    pub offer_index: usize,
    pub responder_index: usize,
}

/// Whether `r` is the responder's choice among `offered`: the first offered
/// name that it supports, under the first of its protocols that has it.
pub open spec fn is_selection(offered: Seq<Seq<char>>, reg: Seq<ProtocolDescriptor>, r: Negotiation) -> bool {
    &&& r.offer_index < offered.len()
    &&& r.responder_index < reg.len()
    &&& reg[r.responder_index as int].supports(offered[r.offer_index as int])
    &&& forall|j: int| 0 <= j < r.offer_index ==> !registry_supports(reg, #[trigger] offered[j])
    &&& forall|k: int| 0 <= k < r.responder_index ==> !(#[trigger] reg[k]).supports(offered[r.offer_index as int])
}

/// The responder's choice is determined: at most one selection exists.
pub proof fn lemma_selection_unique(
    offered: Seq<Seq<char>>,
    reg: Seq<ProtocolDescriptor>,
    x: Negotiation,
    y: Negotiation,
)
    requires
        is_selection(offered, reg, x),
        is_selection(offered, reg, y),
    ensures
        x == y,
{
    if x.offer_index < y.offer_index {
        assert(reg[x.responder_index as int].supports(offered[x.offer_index as int]));
        assert(registry_supports(reg, offered[x.offer_index as int]));
        assert(!registry_supports(reg, offered[x.offer_index as int]));
    } else if y.offer_index < x.offer_index {
        assert(reg[y.responder_index as int].supports(offered[y.offer_index as int]));
        assert(registry_supports(reg, offered[y.offer_index as int]));
        assert(!registry_supports(reg, offered[y.offer_index as int]));
    } else if x.responder_index < y.responder_index {
        assert(!reg[x.responder_index as int].supports(offered[y.offer_index as int]));
    } else if y.responder_index < x.responder_index {
        assert(!reg[y.responder_index as int].supports(offered[x.offer_index as int]));
    }
}

/// The first protocol of `reg` that has the name `n`, if any.
pub fn find_protocol(reg: &Vec<ProtocolDescriptor>, n: &String) -> (r: Option<usize>)
    ensures
        match r {
            Some(k) => k < reg@.len() && reg@[k as int].supports(n@) && forall|j: int|
                0 <= j < k ==> !(#[trigger] reg@[j]).supports(n@),
            None => !registry_supports(reg@, n@),
        },
{
    let mut k: usize = 0;
    while k < reg.len()
        invariant
            k <= reg@.len(),
            forall|j: int| 0 <= j < k ==> !(#[trigger] reg@[j]).supports(n@),
        decreases reg@.len() - k,
    {
        if reg[k].supports_name(n) {
            return Some(k);
        }
        k = k + 1;
    }
    None
}

/// The responder's side of negotiation: the first name of `offered` that one
/// of the responder's protocols supports. `None` when no name is shared, in
/// which case the substream is not established.
pub fn negotiate(offered: &Vec<String>, reg: &Vec<ProtocolDescriptor>) -> (r: Option<Negotiation>)
    ensures
        match r {
            Some(x) => is_selection(names_view(offered@), reg@, x),
            None => forall|j: int|
                0 <= j < offered@.len() ==> !registry_supports(reg@, #[trigger] offered@[j]@),
        },
{
    let mut i: usize = 0;
    while i < offered.len()
        invariant
            i <= offered@.len(),
            forall|j: int| 0 <= j < i ==> !registry_supports(reg@, #[trigger] offered@[j]@),
        decreases offered@.len() - i,
    {
        match find_protocol(reg, &offered[i]) {
            Some(k) => {
                let x = Negotiation { offer_index: i, responder_index: k };
                assert forall|j: int| 0 <= j < i implies !registry_supports(
                    reg@,
                    #[trigger] names_view(offered@)[j],
                ) by {
                    assert(names_view(offered@)[j] == offered@[j]@);
                }
                return Some(x);
            },
            None => {},
        }
        i = i + 1;
    }
    None
}

/// The initiator's view of a negotiation: `None` when the canonical name was
/// selected, else the fallback name that was.
pub fn negotiated_fallback(offered: &Vec<String>, x: &Negotiation) -> (r: Option<String>)
    requires
        x.offer_index < offered@.len(),
    ensures
        x.offer_index == 0 ==> r.is_none(),
        x.offer_index != 0 ==> r.is_some() && r.unwrap()@ == offered@[x.offer_index as int]@,
{
    if x.offer_index == 0 {
        None
    } else {
        Some(offered[x.offer_index].clone())
    }
}

} // verus!
