//! Network configuration and its check that every address suits the
//! selected transport.
use vstd::prelude::*;
use crate::protocol::ProtocolDescriptor;

verus! {

/// One component of a multi-address.
#[derive(Clone, Copy, PartialEq, Eq, Structural, Debug)]
pub enum AddrComponent {
    /// An in-process memory port.
    Memory(u64),
    /// An IPv4 address.
    Ip4(u8, u8, u8, u8),
    /// A TCP port.
    Tcp(u16),
}

/// A multi-address: a stack of components.
#[derive(Clone, Debug)]
pub struct Multiaddr {
    pub components: Vec<AddrComponent>,
}

/// An address together with the identity of the peer reached there.
#[derive(Clone, Debug)]
pub struct MultiaddrWithPeerId {
    pub multiaddr: Multiaddr,
    pub peer_id: u64,
}

/// The transport a node runs on.
#[derive(Clone, Copy, PartialEq, Eq, Structural, Debug)]
pub enum TransportConfig {
    /// In-process memory transport only.
    MemoryOnly,
    /// The regular network transport.
    Normal,
}

/// The default peer set: reserved nodes and the regular pools' capacities.
#[derive(Clone, Debug)]
pub struct SetConfig {
    pub reserved_nodes: Vec<MultiaddrWithPeerId>,
    pub in_peers: u32,
    pub out_peers: u32,
}

/// What a node is built from.
#[derive(Clone, Debug)]
pub struct NetworkConfiguration {
    pub listen_addresses: Vec<Multiaddr>,
    pub public_addresses: Vec<Multiaddr>,
    pub boot_nodes: Vec<MultiaddrWithPeerId>,
    pub default_peers_set: SetConfig,
    pub extra_sets: Vec<ProtocolDescriptor>,
    pub transport: TransportConfig,
}

/// Why a configuration was rejected.
#[derive(Clone, Copy, PartialEq, Eq, Structural, Debug)]
pub enum ConfigError {
    /// Some configured address does not suit the selected transport.
    AddressesForAnotherTransport,
    /// Two configured protocols share a canonical name.
    DuplicateProtocolName,
}

impl ConfigError {
    /// Text describing the error.
    pub fn message(&self) -> (r: String)
        ensures
            *self is AddressesForAnotherTransport ==> r@ == "addresses don't match the transport"@,
            *self is DuplicateProtocolName ==> r@ == "protocol names are not unique"@,
    {
        match self {
            ConfigError::AddressesForAnotherTransport => {
                let r = String::from_str("addresses don't match the transport");
                proof {
                    reveal_strlit("addresses don't match the transport");
                }
                r
            },
            ConfigError::DuplicateProtocolName => {
                let r = String::from_str("protocol names are not unique");
                proof {
                    reveal_strlit("protocol names are not unique");
                }
                r
            },
        }
    }
}

/// Whether `c` is a memory component.
pub open spec fn is_memory(c: AddrComponent) -> bool {
    c is Memory
}

/// Whether address `a` suits transport `t`: on the memory transport every
/// component is a memory one, on the normal transport none is.
pub open spec fn addr_suits(a: Seq<AddrComponent>, t: TransportConfig) -> bool {
    match t {
        TransportConfig::MemoryOnly => forall|i: int| 0 <= i < a.len() ==> is_memory(#[trigger] a[i]),
        TransportConfig::Normal => forall|i: int| 0 <= i < a.len() ==> !is_memory(#[trigger] a[i]),
    }
}

/// Whether every address of `v` suits `t`.
pub open spec fn all_suit(v: Seq<Multiaddr>, t: TransportConfig) -> bool {
    forall|i: int| 0 <= i < v.len() ==> addr_suits((#[trigger] v[i]).components@, t)
}

/// Whether every address of `v` suits `t`.
pub open spec fn all_peer_addrs_suit(v: Seq<MultiaddrWithPeerId>, t: TransportConfig) -> bool {
    forall|i: int| 0 <= i < v.len() ==> addr_suits((#[trigger] v[i]).multiaddr.components@, t)
}

/// Whether every configured address suits the configured transport.
pub open spec fn config_consistent(c: NetworkConfiguration) -> bool {
    &&& all_suit(c.listen_addresses@, c.transport)
    &&& all_suit(c.public_addresses@, c.transport)
    &&& all_peer_addrs_suit(c.boot_nodes@, c.transport)
    &&& all_peer_addrs_suit(c.default_peers_set.reserved_nodes@, c.transport)
}

/// Whether address `a` suits transport `t`.
pub fn address_suits(a: &Multiaddr, t: TransportConfig) -> (r: bool)
    ensures
        r == addr_suits(a.components@, t),
{
    let mut i: usize = 0;
    while i < a.components.len()
        invariant
            i <= a.components@.len(),
            match t {
                TransportConfig::MemoryOnly => forall|j: int| 0 <= j < i ==> is_memory(#[trigger] a.components@[j]),
                TransportConfig::Normal => forall|j: int| 0 <= j < i ==> !is_memory(#[trigger] a.components@[j]),
            },
        decreases a.components@.len() - i,
    {
        let memory = match a.components[i] {
            AddrComponent::Memory(_) => true,
            _ => false,
        };
        match t {
            TransportConfig::MemoryOnly => {
                if !memory {
                    return false;
                }
            },
            TransportConfig::Normal => {
                if memory {
                    return false;
                }
            },
        }
        i = i + 1;
    }
    true
}

fn addresses_suit(v: &Vec<Multiaddr>, t: TransportConfig) -> (r: bool)
    ensures
        r == all_suit(v@, t),
{
    let mut i: usize = 0;
    while i < v.len()
        invariant
            i <= v@.len(),
            forall|j: int| 0 <= j < i ==> addr_suits((#[trigger] v@[j]).components@, t),
        decreases v@.len() - i,
    {
        if !address_suits(&v[i], t) {
            return false;
        }
        i = i + 1;
    }
    true
}

fn peer_addresses_suit(v: &Vec<MultiaddrWithPeerId>, t: TransportConfig) -> (r: bool)
    ensures
        r == all_peer_addrs_suit(v@, t),
{
    let mut i: usize = 0;
    while i < v.len()
        invariant
            i <= v@.len(),
            forall|j: int| 0 <= j < i ==> addr_suits((#[trigger] v@[j]).multiaddr.components@, t),
        decreases v@.len() - i,
    {
        if !address_suits(&v[i].multiaddr, t) {
            return false;
        }
        i = i + 1;
    }
    true
}

/// Check that the listen, public, boot-node and reserved-node addresses all
/// suit the selected transport.
pub fn ensure_addresses_consistent_with_transport(c: &NetworkConfiguration) -> (r: Result<(), ConfigError>)
    ensures
        r is Ok <==> config_consistent(*c),
        r is Err ==> r == Err::<(), ConfigError>(ConfigError::AddressesForAnotherTransport),
{
    if addresses_suit(&c.listen_addresses, c.transport) && addresses_suit(
        &c.public_addresses,
        c.transport,
    ) && peer_addresses_suit(&c.boot_nodes, c.transport) && peer_addresses_suit(
        &c.default_peers_set.reserved_nodes,
        c.transport,
    ) {
        Ok(())
    } else {
        Err(ConfigError::AddressesForAnotherTransport)
    }
}

} // verus!
