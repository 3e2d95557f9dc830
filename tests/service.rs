use notifications::config::{
    AddrComponent, ConfigError, Multiaddr, MultiaddrWithPeerId, NetworkConfiguration, SetConfig,
    TransportConfig,
};
use notifications::events::Event;
use notifications::peerset::Direction;
use notifications::protocol::{negotiated_fallback, ProtocolDescriptor};
use notifications::service::{NotificationError, NotificationService, SubstreamState};

const PROTOCOL_NAME: &str = "/foo";
const QUEUE_CAPACITY: usize = 16;

/// A small deterministic generator standing in for random choices.
struct Lcg(u64);

impl Lcg {
    fn next_u8(&mut self) -> u8 {
        self.0 = self.0.wrapping_mul(6364136223846793005).wrapping_add(1442695040888963407);
        (self.0 >> 33) as u8
    }
}

fn memory(port: u64) -> Multiaddr {
    Multiaddr { components: vec![AddrComponent::Memory(port)] }
}

fn local_tcp() -> Multiaddr {
    Multiaddr { components: vec![AddrComponent::Ip4(127, 0, 0, 1), AddrComponent::Tcp(0)] }
}

fn protocol(name: &str, fallbacks: &[&str]) -> ProtocolDescriptor {
    ProtocolDescriptor {
        name: name.to_string(),
        fallback_names: fallbacks.iter().map(|f| f.to_string()).collect(),
        max_notification_size: 1024 * 1024,
        handshake: None,
    }
}

fn set_config(reserved: Vec<MultiaddrWithPeerId>) -> SetConfig {
    SetConfig { reserved_nodes: reserved, in_peers: 25, out_peers: 75 }
}

fn memory_config(
    listen: Vec<Multiaddr>,
    set: SetConfig,
    protocols: Vec<ProtocolDescriptor>,
) -> NetworkConfiguration {
    NetworkConfiguration {
        listen_addresses: listen,
        public_addresses: vec![],
        boot_nodes: vec![],
        default_peers_set: set,
        extra_sets: protocols,
        transport: TransportConfig::MemoryOnly,
    }
}

fn build(id: u64, config: NetworkConfiguration) -> NotificationService {
    match NotificationService::new(id, config, QUEUE_CAPACITY) {
        Ok(s) => s,
        Err(e) => panic!("{}", e.message()),
    }
}

/// Two nodes with `PROTOCOL_NAME`; the second has the first as reserved.
fn build_nodes_one_proto() -> (NotificationService, NotificationService) {
    let listen_addr = memory(7);
    let node1 = build(
        1,
        memory_config(vec![listen_addr.clone()], set_config(vec![]), vec![protocol(PROTOCOL_NAME, &[])]),
    );
    let node2 = build(
        2,
        memory_config(
            vec![],
            set_config(vec![MultiaddrWithPeerId { multiaddr: listen_addr, peer_id: 1 }]),
            vec![protocol(PROTOCOL_NAME, &[])],
        ),
    );
    (node1, node2)
}

/// `a` opens protocol `k` towards `b`; both sides end up open.
fn connect(a: &mut NotificationService, b: &mut NotificationService, k: usize) -> bool {
    let a_id = a.local_peer_id();
    let b_id = b.local_peer_id();
    if !a.open_substream(b_id, k, Direction::Outbound) {
        return false;
    }
    let offered = a.offered_names(k);
    match b.accept_inbound(a_id, &offered) {
        Some(x) => a.stream_opened(b_id, k, negotiated_fallback(&offered, &x)),
        None => {
            a.close_substream(b_id, k);
            false
        },
    }
}

/// Move everything `a` queued for `b` on protocol `k` over to `b`.
fn deliver(a: &mut NotificationService, b: &mut NotificationService, k: usize) {
    let a_id = a.local_peer_id();
    let b_id = b.local_peer_id();
    while let Some(p) = a.next_outbound(b_id, k) {
        b.on_notification(a_id, k, p);
    }
}

/// Close the pair on both sides after `a` disconnected it.
fn finish_disconnect(a: &mut NotificationService, b: &mut NotificationService, k: usize) {
    let a_id = a.local_peer_id();
    let b_id = b.local_peer_id();
    a.stream_closed(b_id, k);
    b.close_substream(a_id, k);
    b.stream_closed(a_id, k);
}

fn all_events(s: &NotificationService) -> Vec<Event> {
    let mut sub = s.subscribe();
    let mut out = Vec::new();
    while let Some(e) = s.next_event(&mut sub) {
        out.push(e.clone());
    }
    out
}

/// Checks the alternation for `remote` and `PROTOCOL_NAME` as the network
/// test does; returns whether a substream was opened at all.
fn check_alternation(events: &[Event], remote: u64) -> bool {
    let mut open = false;
    let mut something_happened = false;
    for e in events {
        match e {
            Event::StreamOpened { remote: r, protocol, .. } => {
                if protocol == PROTOCOL_NAME {
                    something_happened = true;
                    assert!(!open);
                    open = true;
                    assert_eq!(*r, remote);
                }
            },
            Event::StreamClosed { remote: r, protocol } => {
                if protocol == PROTOCOL_NAME {
                    assert!(open);
                    open = false;
                    assert_eq!(*r, remote);
                }
            },
            Event::NotificationsReceived { remote: r, .. } => {
                assert!(open);
                assert_eq!(*r, remote);
            },
            Event::Dht(_) => {},
        }
    }
    something_happened
}

#[test]
fn notifications_state_consistent() {
    let (mut node1, mut node2) = build_nodes_one_proto();
    let mut rng = Lcg(42);
    let name = PROTOCOL_NAME.to_string();

    // Initial notifications that must not get through.
    for _ in 0..(rng.next_u8() % 5) {
        node1.write_notification(2, &name, b"hello world".to_vec());
    }
    for _ in 0..(rng.next_u8() % 5) {
        node2.write_notification(1, &name, b"hello world".to_vec());
    }

    for _ in 0..1_000 {
        if node2.substream_state(1, 0) == SubstreamState::Closed
            && node1.substream_state(2, 0) == SubstreamState::Closed
            && rng.next_u8() % 3 == 0
        {
            connect(&mut node2, &mut node1, 0);
        }
        if rng.next_u8() % 5 >= 3 {
            node1.write_notification(2, &name, b"hello world".to_vec());
        }
        if rng.next_u8() % 5 >= 3 {
            node2.write_notification(1, &name, b"hello world".to_vec());
        }
        if rng.next_u8() % 20 == 0 {
            node1.disconnect_peer(2, &name);
            finish_disconnect(&mut node1, &mut node2, 0);
        }
        if rng.next_u8() % 20 == 0 {
            node2.disconnect_peer(1, &name);
            finish_disconnect(&mut node2, &mut node1, 0);
        }
        deliver(&mut node1, &mut node2, 0);
        deliver(&mut node2, &mut node1, 0);
    }

    assert!(check_alternation(&all_events(&node1), 2));
    assert!(check_alternation(&all_events(&node2), 1));
}

#[test]
fn lots_of_incoming_peers_works() {
    let listen_addr = memory(11);
    let mut main_node = build(
        1000,
        memory_config(
            vec![listen_addr.clone()],
            SetConfig { reserved_nodes: vec![], in_peers: u32::MAX, out_peers: 75 },
            vec![protocol(PROTOCOL_NAME, &[])],
        ),
    );
    let main_node_peer_id = main_node.local_peer_id();

    let mut dialing = Vec::new();
    for i in 0..32u64 {
        let mut node = build(
            i,
            memory_config(
                vec![],
                set_config(vec![MultiaddrWithPeerId {
                    multiaddr: listen_addr.clone(),
                    peer_id: main_node_peer_id,
                }]),
                vec![protocol(PROTOCOL_NAME, &[])],
            ),
        );
        assert!(connect(&mut node, &mut main_node, 0));
        dialing.push(node);
    }
    for node in dialing.iter_mut() {
        node.disconnect_peer(main_node_peer_id, &PROTOCOL_NAME.to_string());
        finish_disconnect(node, &mut main_node, 0);
    }

    for node in &dialing {
        let mut sync_protocol_name = None;
        let mut opened = 0;
        let mut closed = 0;
        for e in all_events(node) {
            match e {
                Event::StreamOpened { protocol, remote, .. } => {
                    if sync_protocol_name.is_none() {
                        sync_protocol_name = Some(protocol.clone());
                    }
                    assert_eq!(remote, main_node_peer_id);
                    opened += 1;
                },
                Event::StreamClosed { protocol, .. } => {
                    if Some(protocol) != sync_protocol_name {
                        panic!();
                    }
                    closed += 1;
                },
                _ => {},
            }
        }
        assert_eq!(opened, 1);
        assert_eq!(closed, 1);
    }
    let main_events = all_events(&main_node);
    let opened = main_events.iter().filter(|e| matches!(e, Event::StreamOpened { .. })).count();
    let closed = main_events.iter().filter(|e| matches!(e, Event::StreamClosed { .. })).count();
    assert_eq!(opened, 32);
    assert_eq!(closed, 32);
}

#[test]
fn notifications_back_pressure() {
    const TOTAL_NOTIFS: usize = 10_000;
    let (mut node1, mut node2) = build_nodes_one_proto();
    assert!(connect(&mut node2, &mut node1, 0));
    let node2_id = node2.local_peer_id();
    let mut rng = Lcg(7);

    for num in 0..TOTAL_NOTIFS {
        let mut notif = node1.notification_sender(node2_id, &PROTOCOL_NAME.to_string()).unwrap();
        // `ready` holds the producer back until the receiver drains the queue.
        while !node1.ready(&mut notif).unwrap() {
            deliver(&mut node1, &mut node2, 0);
        }
        node1.send(&mut notif, format!("hello #{}", num).into_bytes()).unwrap();
        if rng.next_u8() < 2 {
            deliver(&mut node1, &mut node2, 0);
        }
    }
    deliver(&mut node1, &mut node2, 0);

    let mut received_notifications = 0;
    let mut sync_protocol_name = None;
    for e in all_events(&node2) {
        match e {
            Event::StreamOpened { protocol, .. } => {
                if sync_protocol_name.is_none() {
                    sync_protocol_name = Some(protocol);
                }
            },
            Event::StreamClosed { protocol, .. } => {
                if Some(&protocol) != sync_protocol_name.as_ref() {
                    panic!()
                }
            },
            Event::NotificationsReceived { messages, .. } => {
                for message in messages {
                    assert_eq!(message.0, PROTOCOL_NAME);
                    assert_eq!(message.1, format!("hello #{}", received_notifications).into_bytes());
                    received_notifications += 1;
                }
            },
            _ => {},
        }
    }
    assert_eq!(received_notifications, TOTAL_NOTIFS);
}

#[test]
fn fallback_name_working() {
    const NEW_PROTOCOL_NAME: &str = "/new-shiny-protocol-that-isnt-PROTOCOL_NAME";
    let listen_addr = memory(13);
    let mut node1 = build(
        1,
        memory_config(
            vec![listen_addr.clone()],
            set_config(vec![]),
            vec![protocol(NEW_PROTOCOL_NAME, &[PROTOCOL_NAME])],
        ),
    );
    let mut node2 = build(
        2,
        memory_config(
            vec![],
            set_config(vec![MultiaddrWithPeerId { multiaddr: listen_addr, peer_id: 1 }]),
            vec![protocol(PROTOCOL_NAME, &[])],
        ),
    );
    assert!(connect(&mut node1, &mut node2, 0));

    let events2 = all_events(&node2);
    match &events2[0] {
        Event::StreamOpened { protocol, negotiated_fallback, .. } => {
            assert_eq!(protocol, PROTOCOL_NAME);
            assert_eq!(*negotiated_fallback, None);
        },
        e => panic!("unexpected {:?}", e),
    }
    let events1 = all_events(&node1);
    match &events1[0] {
        Event::StreamOpened { protocol, negotiated_fallback, .. } => {
            assert_eq!(protocol, NEW_PROTOCOL_NAME);
            assert_eq!(*negotiated_fallback, Some(PROTOCOL_NAME.to_string()));
        },
        e => panic!("unexpected {:?}", e),
    }
}

fn normal_config(listen: Vec<Multiaddr>) -> NetworkConfiguration {
    NetworkConfiguration {
        listen_addresses: listen,
        public_addresses: vec![],
        boot_nodes: vec![],
        default_peers_set: set_config(vec![]),
        extra_sets: vec![],
        transport: TransportConfig::Normal,
    }
}

#[test]
#[should_panic(expected = "don't match the transport")]
fn ensure_listen_addresses_consistent_with_transport_memory() {
    let mut config = normal_config(vec![local_tcp()]);
    config.transport = TransportConfig::MemoryOnly;
    let _ = build(1, config);
}

#[test]
#[should_panic(expected = "don't match the transport")]
fn ensure_listen_addresses_consistent_with_transport_not_memory() {
    let _ = build(1, normal_config(vec![memory(3)]));
}

#[test]
#[should_panic(expected = "don't match the transport")]
fn ensure_boot_node_addresses_consistent_with_transport_memory() {
    let mut config = normal_config(vec![memory(3)]);
    config.transport = TransportConfig::MemoryOnly;
    config.boot_nodes = vec![MultiaddrWithPeerId { multiaddr: local_tcp(), peer_id: 9 }];
    let _ = build(1, config);
}

#[test]
#[should_panic(expected = "don't match the transport")]
fn ensure_boot_node_addresses_consistent_with_transport_not_memory() {
    let mut config = normal_config(vec![local_tcp()]);
    config.boot_nodes = vec![MultiaddrWithPeerId { multiaddr: memory(3), peer_id: 9 }];
    let _ = build(1, config);
}

#[test]
#[should_panic(expected = "don't match the transport")]
fn ensure_reserved_node_addresses_consistent_with_transport_memory() {
    let mut config = normal_config(vec![memory(3)]);
    config.transport = TransportConfig::MemoryOnly;
    config.default_peers_set =
        set_config(vec![MultiaddrWithPeerId { multiaddr: local_tcp(), peer_id: 9 }]);
    let _ = build(1, config);
}

#[test]
#[should_panic(expected = "don't match the transport")]
fn ensure_reserved_node_addresses_consistent_with_transport_not_memory() {
    let mut config = normal_config(vec![local_tcp()]);
    config.default_peers_set = set_config(vec![MultiaddrWithPeerId { multiaddr: memory(3), peer_id: 9 }]);
    let _ = build(1, config);
}

#[test]
#[should_panic(expected = "don't match the transport")]
fn ensure_public_addresses_consistent_with_transport_memory() {
    let mut config = normal_config(vec![memory(3)]);
    config.transport = TransportConfig::MemoryOnly;
    config.public_addresses = vec![local_tcp()];
    let _ = build(1, config);
}

#[test]
#[should_panic(expected = "don't match the transport")]
fn ensure_public_addresses_consistent_with_transport_not_memory() {
    let mut config = normal_config(vec![local_tcp()]);
    config.public_addresses = vec![memory(3)];
    let _ = build(1, config);
}

#[test]
fn consistent_configurations_are_accepted() {
    assert!(NotificationService::new(1, normal_config(vec![local_tcp()]), 4).is_ok());
    let mut config = normal_config(vec![memory(3)]);
    config.transport = TransportConfig::MemoryOnly;
    assert!(NotificationService::new(1, config, 4).is_ok());
}

#[test]
fn mismatched_address_is_a_configuration_error() {
    let r = NotificationService::new(1, normal_config(vec![memory(3)]), 4);
    assert_eq!(r.err(), Some(ConfigError::AddressesForAnotherTransport));
}

#[test]
fn duplicate_protocol_names_are_refused() {
    let mut config = normal_config(vec![]);
    config.extra_sets = vec![protocol("/a", &[]), protocol("/a", &["/b"])];
    let r = NotificationService::new(1, config, 4);
    assert_eq!(r.err(), Some(ConfigError::DuplicateProtocolName));
}

#[test]
fn disconnect_on_closed_pair_changes_nothing() {
    let (mut node1, _node2) = build_nodes_one_proto();
    node1.disconnect_peer(2, &PROTOCOL_NAME.to_string());
    assert_eq!(node1.substream_state(2, 0), SubstreamState::Closed);
    assert_eq!(node1.event_count(), 0);
    // An unknown protocol name is ignored as well.
    node1.disconnect_peer(2, &"/unknown".to_string());
    assert_eq!(node1.event_count(), 0);
}

#[test]
fn write_before_open_is_never_observed() {
    let (mut node1, mut node2) = build_nodes_one_proto();
    let name = PROTOCOL_NAME.to_string();
    node1.write_notification(2, &name, b"early".to_vec());
    assert!(node2.open_substream(1, 0, Direction::Outbound));
    // Still opening: dropped as well.
    node1.write_notification(2, &name, b"early".to_vec());
    let offered = node2.offered_names(0);
    let x = node1.accept_inbound(2, &offered).unwrap();
    assert!(node2.stream_opened(1, 0, negotiated_fallback(&offered, &x)));
    node1.write_notification(2, &name, b"late".to_vec());
    deliver(&mut node1, &mut node2, 0);
    let received: Vec<Vec<u8>> = all_events(&node2)
        .into_iter()
        .filter_map(|e| match e {
            Event::NotificationsReceived { messages, .. } => Some(messages[0].1.clone()),
            _ => None,
        })
        .collect();
    assert_eq!(received, vec![b"late".to_vec()]);
}

#[test]
fn sender_requires_an_open_substream() {
    let (node1, _node2) = build_nodes_one_proto();
    let r = node1.notification_sender(2, &PROTOCOL_NAME.to_string());
    assert_eq!(r.err(), Some(NotificationError::NoSuchPeerOrProtocol));
}

#[test]
fn oversized_notification_is_refused_by_the_sender() {
    let listen_addr = memory(5);
    let mut small = protocol(PROTOCOL_NAME, &[]);
    small.max_notification_size = 4;
    let mut node1 = build(1, memory_config(vec![listen_addr.clone()], set_config(vec![]), vec![small.clone()]));
    let mut node2 = build(
        2,
        memory_config(
            vec![],
            set_config(vec![MultiaddrWithPeerId { multiaddr: listen_addr, peer_id: 1 }]),
            vec![small],
        ),
    );
    assert!(connect(&mut node2, &mut node1, 0));
    let mut sender = node1.notification_sender(2, &PROTOCOL_NAME.to_string()).unwrap();
    assert_eq!(node1.ready(&mut sender), Ok(true));
    assert_eq!(node1.send(&mut sender, b"too long".to_vec()), Err(NotificationError::NotificationTooLarge));
    assert_eq!(node1.substream_state(2, 0), SubstreamState::Open);
    assert_eq!(node1.ready(&mut sender), Ok(true));
    assert_eq!(node1.send(&mut sender, b"ok".to_vec()), Ok(()));
    // An oversized inbound payload starts the teardown of the pair.
    assert!(!node2.on_notification(1, 0, b"way too long".to_vec()));
    assert_eq!(node2.substream_state(1, 0), SubstreamState::Closing);
}

#[test]
fn queue_full_holds_the_producer_back() {
    let (mut node1, mut node2) = build_nodes_one_proto();
    assert!(connect(&mut node2, &mut node1, 0));
    let name = PROTOCOL_NAME.to_string();
    for i in 0..QUEUE_CAPACITY {
        let mut s = node1.notification_sender(2, &name).unwrap();
        assert_eq!(node1.ready(&mut s), Ok(true));
        assert_eq!(node1.send(&mut s, vec![i as u8]), Ok(()));
    }
    let mut s = node1.notification_sender(2, &name).unwrap();
    assert_eq!(node1.ready(&mut s), Ok(false));
    // Best effort drops silently when full.
    node1.write_notification(2, &name, vec![99]);
    assert_eq!(node1.next_outbound(2, 0), Some(vec![0]));
    assert_eq!(node1.ready(&mut s), Ok(true));
}

#[test]
fn inbound_admission_is_bounded_for_regular_peers() {
    let mut node = build(
        1,
        memory_config(
            vec![],
            SetConfig { reserved_nodes: vec![MultiaddrWithPeerId { multiaddr: memory(1), peer_id: 50 }], in_peers: 1, out_peers: 0 },
            vec![protocol(PROTOCOL_NAME, &[])],
        ),
    );
    let offered = vec![PROTOCOL_NAME.to_string()];
    assert!(node.accept_inbound(10, &offered).is_some());
    assert!(node.accept_inbound(11, &offered).is_none());
    assert_eq!(node.substream_state(11, 0), SubstreamState::Closed);
    // Reserved peers bypass the pools.
    assert!(node.accept_inbound(50, &offered).is_some());
    // Outbound pool has no slot for a regular peer.
    assert!(!node.open_substream(12, 0, Direction::Outbound));
}

#[test]
fn inbound_open_fails_only_on_a_pair_already_live() {
    let (mut node1, _node2) = build_nodes_one_proto();
    let offered = vec![PROTOCOL_NAME.to_string()];
    assert!(node1.accept_inbound(2, &offered).is_some());
    // Same pair again while open: refused, nothing changes.
    assert!(node1.accept_inbound(2, &offered).is_none());
    assert_eq!(node1.event_count(), 1);
    node1.disconnect_peer(2, &PROTOCOL_NAME.to_string());
    assert!(node1.stream_closed(2, 0));
    assert!(node1.accept_inbound(2, &offered).is_some());
}

#[test]
fn no_shared_name_opens_nothing() {
    let (mut node1, _node2) = build_nodes_one_proto();
    let offered = vec!["/other".to_string()];
    assert!(node1.accept_inbound(2, &offered).is_none());
    assert_eq!(node1.event_count(), 0);
}

#[test]
fn connection_loss_closes_every_protocol_of_the_peer() {
    let mut node = build(
        1,
        memory_config(vec![], set_config(vec![]), vec![protocol("/a", &[]), protocol("/b", &[])]),
    );
    assert!(node.accept_inbound(7, &vec!["/a".to_string()]).is_some());
    assert!(node.open_substream(7, 1, Direction::Outbound));
    node.connection_lost(7);
    assert_eq!(node.substream_state(7, 0), SubstreamState::Closing);
    assert_eq!(node.substream_state(7, 1), SubstreamState::Closed);
    assert!(node.stream_closed(7, 0));
    assert_eq!(node.event_count(), 2);
}

#[test]
fn subscribers_read_independently() {
    let (mut node1, mut node2) = build_nodes_one_proto();
    assert!(connect(&mut node2, &mut node1, 0));
    let mut a = node1.subscribe();
    let mut b = node1.subscribe();
    assert!(node1.next_event(&mut a).is_some());
    assert!(node1.next_event(&mut a).is_none());
    assert!(matches!(node1.next_event(&mut b), Some(Event::StreamOpened { remote: 2, .. })));
}

#[test]
fn dht_events_pass_through_without_touching_pairs() {
    let (mut node1, mut node2) = build_nodes_one_proto();
    node1.publish_dht(vec![1, 2, 3]);
    assert!(connect(&mut node2, &mut node1, 0));
    node1.publish_dht(vec![4]);
    let events = all_events(&node1);
    assert_eq!(events.len(), 3);
    assert_eq!(events[0], Event::Dht(vec![1, 2, 3]));
    assert_eq!(events[2], Event::Dht(vec![4]));
    assert!(check_alternation(&events, 2));
    assert_eq!(node1.substream_state(2, 0), SubstreamState::Open);
}
