use notifications::ffi::{ExchangeableFunction, ExchangeableFunctionState, WrappedFFIValue};
use notifications::peerset::{Direction, PeerSet};
use notifications::protocol::{find_protocol, negotiate, negotiated_fallback, ProtocolDescriptor};
use notifications::queue::NotificationQueue;

#[test]
fn wrapped_value_is_read_from_either_variant() {
    let a: WrappedFFIValue<u64, Vec<u8>> = WrappedFFIValue::Wrapped(7);
    let b: WrappedFFIValue<u64, Vec<u8>> = WrappedFFIValue::WrappedAndOwned(9, vec![1, 2]);
    assert_eq!(a.get(), 7);
    assert_eq!(b.get(), 9);
}

#[test]
fn wrapped_value_converts_from_value_or_pair() {
    let a: WrappedFFIValue<u32, Vec<u8>> = 5u32.into();
    let b: WrappedFFIValue<u32, Vec<u8>> = (6u32, vec![1]).into();
    assert_eq!(a.get(), 5);
    assert_eq!(b.get(), 6);
    assert!(matches!(b, WrappedFFIValue::WrappedAndOwned(6, _)));
}

fn one() -> u32 {
    1
}

fn two() -> u32 {
    2
}

#[test]
fn exchangeable_function_replaces_and_restores() {
    let mut f = ExchangeableFunction::new(1, one as fn() -> u32);
    assert_eq!((f.get())(), 1);
    let restore = f.replace_implementation(two);
    assert_eq!((f.get())(), 2);
    assert_eq!(f.state(), ExchangeableFunctionState::Replaced);
    f.restore_orig_implementation(restore);
    assert_eq!((f.get())(), 1);
    assert_eq!(f.state(), ExchangeableFunctionState::Original);
}

#[test]
fn replacing_twice_is_refused_before_any_change() {
    let mut f = ExchangeableFunction::new(1, one as fn() -> u32);
    let restore = f.try_replace_implementation(two).unwrap();
    assert!(f.try_replace_implementation(one).is_none());
    assert_eq!((f.get())(), 2);
    assert_eq!(f.state(), ExchangeableFunctionState::Replaced);
    f.restore_orig_implementation(restore);
    assert_eq!((f.get())(), 1);
    assert!(f.try_replace_implementation(two).is_some());
}

#[test]
fn restoring_an_unreplaced_function_installs_the_token_value() {
    let mut f = ExchangeableFunction::new(1, 10u32);
    let mut g = ExchangeableFunction::new(1, 10u32);
    let t = g.replace_implementation(20);
    // `f` is in its initial state with the same implementation: unchanged.
    f.restore_orig_implementation(t);
    assert_eq!(f.get(), 10);
    assert_eq!(f.state(), ExchangeableFunctionState::Original);
    let mut h = ExchangeableFunction::new(1, 30u32);
    let u = g.try_replace_implementation(40);
    assert!(u.is_none());
    let t2 = ExchangeableFunction::new(1, 50u32).replace_implementation(60);
    h.restore_orig_implementation(t2);
    assert_eq!(h.get(), 50);
}

#[test]
fn each_token_restores_its_own_function() {
    let mut fs: Vec<ExchangeableFunction<u32>> =
        (0..32u64).map(|i| ExchangeableFunction::new(i, i as u32)).collect();
    let mut tokens = Vec::new();
    for (i, f) in fs.iter_mut().enumerate() {
        tokens.push(f.replace_implementation(1000 + i as u32));
    }
    // Restore in reverse order; every other function stays replaced meanwhile.
    for i in (0..32usize).rev() {
        let t = tokens.pop().unwrap();
        fs[i].restore_orig_implementation(t);
        assert_eq!(fs[i].get(), i as u32);
        assert_eq!(fs[i].state(), ExchangeableFunctionState::Original);
        for j in 0..i {
            assert_eq!(fs[j].get(), 1000 + j as u32);
            assert_eq!(fs[j].state(), ExchangeableFunctionState::Replaced);
        }
    }
    assert_eq!(fs[5].id(), 5);
}

#[test]
fn queue_is_fifo_and_bounded() {
    let mut q = NotificationQueue::new(2);
    assert!(q.try_push(vec![1]));
    assert!(q.try_push(vec![2]));
    assert!(!q.try_push(vec![3]));
    assert_eq!(q.len(), 2);
    assert_eq!(q.pop(), Some(vec![1]));
    assert_eq!(q.pop(), Some(vec![2]));
    assert_eq!(q.pop(), None);
}

#[test]
fn reserved_slots_are_not_taken_by_best_effort() {
    let mut q = NotificationQueue::new(2);
    assert!(q.reserve());
    assert!(q.try_push(vec![1]));
    assert!(!q.has_free_slot());
    assert!(!q.try_push(vec![2]));
    q.push_reserved(vec![3]);
    assert_eq!(q.reserved_slots(), 0);
    assert_eq!(q.pop(), Some(vec![1]));
    assert_eq!(q.pop(), Some(vec![3]));
    assert!(q.reserve());
    q.cancel_reservation();
    assert_eq!(q.reserved_slots(), 0);
}

#[test]
fn zero_capacity_queue_takes_nothing() {
    let mut q = NotificationQueue::new(0);
    assert!(!q.try_push(vec![1]));
    assert!(!q.reserve());
}

#[test]
fn peer_set_accounts_regular_peers_per_direction() {
    let mut ps = PeerSet::new(vec![9], 1, 1);
    assert!(ps.try_connect(1, Direction::Inbound));
    assert!(!ps.try_connect(2, Direction::Inbound));
    assert!(ps.try_connect(2, Direction::Outbound));
    assert!(!ps.try_connect(3, Direction::Outbound));
    // Reserved and already connected peers are always admitted.
    assert!(ps.try_connect(9, Direction::Inbound));
    assert!(ps.try_connect(1, Direction::Outbound));
    assert_eq!(ps.in_peers_used(), 1);
    assert_eq!(ps.out_peers_used(), 1);
    ps.release(1);
    assert!(!ps.is_connected(1));
    assert_eq!(ps.in_peers_used(), 0);
    assert!(ps.admits_peer(3, Direction::Inbound));
    ps.release(9);
    assert_eq!(ps.in_peers_used(), 0);
    assert!(ps.is_reserved_peer(9));
}

fn proto(name: &str, fallbacks: &[&str]) -> ProtocolDescriptor {
    ProtocolDescriptor {
        name: name.to_string(),
        fallback_names: fallbacks.iter().map(|f| f.to_string()).collect(),
        max_notification_size: 64,
        handshake: None,
    }
}

#[test]
fn negotiation_picks_first_shared_name() {
    let initiator = proto("/new", &["/old", "/older"]);
    let offered = initiator.offered_names();
    assert_eq!(offered, vec!["/new".to_string(), "/old".to_string(), "/older".to_string()]);

    let responder = vec![proto("/x", &[]), proto("/old", &[]), proto("/older", &[])];
    let x = negotiate(&offered, &responder).unwrap();
    assert_eq!(x.offer_index, 1);
    assert_eq!(x.responder_index, 1);
    assert_eq!(negotiated_fallback(&offered, &x), Some("/old".to_string()));

    let same = vec![proto("/new", &[])];
    let y = negotiate(&offered, &same).unwrap();
    assert_eq!(negotiated_fallback(&offered, &y), None);

    assert!(negotiate(&offered, &vec![proto("/z", &[])]).is_none());
}

#[test]
fn responder_fallback_names_are_matched_too() {
    let responder = vec![proto("/a", &[]), proto("/b", &["/legacy"])];
    assert_eq!(find_protocol(&responder, &"/legacy".to_string()), Some(1));
    assert_eq!(find_protocol(&responder, &"/c".to_string()), None);
    assert!(responder[1].supports_name(&"/legacy".to_string()));
    assert!(!responder[0].supports_name(&"/legacy".to_string()));
}
