use rita_core::codec::{decode_hello, encode_hello, FrameError, Hello};
use rita_core::identity::{EthAddress, Identity, WgKey};
use rita_core::peer_listener::{ListenError, PeerListener};
use rita_core::traffic_watcher::{compute_charge, CounterSample, TrafficWatcher};
use rita_core::tunnel_manager::{backoff_secs, TunnelError, TunnelManager};
use rita_core::int256::I256;
use rita_core::payments::{PaymentController, TxHash};

fn mk_id(n: u8) -> Identity {
    Identity {
        mesh_ip: 0xfd00_0000_0000_0000_0000_0000_0000_0000u128 + n as u128,
        eth_address: EthAddress { hi: n as u32, lo: n as u128 },
        wg_public_key: WgKey { hi: n as u128, lo: 1 },
    }
}

#[test]
fn frame_round_trip() {
    let h = Hello {
        version: 1,
        identity: Identity {
            mesh_ip: 0xfd00_1234_5678_9abc_def0_1111_2222_3333,
            eth_address: EthAddress { hi: 0xde0b2956, lo: 0x69a9fd93d5f28d9ec85e40f4cb697bae },
            wg_public_key: WgKey { hi: u128::MAX - 7, lo: 42 },
        },
        wg_port: 51820,
    };
    let bytes = encode_hello(&h);
    assert_eq!(bytes.len(), 71);
    assert_eq!(decode_hello(&bytes).unwrap(), h);
}

#[test]
fn frame_too_short_is_rejected() {
    let h = Hello { version: 1, identity: mk_id(1), wg_port: 4876 };
    let mut bytes = encode_hello(&h);
    bytes.pop();
    assert_eq!(decode_hello(&bytes), Err(FrameError::TooShort));
    let empty: Vec<u8> = Vec::new();
    assert_eq!(decode_hello(&empty), Err(FrameError::TooShort));
}

#[test]
fn frame_unknown_version_is_dropped() {
    let h = Hello { version: 1, identity: mk_id(1), wg_port: 4876 };
    let mut bytes = encode_hello(&h);
    bytes[0] = 9;
    assert_eq!(decode_hello(&bytes), Err(FrameError::UnknownVersion));
}

#[test]
fn one_tunnel_per_identity_under_supersession() {
    let mut tm = TunnelManager::new(1000, 1010, 4);
    let a = mk_id(1);
    let (if1, p1, v1) = tm
        .open_tunnel(a, 0xfe80_0000_0000_0000_0000_0000_0000_0001, 4876, String::from("eth0"), 5)
        .unwrap();
    assert!(tm.activate(&a));
    // A fresher handshake from the same identity supersedes: still one
    // tunnel, and a new version tag.
    let (_if2, _p2, v2) = tm
        .open_tunnel(a, 0xfe80_0000_0000_0000_0000_0000_0000_0002, 4877, String::from("eth0"), 9)
        .unwrap();
    assert_ne!(v1, v2);
    assert_eq!(tm.live_tunnels().len(), 1);
    assert_eq!(tm.live_tunnels()[0].endpoint_port, 4877);
    let _ = (if1, p1);
}

#[test]
fn pool_conservation_across_open_and_close() {
    let mut tm = TunnelManager::new(1000, 1002, 3);
    assert_eq!(tm.free_ports.len(), 3);
    assert_eq!(tm.free_ifaces.len(), 3);
    let a = mk_id(1);
    let b = mk_id(2);
    tm.open_tunnel(a, 1, 4876, String::from("eth0"), 0).unwrap();
    tm.open_tunnel(b, 2, 4876, String::from("eth1"), 0).unwrap();
    assert_eq!(tm.free_ports.len(), 1);
    assert!(tm.close_tunnel(&a));
    assert!(!tm.close_tunnel(&a));
    assert_eq!(tm.free_ports.len(), 2);
    assert_eq!(tm.free_ifaces.len(), 2);
    // Every port is either free or held by a live tunnel.
    let mut held: Vec<u16> = tm.free_ports.clone();
    for t in tm.live_tunnels() {
        held.push(t.port);
    }
    held.sort();
    assert_eq!(held, vec![1000, 1001, 1002]);
}

#[test]
fn mesh_ip_collision_is_rejected() {
    let mut tm = TunnelManager::new(1000, 1010, 4);
    let a = mk_id(1);
    let mut imposter = mk_id(3);
    imposter.mesh_ip = a.mesh_ip;
    tm.open_tunnel(a, 1, 4876, String::from("eth0"), 0).unwrap();
    let r = tm.open_tunnel(imposter, 2, 4876, String::from("eth0"), 1);
    assert_eq!(r, Err(TunnelError::MeshIpCollision));
    assert_eq!(tm.live_tunnels().len(), 1);
}

#[test]
fn exhausted_pool_is_reported() {
    let mut tm = TunnelManager::new(1000, 1000, 1);
    tm.open_tunnel(mk_id(1), 1, 4876, String::from("eth0"), 0).unwrap();
    let r = tm.open_tunnel(mk_id(2), 2, 4876, String::from("eth0"), 0);
    assert_eq!(r, Err(TunnelError::PoolExhausted));
}

#[test]
fn backoff_doubles_and_caps() {
    assert_eq!(backoff_secs(0), 30);
    assert_eq!(backoff_secs(1), 60);
    assert_eq!(backoff_secs(4), 480);
    assert_eq!(backoff_secs(5), 600);
    assert_eq!(backoff_secs(40), 600);
}

#[test]
fn deltas_are_never_negative_and_wrap_resets() {
    let mut w = TrafficWatcher::new();
    let a = mk_id(1);
    let s1 = CounterSample { identity: a, version: 7, ingress: 100, egress: 40 };
    assert_eq!(w.sample(s1), (100, 40));
    let s2 = CounterSample { identity: a, version: 7, ingress: 160, egress: 45 };
    assert_eq!(w.sample(s2), (60, 5));
    // Wrap-around: the counter shrank, so this tick charges nothing
    // and the baseline resets to the current reading.
    let s3 = CounterSample { identity: a, version: 7, ingress: 30, egress: 50 };
    assert_eq!(w.sample(s3), (0, 5));
    let s4 = CounterSample { identity: a, version: 7, ingress: 42, egress: 50 };
    assert_eq!(w.sample(s4), (12, 0));
}

#[test]
fn fresh_tunnel_version_starts_from_zero_baseline() {
    let mut w = TrafficWatcher::new();
    let a = mk_id(1);
    w.sample(CounterSample { identity: a, version: 1, ingress: 500, egress: 500 });
    // The tunnel was superseded: same identity, new version tag.
    let r = w.sample(CounterSample { identity: a, version: 2, ingress: 70, egress: 30 });
    assert_eq!(r, (70, 30));
}

#[test]
fn charges_are_priced_per_direction() {
    // ingress * price_we_pay - egress * price_we_charge
    assert_eq!(compute_charge(10, 2, 20, 1), I256::zero());
    assert_eq!(compute_charge(60, 2, 0, 1), I256::from_i64(120));
    assert_eq!(compute_charge(0, 2, 60, 1), I256::from_i64(-60));
}

#[test]
fn watch_tick_prices_the_whole_batch() {
    let mut w = TrafficWatcher::new();
    let a = mk_id(1);
    let b = mk_id(2);
    let samples = vec![
        (CounterSample { identity: a, version: 1, ingress: 10, egress: 20 }, 2u64),
        (CounterSample { identity: b, version: 1, ingress: 60, egress: 0 }, 2u64),
    ];
    let charges = w.watch_tick(&samples, 1);
    assert_eq!(charges.len(), 2);
    assert_eq!(charges[0].identity, a);
    assert_eq!(charges[0].amount, I256::zero());
    assert_eq!(charges[1].identity, b);
    assert_eq!(charges[1].amount, I256::from_i64(120));
}

#[test]
fn duplicate_observation_in_one_interval_emits_once() {
    let mut pl = PeerListener::new(5);
    pl.listen(String::from("eth0"), true, 0).unwrap();
    let a = mk_id(1);
    let iface = String::from("eth0");
    let first = pl.observe(a, 0xfe80_1, 4876, &iface, 3);
    assert!(first.is_some());
    let second = pl.observe(a, 0xfe80_1, 4876, &iface, 3);
    assert!(second.is_none());
    // The next interval hears the peer again.
    pl.tick(8);
    assert!(pl.observe(a, 0xfe80_1, 4876, &iface, 8).is_some());
}

#[test]
fn listen_needs_a_link_local_address() {
    let mut pl = PeerListener::new(5);
    let r = pl.listen(String::from("eth0"), false, 0);
    assert_eq!(r, Err(ListenError::AddressNotReady));
    assert!(pl.listen(String::from("eth0"), true, 0).is_ok());
    // Idempotent.
    assert!(pl.listen(String::from("eth0"), true, 99).is_ok());
}

#[test]
fn observation_during_settling_delay_is_queued() {
    // A freshly converted mesh interface waits out its delay; the
    // queued hello flows once the delay elapsed.
    let mut pl = PeerListener::new(5);
    pl.listen(String::from("wg3"), true, 60).unwrap();
    let a = mk_id(1);
    let iface = String::from("wg3");
    assert!(pl.observe(a, 0xfe80_1, 4876, &iface, 10).is_none());
    let early = pl.flush_queued(30);
    assert_eq!(early.len(), 0);
    let ready = pl.flush_queued(61);
    assert_eq!(ready.len(), 1);
    assert_eq!(ready[0].identity, a);
    assert_eq!(ready[0].wg_port, 4876);
}

#[test]
fn unlisten_drops_queued_observations() {
    let mut pl = PeerListener::new(5);
    pl.listen(String::from("wg3"), true, 60).unwrap();
    let a = mk_id(1);
    let iface = String::from("wg3");
    pl.observe(a, 0xfe80_1, 4876, &iface, 10);
    assert!(pl.unlisten(&iface));
    assert!(!pl.unlisten(&iface));
    assert_eq!(pl.flush_queued(99).len(), 0);
}

#[test]
fn unheard_peers_expire_after_three_intervals() {
    let mut pl = PeerListener::new(5);
    pl.listen(String::from("eth0"), true, 0).unwrap();
    let a = mk_id(1);
    let iface = String::from("eth0");
    pl.observe(a, 0xfe80_1, 4876, &iface, 0);
    assert_eq!(pl.peers.len(), 1);
    pl.tick(14);
    assert_eq!(pl.peers.len(), 1);
    pl.tick(15);
    assert_eq!(pl.peers.len(), 0);
}

#[test]
fn payments_serialize_and_coalesce_per_identity() {
    let mut pc = PaymentController::new();
    let a = mk_id(1);
    // First order flies at once.
    let r = pc.make_payment(a, I256::from_i64(100)).unwrap().unwrap();
    assert_eq!(r.amount, I256::from_i64(100));
    // Orders during the flight wait, coalesced into one sum.
    assert!(pc.make_payment(a, I256::from_i64(30)).unwrap().is_none());
    assert!(pc.make_payment(a, I256::from_i64(12)).unwrap().is_none());
    // The flight ends; the coalesced sum becomes the next request.
    let next = pc.payment_finished(&a).unwrap();
    assert_eq!(next.amount, I256::from_i64(42));
    assert!(pc.payment_finished(&a).is_none());
}

#[test]
fn inbound_payments_are_vetted_and_credited_once() {
    let mut pc = PaymentController::new();
    let tx = TxHash { hi: 7, lo: 9 };
    // Short on confirmations, wrong recipient or amount: dropped.
    assert!(!pc.accept_notification(tx, true, true, 5, 6));
    assert!(!pc.accept_notification(tx, false, true, 6, 6));
    assert!(!pc.accept_notification(tx, true, false, 6, 6));
    // Verified: credited; the duplicate is idempotent.
    assert!(pc.accept_notification(tx, true, true, 6, 6));
    assert!(!pc.accept_notification(tx, true, true, 6, 6));
}

#[test]
fn finishing_one_flight_leaves_other_peers_alone() {
    let mut pc = PaymentController::new();
    let a = mk_id(1);
    let b = mk_id(2);
    pc.make_payment(a, I256::from_i64(10)).unwrap().unwrap();
    pc.make_payment(b, I256::from_i64(20)).unwrap().unwrap();
    pc.make_payment(b, I256::from_i64(5)).unwrap();
    assert!(pc.payment_finished(&a).is_none());
    // B's flight and its waiting sum were not touched by A's finish.
    let next_b = pc.payment_finished(&b).unwrap();
    assert_eq!(next_b.amount, I256::from_i64(5));
}
