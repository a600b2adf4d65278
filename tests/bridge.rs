use ether_bridge::address::{Endpoint, IpAddress, MacAddr};
use ether_bridge::engine::{Action, Engine, CHECK_INTERVAL_MS, STALE_AFTER_MS};
use ether_bridge::frame::{local_event, read_failure, remote_event, Cause, Event, Frame, Side};
use ether_bridge::peer_table::PeerTable;

fn frame_bytes(dest: [u8; 6], src: [u8; 6], payload: &[u8]) -> Vec<u8> {
    let mut v = Vec::new();
    v.extend_from_slice(&dest);
    v.extend_from_slice(&src);
    v.extend_from_slice(&[0x08, 0x00]);
    v.extend_from_slice(payload);
    v
}

const MAC_A: [u8; 6] = [0xaa, 0xbb, 0xcc, 0xdd, 0xee, 0x01];
const MAC_B: [u8; 6] = [0xaa, 0xbb, 0xcc, 0xdd, 0xee, 0x02];
const MAC_LOCAL: [u8; 6] = [0x52, 0x54, 0x00, 0x12, 0x34, 0x56];
const BROADCAST: [u8; 6] = [0xff; 6];

fn mac(o: [u8; 6]) -> MacAddr {
    MacAddr(o[0], o[1], o[2], o[3], o[4], o[5])
}

fn forwarded(a: &Action) -> Vec<Endpoint> {
    match a {
        Action::Forward(v) => v.clone(),
        _ => panic!("expected a forward"),
    }
}

#[test]
fn endpoint_v4_packs_octets() {
    let e = Endpoint::v4(10, 0, 0, 1, 8889);
    assert_eq!(e.ip, IpAddress::V4(0x0a00_0001));
    assert_eq!(e.port, 8889);
}

#[test]
fn broadcast_address_detection() {
    assert!(MacAddr::broadcast().is_broadcast());
    assert!(mac(BROADCAST).is_broadcast());
    assert!(!mac(MAC_A).is_broadcast());
    assert!(!MacAddr(0xff, 0xff, 0xff, 0xff, 0xff, 0xfe).is_broadcast());
    assert_eq!(mac(MAC_A).octets(), MAC_A);
}

#[test]
fn frame_parse_reads_addresses() {
    let bytes = frame_bytes(MAC_A, MAC_B, &[1, 2, 3]);
    let f = Frame::parse(bytes.clone()).unwrap();
    assert_eq!(f.destination(), mac(MAC_A));
    assert_eq!(f.source(), mac(MAC_B));
    assert_eq!(f.bytes(), &bytes[..]);
}

#[test]
fn frame_parse_length_edges() {
    let full = frame_bytes(MAC_A, MAC_B, &[]);
    assert_eq!(full.len(), 14);
    assert!(Frame::parse(full.clone()).is_some());
    assert!(Frame::parse(full[..13].to_vec()).is_none());
    assert!(Frame::parse(Vec::new()).is_none());
}

#[test]
fn ingress_events() {
    assert!(matches!(local_event(vec![1, 2, 3]), Event::IngressError(Side::Local, Cause::Malformed)));
    let from = Endpoint::v4(10, 0, 0, 1, 8889);
    assert!(matches!(remote_event(vec![0; 5], from), Event::IngressError(Side::Remote, Cause::Malformed)));
    assert!(matches!(read_failure(Side::Remote), Event::IngressError(Side::Remote, Cause::ReadFailed)));
    match remote_event(frame_bytes(MAC_LOCAL, MAC_A, &[9]), from) {
        Event::RemoteFrame(f, e) => {
            assert_eq!(e, from);
            assert_eq!(f.source(), mac(MAC_A));
        }
        _ => panic!("expected a remote frame"),
    }
    assert!(matches!(local_event(frame_bytes(MAC_A, MAC_LOCAL, &[])), Event::LocalFrame(_)));
}

#[test]
fn table_learn_lookup_overwrite() {
    let mut t = PeerTable::new();
    let e1 = Endpoint::v4(10, 0, 0, 1, 8889);
    let e2 = Endpoint::v4(10, 0, 0, 2, 8889);
    assert_eq!(t.lookup(mac(MAC_A)), None);
    assert!(t.learn(mac(MAC_A), e1, 5));
    assert!(!t.learn(mac(MAC_A), e1, 5));
    assert_eq!(t.len(), 1);
    assert!(!t.learn(mac(MAC_A), e2, 7));
    assert_eq!(t.lookup(mac(MAC_A)), Some(e2));
    assert!(t.learn(mac(MAC_B), e1, 8));
    assert_eq!(t.len(), 2);
    assert_eq!(t.lookup(mac(MAC_B)), Some(e1));
}

#[test]
fn learning_follows_latest_sighting() {
    let mut engine = Engine::new(0);
    let e1 = Endpoint::v4(10, 0, 0, 1, 8889);
    let e2 = Endpoint::v4(10, 0, 0, 2, 9000);
    let seq = [(MAC_A, e1), (MAC_B, e1), (MAC_A, e2), (MAC_B, e1)];
    for (i, (m, e)) in seq.iter().enumerate() {
        let ev = remote_event(frame_bytes(MAC_LOCAL, *m, &[]), *e);
        engine.handle(&ev, i as u64);
    }
    assert_eq!(engine.peers().lookup(mac(MAC_A)), Some(e2));
    assert_eq!(engine.peers().lookup(mac(MAC_B)), Some(e1));
}

#[test]
fn table_sweep_threshold() {
    let mut t = PeerTable::new();
    let e1 = Endpoint::v4(10, 0, 0, 1, 8889);
    t.learn(mac(MAC_A), e1, 1000);
    t.learn(mac(MAC_B), e1, 1001);
    t.sweep(61_000, 60_000);
    assert_eq!(t.lookup(mac(MAC_A)), None);
    assert_eq!(t.lookup(mac(MAC_B)), Some(e1));
    assert_eq!(t.len(), 1);
}

#[test]
fn remote_frame_is_injected_and_learned() {
    let mut engine = Engine::new(0);
    let a = Endpoint::v4(10, 0, 0, 1, 8889);
    let ev = remote_event(frame_bytes(MAC_LOCAL, MAC_A, &[1]), a);
    let out = engine.handle(&ev, 10);
    assert!(!out.swept);
    assert!(matches!(out.action, Action::Inject { new_peer: true }));
    let out = engine.handle(&ev, 20);
    assert!(matches!(out.action, Action::Inject { new_peer: false }));
    assert_eq!(engine.peers().lookup(mac(MAC_A)), Some(a));
}

#[test]
fn unicast_to_learned_peer_goes_to_its_endpoint() {
    let mut engine = Engine::new(0);
    let a = Endpoint::v4(10, 0, 0, 1, 8889);
    engine.handle(&remote_event(frame_bytes(MAC_LOCAL, MAC_A, &[]), a), 1);
    let bytes = frame_bytes(MAC_A, MAC_LOCAL, &[0xde, 0xad, 0xbe, 0xef]);
    let ev = local_event(bytes.clone());
    let out = engine.handle(&ev, 2);
    assert_eq!(forwarded(&out.action), vec![a]);
    match &ev {
        Event::LocalFrame(f) => assert_eq!(f.bytes(), &bytes[..]),
        _ => panic!("expected a local frame"),
    }
}

#[test]
fn known_unicast_ignores_other_peers() {
    let mut engine = Engine::new(0);
    let a = Endpoint::v4(10, 0, 0, 1, 8889);
    let b = Endpoint::v4(10, 0, 0, 2, 8889);
    engine.handle(&remote_event(frame_bytes(MAC_LOCAL, MAC_A, &[]), a), 1);
    engine.handle(&remote_event(frame_bytes(MAC_LOCAL, MAC_B, &[]), b), 2);
    let out = engine.handle(&local_event(frame_bytes(MAC_B, MAC_LOCAL, &[])), 3);
    assert_eq!(forwarded(&out.action), vec![b]);
}

#[test]
fn broadcast_goes_to_every_peer() {
    let mut engine = Engine::new(0);
    let a = Endpoint::v4(10, 0, 0, 1, 8889);
    let b = Endpoint::v4(10, 0, 0, 2, 8889);
    engine.handle(&remote_event(frame_bytes(MAC_LOCAL, MAC_A, &[]), a), 1);
    engine.handle(&remote_event(frame_bytes(MAC_LOCAL, MAC_B, &[]), b), 2);
    let bytes = frame_bytes(BROADCAST, MAC_LOCAL, &[7, 7]);
    let ev = local_event(bytes.clone());
    let out = engine.handle(&ev, 3);
    let mut sent = forwarded(&out.action);
    assert_eq!(sent.len(), 2);
    sent.sort_by_key(|e| format!("{:?}", e));
    let mut expected = vec![a, b];
    expected.sort_by_key(|e| format!("{:?}", e));
    assert_eq!(sent, expected);
    match &ev {
        Event::LocalFrame(f) => assert_eq!(f.bytes(), &bytes[..]),
        _ => panic!("expected a local frame"),
    }
}

#[test]
fn broadcast_with_no_peers_sends_nothing() {
    let mut engine = Engine::new(0);
    let out = engine.handle(&local_event(frame_bytes(BROADCAST, MAC_LOCAL, &[])), 1);
    assert!(forwarded(&out.action).is_empty());
}

#[test]
fn unknown_unicast_is_dropped() {
    let mut engine = Engine::new(0);
    let a = Endpoint::v4(10, 0, 0, 1, 8889);
    engine.handle(&remote_event(frame_bytes(MAC_LOCAL, MAC_A, &[]), a), 1);
    let out = engine.handle(&local_event(frame_bytes(MAC_B, MAC_LOCAL, &[])), 2);
    assert!(forwarded(&out.action).is_empty());
}

#[test]
fn local_frames_teach_nothing() {
    let mut engine = Engine::new(0);
    engine.handle(&local_event(frame_bytes(MAC_A, MAC_LOCAL, &[])), 1);
    assert_eq!(engine.peers().len(), 0);
    assert_eq!(engine.peers().lookup(mac(MAC_LOCAL)), None);
}

#[test]
fn stale_peers_are_evicted_at_sweep() {
    let mut engine = Engine::new(0);
    let a = Endpoint::v4(10, 0, 0, 1, 8889);
    let b = Endpoint::v4(10, 0, 0, 2, 8889);
    engine.handle(&remote_event(frame_bytes(MAC_LOCAL, MAC_A, &[]), a), 0);
    engine.handle(&remote_event(frame_bytes(MAC_LOCAL, MAC_B, &[]), b), 20_000);
    let out = engine.handle(&read_failure(Side::Local), STALE_AFTER_MS + 1);
    assert!(out.swept);
    assert_eq!(engine.peers().lookup(mac(MAC_A)), None);
    assert_eq!(engine.peers().lookup(mac(MAC_B)), Some(b));
}

#[test]
fn sweeps_respect_check_interval() {
    let mut engine = Engine::new(0);
    let mut sweeps = Vec::new();
    let mut now = 0u64;
    while now <= 100_000 {
        let out = engine.handle(&read_failure(Side::Remote), now);
        if out.swept {
            sweeps.push(now);
        }
        now += 500;
    }
    assert_eq!(sweeps, vec![30_500, 61_000, 91_500]);
    for w in sweeps.windows(2) {
        assert!(w[1] - w[0] > CHECK_INTERVAL_MS);
    }
}

#[test]
fn no_sweep_at_exactly_the_interval() {
    let mut engine = Engine::new(1_000);
    let out = engine.handle(&read_failure(Side::Local), 1_000 + CHECK_INTERVAL_MS);
    assert!(!out.swept);
    let out = engine.handle(&read_failure(Side::Local), 1_001 + CHECK_INTERVAL_MS);
    assert!(out.swept);
}

#[test]
fn malformed_datagram_then_valid_one() {
    let mut engine = Engine::new(0);
    let a = Endpoint::v4(10, 0, 0, 1, 8889);
    let out = engine.handle(&remote_event(vec![0xaa; 10], a), 1);
    assert!(matches!(out.action, Action::Report(Side::Remote, Cause::Malformed)));
    assert_eq!(engine.peers().len(), 0);
    let out = engine.handle(&remote_event(frame_bytes(MAC_LOCAL, MAC_A, &[]), a), 2);
    assert!(matches!(out.action, Action::Inject { new_peer: true }));
    assert_eq!(engine.peers().lookup(mac(MAC_A)), Some(a));
}

#[test]
fn malformed_frame_then_valid_one() {
    let mut engine = Engine::new(0);
    let a = Endpoint::v4(10, 0, 0, 1, 8889);
    engine.handle(&remote_event(frame_bytes(MAC_LOCAL, MAC_A, &[]), a), 1);
    let out = engine.handle(&local_event(vec![1; 13]), 2);
    assert!(matches!(out.action, Action::Report(Side::Local, Cause::Malformed)));
    assert_eq!(engine.peers().len(), 1);
    let out = engine.handle(&local_event(frame_bytes(MAC_A, MAC_LOCAL, &[])), 3);
    assert_eq!(forwarded(&out.action), vec![a]);
}
