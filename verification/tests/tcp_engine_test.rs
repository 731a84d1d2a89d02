use portforwarder::addr::{IpRepr, NetAddr};
use portforwarder::connection_plugin::RegexMultiplexer;
use portforwarder::tcp_engine::{AcceptDecision, EofOutcome, TcpEngine, WriteOutcome};

fn addr(port: u16) -> NetAddr {
    NetAddr { ip: IpRepr::V4(0x7f000001), port }
}

fn engine(rules: Vec<(&str, u16)>, allow: Vec<&str>, cache: usize, max: i64) -> TcpEngine {
    let remote_map: Vec<(String, NetAddr)> = rules
        .into_iter()
        .map(|(p, port)| (p.to_string(), addr(port)))
        .collect();
    let allow_nets: Vec<String> = allow.into_iter().map(|s| s.to_string()).collect();
    let plugin = RegexMultiplexer::from(&remote_map, &allow_nets).expect("plugin");
    TcpEngine::new(plugin, cache, max)
}

#[test]
fn tcp_echo_round_trip() {
    // a single catch-all rule, large buffer: the fast path connects the
    // upstream eagerly and every byte flows through and back
    let mut e = engine(vec![(".*", 9000)], vec![], 1024 * 1024, -1);
    let peer = addr(50000);
    assert_eq!(e.accept_decision(&peer), AcceptDecision::FastConnect(addr(9000)));
    let t = e.install_flow(peer, true).expect("install");
    assert_eq!(t, 2);
    assert_eq!(e.flow_count(), 1);
    assert_eq!(e.interest_of(t), (true, false));
    assert_eq!(e.interest_of(t + 1), (true, false));

    // client sends a payload: it is queued for the upstream
    let payload = vec![0xabu8; 4096];
    e.push_data(t, payload.clone());
    assert_eq!(e.interest_of(t + 1), (true, true));
    assert_eq!(e.next_pending(t + 1).as_deref(), Some(payload.as_slice()));
    assert_eq!(e.on_write_ok(t + 1, 4096), WriteOutcome::Drained);
    assert_eq!(e.interest_of(t + 1), (true, false));

    // the echo comes back: queued for the client, drained the same way
    e.push_data(t + 1, payload.clone());
    assert_eq!(e.next_pending(t).as_deref(), Some(payload.as_slice()));
    assert_eq!(e.on_write_ok(t, 4096), WriteOutcome::Drained);

    // client half-closes; with nothing pending the upstream is half-closed
    // at once, and the upstream's EOF then tears the flow down
    assert_eq!(e.on_read_eof(t), EofOutcome::ShutdownPeer);
    assert!(e.is_live(t));
    assert_eq!(e.on_read_eof(t + 1), EofOutcome::ShutdownPeerRemove);
    assert!(!e.is_live(t));
    assert_eq!(e.flow_count(), 0);
}

#[test]
fn short_writes_keep_byte_order() {
    let mut e = engine(vec![(".*", 9000)], vec![], 1 << 20, -1);
    let t = e.install_flow(addr(50000), true).expect("install");
    e.push_data(t, vec![1, 2, 3, 4, 5]);
    e.push_data(t, vec![6, 7, 8]);
    // a short write of 2 bytes leaves the tail at the head of the queue
    assert_eq!(e.on_write_ok(t + 1, 2), WriteOutcome::ShortWrite);
    assert_eq!(e.next_pending(t + 1).as_deref(), Some(&[3u8, 4, 5][..]));
    assert_eq!(e.on_write_ok(t + 1, 3), WriteOutcome::Progress);
    assert_eq!(e.next_pending(t + 1).as_deref(), Some(&[6u8, 7, 8][..]));
    assert_eq!(e.on_write_ok(t + 1, 3), WriteOutcome::Drained);
    assert_eq!(e.next_pending(t + 1), None);
}

#[test]
fn backpressure_stops_and_resumes_reading() {
    // cache of 1000 bytes: the second enqueue crosses the bound and the
    // client stops being read; draining below the bound resumes it
    let mut e = engine(vec![(".*", 9000)], vec![], 1000, -1);
    let t = e.install_flow(addr(50000), true).expect("install");
    e.push_data(t, vec![0u8; 600]);
    assert_eq!(e.interest_of(t), (true, false));
    e.push_data(t, vec![0u8; 600]);
    // 1200 bytes pending for the upstream: the client is no longer readable
    assert_eq!(e.interest_of(t), (false, false));
    assert_eq!(e.on_write_ok(t + 1, 600), WriteOutcome::Progress);
    // 600 < 1000: reading resumes
    assert_eq!(e.interest_of(t), (true, false));
    assert_eq!(e.on_write_ok(t + 1, 600), WriteOutcome::Drained);
    assert_eq!(e.interest_of(t), (true, false));
}

#[test]
fn half_close_waits_for_drain() {
    let mut e = engine(vec![(".*", 9000)], vec![], 1 << 20, -1);
    let t = e.install_flow(addr(50000), true).expect("install");
    e.push_data(t, vec![9u8; 100]);
    // EOF from the client while the upstream still has pending data: the
    // half-close is deferred until the queue drains
    assert_eq!(e.on_read_eof(t), EofOutcome::Deferred);
    assert!(e.is_live(t));
    assert_eq!(e.on_write_ok(t + 1, 100), WriteOutcome::ShutdownSelf);
    // the upstream half-closes back; both sides are now shut
    assert_eq!(e.on_read_eof(t + 1), EofOutcome::ShutdownPeerRemove);
    assert!(!e.is_live(t));
}

#[test]
fn access_control_and_quota() {
    let mut e = engine(vec![(".*", 9000)], vec!["127.0.0.1/32"], 1 << 20, 1);
    let allowed = NetAddr { ip: IpRepr::V4(0x7f000001), port: 40000 };
    let refused = NetAddr { ip: IpRepr::V4(0x7f000002), port: 40000 };
    // a connection from outside the allow list is rejected outright and
    // never counted against the cap
    assert_eq!(e.accept_decision(&refused), AcceptDecision::RejectAddr);
    assert_eq!(e.flow_count(), 0);
    assert_eq!(e.accept_decision(&allowed), AcceptDecision::FastConnect(addr(9000)));
    e.install_flow(allowed, true).expect("install");
    // the cap of one flow is reached
    assert_eq!(e.accept_decision(&allowed), AcceptDecision::RejectQuota);
    assert_eq!(e.install_flow(allowed, true), None);
}

#[test]
fn slow_path_decides_on_first_payload() {
    let mut e = engine(vec![("[ssh]", 22), (".*", 9000)], vec![], 1 << 20, -1);
    let peer = addr(41000);
    assert_eq!(e.accept_decision(&peer), AcceptDecision::SlowRegister);
    let t = e.install_flow(peer, false).expect("install");
    // only the client side is registered until the first payload arrives
    assert_eq!(e.interest_of(t), (true, false));
    assert_eq!(e.interest_of(t + 1), (false, false));
    assert_eq!(e.decide_target_for(t, b"SSH-2.0-OpenSSH_9\r\n"), Some(addr(22)));
    e.attach_upstream(t);
    assert_eq!(e.interest_of(t + 1), (true, false));
    e.push_data(t, b"SSH-2.0-OpenSSH_9\r\n".to_vec());
    assert_eq!(e.next_pending(t + 1).as_deref(), Some(&b"SSH-2.0-OpenSSH_9\r\n"[..]));
}

#[test]
fn tokens_pair_and_die_together() {
    let mut e = engine(vec![(".*", 9000)], vec![], 1 << 20, -1);
    let t1 = e.install_flow(addr(40001), true).expect("install");
    let t2 = e.install_flow(addr(40002), true).expect("install");
    assert_eq!(t1, 2);
    assert_eq!(t2, 4);
    assert!(e.is_live(t1) && e.is_live(t1 + 1));
    // removing by the odd token removes the whole pair
    assert!(e.remove_flow(t1 + 1));
    assert!(!e.is_live(t1) && !e.is_live(t1 + 1));
    assert!(e.is_live(t2) && e.is_live(t2 + 1));
    // removal is idempotent
    assert!(!e.remove_flow(t1));
}

#[test]
fn events_capacity_is_capped() {
    let e = engine(vec![(".*", 9000)], vec![], 1 << 20, 10);
    assert_eq!(e.events_capacity(), 10);
    let e2 = engine(vec![(".*", 9000)], vec![], 1 << 20, -1);
    assert_eq!(e2.events_capacity(), 1024);
    let e3 = engine(vec![(".*", 9000)], vec![], 1 << 20, 5000);
    assert_eq!(e3.events_capacity(), 1024);
}
