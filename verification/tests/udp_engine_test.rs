use portforwarder::addr::{IpRepr, NetAddr};
use portforwarder::connection_plugin::RegexMultiplexer;
use portforwarder::udp_engine::{UdpEngine, LIFESPAN_US};

fn addr(port: u16) -> NetAddr {
    NetAddr { ip: IpRepr::V4(0x7f000001), port }
}

fn peer(n: u16) -> NetAddr {
    NetAddr { ip: IpRepr::V4(0x7f000001), port: 50000 + n }
}

fn engine(rules: Vec<(&str, u16)>, allow: Vec<&str>, max: i64) -> UdpEngine {
    let remote_map: Vec<(String, NetAddr)> = rules
        .into_iter()
        .map(|(p, port)| (p.to_string(), addr(port)))
        .collect();
    let allow_nets: Vec<String> = allow.into_iter().map(|s| s.to_string()).collect();
    let plugin = RegexMultiplexer::from(&remote_map, &allow_nets).expect("plugin");
    UdpEngine::new(plugin, max)
}

#[test]
fn udp_echo_round_trip() {
    // one session forwards 100 datagrams of 512 bytes and returns each
    let mut e = engine(vec![(".*", 9000)], vec![], -1);
    let client = peer(1);
    assert_eq!(e.find_session(&client), None);
    let tok = e.create_session(client).expect("session");
    assert_eq!(e.find_session(&client), Some(tok));

    let datagram = vec![0x5au8; 512];
    for _ in 0..100 {
        assert!(e.enqueue_client_datagram(tok, datagram.clone()));
    }
    // the first datagram decides the target, which then sticks
    assert_eq!(e.upstream_target(tok), Some(addr(9000)));
    let mut sent = 0usize;
    while let Some(buf) = e.next_upstream_buf(tok) {
        assert_eq!(buf, datagram);
        sent += buf.len();
        e.on_upstream_sent(tok);
    }
    assert_eq!(sent, 100 * 512);

    // the echo returns each datagram; the write-back queue hands them out
    // in order, tagged with the client's address
    for _ in 0..100 {
        e.on_upstream_datagram(tok, datagram.clone());
    }
    let mut returned = 0usize;
    while let Some((to, buf)) = e.pop_writeback() {
        assert_eq!(to, client);
        assert_eq!(buf, datagram);
        returned += buf.len();
    }
    assert_eq!(returned, 100 * 512);
}

#[test]
fn target_decision_is_sticky() {
    let mut e = engine(vec![("[ssh]", 22), (".*", 9000)], vec![], -1);
    let tok = e.create_session(peer(2)).expect("session");
    assert!(e.enqueue_client_datagram(tok, b"SSH-2.0-x\r\n".to_vec()));
    assert_eq!(e.upstream_target(tok), Some(addr(22)));
    e.on_upstream_sent(tok);
    // a later datagram that would match the catch-all keeps the first target
    assert!(e.enqueue_client_datagram(tok, b"hello".to_vec()));
    assert_eq!(e.upstream_target(tok), Some(addr(22)));
}

#[test]
fn plugin_refusal_evicts_session() {
    // only an SSH rule: a plain payload finds no target and the session goes
    let mut e = engine(vec![("[ssh]", 22)], vec![], -1);
    let tok = e.create_session(peer(3)).expect("session");
    assert!(e.enqueue_client_datagram(tok, b"hello".to_vec()));
    assert_eq!(e.upstream_target(tok), None);
    assert!(e.evict_session(tok));
    assert_eq!(e.find_session(&peer(3)), None);
    assert!(!e.evict_session(tok));
}

#[test]
fn session_cap_and_duplicate_peers() {
    let mut e = engine(vec![(".*", 9000)], vec![], 2);
    assert!(e.can_accept_new());
    let t1 = e.create_session(peer(4)).expect("first");
    // a second session for the same peer is refused
    assert_eq!(e.create_session(peer(4)), None);
    let _t2 = e.create_session(peer(5)).expect("second");
    assert!(!e.can_accept_new());
    assert_eq!(e.create_session(peer(6)), None);
    // evicting one frees a slot
    assert!(e.evict_session(t1));
    assert!(e.can_accept_new());
    assert!(e.create_session(peer(6)).is_some());
}

#[test]
fn idle_sessions_are_evicted_after_lifespan() {
    // ten sessions left idle past the lifespan all go in one sweep, and an
    // eleventh is then accepted
    let mut e = engine(vec![(".*", 9000)], vec![], 10);
    let mut tokens = Vec::new();
    for n in 0..10u16 {
        tokens.push(e.create_session(peer(10 + n)).expect("session"));
    }
    assert_eq!(e.create_session(peer(30)), None);
    // the engine clock starts near zero, so a wall clock beyond the
    // lifespan leaves every session expired
    let evicted = e.begin_tick(LIFESPAN_US + 1_000_000);
    assert_eq!(evicted, tokens);
    for n in 0..10u16 {
        assert_eq!(e.find_session(&peer(10 + n)), None);
    }
    assert!(e.create_session(peer(30)).is_some());
}

#[test]
fn recently_active_sessions_survive_a_sweep() {
    let mut e = engine(vec![(".*", 9000)], vec![], -1);
    let t1 = e.create_session(peer(7)).expect("first");
    let t2 = e.create_session(peer(8)).expect("second");
    // a sweep at a time where both are idle but only within the lifespan
    let none = e.begin_tick(LIFESPAN_US / 2);
    assert!(none.is_empty());
    // activity on the first session refreshes its stamp
    e.on_upstream_datagram(t1, b"pong".to_vec());
    let _ = e.pop_writeback();
    // now expire everything older than the refreshed stamp
    let evicted = e.begin_tick(LIFESPAN_US + LIFESPAN_US / 2 - 10);
    assert_eq!(evicted, vec![t2]);
    assert_eq!(e.find_session(&peer(7)), Some(t1));
    assert_eq!(e.find_session(&peer(8)), None);
}

#[test]
fn writeback_is_fifo_across_sessions() {
    let mut e = engine(vec![(".*", 9000)], vec![], -1);
    let t1 = e.create_session(peer(20)).expect("first");
    let t2 = e.create_session(peer(21)).expect("second");
    assert!(e.on_upstream_datagram(t1, vec![1]));
    // the listener is already writable for the second reply
    assert!(!e.on_upstream_datagram(t2, vec![2]));
    assert!(!e.on_upstream_datagram(t1, vec![3]));
    assert_eq!(e.pop_writeback(), Some((peer(20), vec![1])));
    assert_eq!(e.pop_writeback(), Some((peer(21), vec![2])));
    assert_eq!(e.pop_writeback(), Some((peer(20), vec![3])));
    assert_eq!(e.pop_writeback(), None);
}

#[test]
fn udp_access_control() {
    let e = engine(vec![(".*", 9000)], vec!["127.0.0.1/32"], -1);
    assert!(e.ip_allowed(&peer(9)));
    let stranger = NetAddr { ip: IpRepr::V4(0x0a000001), port: 1 };
    assert!(!e.ip_allowed(&stranger));
}
