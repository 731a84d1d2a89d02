use portforwarder::addr::{IpRepr, NetAddr};
use portforwarder::connection_plugin::{ConnectionPlugin, PluginError, RegexMultiplexer};

fn addr(port: u16) -> NetAddr {
    NetAddr { ip: IpRepr::V4(0x7f000001), port }
}

fn peer() -> NetAddr {
    NetAddr { ip: IpRepr::V4(0x7f000001), port: 55555 }
}

fn plugin(rules: Vec<(&str, u16)>, allow: Vec<&str>) -> RegexMultiplexer {
    let remote_map: Vec<(String, NetAddr)> = rules
        .into_iter()
        .map(|(p, port)| (p.to_string(), addr(port)))
        .collect();
    let allow_nets: Vec<String> = allow.into_iter().map(|s| s.to_string()).collect();
    RegexMultiplexer::from(&remote_map, &allow_nets).expect("plugin construction")
}

#[test]
fn single_catch_all_enables_fast_path() {
    let p = plugin(vec![(".*", 9000)], vec![]);
    assert_eq!(p.onlySingleTarget(), Some(addr(9000)));
    let p2 = plugin(vec![("[ssh]", 22), (".*", 9000)], vec![]);
    assert_eq!(p2.onlySingleTarget(), None);
}

#[test]
fn ssh_traffic_routes_by_first_rule() {
    // first bytes decide: an SSH banner goes to A, anything else to B
    let p = plugin(vec![("[ssh]", 22), (".*", 9000)], vec![]);
    assert_eq!(p.decideTarget(b"SSH-2.0-OpenSSH_9\r\n", peer()), Some(addr(22)));
    assert_eq!(p.decideTarget(b"hello", peer()), Some(addr(9000)));
}

#[test]
fn http_request_line_matches() {
    let p = plugin(vec![("[http]", 80)], vec![]);
    assert_eq!(p.decideTarget(b"GET /index.html HTTP/1.1\r\n", peer()), Some(addr(80)));
    assert_eq!(p.decideTarget(b"SSH-2.0-x\r\n", peer()), None);
}

#[test]
fn http_host_pattern_requires_host() {
    let p = plugin(vec![("[http:example.com]", 80)], vec![]);
    assert_eq!(
        p.decideTarget(b"GET / HTTP/1.1\r\nHost: example.com\r\n", peer()),
        Some(addr(80))
    );
    assert_eq!(p.decideTarget(b"GET / HTTP/1.1\r\nHost: other.net\r\n", peer()), None);
}

#[test]
fn https_host_needs_tls_prefix_and_host() {
    let p = plugin(vec![("[https:example.com]", 443)], vec![]);
    let mut hello = vec![0x16u8, 0x03, 0x01, 0x00, 0x80];
    hello.extend_from_slice(b"....example.com....");
    assert_eq!(p.decideTarget(&hello, peer()), Some(addr(443)));
    // right prefix, wrong host
    let mut other = vec![0x16u8, 0x03, 0x01, 0x00, 0x80];
    other.extend_from_slice(b"....example.org....");
    assert_eq!(p.decideTarget(&other, peer()), None);
    // right host, wrong prefix
    let mut plain = vec![0x17u8, 0x03, 0x01];
    plain.extend_from_slice(b"example.com");
    assert_eq!(p.decideTarget(&plain, peer()), None);
}

#[test]
fn socks5_greeting() {
    let p = plugin(vec![("[socks5]", 1080)], vec![]);
    assert_eq!(p.decideTarget(&[0x05, 0x01, 0x00], peer()), Some(addr(1080)));
    assert_eq!(p.decideTarget(&[0x05, 0x02, 0x00, 0xff], peer()), Some(addr(1080)));
    // a method octet outside the known set
    assert_eq!(p.decideTarget(&[0x05, 0x01, 0x42], peer()), None);
    // count does not fill the payload
    assert_eq!(p.decideTarget(&[0x05, 0x02, 0x00], peer()), None);
    assert_eq!(p.decideTarget(&[0x04, 0x01, 0x00], peer()), None);
}

#[test]
fn rdp_connection_request() {
    let p = plugin(vec![("[rdp]", 3389)], vec![]);
    let good = [0x03u8, 0x00, 0x00, 0x0b, 0x06, 0xe0, 0x00, 0x00, 0x00, 0x00, 0x00];
    assert_eq!(p.decideTarget(&good, peer()), Some(addr(3389)));
    let mut bad_len = good;
    bad_len[3] = 0x0c;
    assert_eq!(p.decideTarget(&bad_len, peer()), None);
    let mut bad_code = good;
    bad_code[5] = 0x20;
    assert_eq!(p.decideTarget(&bad_code, peer()), None);
}

#[test]
fn regex_matches_hex_form() {
    // the pattern can only match the lowercase hex encoding of the payload,
    // never its textual form
    let p = plugin(vec![("^16030100", 443)], vec![]);
    assert_eq!(p.decideTarget(&[0x16, 0x03, 0x01, 0x00], peer()), Some(addr(443)));
    assert_eq!(p.decideTarget(&[0x17, 0x03, 0x01, 0x00], peer()), None);
}

#[test]
fn regex_matches_lossy_text_form() {
    // invalid UTF-8 is replaced before matching, so the replacement
    // character is matchable
    let p = plugin(vec![("abc\u{fffd}", 9000)], vec![]);
    assert_eq!(p.decideTarget(&[b'a', b'b', b'c', 0xff], peer()), Some(addr(9000)));
    assert_eq!(p.decideTarget(b"abcd", peer()), None);
}

#[test]
fn bad_regex_is_a_construction_error() {
    let remote_map = vec![("(".to_string(), addr(1))];
    let r = RegexMultiplexer::from(&remote_map, &vec![]);
    assert_eq!(r.err(), Some(PluginError::InvalidPattern));
}

#[test]
fn plugin_access_control_delegates() {
    let p = plugin(vec![(".*", 9000)], vec!["127.0.0.1/32"]);
    assert!(p.testipaddr(&peer()));
    let stranger = NetAddr { ip: IpRepr::V4(0x7f000002), port: 1 };
    assert!(!p.testipaddr(&stranger));
}

#[test]
fn transform_is_a_no_op() {
    let mut p = plugin(vec![(".*", 9000)], vec![]);
    assert_eq!(p.transform(b"payload"), None);
}
