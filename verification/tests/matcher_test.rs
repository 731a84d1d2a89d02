use portforwarder::addr::IpRepr;
use portforwarder::address_matcher::IpAddrMatcher;

fn v4(a: u8, b: u8, c: u8, d: u8) -> IpRepr {
    IpRepr::V4(u32::from_be_bytes([a, b, c, d]))
}

#[test]
fn empty_list_allows_everyone() {
    let m = IpAddrMatcher::from(&vec![]);
    assert!(m.testipaddr(&v4(8, 8, 8, 8)));
    assert!(m.testipaddr(&IpRepr::V6(1)));
}

#[test]
fn single_host_network() {
    let m = IpAddrMatcher::from(&vec!["127.0.0.1/32".to_string()]);
    assert!(m.testipaddr(&v4(127, 0, 0, 1)));
    assert!(!m.testipaddr(&v4(127, 0, 0, 2)));
}

#[test]
fn prefix_network() {
    let m = IpAddrMatcher::from(&vec!["10.1.0.0/16".to_string()]);
    assert!(m.testipaddr(&v4(10, 1, 200, 7)));
    assert!(!m.testipaddr(&v4(10, 2, 0, 1)));
}

#[test]
fn families_do_not_mix() {
    let m = IpAddrMatcher::from(&vec!["0.0.0.0/0".to_string()]);
    assert!(m.testipaddr(&v4(1, 2, 3, 4)));
    assert!(!m.testipaddr(&IpRepr::V6(0x20010db8_0000_0000_0000_0000_0000_0001)));
}

#[test]
fn ipv6_network() {
    let m = IpAddrMatcher::from(&vec!["::1/128".to_string()]);
    assert!(m.testipaddr(&IpRepr::V6(1)));
    assert!(!m.testipaddr(&IpRepr::V6(2)));
}

#[test]
fn malformed_entries_are_dropped() {
    let m = IpAddrMatcher::from(&vec!["not-a-cidr".to_string()]);
    // with every entry dropped the list is empty, which allows everyone
    assert!(m.testipaddr(&v4(9, 9, 9, 9)));
}

#[test]
fn testaddr_parses_bare_addresses() {
    let m = IpAddrMatcher::from(&vec!["127.0.0.1/32".to_string()]);
    assert!(m.testaddr("127.0.0.1"));
    assert!(!m.testaddr("127.0.0.2"));
    assert!(!m.testaddr("junk"));
}
