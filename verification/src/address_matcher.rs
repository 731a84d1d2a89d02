//! Per-source access control: does a peer address fall inside any of a list
//! of CIDR networks? An empty list allows everyone.
use vstd::prelude::*;
use vstd::string::StringExecFns;
use crate::addr::IpRepr;

verus! {

/// A CIDR network as plain values: address bits and prefix length.
#[derive(Clone, Copy, PartialEq, Eq, Structural, Debug)]
pub enum IpNetRepr {
    V4 { addr: u32, prefix: u8 },
    V6 { addr: u128, prefix: u8 },
}

/// What `ipnet::Ipv4Net::from_str` yields on a string: the (non-truncated)
/// address bits and the prefix length, or nothing when the text is not a
/// valid IPv4 CIDR.
pub uninterp spec fn ipv4_net_of(s: Seq<char>) -> Option<(u32, u8)>;

/// What `ipnet::Ipv6Net::from_str` yields on a string.
pub uninterp spec fn ipv6_net_of(s: Seq<char>) -> Option<(u128, u8)>;

/// Relies on `ipnet::Ipv4Net::from_str`, `Ipv4Net::addr` and
/// `Ipv4Net::prefix_len`: parses `a.b.c.d/len` text; `Ipv4Net::new` rejects
/// prefix lengths above 32, so a parsed prefix is at most 32.
#[verifier::external_body]
fn parse_ipv4_net(s: &str) -> (r: Option<(u32, u8)>)
    ensures
        r == ipv4_net_of(s@),
        r matches Some(v) ==> v.1 <= 32,
{
    match <ipnet::Ipv4Net as core::str::FromStr>::from_str(s) {
        Ok(n) => Some((u32::from(n.addr()), n.prefix_len())),
        Err(_) => None,
    }
}

/// Relies on `ipnet::Ipv6Net::from_str`, `Ipv6Net::addr` and
/// `Ipv6Net::prefix_len`: parses IPv6 CIDR text; `Ipv6Net::new` rejects
/// prefix lengths above 128.
#[verifier::external_body]
fn parse_ipv6_net(s: &str) -> (r: Option<(u128, u8)>)
    ensures
        r == ipv6_net_of(s@),
        r matches Some(v) ==> v.1 <= 128,
{
    match <ipnet::Ipv6Net as core::str::FromStr>::from_str(s) {
        Ok(n) => Some((u128::from(n.addr()), n.prefix_len())),
        Err(_) => None,
    }
}

/// The netmask of an IPv4 prefix: the high `prefix` bits set.
pub open spec fn mask_v4(prefix: u8) -> u32
    recommends
        prefix <= 32,
{
    if prefix == 0 {
        0
    } else if prefix >= 32 {
        0xffff_ffffu32
    } else {
        (0xffff_ffffu32 << ((32 - prefix) as u32)) as u32
    }
}

/// The netmask of an IPv6 prefix.
pub open spec fn mask_v6(prefix: u8) -> u128
    recommends
        prefix <= 128,
{
    if prefix == 0 {
        0
    } else if prefix >= 128 {
        0xffff_ffff_ffff_ffff_ffff_ffff_ffff_ffffu128
    } else {
        (0xffff_ffff_ffff_ffff_ffff_ffff_ffff_ffffu128 << ((128 - prefix) as u128)) as u128
    }
}

/// CIDR containment: the address agrees with the network on the masked bits.
/// Families never mix.
pub open spec fn net_contains(n: IpNetRepr, ip: IpRepr) -> bool {
    match (n, ip) {
        (IpNetRepr::V4 { addr, prefix }, IpRepr::V4(x)) => (x & mask_v4(prefix)) == (addr
            & mask_v4(prefix)),
        (IpNetRepr::V6 { addr, prefix }, IpRepr::V6(x)) => (x & mask_v6(prefix)) == (addr
            & mask_v6(prefix)),
        _ => false,
    }
}

/// The networks parsed from a list of CIDR strings: for each entry, the
/// IPv4 parse and then the IPv6 parse, keeping whichever succeed.
pub open spec fn nets_of(addrs: Seq<Seq<char>>) -> Seq<IpNetRepr>
    decreases addrs.len(),
{
    if addrs.len() == 0 {
        Seq::empty()
    } else {
        nets_of(addrs.drop_last()) + net_reprs_of(addrs.last())
    }
}

/// The zero, one or two networks that one CIDR string contributes.
pub open spec fn net_reprs_of(s: Seq<char>) -> Seq<IpNetRepr> {
    (match ipv4_net_of(s) {
        Some(v) => seq![IpNetRepr::V4 { addr: v.0, prefix: v.1 }],
        None => Seq::empty(),
    }) + (match ipv6_net_of(s) {
        Some(v) => seq![IpNetRepr::V6 { addr: v.0, prefix: v.1 }],
        None => Seq::empty(),
    })
}

/// The matcher allows `ip` when its network list is empty, or when some
/// network of the matching family contains `ip`.
pub open spec fn allows(nets: Seq<IpNetRepr>, ip: IpRepr) -> bool {
    nets.len() == 0 || exists|k: int| 0 <= k < nets.len() && net_contains(#[trigger] nets[k], ip)
}

/// Decides whether a peer IP lies inside any of a list of CIDR networks.
/// Built from textual CIDRs; entries that parse as neither IPv4 nor IPv6
/// CIDR are dropped silently.
#[derive(Clone)]
pub struct IpAddrMatcher {
    nets: Vec<IpNetRepr>,
}

impl IpAddrMatcher {
    /// The networks the matcher holds.
    pub closed spec fn view(&self) -> Seq<IpNetRepr> {
        self.nets@
    }

    /// Builds a matcher from textual CIDRs, dropping entries that parse as
    /// neither an IPv4 nor an IPv6 network.
    pub fn from(addr_vec: &Vec<String>) -> (r: IpAddrMatcher)
        ensures
            r@ == nets_of(addr_vec@.map_values(|s: String| s@)),
    {
        let ghost strs = addr_vec@.map_values(|s: String| s@);
        let mut nets: Vec<IpNetRepr> = Vec::new();
        let mut i: usize = 0;
        while i < addr_vec.len()
            invariant
                0 <= i <= addr_vec@.len(),
                strs == addr_vec@.map_values(|s: String| s@),
                nets@ == nets_of(strs.take(i as int)),
            decreases addr_vec@.len() - i,
        {
            let s = &addr_vec[i];
            if let Some(v) = parse_ipv4_net(s.as_str()) {
                nets.push(IpNetRepr::V4 { addr: v.0, prefix: v.1 });
            }
            if let Some(v) = parse_ipv6_net(s.as_str()) {
                nets.push(IpNetRepr::V6 { addr: v.0, prefix: v.1 });
            }
            proof {
                assert(strs.take(i + 1).drop_last() =~= strs.take(i as int));
                assert(strs.take(i + 1).last() == s@);
                assert(nets@ =~= nets_of(strs.take(i + 1)));
            }
            i = i + 1;
        }
        proof {
            assert(strs.take(strs.len() as int) =~= strs);
        }
        IpAddrMatcher { nets }
    }

    /// True when the peer IP is allowed: always with an empty list,
    /// otherwise exactly when some listed network contains it.
    pub fn testipaddr(&self, ipaddr: &IpRepr) -> (r: bool)
        ensures
            r == allows(self@, *ipaddr),
    {
        if self.nets.len() == 0 {
            return true;
        }
        let mut k: usize = 0;
        while k < self.nets.len()
            invariant
                0 <= k <= self.nets@.len(),
                forall|m: int| 0 <= m < k ==> !net_contains(#[trigger] self.nets@[m], *ipaddr),
            decreases self.nets@.len() - k,
        {
            if net_contains_exec(&self.nets[k], ipaddr) {
                return true;
            }
            k = k + 1;
        }
        false
    }

    /// Parses a bare IP address (first as IPv4, then as IPv6) and tests it;
    /// unparseable text is not allowed. A bare address `a` is a valid IPv4
    /// (IPv6) address exactly when `a/32` (`a/128`) is a valid CIDR.
    pub fn testaddr(&self, addr: &str) -> (r: bool)
        ensures
            r == spec_testaddr(self@, addr@),
    {
        let mut s4 = String::from_str(addr);
        s4.append("/32");
        if let Some(v) = parse_ipv4_net(s4.as_str()) {
            return self.testipaddr(&IpRepr::V4(v.0));
        }
        let mut s6 = String::from_str(addr);
        s6.append("/128");
        if let Some(v) = parse_ipv6_net(s6.as_str()) {
            return self.testipaddr(&IpRepr::V6(v.0));
        }
        false
    }
}

/// What `testaddr` decides: parse the bare address, then ask `allows`.
pub open spec fn spec_testaddr(nets: Seq<IpNetRepr>, s: Seq<char>) -> bool {
    match ipv4_net_of(s + "/32"@) {
        Some(v) => allows(nets, IpRepr::V4(v.0)),
        None => match ipv6_net_of(s + "/128"@) {
            Some(v) => allows(nets, IpRepr::V6(v.0)),
            None => false,
        },
    }
}

/// The access-control law: with an empty allow list no peer is rejected on
/// address grounds; with a non-empty list a peer is allowed exactly when
/// its IP lies in at least one listed network.
pub proof fn lemma_access_control(nets: Seq<IpNetRepr>, ip: IpRepr)
    ensures
        nets.len() == 0 ==> allows(nets, ip),
        nets.len() > 0 ==> (allows(nets, ip) <==> exists|k: int| 0 <= k < nets.len()
            && net_contains(#[trigger] nets[k], ip)),
{
}

/// Executable counterpart of `net_contains`.
fn net_contains_exec(n: &IpNetRepr, ip: &IpRepr) -> (r: bool)
    ensures
        r == net_contains(*n, *ip),
{
    match (n, ip) {
        (IpNetRepr::V4 { addr, prefix }, IpRepr::V4(x)) => {
            let m: u32 = if *prefix == 0 {
                0
            } else if *prefix >= 32 {
                0xffff_ffffu32
            } else {
                0xffff_ffffu32 << ((32 - *prefix) as u32)
            };
            (*x & m) == (*addr & m)
        },
        (IpNetRepr::V6 { addr, prefix }, IpRepr::V6(x)) => {
            let m: u128 = if *prefix == 0 {
                0
            } else if *prefix >= 128 {
                0xffff_ffff_ffff_ffff_ffff_ffff_ffff_ffffu128
            } else {
                0xffff_ffff_ffff_ffff_ffff_ffff_ffff_ffffu128 << ((128 - *prefix) as u128)
            };
            (*x & m) == (*addr & m)
        },
        _ => false,
    }
}

} // verus!
