//! Plain representations of IP addresses and socket addresses, so that the
//! forwarding logic can reason about peers and targets as integers.
use vstd::prelude::*;

verus! {

/// An IP address: the raw bits of an IPv4 or IPv6 address.
#[derive(Clone, Copy, PartialEq, Eq, Structural, Debug, Hash)]
pub enum IpRepr {
    V4(u32),
    V6(u128),
}

/// A socket address: an IP address and a port.
#[derive(Clone, Copy, PartialEq, Eq, Structural, Debug, Hash)]
pub struct NetAddr {
    pub ip: IpRepr,
    pub port: u16,
}

impl IpRepr {
    /// True for IPv4 addresses.
    pub fn is_v4(&self) -> (r: bool)
        ensures
            r == (self is V4),
    {
        match self {
            IpRepr::V4(_) => true,
            IpRepr::V6(_) => false,
        }
    }
}

} // verus!
