//! The immutable per-forwarder configuration the engines are built from.
use vstd::prelude::*;

verus! {

/// One forwarder's configuration: the local address to listen on, the
/// ordered pattern-to-remote map, the source allow list, which protocols to
/// serve, the per-flow buffer bound, and the flow cap (negative means
/// unlimited).
#[derive(Clone)]
pub struct ForwardSessionConfig {
    pub local: String,
    pub remoteMap: Vec<(String, String)>,
    pub allow_nets: Vec<String>,
    pub enable_tcp: bool,
    pub enable_udp: bool,
    pub conn_bufsize: usize,
    pub max_connections: i64,
}

impl ForwardSessionConfig {
    /// A usable configuration serves at least one protocol and asks for a
    /// buffer bound the engines can hold.
    pub open spec fn spec_valid(&self) -> bool {
        &&& self.enable_tcp || self.enable_udp
        &&& 1 <= self.conn_bufsize <= usize::MAX - crate::tcp_engine::MAX_SINGLE_READ
    }

    /// Checks `spec_valid`.
    pub fn validate(&self) -> (r: bool)
        ensures
            r == self.spec_valid(),
    {
        (self.enable_tcp || self.enable_udp) && 1 <= self.conn_bufsize && self.conn_bufsize
            <= usize::MAX - crate::tcp_engine::MAX_SINGLE_READ
    }
}

} // verus!
