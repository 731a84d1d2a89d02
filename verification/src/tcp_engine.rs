//! The TCP forwarding engine's state and decisions: token allocation, flow
//! records, bounded pending buffers with backpressure, and the half-close
//! state machine. The engine decides; its driver performs the socket work
//! and reports what happened (bytes read, bytes written, EOF, errors).
//!
//! Each flow owns an even base token `t` for the accepted client stream and
//! `t + 1` for the upstream stream. `pending` buffers of a side hold bytes
//! awaiting write to that side's socket; reading from one side feeds the
//! other side's queue.
use vstd::prelude::*;
use std::collections::HashMap;
use crate::addr::NetAddr;
use crate::connection_plugin::{ConnectionPlugin, RegexMultiplexer};

verus! {

broadcast use vstd::std_specs::hash::group_hash_axioms;

/// The largest single read the driver may hand in: the 64 KiB read buffer.
pub const MAX_SINGLE_READ: usize = 65536;

/// The concatenation of a sequence of byte buffers.
pub open spec fn concat_bufs(bufs: Seq<Seq<u8>>) -> Seq<u8>
    decreases bufs.len(),
{
    if bufs.len() == 0 {
        Seq::empty()
    } else {
        concat_bufs(bufs.drop_last()) + bufs.last()
    }
}

/// The byte sequences a pending queue holds.
pub open spec fn bufs_view(pending: Seq<Vec<u8>>) -> Seq<Seq<u8>> {
    pending.map_values(|b: Vec<u8>| b@)
}

/// The even token a flow is keyed by.
pub open spec fn base_of(t: u64) -> u64 {
    if t % 2 == 0 {
        t
    } else {
        (t - 1) as u64
    }
}

/// The other token of a pair.
pub open spec fn pair_of(t: u64) -> u64 {
    if t % 2 == 0 {
        (t + 1) as u64
    } else {
        (t - 1) as u64
    }
}

proof fn lemma_concat_first(bufs: Seq<Seq<u8>>)
    requires
        bufs.len() > 0,
    ensures
        concat_bufs(bufs) == bufs.first() + concat_bufs(bufs.drop_first()),
    decreases bufs.len(),
{
    if bufs.len() == 1 {
        assert(bufs.drop_last() =~= Seq::empty());
        assert(bufs.drop_first() =~= Seq::empty());
        assert(concat_bufs(bufs) == concat_bufs(bufs.drop_last()) + bufs.last());
        assert(concat_bufs(bufs) =~= bufs.first() + concat_bufs(bufs.drop_first()));
    } else {
        let inner = bufs.drop_last();
        lemma_concat_first(inner);
        assert(inner.first() == bufs.first());
        assert(inner.drop_first() =~= bufs.drop_first().drop_last());
        assert(concat_bufs(bufs.drop_first()) == concat_bufs(bufs.drop_first().drop_last())
            + bufs.drop_first().last());
        assert(bufs.drop_first().last() == bufs.last());
        assert(concat_bufs(bufs) =~= bufs.first() + concat_bufs(bufs.drop_first()));
    }
}

/// One socket side of a flow: its pending write queue, registered interest,
/// half-close flags, and (ghost) byte history.
pub struct SideState {
    /// Buffers awaiting write to this side's socket, oldest first.
    pub pending: Vec<Vec<u8>>,
    /// Total bytes in `pending`.
    pub pending_bytes: usize,
    /// Registered readable interest.
    pub readable: bool,
    /// Registered writable interest.
    pub writable: bool,
    /// The opposite socket saw EOF; half-close this side once drained.
    pub want_shutdown: bool,
    /// This side's write direction has been shut down.
    pub already_shutdown: bool,
    /// All bytes ever read from this side's socket.
    pub received: Ghost<Seq<u8>>,
    /// All bytes ever written to this side's socket.
    pub written: Ghost<Seq<u8>>,
}

/// One TCP flow: the accepted client stream (token `t`) and its upstream
/// stream (token `t + 1`), which the slow path creates only on first data.
pub struct Flow {
    pub peer: NetAddr,
    pub has_upstream: bool,
    pub client: SideState,
    pub upstream: SideState,
}

pub open spec fn side_of(f: Flow, t: u64) -> SideState {
    if t % 2 == 0 {
        f.client
    } else {
        f.upstream
    }
}

pub open spec fn other_side_of(f: Flow, t: u64) -> SideState {
    if t % 2 == 0 {
        f.upstream
    } else {
        f.client
    }
}

/// A side's local well-formedness: the byte count matches the queue, and
/// writable interest is registered exactly while something is pending.
pub open spec fn side_wf(s: SideState) -> bool {
    &&& s.pending_bytes == concat_bufs(bufs_view(s.pending@)).len()
    &&& (s.pending@.len() == 0) <==> !s.writable
}

/// A side that has seen no traffic and holds no registration.
pub open spec fn side_pristine(s: SideState) -> bool {
    &&& s.pending@.len() == 0
    &&& s.pending_bytes == 0
    &&& !s.readable
    &&& !s.writable
    &&& !s.want_shutdown
    &&& !s.already_shutdown
    &&& s.received@ == Seq::<u8>::empty()
    &&& s.written@ == Seq::<u8>::empty()
}

/// A flow's invariant.
///
/// - Byte streams are preserved: what one side received equals what the
///   other was sent plus what still waits in its queue.
/// - Backpressure is exact: a side is registered readable exactly while the
///   opposite queue is below `cache`.
/// - Before the upstream exists, only the client side is registered, and
///   nothing is buffered.
pub open spec fn flow_wf(f: Flow, cache: int) -> bool {
    &&& side_wf(f.client)
    &&& side_wf(f.upstream)
    &&& f.client.received@ == f.upstream.written@ + concat_bufs(bufs_view(f.upstream.pending@))
    &&& f.upstream.received@ == f.client.written@ + concat_bufs(bufs_view(f.client.pending@))
    &&& f.client.readable <==> f.upstream.pending_bytes < cache
    &&& f.has_upstream ==> (f.upstream.readable <==> f.client.pending_bytes < cache)
    &&& !f.has_upstream ==> {
        &&& side_pristine(f.upstream)
        &&& f.client.pending@.len() == 0
        &&& !f.client.writable
        &&& !f.client.want_shutdown
        &&& !f.client.already_shutdown
    }
    &&& f.client.pending_bytes <= cache + MAX_SINGLE_READ
    &&& f.upstream.pending_bytes <= cache + MAX_SINGLE_READ
}

/// What the engine tells its driver to do with a newly accepted stream.
#[derive(Clone, Copy, PartialEq, Eq, Structural, Debug)]
pub enum AcceptDecision {
    /// Too many flows: close the new socket.
    RejectQuota,
    /// The peer's address is not allowed: shut the socket both ways.
    RejectAddr,
    /// A single catch-all rule: connect the upstream eagerly.
    FastConnect(NetAddr),
    /// Register the client readable; the upstream waits for first data.
    SlowRegister,
}

/// What the driver must do after an EOF on token `t`.
#[derive(Clone, Copy, PartialEq, Eq, Structural, Debug)]
pub enum EofOutcome {
    /// The flow is gone: deregister and drop both sockets.
    RemoveFlow,
    /// Shut down the peer socket's write direction; the flow is gone.
    ShutdownPeerRemove,
    /// Shut down the peer socket's write direction; the flow lives on.
    ShutdownPeer,
    /// The peer still has pending data; it will be half-closed after its
    /// queue drains.
    Deferred,
}

/// What the driver must do after writing `n` bytes to token `t`.
#[derive(Clone, Copy, PartialEq, Eq, Structural, Debug)]
pub enum WriteOutcome {
    /// A short write: the tail went back to the head of the queue; stop
    /// draining.
    ShortWrite,
    /// A full buffer went out and more are pending: keep draining.
    Progress,
    /// The queue drained; writable interest was dropped.
    Drained,
    /// The queue drained and this side owed a half-close: shut down this
    /// socket's write direction.
    ShutdownSelf,
    /// As `ShutdownSelf`, but the other side was already half-closed: the
    /// flow is gone; shut down and drop both sockets.
    ShutdownRemove,
}

/// The readiness-driven TCP relay's state: per-token flow records, the
/// token counter, the buffer bound and the flow cap.
pub struct TcpEngine {
    plugin: RegexMultiplexer,
    cache_size: usize,
    max_connections: Option<u64>,
    next_token: u64,
    flows: HashMap<u64, Flow>,
}

impl TcpEngine {
    pub closed spec fn spec_flows(&self) -> Map<u64, Flow> {
        self.flows@
    }

    pub closed spec fn spec_cache_size(&self) -> usize {
        self.cache_size
    }

    pub closed spec fn spec_max_connections(&self) -> Option<u64> {
        self.max_connections
    }

    pub closed spec fn spec_next_token(&self) -> u64 {
        self.next_token
    }

    pub closed spec fn spec_plugin(&self) -> RegexMultiplexer {
        self.plugin
    }

    /// A token belongs to a live flow.
    pub open spec fn spec_live(&self, t: u64) -> bool {
        self.spec_flows().contains_key(base_of(t))
    }

    /// The engine invariant: all flows well formed, keyed by even tokens
    /// below the counter, within the configured cap.
    pub closed spec fn wf(&self) -> bool {
        &&& 1 <= self.cache_size <= usize::MAX - MAX_SINGLE_READ
        &&& self.next_token % 2 == 0
        &&& self.next_token >= 2
        &&& forall|t: u64| self.flows@.contains_key(t) ==> #[trigger] (t % 2) == 0
        &&& forall|t: u64| self.flows@.contains_key(t) ==> 2 <= t < self.next_token
        &&& forall|t: u64| self.flows@.contains_key(t) ==> flow_wf(
            #[trigger] self.flows@[t],
            self.cache_size as int,
        )
        &&& self.max_connections matches Some(mx) ==> self.flows@.len() <= mx
    }

    /// The flow record invariant, as seen by callers.
    pub proof fn lemma_wf_flow(&self, t: u64)
        requires
            self.wf(),
            self.spec_flows().contains_key(t),
        ensures
            t % 2 == 0,
            flow_wf(self.spec_flows()[t], self.spec_cache_size() as int),
    {
    }

    /// Builds an engine. `max_connections` below zero means unlimited, as
    /// in the configuration record.
    pub fn new(plugin: RegexMultiplexer, cache_size: usize, max_connections: i64) -> (r:
        TcpEngine)
        requires
            1 <= cache_size <= usize::MAX - MAX_SINGLE_READ,
        ensures
            r.wf(),
            r.spec_flows() == Map::<u64, Flow>::empty(),
            r.spec_cache_size() == cache_size,
            r.spec_max_connections() == (if max_connections >= 0 {
                Some(max_connections as u64)
            } else {
                None::<u64>
            }),
            r.spec_plugin() == plugin,
            r.spec_next_token() == 2u64,
    {
        let max = if max_connections >= 0 {
            Some(max_connections as u64)
        } else {
            None
        };
        TcpEngine {
            plugin,
            cache_size,
            max_connections: max,
            next_token: 2,
            flows: HashMap::new(),
        }
    }

    /// The poller's event capacity: the flow cap bounded by 1024.
    pub fn events_capacity(&self) -> (r: usize)
        ensures
            r == (match self.spec_max_connections() {
                Some(mx) => if mx < 1024 {
                    mx as usize
                } else {
                    1024usize
                },
                None => 1024usize,
            }),
    {
        match self.max_connections {
            Some(mx) => if mx < 1024 {
                mx as usize
            } else {
                1024
            },
            None => 1024,
        }
    }

    /// How many flows are live.
    pub fn flow_count(&self) -> (r: usize)
        ensures
            r == self.spec_flows().len(),
    {
        self.flows.len()
    }

    /// Whether token `t` belongs to a live flow.
    pub fn is_live(&self, t: u64) -> (r: bool)
        ensures
            r == self.spec_live(t),
    {
        let b = if t % 2 == 0 {
            t
        } else {
            t - 1
        };
        self.flows.contains_key(&b)
    }

    /// The registered interest of token `t`: `(readable, writable)`. A dead
    /// token has no interest.
    pub fn interest_of(&self, t: u64) -> (r: (bool, bool))
        ensures
            self.spec_live(t) ==> r == (
                side_of(self.spec_flows()[base_of(t)], t).readable,
                side_of(self.spec_flows()[base_of(t)], t).writable,
            ),
            !self.spec_live(t) ==> r == (false, false),
    {
        let b = if t % 2 == 0 {
            t
        } else {
            t - 1
        };
        match self.flows.get(&b) {
            Some(f) => {
                if t % 2 == 0 {
                    (f.client.readable, f.client.writable)
                } else {
                    (f.upstream.readable, f.upstream.writable)
                }
            },
            None => (false, false),
        }
    }

    /// What to do with a newly accepted connection from `peer`: enforce the
    /// flow cap, then access control, then pick the fast or the slow path.
    pub fn accept_decision(&self, peer: &NetAddr) -> (d: AcceptDecision)
        ensures
            d == self.spec_accept_decision(*peer),
    {
        let over_quota = match self.max_connections {
            Some(mx) => (self.flows.len() as u64) >= mx,
            None => false,
        };
        if over_quota {
            return AcceptDecision::RejectQuota;
        }
        if !self.plugin.testipaddr(peer) {
            return AcceptDecision::RejectAddr;
        }
        match self.plugin.onlySingleTarget() {
            Some(target) => AcceptDecision::FastConnect(target),
            None => AcceptDecision::SlowRegister,
        }
    }

    pub open spec fn spec_accept_decision(&self, peer: NetAddr) -> AcceptDecision {
        if self.spec_max_connections() matches Some(mx) && self.spec_flows().len() >= mx {
            AcceptDecision::RejectQuota
        } else if !self.spec_plugin().spec_ip_allowed(peer.ip) {
            AcceptDecision::RejectAddr
        } else {
            match self.spec_plugin().spec_only_single_target() {
                Some(target) => AcceptDecision::FastConnect(target),
                None => AcceptDecision::SlowRegister,
            }
        }
    }

    /// The upstream for a flow whose first payload is `buf`: the plugin's
    /// first matching rule.
    pub fn decide_target_for(&self, t: u64, buf: &[u8]) -> (r: Option<NetAddr>)
        requires
            self.wf(),
            self.spec_live(t),
        ensures
            r == self.spec_plugin().spec_decide_target(buf@),
    {
        let b = if t % 2 == 0 {
            t
        } else {
            t - 1
        };
        let peer = match self.flows.get(&b) {
            Some(f) => f.peer,
            None => {
                proof {
                    assert(false);
                }
                NetAddr { ip: crate::addr::IpRepr::V4(0), port: 0 }
            },
        };
        self.plugin.decideTarget(buf, peer)
    }

    /// Installs a flow for an accepted stream: allocates the even/odd token
    /// pair and registers the client readable; with `with_upstream` (the
    /// fast path) the upstream is registered readable too. Returns `None`
    /// when the flow cap or the token space is exhausted.
    pub fn install_flow(&mut self, peer: NetAddr, with_upstream: bool) -> (r: Option<u64>)
        requires
            old(self).wf(),
        ensures
            final(self).wf(),
            final(self).spec_cache_size() == old(self).spec_cache_size(),
            final(self).spec_max_connections() == old(self).spec_max_connections(),
            final(self).spec_plugin() == old(self).spec_plugin(),
            r is None ==> *final(self) == *old(self),
            r is None <==> (old(self).spec_max_connections() matches Some(mx) && old(self).spec_flows().len() >= mx) || old(self).spec_next_token() > u64::MAX - 2,
            r matches Some(t) ==> {
                &&& t == old(self).spec_next_token()
                &&& t % 2 == 0
                &&& final(self).spec_next_token() == t + 2
                &&& !old(self).spec_flows().contains_key(t)
                &&& final(self).spec_flows().contains_key(t)
                &&& final(self).spec_flows().remove(t) == old(self).spec_flows()
                &&& is_fresh_flow(final(self).spec_flows()[t], peer, with_upstream)
                &&& final(self).spec_flows().len() == old(self).spec_flows().len() + 1
            },
    {
        let over_quota = match self.max_connections {
            Some(mx) => (self.flows.len() as u64) >= mx,
            None => false,
        };
        if over_quota || self.next_token > u64::MAX - 2 {
            return None;
        }
        let t = self.next_token;
        let flow = Flow {
            peer,
            has_upstream: with_upstream,
            client: SideState {
                pending: Vec::new(),
                pending_bytes: 0,
                readable: true,
                writable: false,
                want_shutdown: false,
                already_shutdown: false,
                received: Ghost(Seq::empty()),
                written: Ghost(Seq::empty()),
            },
            upstream: SideState {
                pending: Vec::new(),
                pending_bytes: 0,
                readable: with_upstream,
                writable: false,
                want_shutdown: false,
                already_shutdown: false,
                received: Ghost(Seq::empty()),
                written: Ghost(Seq::empty()),
            },
        };
        proof {
            assert(!self.flows@.contains_key(t));
            assert(bufs_view(flow.client.pending@) =~= Seq::<Seq<u8>>::empty());
            assert(flow_wf(flow, self.cache_size as int));
            vstd::set::axiom_set_insert_len(self.flows@.dom(), t);
        }
        self.flows.insert(t, flow);
        self.next_token = t + 2;
        proof {
            assert(self.flows@.dom() =~= old(self).flows@.dom().insert(t));
            assert(self.flows@.remove(t) =~= old(self).flows@);
            assert forall|k: u64| self.flows@.contains_key(k) implies flow_wf(
                #[trigger] self.flows@[k],
                self.cache_size as int,
            ) by {
                if k != t {
                    assert(old(self).flows@.contains_key(k));
                }
            }
        }
        Some(t)
    }

    /// Attaches a just-connected upstream to a slow-path flow and registers
    /// it readable.
    pub fn attach_upstream(&mut self, t: u64)
        requires
            old(self).wf(),
            old(self).spec_live(t),
            !old(self).spec_flows()[base_of(t)].has_upstream,
        ensures
            final(self).wf(),
            final(self).spec_cache_size() == old(self).spec_cache_size(),
            final(self).spec_max_connections() == old(self).spec_max_connections(),
            final(self).spec_plugin() == old(self).spec_plugin(),
            final(self).spec_next_token() == old(self).spec_next_token(),
            final(self).spec_flows().dom() == old(self).spec_flows().dom(),
            forall|k: u64| final(self).spec_flows().contains_key(k) && k != base_of(t)
                ==> #[trigger] final(self).spec_flows()[k] == old(self).spec_flows()[k],
            ({
                let f = final(self).spec_flows()[base_of(t)];
                let g = old(self).spec_flows()[base_of(t)];
                &&& f.has_upstream
                &&& f.upstream.readable
                &&& f.peer == g.peer
                &&& f.client == g.client
                &&& f.upstream.pending == g.upstream.pending
                &&& f.upstream.pending_bytes == g.upstream.pending_bytes
                &&& f.upstream.writable == g.upstream.writable
                &&& f.upstream.want_shutdown == g.upstream.want_shutdown
                &&& f.upstream.already_shutdown == g.upstream.already_shutdown
                &&& f.upstream.received == g.upstream.received
                &&& f.upstream.written == g.upstream.written
            }),
    {
        let b = if t % 2 == 0 {
            t
        } else {
            t - 1
        };
        let mut flow = match self.flows.remove(&b) {
            Some(f) => f,
            None => {
                proof {
                    assert(false);
                }
                return ;
            },
        };
        flow.has_upstream = true;
        flow.upstream.readable = true;
        proof {
            assert(flow_wf(flow, self.cache_size as int));
        }
        self.flows.insert(b, flow);
        proof {
            assert(self.flows@.dom() =~= old(self).flows@.dom());
            assert(self.flows@.len() == old(self).flows@.len()) by {
                assert(self.flows@.dom() =~= old(self).flows@.dom());
            }
            assert forall|k: u64| self.flows@.contains_key(k) implies flow_wf(
                #[trigger] self.flows@[k],
                self.cache_size as int,
            ) by {
                if k != b {
                    assert(old(self).flows@.contains_key(k));
                }
            }
        }
    }

    /// Removes a flow and both its tokens; removing a dead token is a
    /// no-op. The driver deregisters and drops the sockets.
    pub fn remove_flow(&mut self, t: u64) -> (r: bool)
        requires
            old(self).wf(),
        ensures
            final(self).wf(),
            final(self).spec_cache_size() == old(self).spec_cache_size(),
            final(self).spec_max_connections() == old(self).spec_max_connections(),
            final(self).spec_plugin() == old(self).spec_plugin(),
            final(self).spec_next_token() == old(self).spec_next_token(),
            r == old(self).spec_live(t),
            final(self).spec_flows() == old(self).spec_flows().remove(base_of(t)),
            !final(self).spec_live(t),
            !final(self).spec_live(pair_of(t)),
    {
        let b = if t % 2 == 0 {
            t
        } else {
            t - 1
        };
        let r = match self.flows.remove(&b) {
            Some(_) => true,
            None => false,
        };
        proof {
            assert(self.flows@ =~= old(self).flows@.remove(base_of(t)));
            if old(self).flows@.contains_key(b) {
                vstd::set::axiom_set_remove_len(old(self).flows@.dom(), b);
                assert(self.flows@.dom() =~= old(self).flows@.dom().remove(b));
            } else {
                assert(self.flows@ =~= old(self).flows@);
            }
            assert(base_of(pair_of(t)) == base_of(t));
        }
        r
    }
}

/// The record a fresh flow starts with: client registered readable, the
/// upstream registered only on the fast path, nothing buffered, no history.
pub open spec fn is_fresh_flow(f: Flow, peer: NetAddr, with_upstream: bool) -> bool {
    &&& f.peer == peer
    &&& f.has_upstream == with_upstream
    &&& f.client.pending@.len() == 0
    &&& f.client.pending_bytes == 0
    &&& f.client.readable
    &&& !f.client.writable
    &&& !f.client.want_shutdown
    &&& !f.client.already_shutdown
    &&& f.client.received@ == Seq::<u8>::empty()
    &&& f.client.written@ == Seq::<u8>::empty()
    &&& f.upstream.readable == with_upstream
    &&& f.upstream.pending@.len() == 0
    &&& f.upstream.pending_bytes == 0
    &&& !f.upstream.writable
    &&& !f.upstream.want_shutdown
    &&& !f.upstream.already_shutdown
    &&& f.upstream.received@ == Seq::<u8>::empty()
    &&& f.upstream.written@ == Seq::<u8>::empty()
}


impl TcpEngine {
    /// Records data read from socket `t`: the buffer joins the opposite
    /// side's queue, that side becomes writable, and `t` loses readable
    /// interest when the queue reaches the buffer bound (backpressure).
    pub fn push_data(&mut self, t: u64, data: Vec<u8>)
        requires
            old(self).wf(),
            old(self).spec_live(t),
            1 <= data@.len() <= MAX_SINGLE_READ,
            side_of(old(self).spec_flows()[base_of(t)], t).readable,
            t % 2 == 0 ==> old(self).spec_flows()[base_of(t)].has_upstream,
        ensures
            final(self).wf(),
            final(self).spec_cache_size() == old(self).spec_cache_size(),
            final(self).spec_max_connections() == old(self).spec_max_connections(),
            final(self).spec_plugin() == old(self).spec_plugin(),
            final(self).spec_next_token() == old(self).spec_next_token(),
            final(self).spec_flows().dom() == old(self).spec_flows().dom(),
            forall|k: u64| final(self).spec_flows().contains_key(k) && k != base_of(t)
                ==> #[trigger] final(self).spec_flows()[k] == old(self).spec_flows()[k],
            ({
                let f = final(self).spec_flows()[base_of(t)];
                let g = old(self).spec_flows()[base_of(t)];
                let s1 = side_of(f, t);
                let s0 = side_of(g, t);
                let p1 = other_side_of(f, t);
                let p0 = other_side_of(g, t);
                &&& bufs_view(p1.pending@) == bufs_view(p0.pending@).push(data@)
                &&& p1.pending_bytes == p0.pending_bytes + data@.len()
                &&& p1.writable
                &&& s1.received@ == s0.received@ + data@
                &&& s1.readable == (p0.pending_bytes + data@.len() < old(self).spec_cache_size())
                &&& s1.pending == s0.pending
                &&& s1.pending_bytes == s0.pending_bytes
                &&& s1.writable == s0.writable
                &&& s1.want_shutdown == s0.want_shutdown
                &&& s1.already_shutdown == s0.already_shutdown
                &&& s1.written == s0.written
                &&& p1.readable == p0.readable
                &&& p1.want_shutdown == p0.want_shutdown
                &&& p1.already_shutdown == p0.already_shutdown
                &&& p1.received == p0.received
                &&& p1.written == p0.written
                &&& f.peer == g.peer
                &&& f.has_upstream == g.has_upstream
            }),
    {
        let b = if t % 2 == 0 {
            t
        } else {
            t - 1
        };
        let mut flow = match self.flows.remove(&b) {
            Some(f) => f,
            None => {
                proof {
                    assert(false);
                }
                return ;
            },
        };
        let ghost g = flow;
        let n = data.len();
        let ghost d = data@;
        if t % 2 == 0 {
            proof {
                assert(flow.has_upstream);
                assert(flow.upstream.pending_bytes < self.cache_size);
            }
            flow.client.received = Ghost(flow.client.received@ + data@);
            flow.upstream.pending_bytes = flow.upstream.pending_bytes + n;
            flow.upstream.pending.push(data);
            flow.upstream.writable = true;
            flow.client.readable = flow.upstream.pending_bytes < self.cache_size;
            proof {
                lemma_push_preserves(g.upstream.pending@, d, g.client.received@,
                    g.upstream.written@);
                let bufs0 = bufs_view(g.upstream.pending@);
                assert(bufs0.push(d).drop_last() =~= bufs0);
                assert(concat_bufs(bufs0.push(d)) == concat_bufs(bufs0) + d);
                assert(bufs_view(flow.upstream.pending@) =~= bufs0.push(d));
                assert(flow_wf(flow, self.cache_size as int));
            }
        } else {
            proof {
                if !flow.has_upstream {
                    assert(side_pristine(g.upstream));
                    assert(false);
                }
                assert(flow.client.pending_bytes < self.cache_size);
            }
            flow.upstream.received = Ghost(flow.upstream.received@ + data@);
            flow.client.pending_bytes = flow.client.pending_bytes + n;
            flow.client.pending.push(data);
            flow.client.writable = true;
            flow.upstream.readable = flow.client.pending_bytes < self.cache_size;
            proof {
                lemma_push_preserves(g.client.pending@, d, g.upstream.received@,
                    g.client.written@);
                let bufs0 = bufs_view(g.client.pending@);
                assert(bufs0.push(d).drop_last() =~= bufs0);
                assert(concat_bufs(bufs0.push(d)) == concat_bufs(bufs0) + d);
                assert(bufs_view(flow.client.pending@) =~= bufs0.push(d));
                assert(flow_wf(flow, self.cache_size as int));
            }
        }
        self.flows.insert(b, flow);
        proof {
            assert(self.flows@.dom() =~= old(self).flows@.dom());
            assert(self.flows@.len() == old(self).flows@.len()) by {
                assert(self.flows@.dom() =~= old(self).flows@.dom());
            }
            assert forall|k: u64| self.flows@.contains_key(k) implies flow_wf(
                #[trigger] self.flows@[k],
                self.cache_size as int,
            ) by {
                if k != b {
                    assert(old(self).flows@.contains_key(k));
                }
            }
        }
    }

    /// Handles EOF read on socket `t`, per the half-close state machine:
    /// remove a flow that never gained an upstream; defer the peer's
    /// half-close while it still drains; otherwise half-close the peer now,
    /// and remove the flow when this side was already half-closed.
    pub fn on_read_eof(&mut self, t: u64) -> (r: EofOutcome)
        requires
            old(self).wf(),
            old(self).spec_live(t),
            t % 2 == 1 ==> old(self).spec_flows()[base_of(t)].has_upstream,
        ensures
            final(self).wf(),
            final(self).spec_cache_size() == old(self).spec_cache_size(),
            final(self).spec_max_connections() == old(self).spec_max_connections(),
            final(self).spec_plugin() == old(self).spec_plugin(),
            final(self).spec_next_token() == old(self).spec_next_token(),
            r == spec_eof_outcome(old(self).spec_flows()[base_of(t)], t),
            (r == EofOutcome::RemoveFlow || r == EofOutcome::ShutdownPeerRemove) ==> final(self).spec_flows() == old(self).spec_flows().remove(base_of(t)),
            (r == EofOutcome::Deferred || r == EofOutcome::ShutdownPeer) ==> {
                &&& final(self).spec_flows().dom() == old(self).spec_flows().dom()
                &&& forall|k: u64| final(self).spec_flows().contains_key(k) && k != base_of(t)
                    ==> #[trigger] final(self).spec_flows()[k] == old(self).spec_flows()[k]
            },
            r == EofOutcome::Deferred ==> ({
                let f = final(self).spec_flows()[base_of(t)];
                let g = old(self).spec_flows()[base_of(t)];
                &&& side_of(f, t) == side_of(g, t)
                &&& other_side_of(f, t).want_shutdown
                &&& other_side_of(f, t).pending == other_side_of(g, t).pending
                &&& other_side_of(f, t).pending_bytes == other_side_of(g, t).pending_bytes
                &&& other_side_of(f, t).readable == other_side_of(g, t).readable
                &&& other_side_of(f, t).writable == other_side_of(g, t).writable
                &&& other_side_of(f, t).already_shutdown == other_side_of(g, t).already_shutdown
                &&& other_side_of(f, t).received == other_side_of(g, t).received
                &&& other_side_of(f, t).written == other_side_of(g, t).written
                &&& f.peer == g.peer
                &&& f.has_upstream == g.has_upstream
            }),
            r == EofOutcome::ShutdownPeer ==> ({
                let f = final(self).spec_flows()[base_of(t)];
                let g = old(self).spec_flows()[base_of(t)];
                &&& side_of(f, t) == side_of(g, t)
                &&& other_side_of(f, t).already_shutdown
                &&& !other_side_of(f, t).writable
                &&& other_side_of(f, t).pending == other_side_of(g, t).pending
                &&& other_side_of(f, t).pending_bytes == other_side_of(g, t).pending_bytes
                &&& other_side_of(f, t).readable == other_side_of(g, t).readable
                &&& other_side_of(f, t).want_shutdown == other_side_of(g, t).want_shutdown
                &&& other_side_of(f, t).received == other_side_of(g, t).received
                &&& other_side_of(f, t).written == other_side_of(g, t).written
                &&& f.peer == g.peer
                &&& f.has_upstream == g.has_upstream
            }),
    {
        let b = if t % 2 == 0 {
            t
        } else {
            t - 1
        };
        let mut flow = match self.flows.remove(&b) {
            Some(f) => f,
            None => {
                proof {
                    assert(false);
                }
                return EofOutcome::RemoveFlow;
            },
        };
        proof {
            assert(self.flows@ =~= old(self).flows@.remove(b));
            vstd::set::axiom_set_remove_len(old(self).flows@.dom(), b);
            assert(self.flows@.dom() =~= old(self).flows@.dom().remove(b));
        }
        if t % 2 == 0 && !flow.has_upstream {
            return EofOutcome::RemoveFlow;
        }
        let peer_nonempty = if t % 2 == 0 {
            flow.upstream.pending.len() > 0
        } else {
            flow.client.pending.len() > 0
        };
        if peer_nonempty {
            if t % 2 == 0 {
                flow.upstream.want_shutdown = true;
            } else {
                flow.client.want_shutdown = true;
            }
            proof {
                assert(flow_wf(flow, self.cache_size as int));
            }
            self.flows.insert(b, flow);
            proof {
                self.lemma_reinserted(*old(self), b);
            }
            return EofOutcome::Deferred;
        }
        let self_already = if t % 2 == 0 {
            flow.client.already_shutdown
        } else {
            flow.upstream.already_shutdown
        };
        if self_already {
            return EofOutcome::ShutdownPeerRemove;
        }
        if t % 2 == 0 {
            flow.upstream.writable = false;
            flow.upstream.already_shutdown = true;
        } else {
            flow.client.writable = false;
            flow.client.already_shutdown = true;
        }
        proof {
            assert(flow_wf(flow, self.cache_size as int));
        }
        self.flows.insert(b, flow);
        proof {
            self.lemma_reinserted(*old(self), b);
        }
        EofOutcome::ShutdownPeer
    }

    /// After a record was taken out and an updated well-formed record put
    /// back under the same key, the engine invariant holds again.
    proof fn lemma_reinserted(&self, prev: TcpEngine, b: u64)
        requires
            prev.wf(),
            prev.flows@.contains_key(b),
            self.cache_size == prev.cache_size,
            self.max_connections == prev.max_connections,
            self.next_token == prev.next_token,
            self.flows@.dom() == prev.flows@.dom().remove(b).insert(b),
            forall|k: u64| #[trigger] self.flows@.contains_key(k) && k != b ==> self.flows@[k]
                == prev.flows@[k],
            flow_wf(self.flows@[b], self.cache_size as int),
        ensures
            self.wf(),
            self.flows@.dom() == prev.flows@.dom(),
    {
        assert(self.flows@.dom() =~= prev.flows@.dom());
        assert(self.flows@.len() == prev.flows@.len());
        assert forall|k: u64| self.flows@.contains_key(k) implies flow_wf(
            #[trigger] self.flows@[k],
            self.cache_size as int,
        ) by {
            if k != b {
                assert(prev.flows@.contains_key(k));
            }
        }
    }

    /// A copy of the head buffer waiting to be written to socket `t`, if
    /// any.
    pub fn next_pending(&self, t: u64) -> (r: Option<Vec<u8>>)
        ensures
            (self.spec_live(t) && side_of(self.spec_flows()[base_of(t)], t).pending@.len() > 0)
                ==> (r matches Some(v) && v@ == side_of(
                self.spec_flows()[base_of(t)],
                t,
            ).pending@[0]@),
            !(self.spec_live(t) && side_of(self.spec_flows()[base_of(t)], t).pending@.len() > 0)
                ==> r is None,
    {
        let b = if t % 2 == 0 {
            t
        } else {
            t - 1
        };
        match self.flows.get(&b) {
            Some(f) => {
                let side = if t % 2 == 0 {
                    &f.client
                } else {
                    &f.upstream
                };
                if side.pending.len() > 0 {
                    Some(clone_buf(&side.pending[0]))
                } else {
                    None
                }
            },
            None => None,
        }
    }

    /// Records that the driver wrote the first `n` bytes of the head
    /// buffer to socket `t`: a short write keeps the tail at the head of
    /// the queue; a drained queue drops writable interest and performs any
    /// owed half-close; crossing back under the buffer bound restores the
    /// opposite side's readable interest.
    pub fn on_write_ok(&mut self, t: u64, n: usize) -> (r: WriteOutcome)
        requires
            old(self).wf(),
            old(self).spec_live(t),
            side_of(old(self).spec_flows()[base_of(t)], t).pending@.len() > 0,
            n <= side_of(old(self).spec_flows()[base_of(t)], t).pending@[0]@.len(),
        ensures
            final(self).wf(),
            final(self).spec_cache_size() == old(self).spec_cache_size(),
            final(self).spec_max_connections() == old(self).spec_max_connections(),
            final(self).spec_plugin() == old(self).spec_plugin(),
            final(self).spec_next_token() == old(self).spec_next_token(),
            r == spec_write_outcome(old(self).spec_flows()[base_of(t)], t, n),
            r == WriteOutcome::ShutdownRemove ==> final(self).spec_flows() == old(self).spec_flows().remove(base_of(t)),
            r != WriteOutcome::ShutdownRemove ==> {
                &&& final(self).spec_flows().dom() == old(self).spec_flows().dom()
                &&& forall|k: u64| final(self).spec_flows().contains_key(k) && k != base_of(t)
                    ==> #[trigger] final(self).spec_flows()[k] == old(self).spec_flows()[k]
                &&& ({
                    let f = final(self).spec_flows()[base_of(t)];
                    let g = old(self).spec_flows()[base_of(t)];
                    let s1 = side_of(f, t);
                    let s0 = side_of(g, t);
                    let p1 = other_side_of(f, t);
                    let p0 = other_side_of(g, t);
                    let head = s0.pending@[0]@;
                    &&& s1.written@ == s0.written@ + head.take(n as int)
                    &&& (n < head.len() ==> bufs_view(s1.pending@) == bufs_view(
                        s0.pending@,
                    ).update(0, head.skip(n as int)))
                    &&& (n == head.len() ==> bufs_view(s1.pending@) == bufs_view(
                        s0.pending@,
                    ).drop_first())
                    &&& s1.pending_bytes == s0.pending_bytes - n
                    &&& s1.writable == (s1.pending@.len() > 0)
                    &&& s1.already_shutdown == (s0.already_shutdown || r
                        == WriteOutcome::ShutdownSelf)
                    &&& s1.readable == s0.readable
                    &&& s1.want_shutdown == s0.want_shutdown
                    &&& s1.received == s0.received
                    &&& p1.readable == (s1.pending_bytes < old(self).spec_cache_size())
                    &&& p1.pending == p0.pending
                    &&& p1.pending_bytes == p0.pending_bytes
                    &&& p1.writable == p0.writable
                    &&& p1.want_shutdown == p0.want_shutdown
                    &&& p1.already_shutdown == p0.already_shutdown
                    &&& p1.received == p0.received
                    &&& p1.written == p0.written
                    &&& f.peer == g.peer
                    &&& f.has_upstream == g.has_upstream
                })
            },
    {
        let b = if t % 2 == 0 {
            t
        } else {
            t - 1
        };
        let mut flow = match self.flows.remove(&b) {
            Some(f) => f,
            None => {
                proof {
                    assert(false);
                }
                return WriteOutcome::ShortWrite;
            },
        };
        proof {
            assert(self.flows@ =~= old(self).flows@.remove(b));
            vstd::set::axiom_set_remove_len(old(self).flows@.dom(), b);
            assert(self.flows@.dom() =~= old(self).flows@.dom().remove(b));
            if t % 2 == 0 && flow.client.pending@.len() > 0 && !flow.has_upstream {
                assert(false);
            }
        }
        let cache = self.cache_size;
        let r = if t % 2 == 0 {
            side_write_ok(&mut flow.client, &mut flow.upstream, n, cache)
        } else {
            side_write_ok(&mut flow.upstream, &mut flow.client, n, cache)
        };
        if let WriteOutcome::ShutdownRemove = r {
            return WriteOutcome::ShutdownRemove;
        }
        proof {
            assert(flow_wf(flow, self.cache_size as int));
        }
        self.flows.insert(b, flow);
        proof {
            self.lemma_reinserted(*old(self), b);
        }
        r
    }
}

/// The outcome `on_write_ok` reports for writing `n` bytes of the head
/// buffer of side `t`.
pub open spec fn spec_write_outcome(f: Flow, t: u64, n: usize) -> WriteOutcome {
    let s = side_of(f, t);
    let head = s.pending@[0]@;
    if n < head.len() {
        WriteOutcome::ShortWrite
    } else if s.pending@.len() > 1 {
        WriteOutcome::Progress
    } else if !s.want_shutdown {
        WriteOutcome::Drained
    } else if other_side_of(f, t).already_shutdown {
        WriteOutcome::ShutdownRemove
    } else {
        WriteOutcome::ShutdownSelf
    }
}

/// The outcome `on_read_eof` reports for an EOF on side `t`.
pub open spec fn spec_eof_outcome(f: Flow, t: u64) -> EofOutcome {
    if t % 2 == 0 && !f.has_upstream {
        EofOutcome::RemoveFlow
    } else if other_side_of(f, t).pending@.len() > 0 {
        EofOutcome::Deferred
    } else if side_of(f, t).already_shutdown {
        EofOutcome::ShutdownPeerRemove
    } else {
        EofOutcome::ShutdownPeer
    }
}

/// Appending a read buffer keeps the byte-stream equation.
proof fn lemma_push_preserves(bufs: Seq<Vec<u8>>, d: Seq<u8>, received: Seq<u8>, written: Seq<u8>)
    requires
        received == written + concat_bufs(bufs_view(bufs)),
    ensures
        received + d == written + concat_bufs(bufs_view(bufs).push(d)),
{
    assert(bufs_view(bufs).push(d).drop_last() =~= bufs_view(bufs));
    assert(concat_bufs(bufs_view(bufs).push(d)) == concat_bufs(bufs_view(bufs)) + d);
    assert(received + d =~= written + (concat_bufs(bufs_view(bufs)) + d));
}

/// Applies a successful write of `n` bytes to one side: updates the queue,
/// the byte count, the written history, the writable flag and any owed
/// half-close, and recomputes the opposite side's readable interest.
/// Conserves `written + concat(pending)`.
fn side_write_ok(s: &mut SideState, peer: &mut SideState, n: usize, cache: usize) -> (r:
    WriteOutcome)
    requires
        side_wf(*old(s)),
        old(s).pending@.len() > 0,
        n <= old(s).pending@[0]@.len(),
        cache <= usize::MAX,
    ensures
        side_wf(*final(s)),
        ({
            let s0 = *old(s);
            let s1 = *final(s);
            let head = s0.pending@[0]@;
            &&& r == (if n < head.len() {
                WriteOutcome::ShortWrite
            } else if s0.pending@.len() > 1 {
                WriteOutcome::Progress
            } else if !s0.want_shutdown {
                WriteOutcome::Drained
            } else if old(peer).already_shutdown {
                WriteOutcome::ShutdownRemove
            } else {
                WriteOutcome::ShutdownSelf
            })
            &&& s1.written@ == s0.written@ + head.take(n as int)
            &&& (n < head.len() ==> bufs_view(s1.pending@) == bufs_view(s0.pending@).update(
                0,
                head.skip(n as int),
            ))
            &&& (n == head.len() ==> bufs_view(s1.pending@) == bufs_view(
                s0.pending@,
            ).drop_first())
            &&& s1.pending_bytes == s0.pending_bytes - n
            &&& s1.writable == (s1.pending@.len() > 0)
            &&& s1.already_shutdown == (s0.already_shutdown || r == WriteOutcome::ShutdownSelf)
            &&& s1.readable == s0.readable
            &&& s1.want_shutdown == s0.want_shutdown
            &&& s1.received == s0.received
            &&& s1.written@ + concat_bufs(bufs_view(s1.pending@)) == s0.written@ + concat_bufs(
                bufs_view(s0.pending@),
            )
            &&& final(peer).readable == (s1.pending_bytes < cache)
            &&& final(peer).pending == old(peer).pending
            &&& final(peer).pending_bytes == old(peer).pending_bytes
            &&& final(peer).writable == old(peer).writable
            &&& final(peer).want_shutdown == old(peer).want_shutdown
            &&& final(peer).already_shutdown == old(peer).already_shutdown
            &&& final(peer).received == old(peer).received
            &&& final(peer).written == old(peer).written
        }),
{
    let ghost s0 = *s;
    let ghost bufs0 = bufs_view(s.pending@);
    let ghost head = s.pending@[0]@;
    proof {
        lemma_concat_first(bufs0);
        assert(concat_bufs(bufs0) == head + concat_bufs(bufs0.drop_first()));
        assert(s.pending_bytes >= head.len());
    }
    let head_len = s.pending[0].len();
    s.written = Ghost(s.written@ + head.take(n as int));
    let old_head = s.pending.remove(0);
    if n < head_len {
        let tail = buf_suffix(&old_head, n);
        s.pending.insert(0, tail);
        s.pending_bytes = s.pending_bytes - n;
        peer.readable = s.pending_bytes < cache;
        proof {
            let bufs1 = bufs_view(s.pending@);
            assert(bufs1 =~= bufs0.update(0, head.skip(n as int)));
            assert(bufs1.drop_first() =~= bufs0.drop_first());
            lemma_concat_first(bufs1);
            assert(concat_bufs(bufs1) == head.skip(n as int) + concat_bufs(
                bufs0.drop_first(),
            ));
            assert(s.written@ + concat_bufs(bufs1) =~= s0.written@ + concat_bufs(bufs0));
            assert(s.pending_bytes == concat_bufs(bufs1).len());
        }
        WriteOutcome::ShortWrite
    } else {
        s.pending_bytes = s.pending_bytes - n;
        peer.readable = s.pending_bytes < cache;
        proof {
            let bufs1 = bufs_view(s.pending@);
            assert(bufs1 =~= bufs0.drop_first());
            assert(head.take(n as int) =~= head);
            assert(s.written@ + concat_bufs(bufs1) =~= s0.written@ + concat_bufs(bufs0));
            assert(s.pending_bytes == concat_bufs(bufs1).len());
        }
        if s.pending.len() > 0 {
            WriteOutcome::Progress
        } else {
            s.writable = false;
            if s.want_shutdown {
                if peer.already_shutdown {
                    WriteOutcome::ShutdownRemove
                } else {
                    s.already_shutdown = true;
                    WriteOutcome::ShutdownSelf
                }
            } else {
                WriteOutcome::Drained
            }
        }
    }
}

/// A copy of a buffer.
pub(crate) fn clone_buf(v: &Vec<u8>) -> (r: Vec<u8>)
    ensures
        r@ == v@,
{
    let mut r: Vec<u8> = Vec::new();
    let mut i: usize = 0;
    while i < v.len()
        invariant
            0 <= i <= v@.len(),
            r@ =~= v@.take(i as int),
        decreases v@.len() - i,
    {
        r.push(v[i]);
        i = i + 1;
    }
    proof {
        assert(v@.take(v@.len() as int) =~= v@);
    }
    r
}

/// The suffix of a buffer from `from` on.
fn buf_suffix(v: &Vec<u8>, from: usize) -> (r: Vec<u8>)
    requires
        from <= v@.len(),
    ensures
        r@ == v@.skip(from as int),
{
    let mut r: Vec<u8> = Vec::new();
    let mut i: usize = from;
    while i < v.len()
        invariant
            from <= i <= v@.len(),
            r@ =~= v@.subrange(from as int, i as int),
        decreases v@.len() - i,
    {
        r.push(v[i]);
        proof {
            assert(v@.subrange(from as int, i + 1) =~= v@.subrange(from as int, i as int).push(
                v@[i as int],
            ));
        }
        i = i + 1;
    }
    proof {
        assert(v@.subrange(from as int, v@.len() as int) =~= v@.skip(from as int));
    }
    r
}

/// For any live flow, what went out to one socket is exactly a prefix of
/// what came in from the other, the remainder being what still waits in
/// the queue; when a queue is empty, the two byte streams are equal.
pub proof fn lemma_byte_stream_preserved(e: &TcpEngine, t: u64)
    requires
        e.wf(),
        e.spec_flows().contains_key(t),
    ensures
        ({
            let f = e.spec_flows()[t];
            &&& f.client.received@ == f.upstream.written@ + concat_bufs(bufs_view(
                f.upstream.pending@,
            ))
            &&& f.upstream.received@ == f.client.written@ + concat_bufs(bufs_view(
                f.client.pending@,
            ))
            &&& f.upstream.written@.is_prefix_of(f.client.received@)
            &&& f.client.written@.is_prefix_of(f.upstream.received@)
            &&& f.upstream.pending@.len() == 0 ==> f.upstream.written@ == f.client.received@
            &&& f.client.pending@.len() == 0 ==> f.client.written@ == f.upstream.received@
        }),
{
    let f = e.spec_flows()[t];
    assert(f.client.received@.take(f.upstream.written@.len() as int) =~= f.upstream.written@);
    assert(f.upstream.received@.take(f.client.written@.len() as int) =~= f.client.written@);
    if f.upstream.pending@.len() == 0 {
        assert(bufs_view(f.upstream.pending@) =~= Seq::<Seq<u8>>::empty());
        assert(f.client.received@ =~= f.upstream.written@);
    }
    if f.client.pending@.len() == 0 {
        assert(bufs_view(f.client.pending@) =~= Seq::<Seq<u8>>::empty());
        assert(f.upstream.received@ =~= f.client.written@);
    }
}

/// No pending queue ever holds more than the buffer bound plus one
/// maximal read.
pub proof fn lemma_pending_bounded(e: &TcpEngine, t: u64)
    requires
        e.wf(),
        e.spec_flows().contains_key(t),
    ensures
        e.spec_flows()[t].client.pending_bytes <= e.spec_cache_size() + MAX_SINGLE_READ,
        e.spec_flows()[t].upstream.pending_bytes <= e.spec_cache_size() + MAX_SINGLE_READ,
{
}

/// Backpressure is exact: a side is registered readable precisely while
/// the opposite pending queue is below the buffer bound.
pub proof fn lemma_backpressure(e: &TcpEngine, t: u64)
    requires
        e.wf(),
        e.spec_flows().contains_key(t),
    ensures
        e.spec_flows()[t].client.readable <==> e.spec_flows()[t].upstream.pending_bytes < e
            .spec_cache_size(),
        e.spec_flows()[t].has_upstream ==> (e.spec_flows()[t].upstream.readable <==> e
            .spec_flows()[t].client.pending_bytes < e.spec_cache_size()),
{
}

/// Writable interest mirrors the queue exactly: a side of a live flow is
/// registered writable precisely while its pending queue is non-empty.
pub proof fn lemma_writable_registration(e: &TcpEngine, t: u64)
    requires
        e.wf(),
        e.spec_flows().contains_key(t),
    ensures
        e.spec_flows()[t].client.pending@.len() > 0 <==> e.spec_flows()[t].client.writable,
        e.spec_flows()[t].upstream.pending@.len() > 0 <==> e.spec_flows()[t].upstream.writable,
{
}

/// The flow cap holds: with a configured maximum, no more flows are live.
pub proof fn lemma_flow_cap(e: &TcpEngine)
    requires
        e.wf(),
    ensures
        e.spec_max_connections() matches Some(mx) ==> e.spec_flows().len() <= mx,
{
}

/// Tokens come and go in even/odd-adjacent pairs: a live token's partner
/// is live, their base is even, and `remove_flow` removes both.
pub proof fn lemma_token_pairing(e: &TcpEngine, t: u64)
    requires
        e.wf(),
        e.spec_live(t),
    ensures
        e.spec_live(pair_of(t)),
        base_of(t) % 2 == 0,
        pair_of(t) == (if t % 2 == 0 {
            t + 1
        } else {
            t - 1
        }),
        base_of(pair_of(t)) == base_of(t),
{
}

} // verus!

