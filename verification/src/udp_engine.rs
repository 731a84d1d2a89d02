//! The UDP forwarding engine's state and decisions: one session per client
//! peer, each with its own ephemeral upstream socket, a sticky first-datagram
//! target decision, strictly unique activity stamps for LRU eviction, and a
//! FIFO write-back queue for replies travelling to clients through the one
//! listener socket.
use vstd::prelude::*;
use queues::IsQueue;
use crate::addr::{IpRepr, NetAddr};
use crate::connection_plugin::{ConnectionPlugin, RegexMultiplexer};

verus! {

/// A session is evicted once idle longer than this (microseconds): 3 min.
pub const LIFESPAN_US: u64 = 180000000;

#[verifier::external_type_specification]
#[verifier::external_body]
#[verifier::reject_recursive_types(T)]
pub struct ExQueue<T: Clone>(queues::Queue<T>);

/// What the write-back queue holds, oldest first: each element an encoded
/// client address (family, address bits, port) and a payload.
pub uninterp spec fn queue_items(q: queues::Queue<(bool, u128, u16, Vec<u8>)>) -> Seq<
    (bool, u128, u16, Seq<u8>),
>;

/// Relies on `queues::Queue::new`: the new queue is empty.
#[verifier::external_body]
fn wb_new() -> (q: queues::Queue<(bool, u128, u16, Vec<u8>)>)
    ensures
        queue_items(q) == Seq::<(bool, u128, u16, Seq<u8>)>::empty(),
{
    queues::Queue::new()
}

/// Relies on `queues::Queue::add` (via `IsQueue`): pushes at the back and
/// always returns `Ok(None)`.
#[verifier::external_body]
fn wb_add(
    q: &mut queues::Queue<(bool, u128, u16, Vec<u8>)>,
    v6: bool,
    ip: u128,
    port: u16,
    data: Vec<u8>,
)
    ensures
        queue_items(*final(q)) == queue_items(*old(q)).push((v6, ip, port, data@)),
{
    let _ = q.add((v6, ip, port, data));
}

/// Relies on `queues::Queue::remove` (via `IsQueue`): pops the oldest
/// element, or errs exactly when the queue is empty.
#[verifier::external_body]
fn wb_remove(q: &mut queues::Queue<(bool, u128, u16, Vec<u8>)>) -> (r: Option<
    (bool, u128, u16, Vec<u8>),
>)
    ensures
        queue_items(*old(q)).len() == 0 ==> r is None && queue_items(*final(q)) == queue_items(
            *old(q),
        ),
        queue_items(*old(q)).len() > 0 ==> {
            &&& queue_items(*final(q)) == queue_items(*old(q)).drop_first()
            &&& r matches Some(v) && (v.0, v.1, v.2, v.3@) == queue_items(*old(q)).first()
        },
{
    match q.remove() {
        Ok(v) => Some(v),
        Err(_) => None,
    }
}

/// Relies on `queues::Queue::size` (via `IsQueue`): the element count.
#[verifier::external_body]
fn wb_size(q: &queues::Queue<(bool, u128, u16, Vec<u8>)>) -> (r: usize)
    ensures
        r == queue_items(*q).len(),
{
    q.size()
}

/// A client address as plain queue-element values.
pub open spec fn enc_of(a: NetAddr) -> (bool, u128, u16) {
    match a.ip {
        IpRepr::V4(x) => (false, x as u128, a.port),
        IpRepr::V6(x) => (true, x, a.port),
    }
}

/// The client address a queue element carries.
pub open spec fn dec_of(t: (bool, u128, u16, Seq<u8>)) -> NetAddr {
    if t.0 {
        NetAddr { ip: IpRepr::V6(t.1), port: t.2 }
    } else {
        NetAddr { ip: IpRepr::V4(t.1 as u32), port: t.2 }
    }
}

/// One UDP session: a client peer, its ephemeral upstream socket's token,
/// the sticky target, datagrams awaiting forwarding, and the activity
/// stamp the LRU ordering rests on.
pub struct UdpSession {
    pub token: u64,
    pub peer: NetAddr,
    pub target: Option<NetAddr>,
    pub pending: Vec<Vec<u8>>,
    pub last_active: u64,
    pub writable: bool,
}

/// The first session whose peer matches, if any.
pub open spec fn spec_find_session(ss: Seq<UdpSession>, peer: NetAddr) -> Option<u64>
    decreases ss.len(),
{
    if ss.len() == 0 {
        None
    } else if ss.first().peer == peer {
        Some(ss.first().token)
    } else {
        spec_find_session(ss.drop_first(), peer)
    }
}

/// Whether a session has been idle past the lifespan at time `now`.
pub open spec fn spec_expired(s: UdpSession, now: u64) -> bool {
    now >= LIFESPAN_US && s.last_active < now - LIFESPAN_US
}

/// The sessions surviving an eviction sweep at `now`, in order.
pub open spec fn spec_kept(ss: Seq<UdpSession>, now: u64) -> Seq<UdpSession>
    decreases ss.len(),
{
    if ss.len() == 0 {
        Seq::empty()
    } else if spec_expired(ss.last(), now) {
        spec_kept(ss.drop_last(), now)
    } else {
        spec_kept(ss.drop_last(), now).push(ss.last())
    }
}

/// The tokens of the sessions an eviction sweep removes, in order.
pub open spec fn spec_evicted(ss: Seq<UdpSession>, now: u64) -> Seq<u64>
    decreases ss.len(),
{
    if ss.len() == 0 {
        Seq::empty()
    } else if spec_expired(ss.last(), now) {
        spec_evicted(ss.drop_last(), now).push(ss.last().token)
    } else {
        spec_evicted(ss.drop_last(), now)
    }
}

/// The readiness-driven UDP relay's state.
pub struct UdpEngine {
    plugin: RegexMultiplexer,
    max_connections: Option<u64>,
    next_token: u64,
    now_us: u64,
    sessions: Vec<UdpSession>,
    writeback: queues::Queue<(bool, u128, u16, Vec<u8>)>,
    listener_writable: bool,
}

impl UdpEngine {
    pub closed spec fn spec_sessions(&self) -> Seq<UdpSession> {
        self.sessions@
    }

    pub closed spec fn spec_max_connections(&self) -> Option<u64> {
        self.max_connections
    }

    pub closed spec fn spec_next_token(&self) -> u64 {
        self.next_token
    }

    pub closed spec fn spec_now(&self) -> u64 {
        self.now_us
    }

    pub closed spec fn spec_writeback(&self) -> Seq<(bool, u128, u16, Seq<u8>)> {
        queue_items(self.writeback)
    }

    pub closed spec fn spec_listener_writable(&self) -> bool {
        self.listener_writable
    }

    pub closed spec fn spec_plugin(&self) -> RegexMultiplexer {
        self.plugin
    }

    /// The engine invariant: tokens and peers are unique, activity stamps
    /// are strictly unique and below the engine's clock (the LRU index is
    /// injective), writable interest mirrors a non-empty queue on each
    /// session socket and on the listener, and the session count respects
    /// the cap.
    pub closed spec fn wf(&self) -> bool {
        &&& self.next_token >= 1
        &&& self.now_us >= 1
        &&& forall|i: int| 0 <= i < self.sessions@.len() ==> 1 <= (
            #[trigger] self.sessions@[i]).token < self.next_token
        &&& forall|i: int, j: int| 0 <= i < j < self.sessions@.len() ==> (
        #[trigger] self.sessions@[i]).token != (#[trigger] self.sessions@[j]).token
        &&& forall|i: int, j: int| 0 <= i < j < self.sessions@.len() ==> (
        #[trigger] self.sessions@[i]).peer != (#[trigger] self.sessions@[j]).peer
        &&& forall|i: int, j: int| 0 <= i < j < self.sessions@.len() ==> (
        #[trigger] self.sessions@[i]).last_active != (#[trigger] self.sessions@[j]).last_active
        &&& forall|i: int| 0 <= i < self.sessions@.len() ==> (
        #[trigger] self.sessions@[i]).last_active < self.now_us
        &&& forall|i: int| 0 <= i < self.sessions@.len() ==> ((#[trigger] self.sessions@[i]).pending@.len()
            > 0 <==> self.sessions@[i].writable)
        &&& (queue_items(self.writeback).len() > 0 <==> self.listener_writable)
        &&& forall|k: int| 0 <= k < queue_items(self.writeback).len() ==> (!(
        #[trigger] queue_items(self.writeback)[k]).0 ==> queue_items(self.writeback)[k].1
            <= 0xffffffffu128)
        &&& self.max_connections matches Some(mx) ==> self.sessions@.len() <= mx
    }

    /// Builds an engine. `max_connections` below zero means unlimited.
    pub fn new(plugin: RegexMultiplexer, max_connections: i64) -> (r: UdpEngine)
        ensures
            r.wf(),
            r.spec_sessions() == Seq::<UdpSession>::empty(),
            r.spec_writeback() == Seq::<(bool, u128, u16, Seq<u8>)>::empty(),
            !r.spec_listener_writable(),
            r.spec_max_connections() == (if max_connections >= 0 {
                Some(max_connections as u64)
            } else {
                None::<u64>
            }),
            r.spec_plugin() == plugin,
            r.spec_now() == 1u64,
            r.spec_next_token() == 1u64,
    {
        let max = if max_connections >= 0 {
            Some(max_connections as u64)
        } else {
            None
        };
        UdpEngine {
            plugin,
            max_connections: max,
            next_token: 1,
            now_us: 1,
            sessions: Vec::new(),
            writeback: wb_new(),
            listener_writable: false,
        }
    }

    /// The poller's event capacity: the session cap bounded by 1024.
    pub fn events_capacity(&self) -> (r: usize)
        ensures
            r == (match self.spec_max_connections() {
                Some(mx) => if mx < 1024 {
                    mx as usize
                } else {
                    1024usize
                },
                None => 1024usize,
            }),
    {
        match self.max_connections {
            Some(mx) => if mx < 1024 {
                mx as usize
            } else {
                1024
            },
            None => 1024,
        }
    }

    /// Whether a session with this token is live.
    pub fn has_session(&self, token: u64) -> (r: bool)
        ensures
            r == spec_has_token(self.spec_sessions(), token),
    {
        match self.index_of_token(token) {
            Some(i) => {
                proof {
                    assert(self.spec_sessions()[i as int].token == token);
                }
                true
            },
            None => false,
        }
    }

    /// Whether the listener socket is registered writable: exactly while
    /// replies wait in the write-back queue.
    pub fn listener_wants_write(&self) -> (r: bool)
        ensures
            r == self.spec_listener_writable(),
    {
        self.listener_writable
    }

    /// Whether a session's upstream socket is registered writable: exactly
    /// while datagrams wait to be forwarded. A dead token wants nothing.
    pub fn session_wants_write(&self, token: u64) -> (r: bool)
        requires
            self.wf(),
        ensures
            r == (exists|i: int| 0 <= i < self.spec_sessions().len() && (
            #[trigger] self.spec_sessions()[i]).token == token && self.spec_sessions()[
                i
            ].writable),
    {
        match self.index_of_token(token) {
            Some(i) => {
                let w = self.sessions[i].writable;
                proof {
                    assert(self.spec_sessions()[i as int].token == token);
                    lemma_token_unique(self.sessions@, i as int, token);
                }
                w
            },
            None => false,
        }
    }

    /// Whether a datagram from this source address may be served.
    pub fn ip_allowed(&self, addr: &NetAddr) -> (r: bool)
        ensures
            r == self.spec_plugin().spec_ip_allowed(addr.ip),
    {
        self.plugin.testipaddr(addr)
    }

    /// The token of the session serving `peer`, if one exists.
    pub fn find_session(&self, peer: &NetAddr) -> (r: Option<u64>)
        ensures
            r == spec_find_session(self.spec_sessions(), *peer),
    {
        let ghost ss = self.sessions@;
        proof {
            assert(ss.skip(0) =~= ss);
        }
        let mut i: usize = 0;
        while i < self.sessions.len()
            invariant
                0 <= i <= ss.len(),
                ss == self.sessions@,
                spec_find_session(ss, *peer) == spec_find_session(ss.skip(i as int), *peer),
            decreases ss.len() - i,
        {
            proof {
                assert(ss.skip(i as int).first() == ss[i as int]);
                assert(ss.skip(i as int).drop_first() =~= ss.skip(i + 1));
            }
            if self.sessions[i].peer == *peer {
                return Some(self.sessions[i].token);
            }
            i = i + 1;
        }
        None
    }

    /// Whether a new session may be created under the cap.
    pub fn can_accept_new(&self) -> (r: bool)
        ensures
            r == (match self.spec_max_connections() {
                Some(mx) => self.spec_sessions().len() < mx,
                None => true,
            }),
    {
        match self.max_connections {
            Some(mx) => (self.sessions.len() as u64) < mx,
            None => true,
        }
    }

    /// Creates a session for a new client peer, stamped with a fresh
    /// activity time. Returns `None` (and changes nothing) when a session
    /// for the peer already exists, the cap is reached, or the token or
    /// clock space is exhausted.
    pub fn create_session(&mut self, peer: NetAddr) -> (r: Option<u64>)
        requires
            old(self).wf(),
        ensures
            final(self).wf(),
            final(self).spec_max_connections() == old(self).spec_max_connections(),
            final(self).spec_plugin() == old(self).spec_plugin(),
            final(self).spec_writeback() == old(self).spec_writeback(),
            final(self).spec_listener_writable() == old(self).spec_listener_writable(),
            r is None ==> *final(self) == *old(self),
            r is None <==> {
                ||| spec_find_session(old(self).spec_sessions(), peer) is Some
                ||| (old(self).spec_max_connections() matches Some(mx) && old(self).spec_sessions().len() >= mx)
                ||| old(self).spec_next_token() == u64::MAX
                ||| old(self).spec_now() == u64::MAX
            },
            r matches Some(tok) ==> {
                &&& tok == old(self).spec_next_token()
                &&& final(self).spec_next_token() == tok + 1
                &&& final(self).spec_now() == old(self).spec_now() + 1
                &&& final(self).spec_sessions().len() == old(self).spec_sessions().len() + 1
                &&& final(self).spec_sessions().drop_last() == old(self).spec_sessions()
                &&& ({
                    let s = final(self).spec_sessions().last();
                    &&& s.token == tok
                    &&& s.peer == peer
                    &&& s.target is None
                    &&& s.pending@.len() == 0
                    &&& s.last_active == old(self).spec_now()
                    &&& !s.writable
                })
            },
    {
        let exists_already = match self.find_session(&peer) {
            Some(_) => true,
            None => false,
        };
        let quota_ok = self.can_accept_new();
        if exists_already || !quota_ok || self.next_token == u64::MAX || self.now_us
            == u64::MAX {
            return None;
        }
        let tok = self.next_token;
        self.next_token = tok + 1;
        let s = UdpSession {
            token: tok,
            peer,
            target: None,
            pending: Vec::new(),
            last_active: self.now_us,
            writable: false,
        };
        self.now_us = self.now_us + 1;
        proof {
            lemma_find_none_means_no_peer(old(self).sessions@, peer);
        }
        self.sessions.push(s);
        proof {
            assert(self.sessions@.drop_last() =~= old(self).sessions@);
            let ss0 = old(self).sessions@;
            let ss1 = self.sessions@;
            let n = ss0.len() as int;
            assert forall|i: int, j: int| 0 <= i < j < ss1.len() implies (
            #[trigger] ss1[i]).token != (#[trigger] ss1[j]).token by {
                if j == n {
                    assert(ss1[i] == ss0[i]);
                } else {
                    assert(ss1[i] == ss0[i] && ss1[j] == ss0[j]);
                }
            }
            assert forall|i: int, j: int| 0 <= i < j < ss1.len() implies (
            #[trigger] ss1[i]).peer != (#[trigger] ss1[j]).peer by {
                if j == n {
                    assert(ss1[i] == ss0[i]);
                } else {
                    assert(ss1[i] == ss0[i] && ss1[j] == ss0[j]);
                }
            }
            assert forall|i: int, j: int| 0 <= i < j < ss1.len() implies (
            #[trigger] ss1[i]).last_active != (#[trigger] ss1[j]).last_active by {
                if j == n {
                    assert(ss1[i] == ss0[i]);
                } else {
                    assert(ss1[i] == ss0[i] && ss1[j] == ss0[j]);
                }
            }
            assert forall|i: int| 0 <= i < ss1.len() implies 1 <= (#[trigger] ss1[i]).token
                < self.next_token by {
                if i < n {
                    assert(ss1[i] == ss0[i]);
                }
            }
            assert forall|i: int| 0 <= i < ss1.len() implies (#[trigger] ss1[i]).last_active
                < self.now_us by {
                if i < n {
                    assert(ss1[i] == ss0[i]);
                }
            }
            assert forall|i: int| 0 <= i < ss1.len() implies ((#[trigger] ss1[i]).pending@.len()
                > 0 <==> ss1[i].writable) by {
                if i < n {
                    assert(ss1[i] == ss0[i]);
                }
            }
        }
        Some(tok)
    }
}

/// Some session carries this token.
pub open spec fn spec_has_token(ss: Seq<UdpSession>, token: u64) -> bool {
    exists|i: int| 0 <= i < ss.len() && (#[trigger] ss[i]).token == token
}

impl UdpEngine {
    /// The index of the session carrying `token`, if any.
    fn index_of_token(&self, token: u64) -> (r: Option<usize>)
        ensures
            r matches Some(i) ==> i < self.spec_sessions().len() && self.spec_sessions()[
                i as int
            ].token == token,
            r is None ==> !spec_has_token(self.spec_sessions(), token),
    {
        let mut i: usize = 0;
        while i < self.sessions.len()
            invariant
                0 <= i <= self.sessions@.len(),
                forall|k: int| 0 <= k < i ==> (#[trigger] self.sessions@[k]).token != token,
            decreases self.sessions@.len() - i,
        {
            if self.sessions[i].token == token {
                return Some(i);
            }
            i = i + 1;
        }
        None
    }

    /// Appends a client datagram to its session's forwarding queue and
    /// registers the session socket writable. Returns whether the session
    /// was found.
    pub fn enqueue_client_datagram(&mut self, token: u64, data: Vec<u8>) -> (r: bool)
        requires
            old(self).wf(),
        ensures
            final(self).wf(),
            unchanged_frame(*old(self), *final(self)),
            final(self).spec_writeback() == old(self).spec_writeback(),
            final(self).spec_listener_writable() == old(self).spec_listener_writable(),
            final(self).spec_now() == old(self).spec_now(),
            final(self).spec_next_token() == old(self).spec_next_token(),
            r == spec_has_token(old(self).spec_sessions(), token),
            final(self).spec_sessions().len() == old(self).spec_sessions().len(),
            forall|i: int| 0 <= i < old(self).spec_sessions().len() && (#[trigger] old(self).spec_sessions()[i]).token != token ==> final(self).spec_sessions()[i] == old(self).spec_sessions()[i],
            forall|i: int| 0 <= i < old(self).spec_sessions().len() && (#[trigger] old(self).spec_sessions()[i]).token == token ==> ({
                let s1 = final(self).spec_sessions()[i];
                let s0 = old(self).spec_sessions()[i];
                &&& s1.pending@ == s0.pending@.push(data)
                &&& s1.writable
                &&& s1.token == s0.token
                &&& s1.peer == s0.peer
                &&& s1.target == s0.target
                &&& s1.last_active == s0.last_active
            }),
    {
        let i = match self.index_of_token(token) {
            Some(i) => i,
            None => {
                return false;
            },
        };
        let mut s = self.sessions.remove(i);
        s.pending.push(data);
        s.writable = true;
        self.sessions.insert(i, s);
        proof {
            lemma_update_frame(old(self).sessions@, self.sessions@, i as int);
        }
        true
    }

    /// The sticky upstream target of a session: the stored one, or the
    /// plugin's decision on the head datagram, which is then stored. A
    /// `None` means the plugin refused; the session is to be evicted.
    pub fn upstream_target(&mut self, token: u64) -> (r: Option<NetAddr>)
        requires
            old(self).wf(),
            spec_has_token(old(self).spec_sessions(), token),
            forall|i: int| 0 <= i < old(self).spec_sessions().len() && (#[trigger] old(self).spec_sessions()[i]).token == token ==> old(self).spec_sessions()[i].pending@.len()
                > 0,
        ensures
            final(self).wf(),
            unchanged_frame(*old(self), *final(self)),
            final(self).spec_writeback() == old(self).spec_writeback(),
            final(self).spec_listener_writable() == old(self).spec_listener_writable(),
            final(self).spec_now() == old(self).spec_now(),
            final(self).spec_next_token() == old(self).spec_next_token(),
            final(self).spec_sessions().len() == old(self).spec_sessions().len(),
            forall|i: int| 0 <= i < old(self).spec_sessions().len() && (#[trigger] old(self).spec_sessions()[i]).token != token ==> final(self).spec_sessions()[i] == old(self).spec_sessions()[i],
            forall|i: int| 0 <= i < old(self).spec_sessions().len() && (#[trigger] old(self).spec_sessions()[i]).token == token ==> ({
                let s1 = final(self).spec_sessions()[i];
                let s0 = old(self).spec_sessions()[i];
                &&& r == (match s0.target {
                    Some(t) => Some(t),
                    None => old(self).spec_plugin().spec_decide_target(s0.pending@[0]@),
                })
                &&& s1.target == (if r is Some {
                    r
                } else {
                    s0.target
                })
                &&& s1.pending == s0.pending
                &&& s1.writable == s0.writable
                &&& s1.token == s0.token
                &&& s1.peer == s0.peer
                &&& s1.last_active == s0.last_active
            }),
    {
        let i = match self.index_of_token(token) {
            Some(i) => i,
            None => {
                proof {
                    assert(false);
                }
                return None;
            },
        };
        let mut s = self.sessions.remove(i);
        let r = match s.target {
            Some(t) => Some(t),
            None => {
                let decided = self.plugin.decideTarget(s.pending[0].as_slice(), s.peer);
                if let Some(t) = decided {
                    s.target = Some(t);
                }
                decided
            },
        };
        self.sessions.insert(i, s);
        proof {
            lemma_update_frame(old(self).sessions@, self.sessions@, i as int);
        }
        r
    }

    /// A copy of the head datagram waiting to go upstream, if any.
    pub fn next_upstream_buf(&self, token: u64) -> (r: Option<Vec<u8>>)
        requires
            self.wf(),
        ensures
            r matches Some(v) ==> exists|i: int| 0 <= i < self.spec_sessions().len() && (
            #[trigger] self.spec_sessions()[i]).token == token && self.spec_sessions()[
                i
            ].pending@.len() > 0 && v@ == self.spec_sessions()[i].pending@[0]@,
            r is None ==> forall|i: int| 0 <= i < self.spec_sessions().len() && (
            #[trigger] self.spec_sessions()[i]).token == token ==> self.spec_sessions()[
                i
            ].pending@.len() == 0,
    {
        match self.index_of_token(token) {
            Some(i) => {
                if self.sessions[i].pending.len() > 0 {
                    let v = crate::tcp_engine::clone_buf(&self.sessions[i].pending[0]);
                    proof {
                        assert(self.spec_sessions()[i as int].token == token);
                    }
                    Some(v)
                } else {
                    proof {
                        lemma_token_unique(self.sessions@, i as int, token);
                    }
                    None
                }
            },
            None => None,
        }
    }

    /// Records a datagram fully sent upstream: pops it, stamps the session
    /// active with a fresh time, and drops writable interest on an emptied
    /// queue. Returns whether the queue is now empty.
    pub fn on_upstream_sent(&mut self, token: u64) -> (r: bool)
        requires
            old(self).wf(),
            spec_has_token(old(self).spec_sessions(), token),
            forall|i: int| 0 <= i < old(self).spec_sessions().len() && (#[trigger] old(self).spec_sessions()[i]).token == token ==> old(self).spec_sessions()[i].pending@.len()
                > 0,
        ensures
            final(self).wf(),
            unchanged_frame(*old(self), *final(self)),
            final(self).spec_writeback() == old(self).spec_writeback(),
            final(self).spec_listener_writable() == old(self).spec_listener_writable(),
            final(self).spec_next_token() == old(self).spec_next_token(),
            final(self).spec_now() == (if old(self).spec_now() < u64::MAX {
                (old(self).spec_now() + 1) as u64
            } else {
                old(self).spec_now()
            }),
            final(self).spec_sessions().len() == old(self).spec_sessions().len(),
            forall|i: int| 0 <= i < old(self).spec_sessions().len() && (#[trigger] old(self).spec_sessions()[i]).token != token ==> final(self).spec_sessions()[i] == old(self).spec_sessions()[i],
            forall|i: int| 0 <= i < old(self).spec_sessions().len() && (#[trigger] old(self).spec_sessions()[i]).token == token ==> ({
                let s1 = final(self).spec_sessions()[i];
                let s0 = old(self).spec_sessions()[i];
                &&& s1.pending@ == s0.pending@.drop_first()
                &&& s1.writable == (s1.pending@.len() > 0)
                &&& s1.last_active == (if old(self).spec_now() < u64::MAX {
                    old(self).spec_now()
                } else {
                    s0.last_active
                })
                &&& s1.token == s0.token
                &&& s1.peer == s0.peer
                &&& s1.target == s0.target
                &&& r == (s1.pending@.len() == 0)
            }),
    {
        let i = match self.index_of_token(token) {
            Some(i) => i,
            None => {
                proof {
                    assert(false);
                }
                return false;
            },
        };
        let mut s = self.sessions.remove(i);
        let _ = s.pending.remove(0);
        if s.pending.len() == 0 {
            s.writable = false;
        }
        if self.now_us < u64::MAX {
            s.last_active = self.now_us;
            self.now_us = self.now_us + 1;
        }
        let r = s.pending.len() == 0;
        self.sessions.insert(i, s);
        proof {
            lemma_update_frame(old(self).sessions@, self.sessions@, i as int);
            if old(self).now_us < u64::MAX {
                assert forall|a: int, b: int| 0 <= a < b < self.sessions@.len() implies (
                #[trigger] self.sessions@[a]).last_active != (
                #[trigger] self.sessions@[b]).last_active by {
                    if a != i && b != i {
                        assert(self.sessions@[a] == old(self).sessions@[a]);
                        assert(self.sessions@[b] == old(self).sessions@[b]);
                    }
                }
            }
        }
        r
    }

    /// Records a reply datagram received on a session's upstream socket:
    /// queues it for write-back to the client, stamps the session active,
    /// and registers the listener writable. Returns whether the listener
    /// was not writable before.
    pub fn on_upstream_datagram(&mut self, token: u64, data: Vec<u8>) -> (r: bool)
        requires
            old(self).wf(),
            spec_has_token(old(self).spec_sessions(), token),
        ensures
            final(self).wf(),
            unchanged_frame(*old(self), *final(self)),
            final(self).spec_next_token() == old(self).spec_next_token(),
            final(self).spec_now() == (if old(self).spec_now() < u64::MAX {
                (old(self).spec_now() + 1) as u64
            } else {
                old(self).spec_now()
            }),
            final(self).spec_listener_writable(),
            r == !old(self).spec_listener_writable(),
            final(self).spec_sessions().len() == old(self).spec_sessions().len(),
            forall|i: int| 0 <= i < old(self).spec_sessions().len() && (#[trigger] old(self).spec_sessions()[i]).token != token ==> final(self).spec_sessions()[i] == old(self).spec_sessions()[i],
            forall|i: int| 0 <= i < old(self).spec_sessions().len() && (#[trigger] old(self).spec_sessions()[i]).token == token ==> ({
                let s1 = final(self).spec_sessions()[i];
                let s0 = old(self).spec_sessions()[i];
                &&& final(self).spec_writeback() == old(self).spec_writeback().push(
                    (enc_of(s0.peer).0, enc_of(s0.peer).1, enc_of(s0.peer).2, data@),
                )
                &&& s1.pending == s0.pending
                &&& s1.writable == s0.writable
                &&& s1.target == s0.target
                &&& s1.token == s0.token
                &&& s1.peer == s0.peer
                &&& s1.last_active == (if old(self).spec_now() < u64::MAX {
                    old(self).spec_now()
                } else {
                    s0.last_active
                })
            }),
    {
        let i = match self.index_of_token(token) {
            Some(i) => i,
            None => {
                proof {
                    assert(false);
                }
                return false;
            },
        };
        let mut s = self.sessions.remove(i);
        let (v6, ip, port) = match s.peer.ip {
            IpRepr::V4(x) => (false, x as u128, s.peer.port),
            IpRepr::V6(x) => (true, x, s.peer.port),
        };
        wb_add(&mut self.writeback, v6, ip, port, data);
        let r = !self.listener_writable;
        self.listener_writable = true;
        if self.now_us < u64::MAX {
            s.last_active = self.now_us;
            self.now_us = self.now_us + 1;
        }
        self.sessions.insert(i, s);
        proof {
            lemma_update_frame(old(self).sessions@, self.sessions@, i as int);
            assert(queue_items(self.writeback).drop_last() =~= queue_items(
                old(self).writeback,
            ));
            if old(self).now_us < u64::MAX {
                assert forall|a: int, b: int| 0 <= a < b < self.sessions@.len() implies (
                #[trigger] self.sessions@[a]).last_active != (
                #[trigger] self.sessions@[b]).last_active by {
                    if a != i && b != i {
                        assert(self.sessions@[a] == old(self).sessions@[a]);
                        assert(self.sessions@[b] == old(self).sessions@[b]);
                    }
                }
            }
        }
        r
    }

    /// Takes the oldest write-back element: the client address and the
    /// payload to send to it. Drops the listener's writable interest when
    /// the queue empties. A datagram the driver then fails to send is lost,
    /// as datagrams may be.
    pub fn pop_writeback(&mut self) -> (r: Option<(NetAddr, Vec<u8>)>)
        requires
            old(self).wf(),
        ensures
            final(self).wf(),
            unchanged_frame(*old(self), *final(self)),
            final(self).spec_sessions() == old(self).spec_sessions(),
            final(self).spec_now() == old(self).spec_now(),
            final(self).spec_next_token() == old(self).spec_next_token(),
            old(self).spec_writeback().len() == 0 ==> r is None && final(self).spec_writeback()
                == old(self).spec_writeback() && final(self).spec_listener_writable() == old(
                self,
            ).spec_listener_writable(),
            old(self).spec_writeback().len() > 0 ==> {
                &&& final(self).spec_writeback() == old(self).spec_writeback().drop_first()
                &&& r matches Some(v) && v.0 == dec_of(old(self).spec_writeback().first())
                    && v.1@ == old(self).spec_writeback().first().3
                &&& final(self).spec_listener_writable() == (final(self).spec_writeback().len() > 0)
            },
    {
        match wb_remove(&mut self.writeback) {
            None => None,
            Some(t) => {
                if wb_size(&self.writeback) == 0 {
                    self.listener_writable = false;
                }
                let addr = if t.0 {
                    NetAddr { ip: IpRepr::V6(t.1), port: t.2 }
                } else {
                    NetAddr { ip: IpRepr::V4(t.1 as u32), port: t.2 }
                };
                proof {
                    assert(old(self).spec_writeback()[0].1 <= 0xffffffffu128 || old(self).spec_writeback()[0].0);
                }
                Some((addr, t.3))
            },
        }
    }

    /// Evicts one session (idle expiry is `begin_tick`; this serves plugin
    /// refusals and socket errors). The driver deregisters and drops the
    /// session's socket.
    pub fn evict_session(&mut self, token: u64) -> (r: bool)
        requires
            old(self).wf(),
        ensures
            final(self).wf(),
            unchanged_frame(*old(self), *final(self)),
            final(self).spec_writeback() == old(self).spec_writeback(),
            final(self).spec_listener_writable() == old(self).spec_listener_writable(),
            final(self).spec_now() == old(self).spec_now(),
            final(self).spec_next_token() == old(self).spec_next_token(),
            r == spec_has_token(old(self).spec_sessions(), token),
            !r ==> *final(self) == *old(self),
            r ==> exists|i: int| 0 <= i < old(self).spec_sessions().len() && (#[trigger] old(self).spec_sessions()[i]).token == token && final(self).spec_sessions() == old(self).spec_sessions().remove(i),
            !spec_has_token(final(self).spec_sessions(), token),
    {
        let i = match self.index_of_token(token) {
            Some(i) => i,
            None => {
                return false;
            },
        };
        let ghost ss0 = self.sessions@;
        let _ = self.sessions.remove(i);
        proof {
            let ss1 = self.sessions@;
            assert forall|a: int, b: int| 0 <= a < b < ss1.len() implies (
            #[trigger] ss1[a]).token != (#[trigger] ss1[b]).token && ss1[a].peer != ss1[b].peer
                && ss1[a].last_active != ss1[b].last_active by {
                let a0 = if a < i {
                    a
                } else {
                    a + 1
                };
                let b0 = if b < i {
                    b
                } else {
                    b + 1
                };
                assert(ss1[a] == ss0[a0] && ss1[b] == ss0[b0]);
            }
            assert forall|a: int| 0 <= a < ss1.len() implies !((#[trigger] ss1[a]).token
                == token) by {
                let a0 = if a < i {
                    a
                } else {
                    a + 1
                };
                assert(ss1[a] == ss0[a0]);
                lemma_token_unique(ss0, i as int, token);
            }
        }
        true
    }

    /// Starts a poll tick: advances the engine clock to the wall clock
    /// (never backwards, keeping activity stamps unique), and evicts every
    /// session idle longer than the lifespan. Returns the evicted sessions'
    /// tokens; afterwards no live session is expired.
    pub fn begin_tick(&mut self, wall_now_us: u64) -> (r: Vec<u64>)
        requires
            old(self).wf(),
        ensures
            final(self).wf(),
            unchanged_frame(*old(self), *final(self)),
            final(self).spec_writeback() == old(self).spec_writeback(),
            final(self).spec_listener_writable() == old(self).spec_listener_writable(),
            final(self).spec_next_token() == old(self).spec_next_token(),
            final(self).spec_now() == (if wall_now_us > old(self).spec_now() {
                wall_now_us
            } else {
                old(self).spec_now()
            }),
            final(self).spec_sessions() == spec_kept(old(self).spec_sessions(), final(self).spec_now()),
            r@ == spec_evicted(old(self).spec_sessions(), final(self).spec_now()),
            forall|i: int| 0 <= i < final(self).spec_sessions().len() ==> !spec_expired(
                #[trigger] final(self).spec_sessions()[i],
                final(self).spec_now(),
            ),
    {
        if wall_now_us > self.now_us {
            self.now_us = wall_now_us;
        }
        let now = self.now_us;
        let init_len = self.sessions.len();
        let ghost ss0 = self.sessions@;
        proof {
            assert(ss0.len() == init_len);
        }
        let mut kept: Vec<UdpSession> = Vec::new();
        let mut evicted: Vec<u64> = Vec::new();
        proof {
            assert(ss0.take(0) =~= Seq::<UdpSession>::empty());
        }
        let mut k: usize = 0;
        while self.sessions.len() > 0
            invariant
                self.now_us == now,
                now >= 1,
                self.next_token == old(self).spec_next_token(),
                self.next_token >= 1,
                self.max_connections == old(self).spec_max_connections(),
                self.plugin == old(self).spec_plugin(),
                self.writeback == old(self).writeback,
                self.listener_writable == old(self).spec_listener_writable(),
                queue_items(self.writeback).len() > 0 <==> self.listener_writable,
                forall|q: int| 0 <= q < queue_items(self.writeback).len() ==> (!(
                #[trigger] queue_items(self.writeback)[q]).0 ==> queue_items(self.writeback)[
                    q
                ].1 <= 0xffffffffu128),
                k == ss0.len() - self.sessions@.len(),
                0 <= k <= ss0.len() <= usize::MAX,
                kept@.len() <= k,
                self.sessions@ =~= ss0.skip(k as int),
                kept@ == spec_kept(ss0.take(k as int), now),
                evicted@ == spec_evicted(ss0.take(k as int), now),
                forall|a: int| 0 <= a < kept@.len() ==> exists|j: int| 0 <= j < k && ss0[j] == (
                #[trigger] kept@[a]),
                forall|a: int| 0 <= a < kept@.len() ==> !spec_expired(#[trigger] kept@[a], now),
                forall|a: int, b: int| 0 <= a < b < ss0.len() ==> (#[trigger] ss0[a]).token != (
                #[trigger] ss0[b]).token && ss0[a].peer != ss0[b].peer && ss0[a].last_active
                    != ss0[b].last_active,
                forall|a: int| 0 <= a < ss0.len() ==> 1 <= (#[trigger] ss0[a]).token
                    < self.next_token && ss0[a].last_active < self.now_us && (
                ss0[a].pending@.len() > 0 <==> ss0[a].writable),
                forall|a: int, b: int| 0 <= a < b < kept@.len() ==> (#[trigger] kept@[a]).token
                    != (#[trigger] kept@[b]).token && kept@[a].peer != kept@[b].peer && kept@[
                    a
                ].last_active != kept@[b].last_active,
            decreases self.sessions@.len(),
        {
            let s = self.sessions.remove(0);
            proof {
                assert(ss0.skip(k as int).first() == ss0[k as int]);
                assert(ss0.skip(k as int).drop_first() =~= ss0.skip(k + 1));
                assert(ss0.take(k + 1).drop_last() =~= ss0.take(k as int));
                assert(ss0.take(k + 1).last() == ss0[k as int]);
            }
            let expired = now >= LIFESPAN_US && s.last_active < now - LIFESPAN_US;
            if expired {
                evicted.push(s.token);
            } else {
                let ghost kept0 = kept@;
                kept.push(s);
                proof {
                    assert forall|a: int| 0 <= a < kept@.len() implies exists|j: int| 0 <= j < k
                        + 1 && ss0[j] == (#[trigger] kept@[a]) by {
                        if a < kept0.len() {
                            assert(kept@[a] == kept0[a]);
                            let j = choose|j: int| 0 <= j < k && ss0[j] == kept0[a];
                            assert(ss0[j] == kept@[a]);
                        } else {
                            assert(kept@[a] == ss0[k as int]);
                        }
                    }
                    assert forall|a: int, b: int| 0 <= a < b < kept@.len() implies (
                    #[trigger] kept@[a]).token != (#[trigger] kept@[b]).token && kept@[a].peer
                        != kept@[b].peer && kept@[a].last_active != kept@[b].last_active by {
                        if b < kept0.len() {
                        } else {
                            assert(kept@[a] == kept0[a]);
                            let j = choose|j: int| 0 <= j < k && ss0[j] == kept0[a];
                            assert(kept@[b] == ss0[k as int]);
                        }
                    }
                }
            }
            k = k + 1;
        }
        proof {
            assert(ss0.take(ss0.len() as int) =~= ss0);
            assert forall|a: int| 0 <= a < kept@.len() implies 1 <= (#[trigger] kept@[a]).token
                < self.next_token && kept@[a].last_active < self.now_us && (
            kept@[a].pending@.len() > 0 <==> kept@[a].writable) by {
                let j = choose|j: int| 0 <= j < k && ss0[j] == kept@[a];
                assert(ss0[j] == kept@[a]);
            }
        }
        self.sessions = kept;
        evicted
    }
}

/// Engine fields that no event changes.
pub open spec fn unchanged_frame(a: UdpEngine, b: UdpEngine) -> bool {
    &&& b.spec_max_connections() == a.spec_max_connections()
    &&& b.spec_plugin() == a.spec_plugin()
}

/// Tokens are unique, so an index match pins the only session with a token.
proof fn lemma_token_unique(ss: Seq<UdpSession>, i: int, token: u64)
    requires
        0 <= i < ss.len(),
        ss[i].token == token,
        forall|a: int, b: int| 0 <= a < b < ss.len() ==> (#[trigger] ss[a]).token != (
        #[trigger] ss[b]).token,
    ensures
        forall|j: int| 0 <= j < ss.len() && (#[trigger] ss[j]).token == token ==> j == i,
{
    assert forall|j: int| 0 <= j < ss.len() && (#[trigger] ss[j]).token == token implies j
        == i by {
        if j < i {
            assert(ss[j].token != ss[i].token);
        } else if j > i {
            assert(ss[i].token != ss[j].token);
        }
    }
}

/// Removing one session and reinserting its updated record at the same
/// index keeps every per-index invariant when token, peer and activity
/// stamp are untouched; the caller supplies what changed.
proof fn lemma_update_frame(ss0: Seq<UdpSession>, ss1: Seq<UdpSession>, i: int)
    requires
        0 <= i < ss0.len(),
        ss1.len() == ss0.len(),
        forall|j: int| 0 <= j < ss0.len() && j != i ==> #[trigger] ss1[j] == ss0[j],
    ensures
        forall|j: int| 0 <= j < ss1.len() && j != i ==> #[trigger] ss1[j] == ss0[j],
{
}

/// The LRU key is injective: no two sessions share an activity stamp, and
/// each session appears under exactly one token.
pub proof fn lemma_lru_injective(e: &UdpEngine)
    requires
        e.wf(),
    ensures
        forall|i: int, j: int| 0 <= i < j < e.spec_sessions().len() ==> (
        #[trigger] e.spec_sessions()[i]).last_active != (
        #[trigger] e.spec_sessions()[j]).last_active,
        forall|i: int, j: int| 0 <= i < j < e.spec_sessions().len() ==> (
        #[trigger] e.spec_sessions()[i]).token != (#[trigger] e.spec_sessions()[j]).token,
{
}

/// The session cap holds: with a configured maximum, no more sessions live.
pub proof fn lemma_session_cap(e: &UdpEngine)
    requires
        e.wf(),
    ensures
        e.spec_max_connections() matches Some(mx) ==> e.spec_sessions().len() <= mx,
{
}

/// Session and listener registration mirror their queues: a session socket
/// is registered writable exactly while datagrams wait for the upstream,
/// and the listener exactly while replies wait for clients.
pub proof fn lemma_udp_registration(e: &UdpEngine)
    requires
        e.wf(),
    ensures
        forall|i: int| 0 <= i < e.spec_sessions().len() ==> ((
        #[trigger] e.spec_sessions()[i]).pending@.len() > 0 <==> e.spec_sessions()[i].writable),
        e.spec_writeback().len() > 0 <==> e.spec_listener_writable(),
{
}

/// When no session is found for a peer, no session has that peer.
proof fn lemma_find_none_means_no_peer(ss: Seq<UdpSession>, peer: NetAddr)
    requires
        spec_find_session(ss, peer) is None,
    ensures
        forall|i: int| 0 <= i < ss.len() ==> (#[trigger] ss[i]).peer != peer,
    decreases ss.len(),
{
    if ss.len() > 0 {
        lemma_find_none_means_no_peer(ss.drop_first(), peer);
        assert forall|i: int| 0 <= i < ss.len() implies (#[trigger] ss[i]).peer != peer by {
            if i > 0 {
                assert(ss.drop_first()[i - 1] == ss[i]);
            }
        }
    }
}

} // verus!
