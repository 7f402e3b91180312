//! The server's table of client sessions: session ids and tunnel addresses
//! handed out from pools, lookup by id and by tunnel address, and expiry of
//! idle sessions through a queue ordered by the time a session was last
//! (re)queued.

use vstd::prelude::*;

use std::collections::{BTreeMap, HashMap};

use dashmap::DashMap;
use snow::StatelessTransportState;

use crate::client_builder::Alg;
use crate::ip_pool::{
    initial_pool, increment_ip, ip_value, next_step, pool_offset, pool_wf, release_step, valid_prefix,
    IpAddressGenerator, PoolView,
};
use crate::net::{IpAddress, SocketAddress};
use crate::replay::{window_step, WindowModel};
use crate::session::{Session, SessionId};

verus! {

broadcast use {vstd::std_specs::hash::group_hash_axioms, vstd::laws_cmp::group_laws_cmp};

/// The pool session ids come from: the 2^32 values of a `u32`, handed out
/// like the addresses of an IPv6 /96 starting at `::`.
pub open spec fn id_pool_wf(v: PoolView) -> bool {
    &&& pool_wf(v)
    &&& v.start == 0
    &&& v.range_size == 0x1_0000_0000
    &&& !v.is_v4
}

/// The address that stands for a session id in its pool.
pub open spec fn id_addr(sid: u32) -> IpAddress {
    IpAddress::V6(sid as u128)
}

/// Hands out session ids that are not in use.
pub struct SessionIdGenerator {
    pool: IpAddressGenerator,
}

impl View for SessionIdGenerator {
    type V = PoolView;

    closed spec fn view(&self) -> PoolView {
        self.pool@
    }
}

impl SessionIdGenerator {
    /// A generator with no id in use, starting at id 0.
    pub fn new() -> (g: Self)
        ensures
            g@ == initial_pool(IpAddress::V6(0), 96),
            id_pool_wf(g@),
            g@.cursor == 0,
            g@.borrowed == Set::<u64>::empty(),
    {
        let pool = IpAddressGenerator::new(IpAddress::V6(0), 96);
        proof {
            assert(0u128 & (!0u128 << 32u128) == 0) by (bit_vector);
            assert((0u128 | !(!0u128 << 32u128)) == 0xFFFF_FFFFu128) by (bit_vector);
        }
        SessionIdGenerator { pool }
    }

    /// The next id not in use at or after the cursor; `None` when all are in use.
    pub fn next(&mut self) -> (r: Option<SessionId>)
        requires
            id_pool_wf(old(self)@),
        ensures
            id_pool_wf(final(self)@),
            next_step(
                old(self)@,
                final(self)@,
                match r {
                    Some(sid) => Some(id_addr(sid)),
                    None => None,
                },
            ),
    {
        let r = self.pool.next();
        proof {
            crate::ip_pool::lemma_next_keeps_wf(old(self)@, self@, r);
            if r is Some {
                crate::ip_pool::lemma_next_hands_out_free(old(self)@, self@, r.unwrap());
            }
        }
        match r {
            Some(IpAddress::V6(v)) => Some(v as u32),
            _ => None,
        }
    }

    /// Returns `sid` to the pool.
    pub fn release(&mut self, sid: SessionId)
        requires
            id_pool_wf(old(self)@),
        ensures
            id_pool_wf(final(self)@),
            release_step(old(self)@, final(self)@, id_addr(sid)),
            final(self)@.borrowed == old(self)@.borrowed.remove(sid as u64),
    {
        self.pool.release(&IpAddress::V6(sid as u128));
    }
}

/// What the session table holds.
pub struct SessionsView {
    /// The session id pool.
    pub ids: PoolView,
    /// The tunnel address pool.
    pub ips: PoolView,
    /// Sessions by id.
    pub sessions: Map<SessionId, Session>,
    /// Session ids by the numeric value of their tunnel address.
    pub by_ip: Map<u128, SessionId>,
    /// Session ids by the time they were queued for an expiry check.
    pub queue: Map<u64, Seq<SessionId>>,
}

/// The numeric key of a tunnel address.
pub open spec fn ip_key(ip: IpAddress) -> u128 {
    ip_value(ip) as u128
}

/// What every session table satisfies: the two maps agree.
pub open spec fn sessions_wf(v: SessionsView) -> bool {
    &&& id_pool_wf(v.ids)
    &&& pool_wf(v.ips)
    &&& forall|sid: SessionId| #[trigger] v.sessions.contains_key(sid) ==> v.sessions[sid].id == sid
    &&& forall|sid: SessionId| #[trigger] v.sessions.contains_key(sid) ==> v.by_ip.contains_key(
        ip_key(v.sessions[sid].holy_ip),
    ) && v.by_ip[ip_key(v.sessions[sid].holy_ip)] == sid
    &&& forall|k: u128| #[trigger] v.by_ip.contains_key(k) ==> v.sessions.contains_key(v.by_ip[k])
        && ip_key(v.sessions[v.by_ip[k]].holy_ip) == k
}

#[verifier::external_type_specification]
#[verifier::external_body]
#[verifier::reject_recursive_types(K)]
#[verifier::reject_recursive_types(V)]
#[verifier::reject_recursive_types(S)]
pub struct ExDashMap<K, V, S>(DashMap<K, V, S>);

/// The tunnel-address index: address keys to session ids.
pub type IpIndex = DashMap<u128, SessionId>;

/// What a `DashMap<u128, SessionId>` maps: tunnel-address keys to session ids.
pub uninterp spec fn ip_index_items(m: DashMap<u128, SessionId>) -> Map<u128, SessionId>;

/// `DashMap::new`: an empty map.
#[verifier::external_body]
fn ip_index_new() -> (index: IpIndex)
    ensures
        ip_index_items(index) =~= Map::empty(),
{
    DashMap::new()
}

/// `DashMap::insert`: maps `k` to `v`; returns the value it replaced.
#[verifier::external_body]
fn ip_index_insert(m: &mut DashMap<u128, SessionId>, k: u128, v: SessionId) -> (r: Option<SessionId>)
    ensures
        ip_index_items(*final(m)) == ip_index_items(*old(m)).insert(k, v),
        r == (if ip_index_items(*old(m)).contains_key(k) {
            Some(ip_index_items(*old(m))[k])
        } else {
            None
        }),
{
    m.insert(k, v)
}

/// `DashMap::remove`: unmaps `k`; returns the value it held.
#[verifier::external_body]
fn ip_index_remove(m: &mut DashMap<u128, SessionId>, k: u128) -> (r: Option<SessionId>)
    ensures
        ip_index_items(*final(m)) == ip_index_items(*old(m)).remove(k),
        r == (if ip_index_items(*old(m)).contains_key(k) {
            Some(ip_index_items(*old(m))[k])
        } else {
            None
        }),
{
    match m.remove(&k) {
        Some((_, v)) => Some(v),
        None => None,
    }
}

/// `DashMap::get`, copied out of the read guard.
#[verifier::external_body]
fn ip_index_get(m: &DashMap<u128, SessionId>, k: u128) -> (r: Option<SessionId>)
    ensures
        r == (if ip_index_items(*m).contains_key(k) {
            Some(ip_index_items(*m)[k])
        } else {
            None
        }),
{
    match m.get(&k) {
        Some(entry) => Some(*entry),
        None => None,
    }
}

/// `DashMap::contains_key`.
#[verifier::external_body]
fn ip_index_contains(m: &DashMap<u128, SessionId>, k: u128) -> (r: bool)
    ensures
        r == ip_index_items(*m).contains_key(k),
{
    m.contains_key(&k)
}

/// Server session table.
pub struct Sessions {
    sid_gen: SessionIdGenerator,
    holy_ip_gen: IpAddressGenerator,
    /// Sessions by id. `get_by_sid` lends a `&Session` borrowed from this map;
    /// a `DashMap` lends its values only through a read guard that cannot
    /// outlive the call that takes it, so this map is a std `HashMap`.
    map: HashMap<SessionId, Session>,
    holy_ip_map: DashMap<u128, SessionId>,
    expiry_queue: BTreeMap<u64, Vec<SessionId>>,
}

impl View for Sessions {
    type V = SessionsView;

    closed spec fn view(&self) -> SessionsView {
        SessionsView {
            ids: self.sid_gen@,
            ips: self.holy_ip_gen@,
            sessions: self.map@,
            by_ip: ip_index_items(self.holy_ip_map),
            queue: self.expiry_queue@.map_values(|v: Vec<SessionId>| v@),
        }
    }
}

/// Whether `ip` is the tunnel address of a session.
pub open spec fn ip_in_use(v: SessionsView, ip: IpAddress) -> bool {
    v.by_ip.contains_key(ip_key(ip)) && v.sessions[v.by_ip[ip_key(ip)]].holy_ip == ip
}

impl Sessions {
    /// An empty table whose tunnel addresses come from the subnet of
    /// `network`/`prefix`, starting just after `network`.
    pub fn new(network: &IpAddress, prefix: u8) -> (s: Self)
        requires
            valid_prefix(*network, prefix),
        ensures
            sessions_wf(s@),
            s@.ids == initial_pool(IpAddress::V6(0), 96),
            s@.ips == initial_pool(crate::ip_pool::increment_ip_spec(*network), prefix),
            s@.sessions == Map::<SessionId, Session>::empty(),
            s@.by_ip == Map::<u128, SessionId>::empty(),
            s@.queue == Map::<u64, Seq<SessionId>>::empty(),
    {
        let first = increment_ip(*network);
        let s = Sessions {
            sid_gen: SessionIdGenerator::new(),
            holy_ip_gen: IpAddressGenerator::new(first, prefix),
            map: HashMap::new(),
            holy_ip_map: ip_index_new(),
            expiry_queue: BTreeMap::new(),
        };
        proof {
            assert(s@.queue =~= Map::<u64, Seq<SessionId>>::empty());
        }
        s
    }

    /// Takes a session id that is not in use.
    pub fn next_session_id(&mut self) -> (r: Option<SessionId>)
        requires
            sessions_wf(old(self)@),
        ensures
            sessions_wf(final(self)@),
            next_step(
                old(self)@.ids,
                final(self)@.ids,
                match r {
                    Some(sid) => Some(id_addr(sid)),
                    None => None,
                },
            ),
            final(self)@ == (SessionsView { ids: final(self)@.ids, ..old(self)@ }),
    {
        self.sid_gen.next()
    }

    /// Takes a tunnel address that is not in use.
    pub fn next_holy_ip(&mut self) -> (r: Option<IpAddress>)
        requires
            sessions_wf(old(self)@),
        ensures
            sessions_wf(final(self)@),
            next_step(old(self)@.ips, final(self)@.ips, r),
            final(self)@ == (SessionsView { ips: final(self)@.ips, ..old(self)@ }),
    {
        let r = self.holy_ip_gen.next();
        proof {
            crate::ip_pool::lemma_next_keeps_wf(old(self)@.ips, self@.ips, r);
        }
        r
    }

    /// Gives back a session id taken with `next_session_id` but never added.
    pub fn release_session_id(&mut self, sid: SessionId)
        requires
            sessions_wf(old(self)@),
        ensures
            sessions_wf(final(self)@),
            final(self)@ == (SessionsView {
                ids: PoolView { borrowed: old(self)@.ids.borrowed.remove(sid as u64), ..old(self)@.ids },
                ..old(self)@
            }),
    {
        self.sid_gen.release(sid);
    }

    /// Gives back a tunnel address taken with `next_holy_ip` but never added.
    pub fn release_holy_ip(&mut self, holy_ip: &IpAddress)
        requires
            sessions_wf(old(self)@),
        ensures
            sessions_wf(final(self)@),
            release_step(old(self)@.ips, final(self)@.ips, *holy_ip),
            final(self)@ == (SessionsView { ips: final(self)@.ips, ..old(self)@ }),
    {
        self.holy_ip_gen.release(holy_ip);
    }
}

/// `queue` with `sid` appended to the entry at `key`.
pub open spec fn queue_push(queue: Map<u64, Seq<SessionId>>, key: u64, sid: SessionId) -> Map<
    u64,
    Seq<SessionId>,
> {
    queue.insert(
        key,
        if queue.contains_key(key) {
            queue[key]
        } else {
            Seq::empty()
        }.push(sid),
    )
}

impl Sessions {
    /// Appends `sid` to the expiry queue at `key`.
    fn queue_push(&mut self, key: u64, sid: SessionId)
        ensures
            final(self)@ == (SessionsView { queue: queue_push(old(self)@.queue, key, sid), ..old(self)@ }),
    {
        let mut v = match self.expiry_queue.remove(&key) {
            Some(v) => v,
            None => Vec::new(),
        };
        v.push(sid);
        self.expiry_queue.insert(key, v);
        proof {
            assert(self@.queue =~= queue_push(old(self)@.queue, key, sid));
        }
    }

    /// Adds the session of a client that completed its handshake.
    ///
    /// `sid` and `ip` must be fresh: taken from `next_session_id` and
    /// `next_holy_ip` (or otherwise held by no session).
    pub fn add(
        &mut self,
        sid: SessionId,
        ip: IpAddress,
        sock_addr: SocketAddress,
        enc: Alg,
        state: StatelessTransportState,
        now: u64,
    )
        requires
            sessions_wf(old(self)@),
            !old(self)@.sessions.contains_key(sid),
            !old(self)@.by_ip.contains_key(ip_key(ip)),
        ensures
            sessions_wf(final(self)@),
            final(self)@.ids == old(self)@.ids,
            final(self)@.ips == old(self)@.ips,
            final(self)@.sessions.contains_key(sid),
            final(self)@.sessions.remove(sid) == old(self)@.sessions,
            final(self)@.sessions[sid].id == sid,
            final(self)@.sessions[sid].addr() == sock_addr,
            final(self)@.sessions[sid].last_seen == now,
            final(self)@.sessions[sid].holy_ip == ip,
            final(self)@.sessions[sid].enc == enc,
            final(self)@.sessions[sid].state == state,
            final(self)@.sessions[sid].send_nonce == 0,
            final(self)@.sessions[sid].recv_window@ == (WindowModel {
                initialized: false,
                last: 0,
                seen: Set::<int>::empty(),
            }),
            final(self)@.by_ip == old(self)@.by_ip.insert(ip_key(ip), sid),
            final(self)@.queue == queue_push(old(self)@.queue, now, sid),
    {
        let session = Session::new(sid, ip, sock_addr, enc, state, now);
        self.map.insert(sid, session);
        let key: u128 = match ip {
            IpAddress::V4(a) => a as u128,
            IpAddress::V6(a) => a,
        };
        ip_index_insert(&mut self.holy_ip_map, key, sid);
        self.queue_push(now, sid);
        proof {
            assert(self@.sessions.remove(sid) =~= old(self)@.sessions);
            let v = self@;
            assert forall|k: u128| #[trigger] v.by_ip.contains_key(k) implies v.sessions.contains_key(
                v.by_ip[k],
            ) && ip_key(v.sessions[v.by_ip[k]].holy_ip) == k by {
                if k != key {
                    assert(old(self)@.by_ip.contains_key(k));
                }
            }
            assert forall|x: SessionId| #[trigger] v.sessions.contains_key(x) implies v.by_ip.contains_key(
                ip_key(v.sessions[x].holy_ip),
            ) && v.by_ip[ip_key(v.sessions[x].holy_ip)] == x by {
                if x != sid {
                    assert(old(self)@.sessions.contains_key(x));
                    assert(ip_key(v.sessions[x].holy_ip) != key);
                }
            }
        }
    }
}

impl Sessions {
    /// Ends the session `sid`: its tunnel address and its id go back to the pools.
    pub fn release_by_sid(&mut self, sid: SessionId)
        requires
            sessions_wf(old(self)@),
        ensures
            sessions_wf(final(self)@),
            final(self)@.sessions == old(self)@.sessions.remove(sid),
            old(self)@.sessions.contains_key(sid) ==> final(self)@.by_ip == old(self)@.by_ip.remove(
                ip_key(old(self)@.sessions[sid].holy_ip),
            ) && release_step(old(self)@.ips, final(self)@.ips, old(self)@.sessions[sid].holy_ip),
            !old(self)@.sessions.contains_key(sid) ==> final(self)@.by_ip == old(self)@.by_ip
                && final(self)@.ips == old(self)@.ips,
            final(self)@.ids == (PoolView {
                borrowed: old(self)@.ids.borrowed.remove(sid as u64),
                ..old(self)@.ids
            }),
            final(self)@.queue == old(self)@.queue,
    {
        let removed = self.map.remove(&sid);
        match removed {
            Some(session) => {
                let key: u128 = match session.holy_ip {
                    IpAddress::V4(a) => a as u128,
                    IpAddress::V6(a) => a,
                };
                ip_index_remove(&mut self.holy_ip_map, key);
                self.holy_ip_gen.release(&session.holy_ip);
            },
            None => {},
        }
        self.sid_gen.release(sid);
        proof {
            let v = self@;
            let o = old(self)@;
            if o.sessions.contains_key(sid) {
                let key = ip_key(o.sessions[sid].holy_ip);
                assert forall|k: u128| #[trigger] v.by_ip.contains_key(k) implies v.sessions.contains_key(
                    v.by_ip[k],
                ) && ip_key(v.sessions[v.by_ip[k]].holy_ip) == k by {
                    assert(o.by_ip.contains_key(k));
                    if o.by_ip[k] == sid {
                        assert(k == key);
                    }
                }
                assert forall|x: SessionId| #[trigger] v.sessions.contains_key(x) implies v.by_ip.contains_key(
                    ip_key(v.sessions[x].holy_ip),
                ) && v.by_ip[ip_key(v.sessions[x].holy_ip)] == x by {
                    assert(o.sessions.contains_key(x));
                }
            }
        }
    }

    /// Whether `sid` has a session.
    pub fn is_sid_allocated(&self, sid: SessionId) -> (r: bool)
        ensures
            r == self@.sessions.contains_key(sid),
    {
        self.map.contains_key(&sid)
    }

    /// Whether some session holds a tunnel address with the same key as `ip`.
    pub fn holds_ip_key(&self, ip: &IpAddress) -> (r: bool)
        ensures
            r == self@.by_ip.contains_key(ip_key(*ip)),
    {
        let key: u128 = match ip {
            IpAddress::V4(a) => *a as u128,
            IpAddress::V6(a) => *a,
        };
        ip_index_contains(&self.holy_ip_map, key)
    }

    /// Whether `ip` is the tunnel address of a session.
    pub fn is_holy_ip_allocated(&self, ip: &IpAddress) -> (r: bool)
        requires
            sessions_wf(self@),
        ensures
            r == ip_in_use(self@, *ip),
    {
        self.get_by_holy_ip(ip).is_some()
    }

    /// The session `sid`.
    pub fn get_by_sid(&self, sid: SessionId) -> (r: Option<&Session>)
        ensures
            match r {
                Some(s) => self@.sessions.contains_key(sid) && *s == self@.sessions[sid],
                None => !self@.sessions.contains_key(sid),
            },
    {
        self.map.get(&sid)
    }

    /// The session whose tunnel address is `ip`.
    pub fn get_by_holy_ip(&self, ip: &IpAddress) -> (r: Option<&Session>)
        requires
            sessions_wf(self@),
        ensures
            match r {
                Some(s) => ip_in_use(self@, *ip) && *s == self@.sessions[self@.by_ip[ip_key(*ip)]],
                None => !ip_in_use(self@, *ip),
            },
    {
        let key: u128 = match ip {
            IpAddress::V4(a) => *a as u128,
            IpAddress::V6(a) => *a,
        };
        match ip_index_get(&self.holy_ip_map, key) {
            None => None,
            Some(sid) => match self.map.get(&sid) {
                None => None,
                Some(s) => {
                    if s.holy_ip == *ip {
                        Some(s)
                    } else {
                        None
                    }
                },
            },
        }
    }

    /// Number of sessions.
    pub fn len(&self) -> (n: usize)
        ensures
            n == self@.sessions.len(),
    {
        self.map.len()
    }

    /// Replaces session `sid` by what `f` describes; helper for the updates below.
    fn take_session(&mut self, sid: SessionId) -> (r: Option<Session>)
        ensures
            match r {
                Some(s) => old(self)@.sessions.contains_key(sid) && s == old(self)@.sessions[sid],
                None => !old(self)@.sessions.contains_key(sid),
            },
            final(self)@ == (SessionsView { sessions: old(self)@.sessions.remove(sid), ..old(self)@ }),
    {
        self.map.remove(&sid)
    }

    /// Puts back a session taken with `take_session`.
    fn put_session(&mut self, s: Session)
        ensures
            final(self)@ == (SessionsView { sessions: old(self)@.sessions.insert(s.id, s), ..old(self)@ }),
    {
        self.map.insert(s.id, s);
    }
}

/// The table with session `sid`'s last-seen time set to `now`.
pub open spec fn touched(v: SessionsView, sid: SessionId, now: u64) -> SessionsView {
    if v.sessions.contains_key(sid) {
        SessionsView {
            sessions: v.sessions.insert(sid, Session { last_seen: now, ..v.sessions[sid] }),
            ..v
        }
    } else {
        v
    }
}

impl Sessions {
    /// Records that client `sid` was heard from at `now`.
    pub fn touch(&mut self, sid: SessionId, now: u64)
        requires
            sessions_wf(old(self)@),
        ensures
            sessions_wf(final(self)@),
            final(self)@ == touched(old(self)@, sid, now),
    {
        match self.take_session(sid) {
            None => {
                proof {
                    assert(self@.sessions =~= old(self)@.sessions);
                }
            },
            Some(s) => {
                let mut s = s;
                s.last_seen = now;
                self.put_session(s);
                proof {
                    assert(self@.sessions =~= touched(old(self)@, sid, now).sessions);
                    assert(self@.sessions.dom() =~= old(self)@.sessions.dom());
                }
            },
        }
        proof {
            lemma_same_ips_wf(old(self)@, self@);
        }
    }

    /// Touches session `sid` and returns it.
    pub fn get_and_touch(&mut self, sid: SessionId, now: u64) -> (r: Option<&Session>)
        requires
            sessions_wf(old(self)@),
        ensures
            sessions_wf(final(self)@),
            final(self)@ == touched(old(self)@, sid, now),
            match r {
                Some(s) => final(self)@.sessions.contains_key(sid) && *s == final(self)@.sessions[sid],
                None => !old(self)@.sessions.contains_key(sid),
            },
    {
        self.touch(sid, now);
        self.map.get(&sid)
    }

    /// Records the socket address client `sid` was last seen at.
    pub fn update_sock_addr(&mut self, sid: SessionId, addr: SocketAddress)
        requires
            sessions_wf(old(self)@),
        ensures
            sessions_wf(final(self)@),
            final(self)@.ids == old(self)@.ids,
            final(self)@.ips == old(self)@.ips,
            final(self)@.by_ip == old(self)@.by_ip,
            final(self)@.queue == old(self)@.queue,
            final(self)@.sessions.dom() == old(self)@.sessions.dom(),
            forall|x: SessionId| #[trigger]
                final(self)@.sessions.contains_key(x) && x != sid ==> final(self)@.sessions[x]
                    == old(self)@.sessions[x],
            old(self)@.sessions.contains_key(sid) ==> {
                let (n, o) = (final(self)@.sessions[sid], old(self)@.sessions[sid]);
                &&& n.addr() == addr
                &&& n.id == o.id
                &&& n.last_seen == o.last_seen
                &&& n.holy_ip == o.holy_ip
                &&& n.enc == o.enc
                &&& n.state == o.state
                &&& n.send_nonce == o.send_nonce
                &&& n.recv_window == o.recv_window
            },
    {
        match self.take_session(sid) {
            None => {
                proof {
                    assert(self@.sessions =~= old(self)@.sessions);
                }
            },
            Some(s) => {
                let mut s = s;
                s.set_sock_addr(addr);
                self.put_session(s);
                proof {
                    assert(self@.sessions.dom() =~= old(self)@.sessions.dom());
                }
            },
        }
        proof {
            lemma_same_ips_wf(old(self)@, self@);
        }
    }

    /// Runs session `sid`'s replay check on `nonce`; `None` when there is no such session.
    pub fn accept_nonce(&mut self, sid: SessionId, nonce: u64) -> (r: Option<bool>)
        requires
            sessions_wf(old(self)@),
        ensures
            sessions_wf(final(self)@),
            final(self)@.ids == old(self)@.ids,
            final(self)@.ips == old(self)@.ips,
            final(self)@.by_ip == old(self)@.by_ip,
            final(self)@.queue == old(self)@.queue,
            final(self)@.sessions.dom() == old(self)@.sessions.dom(),
            forall|x: SessionId| #[trigger]
                final(self)@.sessions.contains_key(x) && x != sid ==> final(self)@.sessions[x]
                    == old(self)@.sessions[x],
            r is None <==> !old(self)@.sessions.contains_key(sid),
            r matches Some(ok) ==> {
                let (n, o) = (final(self)@.sessions[sid], old(self)@.sessions[sid]);
                &&& (ok, n.recv_window@) == window_step(o.recv_window@, nonce as int)
                &&& n == (Session { recv_window: n.recv_window, ..o })
            },
    {
        match self.take_session(sid) {
            None => {
                proof {
                    assert(self@.sessions =~= old(self)@.sessions);
                    lemma_same_ips_wf(old(self)@, self@);
                }
                None
            },
            Some(s) => {
                let mut s = s;
                let ok = s.recv_window.check_and_update(nonce);
                self.put_session(s);
                proof {
                    assert(self@.sessions.dom() =~= old(self)@.sessions.dom());
                    lemma_same_ips_wf(old(self)@, self@);
                }
                Some(ok)
            },
        }
    }

    /// Takes session `sid`'s next outgoing nonce (the counter wraps at 2^64);
    /// `None` when there is no such session.
    pub fn take_send_nonce(&mut self, sid: SessionId) -> (r: Option<u64>)
        requires
            sessions_wf(old(self)@),
        ensures
            sessions_wf(final(self)@),
            final(self)@.ids == old(self)@.ids,
            final(self)@.ips == old(self)@.ips,
            final(self)@.by_ip == old(self)@.by_ip,
            final(self)@.queue == old(self)@.queue,
            final(self)@.sessions.dom() == old(self)@.sessions.dom(),
            forall|x: SessionId| #[trigger]
                final(self)@.sessions.contains_key(x) && x != sid ==> final(self)@.sessions[x]
                    == old(self)@.sessions[x],
            r is None <==> !old(self)@.sessions.contains_key(sid),
            r matches Some(n) ==> {
                let o = old(self)@.sessions[sid];
                &&& n == o.send_nonce
                &&& final(self)@.sessions[sid] == (Session {
                    send_nonce: ((o.send_nonce + 1) % 0x1_0000_0000_0000_0000int) as u64,
                    ..o
                })
            },
    {
        match self.take_session(sid) {
            None => {
                proof {
                    assert(self@.sessions =~= old(self)@.sessions);
                    lemma_same_ips_wf(old(self)@, self@);
                }
                None
            },
            Some(s) => {
                let mut s = s;
                let n = s.send_nonce;
                s.send_nonce = if n == u64::MAX {
                    0
                } else {
                    n + 1
                };
                self.put_session(s);
                proof {
                    assert(self@.sessions.dom() =~= old(self)@.sessions.dom());
                    lemma_same_ips_wf(old(self)@, self@);
                }
                Some(n)
            },
        }
    }
}

/// A table whose sessions changed only in fields other than id and tunnel
/// address stays well formed.
proof fn lemma_same_ips_wf(o: SessionsView, v: SessionsView)
    requires
        sessions_wf(o),
        v.ids == o.ids,
        v.ips == o.ips,
        v.by_ip == o.by_ip,
        v.sessions.dom() == o.sessions.dom(),
        forall|x: SessionId| #[trigger]
            v.sessions.contains_key(x) ==> v.sessions[x].id == o.sessions[x].id && v.sessions[x].holy_ip
                == o.sessions[x].holy_ip,
    ensures
        sessions_wf(v),
{
    assert forall|k: u128| #[trigger] v.by_ip.contains_key(k) implies v.sessions.contains_key(v.by_ip[k])
        && ip_key(v.sessions[v.by_ip[k]].holy_ip) == k by {
        assert(o.sessions.contains_key(o.by_ip[k]));
    }
}

/// The keys of `q` that are at most `cutoff`.
fn keys_up_to(q: &BTreeMap<u64, Vec<SessionId>>, cutoff: u64) -> (ks: Vec<u64>)
    ensures
        forall|k: u64| ks@.contains(k) <==> (q@.contains_key(k) && k <= cutoff),
{
    let mut ks: Vec<u64> = Vec::new();
    for k in it: q.keys()
        invariant
            it.seq().unref().to_set() == q@.dom(),
            forall|x: u64| ks@.contains(x) ==> q@.contains_key(x) && x <= cutoff,
            forall|j: int|
                0 <= j < it.index() && *it.seq()[j] <= cutoff ==> ks@.contains(*it.seq()[j]),
    {
        let ghost before = ks@;
        assert(*k == *it.seq()[it.index() as int]);
        assert(q@.contains_key(*k)) by {
            assert(it.seq().unref()[it.index() as int] == *k);
            assert(it.seq().unref().to_set().contains(*k));
        }
        if *k <= cutoff {
            ks.push(*k);
            assert(forall|x: u64| before.contains(x) ==> ks@.contains(x)) by {
                assert forall|x: u64| before.contains(x) implies ks@.contains(x) by {
                    let i = choose|i: int| 0 <= i < before.len() && before[i] == x;
                    assert(ks@[i] == x);
                }
            }
            assert(ks@[ks@.len() - 1] == *k);
            assert forall|x: u64| ks@.contains(x) implies before.contains(x) || x == *k by {
                let i = choose|i: int| 0 <= i < ks@.len() && ks@[i] == x;
                if i < before.len() {
                    assert(before[i] == x);
                }
            }
            assert forall|x: u64| ks@.contains(x) implies q@.contains_key(x) && x <= cutoff by {
                if before.contains(x) {
                } else {
                    assert(x == *k);
                }
            }
        }
    }
    ks
}

/// Cleanup's cutoff: entries queued at or before it are checked.
pub open spec fn cleanup_cutoff(now: u64, ttl: u64) -> int {
    if now >= ttl {
        now - ttl
    } else {
        0
    }
}

/// Whether session `s` has been idle longer than `ttl` at `now`.
pub open spec fn idle_too_long(s: Session, now: u64, ttl: u64) -> bool {
    (if now >= s.last_seen {
        now - s.last_seen
    } else {
        0
    }) > ttl
}

/// Whether `sid` has an expiry-queue entry at or before `cutoff`.
pub open spec fn queued_by(queue: Map<u64, Seq<SessionId>>, cutoff: int, sid: SessionId) -> bool {
    exists|k: u64| k <= cutoff && #[trigger] queue.contains_key(k) && queue[k].contains(sid)
}

/// Whether a cleanup at `now` with `ttl` ends session `sid`.
pub open spec fn cleanup_ends(v: SessionsView, now: u64, ttl: u64, sid: SessionId) -> bool {
    &&& v.sessions.contains_key(sid)
    &&& queued_by(v.queue, cleanup_cutoff(now, ttl), sid)
    &&& idle_too_long(v.sessions[sid], now, ttl)
}

/// The ids of sessions among `cands` that a cleanup ends, as pool offsets.
pub open spec fn ended_ids(v: SessionsView, now: u64, ttl: u64, cands: Seq<SessionId>) -> Set<u64> {
    Set::new(
        |o: u64|
            o < 0x1_0000_0000 && cands.contains(o as SessionId) && v.sessions.contains_key(
                o as SessionId,
            ) && idle_too_long(v.sessions[o as SessionId], now, ttl),
    )
}

/// The pool offsets of the tunnel addresses of sessions among `cands` that a
/// cleanup ends.
pub open spec fn ended_ips(v: SessionsView, now: u64, ttl: u64, cands: Seq<SessionId>) -> Set<u64> {
    Set::new(
        |o: u64|
            exists|sid: SessionId|
                #![trigger cands.contains(sid)]
                cands.contains(sid) && v.sessions.contains_key(sid) && idle_too_long(
                    v.sessions[sid],
                    now,
                    ttl,
                ) && pool_offset(v.ips, v.sessions[sid].holy_ip) == Some(o as int),
    )
}

/// What `cleanup_sessions(ttl, now)` does to a table `old`, giving `new`.
pub open spec fn cleanup_step(old: SessionsView, new: SessionsView, now: u64, ttl: u64) -> bool {
    let cutoff = cleanup_cutoff(now, ttl);
    &&& forall|sid: SessionId| #[trigger]
        new.sessions.contains_key(sid) <==> old.sessions.contains_key(sid) && !cleanup_ends(
            old,
            now,
            ttl,
            sid,
        )
    &&& forall|sid: SessionId| #[trigger]
        new.sessions.contains_key(sid) ==> new.sessions[sid] == old.sessions[sid]
    &&& new.ids == PoolView {
        borrowed: old.ids.borrowed.difference(
            Set::new(|o: u64| o < 0x1_0000_0000 && cleanup_ends(old, now, ttl, o as SessionId)),
        ),
        ..old.ids
    }
    &&& new.ips == PoolView {
        borrowed: old.ips.borrowed.difference(
            Set::new(
                |o: u64|
                    exists|sid: SessionId|
                        #[trigger] cleanup_ends(old, now, ttl, sid) && pool_offset(
                            old.ips,
                            old.sessions[sid].holy_ip,
                        ) == Some(o as int),
            ),
        ),
        ..old.ips
    }
    &&& forall|k: u64, x: SessionId|
        k > cutoff && old.queue.contains_key(k) && #[trigger] old.queue[k].contains(x)
            ==> new.queue.contains_key(k) && new.queue[k].contains(x)
    &&& forall|sid: SessionId| #[trigger]
        new.sessions.contains_key(sid) && queued_by(old.queue, cutoff, sid) ==> new.queue.contains_key(
            old.sessions[sid].last_seen,
        ) && new.queue[old.sessions[sid].last_seen].contains(sid)
}

impl Sessions {
    /// Takes the expiry-queue entries at `keys` out of the queue; returns the
    /// session ids they held.
    fn take_entries(&mut self, keys: &Vec<u64>) -> (cands: Vec<SessionId>)
        ensures
            final(self)@ == (SessionsView { queue: final(self)@.queue, ..old(self)@ }),
            forall|k: u64| #[trigger]
                final(self)@.queue.contains_key(k) <==> old(self)@.queue.contains_key(k)
                    && !keys@.contains(k),
            forall|k: u64| #[trigger]
                final(self)@.queue.contains_key(k) ==> final(self)@.queue[k] == old(self)@.queue[k],
            forall|sid: SessionId|
                cands@.contains(sid) <==> exists|k: u64|
                    #![trigger old(self)@.queue.contains_key(k)]
                    keys@.contains(k) && old(self)@.queue.contains_key(k) && old(self)@.queue[k].contains(
                        sid,
                    ),
    {
        let ghost o = self@;
        let mut cands: Vec<SessionId> = Vec::new();
        let mut i: usize = 0;
        while i < keys.len()
            invariant
                i <= keys@.len(),
                self@ == (SessionsView { queue: self@.queue, ..o }),
                forall|k: u64| #[trigger]
                    self@.queue.contains_key(k) <==> o.queue.contains_key(k) && !keys@.take(
                        i as int,
                    ).contains(k),
                forall|k: u64| #[trigger] self@.queue.contains_key(k) ==> self@.queue[k] == o.queue[k],
                forall|sid: SessionId|
                    cands@.contains(sid) <==> exists|k: u64|
                        #![trigger o.queue.contains_key(k)]
                        keys@.take(i as int).contains(k) && o.queue.contains_key(k)
                            && o.queue[k].contains(sid),
            decreases keys@.len() - i,
        {
            let k = keys[i];
            let ghost before = cands@;
            let ghost q = self@.queue;
            assert(keys@.take(i + 1) =~= keys@.take(i as int).push(k));
            assert forall|x: u64| keys@.take(i + 1).contains(x) <==> keys@.take(i as int).contains(x)
                || x == k by {
                vstd::seq_lib::lemma_seq_contains_after_push(keys@.take(i as int), k, x);
            }
            match self.expiry_queue.remove(&k) {
                Some(v) => {
                    let mut v = v;
                    cands.append(&mut v);
                },
                None => {},
            }
            proof {
                assert(self@.queue =~= q.remove(k));
                assert forall|x: u64| #[trigger]
                    self@.queue.contains_key(x) <==> o.queue.contains_key(x) && !keys@.take(
                        i + 1,
                    ).contains(x) by {
                    if x != k {
                        assert(self@.queue.contains_key(x) == q.contains_key(x));
                    }
                }
                assert forall|sid: SessionId|
                    cands@.contains(sid) <==> exists|kk: u64|
                        #![trigger o.queue.contains_key(kk)]
                        keys@.take(i + 1).contains(kk) && o.queue.contains_key(kk)
                            && o.queue[kk].contains(sid) by {
                    if cands@.contains(sid) {
                        let j = choose|j: int| 0 <= j < cands@.len() && cands@[j] == sid;
                        if j < before.len() {
                            assert(before[j] == sid);
                            assert(before.contains(sid));
                        } else {
                            assert(q.contains_key(k));
                            assert(q[k][j - before.len()] == sid);
                            assert(o.queue.contains_key(k) && o.queue[k].contains(sid));
                        }
                    }
                    if exists|kk: u64|
                        #![trigger o.queue.contains_key(kk)]
                        keys@.take(i + 1).contains(kk) && o.queue.contains_key(kk)
                            && o.queue[kk].contains(sid) {
                        let kk = choose|kk: u64|
                            #![trigger o.queue.contains_key(kk)]
                            keys@.take(i + 1).contains(kk) && o.queue.contains_key(kk)
                                && o.queue[kk].contains(sid);
                        if keys@.take(i as int).contains(kk) {
                            assert(before.contains(sid));
                            let j = choose|j: int| 0 <= j < before.len() && before[j] == sid;
                            assert(cands@[j] == sid);
                        } else {
                            assert(kk == k);
                            assert(q.contains_key(k));
                            let j = choose|j: int| 0 <= j < q[k].len() && q[k][j] == sid;
                            assert(cands@[before.len() + j] == sid);
                        }
                    }
                }
            }
            i = i + 1;
        }
        proof {
            assert(keys@.take(keys@.len() as int) =~= keys@);
        }
        cands
    }
}

impl Sessions {
    /// Ends every session among `cands` that has been idle longer than `ttl`
    /// at `now`; returns the others with their last-seen time.
    fn end_idle(&mut self, cands: &Vec<SessionId>, now: u64, ttl: u64) -> (requeue: Vec<(u64, SessionId)>)
        requires
            sessions_wf(old(self)@),
        ensures
            sessions_wf(final(self)@),
            final(self)@.queue == old(self)@.queue,
            forall|sid: SessionId| #[trigger]
                final(self)@.sessions.contains_key(sid) <==> old(self)@.sessions.contains_key(sid)
                    && !(cands@.contains(sid) && idle_too_long(old(self)@.sessions[sid], now, ttl)),
            forall|sid: SessionId| #[trigger]
                final(self)@.sessions.contains_key(sid)
                    ==> final(self)@.sessions[sid] == old(self)@.sessions[sid],
            final(self)@.ids == (PoolView {
                borrowed: old(self)@.ids.borrowed.difference(ended_ids(old(self)@, now, ttl, cands@)),
                ..old(self)@.ids
            }),
            final(self)@.ips == (PoolView {
                borrowed: old(self)@.ips.borrowed.difference(ended_ips(old(self)@, now, ttl, cands@)),
                ..old(self)@.ips
            }),
            forall|sid: SessionId| #[trigger]
                cands@.contains(sid) && old(self)@.sessions.contains_key(sid) && !idle_too_long(
                    old(self)@.sessions[sid],
                    now,
                    ttl,
                ) ==> requeue@.contains((old(self)@.sessions[sid].last_seen, sid)),
    {
        let ghost o = self@;
        let mut requeue: Vec<(u64, SessionId)> = Vec::new();
        let mut j: usize = 0;
        proof {
            assert(cands@.take(0) =~= Seq::<SessionId>::empty());
            assert(ended_ids(o, now, ttl, cands@.take(0)) =~= Set::<u64>::empty());
            assert(ended_ips(o, now, ttl, cands@.take(0)) =~= Set::<u64>::empty());
            assert(o.ids.borrowed.difference(Set::<u64>::empty()) =~= o.ids.borrowed);
            assert(o.ips.borrowed.difference(Set::<u64>::empty()) =~= o.ips.borrowed);
        }
        while j < cands.len()
            invariant
                j <= cands@.len(),
                sessions_wf(o),
                sessions_wf(self@),
                self@.queue == o.queue,
                forall|sid: SessionId| #[trigger]
                    self@.sessions.contains_key(sid) <==> o.sessions.contains_key(sid) && !(cands@.take(
                        j as int,
                    ).contains(sid) && idle_too_long(o.sessions[sid], now, ttl)),
                forall|sid: SessionId| #[trigger]
                    self@.sessions.contains_key(sid) ==> self@.sessions[sid] == o.sessions[sid],
                self@.ids == (PoolView {
                    borrowed: o.ids.borrowed.difference(ended_ids(o, now, ttl, cands@.take(j as int))),
                    ..o.ids
                }),
                self@.ips == (PoolView {
                    borrowed: o.ips.borrowed.difference(ended_ips(o, now, ttl, cands@.take(j as int))),
                    ..o.ips
                }),
                forall|sid: SessionId| #[trigger]
                    cands@.take(j as int).contains(sid) && o.sessions.contains_key(sid)
                        && !idle_too_long(o.sessions[sid], now, ttl) ==> requeue@.contains(
                        (o.sessions[sid].last_seen, sid),
                    ),
            decreases cands@.len() - j,
        {
            let sid = cands[j];
            let ghost pre = cands@.take(j as int);
            let ghost post = cands@.take(j + 1);
            let ghost cur = self@;
            let ghost rq = requeue@;
            proof {
                assert(post =~= pre.push(sid));
                assert forall|x: SessionId| post.contains(x) <==> pre.contains(x) || x == sid by {
                    vstd::seq_lib::lemma_seq_contains_after_push(pre, sid, x);
                }
            }
            match self.take_session(sid) {
                None => {
                    proof {
                        assert(self@.sessions =~= cur.sessions);
                        assert(ended_ids(o, now, ttl, post) =~= ended_ids(o, now, ttl, pre));
                        assert(ended_ips(o, now, ttl, post) =~= ended_ips(o, now, ttl, pre)) by {
                            assert forall|off: u64| #[trigger] ended_ips(o, now, ttl, post).contains(off)
                                implies ended_ips(o, now, ttl, pre).contains(off) by {
                                let x = choose|x: SessionId|
                                    #![trigger post.contains(x)]
                                    post.contains(x) && o.sessions.contains_key(x) && idle_too_long(
                                        o.sessions[x],
                                        now,
                                        ttl,
                                    ) && pool_offset(o.ips, o.sessions[x].holy_ip) == Some(off as int);
                                assert(pre.contains(x));
                            }
                            assert forall|off: u64| #[trigger] ended_ips(o, now, ttl, pre).contains(off)
                                implies ended_ips(o, now, ttl, post).contains(off) by {
                                let x = choose|x: SessionId|
                                    #![trigger pre.contains(x)]
                                    pre.contains(x) && o.sessions.contains_key(x) && idle_too_long(
                                        o.sessions[x],
                                        now,
                                        ttl,
                                    ) && pool_offset(o.ips, o.sessions[x].holy_ip) == Some(off as int);
                                assert(post.contains(x));
                            }
                        }
                    }
                },
                Some(session) => {
                    let idle = if now >= session.last_seen {
                        now - session.last_seen
                    } else {
                        0
                    };
                    if idle > ttl {
                        let ghost mid = self@;
                        let holy_ip = session.holy_ip;
                        let key: u128 = match holy_ip {
                            IpAddress::V4(a) => a as u128,
                            IpAddress::V6(a) => a,
                        };
                        let had = ip_index_remove(&mut self.holy_ip_map, key);
                        assert(had is Some);
                        self.holy_ip_gen.release(&holy_ip);
                        self.sid_gen.release(sid);
                        proof {
                            let v = self@;
                            assert(v.sessions == cur.sessions.remove(sid));
                            assert(v.by_ip == cur.by_ip.remove(key));
                            assert forall|k: u128| #[trigger] v.by_ip.contains_key(k) implies v.sessions.contains_key(
                                v.by_ip[k],
                            ) && ip_key(v.sessions[v.by_ip[k]].holy_ip) == k by {
                                assert(cur.by_ip.contains_key(k));
                                if cur.by_ip[k] == sid {
                                    assert(k == key);
                                }
                            }
                            assert forall|x: SessionId| #[trigger] v.sessions.contains_key(x) implies v.by_ip.contains_key(
                                ip_key(v.sessions[x].holy_ip),
                            ) && v.by_ip[ip_key(v.sessions[x].holy_ip)] == x by {
                                assert(cur.sessions.contains_key(x));
                            }
                            assert(ended_ids(o, now, ttl, post) =~= ended_ids(o, now, ttl, pre).insert(
                                sid as u64,
                            ));
                            assert(v.ids.borrowed =~= o.ids.borrowed.difference(
                                ended_ids(o, now, ttl, post),
                            ));
                            match pool_offset(o.ips, holy_ip) {
                                Some(off) => {
                                    assert(ended_ips(o, now, ttl, post) =~= ended_ips(
                                        o,
                                        now,
                                        ttl,
                                        pre,
                                    ).insert(off as u64)) by {
                                        assert(post.contains(sid));
                                        assert forall|z: u64| #[trigger] ended_ips(o, now, ttl, post).contains(z)
                                            implies ended_ips(o, now, ttl, pre).insert(off as u64).contains(z) by {
                                            let x = choose|x: SessionId|
                                                #![trigger post.contains(x)]
                                                post.contains(x) && o.sessions.contains_key(x)
                                                    && idle_too_long(o.sessions[x], now, ttl)
                                                    && pool_offset(o.ips, o.sessions[x].holy_ip) == Some(
                                                    z as int,
                                                );
                                            if x != sid {
                                                assert(pre.contains(x));
                                            }
                                        }
                                        assert forall|z: u64| #[trigger] ended_ips(o, now, ttl, pre).insert(off as u64).contains(z)
                                            implies ended_ips(o, now, ttl, post).contains(z) by {
                                            if z != off as u64 {
                                                let x = choose|x: SessionId|
                                                    #![trigger pre.contains(x)]
                                                    pre.contains(x) && o.sessions.contains_key(x)
                                                        && idle_too_long(o.sessions[x], now, ttl)
                                                        && pool_offset(o.ips, o.sessions[x].holy_ip)
                                                        == Some(z as int);
                                                assert(post.contains(x));
                                            }
                                        }
                                    }
                                    assert(v.ips.borrowed =~= o.ips.borrowed.difference(
                                        ended_ips(o, now, ttl, post),
                                    ));
                                },
                                None => {
                                    assert(ended_ips(o, now, ttl, post) =~= ended_ips(o, now, ttl, pre))
                                        by {
                                        assert forall|z: u64| #[trigger] ended_ips(o, now, ttl, post).contains(z)
                                            implies ended_ips(o, now, ttl, pre).contains(z) by {
                                            let x = choose|x: SessionId|
                                                #![trigger post.contains(x)]
                                                post.contains(x) && o.sessions.contains_key(x)
                                                    && idle_too_long(o.sessions[x], now, ttl)
                                                    && pool_offset(o.ips, o.sessions[x].holy_ip) == Some(
                                                    z as int,
                                                );
                                            assert(x != sid);
                                            assert(pre.contains(x));
                                        }
                                        assert forall|z: u64| #[trigger] ended_ips(o, now, ttl, pre).contains(z)
                                            implies ended_ips(o, now, ttl, post).contains(z) by {
                                            let x = choose|x: SessionId|
                                                #![trigger pre.contains(x)]
                                                pre.contains(x) && o.sessions.contains_key(x)
                                                    && idle_too_long(o.sessions[x], now, ttl)
                                                    && pool_offset(o.ips, o.sessions[x].holy_ip) == Some(
                                                    z as int,
                                                );
                                            assert(post.contains(x));
                                        }
                                    }
                                },
                            }
                        }
                    } else {
                        requeue.push((session.last_seen, sid));
                        self.put_session(session);
                        proof {
                            assert(self@.sessions =~= cur.sessions);
                            assert(ended_ids(o, now, ttl, post) =~= ended_ids(o, now, ttl, pre));
                            assert(ended_ips(o, now, ttl, post) =~= ended_ips(o, now, ttl, pre)) by {
                                assert forall|z: u64| #[trigger] ended_ips(o, now, ttl, post).contains(z)
                                    implies ended_ips(o, now, ttl, pre).contains(z) by {
                                    let x = choose|x: SessionId|
                                        #![trigger post.contains(x)]
                                        post.contains(x) && o.sessions.contains_key(x) && idle_too_long(
                                            o.sessions[x],
                                            now,
                                            ttl,
                                        ) && pool_offset(o.ips, o.sessions[x].holy_ip) == Some(z as int);
                                    assert(x != sid);
                                    assert(pre.contains(x));
                                }
                                assert forall|z: u64| #[trigger] ended_ips(o, now, ttl, pre).contains(z)
                                    implies ended_ips(o, now, ttl, post).contains(z) by {
                                    let x = choose|x: SessionId|
                                        #![trigger pre.contains(x)]
                                        pre.contains(x) && o.sessions.contains_key(x) && idle_too_long(
                                            o.sessions[x],
                                            now,
                                            ttl,
                                        ) && pool_offset(o.ips, o.sessions[x].holy_ip) == Some(z as int);
                                    assert(post.contains(x));
                                }
                            }
                            assert forall|x: SessionId| #[trigger]
                                post.contains(x) && o.sessions.contains_key(x) && !idle_too_long(
                                    o.sessions[x],
                                    now,
                                    ttl,
                                ) implies requeue@.contains((o.sessions[x].last_seen, x)) by {
                                if x == sid {
                                    assert(requeue@[requeue@.len() - 1] == (o.sessions[x].last_seen, x));
                                } else {
                                    assert(pre.contains(x));
                                    assert(rq.contains((o.sessions[x].last_seen, x)));
                                    let i = choose|i: int| 0 <= i < rq.len() && rq[i] == (o.sessions[x].last_seen, x);
                                    assert(requeue@[i] == rq[i]);
                                }
                            }
                        }
                    }
                },
            }
            j = j + 1;
        }
        proof {
            assert(cands@.take(cands@.len() as int) =~= cands@);
        }
        requeue
    }
}

impl Sessions {
    /// Queues each `(time, sid)` pair of `entries` at its time.
    fn requeue_all(&mut self, entries: &Vec<(u64, SessionId)>)
        ensures
            final(self)@ == (SessionsView { queue: final(self)@.queue, ..old(self)@ }),
            forall|k: u64, x: SessionId|
                old(self)@.queue.contains_key(k) && #[trigger] old(self)@.queue[k].contains(x)
                    ==> final(self)@.queue.contains_key(k) && final(self)@.queue[k].contains(x),
            forall|p: (u64, SessionId)| #[trigger]
                entries@.contains(p) ==> final(self)@.queue.contains_key(p.0)
                    && final(self)@.queue[p.0].contains(p.1),
    {
        let ghost o = self@;
        let mut i: usize = 0;
        while i < entries.len()
            invariant
                i <= entries@.len(),
                self@ == (SessionsView { queue: self@.queue, ..o }),
                forall|k: u64, x: SessionId|
                    o.queue.contains_key(k) && #[trigger] o.queue[k].contains(x)
                        ==> self@.queue.contains_key(k) && self@.queue[k].contains(x),
                forall|j: int|
                    0 <= j < i ==> self@.queue.contains_key(#[trigger] entries@[j].0)
                        && self@.queue[entries@[j].0].contains(entries@[j].1),
            decreases entries@.len() - i,
        {
            let (ts, sid) = entries[i];
            let ghost q = self@.queue;
            self.queue_push(ts, sid);
            proof {
                let q2 = self@.queue;
                assert forall|k: u64, x: SessionId|
                    q.contains_key(k) && q[k].contains(x) implies q2.contains_key(k)
                        && q2[k].contains(x) by {
                    if k == ts {
                        let j = choose|j: int| 0 <= j < q[k].len() && q[k][j] == x;
                        assert(q2[k][j] == x);
                    }
                }
                assert(q2[ts][q2[ts].len() - 1] == sid);
                assert forall|j: int|
                    0 <= j < i + 1 implies q2.contains_key(#[trigger] entries@[j].0) && q2[entries@[j].0].contains(
                        entries@[j].1,
                    ) by {
                    if j < i {
                        assert(q.contains_key(entries@[j].0) && q[entries@[j].0].contains(entries@[j].1));
                    }
                }
            }
            i = i + 1;
        }
    }

    /// Ends the sessions idle longer than `ttl` seconds at `now` among those
    /// queued for a check at or before `now - ttl`; the ones found still in
    /// use are queued again at the time they were last seen.
    pub fn cleanup_sessions(&mut self, ttl: u64, now: u64)
        requires
            sessions_wf(old(self)@),
        ensures
            sessions_wf(final(self)@),
            cleanup_step(old(self)@, final(self)@, now, ttl),
    {
        let ghost o = self@;
        let cutoff: u64 = if now >= ttl {
            now - ttl
        } else {
            0
        };
        let keys = keys_up_to(&self.expiry_queue, cutoff);
        let cands = self.take_entries(&keys);
        let ghost mid = self@;
        proof {
            assert forall|sid: SessionId| cands@.contains(sid) <==> queued_by(o.queue, cutoff as int, sid) by {
                if cands@.contains(sid) {
                    let k = choose|k: u64|
                        #![trigger o.queue.contains_key(k)]
                        keys@.contains(k) && o.queue.contains_key(k) && o.queue[k].contains(sid);
                    assert(o.queue.contains_key(k));
                }
                if queued_by(o.queue, cutoff as int, sid) {
                    let k = choose|k: u64|
                        k <= cutoff && #[trigger] o.queue.contains_key(k) && o.queue[k].contains(sid);
                    assert(keys@.contains(k));
                }
            }
        }
        let requeue = self.end_idle(&cands, now, ttl);
        let ghost after = self@;
        self.requeue_all(&requeue);
        proof {
            let v = self@;
            assert forall|sid: SessionId| #[trigger]
                v.sessions.contains_key(sid) <==> o.sessions.contains_key(sid) && !cleanup_ends(
                    o,
                    now,
                    ttl,
                    sid,
                ) by {
                assert(cands@.contains(sid) <==> queued_by(o.queue, cutoff as int, sid));
            }
            assert(ended_ids(o, now, ttl, cands@) =~= Set::new(
                |x: u64| x < 0x1_0000_0000 && cleanup_ends(o, now, ttl, x as SessionId),
            )) by {
                assert forall|x: u64| #[trigger] ended_ids(o, now, ttl, cands@).contains(x)
                    <==> (x < 0x1_0000_0000 && cleanup_ends(o, now, ttl, x as SessionId)) by {
                    assert(cands@.contains(x as SessionId) <==> queued_by(
                        o.queue,
                        cutoff as int,
                        x as SessionId,
                    ));
                }
            }
            assert(ended_ips(o, now, ttl, cands@) =~= Set::new(
                |z: u64|
                    exists|sid: SessionId|
                        #[trigger] cleanup_ends(o, now, ttl, sid) && pool_offset(
                            o.ips,
                            o.sessions[sid].holy_ip,
                        ) == Some(z as int),
            )) by {
                assert forall|z: u64| #[trigger] ended_ips(o, now, ttl, cands@).contains(z) implies exists|
                    sid: SessionId,
                | #[trigger] cleanup_ends(o, now, ttl, sid) && pool_offset(o.ips, o.sessions[sid].holy_ip) == Some(
                    z as int,
                ) by {
                    let x = choose|x: SessionId|
                        #![trigger cands@.contains(x)]
                        cands@.contains(x) && o.sessions.contains_key(x) && idle_too_long(
                            o.sessions[x],
                            now,
                            ttl,
                        ) && pool_offset(o.ips, o.sessions[x].holy_ip) == Some(z as int);
                    assert(cleanup_ends(o, now, ttl, x));
                }
                assert forall|z: u64|
                    (exists|sid: SessionId|
                        #[trigger] cleanup_ends(o, now, ttl, sid) && pool_offset(
                            o.ips,
                            o.sessions[sid].holy_ip,
                        ) == Some(z as int)) implies #[trigger] ended_ips(o, now, ttl, cands@).contains(
                    z,
                ) by {
                    let x = choose|x: SessionId|
                        #[trigger] cleanup_ends(o, now, ttl, x) && pool_offset(
                            o.ips,
                            o.sessions[x].holy_ip,
                        ) == Some(z as int);
                    assert(cands@.contains(x));
                }
            }
            assert forall|k: u64, x: SessionId|
                k > cutoff && o.queue.contains_key(k) && #[trigger] o.queue[k].contains(x) implies v.queue.contains_key(
                k,
            ) && v.queue[k].contains(x) by {
                assert(!keys@.contains(k));
                assert(mid.queue.contains_key(k));
            }
            assert forall|sid: SessionId| #[trigger]
                v.sessions.contains_key(sid) && queued_by(o.queue, cutoff as int, sid) implies v.queue.contains_key(
                o.sessions[sid].last_seen,
            ) && v.queue[o.sessions[sid].last_seen].contains(sid) by {
                assert(cands@.contains(sid));
                assert(requeue@.contains((o.sessions[sid].last_seen, sid)));
            }
        }
    }
}

/// Every session has an expiry-queue entry no later than its last-seen time.
pub open spec fn queue_covers(v: SessionsView) -> bool {
    forall|sid: SessionId| #[trigger]
        v.sessions.contains_key(sid) ==> exists|k: u64|
            k <= v.sessions[sid].last_seen && #[trigger] v.queue.contains_key(k) && v.queue[k].contains(
                sid,
            )
}

/// When every session is queued no later than it was last seen, a cleanup
/// ends exactly the sessions idle longer than the timeout, and leaves every
/// remaining session queued no later than it was last seen.
pub proof fn lemma_cleanup_ends_exactly_idle(old: SessionsView, new: SessionsView, now: u64, ttl: u64)
    requires
        queue_covers(old),
        cleanup_step(old, new, now, ttl),
    ensures
        forall|sid: SessionId| #[trigger]
            new.sessions.contains_key(sid) <==> old.sessions.contains_key(sid) && !idle_too_long(
                old.sessions[sid],
                now,
                ttl,
            ),
        queue_covers(new),
{
    let cutoff = cleanup_cutoff(now, ttl);
    assert forall|sid: SessionId| #[trigger]
        new.sessions.contains_key(sid) <==> old.sessions.contains_key(sid) && !idle_too_long(
            old.sessions[sid],
            now,
            ttl,
        ) by {
        if old.sessions.contains_key(sid) && idle_too_long(old.sessions[sid], now, ttl) {
            let k = choose|k: u64|
                k <= old.sessions[sid].last_seen && #[trigger] old.queue.contains_key(k)
                    && old.queue[k].contains(sid);
            assert(queued_by(old.queue, cutoff, sid));
        }
    }
    assert forall|sid: SessionId| #[trigger] new.sessions.contains_key(sid) implies exists|k: u64|
        k <= new.sessions[sid].last_seen && #[trigger] new.queue.contains_key(k) && new.queue[k].contains(
            sid,
        ) by {
        let ls = old.sessions[sid].last_seen;
        if queued_by(old.queue, cutoff, sid) {
            assert(new.queue.contains_key(ls) && new.queue[ls].contains(sid));
        } else {
            let k = choose|k: u64|
                k <= ls && #[trigger] old.queue.contains_key(k) && old.queue[k].contains(sid);
            assert(k > cutoff);
            assert(new.queue.contains_key(k) && new.queue[k].contains(sid));
        }
    }
}

/// Adding a session at `now` keeps every session queued no later than it was
/// last seen.
pub proof fn lemma_add_keeps_cover(
    old: SessionsView,
    new: SessionsView,
    sid: SessionId,
    now: u64,
)
    requires
        queue_covers(old),
        new.sessions.contains_key(sid),
        new.sessions.remove(sid) == old.sessions,
        new.sessions[sid].last_seen == now,
        new.queue == queue_push(old.queue, now, sid),
    ensures
        queue_covers(new),
{
    assert forall|x: SessionId| #[trigger] new.sessions.contains_key(x) implies exists|k: u64|
        k <= new.sessions[x].last_seen && #[trigger] new.queue.contains_key(k) && new.queue[k].contains(
            x,
        ) by {
        if x == sid {
            assert(new.queue[now][new.queue[now].len() - 1] == sid);
            assert(new.queue.contains_key(now) && new.queue[now].contains(sid));
        } else {
            assert(new.sessions.remove(sid).contains_key(x));
            assert(old.sessions.contains_key(x));
            assert(new.sessions[x] == new.sessions.remove(sid)[x]);
            let k = choose|k: u64|
                k <= old.sessions[x].last_seen && #[trigger] old.queue.contains_key(k)
                    && old.queue[k].contains(x);
            if k == now {
                let j = choose|j: int| 0 <= j < old.queue[k].len() && old.queue[k][j] == x;
                assert(new.queue[k][j] == x);
            }
            assert(new.queue.contains_key(k) && new.queue[k].contains(x));
        }
    }
}

/// Touching a session at a time no earlier than it was last seen keeps every
/// session queued no later than it was last seen.
pub proof fn lemma_touch_keeps_cover(v: SessionsView, sid: SessionId, now: u64)
    requires
        queue_covers(v),
        v.sessions.contains_key(sid) ==> v.sessions[sid].last_seen <= now,
    ensures
        queue_covers(touched(v, sid, now)),
{
    let t = touched(v, sid, now);
    assert forall|x: SessionId| #[trigger] t.sessions.contains_key(x) implies exists|k: u64|
        k <= t.sessions[x].last_seen && #[trigger] t.queue.contains_key(k) && t.queue[k].contains(x) by {
        let k = choose|k: u64|
            k <= v.sessions[x].last_seen && #[trigger] v.queue.contains_key(k) && v.queue[k].contains(x);
        assert(t.queue.contains_key(k));
    }
}

/// Every session is found by its tunnel address, and no other address finds it.
pub proof fn lemma_found_by_ip(v: SessionsView, sid: SessionId, ip: IpAddress)
    requires
        sessions_wf(v),
        v.sessions.contains_key(sid),
    ensures
        ip_in_use(v, v.sessions[sid].holy_ip),
        v.by_ip[ip_key(v.sessions[sid].holy_ip)] == sid,
        ip_in_use(v, ip) && v.by_ip[ip_key(ip)] == sid ==> ip == v.sessions[sid].holy_ip,
{
}

/// After a session is ended by id, neither its id nor its tunnel address
/// finds a session.
pub proof fn lemma_released_not_found(old: SessionsView, new: SessionsView, sid: SessionId)
    requires
        sessions_wf(old),
        sessions_wf(new),
        old.sessions.contains_key(sid),
        new.sessions == old.sessions.remove(sid),
        new.by_ip == old.by_ip.remove(ip_key(old.sessions[sid].holy_ip)),
    ensures
        !new.sessions.contains_key(sid),
        !ip_in_use(new, old.sessions[sid].holy_ip),
{
}

} // verus!
