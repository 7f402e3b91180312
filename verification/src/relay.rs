//! The bookkeeping of transparent inter-node relaying.
//!
//! A client connected to one node can reach another registry node without
//! the relaying node seeing plaintext: the relaying node only shuttles opaque
//! bytes between the client and an ephemeral socket bound to the destination.
//! It keeps, per relay id, the client address the flow was opened from, when
//! the flow last carried traffic, and the flow's I/O handles. Only the address
//! that opened a flow may drive it, so a guessed relay id cannot hijack the
//! reverse path.

use vstd::prelude::*;

use std::collections::HashMap;

use crate::keys::PublicKey;
use crate::net::SocketAddress;

verus! {

broadcast use vstd::std_specs::hash::group_hash_axioms;

/// Flows idle (no traffic either way) this many seconds or more are reaped.
pub const RELAY_IDLE_SECS: u64 = 60;

/// Cap on concurrent relay flows per node.
pub const MAX_RELAY_FLOWS: usize = 4096;

/// One relayed flow; `io` holds its socket and reader task.
pub struct RelayFlow<F> {
    pub client_addr: SocketAddress,
    /// Seconds since the runtime started when the flow last carried traffic.
    pub last_seen: u64,
    pub io: F,
}

/// The relay flows of a node, by relay id.
pub struct RelayTable<F> {
    flows: HashMap<u32, RelayFlow<F>>,
    next_id: u32,
}

/// What a relay table holds.
pub struct RelayView<F> {
    pub flows: Map<u32, RelayFlow<F>>,
    /// The next id to try.
    pub next_id: u32,
}

impl<F> View for RelayTable<F> {
    type V = RelayView<F>;

    closed spec fn view(&self) -> RelayView<F> {
        RelayView { flows: self.flows@, next_id: self.next_id }
    }
}

/// The `k`-th id tried from `start`, counting modulo 2^32.
pub open spec fn id_after(start: u32, k: int) -> u32 {
    ((start + k) % 0x1_0000_0000) as u32
}

/// Whether a flow idle since `last_seen` is still alive at `now`.
pub open spec fn flow_alive(last_seen: u64, now: u64) -> bool {
    (if now >= last_seen {
        now - last_seen
    } else {
        0
    }) < RELAY_IDLE_SECS
}

proof fn lemma_ids_distinct(start: u32, i: int, j: int)
    requires
        0 <= i < j < 0x1_0000_0000,
    ensures
        id_after(start, i) != id_after(start, j),
{
    let m = 0x1_0000_0000int;
    vstd::arithmetic::div_mod::lemma_sub_mod_noop(start + j, start + i, m);
    vstd::arithmetic::div_mod::lemma_small_mod((j - i) as nat, m as nat);
    vstd::arithmetic::div_mod::lemma_small_mod(((start + i) % m) as nat, m as nat);
    vstd::arithmetic::div_mod::lemma_small_mod(((start + j) % m) as nat, m as nat);
    if id_after(start, i) == id_after(start, j) {
        assert((start + i) % m == (start + j) % m);
        vstd::arithmetic::div_mod::lemma_small_mod(0, m as nat);
        assert(((start + j) % m - (start + i) % m) % m == 0int % m);
    }
}

impl<F> RelayTable<F> {
    /// An empty table; the first id handed out is 1.
    pub fn new() -> (t: Self)
        ensures
            t@.flows == Map::<u32, RelayFlow<F>>::empty(),
            t@.next_id == 1,
    {
        RelayTable { flows: HashMap::new(), next_id: 1 }
    }

    /// Number of flows.
    pub fn len(&self) -> (n: usize)
        ensures
            n == self@.flows.len(),
    {
        self.flows.len()
    }

    /// Whether a new flow may be opened: the table is below its cap.
    pub fn has_room(&self) -> (r: bool)
        ensures
            r == (self@.flows.len() < MAX_RELAY_FLOWS),
    {
        self.flows.len() < MAX_RELAY_FLOWS
    }

    /// Picks the next relay id: the first nonzero id at or after the counter
    /// that no flow uses. The counter moves past it, wrapping at 2^32.
    pub fn alloc_id(&mut self) -> (id: u32)
        requires
            old(self)@.flows.len() < MAX_RELAY_FLOWS,
        ensures
            id != 0,
            !old(self)@.flows.contains_key(id),
            final(self)@.flows == old(self)@.flows,
            exists|k: int|
                #![trigger id_after(old(self)@.next_id, k)]
                0 <= k < MAX_RELAY_FLOWS + 2 && id == id_after(old(self)@.next_id, k)
                    && final(self)@.next_id == id_after(old(self)@.next_id, k + 1) && forall|i: int|
                    0 <= i < k ==> {
                        let x = #[trigger] id_after(old(self)@.next_id, i);
                        x == 0 || old(self)@.flows.contains_key(x)
                    },
    {
        let ghost start = self.next_id;
        let ghost dom = self@.flows.dom();
        let mut tries: usize = 0;
        let ghost mut busy: Set<u32> = Set::empty();
        let ghost mut zero_seen: bool = false;
        loop
            invariant
                self@.flows == old(self)@.flows,
                dom == self@.flows.dom(),
                dom.finite(),
                dom.len() < MAX_RELAY_FLOWS,
                start == old(self)@.next_id,
                tries <= dom.len() + 2,
                self.next_id == id_after(start, tries as int),
                busy.finite(),
                busy.subset_of(dom),
                busy.len() + (if zero_seen {
                    1int
                } else {
                    0int
                }) == tries,
                forall|x: u32| #[trigger] busy.contains(x) ==> exists|i: int|
                    0 <= i < tries && id_after(start, i) == x,
                zero_seen ==> exists|i: int| 0 <= i < tries && id_after(start, i) == 0,
                forall|i: int|
                    0 <= i < tries ==> {
                        let x = #[trigger] id_after(start, i);
                        (x == 0 && zero_seen) || (x != 0 && busy.contains(x))
                    },
            decreases dom.len() + 2 - tries,
        {
            let id = self.next_id;
            self.next_id = if id == u32::MAX {
                0
            } else {
                id + 1
            };
            proof {
                vstd::arithmetic::div_mod::lemma_add_mod_noop(start + tries, 1, 0x1_0000_0000);
                vstd::arithmetic::div_mod::lemma_small_mod(1, 0x1_0000_0000);
                let c = (start + tries) % 0x1_0000_0000int;
                if c + 1 < 0x1_0000_0000 {
                    vstd::arithmetic::div_mod::lemma_small_mod((c + 1) as nat, 0x1_0000_0000);
                } else {
                    vstd::arithmetic::div_mod::lemma_mod_self_0(0x1_0000_0000);
                }
            }
            if id != 0 && !self.flows.contains_key(&id) {
                return id;
            }
            proof {
                let t = tries as int;
                assert forall|i: int| 0 <= i < t implies id_after(start, i) != id by {
                    lemma_ids_distinct(start, i, t);
                }
                if id == 0 {
                    assert(!zero_seen);
                    zero_seen = true;
                } else {
                    assert(!busy.contains(id));
                    busy = busy.insert(id);
                }
                vstd::set_lib::lemma_len_subset(busy, dom);
            }
            tries = tries + 1;
        }
    }

    /// Records a new flow under `id`.
    pub fn insert(&mut self, id: u32, flow: RelayFlow<F>)
        ensures
            final(self)@ == (RelayView { flows: old(self)@.flows.insert(id, flow), ..old(self)@ }),
    {
        self.flows.insert(id, flow);
    }

    /// The flow `relay_id` when `from` is the address that opened it, with its
    /// last-seen time moved to `now`; `None` for an unknown id or a spoofed
    /// source, which changes nothing.
    pub fn forward_target(&mut self, relay_id: u32, from: SocketAddress, now: u64) -> (r: Option<&F>)
        ensures
            old(self)@.flows.contains_key(relay_id) && old(self)@.flows[relay_id].client_addr == from
                ==> final(self)@ == (RelayView {
                flows: old(self)@.flows.insert(
                    relay_id,
                    RelayFlow { last_seen: now, ..old(self)@.flows[relay_id] },
                ),
                ..old(self)@
            }) && r == Some(&old(self)@.flows[relay_id].io),
            !(old(self)@.flows.contains_key(relay_id) && old(self)@.flows[relay_id].client_addr == from)
                ==> final(self)@ == old(self)@ && r is None,
    {
        match self.flows.remove(&relay_id) {
            None => {
                proof {
                    assert(self@.flows =~= old(self)@.flows);
                }
                None
            },
            Some(flow) => {
                if flow.client_addr == from {
                    let updated = RelayFlow { last_seen: now, ..flow };
                    self.flows.insert(relay_id, updated);
                    proof {
                        assert(self@.flows =~= old(self)@.flows.insert(
                            relay_id,
                            RelayFlow { last_seen: now, ..old(self)@.flows[relay_id] },
                        ));
                    }
                    match self.flows.get(&relay_id) {
                        Some(f) => Some(&f.io),
                        None => None,
                    }
                } else {
                    self.flows.insert(relay_id, flow);
                    proof {
                        assert(self@.flows =~= old(self)@.flows);
                    }
                    None
                }
            },
        }
    }

    /// Removes the flows idle for `RELAY_IDLE_SECS` or more at `now`; returns
    /// their I/O handles so their reader tasks can be stopped.
    pub fn reap_idle(&mut self, now: u64) -> (reaped: Vec<F>)
        ensures
            final(self)@.next_id == old(self)@.next_id,
            forall|id: u32| #[trigger]
                final(self)@.flows.contains_key(id) <==> old(self)@.flows.contains_key(id) && flow_alive(
                    old(self)@.flows[id].last_seen,
                    now,
                ),
            forall|id: u32| #[trigger]
                final(self)@.flows.contains_key(id) ==> final(self)@.flows[id] == old(self)@.flows[id],
            reaped@.len() == old(self)@.flows.len() - final(self)@.flows.len(),
    {
        let ghost o = self@;
        let mut ids: Vec<u32> = Vec::new();
        for k in it: self.flows.keys()
            invariant
                self@ == o,
                it.seq().unref().to_set() == o.flows.dom(),
                it.seq().unref().no_duplicates(),
                ids@ == it.seq().unref().take(it.index()),
                forall|x: u32| ids@.contains(x) ==> o.flows.dom().contains(x),
                forall|j: int| 0 <= j < it.index() ==> ids@.contains(*it.seq()[j]),
                ids@.no_duplicates(),
        {
            let ghost before = ids@;
            assert(*k == *it.seq()[it.index() as int]);
            assert(it.seq().unref()[it.index() as int] == *k);
            ids.push(*k);
            proof {
                assert(ids@ =~= it.seq().unref().take(it.index() + 1));
                assert(it.seq().unref().to_set().contains(*k));
                assert forall|x: u32| ids@.contains(x) implies o.flows.dom().contains(x) by {
                    let j = choose|j: int| 0 <= j < ids@.len() && ids@[j] == x;
                    if j < before.len() {
                        assert(before[j] == x);
                        assert(before.contains(x));
                    }
                }
                assert forall|j: int| 0 <= j < it.index() + 1 implies ids@.contains(*it.seq()[j]) by {
                    assert(ids@[j] == it.seq().unref().take(it.index() + 1)[j]);
                }
            }
        }
        let mut reaped: Vec<F> = Vec::new();
        let mut i: usize = 0;
        while i < ids.len()
            invariant
                i <= ids@.len(),
                ids@.to_set() == o.flows.dom(),
                ids@.no_duplicates(),
                self@.next_id == o.next_id,
                forall|id: u32| #[trigger]
                    self@.flows.contains_key(id) <==> o.flows.contains_key(id) && !(ids@.take(
                        i as int,
                    ).contains(id) && !flow_alive(o.flows[id].last_seen, now)),
                forall|id: u32| #[trigger] self@.flows.contains_key(id) ==> self@.flows[id] == o.flows[id],
                reaped@.len() == o.flows.len() - self@.flows.len(),
                self@.flows.dom().subset_of(o.flows.dom()),
            decreases ids@.len() - i,
        {
            let id = ids[i];
            let ghost pre = ids@.take(i as int);
            proof {
                assert(ids@.take(i + 1) =~= pre.push(id));
                assert forall|x: u32| ids@.take(i + 1).contains(x) <==> pre.contains(x) || x == id by {
                    vstd::seq_lib::lemma_seq_contains_after_push(pre, id, x);
                }
                assert(!pre.contains(id)) by {
                    if pre.contains(id) {
                        let j = choose|j: int| 0 <= j < pre.len() && pre[j] == id;
                        assert(ids@[j] == ids@[i as int]);
                    }
                }
                assert(o.flows.contains_key(id)) by {
                    assert(ids@.to_set().contains(id));
                }
                assert(self@.flows.contains_key(id));
                vstd::set_lib::lemma_len_subset(self@.flows.dom(), o.flows.dom());
            }
            let alive = match self.flows.get(&id) {
                Some(flow) => {
                    let idle = if now >= flow.last_seen {
                        now - flow.last_seen
                    } else {
                        0
                    };
                    idle < RELAY_IDLE_SECS
                },
                None => true,
            };
            if !alive {
                let ghost before = self@.flows;
                match self.flows.remove(&id) {
                    Some(flow) => {
                        reaped.push(flow.io);
                    },
                    None => {},
                }
                proof {
                    assert(before.dom().finite());
                    assert(self@.flows.len() == before.len() - 1);
                }
            }
            i = i + 1;
        }
        proof {
            assert(ids@.take(ids@.len() as int) =~= ids@);
        }
        reaped
    }
}

/// One destination send of a batched forward: the relay id, and the
/// `(offset, len)` ranges of the scratch buffer to send, in order.
pub struct BatchGroup {
    pub relay_id: u32,
    pub ranges: Vec<(usize, usize)>,
}

/// Whether the id of entry `j` of `idx` appears before `j`.
pub open spec fn seen_before(idx: Seq<(u32, usize, usize, SocketAddress)>, j: int) -> bool {
    exists|i: int| 0 <= i < j && #[trigger] idx[i].0 == idx[j].0
}

/// The ranges of the entries of `idx` for relay `id` sent from `client`.
pub open spec fn ranges_for(
    idx: Seq<(u32, usize, usize, SocketAddress)>,
    id: u32,
    client: SocketAddress,
) -> Seq<(usize, usize)>
    decreases idx.len(),
{
    if idx.len() == 0 {
        Seq::empty()
    } else {
        let rest = ranges_for(idx.drop_last(), id, client);
        let e = idx.last();
        if e.0 == id && e.3 == client {
            rest.push((e.1, e.2))
        } else {
            rest
        }
    }
}

/// Completeness and order of a batched forward: the ranges planned for relay
/// `id` and its pinned `client` are exactly those of the entries of `idx`
/// that carry `id` and came from `client`, every one of them, in the order
/// they arrived.
pub proof fn lemma_ranges_are_every_matching_entry(
    idx: Seq<(u32, usize, usize, SocketAddress)>,
    id: u32,
    client: SocketAddress,
)
    ensures
        ranges_for(idx, id, client) == idx.filter(
            |e: (u32, usize, usize, SocketAddress)| e.0 == id && e.3 == client,
        ).map_values(|e: (u32, usize, usize, SocketAddress)| (e.1, e.2)),
    decreases idx.len(),
{
    reveal(Seq::filter);
    let pred = |e: (u32, usize, usize, SocketAddress)| e.0 == id && e.3 == client;
    let f = |e: (u32, usize, usize, SocketAddress)| (e.1, e.2);
    if idx.len() == 0 {
        assert(idx.filter(pred).map_values(f) =~= Seq::<(usize, usize)>::empty());
    } else {
        lemma_ranges_are_every_matching_entry(idx.drop_last(), id, client);
        let sub = idx.drop_last().filter(pred);
        if pred(idx.last()) {
            assert(sub.push(idx.last()).map_values(f) =~= sub.map_values(f).push(f(idx.last())));
        }
    }
}

/// The relay ids of `idx` in order of first appearance.
pub open spec fn first_ids(idx: Seq<(u32, usize, usize, SocketAddress)>) -> Seq<u32>
    decreases idx.len(),
{
    if idx.len() == 0 {
        Seq::empty()
    } else {
        let r = first_ids(idx.drop_last());
        if r.contains(idx.last().0) {
            r
        } else {
            r.push(idx.last().0)
        }
    }
}

/// The sends of a batched forward over `ids`: for each id with a flow and at
/// least one entry from its pinned client, that id and those entries' ranges.
pub open spec fn batch_plan<F>(
    flows: Map<u32, RelayFlow<F>>,
    idx: Seq<(u32, usize, usize, SocketAddress)>,
    ids: Seq<u32>,
) -> Seq<(u32, Seq<(usize, usize)>)>
    decreases ids.len(),
{
    if ids.len() == 0 {
        Seq::empty()
    } else {
        let r = batch_plan(flows, idx, ids.drop_last());
        let id = ids.last();
        if flows.contains_key(id) && ranges_for(idx, id, flows[id].client_addr).len() > 0 {
            r.push((id, ranges_for(idx, id, flows[id].client_addr)))
        } else {
            r
        }
    }
}

/// Whether `v` holds `x`.
fn holds_id(v: &Vec<u32>, x: u32) -> (r: bool)
    ensures
        r == v@.contains(x),
{
    let mut i: usize = 0;
    while i < v.len()
        invariant
            i <= v@.len(),
            forall|j: int| 0 <= j < i ==> v@[j] != x,
        decreases v@.len() - i,
    {
        if v[i] == x {
            return true;
        }
        i = i + 1;
    }
    false
}

/// The relay ids of `idx` in order of first appearance.
fn distinct_ids(idx: &[(u32, usize, usize, SocketAddress)]) -> (ids: Vec<u32>)
    ensures
        ids@ == first_ids(idx@),
{
    let mut ids: Vec<u32> = Vec::new();
    let mut j: usize = 0;
    while j < idx.len()
        invariant
            j <= idx@.len(),
            ids@ == first_ids(idx@.take(j as int)),
        decreases idx@.len() - j,
    {
        let id = idx[j].0;
        proof {
            assert(idx@.take(j + 1).drop_last() =~= idx@.take(j as int));
        }
        if !holds_id(&ids, id) {
            ids.push(id);
        }
        j = j + 1;
    }
    proof {
        assert(idx@.take(idx@.len() as int) =~= idx@);
    }
    ids
}

/// The `(offset, len)` ranges of the entries of `idx` for relay `id` sent from `client`.
fn ranges_of(idx: &[(u32, usize, usize, SocketAddress)], id: u32, client: SocketAddress) -> (r: Vec<
    (usize, usize),
>)
    ensures
        r@ == ranges_for(idx@, id, client),
{
    let mut r: Vec<(usize, usize)> = Vec::new();
    let mut j: usize = 0;
    while j < idx.len()
        invariant
            j <= idx@.len(),
            r@ == ranges_for(idx@.take(j as int), id, client),
        decreases idx@.len() - j,
    {
        let e = idx[j];
        proof {
            assert(idx@.take(j + 1).drop_last() =~= idx@.take(j as int));
        }
        if e.0 == id && e.3 == client {
            r.push((e.1, e.2));
        }
        j = j + 1;
    }
    proof {
        assert(idx@.take(idx@.len() as int) =~= idx@);
    }
    r
}

impl<F> RelayTable<F> {
    /// Plans a batched forward of the entries `idx` (relay id, offset, length,
    /// source address): one send per relay id, in order of first appearance,
    /// of the entries that came from the flow's pinned client; ids without a
    /// flow or without such entries get no send. Flows that get a send are
    /// marked as seen at `now`.
    pub fn batch_groups(&mut self, idx: &[(u32, usize, usize, SocketAddress)], now: u64) -> (groups: Vec<
        BatchGroup,
    >)
        ensures
            groups@.len() == batch_plan(old(self)@.flows, idx@, first_ids(idx@)).len(),
            forall|g: int|
                0 <= g < groups@.len() ==> (#[trigger] groups@[g]).relay_id == batch_plan(
                    old(self)@.flows,
                    idx@,
                    first_ids(idx@),
                )[g].0 && groups@[g].ranges@ == batch_plan(old(self)@.flows, idx@, first_ids(idx@))[g].1,
            final(self)@.next_id == old(self)@.next_id,
            final(self)@.flows.dom() == old(self)@.flows.dom(),
            forall|id: u32| #[trigger]
                final(self)@.flows.contains_key(id) ==> final(self)@.flows[id] == if exists|g: int|
                    0 <= g < groups@.len() && #[trigger] groups@[g].relay_id == id {
                    RelayFlow { last_seen: now, ..old(self)@.flows[id] }
                } else {
                    old(self)@.flows[id]
                },
    {
        let ghost o = self@;
        let ids = distinct_ids(idx);
        let ghost plan_ids = ids@;
        let mut groups: Vec<BatchGroup> = Vec::new();
        let mut k: usize = 0;
        proof {
            assert(first_ids(idx@).no_duplicates()) by {
                lemma_first_ids_distinct(idx@);
            }
        }
        while k < ids.len()
            invariant
                k <= ids@.len(),
                ids@ == first_ids(idx@),
                ids@.no_duplicates(),
                self@.next_id == o.next_id,
                self@.flows.dom() == o.flows.dom(),
                groups@.len() == batch_plan(o.flows, idx@, ids@.take(k as int)).len(),
                forall|g: int|
                    0 <= g < groups@.len() ==> (#[trigger] groups@[g]).relay_id == batch_plan(
                        o.flows,
                        idx@,
                        ids@.take(k as int),
                    )[g].0 && groups@[g].ranges@ == batch_plan(o.flows, idx@, ids@.take(k as int))[g].1,
                forall|g: int| 0 <= g < groups@.len() ==> ids@.take(k as int).contains(#[trigger] groups@[g].relay_id),
                forall|id: u32| #[trigger]
                    self@.flows.contains_key(id) ==> self@.flows[id] == if exists|g: int|
                        0 <= g < groups@.len() && #[trigger] groups@[g].relay_id == id {
                        RelayFlow { last_seen: now, ..o.flows[id] }
                    } else {
                        o.flows[id]
                    },
            decreases ids@.len() - k,
        {
            let id = ids[k];
            let ghost gs = groups@;
            let ghost fl = self@.flows;
            proof {
                assert(ids@.take(k + 1).drop_last() =~= ids@.take(k as int));
                assert(ids@.take(k + 1).last() == id);
                assert(!ids@.take(k as int).contains(id)) by {
                    if ids@.take(k as int).contains(id) {
                        let j = choose|j: int| 0 <= j < k && ids@.take(k as int)[j] == id;
                        assert(ids@[j] == ids@[k as int]);
                    }
                }
            }
            match self.flows.remove(&id) {
                None => {
                    proof {
                        assert(self@.flows =~= fl);
                    }
                },
                Some(flow) => {
                    let client = flow.client_addr;
                    let ranges = ranges_of(idx, id, client);
                    if ranges.len() > 0 {
                        let updated = RelayFlow { last_seen: now, ..flow };
                        self.flows.insert(id, updated);
                        groups.push(BatchGroup { relay_id: id, ranges });
                        proof {
                            assert(fl[id] == o.flows[id]) by {
                                if exists|g: int| 0 <= g < gs.len() && #[trigger] gs[g].relay_id == id {
                                    let g = choose|g: int| 0 <= g < gs.len() && #[trigger] gs[g].relay_id == id;
                                    assert(ids@.take(k as int).contains(gs[g].relay_id));
                                }
                            }
                            assert forall|x: u32| #[trigger] self@.flows.contains_key(x) implies self@.flows[x]
                                == if exists|g: int|
                                    0 <= g < groups@.len() && #[trigger] groups@[g].relay_id == x {
                                    RelayFlow { last_seen: now, ..o.flows[x] }
                                } else {
                                    o.flows[x]
                                } by {
                                if x == id {
                                    assert(groups@[groups@.len() - 1].relay_id == id);
                                } else {
                                    assert(fl.contains_key(x));
                                    if exists|g: int|
                                        0 <= g < groups@.len() && #[trigger] groups@[g].relay_id == x {
                                        let g = choose|g: int|
                                            0 <= g < groups@.len() && #[trigger] groups@[g].relay_id == x;
                                        assert(g < gs.len());
                                        assert(gs[g].relay_id == x);
                                    }
                                    if exists|g: int| 0 <= g < gs.len() && #[trigger] gs[g].relay_id == x {
                                        let g = choose|g: int| 0 <= g < gs.len() && #[trigger] gs[g].relay_id == x;
                                        assert(groups@[g].relay_id == x);
                                    }
                                }
                            }
                            assert(self@.flows.dom() =~= o.flows.dom());
                            assert forall|g: int| 0 <= g < groups@.len() implies ids@.take(k + 1).contains(
                                #[trigger] groups@[g].relay_id,
                            ) by {
                                if g < gs.len() {
                                    assert(groups@[g] == gs[g]);
                                    let j = choose|j: int| 0 <= j < k && ids@.take(k as int)[j] == gs[g].relay_id;
                                    assert(ids@.take(k + 1)[j] == gs[g].relay_id);
                                } else {
                                    assert(ids@.take(k + 1)[k as int] == id);
                                }
                            }
                        }
                    } else {
                        self.flows.insert(id, flow);
                        proof {
                            assert(self@.flows =~= fl);
                        }
                    }
                },
            }
            proof {
                if !(o.flows.contains_key(id) && ranges_for(idx@, id, o.flows[id].client_addr).len() > 0) {
                    assert forall|g: int| 0 <= g < groups@.len() implies ids@.take(k + 1).contains(
                        #[trigger] groups@[g].relay_id,
                    ) by {
                        let j = choose|j: int| 0 <= j < k && ids@.take(k as int)[j] == groups@[g].relay_id;
                        assert(ids@.take(k + 1)[j] == groups@[g].relay_id);
                    }
                }
            }
            k = k + 1;
        }
        proof {
            assert(ids@.take(ids@.len() as int) =~= ids@);
        }
        groups
    }
}

/// The ids in order of first appearance are distinct.
proof fn lemma_first_ids_distinct(idx: Seq<(u32, usize, usize, SocketAddress)>)
    ensures
        first_ids(idx).no_duplicates(),
    decreases idx.len(),
{
    if idx.len() > 0 {
        lemma_first_ids_distinct(idx.drop_last());
    }
}

/// A batched forward for relay `id` sends only datagrams that came from the
/// flow's pinned client address.
pub proof fn lemma_batch_only_pinned(
    idx: Seq<(u32, usize, usize, SocketAddress)>,
    id: u32,
    client: SocketAddress,
    r: (usize, usize),
)
    requires
        ranges_for(idx, id, client).contains(r),
    ensures
        exists|j: int|
            0 <= j < idx.len() && (#[trigger] idx[j]).0 == id && idx[j].3 == client && (
            idx[j].1,
            idx[j].2,
        ) == r,
    decreases idx.len(),
{
    let rest = ranges_for(idx.drop_last(), id, client);
    let e = idx.last();
    if e.0 == id && e.3 == client && r == (e.1, e.2) {
        assert(idx[idx.len() - 1] == e);
    } else {
        if e.0 == id && e.3 == client {
            let k = choose|k: int| 0 <= k < rest.push((e.1, e.2)).len() && rest.push((e.1, e.2))[k] == r;
            assert(k < rest.len());
            assert(rest[k] == r);
        }
        assert(rest.contains(r));
        lemma_batch_only_pinned(idx.drop_last(), id, client, r);
        let j = choose|j: int|
            0 <= j < idx.drop_last().len() && (#[trigger] idx.drop_last()[j]).0 == id
                && idx.drop_last()[j].3 == client && (idx.drop_last()[j].1, idx.drop_last()[j].2) == r;
        assert(idx[j] == idx.drop_last()[j]);
    }
}

/// Why a relay was refused before its destination was looked up.
#[derive(Clone, Copy, Debug, PartialEq, Eq, Structural)]
pub enum RelayRefusal {
    /// The node relays `MAX_RELAY_FLOWS` flows already.
    AtCapacity,
    /// The destination key is not 32 bytes.
    BadKey,
}

impl<F> RelayTable<F> {
    /// The first checks of a relay request: room for one more flow, then a
    /// well-formed destination key.
    pub fn check_open(&self, dest_pk: &[u8]) -> (r: Result<PublicKey, RelayRefusal>)
        ensures
            self@.flows.len() >= MAX_RELAY_FLOWS ==> r == Err::<PublicKey, RelayRefusal>(
                RelayRefusal::AtCapacity,
            ),
            self@.flows.len() < MAX_RELAY_FLOWS && dest_pk@.len() != crate::keys::KEY_LEN ==> r
                == Err::<PublicKey, RelayRefusal>(RelayRefusal::BadKey),
            self@.flows.len() < MAX_RELAY_FLOWS && dest_pk@.len() == crate::keys::KEY_LEN ==> (r matches Ok(
                k,
            ) && k@ == dest_pk@),
    {
        if !self.has_room() {
            return Err(RelayRefusal::AtCapacity);
        }
        match PublicKey::try_from_slice(dest_pk) {
            Some(k) => Ok(k),
            None => Err(RelayRefusal::BadKey),
        }
    }
}

} // verus!
