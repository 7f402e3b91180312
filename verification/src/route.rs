//! Client-side multi-hop path planning: Dijkstra over `client + nodes` with RTT
//! as the edge weight (client->node from the client's own probes, node->node from
//! the gossiped overlay). The client alone picks the path; relays stay dumb.

use vstd::prelude::*;

use crate::keys::PublicKey;
use crate::topology::{EdgeMetric, NodeEntry};

verus! {

/// Distance that stands for "unreachable"; path costs saturate at it.
pub const UNREACHABLE: u64 = u64::MAX;

/// One step of a walk: the node reached and the index of what reached it (an
/// entry of the client's probes for the first step, an edge for the others).
pub struct Hop {
    pub node: int,
    pub via: int,
}

/// The index under which a key is known: the last node entry that carries it.
pub open spec fn key_index(nodes: Seq<NodeEntry>, k: Seq<u8>) -> Option<int>
    decreases nodes.len(),
{
    if nodes.len() == 0 {
        None
    } else if nodes.last().node_pk@ == k {
        Some(nodes.len() - 1)
    } else {
        key_index(nodes.drop_last(), k)
    }
}

/// `h` is a direct probe from the client to a known node.
pub open spec fn first_hop_ok(nodes: Seq<NodeEntry>, rtts: Seq<(PublicKey, u32)>, h: Hop) -> bool {
    0 <= h.via < rtts.len() && key_index(nodes, rtts[h.via].0@) == Some(h.node)
}

/// `h` follows a reachable edge from node index `from`.
pub open spec fn link_ok(nodes: Seq<NodeEntry>, edges: Seq<EdgeMetric>, from: int, h: Hop) -> bool {
    &&& 0 <= h.via < edges.len()
    &&& edges[h.via].rtt_micros is Some
    &&& key_index(nodes, edges[h.via].from@) == Some(from)
    &&& key_index(nodes, edges[h.via].to@) == Some(h.node)
}

/// A walk that starts with a client probe and continues along reachable edges.
pub open spec fn is_walk(
    nodes: Seq<NodeEntry>,
    edges: Seq<EdgeMetric>,
    rtts: Seq<(PublicKey, u32)>,
    w: Seq<Hop>,
) -> bool {
    &&& w.len() > 0
    &&& first_hop_ok(nodes, rtts, w[0])
    &&& forall|k: int| 1 <= k < w.len() ==> link_ok(nodes, edges, w[k - 1].node, #[trigger] w[k])
}

/// Addition that saturates at `UNREACHABLE`.
pub open spec fn sat_add(a: int, b: int) -> int {
    if a + b > UNREACHABLE {
        UNREACHABLE as int
    } else {
        a + b
    }
}

/// The weight of the edge a hop travels.
pub open spec fn edge_weight(edges: Seq<EdgeMetric>, h: Hop) -> int {
    edges[h.via].rtt_micros.unwrap() as int
}

/// The cost of a walk: probe RTT plus edge RTTs, saturating.
pub open spec fn walk_cost(edges: Seq<EdgeMetric>, rtts: Seq<(PublicKey, u32)>, w: Seq<Hop>) -> int
    decreases w.len(),
{
    if w.len() <= 1 {
        rtts[w[0].via].1 as int
    } else {
        sat_add(walk_cost(edges, rtts, w.drop_last()), edge_weight(edges, w.last()))
    }
}

/// A walk that ends at the node carrying key `target`.
pub open spec fn is_route(
    nodes: Seq<NodeEntry>,
    edges: Seq<EdgeMetric>,
    rtts: Seq<(PublicKey, u32)>,
    target: Seq<u8>,
    w: Seq<Hop>,
) -> bool {
    is_walk(nodes, edges, rtts, w) && key_index(nodes, target) == Some(w.last().node)
}

/// A reachable route to `target` that no other route beats.
pub open spec fn is_cheapest_route(
    nodes: Seq<NodeEntry>,
    edges: Seq<EdgeMetric>,
    rtts: Seq<(PublicKey, u32)>,
    target: Seq<u8>,
    w: Seq<Hop>,
) -> bool {
    &&& is_route(nodes, edges, rtts, target, w)
    &&& walk_cost(edges, rtts, w) < UNREACHABLE
    &&& forall|w2: Seq<Hop>| #[trigger]
        is_route(nodes, edges, rtts, target, w2) ==> walk_cost(edges, rtts, w) <= walk_cost(
            edges,
            rtts,
            w2,
        )
}

/// The keys of the nodes a walk visits, in order.
pub open spec fn walk_keys(nodes: Seq<NodeEntry>, w: Seq<Hop>) -> Seq<Seq<u8>> {
    w.map_values(|h: Hop| nodes[h.node].node_pk@)
}

/// The key bytes of each key in a path.
pub open spec fn path_keys(path: Seq<PublicKey>) -> Seq<Seq<u8>> {
    path.map_values(|k: PublicKey| k@)
}

/// Key lookups land on an entry of `nodes`.
proof fn lemma_key_index_range(nodes: Seq<NodeEntry>, k: Seq<u8>)
    ensures
        key_index(nodes, k) matches Some(i) ==> 0 <= i < nodes.len() && nodes[i].node_pk@ == k,
    decreases nodes.len(),
{
    if nodes.len() > 0 {
        lemma_key_index_range(nodes.drop_last(), k);
    }
}

/// Every non-empty prefix of a walk is a walk, and its cost extends step by step.
proof fn lemma_walk_take(
    nodes: Seq<NodeEntry>,
    edges: Seq<EdgeMetric>,
    rtts: Seq<(PublicKey, u32)>,
    w: Seq<Hop>,
    k: int,
)
    requires
        is_walk(nodes, edges, rtts, w),
        1 <= k <= w.len(),
    ensures
        is_walk(nodes, edges, rtts, w.take(k)),
        w.take(k).last() == w[k - 1],
        k >= 2 ==> walk_cost(edges, rtts, w.take(k)) == sat_add(
            walk_cost(edges, rtts, w.take(k - 1)),
            edge_weight(edges, w[k - 1]),
        ),
{
    let t = w.take(k);
    assert forall|j: int| 1 <= j < t.len() implies link_ok(nodes, edges, t[j - 1].node, #[trigger] t[j]) by {
        assert(t[j] == w[j]);
        assert(link_ok(nodes, edges, w[j - 1].node, w[j]));
    }
    if k >= 2 {
        assert(t.drop_last() =~= w.take(k - 1));
    }
}

/// Extending a walk along a reachable edge gives a walk whose cost grows by the edge weight.
proof fn lemma_walk_push(
    nodes: Seq<NodeEntry>,
    edges: Seq<EdgeMetric>,
    rtts: Seq<(PublicKey, u32)>,
    w: Seq<Hop>,
    h: Hop,
)
    requires
        is_walk(nodes, edges, rtts, w),
        link_ok(nodes, edges, w.last().node, h),
    ensures
        is_walk(nodes, edges, rtts, w.push(h)),
        walk_cost(edges, rtts, w.push(h)) == sat_add(walk_cost(edges, rtts, w), edge_weight(edges, h)),
{
    let x = w.push(h);
    assert(x.drop_last() =~= w);
    assert forall|j: int| 1 <= j < x.len() implies link_ok(nodes, edges, x[j - 1].node, #[trigger] x[j]) by {
        if j < w.len() {
            assert(x[j] == w[j]);
            assert(link_ok(nodes, edges, w[j - 1].node, w[j]));
        }
    }
}

/// The cost of a prefix never exceeds the cost of the whole walk.
proof fn lemma_cost_mono(
    nodes: Seq<NodeEntry>,
    edges: Seq<EdgeMetric>,
    rtts: Seq<(PublicKey, u32)>,
    w: Seq<Hop>,
    k: int,
)
    requires
        is_walk(nodes, edges, rtts, w),
        1 <= k <= w.len(),
    ensures
        walk_cost(edges, rtts, w.take(k)) <= walk_cost(edges, rtts, w),
    decreases w.len() - k,
{
    if k == w.len() {
        assert(w.take(k) =~= w);
    } else {
        lemma_walk_take(nodes, edges, rtts, w, k + 1);
        lemma_cost_mono(nodes, edges, rtts, w, k + 1);
    }
}

/// Facts about the settled part of a Dijkstra run: every settled node's
/// distance is at most the cost of every walk that reaches it.
pub open spec fn settled_ok(
    nodes: Seq<NodeEntry>,
    edges: Seq<EdgeMetric>,
    rtts: Seq<(PublicKey, u32)>,
    dist: Seq<u64>,
    visited: Seq<bool>,
) -> bool {
    forall|w: Seq<Hop>| #[trigger]
        is_walk(nodes, edges, rtts, w) && visited[w.last().node] ==> dist[w.last().node]
            <= walk_cost(edges, rtts, w)
}

/// Facts about the frontier of a Dijkstra run: distances are bounded by every
/// probe and by every edge leaving a settled node.
pub open spec fn frontier_ok(
    nodes: Seq<NodeEntry>,
    edges: Seq<EdgeMetric>,
    rtts: Seq<(PublicKey, u32)>,
    dist: Seq<u64>,
    visited: Seq<bool>,
) -> bool {
    &&& forall|h: Hop| #[trigger] first_hop_ok(nodes, rtts, h) ==> dist[h.node] <= rtts[h.via].1
    &&& forall|u: int, h: Hop| #[trigger]
        link_ok(nodes, edges, u, h) && visited[u] && !visited[h.node] ==> dist[h.node] <= sat_add(
            dist[u] as int,
            edge_weight(edges, h),
        )
}

/// If the first `k` nodes of a walk are settled, the distance of its `k`-th node
/// is at most the cost of the prefix that reaches it.
proof fn lemma_prefix_bound(
    nodes: Seq<NodeEntry>,
    edges: Seq<EdgeMetric>,
    rtts: Seq<(PublicKey, u32)>,
    dist: Seq<u64>,
    visited: Seq<bool>,
    w: Seq<Hop>,
    k: int,
)
    requires
        dist.len() == nodes.len(),
        visited.len() == nodes.len(),
        settled_ok(nodes, edges, rtts, dist, visited),
        frontier_ok(nodes, edges, rtts, dist, visited),
        is_walk(nodes, edges, rtts, w),
        0 <= k < w.len(),
        forall|i: int| 0 <= i < k ==> visited[#[trigger] w[i].node],
    ensures
        dist[w[k].node] <= walk_cost(edges, rtts, w.take(k + 1)),
    decreases k,
{
    lemma_walk_take(nodes, edges, rtts, w, k + 1);
    let t = w.take(k + 1);
    if visited[w[k].node] {
        assert(is_walk(nodes, edges, rtts, t));
    } else if k == 0 {
        assert(first_hop_ok(nodes, rtts, w[0]));
    } else {
        lemma_prefix_bound(nodes, edges, rtts, dist, visited, w, k - 1);
        assert(link_ok(nodes, edges, w[k - 1].node, w[k]));
        assert(visited[w[k - 1].node]);
    }
}

/// Every walk that ends at an unsettled node passes an unsettled node whose
/// distance is at most the cost of the whole walk.
proof fn lemma_first_unvisited(
    nodes: Seq<NodeEntry>,
    edges: Seq<EdgeMetric>,
    rtts: Seq<(PublicKey, u32)>,
    dist: Seq<u64>,
    visited: Seq<bool>,
    w: Seq<Hop>,
) -> (k: int)
    requires
        dist.len() == nodes.len(),
        visited.len() == nodes.len(),
        settled_ok(nodes, edges, rtts, dist, visited),
        frontier_ok(nodes, edges, rtts, dist, visited),
        is_walk(nodes, edges, rtts, w),
        !visited[w.last().node],
    ensures
        0 <= k < w.len(),
        !visited[w[k].node],
        dist[w[k].node] <= walk_cost(edges, rtts, w),
{
    let k = first_unvisited_from(nodes, edges, rtts, visited, w, 0);
    lemma_prefix_bound(nodes, edges, rtts, dist, visited, w, k);
    lemma_cost_mono(nodes, edges, rtts, w, k + 1);
    k
}

proof fn first_unvisited_from(
    nodes: Seq<NodeEntry>,
    edges: Seq<EdgeMetric>,
    rtts: Seq<(PublicKey, u32)>,
    visited: Seq<bool>,
    w: Seq<Hop>,
    j: int,
) -> (k: int)
    requires
        w.len() > 0,
        0 <= j < w.len(),
        !visited[w.last().node],
        forall|i: int| 0 <= i < j ==> visited[#[trigger] w[i].node],
    ensures
        j <= k < w.len(),
        !visited[w[k].node],
        forall|i: int| 0 <= i < k ==> visited[#[trigger] w[i].node],
    decreases w.len() - j,
{
    if !visited[w[j].node] {
        j
    } else {
        first_unvisited_from(nodes, edges, rtts, visited, w, j + 1)
    }
}

/// The index under which `key` is known among `nodes`, if any.
fn index_of(nodes: &[NodeEntry], key: &PublicKey) -> (r: Option<usize>)
    ensures
        r matches Some(i) ==> key_index(nodes@, key@) == Some(i as int),
        r is None ==> key_index(nodes@, key@) is None,
{
    let mut found: Option<usize> = None;
    let mut i: usize = 0;
    while i < nodes.len()
        invariant
            i <= nodes@.len(),
            found matches Some(j) ==> key_index(nodes@.take(i as int), key@) == Some(j as int),
            found is None ==> key_index(nodes@.take(i as int), key@) is None,
        decreases nodes.len() - i,
    {
        proof {
            assert(nodes@.take(i + 1).drop_last() =~= nodes@.take(i as int));
        }
        if nodes[i].node_pk.same_as(key) {
            found = Some(i);
        }
        i = i + 1;
    }
    proof {
        assert(nodes@.take(nodes@.len() as int) =~= nodes@);
    }
    found
}


/// Adjacency entries correspond to reachable edges: `av[f][k]` is the edge
/// behind entry `adj[f][k]`, which leads to the stored node with the stored weight.
pub open spec fn adj_sound(
    nodes: Seq<NodeEntry>,
    edges: Seq<EdgeMetric>,
    adj: Seq<Vec<(usize, u64)>>,
    av: Seq<Seq<int>>,
) -> bool {
    &&& adj.len() == nodes.len()
    &&& av.len() == nodes.len()
    &&& forall|f: int| 0 <= f < adj.len() ==> #[trigger] av[f].len() == adj[f]@.len()
    &&& forall|f: int, k: int|
        0 <= f < adj.len() && 0 <= k < adj[f]@.len() ==> {
            &&& link_ok(nodes, edges, f, Hop { node: adj[f]@[k].0 as int, via: #[trigger] av[f][k] })
            &&& adj[f]@[k].1 as int == edge_weight(edges, Hop { node: adj[f]@[k].0 as int, via: av[f][k] })
        }
}

/// A node a walk visits is the one its key is known under.
proof fn lemma_walk_key_canonical(
    nodes: Seq<NodeEntry>,
    edges: Seq<EdgeMetric>,
    rtts: Seq<(PublicKey, u32)>,
    w: Seq<Hop>,
    i: int,
)
    requires
        is_walk(nodes, edges, rtts, w),
        0 <= i < w.len(),
    ensures
        0 <= w[i].node < nodes.len(),
        key_index(nodes, nodes[w[i].node].node_pk@) == Some(w[i].node),
{
    if i == 0 {
        lemma_key_index_range(nodes, rtts[w[0].via].0@);
    } else {
        assert(link_ok(nodes, edges, w[i - 1].node, w[i]));
        lemma_key_index_range(nodes, edges[w[i].via].to@);
    }
}

/// Every node of `w` but the last is settled, and no node repeats.
pub open spec fn walk_settled_simple(w: Seq<Hop>, visited: Seq<bool>) -> bool {
    &&& forall|i: int| 0 <= i < w.len() - 1 ==> 0 <= #[trigger] w[i].node < visited.len() && visited[w[i].node]
    &&& forall|i: int, j: int| 0 <= i < j < w.len() ==> #[trigger] w[i].node != #[trigger] w[j].node
}

/// Extending a settled simple walk from a settled node to an unsettled one
/// keeps it settled and simple.
proof fn lemma_push_simple(w: Seq<Hop>, h: Hop, visited: Seq<bool>)
    requires
        walk_settled_simple(w, visited),
        w.len() > 0,
        0 <= w.last().node < visited.len(),
        visited[w.last().node],
        0 <= h.node < visited.len(),
        !visited[h.node],
    ensures
        walk_settled_simple(w.push(h), visited),
{
    let w2 = w.push(h);
    assert forall|i: int| 0 <= i < w2.len() - 1 implies 0 <= #[trigger] w2[i].node < visited.len()
        && visited[w2[i].node] by {
        assert(w2[i] == w[i]);
    }
    assert forall|i: int, j: int| 0 <= i < j < w2.len() implies #[trigger] w2[i].node != #[trigger] w2[j].node by {
        assert(w2[i] == w[i]);
        if j < w.len() {
            assert(w2[j] == w[j]);
        } else {
            assert(visited[w[i].node]);
        }
    }
}

/// Distances are realised by witness walks, and predecessor links agree with them.
pub open spec fn dist_sound(
    nodes: Seq<NodeEntry>,
    edges: Seq<EdgeMetric>,
    rtts: Seq<(PublicKey, u32)>,
    dist: Seq<u64>,
    prev: Seq<Option<usize>>,
    visited: Seq<bool>,
    wit: Seq<Seq<Hop>>,
) -> bool {
    &&& dist.len() == nodes.len()
    &&& prev.len() == nodes.len()
    &&& visited.len() == nodes.len()
    &&& wit.len() == nodes.len()
    &&& forall|v: int| 0 <= v < nodes.len() && visited[v] ==> #[trigger] dist[v] < UNREACHABLE
    &&& forall|v: int| 0 <= v < nodes.len() && prev[v] is Some ==> #[trigger] dist[v] < UNREACHABLE
    &&& forall|v: int|
        0 <= v < nodes.len() && #[trigger] dist[v] < UNREACHABLE ==> {
            &&& is_walk(nodes, edges, rtts, wit[v])
            &&& wit[v].last().node == v
            &&& walk_cost(edges, rtts, wit[v]) == dist[v]
            &&& walk_settled_simple(wit[v], visited)
            &&& (prev[v] is None ==> wit[v].len() == 1)
            &&& (prev[v] matches Some(u) ==> {
                &&& 0 <= u < nodes.len()
                &&& visited[u as int]
                &&& dist[u as int] < UNREACHABLE
                &&& wit[v].len() >= 2
                &&& wit[v].drop_last() == wit[u as int]
            })
        }
}


/// Every reachable edge appears in the adjacency list of its source.
pub open spec fn adj_complete(nodes: Seq<NodeEntry>, edges: Seq<EdgeMetric>, av: Seq<Seq<int>>) -> bool {
    forall|f: int, h: Hop| #[trigger] link_ok(nodes, edges, f, h) ==> av[f].contains(h.via)
}

/// Adjacency lists over node indices: `(to, rtt)` for every reachable edge,
/// together with the edge index behind each entry.
fn build_adjacency(nodes: &[NodeEntry], edges: &[EdgeMetric]) -> (res: (
    Vec<Vec<(usize, u64)>>,
    Ghost<Seq<Seq<int>>>,
))
    ensures
        adj_sound(nodes@, edges@, res.0@, res.1@),
        adj_complete(nodes@, edges@, res.1@),
{
    let ghost ns = nodes@;
    let ghost es = edges@;
    let n = nodes.len();
    let mut adj: Vec<Vec<(usize, u64)>> = Vec::new();
    let ghost mut av: Seq<Seq<int>> = Seq::empty();
    let mut i: usize = 0;
    while i < n
        invariant
            n == ns.len(),
            i <= n,
            adj@.len() == i,
            av.len() == i,
            forall|f: int| 0 <= f < i ==> (#[trigger] adj@[f])@.len() == 0 && av[f].len() == 0,
        decreases n - i,
    {
        adj.push(Vec::new());
        proof {
            av = av.push(Seq::empty());
        }
        i = i + 1;
    }
    let mut e: usize = 0;
    while e < edges.len()
        invariant
            n == ns.len(),
            es == edges@,
            ns == nodes@,
            e <= es.len(),
            adj_sound(ns, es, adj@, av),
            forall|f: int, h: Hop| #[trigger] link_ok(ns, es, f, h) && h.via < e ==> av[f].contains(h.via),
        decreases es.len() - e,
    {
        let from = index_of(nodes, &edges[e].from);
        let to = index_of(nodes, &edges[e].to);
        if let Some(f) = from {
            if let Some(t) = to {
                if let Some(w) = edges[e].rtt_micros {
                    proof {
                        lemma_key_index_range(ns, es[e as int].from@);
                        lemma_key_index_range(ns, es[e as int].to@);
                    }
                    let ghost old_adj = adj@;
                    let ghost old_av = av;
                    let mut row: Vec<(usize, u64)> = Vec::new();
                    std::mem::swap(&mut row, &mut adj[f]);
                    row.push((t, w as u64));
                    adj[f] = row;
                    proof {
                        av = av.update(f as int, av[f as int].push(e as int));
                        assert(link_ok(ns, es, f as int, Hop { node: t as int, via: e as int }));
                        assert forall|g: int, k: int|
                            0 <= g < adj@.len() && 0 <= k < adj@[g]@.len() implies {
                            &&& link_ok(
                                ns,
                                es,
                                g,
                                Hop { node: adj@[g]@[k].0 as int, via: #[trigger] av[g][k] },
                            )
                            &&& adj@[g]@[k].1 as int == edge_weight(
                                es,
                                Hop { node: adj@[g]@[k].0 as int, via: av[g][k] },
                            )
                        } by {
                            if g != f as int || k < old_adj[g]@.len() {
                                assert(adj@[g]@[k] == old_adj[g]@[k]);
                                assert(av[g][k] == old_av[g][k]);
                            }
                        }
                        assert forall|g: int, h: Hop| #[trigger]
                            link_ok(ns, es, g, h) && h.via < e + 1 implies av[g].contains(h.via) by {
                            lemma_key_index_range(ns, es[h.via].from@);
                            if h.via == e as int {
                                assert(g == f as int);
                                assert(av[g].last() == h.via);
                            } else {
                                assert(old_av[g].contains(h.via));
                                let j = choose|j: int| 0 <= j < old_av[g].len() && old_av[g][j] == h.via;
                                assert(av[g][j] == h.via);
                            }
                        }
                    }
                }
            }
        }
        e = e + 1;
    }
    (adj, Ghost(av))
}


/// Distances from the client's own probes alone: the smallest probe RTT of
/// each known node, no node settled yet.
fn initial_distances(nodes: &[NodeEntry], edges: &[EdgeMetric], client_rtts: &[(PublicKey, u32)]) -> (res: (
    Vec<u64>,
    Vec<Option<usize>>,
    Vec<bool>,
    Ghost<Seq<Seq<Hop>>>,
))
    ensures
        dist_sound(nodes@, edges@, client_rtts@, res.0@, res.1@, res.2@, res.3@),
        forall|v: int| 0 <= v < nodes@.len() ==> !(#[trigger] res.2@[v]),
        settled_ok(nodes@, edges@, client_rtts@, res.0@, res.2@),
        frontier_ok(nodes@, edges@, client_rtts@, res.0@, res.2@),
{
    let ghost ns = nodes@;
    let ghost es = edges@;
    let ghost rs = client_rtts@;
    let n = nodes.len();
    let mut dist: Vec<u64> = Vec::new();
    // `prev[i] == None` means the client is `i`'s predecessor (a direct probe).
    let mut prev: Vec<Option<usize>> = Vec::new();
    let mut visited: Vec<bool> = Vec::new();
    let ghost mut wit: Seq<Seq<Hop>> = Seq::empty();
    let mut i: usize = 0;
    while i < n
        invariant
            n == ns.len(),
            i <= n,
            dist@.len() == i,
            prev@.len() == i,
            visited@.len() == i,
            wit.len() == i,
            forall|v: int| 0 <= v < i ==> #[trigger] dist@[v] == UNREACHABLE,
            forall|v: int| 0 <= v < i ==> #[trigger] prev@[v] is None,
            forall|v: int| 0 <= v < i ==> !(#[trigger] visited@[v]),
        decreases n - i,
    {
        dist.push(UNREACHABLE);
        prev.push(None);
        visited.push(false);
        proof {
            wit = wit.push(Seq::empty());
        }
        i = i + 1;
    }
    let mut r: usize = 0;
    while r < client_rtts.len()
        invariant
            n == ns.len(),
            ns == nodes@,
            rs == client_rtts@,
            r <= rs.len(),
            dist_sound(ns, es, rs, dist@, prev@, visited@, wit),
            forall|v: int| 0 <= v < n ==> !(#[trigger] visited@[v]),
            forall|h: Hop| #[trigger] first_hop_ok(ns, rs, h) && h.via < r ==> dist@[h.node] <= rs[h.via].1,
        decreases rs.len() - r,
    {
        let rtt = client_rtts[r].1;
        let found = index_of(nodes, &client_rtts[r].0);
        proof {
            lemma_key_index_range(ns, rs[r as int].0@);
        }
        if let Some(v) = found {
            if (rtt as u64) < dist[v] {
                dist[v] = rtt as u64;
                prev[v] = None;
                proof {
                    let h = Hop { node: v as int, via: r as int };
                    wit = wit.update(v as int, seq![h]);
                    assert(first_hop_ok(ns, rs, h));
                    assert(is_walk(ns, es, rs, seq![h]));
                }
            }
        }
        proof {
            assert forall|h: Hop| #[trigger] first_hop_ok(ns, rs, h) && h.via < r + 1 implies dist@[h.node]
                <= rs[h.via].1 by {
                lemma_key_index_range(ns, rs[h.via].0@);
            }
        }
        r = r + 1;
    }
    proof {
        assert forall|h: Hop| #[trigger] first_hop_ok(ns, rs, h) implies dist@[h.node] <= rs[h.via].1 by {}
        assert forall|w: Seq<Hop>| #[trigger] is_walk(ns, es, rs, w) && visited@[w.last().node] implies dist@[w.last().node]
            <= walk_cost(es, rs, w) by {
            if w.len() == 1 {
                lemma_key_index_range(ns, rs[w[0].via].0@);
            } else {
                assert(link_ok(ns, es, w[w.len() - 2].node, w[w.len() - 1]));
                lemma_key_index_range(ns, es[w.last().via].to@);
            }
        }
        assert forall|g: int, h: Hop| #[trigger] link_ok(ns, es, g, h) && visited@[g] && !visited@[h.node] implies dist@[h.node]
            <= sat_add(dist@[g] as int, edge_weight(es, h)) by {
            lemma_key_index_range(ns, es[h.via].from@);
        }
    }
    (dist, prev, visited, Ghost(wit))
}


/// The unsettled node of smallest finite distance (lowest index on ties), if any.
fn select_min(dist: &Vec<u64>, visited: &Vec<bool>) -> (u: Option<usize>)
    requires
        dist@.len() == visited@.len(),
    ensures
        u matches Some(x) ==> {
            &&& x < dist@.len()
            &&& !visited@[x as int]
            &&& dist@[x as int] < UNREACHABLE
            &&& forall|j: int| 0 <= j < dist@.len() && !visited@[j] ==> dist@[x as int] <= #[trigger] dist@[j]
        },
        u is None ==> forall|j: int| 0 <= j < dist@.len() && !visited@[j] ==> #[trigger] dist@[j] == UNREACHABLE,
{
    let n = dist.len();
    let mut u: Option<usize> = None;
    let mut best = UNREACHABLE;
    let mut v: usize = 0;
    while v < n
        invariant
            n == dist@.len(),
            n == visited@.len(),
            v <= n,
            u matches Some(x) ==> x < v && !visited@[x as int] && dist@[x as int] == best && best < UNREACHABLE,
            u is None ==> best == UNREACHABLE,
            forall|j: int| 0 <= j < v && !visited@[j] ==> best <= #[trigger] dist@[j],
        decreases n - v,
    {
        if !visited[v] && dist[v] < best {
            best = dist[v];
            u = Some(v);
        }
        v = v + 1;
    }
    u
}

/// Frontier facts that hold for every settled source except `skip`.
pub open spec fn frontier_except(
    nodes: Seq<NodeEntry>,
    edges: Seq<EdgeMetric>,
    rtts: Seq<(PublicKey, u32)>,
    dist: Seq<u64>,
    visited: Seq<bool>,
    skip: int,
) -> bool {
    &&& forall|h: Hop| #[trigger] first_hop_ok(nodes, rtts, h) ==> dist[h.node] <= rtts[h.via].1
    &&& forall|g: int, h: Hop| #[trigger]
        link_ok(nodes, edges, g, h) && visited[g] && g != skip && !visited[h.node] ==> dist[h.node]
            <= sat_add(dist[g] as int, edge_weight(edges, h))
}

/// Lowering the distance of an unsettled node keeps the settled and frontier facts.
proof fn lemma_lower_unsettled(
    nodes: Seq<NodeEntry>,
    edges: Seq<EdgeMetric>,
    rtts: Seq<(PublicKey, u32)>,
    dist: Seq<u64>,
    visited: Seq<bool>,
    skip: int,
    t: int,
    nd: u64,
)
    requires
        dist.len() == nodes.len(),
        visited.len() == nodes.len(),
        0 <= t < nodes.len(),
        !visited[t],
        nd < dist[t],
        settled_ok(nodes, edges, rtts, dist, visited),
        frontier_except(nodes, edges, rtts, dist, visited, skip),
    ensures
        settled_ok(nodes, edges, rtts, dist.update(t, nd), visited),
        frontier_except(nodes, edges, rtts, dist.update(t, nd), visited, skip),
{
    let d2 = dist.update(t, nd);
    assert forall|w: Seq<Hop>| #[trigger] is_walk(nodes, edges, rtts, w) && visited[w.last().node] implies d2[w.last().node]
        <= walk_cost(edges, rtts, w) by {
        if w.len() == 1 {
            lemma_key_index_range(nodes, rtts[w[0].via].0@);
        } else {
            assert(link_ok(nodes, edges, w[w.len() - 2].node, w[w.len() - 1]));
            lemma_key_index_range(nodes, edges[w.last().via].to@);
        }
    }
    assert forall|h: Hop| #[trigger] first_hop_ok(nodes, rtts, h) implies d2[h.node] <= rtts[h.via].1 by {
        lemma_key_index_range(nodes, rtts[h.via].0@);
    }
    assert forall|g: int, h: Hop| #[trigger]
        link_ok(nodes, edges, g, h) && visited[g] && g != skip && !visited[h.node] implies d2[h.node]
        <= sat_add(d2[g] as int, edge_weight(edges, h)) by {
        lemma_key_index_range(nodes, edges[h.via].from@);
        lemma_key_index_range(nodes, edges[h.via].to@);
    }
}

/// Once every adjacency entry of `u` is relaxed, the frontier facts hold for `u` too.
proof fn lemma_close_frontier(
    nodes: Seq<NodeEntry>,
    edges: Seq<EdgeMetric>,
    rtts: Seq<(PublicKey, u32)>,
    adj: Seq<Vec<(usize, u64)>>,
    av: Seq<Seq<int>>,
    u: int,
    dist: Seq<u64>,
    visited: Seq<bool>,
    du: u64,
)
    requires
        adj_sound(nodes, edges, adj, av),
        adj_complete(nodes, edges, av),
        dist.len() == nodes.len(),
        visited.len() == nodes.len(),
        0 <= u < nodes.len(),
        dist[u] == du,
        frontier_except(nodes, edges, rtts, dist, visited, u),
        forall|j: int|
            0 <= j < adj[u]@.len() ==> dist[(#[trigger] adj[u]@[j]).0 as int] <= sat_add(
                du as int,
                adj[u]@[j].1 as int,
            ),
    ensures
        frontier_ok(nodes, edges, rtts, dist, visited),
{
    assert forall|g: int, h: Hop| #[trigger]
        link_ok(nodes, edges, g, h) && visited[g] && !visited[h.node] implies dist[h.node]
        <= sat_add(dist[g] as int, edge_weight(edges, h)) by {
        if g == u {
            assert(av[g].contains(h.via));
            let j = choose|j: int| 0 <= j < av[g].len() && av[g][j] == h.via;
            assert(link_ok(nodes, edges, g, Hop { node: adj[g]@[j].0 as int, via: av[g][j] }));
            let _ = adj[u]@[j];
        }
    }
}

/// Relaxes every edge leaving the newly settled node `u`.
fn relax_from(
    nodes: &[NodeEntry],
    edges: &[EdgeMetric],
    client_rtts: &[(PublicKey, u32)],
    adj: &Vec<Vec<(usize, u64)>>,
    av: Ghost<Seq<Seq<int>>>,
    u: usize,
    dist: &mut Vec<u64>,
    prev: &mut Vec<Option<usize>>,
    visited: &Vec<bool>,
    wit: Ghost<Seq<Seq<Hop>>>,
) -> (new_wit: Ghost<Seq<Seq<Hop>>>)
    requires
        adj_sound(nodes@, edges@, adj@, av@),
        adj_complete(nodes@, edges@, av@),
        dist_sound(nodes@, edges@, client_rtts@, old(dist)@, old(prev)@, visited@, wit@),
        settled_ok(nodes@, edges@, client_rtts@, old(dist)@, visited@),
        frontier_except(nodes@, edges@, client_rtts@, old(dist)@, visited@, u as int),
        u < nodes@.len(),
        visited@[u as int],
    ensures
        dist_sound(nodes@, edges@, client_rtts@, final(dist)@, final(prev)@, visited@, new_wit@),
        settled_ok(nodes@, edges@, client_rtts@, final(dist)@, visited@),
        frontier_ok(nodes@, edges@, client_rtts@, final(dist)@, visited@),
{
    let ghost ns = nodes@;
    let ghost es = edges@;
    let ghost rs = client_rtts@;
    let ghost avs = av@;
    let ghost mut w_ = wit@;
    let du = dist[u];
    let row_len = adj[u].len();
    let mut k: usize = 0;
    while k < row_len
        invariant
            ns == nodes@,
            es == edges@,
            rs == client_rtts@,
            avs == av@,
            u < ns.len(),
            row_len == adj@[u as int]@.len(),
            k <= row_len,
            adj_sound(ns, es, adj@, avs),
            dist_sound(ns, es, rs, dist@, prev@, visited@, w_),
            settled_ok(ns, es, rs, dist@, visited@),
            frontier_except(ns, es, rs, dist@, visited@, u as int),
            visited@[u as int],
            dist@[u as int] == du,
            du < UNREACHABLE,
            forall|j: int|
                0 <= j < k ==> dist@[(#[trigger] adj@[u as int]@[j]).0 as int] <= sat_add(
                    du as int,
                    adj@[u as int]@[j].1 as int,
                ),
        decreases row_len - k,
    {
        let (t, w) = adj[u][k];
        let nd = dist[u].saturating_add(w);
        let ghost h = Hop { node: t as int, via: avs[u as int][k as int] };
        proof {
            assert(link_ok(ns, es, u as int, h));
            lemma_key_index_range(ns, es[h.via].to@);
        }
        if nd < dist[t] {
            proof {
                lemma_walk_push(ns, es, rs, w_[u as int], h);
                assert(!visited@[t as int]);
                lemma_push_simple(w_[u as int], h, visited@);
                lemma_lower_unsettled(ns, es, rs, dist@, visited@, u as int, t as int, nd);
            }
            dist[t] = nd;
            prev[t] = Some(u);
            proof {
                w_ = w_.update(t as int, w_[u as int].push(h));
                assert(w_[t as int].drop_last() =~= w_[u as int]);
            }
        }
        proof {
            assert(dist@[t as int] <= sat_add(du as int, w as int));
            assert forall|j: int| 0 <= j < k + 1 implies dist@[(#[trigger] adj@[u as int]@[j]).0 as int] <= sat_add(
                du as int,
                adj@[u as int]@[j].1 as int,
            ) by {
                assert(link_ok(ns, es, u as int, Hop { node: adj@[u as int]@[j].0 as int, via: avs[u as int][j] }));
                lemma_key_index_range(ns, es[avs[u as int][j]].to@);
            }
        }
        k = k + 1;
    }
    proof {
        lemma_close_frontier(ns, es, rs, adj@, avs, u as int, dist@, visited@, du);
    }
    Ghost(w_)
}


/// Settling the unsettled node of smallest distance keeps the settled facts,
/// and the frontier facts for every other settled source.
proof fn lemma_settle(
    nodes: Seq<NodeEntry>,
    edges: Seq<EdgeMetric>,
    rtts: Seq<(PublicKey, u32)>,
    dist: Seq<u64>,
    visited: Seq<bool>,
    u: int,
)
    requires
        dist.len() == nodes.len(),
        visited.len() == nodes.len(),
        settled_ok(nodes, edges, rtts, dist, visited),
        frontier_ok(nodes, edges, rtts, dist, visited),
        0 <= u < nodes.len(),
        !visited[u],
        forall|j: int| 0 <= j < dist.len() && !visited[j] ==> dist[u] <= #[trigger] dist[j],
    ensures
        settled_ok(nodes, edges, rtts, dist, visited.update(u, true)),
        frontier_except(nodes, edges, rtts, dist, visited.update(u, true), u),
{
    let v2 = visited.update(u, true);
    assert forall|w: Seq<Hop>| #[trigger] is_walk(nodes, edges, rtts, w) && v2[w.last().node] implies dist[w.last().node]
        <= walk_cost(edges, rtts, w) by {
        if w.len() == 1 {
            lemma_key_index_range(nodes, rtts[w[0].via].0@);
        } else {
            assert(link_ok(nodes, edges, w[w.len() - 2].node, w[w.len() - 1]));
            lemma_key_index_range(nodes, edges[w.last().via].to@);
        }
        if w.last().node == u {
            let k = lemma_first_unvisited(nodes, edges, rtts, dist, visited, w);
            if k == 0 {
                lemma_key_index_range(nodes, rtts[w[0].via].0@);
            } else {
                assert(link_ok(nodes, edges, w[k - 1].node, w[k]));
                lemma_key_index_range(nodes, edges[w[k].via].to@);
            }
        }
    }
    assert forall|g: int, h: Hop| #[trigger]
        link_ok(nodes, edges, g, h) && v2[g] && g != u && !v2[h.node] implies dist[h.node]
        <= sat_add(dist[g] as int, edge_weight(edges, h)) by {
        lemma_key_index_range(nodes, edges[h.via].from@);
        lemma_key_index_range(nodes, edges[h.via].to@);
    }
}

/// Marking a node of finite distance as settled keeps the witnesses sound.
proof fn lemma_mark_sound(
    nodes: Seq<NodeEntry>,
    edges: Seq<EdgeMetric>,
    rtts: Seq<(PublicKey, u32)>,
    dist: Seq<u64>,
    prev: Seq<Option<usize>>,
    visited: Seq<bool>,
    wit: Seq<Seq<Hop>>,
    u: int,
)
    requires
        dist_sound(nodes, edges, rtts, dist, prev, visited, wit),
        0 <= u < nodes.len(),
        dist[u] < UNREACHABLE,
    ensures
        dist_sound(nodes, edges, rtts, dist, prev, visited.update(u, true), wit),
{
    let v2 = visited.update(u, true);
    assert forall|w: Seq<Hop>| #[trigger] walk_settled_simple(w, visited) implies walk_settled_simple(w, v2) by {
        assert forall|i: int| 0 <= i < w.len() - 1 implies 0 <= #[trigger] w[i].node < v2.len()
            && v2[w[i].node] by {
            assert(visited[w[i].node]);
        }
    }
    assert forall|v: int| 0 <= v < nodes.len() && #[trigger] dist[v] < UNREACHABLE implies walk_settled_simple(
        wit[v],
        v2,
    ) by {
        assert(walk_settled_simple(wit[v], visited));
    }
    assert forall|v: int| 0 <= v < nodes.len() && #[trigger] prev[v] is Some implies v2[prev[v].unwrap() as int] by {
        assert(dist[v] < UNREACHABLE);
    }
}

/// Follows predecessor links back from `target_i` and returns the keys of the
/// witness walk of `target_i`, first hop first.
fn rebuild_path(
    nodes: &[NodeEntry],
    edges: &[EdgeMetric],
    client_rtts: &[(PublicKey, u32)],
    dist: &Vec<u64>,
    prev: &Vec<Option<usize>>,
    visited: &Vec<bool>,
    wit: Ghost<Seq<Seq<Hop>>>,
    target_i: usize,
) -> (path: Vec<PublicKey>)
    requires
        dist_sound(nodes@, edges@, client_rtts@, dist@, prev@, visited@, wit@),
        target_i < nodes@.len(),
        dist@[target_i as int] < UNREACHABLE,
    ensures
        path_keys(path@) == walk_keys(nodes@, wit@[target_i as int]),
{
    let ghost ns = nodes@;
    let ghost ws = wit@;
    let ghost wt = ws[target_i as int];
    let ghost len = wt.len();
    let mut back: Vec<PublicKey> = Vec::new();
    let mut cur = target_i;
    loop
        invariant_except_break
            back@.len() < len,
            ws[cur as int] == wt.take(len - back@.len()),
        invariant
            ns == nodes@,
            ws == wit@,
            dist_sound(ns, edges@, client_rtts@, dist@, prev@, visited@, ws),
            cur < ns.len(),
            dist@[cur as int] < UNREACHABLE,
            len == wt.len(),
            forall|j: int| 0 <= j < back@.len() ==> (#[trigger] back@[j])@ == ns[wt[len - 1 - j].node].node_pk@,
        ensures
            back@.len() == len,
            forall|j: int| 0 <= j < back@.len() ==> (#[trigger] back@[j])@ == ns[wt[len - 1 - j].node].node_pk@,
        decreases ws[cur as int].len(),
    {
        let ghost bl = back@.len();
        proof {
            assert(ws[cur as int].last() == wt.take(len - bl)[len - bl - 1]);
        }
        back.push(nodes[cur].node_pk);
        match prev[cur] {
            Some(p) => {
                proof {
                    assert(wt.take(len - bl).drop_last() =~= wt.take(len - bl - 1));
                }
                cur = p;
            },
            None => {
                break;
            },
        }
    }
    let mut path: Vec<PublicKey> = Vec::new();
    let mut j = back.len();
    while j > 0
        invariant
            j <= back@.len(),
            back@.len() == len,
            path@.len() == len - j,
            forall|x: int| 0 <= x < path@.len() ==> (#[trigger] path@[x])@ == ns[wt[x].node].node_pk@,
            forall|x: int| 0 <= x < back@.len() ==> (#[trigger] back@[x])@ == ns[wt[len - 1 - x].node].node_pk@,
        decreases j,
    {
        j = j - 1;
        path.push(back[j]);
    }
    proof {
        assert(path_keys(path@) =~= walk_keys(ns, wt));
    }
    path
}

/// Lowest-latency path to `target`. `client_rtts` are the client's own probes
/// (micros) to reachable nodes; `edges` with `rtt_micros = None` are skipped.
/// Returns `[first_hop, .., target]` (dial `first_hop`, relay through the rest),
/// or `None` if unreachable. A one-element result means connect directly.
pub fn plan_route(
    nodes: &[NodeEntry],
    edges: &[EdgeMetric],
    client_rtts: &[(PublicKey, u32)],
    target: &PublicKey,
) -> (route: Option<Vec<PublicKey>>)
    ensures
        route matches Some(path) ==> exists|w: Seq<Hop>| #[trigger]
            is_cheapest_route(nodes@, edges@, client_rtts@, target@, w) && path_keys(path@)
                == walk_keys(nodes@, w),
        route is None ==> forall|w: Seq<Hop>| #[trigger]
            is_route(nodes@, edges@, client_rtts@, target@, w) ==> walk_cost(edges@, client_rtts@, w)
                >= UNREACHABLE,
        route matches Some(path) ==> forall|i: int, j: int|
            0 <= i < j < path@.len() ==> (#[trigger] path@[i])@ != (#[trigger] path@[j])@,
{
    let ghost ns = nodes@;
    let ghost es = edges@;
    let ghost rs = client_rtts@;
    let n = nodes.len();
    let target_i = match index_of(nodes, target) {
        Some(i) => i,
        None => {
            return None;
        },
    };
    proof {
        lemma_key_index_range(ns, target@);
    }
    let (adj, av) = build_adjacency(nodes, edges);
    let (mut dist, mut prev, mut visited, mut wit) = initial_distances(nodes, edges, client_rtts);
    let ghost mut vset: Set<int> = Set::empty();
    loop
        invariant
            n == ns.len(),
            ns == nodes@,
            es == edges@,
            rs == client_rtts@,
            target_i < n,
            key_index(ns, target@) == Some(target_i as int),
            adj_sound(ns, es, adj@, av@),
            adj_complete(ns, es, av@),
            dist_sound(ns, es, rs, dist@, prev@, visited@, wit@),
            settled_ok(ns, es, rs, dist@, visited@),
            frontier_ok(ns, es, rs, dist@, visited@),
            !visited@[target_i as int],
            vset.finite(),
            forall|v: int| #[trigger] vset.contains(v) <==> (0 <= v < n && visited@[v]),
        ensures
            dist_sound(ns, es, rs, dist@, prev@, visited@, wit@),
            settled_ok(ns, es, rs, dist@, visited@),
            frontier_ok(ns, es, rs, dist@, visited@),
            !visited@[target_i as int],
            (dist@[target_i as int] < UNREACHABLE && forall|v: int|
                0 <= v < n && !visited@[v] ==> dist@[target_i as int] <= #[trigger] dist@[v]) || (
            forall|v: int| 0 <= v < n && !visited@[v] ==> #[trigger] dist@[v] == UNREACHABLE),
        decreases n - vset.len(),
    {
        proof {
            assert(vset.subset_of(vstd::set_lib::set_int_range(0, n as int)));
            vstd::set_lib::lemma_int_range(0, n as int);
            vstd::set_lib::lemma_len_subset(vset, vstd::set_lib::set_int_range(0, n as int));
        }
        let u = match select_min(&dist, &visited) {
            Some(x) => x,
            None => {
                break;
            },
        };
        if u == target_i {
            break;
        }
        let ghost vis0 = visited@;
        visited[u] = true;
        proof {
            assert(!vset.contains(u as int));
            vset = vset.insert(u as int);
            assert(vset.subset_of(vstd::set_lib::set_int_range(0, n as int)));
            vstd::set_lib::lemma_len_subset(vset, vstd::set_lib::set_int_range(0, n as int));
            lemma_settle(ns, es, rs, dist@, vis0, u as int);
            lemma_mark_sound(ns, es, rs, dist@, prev@, vis0, wit@, u as int);
        }
        wit = relax_from(nodes, edges, client_rtts, &adj, av, u, &mut dist, &mut prev, &visited, wit);
    }
    if dist[target_i] == UNREACHABLE {
        proof {
            assert forall|w: Seq<Hop>| #[trigger]
                is_route(ns, es, rs, target@, w) implies walk_cost(es, rs, w) >= UNREACHABLE by {
                let k = lemma_first_unvisited(ns, es, rs, dist@, visited@, w);
                if k == 0 {
                    lemma_key_index_range(ns, rs[w[0].via].0@);
                } else {
                    assert(link_ok(ns, es, w[k - 1].node, w[k]));
                    lemma_key_index_range(ns, es[w[k].via].to@);
                }
            }
        }
        return None;
    }
    let path = rebuild_path(nodes, edges, client_rtts, &dist, &prev, &visited, wit, target_i);
    proof {
        let wt = wit@[target_i as int];
        assert forall|w2: Seq<Hop>| #[trigger] is_route(ns, es, rs, target@, w2) implies walk_cost(es, rs, wt)
            <= walk_cost(es, rs, w2) by {
            let k = lemma_first_unvisited(ns, es, rs, dist@, visited@, w2);
            if k == 0 {
                lemma_key_index_range(ns, rs[w2[0].via].0@);
            } else {
                assert(link_ok(ns, es, w2[k - 1].node, w2[k]));
                lemma_key_index_range(ns, es[w2[k].via].to@);
            }
        }
        assert(is_cheapest_route(ns, es, rs, target@, wt));
        assert(walk_settled_simple(wt, visited@));
        assert(path_keys(path@).len() == path@.len());
        assert(walk_keys(ns, wt).len() == wt.len());
        assert forall|i: int, j: int| 0 <= i < j < path@.len() implies (#[trigger] path@[i])@ != (
        #[trigger] path@[j])@ by {
            assert(path_keys(path@)[i] == walk_keys(ns, wt)[i]);
            assert(path_keys(path@)[j] == walk_keys(ns, wt)[j]);
            lemma_walk_key_canonical(ns, es, rs, wt, i);
            lemma_walk_key_canonical(ns, es, rs, wt, j);
            assert(wt[i].node != wt[j].node);
        }
    }
    Some(path)
}

} // verus!
