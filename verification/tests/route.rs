use holynet_sdk::keys::PublicKey;
use holynet_sdk::net::{IpAddress, SocketAddress};
use holynet_sdk::route::plan_route;
use holynet_sdk::topology::{EdgeMetric, NodeEntry};

fn pk(seed: u8) -> PublicKey {
    let mut bytes = [0u8; 32];
    for (i, b) in bytes.iter_mut().enumerate() {
        *b = seed.wrapping_mul(31).wrapping_add(i as u8);
    }
    PublicKey::from_bytes(bytes)
}

fn node(k: &PublicKey, label: &str) -> NodeEntry {
    NodeEntry {
        node_pk: *k,
        endpoint: SocketAddress {
            ip: IpAddress::v4(203, 0, 113, 1),
            port: 5000 + label.len() as u16,
        },
        subnet: IpAddress::v4(10, 0, 0, 0),
        prefix: 18,
        label: label.into(),
    }
}

fn edge(from: &PublicKey, to: &PublicKey, rtt: Option<u32>) -> EdgeMetric {
    EdgeMetric {
        from: *from,
        to: *to,
        rtt_micros: rtt,
        updated_ms: 1,
    }
}

#[test]
fn direct_when_target_is_nearest() {
    let t = pk(1);
    let nodes = vec![node(&t, "t")];
    let path = plan_route(&nodes, &[], &[(t, 100)], &t).unwrap();
    assert_eq!(path, vec![t]);
}

#[test]
fn relayed_when_cheaper_than_direct() {
    // client->R = 10, R->T = 10 (total 20) beats client->T direct = 100.
    let r = pk(1);
    let t = pk(2);
    let nodes = vec![node(&r, "r"), node(&t, "t")];
    let edges = vec![edge(&r, &t, Some(10))];
    let client = vec![(r, 10), (t, 100)];
    let path = plan_route(&nodes, &edges, &client, &t).unwrap();
    assert_eq!(path, vec![r, t]);
}

#[test]
fn multi_hop_chain() {
    // client->A=1, A->B=1, B->T=1 (total 3) beats client->T direct=100.
    let a = pk(1);
    let b = pk(2);
    let t = pk(3);
    let nodes = vec![node(&a, "a"), node(&b, "b"), node(&t, "t")];
    let edges = vec![edge(&a, &b, Some(1)), edge(&b, &t, Some(1))];
    let client = vec![(a, 1), (t, 100)];
    let path = plan_route(&nodes, &edges, &client, &t).unwrap();
    assert_eq!(path, vec![a, b, t]);
}

#[test]
fn none_when_unreachable() {
    let a = pk(1);
    let t = pk(2);
    let nodes = vec![node(&a, "a"), node(&t, "t")];
    // Client reaches A, but no edge A->T and no direct probe to T.
    let path = plan_route(&nodes, &[], &[(a, 10)], &t);
    assert!(path.is_none());
}

#[test]
fn unreachable_edge_is_skipped() {
    // A->T is down (None); the direct probe is the only way.
    let a = pk(1);
    let t = pk(2);
    let nodes = vec![node(&a, "a"), node(&t, "t")];
    let edges = vec![edge(&a, &t, None)];
    let path = plan_route(&nodes, &edges, &[(a, 5), (t, 80)], &t).unwrap();
    assert_eq!(path, vec![t]);
}

#[test]
fn route_unknown_target_is_none() {
    let a = pk(1);
    let nodes = vec![node(&a, "a")];
    assert!(plan_route(&nodes, &[], &[(a, 1)], &pk(9)).is_none());
}

#[test]
fn route_smallest_duplicate_probe_wins() {
    let a = pk(1);
    let b = pk(2);
    let t = pk(3);
    let nodes = vec![node(&a, "a"), node(&b, "b"), node(&t, "t")];
    let edges = vec![edge(&a, &t, Some(10)), edge(&b, &t, Some(10))];
    // Two probes to A: the smaller one (5) counts, so A (15) beats B (12 + 10).
    let client = vec![(a, 50), (b, 12), (a, 5)];
    let path = plan_route(&nodes, &edges, &client, &t).unwrap();
    assert_eq!(path, vec![a, t]);
}

#[test]
fn route_edges_to_unknown_nodes_ignored() {
    let a = pk(1);
    let ghost_node = pk(7);
    let t = pk(3);
    let nodes = vec![node(&a, "a"), node(&t, "t")];
    let edges = vec![edge(&a, &ghost_node, Some(1)), edge(&ghost_node, &t, Some(1))];
    let path = plan_route(&nodes, &edges, &[(a, 1), (t, 40)], &t).unwrap();
    assert_eq!(path, vec![t]);
}

#[test]
fn route_cheapest_of_several_relays() {
    let a = pk(1);
    let b = pk(2);
    let c = pk(3);
    let t = pk(4);
    let nodes = vec![node(&a, "a"), node(&b, "b"), node(&c, "c"), node(&t, "t")];
    let edges = vec![
        edge(&a, &t, Some(30)),
        edge(&b, &c, Some(2)),
        edge(&c, &t, Some(3)),
        edge(&a, &b, Some(1)),
    ];
    let client = vec![(a, 1), (b, 20)];
    // client->A(1)->B(1)->C(2)->T(3) = 7 beats A->T (31) and B->C->T (25).
    let path = plan_route(&nodes, &edges, &client, &t).unwrap();
    assert_eq!(path, vec![a, b, c, t]);
}

#[test]
fn zero_cost_loop_is_not_repeated() {
    // A and B are joined both ways at zero cost; the route visits each node once.
    let a = pk(1);
    let b = pk(2);
    let t = pk(3);
    let nodes = vec![node(&a, "a"), node(&b, "b"), node(&t, "t")];
    let edges = vec![
        edge(&a, &b, Some(0)),
        edge(&b, &a, Some(0)),
        edge(&b, &t, Some(5)),
    ];
    let path = plan_route(&nodes, &edges, &[(a, 1)], &t).unwrap();
    assert_eq!(path, vec![a, b, t]);
    for i in 0..path.len() {
        for j in i + 1..path.len() {
            assert_ne!(path[i], path[j]);
        }
    }
}
