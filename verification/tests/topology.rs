use holynet_sdk::client_builder::{wants_pool, Alg, ClientBuilder};
use holynet_sdk::cred::Cred;
use holynet_sdk::keys::{PublicKey, SecretKey};
use holynet_sdk::net::{IpAddress, SocketAddress};
use holynet_sdk::packet::frame_of;
use holynet_sdk::topology::{advertised_nodes, rtt_micros, NodeEntry};

fn peer(seed: u8) -> NodeEntry {
    NodeEntry {
        node_pk: PublicKey::from_bytes([seed; 32]),
        endpoint: SocketAddress { ip: IpAddress::v4(192, 0, 2, seed), port: 4000 },
        subnet: IpAddress::v4(10, seed, 0, 0),
        prefix: 18,
        label: format!("peer{seed}"),
    }
}

#[test]
fn advertised_list_puts_this_node_first() {
    let me = PublicKey::from_bytes([9u8; 32]);
    let ep = SocketAddress { ip: IpAddress::v4(198, 51, 100, 1), port: 51820 };
    let nodes = advertised_nodes(
        me,
        Some(ep),
        IpAddress::v4(10, 9, 0, 0),
        24,
        "home".to_string(),
        vec![peer(1), peer(2)],
    );
    assert_eq!(nodes.len(), 3);
    assert_eq!(nodes[0].node_pk, me);
    assert_eq!(nodes[0].endpoint, ep);
    assert_eq!(nodes[0].label, "home");
    assert_eq!(nodes[1].label, "peer1");
    assert_eq!(nodes[2].label, "peer2");
}

#[test]
fn advertised_list_without_endpoint_is_the_peers() {
    let me = PublicKey::from_bytes([9u8; 32]);
    let nodes = advertised_nodes(me, None, IpAddress::v4(10, 9, 0, 0), 24, String::new(), vec![peer(3)]);
    assert_eq!(nodes.len(), 1);
    assert_eq!(nodes[0].label, "peer3");
}

#[test]
fn rtt_saturates_at_u32_max() {
    assert_eq!(rtt_micros(0), 0);
    assert_eq!(rtt_micros(1500), 1500);
    assert_eq!(rtt_micros(u32::MAX as u128), u32::MAX);
    assert_eq!(rtt_micros(u32::MAX as u128 + 1), u32::MAX);
}

#[test]
fn node_frames_start_with_their_type() {
    assert_eq!(frame_of(7, &[1, 2, 3]), vec![7, 1, 2, 3]);
    assert_eq!(frame_of(8, &[]), vec![8]);
}

#[test]
fn task_plan_follows_worker_counts() {
    assert!(!wants_pool(0));
    assert!(!wants_pool(1));
    assert!(wants_pool(2));
    let cred = Cred {
        sk: SecretKey::from_bytes([1u8; 32]),
        psk: SecretKey::from_bytes([2u8; 32]),
        spk: PublicKey::from_bytes([3u8; 32]),
        enrollment: Vec::new(),
    };
    let c = ClientBuilder::new((), ())
        .alg(Alg::ChaCha20Poly1305)
        .decrypt_workers(4)
        .encrypt_workers(1)
        .keepalive(None)
        .cred(cred)
        .build()
        .unwrap();
    let plan = c.task_plan();
    assert!(plan.decrypt_pool);
    assert!(!plan.encrypt_pool);
    assert!(!plan.keepalive);
}
