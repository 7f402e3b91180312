use holynet_sdk::net::{IpAddress, SocketAddress};
use holynet_sdk::relay::{RelayFlow, RelayRefusal, RelayTable, MAX_RELAY_FLOWS};

fn at(port: u16) -> SocketAddress {
    SocketAddress { ip: IpAddress::v4(127, 0, 0, 1), port }
}

#[test]
fn relay_ids_start_at_one_and_skip_used() {
    let mut t: RelayTable<&str> = RelayTable::new();
    let a = t.alloc_id();
    assert_eq!(a, 1);
    t.insert(a, RelayFlow { client_addr: at(1), last_seen: 0, io: "a" });
    let b = t.alloc_id();
    assert_eq!(b, 2);
    t.insert(b, RelayFlow { client_addr: at(2), last_seen: 0, io: "b" });
    assert_eq!(t.len(), 2);
}

#[test]
fn relay_forward_only_from_pinned_client() {
    let mut t: RelayTable<&str> = RelayTable::new();
    let id = t.alloc_id();
    t.insert(id, RelayFlow { client_addr: at(1000), last_seen: 0, io: "dest" });
    // Spoofed source: dropped.
    assert_eq!(t.forward_target(id, at(1), 5), None);
    // Unknown id: dropped.
    assert_eq!(t.forward_target(id + 1, at(1000), 5), None);
    // The pinned client is forwarded.
    assert_eq!(t.forward_target(id, at(1000), 5), Some(&"dest"));
}

#[test]
fn relay_idle_flows_are_reaped() {
    let mut t: RelayTable<u32> = RelayTable::new();
    let a = t.alloc_id();
    t.insert(a, RelayFlow { client_addr: at(1), last_seen: 0, io: 10 });
    let b = t.alloc_id();
    t.insert(b, RelayFlow { client_addr: at(2), last_seen: 50, io: 20 });
    let reaped = t.reap_idle(60);
    assert_eq!(reaped, vec![10]);
    assert_eq!(t.len(), 1);
    // A forward refreshes the flow.
    assert!(t.forward_target(b, at(2), 100).is_some());
    assert!(t.reap_idle(159).is_empty());
    assert_eq!(t.reap_idle(160), vec![20]);
}

#[test]
fn relay_batches_group_by_flow_in_order() {
    let mut t: RelayTable<u8> = RelayTable::new();
    let a = t.alloc_id();
    t.insert(a, RelayFlow { client_addr: at(1), last_seen: 0, io: 0 });
    let b = t.alloc_id();
    t.insert(b, RelayFlow { client_addr: at(2), last_seen: 0, io: 0 });
    let idx = vec![
        (b, 0, 10, at(2)),
        (a, 10, 5, at(1)),
        (b, 15, 3, at(9)), // spoofed: dropped
        (99, 18, 4, at(1)), // unknown flow
        (b, 22, 7, at(2)),
    ];
    let groups = t.batch_groups(&idx, 7);
    assert_eq!(groups.len(), 2);
    assert_eq!(groups[0].relay_id, b);
    assert_eq!(groups[0].ranges, vec![(0, 10), (22, 7)]);
    assert_eq!(groups[1].relay_id, a);
    assert_eq!(groups[1].ranges, vec![(10, 5)]);
    // Both flows were seen at 7.
    assert!(t.reap_idle(66).is_empty());
}

#[test]
fn relay_open_checks() {
    let t: RelayTable<u8> = RelayTable::new();
    assert_eq!(t.check_open(&[1u8; 31]).err(), Some(RelayRefusal::BadKey));
    let k = t.check_open(&[7u8; 32]).unwrap();
    assert_eq!(k.as_bytes(), [7u8; 32]);
    let mut full: RelayTable<u8> = RelayTable::new();
    for _ in 0..MAX_RELAY_FLOWS {
        let id = full.alloc_id();
        full.insert(id, RelayFlow { client_addr: at(1), last_seen: 0, io: 0 });
    }
    assert!(!full.has_room());
    assert_eq!(full.check_open(&[7u8; 32]).err(), Some(RelayRefusal::AtCapacity));
}
