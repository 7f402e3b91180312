use holynet_sdk::ip_pool::{increment_ip, IpAddressGenerator};
use holynet_sdk::net::{parse_destination, DestinationError, IpAddress};

fn ipv4_packet(dst: [u8; 4]) -> Vec<u8> {
    let mut pkt = vec![0u8; 20];
    pkt[0] = 0x45; // version=4, IHL=5
    pkt[16..20].copy_from_slice(&dst);
    pkt
}

#[test]
fn test_ipv4_dst_parsed() {
    let pkt = ipv4_packet([10, 0, 0, 1]);
    let ip = parse_destination(&pkt).unwrap();
    assert_eq!(ip, IpAddress::v4(10, 0, 0, 1));
}

#[test]
fn test_ipv4_dst_with_payload() {
    let mut pkt = ipv4_packet([192, 168, 1, 100]);
    pkt.extend_from_slice(&[0u8; 100]); // simulate payload
    let ip = parse_destination(&pkt).unwrap();
    assert_eq!(ip, IpAddress::v4(192, 168, 1, 100));
}

#[test]
fn test_ipv4_too_short_errors() {
    let pkt = vec![0x45u8; 19]; // version=4, but only 19 bytes
    assert!(parse_destination(&pkt).is_err());
}

#[test]
fn test_ipv6_returns_error() {
    let mut pkt = vec![0u8; 40]; // IPv6 header is 40 bytes
    pkt[0] = 0x60; // version=6
    assert!(parse_destination(&pkt).is_err());
}

#[test]
fn test_empty_packet_errors() {
    assert!(parse_destination(&[]).is_err());
}

#[test]
fn test_unknown_version_errors() {
    let pkt = vec![0x50u8; 20]; // version=5 (reserved)
    assert!(parse_destination(&pkt).is_err());
}

#[test]
fn destination_errors_say_why() {
    assert_eq!(parse_destination(&[]), Err(DestinationError::Empty));
    assert_eq!(
        parse_destination(&[0x45u8; 19]),
        Err(DestinationError::TooShort(19))
    );
    assert_eq!(
        parse_destination(&[0x60u8; 40]),
        Err(DestinationError::Ipv6Unsupported)
    );
    assert_eq!(
        parse_destination(&[0x50u8; 20]),
        Err(DestinationError::UnknownVersion(5))
    );
}

#[test]
fn v4_octets_are_big_endian() {
    assert_eq!(IpAddress::v4(192, 168, 0, 1), IpAddress::V4(0xC0A8_0001));
    assert!(IpAddress::v4(1, 2, 3, 4).is_v4());
    assert!(!IpAddress::V6(1).is_v4());
}

#[test]
fn test_ipv4_address_generator() {
    let mut generator = IpAddressGenerator::new(IpAddress::v4(192, 168, 0, 0), 24);
    let mut addresses = Vec::new();
    for _ in 0..256 {
        addresses.push(generator.next().unwrap());
    }
    assert_eq!(generator.next(), None);
    assert_eq!(addresses.len(), 256);
    assert_eq!(addresses[0], IpAddress::v4(192, 168, 0, 0));
    assert_eq!(addresses[255], IpAddress::v4(192, 168, 0, 255));

    generator.release(&IpAddress::v4(192, 168, 0, 0));
    assert_eq!(generator.next(), Some(IpAddress::v4(192, 168, 0, 0)));
}

#[test]
fn test_release_and_reuse() {
    // /30 has 4 addresses; fill the pool completely, then release one.
    // The cursor is monotonic, so the freed slot is found on the wrap-around scan.
    let mut generator = IpAddressGenerator::new(IpAddress::v4(10, 0, 0, 0), 30);
    let ips: Vec<_> = (0..4).map(|_| generator.next().unwrap()).collect();
    assert!(generator.next().is_none(), "pool must be exhausted");
    generator.release(&ips[0]);
    // Only one slot is free — next() must return exactly that one.
    assert_eq!(generator.next(), Some(ips[0]));
}

#[test]
fn generator_starts_at_the_given_address_and_wraps() {
    // The cursor starts on the address given, inside its /29.
    let mut g = IpAddressGenerator::new(IpAddress::v4(10, 0, 0, 6), 29);
    assert_eq!(g.next(), Some(IpAddress::v4(10, 0, 0, 6)));
    assert_eq!(g.next(), Some(IpAddress::v4(10, 0, 0, 7)));
    // Wraps to the start of the subnet.
    assert_eq!(g.next(), Some(IpAddress::v4(10, 0, 0, 0)));
}

#[test]
fn generator_ignores_addresses_outside_the_subnet() {
    let mut g = IpAddressGenerator::new(IpAddress::v4(10, 0, 0, 0), 31);
    let a = g.next().unwrap();
    let b = g.next().unwrap();
    assert_ne!(a, b);
    g.release(&IpAddress::v4(10, 0, 1, 0));
    assert_eq!(g.next(), None);
    g.release(&b);
    assert_eq!(g.next(), Some(b));
}

#[test]
fn generator_hands_out_distinct_addresses() {
    let mut g = IpAddressGenerator::new(IpAddress::v4(10, 0, 0, 0), 26);
    let mut seen = std::collections::HashSet::new();
    while let Some(ip) = g.next() {
        assert!(seen.insert(ip), "duplicate {ip:?}");
    }
    assert_eq!(seen.len(), 64);
}

#[test]
fn ipv6_generator_uses_v6_addresses() {
    let base: u128 = 0xfd00_0000_0000_0000_0000_0000_0000_0000;
    let mut g = IpAddressGenerator::new(IpAddress::V6(base + 5), 120);
    assert_eq!(g.next(), Some(IpAddress::V6(base + 5)));
    assert_eq!(g.next(), Some(IpAddress::V6(base + 6)));
}

#[test]
fn increment_ip_wraps() {
    assert_eq!(increment_ip(IpAddress::v4(10, 0, 0, 0)), IpAddress::v4(10, 0, 0, 1));
    assert_eq!(increment_ip(IpAddress::V4(u32::MAX)), IpAddress::V4(0));
    assert_eq!(increment_ip(IpAddress::V6(u128::MAX)), IpAddress::V6(0));
    assert_eq!(increment_ip(IpAddress::V6(41)), IpAddress::V6(42));
}
