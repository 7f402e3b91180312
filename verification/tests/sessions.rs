use holynet_sdk::client_builder::Alg;
use holynet_sdk::net::{IpAddress, SocketAddress};
use holynet_sdk::session::{Session, SessionId};
use holynet_sdk::sessions::{SessionIdGenerator, Sessions};
use snow::StatelessTransportState;

fn session_states() -> (StatelessTransportState, StatelessTransportState) {
    let params: snow::params::NoiseParams =
        "Noise_IKpsk2_25519_ChaChaPoly_BLAKE2s".parse().unwrap();
    let server = snow::Builder::new(params.clone()).generate_keypair().unwrap();
    let client = snow::Builder::new(params.clone()).generate_keypair().unwrap();
    let psk = [0u8; 32];
    let mut init = snow::Builder::new(params.clone())
        .local_private_key(&client.private)
        .unwrap()
        .remote_public_key(&server.public)
        .unwrap()
        .psk(2, &psk)
        .unwrap()
        .build_initiator()
        .unwrap();
    let mut resp = snow::Builder::new(params)
        .local_private_key(&server.private)
        .unwrap()
        .remote_public_key(&client.public)
        .unwrap()
        .psk(2, &psk)
        .unwrap()
        .build_responder()
        .unwrap();
    let mut buf = vec![0u8; 65536];
    let mut scratch = vec![0u8; 65536];
    let n = init.write_message(&[], &mut buf).unwrap();
    resp.read_message(&buf[..n], &mut scratch).unwrap();
    let n = resp.write_message(&[], &mut buf).unwrap();
    init.read_message(&buf[..n], &mut scratch).unwrap();
    (
        init.into_stateless_transport_mode().unwrap(),
        resp.into_stateless_transport_mode().unwrap(),
    )
}

fn v4(a: u8, b: u8, c: u8, d: u8, port: u16) -> SocketAddress {
    SocketAddress { ip: IpAddress::v4(a, b, c, d), port }
}

fn v6(ip: u128, port: u16) -> SocketAddress {
    SocketAddress { ip: IpAddress::V6(ip), port }
}

fn make_sessions() -> Sessions {
    Sessions::new(&IpAddress::v4(10, 0, 0, 0), 8)
}

fn add_one(
    sessions: &mut Sessions,
    addr: SocketAddress,
    state: StatelessTransportState,
    now: u64,
) -> (SessionId, IpAddress) {
    let sid = sessions.next_session_id().unwrap();
    let ip = sessions.next_holy_ip().unwrap();
    sessions.add(sid, ip, addr, Alg::ChaCha20Poly1305, state, now);
    (sid, ip)
}

#[test]
fn test_add_lookup_by_sid() {
    let mut sessions = make_sessions();
    let (state, _) = session_states();
    let (sid, ip) = add_one(&mut sessions, v4(127, 0, 0, 1, 1234), state, 1);

    let session = sessions.get_by_sid(sid).unwrap();
    assert_eq!(session.id, sid);
    assert_eq!(session.holy_ip, ip);
}

#[test]
fn test_add_lookup_by_holy_ip() {
    let mut sessions = make_sessions();
    let (state, _) = session_states();
    let (sid, ip) = add_one(&mut sessions, v4(127, 0, 0, 1, 1234), state, 1);

    let session = sessions.get_by_holy_ip(&ip).unwrap();
    assert_eq!(session.id, sid);
}

#[test]
fn test_unknown_sid_returns_none() {
    let sessions = make_sessions();
    assert!(sessions.get_by_sid(0xDEAD_BEEF).is_none());
}

#[test]
fn test_release_by_sid_removes_session_and_ip() {
    let mut sessions = make_sessions();
    let (state, _) = session_states();
    let (sid, ip) = add_one(&mut sessions, v4(127, 0, 0, 1, 1111), state, 1);

    assert!(sessions.is_sid_allocated(sid));
    assert!(sessions.is_holy_ip_allocated(&ip));

    sessions.release_by_sid(sid);

    assert!(!sessions.is_sid_allocated(sid));
    assert!(!sessions.is_holy_ip_allocated(&ip));
}

#[test]
fn test_cleanup_removes_expired_keeps_fresh() {
    let mut sessions = make_sessions();

    let (s1, _) = session_states();
    let (s2, _) = session_states();
    let (sid1, ip1) = add_one(&mut sessions, v4(127, 0, 0, 1, 2001), s1, 0);
    let (sid2, ip2) = add_one(&mut sessions, v4(127, 0, 0, 1, 2002), s2, 0);

    // Mark sid1 as ancient (last seen at the epoch) and sid2 as unreachably fresh.
    sessions.touch(sid1, 0);
    sessions.touch(sid2, u64::MAX);

    // TTL = 0 at time 1: expired when `now - last_seen > 0`.
    sessions.cleanup_sessions(0, 1);

    assert!(!sessions.is_sid_allocated(sid1), "expired session must be removed");
    assert!(!sessions.is_holy_ip_allocated(&ip1), "expired ip must be released");
    assert!(sessions.is_sid_allocated(sid2), "fresh session must be kept");
    assert!(sessions.is_holy_ip_allocated(&ip2), "fresh ip must be kept");
}

#[test]
fn test_cleanup_with_large_ttl_keeps_all() {
    let mut sessions = make_sessions();
    let (s1, _) = session_states();
    let (sid, ip) = add_one(&mut sessions, v4(127, 0, 0, 1, 3000), s1, 5);

    sessions.cleanup_sessions(86400, 10);

    assert!(sessions.is_sid_allocated(sid));
    assert!(sessions.is_holy_ip_allocated(&ip));
}

#[test]
fn test_initial_v4_sock_addr() {
    let mut sessions = make_sessions();
    let (state, _) = session_states();
    let addr = v4(192, 168, 1, 100, 8080);
    let (sid, _) = add_one(&mut sessions, addr, state, 1);
    assert_eq!(sessions.get_by_sid(sid).unwrap().sock_addr(), addr);
}

#[test]
fn test_initial_v6_sock_addr() {
    let mut sessions = make_sessions();
    let (state, _) = session_states();
    let addr = v6(0x2001_0db8_0000_0000_0000_0000_0000_0001, 443);
    let (sid, _) = add_one(&mut sessions, addr, state, 1);
    assert_eq!(sessions.get_by_sid(sid).unwrap().sock_addr(), addr);
}

#[test]
fn test_update_sock_addr_v4_to_v6() {
    let mut sessions = make_sessions();
    let (state, _) = session_states();
    let a = v4(10, 0, 0, 1, 1234);
    let b = v6(1, 9090);
    let (sid, _) = add_one(&mut sessions, a, state, 1);

    sessions.update_sock_addr(sid, b);
    assert_eq!(sessions.get_by_sid(sid).unwrap().sock_addr(), b);
}

#[test]
fn test_update_sock_addr_v6_to_v4() {
    let mut sessions = make_sessions();
    let (state, _) = session_states();
    let a = v6(1, 9090);
    let b = v4(172, 16, 0, 1, 5555);
    let (sid, _) = add_one(&mut sessions, a, state, 1);

    sessions.update_sock_addr(sid, b);
    assert_eq!(sessions.get_by_sid(sid).unwrap().sock_addr(), b);
}

#[test]
fn test_update_sock_addr_v4_to_v4() {
    let mut sessions = make_sessions();
    let (state, _) = session_states();
    let a = v4(192, 168, 0, 1, 100);
    let b = v4(10, 10, 10, 10, 200);
    let (sid, _) = add_one(&mut sessions, a, state, 1);

    sessions.update_sock_addr(sid, b);
    assert_eq!(sessions.get_by_sid(sid).unwrap().sock_addr(), b);
}

#[test]
fn test_update_sock_addr_v6_to_v6() {
    let mut sessions = make_sessions();
    let (state, _) = session_states();
    let a = v6(1, 1);
    let b = v6(0x2001_0db8_0000_0000_0000_0000_0000_00ff, 2);
    let (sid, _) = add_one(&mut sessions, a, state, 1);

    sessions.update_sock_addr(sid, b);
    assert_eq!(sessions.get_by_sid(sid).unwrap().sock_addr(), b);
}

#[test]
fn test_get_and_touch_updates_last_seen() {
    let mut sessions = make_sessions();
    let (state, _) = session_states();
    let (sid, _) = add_one(&mut sessions, v4(127, 0, 0, 1, 4321), state, 1);

    sessions.touch(sid, 0);
    let session = sessions.get_and_touch(sid, 42).unwrap();
    assert_eq!(session.last_seen, 42, "get_and_touch must update last_seen");
}

#[test]
fn test_get_and_touch_unknown_sid_returns_none() {
    let mut sessions = make_sessions();
    assert!(sessions.get_and_touch(0xDEAD_BEEF, 1).is_none());
}

#[test]
fn test_set_sock_addr_direct_v4() {
    let (state, _) = session_states();
    let a = v4(1, 2, 3, 4, 1000);
    let b = v4(5, 6, 7, 8, 2000);
    let mut session = Session::new(7, IpAddress::v4(10, 0, 0, 2), a, Alg::ChaCha20Poly1305, state, 1);
    assert_eq!(session.sock_addr(), a);
    session.set_sock_addr(b);
    assert_eq!(session.sock_addr(), b);
}

#[test]
fn test_touch_updates_last_seen() {
    let mut sessions = make_sessions();
    let (state, _) = session_states();
    let (sid, _) = add_one(&mut sessions, v4(127, 0, 0, 1, 9999), state, 1);

    sessions.touch(sid, 0);
    sessions.touch(sid, 17);
    let seen = sessions.get_by_sid(sid).unwrap().last_seen;
    assert_eq!(seen, 17, "touch must set last_seen to now");
}

#[test]
fn tunnel_addresses_start_after_the_network_address() {
    let mut sessions = make_sessions();
    assert_eq!(sessions.next_holy_ip(), Some(IpAddress::v4(10, 0, 0, 1)));
    assert_eq!(sessions.next_holy_ip(), Some(IpAddress::v4(10, 0, 0, 2)));
}

#[test]
fn session_ids_are_handed_out_in_order_and_reused() {
    let mut ids = SessionIdGenerator::new();
    assert_eq!(ids.next(), Some(0));
    assert_eq!(ids.next(), Some(1));
    ids.release(0);
    assert_eq!(ids.next(), Some(2));
}

#[test]
fn cleanup_requeues_active_sessions() {
    let mut sessions = make_sessions();
    let (state, _) = session_states();
    let (sid, ip) = add_one(&mut sessions, v4(127, 0, 0, 1, 1), state, 0);
    sessions.touch(sid, 50);
    // Checked at 60 with ttl 30: idle 10 s, kept and queued again at 50.
    sessions.cleanup_sessions(30, 60);
    assert!(sessions.is_sid_allocated(sid));
    // At 81 it has been idle 31 s: ended.
    sessions.cleanup_sessions(30, 81);
    assert!(!sessions.is_sid_allocated(sid));
    assert!(!sessions.is_holy_ip_allocated(&ip));
    // Its id and address can be handed out again.
    assert_eq!(sessions.len(), 0);
}

#[test]
fn wrong_family_address_finds_no_session() {
    let mut sessions = make_sessions();
    let (state, _) = session_states();
    let (_, ip) = add_one(&mut sessions, v4(127, 0, 0, 1, 1), state, 0);
    let same_value = match ip {
        IpAddress::V4(v) => IpAddress::V6(v as u128),
        IpAddress::V6(v) => IpAddress::V6(v),
    };
    assert!(sessions.get_by_holy_ip(&same_value).is_none());
    assert!(!sessions.is_holy_ip_allocated(&same_value));
}

#[test]
fn nonces_and_replay_are_per_session() {
    let mut sessions = make_sessions();
    let (s1, _) = session_states();
    let (s2, _) = session_states();
    let (a, _) = add_one(&mut sessions, v4(127, 0, 0, 1, 1), s1, 0);
    let (b, _) = add_one(&mut sessions, v4(127, 0, 0, 1, 2), s2, 0);
    assert_eq!(sessions.take_send_nonce(a), Some(0));
    assert_eq!(sessions.take_send_nonce(a), Some(1));
    assert_eq!(sessions.take_send_nonce(b), Some(0));
    assert_eq!(sessions.accept_nonce(a, 5), Some(true));
    assert_eq!(sessions.accept_nonce(a, 5), Some(false));
    assert_eq!(sessions.accept_nonce(b, 5), Some(true));
    assert_eq!(sessions.accept_nonce(0xDEAD, 5), None);
    assert_eq!(sessions.take_send_nonce(0xDEAD), None);
}
