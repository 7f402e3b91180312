use holynet_sdk::pipeline::reusable_slot;
use holynet_sdk::client_builder::Alg;
use holynet_sdk::link::{
    encode_keepalive, encode_lease_request, encode_outgoing, receive_from_server, AttemptFollowUp, ClientSession,
    Connector, ConnectorStep, LinkEvent, LinkState, ReceiveOutcome, SendOutcome,
};
use holynet_sdk::net::{IpAddress, SocketAddress};
use holynet_sdk::pipeline::{datagram_size_ok, shift_packet, Dispatcher, Reassembler};
use holynet_sdk::packet::DataServerBody;
use holynet_sdk::server_data::{
    encode_for_client, encode_keepalive_echo, encode_lease_reply, lease_reply, receive_from_client,
    ClientDatagram, DevicePacket, LEASE_UNAVAILABLE,
};
use holynet_sdk::sessions::Sessions;
use snow::StatelessTransportState;

fn tunnel_states() -> (StatelessTransportState, StatelessTransportState) {
    let params: snow::params::NoiseParams =
        "Noise_IKpsk2_25519_ChaChaPoly_BLAKE2s".parse().unwrap();
    let server = snow::Builder::new(params.clone()).generate_keypair().unwrap();
    let client = snow::Builder::new(params.clone()).generate_keypair().unwrap();
    let psk = [0u8; 32];
    let mut init = snow::Builder::new(params.clone())
        .local_private_key(&client.private)
        .unwrap()
        .remote_public_key(&server.public)
        .unwrap()
        .psk(2, &psk)
        .unwrap()
        .build_initiator()
        .unwrap();
    let mut resp = snow::Builder::new(params)
        .local_private_key(&server.private)
        .unwrap()
        .remote_public_key(&client.public)
        .unwrap()
        .psk(2, &psk)
        .unwrap()
        .build_responder()
        .unwrap();
    let mut buf = vec![0u8; 65536];
    let mut scratch = vec![0u8; 65536];
    let n = init.write_message(&[], &mut buf).unwrap();
    resp.read_message(&buf[..n], &mut scratch).unwrap();
    let n = resp.write_message(&[], &mut buf).unwrap();
    init.read_message(&buf[..n], &mut scratch).unwrap();
    (
        init.into_stateless_transport_mode().unwrap(),
        resp.into_stateless_transport_mode().unwrap(),
    )
}

fn addr(port: u16) -> SocketAddress {
    SocketAddress { ip: IpAddress::v4(203, 0, 113, 7), port }
}

/// A connected pair: the client's session and a server table holding its session.
fn connected() -> (ClientSession, Sessions, u32, IpAddress) {
    let (client_state, server_state) = tunnel_states();
    let mut sessions = Sessions::new(&IpAddress::v4(10, 8, 0, 0), 24);
    let sid = sessions.next_session_id().unwrap();
    let ip = sessions.next_holy_ip().unwrap();
    sessions.add(sid, ip, addr(4000), Alg::ChaCha20Poly1305, server_state, 1);
    (ClientSession::new(client_state), sessions, sid, ip)
}

fn device_packet(dst: [u8; 4], len: usize) -> Vec<u8> {
    let mut pkt = vec![0xA5u8; len];
    pkt[0] = 0x45;
    pkt[16..20].copy_from_slice(&dst);
    pkt
}

#[test]
fn client_packet_reaches_server_device() {
    let (mut client, mut sessions, sid, _) = connected();
    let payload = device_packet([8, 8, 8, 8], 100);
    let mut out = vec![0u8; 65600];
    let n = match encode_outgoing(&mut client, sid, &payload, &mut out) {
        SendOutcome::Send(n) => n,
        _ => panic!("expected a datagram"),
    };
    assert_eq!(client.send_nonce, 1);
    let mut plain = vec![0u8; 65536];
    let buf = {
        let mut b = vec![0u8; 65536];
        b[..n].copy_from_slice(&out[..n]);
        b
    };
    match receive_from_client(&mut sessions, &buf, n, addr(4000), 5, true, &mut plain) {
        ClientDatagram::Forward(x, start, len) => {
            assert_eq!(x, sid);
            assert_eq!(&plain[start..start + len], &payload[..]);
        }
        _ => panic!("expected Forward"),
    }
    assert_eq!(sessions.get_by_sid(sid).unwrap().last_seen, 5);
    // The same datagram again is a replay.
    match receive_from_client(&mut sessions, &buf, n, addr(4000), 6, true, &mut plain) {
        ClientDatagram::Replayed(x) => assert_eq!(x, sid),
        _ => panic!("expected Replayed"),
    }
}

#[test]
fn server_roams_to_new_client_address() {
    let (mut client, mut sessions, sid, _) = connected();
    let payload = device_packet([1, 1, 1, 1], 40);
    let mut out = vec![0u8; 65536];
    let n = match encode_outgoing(&mut client, sid, &payload, &mut out) {
        SendOutcome::Send(n) => n,
        _ => panic!("expected a datagram"),
    };
    let mut plain = vec![0u8; 65536];
    match receive_from_client(&mut sessions, &out, n, addr(5000), 2, false, &mut plain) {
        ClientDatagram::Forward(..) => {}
        _ => panic!("expected Forward"),
    }
    assert_eq!(sessions.get_by_sid(sid).unwrap().sock_addr(), addr(5000));
    // With idle tracking off, last-seen stays.
    assert_eq!(sessions.get_by_sid(sid).unwrap().last_seen, 1);
}

#[test]
fn server_packet_reaches_client_device() {
    let (mut client, mut sessions, _sid, ip) = connected();
    let dst = match ip {
        IpAddress::V4(v) => v.to_be_bytes(),
        IpAddress::V6(_) => panic!("v4 pool"),
    };
    let payload = device_packet(dst, 64);
    let mut out = vec![0u8; 65600];
    let (n, to) = match encode_for_client(&mut sessions, &payload, &mut out) {
        DevicePacket::Send(n, to) => (n, to),
        _ => panic!("expected a datagram"),
    };
    assert_eq!(to, addr(4000));
    let mut plain = vec![0u8; 65536];
    match receive_from_server(&mut client, &out, n, &mut plain) {
        ReceiveOutcome::Forward(start, len) => assert_eq!(&plain[start..start + len], &payload[..]),
        _ => panic!("expected Forward"),
    }
}

#[test]
fn device_packet_without_session_is_dropped() {
    let (_client, mut sessions, _sid, _ip) = connected();
    let payload = device_packet([10, 8, 0, 99], 64);
    let mut out = vec![0u8; 65600];
    match encode_for_client(&mut sessions, &payload, &mut out) {
        DevicePacket::NoSession(ip) => assert_eq!(ip, IpAddress::v4(10, 8, 0, 99)),
        _ => panic!("expected NoSession"),
    }
    match encode_for_client(&mut sessions, &[], &mut out) {
        DevicePacket::NoDestination(_) => {}
        _ => panic!("expected NoDestination"),
    }
}

#[test]
fn keepalive_is_echoed() {
    let (mut client, mut sessions, sid, _) = connected();
    let mut out = vec![0u8; 65600];
    let n = encode_keepalive(&mut client, sid, 123_456, &mut out).unwrap();
    let mut plain = vec![0u8; 65536];
    let ts = match receive_from_client(&mut sessions, &out, n, addr(4000), 3, true, &mut plain) {
        ClientDatagram::KeepAlive(x, ts) => {
            assert_eq!(x, sid);
            ts
        }
        _ => panic!("expected KeepAlive"),
    };
    assert_eq!(ts, 123_456);
    let mut echo = vec![0u8; 65600];
    let m = encode_keepalive_echo(&mut sessions, sid, ts, &mut echo).unwrap();
    match receive_from_server(&mut client, &echo, m, &mut plain) {
        ReceiveOutcome::KeepAlive(t) => assert_eq!(t, 123_456),
        _ => panic!("expected KeepAlive"),
    }
}

#[test]
fn receive_paths_reject_bad_sizes_and_other_frames() {
    let (mut client, mut sessions, _sid, _) = connected();
    let buf = vec![0u8; 16];
    let mut plain = vec![0u8; 64];
    assert!(matches!(
        receive_from_client(&mut sessions, &buf, 0, addr(1), 0, true, &mut plain),
        ClientDatagram::BadSize
    ));
    assert!(matches!(
        receive_from_client(&mut sessions, &buf, 16, addr(1), 0, true, &mut plain),
        ClientDatagram::BadSize
    ));
    // A DataServer frame is not for the server.
    let mut frame = vec![0u8; 64];
    frame[0] = 3;
    assert!(matches!(
        receive_from_client(&mut sessions, &frame, 40, addr(1), 0, true, &mut plain),
        ClientDatagram::NotData
    ));
    // A DataClient frame is not for the client.
    frame[0] = 2;
    assert!(matches!(
        receive_from_server(&mut client, &frame, 40, &mut plain),
        ReceiveOutcome::NotData
    ));
    // Unknown session id.
    frame[1..5].copy_from_slice(&0xDEAD_BEEFu32.to_be_bytes());
    assert!(matches!(
        receive_from_client(&mut sessions, &frame, 40, addr(1), 0, true, &mut plain),
        ClientDatagram::UnknownSession(0xDEAD_BEEF)
    ));
}

#[test]
fn empty_device_packet_uses_no_nonce() {
    let (mut client, _sessions, sid, _) = connected();
    let mut out = vec![0u8; 64];
    assert!(matches!(
        encode_outgoing(&mut client, sid, &[], &mut out),
        SendOutcome::Skip
    ));
    assert_eq!(client.send_nonce, 0);
    assert_eq!(client.next_nonce(), 0);
    assert_eq!(client.next_nonce(), 1);
}

#[test]
fn link_state_follows_runtime() {
    let mut link: LinkState<u8> = LinkState::new();
    assert!(!link.connected);
    assert!(link.on_state(LinkEvent::Connected(9, 1)));
    assert!(link.connected);
    assert_eq!(link.sid, 9);
    assert_eq!(link.session, Some(1));
    assert!(link.on_state(LinkEvent::Connecting));
    assert!(!link.connected);
    assert_eq!(link.session, None);
    assert_eq!(link.sid, 9);
    assert!(link.on_state(LinkEvent::Other));
    assert!(!link.on_state(LinkEvent::Failed));
}

#[test]
fn connector_gives_up_only_before_first_connection() {
    let mut c = Connector::new();
    assert_eq!(c.on_state(&LinkEvent::<u8>::Connecting), ConnectorStep::Attempt);
    assert_eq!(c.on_state(&LinkEvent::<u8>::Failed), ConnectorStep::Stop);
    assert_eq!(c.on_state(&LinkEvent::<u8>::Connected(1, 0)), ConnectorStep::Wait);
    assert_eq!(c.after_attempt(false), AttemptFollowUp::PublishErrorAndStop);
    let mut c = Connector::new();
    assert_eq!(c.after_attempt(true), AttemptFollowUp::PublishConnected);
    assert_eq!(c.after_attempt(false), AttemptFollowUp::RetryLater);
    assert_eq!(c.after_attempt(false), AttemptFollowUp::RetryLater);
}

#[test]
fn rotation_restores_batch_order() {
    let workers = 3;
    let mut d = Dispatcher::new(workers);
    let mut queues: Vec<std::collections::VecDeque<u64>> = vec![Default::default(); workers];
    for _ in 0..10 {
        let (seq, k) = d.dispatch();
        queues[k].push_back(seq);
    }
    let mut r = Reassembler::new(workers);
    for expected in 0..10u64 {
        let k = r.queue();
        assert_eq!(queues[k].pop_front(), Some(expected));
        r.advance();
    }
}

#[test]
fn datagram_sizes() {
    assert!(!datagram_size_ok(0, 10));
    assert!(datagram_size_ok(1, 10));
    assert!(datagram_size_ok(9, 10));
    assert!(!datagram_size_ok(10, 10));
}

#[test]
fn shift_packet_moves_to_offset() {
    let mut buf = vec![9u8, 9, 0, 1, 5, 6, 7, 8];
    shift_packet(&mut buf, 4, 3, 1);
    assert_eq!(buf, vec![9u8, 5, 6, 7]);
}

#[test]
fn reusable_slot_is_first_unreferenced() {
    assert_eq!(reusable_slot(&[2, 3, 1, 1]), Some(2));
    assert_eq!(reusable_slot(&[2, 3]), None);
    assert_eq!(reusable_slot(&[]), None);
}

#[test]
fn lease_request_is_answered_with_the_session_address() {
    let (mut client, mut sessions, sid, ip) = connected();
    let mut out = vec![0u8; 65600];
    let n = encode_lease_request(&mut client, sid, &mut out).unwrap();
    let mut plain = vec![0u8; 65536];
    let r = receive_from_client(&mut sessions, &out, n, addr(4100), 2, true, &mut plain);
    assert!(matches!(r, ClientDatagram::LeaseRequest(x) if x == sid));
    assert_eq!(sessions.get_by_sid(sid).unwrap().sock_addr(), addr(4100));

    let m = encode_lease_reply(&mut sessions, sid, &mut out).unwrap();
    let mut cplain = vec![0u8; 65536];
    match receive_from_server(&mut client, &out, m, &mut cplain) {
        ReceiveOutcome::LeaseGrant(got) => assert_eq!(got, ip),
        _ => panic!("expected a lease grant"),
    }
}

#[test]
fn lease_reply_assigns_and_is_idempotent() {
    let (_client, sessions, sid, ip) = connected();
    let first = match lease_reply(&sessions, sid) {
        DataServerBody::LeaseGrant(ip) => ip,
        _ => panic!("expected lease grant"),
    };
    assert!(sessions.is_holy_ip_allocated(&first));
    assert_eq!(first, ip);
    match lease_reply(&sessions, sid) {
        DataServerBody::LeaseGrant(ip2) => assert_eq!(ip2, first),
        _ => panic!("expected lease grant"),
    }
    match lease_reply(&sessions, sid + 1) {
        DataServerBody::Disconnect(c) => assert_eq!(c, LEASE_UNAVAILABLE),
        _ => panic!("expected a refusal"),
    }
}

#[test]
fn sealed_packet_opens_to_the_same_payload() {
    let (mut client, mut sessions, sid, _) = connected();
    let payload = vec![0xDEu8; 512];
    let mut out = vec![0u8; 65600];
    let n = match encode_outgoing(&mut client, sid, &payload, &mut out) {
        SendOutcome::Send(n) => n,
        _ => panic!("expected send"),
    };
    assert_eq!(n, 13 + 1 + 3 + 512 + 16);
    let mut plain = vec![0u8; 65536];
    match receive_from_client(&mut sessions, &out, n, addr(4000), 2, true, &mut plain) {
        ClientDatagram::Forward(x, start, len) => {
            assert_eq!(x, sid);
            assert_eq!(&plain[start..start + len], &payload[..]);
        }
        _ => panic!("expected forward"),
    }
}
