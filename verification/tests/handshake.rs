use holynet_sdk::client_builder::Alg;
use holynet_sdk::cred::{Cred, ServerCredential};
use holynet_sdk::handshake::{
    alg_from_hint_byte, alg_hint_byte, decode_reply, encode_handshake_frame, encode_reply,
    handshake_complete, handshake_initial, handshake_result, parse_handshake_datagram,
    read_handshake_init, reply_for_slot, respond_handshake, HandshakeError, HandshakeFailure,
    HandshakeReply, TYPE_HANDSHAKE_INITIAL,
};
use holynet_sdk::keys::{PublicKey, SecretKey};
use holynet_sdk::net::{IpAddress, SocketAddress};
use holynet_sdk::sessions::Sessions;

struct Keys {
    server_sk: [u8; 32],
    server_pk: [u8; 32],
    client_sk: [u8; 32],
    client_pk: [u8; 32],
}

fn keys() -> Keys {
    let params: snow::params::NoiseParams =
        "Noise_IKpsk2_25519_ChaChaPoly_BLAKE2s".parse().unwrap();
    let s = snow::Builder::new(params.clone()).generate_keypair().unwrap();
    let c = snow::Builder::new(params).generate_keypair().unwrap();
    let arr = |v: &[u8]| -> [u8; 32] { v.try_into().unwrap() };
    Keys {
        server_sk: arr(&s.private),
        server_pk: arr(&s.public),
        client_sk: arr(&c.private),
        client_pk: arr(&c.public),
    }
}

fn addr() -> SocketAddress {
    SocketAddress { ip: IpAddress::V4(0x0a00_0001), port: 4000 }
}

fn cred(k: &Keys, psk: [u8; 32]) -> Cred {
    Cred {
        sk: SecretKey::from_bytes(k.client_sk),
        psk: SecretKey::from_bytes(psk),
        spk: PublicKey::from_bytes(k.server_pk),
        enrollment: b"enrollment".to_vec(),
    }
}

fn run(alg: Alg, client_psk: [u8; 32], server_psk: [u8; 32]) -> (Sessions, Result<u32, String>) {
    let k = keys();
    let c = cred(&k, client_psk);
    let (msg, st) = handshake_initial(alg, &c).unwrap();
    assert_eq!(msg[0], alg_hint_byte(alg));

    let (pk, got_alg, payload) =
        read_handshake_init(&msg, &SecretKey::from_bytes(k.server_sk)).unwrap();
    assert_eq!(pk.as_bytes(), k.client_pk);
    assert_eq!(got_alg, alg);
    assert_eq!(payload, b"enrollment".to_vec());

    let mut sessions = Sessions::new(&IpAddress::V4(0x0a08_0000), 24);
    let server_cred = ServerCredential {
        sk: SecretKey::from_bytes(k.server_sk),
        psk: SecretKey::from_bytes(server_psk),
        peer_pk: pk,
    };
    let reply = respond_handshake(&msg[1..], &server_cred, alg, addr(), 7, &mut sessions).unwrap();
    match handshake_complete(&reply, st) {
        Ok((body, _state)) => match handshake_result(body) {
            Ok(sid) => (sessions, Ok(sid)),
            Err(e) => (sessions, Err(format!("{:?}", e))),
        },
        Err(e) => (sessions, Err(format!("{:?}", e))),
    }
}

#[test]
fn handshake_sets_up_a_session() {
    for alg in [Alg::ChaCha20Poly1305, Alg::Aes256Gcm] {
        let (sessions, r) = run(alg, [3u8; 32], [3u8; 32]);
        let sid = r.unwrap();
        let s = sessions.get_by_sid(sid).unwrap();
        assert_eq!(s.id, sid);
        assert_eq!(s.last_seen, 7);
        assert_eq!(s.sock_addr(), addr());
        assert_eq!(sessions.len(), 1);
    }
}

#[test]
fn handshake_with_wrong_psk_fails_at_client() {
    let (_, r) = run(Alg::ChaCha20Poly1305, [3u8; 32], [4u8; 32]);
    assert!(r.is_err());
}

#[test]
fn first_message_errors() {
    let sk = SecretKey::from_bytes([1u8; 32]);
    assert!(matches!(read_handshake_init(&[], &sk), Err(HandshakeFailure::Empty)));
    assert!(matches!(read_handshake_init(&[7, 1, 2], &sk), Err(HandshakeFailure::UnknownAlg(7))));
    assert!(matches!(read_handshake_init(&[1, 1, 2], &sk), Err(HandshakeFailure::Noise(_))));
}

#[test]
fn alg_hint_bytes() {
    assert_eq!(alg_hint_byte(Alg::Aes256Gcm), 0);
    assert_eq!(alg_hint_byte(Alg::ChaCha20Poly1305), 1);
    assert_eq!(alg_from_hint_byte(1), Some(Alg::ChaCha20Poly1305));
    assert_eq!(alg_from_hint_byte(2), None);
}

#[test]
fn reply_bodies_roundtrip() {
    let replies = vec![
        HandshakeReply::Complete(5),
        HandshakeReply::Complete(70000),
        HandshakeReply::Disconnect(HandshakeError::MaxConnectedDevices(3)),
        HandshakeReply::Disconnect(HandshakeError::ServerOverloaded),
        HandshakeReply::Disconnect(HandshakeError::Unexpected(b"boom".to_vec())),
    ];
    for r in replies {
        let bytes = encode_reply(&r);
        assert_eq!(decode_reply(&bytes), Some(r));
    }
    assert_eq!(encode_reply(&HandshakeReply::Complete(5)), vec![0, 5]);
    assert_eq!(encode_reply(&HandshakeReply::Disconnect(HandshakeError::ServerOverloaded)), vec![1, 1]);
    assert_eq!(decode_reply(&[2]), None);
    assert_eq!(decode_reply(&[1, 2, 9, b'x']), None);
    assert_eq!(reply_for_slot(None), HandshakeReply::Disconnect(HandshakeError::ServerOverloaded));
    assert_eq!(reply_for_slot(Some(4)), HandshakeReply::Complete(4));
}

#[test]
fn handshake_frames_roundtrip() {
    let f = encode_handshake_frame(TYPE_HANDSHAKE_INITIAL, &[9, 8, 7]);
    assert_eq!(f, vec![0, 3, 9, 8, 7]);
    let (ty, msg) = parse_handshake_datagram(&f).unwrap();
    assert_eq!(ty, TYPE_HANDSHAKE_INITIAL);
    assert_eq!(msg, &[9, 8, 7]);
    assert!(parse_handshake_datagram(&[2, 1, 0]).is_none());
    assert!(parse_handshake_datagram(&[1, 5, 0]).is_none());
}
