use holynet_sdk::crypto::{
    encode_data_client_frame, encode_data_client_packet, encode_data_server_frame,
    encode_data_server_packet, ip_packet_plain_len, noise_decrypt_data_client_into,
    noise_decrypt_data_server_into, noise_encrypt, usize_varint_len, write_data_client_header,
    write_data_server_header, write_ip_packet_plain, CryptoError, DataClientActionRef,
    DataServerActionRef, DATA_CLIENT_HDR_LEN, DATA_SERVER_HDR_LEN, TYPE_DATA_CLIENT,
    TYPE_DATA_SERVER,
};
use holynet_sdk::packet::{parse_data_frame, DataClientBody, DataFrameRef, DataServerBody};
use snow::StatelessTransportState;

fn make_noise_pair_for_test() -> (StatelessTransportState, StatelessTransportState) {
    let params: snow::params::NoiseParams =
        "Noise_IKpsk2_25519_ChaChaPoly_BLAKE2s".parse().unwrap();
    let server = snow::Builder::new(params.clone()).generate_keypair().unwrap();
    let client = snow::Builder::new(params.clone()).generate_keypair().unwrap();
    let psk = [0u8; 32];

    let mut init = snow::Builder::new(params.clone())
        .local_private_key(&client.private)
        .unwrap()
        .remote_public_key(&server.public)
        .unwrap()
        .psk(2, &psk)
        .unwrap()
        .build_initiator()
        .unwrap();
    let mut resp = snow::Builder::new(params)
        .local_private_key(&server.private)
        .unwrap()
        .remote_public_key(&client.public)
        .unwrap()
        .psk(2, &psk)
        .unwrap()
        .build_responder()
        .unwrap();

    let mut buf = vec![0u8; 65536];
    let mut scratch = vec![0u8; 65536];
    let n = init.write_message(&[], &mut buf).unwrap();
    resp.read_message(&buf[..n], &mut scratch).unwrap();
    let n = resp.write_message(&[], &mut buf).unwrap();
    init.read_message(&buf[..n], &mut scratch).unwrap();

    (
        init.into_stateless_transport_mode().unwrap(),
        resp.into_stateless_transport_mode().unwrap(),
    )
}

/// Opens a sealed client body, as the server does.
fn decrypt_client_body(
    enc: &[u8],
    state: &StatelessTransportState,
    nonce: u64,
) -> Result<DataClientBody, CryptoError> {
    let mut plain = vec![0u8; 65536];
    match noise_decrypt_data_client_into(enc, state, &mut plain, nonce)? {
        DataClientActionRef::Forward(data) => Ok(DataClientBody::Packet(data.to_vec())),
        DataClientActionRef::KeepAlive(ts) => Ok(DataClientBody::KeepAlive(ts)),
        DataClientActionRef::LeaseRequest => Ok(DataClientBody::LeaseRequest),
    }
}

/// Opens a sealed server body, as the client does.
fn decrypt_server_body(
    enc: &[u8],
    state: &StatelessTransportState,
    nonce: u64,
) -> Result<DataServerBody, CryptoError> {
    let mut plain = vec![0u8; 65536];
    match noise_decrypt_data_server_into(enc, state, &mut plain, nonce)? {
        DataServerActionRef::Forward(data) => Ok(DataServerBody::Packet(data.to_vec())),
        DataServerActionRef::KeepAlive(ts) => Ok(DataServerBody::KeepAlive(ts)),
        DataServerActionRef::Disconnect(c) => Ok(DataServerBody::Disconnect(c)),
        DataServerActionRef::LeaseGrant(ip) => Ok(DataServerBody::LeaseGrant(ip)),
    }
}

#[test]
fn test_roundtrip_data_packet() {
    let (tx, rx) = make_noise_pair_for_test();
    let body = DataClientBody::Packet(vec![1, 2, 3, 4, 5]);
    let enc = noise_encrypt(&body, &tx, 0).unwrap();
    let dec = decrypt_client_body(&enc, &rx, 0).unwrap();
    match dec {
        DataClientBody::Packet(data) => assert_eq!(&data[..], [1, 2, 3, 4, 5]),
        _ => panic!("unexpected variant"),
    }
}

#[test]
fn test_roundtrip_keepalive() {
    let (tx, rx) = make_noise_pair_for_test();
    let body = DataServerBody::KeepAlive(0xDEAD_CAFE_1234_5678u128);
    let enc = noise_encrypt(&body, &tx, 0).unwrap();
    let dec = decrypt_server_body(&enc, &rx, 0).unwrap();
    match dec {
        DataServerBody::KeepAlive(ts) => assert_eq!(ts, 0xDEAD_CAFE_1234_5678u128),
        _ => panic!("unexpected variant"),
    }
}

#[test]
fn test_roundtrip_empty_payload() {
    let (tx, rx) = make_noise_pair_for_test();
    let body = DataClientBody::Packet(Vec::new());
    let enc = noise_encrypt(&body, &tx, 0).unwrap();
    let dec = decrypt_client_body(&enc, &rx, 0).unwrap();
    match dec {
        DataClientBody::Packet(data) => assert!(data.is_empty()),
        _ => panic!("unexpected variant"),
    }
}

#[test]
fn test_decrypt_with_wrong_key_fails() {
    let (tx, _) = make_noise_pair_for_test();
    let (_, rx_wrong) = make_noise_pair_for_test(); // independent key pair
    let body = DataClientBody::KeepAlive(42);
    let enc = noise_encrypt(&body, &tx, 0).unwrap();
    assert!(decrypt_client_body(&enc, &rx_wrong, 0).is_err());
}

#[test]
fn test_different_nonces_roundtrip() {
    let (tx, rx) = make_noise_pair_for_test();
    for nonce in [0u64, 1, 42, u32::MAX as u64, u64::MAX / 2] {
        let body = DataClientBody::KeepAlive(nonce as u128);
        let enc = noise_encrypt(&body, &tx, nonce).unwrap();
        let dec = decrypt_client_body(&enc, &rx, nonce).unwrap();
        match dec {
            DataClientBody::KeepAlive(ts) => assert_eq!(ts, nonce as u128),
            _ => panic!("unexpected variant"),
        }
    }
}

#[test]
fn test_wrong_nonce_decrypt_fails() {
    let (tx, rx) = make_noise_pair_for_test();
    let body = DataClientBody::KeepAlive(99);
    let enc = noise_encrypt(&body, &tx, 5).unwrap();
    // Decrypting with a different nonce must fail (AEAD tag mismatch).
    assert!(decrypt_client_body(&enc, &rx, 6).is_err());
}

#[test]
fn test_encode_data_server_packet_roundtrip() {
    let (tx, rx) = make_noise_pair_for_test();
    let payload = vec![0xABu8; 1400];
    let mut out = vec![0u8; 65600];
    let nonce = 7u64;

    let n = encode_data_server_packet(&payload, &tx, nonce, &mut out).unwrap();
    let frame = &out[..n];

    match parse_data_frame(frame).unwrap() {
        DataFrameRef::DataServer {
            nonce: pkt_nonce,
            ciphertext,
        } => {
            assert_eq!(pkt_nonce, nonce);
            let mut plain = [0u8; 65536];
            match noise_decrypt_data_server_into(ciphertext, &rx, &mut plain, nonce).unwrap() {
                DataServerActionRef::Forward(data) => assert_eq!(data, &payload[..]),
                _ => panic!("expected Forward"),
            }
        }
        _ => panic!("expected DataServer"),
    }
}

#[test]
fn test_encode_data_client_packet_roundtrip() {
    let (tx, rx) = make_noise_pair_for_test();
    let payload = vec![0xDEu8; 512];
    let sid: u32 = 0xDEAD_BEEF;
    let mut out = vec![0u8; 65600];
    let nonce = 42u64;

    let n = encode_data_client_packet(&payload, sid, &tx, nonce, &mut out).unwrap();
    let frame = &out[..n];

    match parse_data_frame(frame).unwrap() {
        DataFrameRef::DataClient {
            sid: pkt_sid,
            nonce: pkt_nonce,
            ciphertext,
        } => {
            assert_eq!(pkt_sid, sid);
            assert_eq!(pkt_nonce, nonce);
            let mut plain = [0u8; 65536];
            match noise_decrypt_data_client_into(ciphertext, &rx, &mut plain, nonce).unwrap() {
                DataClientActionRef::Forward(data) => assert_eq!(data, &payload[..]),
                _ => panic!("expected Forward"),
            }
        }
        _ => panic!("expected DataClient"),
    }
}

#[test]
fn test_data_server_fixed_header() {
    let (tx, _rx) = make_noise_pair_for_test();
    let payload = vec![0x55u8; 64];
    let nonce = 0x0102_0304_0506_0708u64;

    let mut out = vec![0u8; 65600];
    let n = encode_data_server_packet(&payload, &tx, nonce, &mut out).unwrap();
    assert_eq!(out[0], TYPE_DATA_SERVER);
    assert_eq!(&out[1..9], &nonce.to_be_bytes());
    // Ciphertext runs from the fixed header to the end — no length field.
    assert_eq!(
        n - DATA_SERVER_HDR_LEN,
        ip_packet_plain_len(payload.len()) + 16
    );
}

#[test]
fn test_data_client_fixed_header() {
    let (tx, _rx) = make_noise_pair_for_test();
    let payload = vec![0xAAu8; 128];
    let sid: u32 = 0xDEAD_BEEF;
    let nonce = 0x1122_3344_5566_7788u64;

    let mut out = vec![0u8; 65600];
    let n = encode_data_client_packet(&payload, sid, &tx, nonce, &mut out).unwrap();
    assert_eq!(out[0], TYPE_DATA_CLIENT);
    assert_eq!(&out[1..5], &sid.to_be_bytes());
    assert_eq!(&out[5..13], &nonce.to_be_bytes());
    assert_eq!(
        n - DATA_CLIENT_HDR_LEN,
        ip_packet_plain_len(payload.len()) + 16
    );
}

#[test]
fn test_pool_grows_under_concurrent_in_flight() {
    let (tx, rx) = make_noise_pair_for_test();

    let enc1 = noise_encrypt(&DataClientBody::Packet(vec![1u8; 64]), &tx, 0).unwrap();
    let enc2 = noise_encrypt(&DataClientBody::Packet(vec![2u8; 64]), &tx, 1).unwrap();
    let enc3 = noise_encrypt(&DataClientBody::Packet(vec![3u8; 64]), &tx, 2).unwrap();

    let dec = |enc: &[u8], expected: u8, nonce: u64| {
        let body = decrypt_client_body(enc, &rx, nonce).unwrap();
        match body {
            DataClientBody::Packet(d) => assert_eq!(&d[..], vec![expected; 64]),
            _ => panic!("unexpected variant"),
        }
    };
    dec(&enc1, 1, 0);
    dec(&enc2, 2, 1);
    dec(&enc3, 3, 2);
}

#[test]
fn test_pool_reuse_after_drop() {
    let (tx, rx) = make_noise_pair_for_test();
    for (nonce, byte) in (0u8..=16).enumerate() {
        let body = DataClientBody::Packet(vec![byte; 128]);
        let enc = noise_encrypt(&body, &tx, nonce as u64).unwrap();
        let dec = decrypt_client_body(&enc, &rx, nonce as u64).unwrap();
        match dec {
            DataClientBody::Packet(data) => assert_eq!(&data[..], vec![byte; 128]),
            _ => panic!("unexpected variant"),
        }
    }
}

// Further cases of the codec and of the sealing helpers.

#[test]
fn usize_varint_len_boundaries() {
    assert_eq!(usize_varint_len(0), 1);
    assert_eq!(usize_varint_len(250), 1);
    assert_eq!(usize_varint_len(251), 3);
    assert_eq!(usize_varint_len(65535), 3);
    assert_eq!(usize_varint_len(65536), 5);
    assert_eq!(usize_varint_len(4294967295), 5);
    assert_eq!(usize_varint_len(4294967296), 9);
}

#[test]
fn ip_packet_plain_layout() {
    let payload = vec![7u8; 300];
    let mut buf = vec![0xFFu8; 400];
    let n = write_ip_packet_plain(&mut buf, &payload);
    assert_eq!(n, ip_packet_plain_len(300));
    assert_eq!(n, 1 + 3 + 300);
    // variant 0, then 251 + u16 LE length, then the bytes.
    assert_eq!(&buf[..4], &[0, 251, 0x2C, 0x01]);
    assert_eq!(&buf[4..304], &payload[..]);
    assert_eq!(buf[304], 0xFF);
}

#[test]
fn headers_are_written_in_network_order() {
    let mut buf = [0u8; 16];
    assert_eq!(write_data_server_header(&mut buf, 0x0102_0304_0506_0708), 9);
    assert_eq!(&buf[..9], &[3, 1, 2, 3, 4, 5, 6, 7, 8]);
    let mut buf = [0u8; 16];
    assert_eq!(
        write_data_client_header(&mut buf, 0xA0B0_C0D0, 0x0000_0000_0000_0102),
        13
    );
    assert_eq!(
        &buf[..13],
        &[2, 0xA0, 0xB0, 0xC0, 0xD0, 0, 0, 0, 0, 0, 0, 1, 2]
    );
}

#[test]
fn keepalive_frames_round_trip() {
    let (tx, rx) = make_noise_pair_for_test();
    let enc = noise_encrypt(&DataServerBody::KeepAlive(77), &tx, 3).unwrap();
    let mut out = vec![0u8; 128];
    let n = encode_data_server_frame(3, &enc, &mut out);
    assert_eq!(n, DATA_SERVER_HDR_LEN + enc.len());
    match parse_data_frame(&out[..n]).unwrap() {
        DataFrameRef::DataServer { nonce, ciphertext } => {
            assert_eq!(nonce, 3);
            match decrypt_server_body(ciphertext, &rx, nonce).unwrap() {
                DataServerBody::KeepAlive(ts) => assert_eq!(ts, 77),
                _ => panic!("expected keepalive"),
            }
        }
        _ => panic!("expected DataServer"),
    }
    let enc = noise_encrypt(&DataClientBody::KeepAlive(5), &tx, 4).unwrap();
    let n = encode_data_client_frame(9, 4, &enc, &mut out);
    assert_eq!(n, DATA_CLIENT_HDR_LEN + enc.len());
    assert_eq!(out[0], TYPE_DATA_CLIENT);
}

#[test]
fn disconnect_body_round_trip() {
    let (tx, rx) = make_noise_pair_for_test();
    let enc = noise_encrypt(&DataServerBody::Disconnect(7), &tx, 11).unwrap();
    // Variant 2 and one code byte, then the tag.
    assert_eq!(enc.len(), 2 + 16);
    match decrypt_server_body(&enc, &rx, 11).unwrap() {
        DataServerBody::Disconnect(c) => assert_eq!(c, 7),
        _ => panic!("expected disconnect"),
    }
}

#[test]
fn oversized_packet_is_refused_before_sealing() {
    let (tx, _rx) = make_noise_pair_for_test();
    let payload = vec![0u8; 65536];
    let mut out = vec![0xEEu8; 70000];
    match encode_data_server_packet(&payload, &tx, 1, &mut out) {
        Err(CryptoError::PacketTooLarge) => {}
        _ => panic!("expected PacketTooLarge"),
    }
    // Nothing was written.
    assert!(out.iter().all(|&b| b == 0xEE));
    match noise_encrypt(&DataClientBody::Packet(vec![0u8; 65536]), &tx, 1) {
        Err(CryptoError::PacketTooLarge) => {}
        _ => panic!("expected PacketTooLarge"),
    }
}

#[test]
fn plain_frame_over_noise_limit_is_refused_by_noise() {
    let (tx, _rx) = make_noise_pair_for_test();
    // 65520 bytes of payload: plain frame 65524 <= 65536, but with the tag
    // (65540 bytes) the message exceeds the 65535-byte Noise limit.
    let payload = vec![0u8; 65520];
    let mut out = vec![0u8; 70000];
    match encode_data_client_packet(&payload, 1, &tx, 1, &mut out) {
        Err(CryptoError::Noise(_)) => {}
        _ => panic!("expected a Noise error"),
    }
}

#[test]
fn max_nonce_is_refused() {
    let (tx, _rx) = make_noise_pair_for_test();
    assert!(matches!(
        noise_encrypt(&DataClientBody::KeepAlive(1), &tx, u64::MAX),
        Err(CryptoError::Noise(_))
    ));
}

#[test]
fn malformed_body_is_reported() {
    let (tx, rx) = make_noise_pair_for_test();
    // A lease grant is valid from the server, not from a client.
    let enc = noise_encrypt(&DataServerBody::LeaseGrant(holynet_sdk::net::IpAddress::V4(7)), &tx, 0).unwrap();
    assert!(matches!(
        decrypt_client_body(&enc, &rx, 0),
        Err(CryptoError::MalformedBody)
    ));
}

#[test]
fn lease_grant_bodies_roundtrip() {
    use_lease_grant(holynet_sdk::net::IpAddress::V4(0x0a08_0002));
    use_lease_grant(holynet_sdk::net::IpAddress::V6(0x2001_0db8_0000_0000_0000_0000_0000_0042));
}

fn use_lease_grant(ip: holynet_sdk::net::IpAddress) {
    let (tx, rx) = make_noise_pair_for_test();
    let enc = noise_encrypt(&DataServerBody::LeaseGrant(ip), &rx, 5).unwrap();
    let mut plain = vec![0u8; 65536];
    match noise_decrypt_data_server_into(&enc, &tx, &mut plain, 5).unwrap() {
        DataServerActionRef::LeaseGrant(got) => assert_eq!(got, ip),
        _ => panic!("expected a lease grant"),
    }
}
