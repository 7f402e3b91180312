use std::time::Duration;

use holynet_sdk::client_builder::{Alg, BuildError, ClientBuilder};
use holynet_sdk::cred::Cred;
use holynet_sdk::keys::{PublicKey, SecretKey};

fn cred() -> Cred {
    Cred {
        sk: SecretKey::from_bytes([1u8; 32]),
        psk: SecretKey::from_bytes([2u8; 32]),
        spk: PublicKey::from_bytes([3u8; 32]),
        enrollment: vec![4, 5, 6],
    }
}

#[test]
fn builder_defaults() {
    let c = ClientBuilder::new("transport", "network").cred(cred()).build().unwrap();
    assert_eq!(*c.transport, "transport");
    assert_eq!(*c.network, "network");
    assert_eq!(c.alg, Alg::ChaCha20Poly1305);
    assert_eq!(c.keepalive, Some(Duration::from_secs(15)));
    assert_eq!(c.handshake_timeout, Duration::from_secs(5));
    assert_eq!(c.reconnect_delay, Duration::from_secs(3));
    assert_eq!(c.encrypt_workers, 0);
    assert_eq!(c.decrypt_workers, 0);
    assert_eq!(c.cred.enrollment, vec![4, 5, 6]);
}

#[test]
fn builder_setters() {
    let c = ClientBuilder::new(1u8, 2u8)
        .alg(Alg::Aes256Gcm)
        .keepalive(None)
        .handshake_timeout(Duration::from_millis(250))
        .reconnect_delay(Duration::from_secs(9))
        .encrypt_workers(4)
        .decrypt_workers(2)
        .cred(cred())
        .build()
        .unwrap();
    assert_eq!(c.alg, Alg::Aes256Gcm);
    assert_eq!(c.keepalive, None);
    assert_eq!(c.handshake_timeout, Duration::from_millis(250));
    assert_eq!(c.reconnect_delay, Duration::from_secs(9));
    assert_eq!(c.encrypt_workers, 4);
    assert_eq!(c.decrypt_workers, 2);
}

#[test]
fn builder_requires_cred() {
    match ClientBuilder::new((), ()).alg(Alg::Aes256Gcm).build() {
        Err(e) => assert_eq!(e, BuildError::MissingRequiredField("cred")),
        Ok(_) => panic!("a builder without credential must fail"),
    }
}

#[test]
fn key_slices_must_be_32_bytes() {
    assert!(PublicKey::try_from_slice(&[0u8; 31]).is_none());
    assert!(PublicKey::try_from_slice(&[0u8; 33]).is_none());
    let k = PublicKey::try_from_slice(&[9u8; 32]).unwrap();
    assert_eq!(k, PublicKey::from_bytes([9u8; 32]));
}
