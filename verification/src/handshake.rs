//! The Noise IKpsk2 handshake that sets up a session.
//!
//! The client sends one byte naming the AEAD followed by the first Noise
//! message, whose payload is its encoded device enrollment. The node reads
//! that message with its static key alone (IKpsk2 mixes the psk in only
//! after the first message), recovers the device key and the enrollment, and
//! once the device is authorized reads it again knowing the psk and answers
//! with a second message carrying the handshake reply body: the session id,
//! or why it refused.

use vstd::prelude::*;

use snow::{HandshakeState, StatelessTransportState};

use crate::client_builder::Alg;
use crate::codec::{lemma_varint_roundtrip, parse_varint, read_varint_at, varint_bytes, write_varint_at};
use crate::cred::{Cred, ServerCredential};
use crate::keys::PublicKey;
use crate::net::SocketAddress;
use crate::session::SessionId;
use crate::ip_pool::{next_step, pool_addr, pool_offset, scan_free, scan_offset, PoolView};
use crate::sessions::{id_addr, ip_key, sessions_wf, Sessions, SessionsView};

verus! {

#[verifier::external_type_specification]
#[verifier::external_body]
pub struct ExHandshakeState(HandshakeState);

/// The longest Noise message.
pub const MAX_HANDSHAKE_MSG_LEN: usize = 65535;

/// Size of the scratch buffers a handshake message is written into or read out of.
pub const HANDSHAKE_BUF_LEN: usize = 65536;

/// Position of the pre-shared key in the IKpsk2 pattern.
pub const PSK_LOCATION: u8 = 2;

/// The algorithm-hint byte that leads a first handshake message.
pub open spec fn alg_hint(alg: Alg) -> u8 {
    match alg {
        Alg::Aes256Gcm => 0,
        Alg::ChaCha20Poly1305 => 1,
    }
}

/// The hint byte for `alg`.
pub fn alg_hint_byte(alg: Alg) -> (b: u8)
    ensures
        b == alg_hint(alg),
{
    match alg {
        Alg::Aes256Gcm => 0,
        Alg::ChaCha20Poly1305 => 1,
    }
}

/// The algorithm a hint byte names, if any.
pub fn alg_from_hint_byte(b: u8) -> (r: Option<Alg>)
    ensures
        r matches Some(a) ==> alg_hint(a) == b,
        r is None ==> forall|a: Alg| alg_hint(a) != b,
{
    if b == 0 {
        Some(Alg::Aes256Gcm)
    } else if b == 1 {
        Some(Alg::ChaCha20Poly1305)
    } else {
        None
    }
}

/// Reading back a hint byte gives the algorithm it was made from.
pub proof fn lemma_alg_hint_roundtrip(a: Alg, b: Alg)
    ensures
        alg_hint(a) == alg_hint(b) ==> a == b,
{
}

/// The name snow gives the AEAD of `alg` in a Noise protocol name.
pub open spec fn noise_cipher_name(alg: Alg) -> Seq<char> {
    match alg {
        Alg::Aes256Gcm => "AESGCM"@,
        Alg::ChaCha20Poly1305 => "ChaChaPoly"@,
    }
}

/// The Noise protocol name for `alg`: pattern IKpsk2, DH 25519, the cipher
/// of `alg`, hash BLAKE2s.
pub fn noise_params_name(alg: Alg) -> (name: &'static str)
    ensures
        name@ == "Noise_IKpsk2_25519_"@ + noise_cipher_name(alg) + "_BLAKE2s"@,
{
    proof {
        reveal_strlit("Noise_IKpsk2_25519_");
        reveal_strlit("_BLAKE2s");
        reveal_strlit("AESGCM");
        reveal_strlit("ChaChaPoly");
    }
    match alg {
        Alg::Aes256Gcm => {
            proof {
                reveal_strlit("Noise_IKpsk2_25519_AESGCM_BLAKE2s");
                assert("Noise_IKpsk2_25519_AESGCM_BLAKE2s"@ =~= "Noise_IKpsk2_25519_"@ + "AESGCM"@
                    + "_BLAKE2s"@);
            }
            "Noise_IKpsk2_25519_AESGCM_BLAKE2s"
        },
        Alg::ChaCha20Poly1305 => {
            proof {
                reveal_strlit("Noise_IKpsk2_25519_ChaChaPoly_BLAKE2s");
                assert("Noise_IKpsk2_25519_ChaChaPoly_BLAKE2s"@ =~= "Noise_IKpsk2_25519_"@
                    + "ChaChaPoly"@ + "_BLAKE2s"@);
            }
            "Noise_IKpsk2_25519_ChaChaPoly_BLAKE2s"
        },
    }
}

/// The two algorithms run different ciphers: their Noise protocol names differ.
pub proof fn lemma_cipher_names_distinct(a: Alg, b: Alg)
    ensures
        a != b ==> "Noise_IKpsk2_25519_"@ + noise_cipher_name(a) + "_BLAKE2s"@ != "Noise_IKpsk2_25519_"@
            + noise_cipher_name(b) + "_BLAKE2s"@,
{
    reveal_strlit("AESGCM");
    reveal_strlit("ChaChaPoly");
    if a != b {
        assert(noise_cipher_name(a).len() != noise_cipher_name(b).len());
        assert(("Noise_IKpsk2_25519_"@ + noise_cipher_name(a) + "_BLAKE2s"@).len() != (
        "Noise_IKpsk2_25519_"@ + noise_cipher_name(b) + "_BLAKE2s"@).len());
    }
}

/// `snow::Builder::new(name.parse()?)` with `local_private_key(sk)`,
/// `remote_public_key(peer)`, `psk(at, psk)` and `build_initiator()`.
/// Nothing is claimed of the result: it fails on an unknown protocol name or
/// a psk position outside the pattern.
#[verifier::external_body]
fn noise_initiator(name: &str, sk: &[u8; 32], peer: &[u8; 32], at: u8, psk: &[u8; 32]) -> (r: Result<
    HandshakeState,
    snow::Error,
>) {
    snow::Builder::new(name.parse()?).local_private_key(sk)?.remote_public_key(peer)?.psk(
        at,
        psk,
    )?.build_initiator()
}

/// `snow::Builder::new(name.parse()?)` with `local_private_key(sk)` and
/// `build_responder()`: a responder that knows neither the peer nor the psk.
/// Nothing is claimed of the result.
#[verifier::external_body]
fn noise_responder(name: &str, sk: &[u8; 32]) -> (r: Result<HandshakeState, snow::Error>) {
    snow::Builder::new(name.parse()?).local_private_key(sk)?.build_responder()
}

/// `snow::Builder::new(name.parse()?)` with `local_private_key(sk)`,
/// `remote_public_key(peer)`, `psk(at, psk)` and `build_responder()`.
/// Nothing is claimed of the result.
#[verifier::external_body]
fn noise_responder_psk(name: &str, sk: &[u8; 32], peer: &[u8; 32], at: u8, psk: &[u8; 32]) -> (r:
    Result<HandshakeState, snow::Error>) {
    snow::Builder::new(name.parse()?).local_private_key(sk)?.remote_public_key(peer)?.psk(
        at,
        psk,
    )?.build_responder()
}

/// `HandshakeState::write_message`.
///
/// Claimed of the snow call: `message` keeps its length, and on success the
/// returned length (keys, payload and tag written) fits in `message`. The
/// bytes written (which carry a fresh ephemeral key) are not stated. Snow
/// checks the buffer against the key length alone before sealing a static
/// key with its tag, so a buffer of fewer than 65535 bytes could make it
/// panic: the buffer must hold a whole Noise message.
#[verifier::external_body]
fn hs_write_message(st: &mut HandshakeState, payload: &[u8], message: &mut [u8]) -> (r: Result<
    usize,
    snow::Error,
>)
    requires
        old(message)@.len() >= MAX_HANDSHAKE_MSG_LEN,
    ensures
        final(message)@.len() == old(message)@.len(),
        r matches Ok(n) ==> n <= old(message)@.len(),
{
    st.write_message(payload, message)
}

/// `HandshakeState::read_message`.
///
/// Claimed of the snow call: a message longer than 65535 bytes is refused; on
/// success the payload length is at most the message length. `payload` keeps
/// its length. Whether the message authenticates, and the payload bytes, are
/// not stated.
#[verifier::external_body]
fn hs_read_message(st: &mut HandshakeState, message: &[u8], payload: &mut [u8]) -> (r: Result<
    usize,
    snow::Error,
>)
    requires
        old(payload)@.len() >= message@.len(),
    ensures
        final(payload)@.len() == old(payload)@.len(),
        message@.len() > MAX_HANDSHAKE_MSG_LEN ==> r is Err,
        r matches Ok(n) ==> n <= message@.len(),
{
    st.read_message(message, payload)
}

/// `HandshakeState::get_remote_static`, copied out. Nothing is claimed of it.
#[verifier::external_body]
fn hs_remote_static(st: &HandshakeState) -> (r: Option<Vec<u8>>) {
    match st.get_remote_static() {
        Some(key) => Some(key.to_vec()),
        None => None,
    }
}

/// `HandshakeState::into_stateless_transport_mode`. Nothing is claimed of it.
#[verifier::external_body]
fn hs_into_transport(st: HandshakeState) -> (r: Result<StatelessTransportState, snow::Error>) {
    st.into_stateless_transport_mode()
}

/// Why a handshake step failed.
#[derive(Debug)]
pub enum HandshakeFailure {
    /// The first message is empty.
    Empty,
    /// A Noise message is longer than `MAX_HANDSHAKE_MSG_LEN`.
    TooLong,
    /// The first message names no known algorithm.
    UnknownAlg(u8),
    /// Noise refused a message or a state change.
    Noise(snow::Error),
    /// The first message did not reveal a static key.
    MissingRemoteStatic,
    /// The revealed static key is not 32 bytes.
    BadRemoteStatic,
    /// The reply body does not decode.
    MalformedReply,
}

/// Why a node refused a handshake.
#[derive(Debug, PartialEq, Eq)]
pub enum HandshakeError {
    /// The account has this many devices connected already.
    MaxConnectedDevices(u32),
    /// No session slot is free.
    ServerOverloaded,
    /// Any other failure, with its message bytes.
    Unexpected(Vec<u8>),
}

/// What a node answers a handshake with.
#[derive(Debug, PartialEq, Eq)]
pub enum HandshakeReply {
    /// The session is up under this id.
    Complete(SessionId),
    /// The handshake is refused.
    Disconnect(HandshakeError),
}

/// A reply as a value.
pub enum ReplyView {
    Complete(int),
    MaxConnectedDevices(int),
    ServerOverloaded,
    Unexpected(Seq<u8>),
}

impl HandshakeReply {
    pub open spec fn reply_view(&self) -> ReplyView {
        match self {
            HandshakeReply::Complete(sid) => ReplyView::Complete(*sid as int),
            HandshakeReply::Disconnect(HandshakeError::MaxConnectedDevices(m)) => ReplyView::MaxConnectedDevices(
                *m as int,
            ),
            HandshakeReply::Disconnect(HandshakeError::ServerOverloaded) => ReplyView::ServerOverloaded,
            HandshakeReply::Disconnect(HandshakeError::Unexpected(msg)) => ReplyView::Unexpected(msg@),
        }
    }
}

/// The encoding of a reply body: variant numbers and integers as varints, a
/// message as its varint length and its bytes.
pub open spec fn reply_bytes(r: ReplyView) -> Seq<u8> {
    match r {
        ReplyView::Complete(sid) => varint_bytes(0) + varint_bytes(sid),
        ReplyView::MaxConnectedDevices(m) => varint_bytes(1) + (varint_bytes(0) + varint_bytes(m)),
        ReplyView::ServerOverloaded => varint_bytes(1) + varint_bytes(1),
        ReplyView::Unexpected(msg) => varint_bytes(1) + (varint_bytes(2) + (varint_bytes(msg.len() as int)
            + msg)),
    }
}

/// Decodes a reply body from the start of `s`; trailing bytes are ignored.
pub open spec fn parse_reply(s: Seq<u8>) -> Option<ReplyView> {
    match parse_varint(s) {
        None => None,
        Some((t, k)) => {
            let rest = s.skip(k as int);
            if t == 0 {
                match parse_varint(rest) {
                    Some((sid, _)) => if sid <= u32::MAX {
                        Some(ReplyView::Complete(sid))
                    } else {
                        None
                    },
                    None => None,
                }
            } else if t == 1 {
                match parse_varint(rest) {
                    None => None,
                    Some((e, k2)) => {
                        let r2 = rest.skip(k2 as int);
                        if e == 0 {
                            match parse_varint(r2) {
                                Some((m, _)) => if m <= u32::MAX {
                                    Some(ReplyView::MaxConnectedDevices(m))
                                } else {
                                    None
                                },
                                None => None,
                            }
                        } else if e == 1 {
                            Some(ReplyView::ServerOverloaded)
                        } else if e == 2 {
                            match parse_varint(r2) {
                                Some((len, k3)) => if k3 + len <= r2.len() {
                                    Some(ReplyView::Unexpected(r2.subrange(k3 as int, k3 + len)))
                                } else {
                                    None
                                },
                                None => None,
                            }
                        } else {
                            None
                        }
                    },
                }
            } else {
                None
            }
        },
    }
}

/// Appends the varint encoding of `v` to `out`.
fn push_varint(out: &mut Vec<u8>, v: u128)
    ensures
        final(out)@ == old(out)@ + varint_bytes(v as int),
{
    proof {
        lemma_varint_roundtrip(v as int, Seq::empty());
    }
    let mut tmp = [0u8; 17];
    let k = write_varint_at(&mut tmp, 0, v);
    let ghost start = out@;
    let mut i: usize = 0;
    while i < k
        invariant
            k == varint_bytes(v as int).len(),
            k <= 17,
            tmp@.len() == 17,
            tmp@.subrange(0, k as int) == varint_bytes(v as int),
            i <= k,
            out@ == start + tmp@.subrange(0, i as int),
        decreases k - i,
    {
        out.push(tmp[i]);
        i = i + 1;
        proof {
            assert(tmp@.subrange(0, i as int) =~= tmp@.subrange(0, i - 1).push(tmp@[i - 1]));
        }
    }
}

/// Encodes a reply body.
pub fn encode_reply(r: &HandshakeReply) -> (out: Vec<u8>)
    ensures
        out@ == reply_bytes(r.reply_view()),
{
    let mut out: Vec<u8> = Vec::new();
    match r {
        HandshakeReply::Complete(sid) => {
            push_varint(&mut out, 0);
            push_varint(&mut out, *sid as u128);
        },
        HandshakeReply::Disconnect(HandshakeError::MaxConnectedDevices(m)) => {
            push_varint(&mut out, 1);
            push_varint(&mut out, 0);
            push_varint(&mut out, *m as u128);
        },
        HandshakeReply::Disconnect(HandshakeError::ServerOverloaded) => {
            push_varint(&mut out, 1);
            push_varint(&mut out, 1);
        },
        HandshakeReply::Disconnect(HandshakeError::Unexpected(msg)) => {
            push_varint(&mut out, 1);
            push_varint(&mut out, 2);
            push_varint(&mut out, msg.len() as u128);
            out.extend_from_slice(msg.as_slice());
        },
    }
    proof {
        assert(out@ =~= reply_bytes(r.reply_view()));
    }
    out
}

/// Decoding an encoded reply body, followed by anything, gives it back.
pub proof fn lemma_reply_roundtrip(r: ReplyView, rest: Seq<u8>)
    requires
        r matches ReplyView::Complete(sid) ==> 0 <= sid <= u32::MAX,
        r matches ReplyView::MaxConnectedDevices(m) ==> 0 <= m <= u32::MAX,
        r matches ReplyView::Unexpected(msg) ==> msg.len() <= u64::MAX,
    ensures
        parse_reply(reply_bytes(r) + rest) == Some(r),
{
    let s = reply_bytes(r) + rest;
    match r {
        ReplyView::Complete(sid) => {
            lemma_varint_roundtrip(0, varint_bytes(sid) + rest);
            lemma_varint_roundtrip(sid, rest);
            assert(s =~= varint_bytes(0) + (varint_bytes(sid) + rest));
            assert(s.skip(varint_bytes(0).len() as int) =~= varint_bytes(sid) + rest);
        },
        ReplyView::MaxConnectedDevices(m) => {
            let t = varint_bytes(0) + varint_bytes(m) + rest;
            lemma_varint_roundtrip(1, t);
            lemma_varint_roundtrip(0, varint_bytes(m) + rest);
            lemma_varint_roundtrip(m, rest);
            assert(s =~= varint_bytes(1) + t);
            assert(s.skip(varint_bytes(1).len() as int) =~= t);
            assert(t =~= varint_bytes(0) + (varint_bytes(m) + rest));
            assert(t.skip(varint_bytes(0).len() as int) =~= varint_bytes(m) + rest);
        },
        ReplyView::ServerOverloaded => {
            lemma_varint_roundtrip(1, varint_bytes(1) + rest);
            lemma_varint_roundtrip(1, rest);
            assert(s =~= varint_bytes(1) + (varint_bytes(1) + rest));
            assert(s.skip(varint_bytes(1).len() as int) =~= varint_bytes(1) + rest);
        },
        ReplyView::Unexpected(msg) => {
            let l = msg.len() as int;
            let u = varint_bytes(l) + msg + rest;
            let t = varint_bytes(2) + u;
            lemma_varint_roundtrip(1, t);
            lemma_varint_roundtrip(2, u);
            lemma_varint_roundtrip(l, msg + rest);
            assert(s =~= varint_bytes(1) + t);
            assert(s.skip(varint_bytes(1).len() as int) =~= t);
            assert(t.skip(varint_bytes(2).len() as int) =~= u);
            assert(u =~= varint_bytes(l) + (msg + rest));
            let k3 = varint_bytes(l).len() as int;
            assert(u.subrange(k3, k3 + l) =~= msg);
        },
    }
}

/// Copies `b[from .. from + len]` into a new vector.
fn copy_range(b: &[u8], from: usize, len: usize) -> (out: Vec<u8>)
    requires
        from + len <= b@.len(),
    ensures
        out@ == b@.subrange(from as int, from + len),
{
    let mut out: Vec<u8> = Vec::new();
    let mut i: usize = 0;
    while i < len
        invariant
            from + len <= b@.len(),
            b@.len() == b.len(),
            i <= len,
            out@ == b@.subrange(from as int, from + i),
        decreases len - i,
    {
        out.push(b[from + i]);
        i = i + 1;
        proof {
            assert(b@.subrange(from as int, from + i) =~= b@.subrange(from as int, from + i - 1).push(
                b@[from + i - 1],
            ));
        }
    }
    out
}

/// Decodes a reply body from the start of `b`.
pub fn decode_reply(b: &[u8]) -> (r: Option<HandshakeReply>)
    ensures
        match r {
            Some(x) => parse_reply(b@) == Some(x.reply_view()),
            None => parse_reply(b@) is None,
        },
{
    proof {
        assert(b@.skip(0) =~= b@);
    }
    let (t, k) = match read_varint_at(b, 0) {
        None => {
            return None;
        },
        Some(x) => x,
    };
    let ghost rest = b@.skip(k as int);
    if t == 0 {
        return match read_varint_at(b, k) {
            Some((sid, _)) => if sid <= 0xffff_ffffu128 {
                Some(HandshakeReply::Complete(sid as u32))
            } else {
                None
            },
            None => None,
        };
    }
    if t != 1 {
        return None;
    }
    let (e, k2) = match read_varint_at(b, k) {
        None => {
            return None;
        },
        Some(x) => x,
    };
    proof {
        assert(k <= b@.len());
        assert(k2 <= rest.len());
        assert(rest.skip(k2 as int) =~= b@.skip(k + k2));
    }
    if e == 0 {
        match read_varint_at(b, k + k2) {
            Some((m, _)) => if m <= 0xffff_ffffu128 {
                Some(HandshakeReply::Disconnect(HandshakeError::MaxConnectedDevices(m as u32)))
            } else {
                None
            },
            None => None,
        }
    } else if e == 1 {
        Some(HandshakeReply::Disconnect(HandshakeError::ServerOverloaded))
    } else if e == 2 {
        let p = k + k2;
        let parsed = read_varint_at(b, p);
        proof {
            if let Some((_, k3)) = parsed {
                assert(k3 <= b@.skip(p as int).len());
            }
        }
        match parsed {
            Some((len, k3)) => if len <= (b.len() - p - k3) as u128 {
                assert(p + k3 + len <= b@.len());
                let msg = copy_range(b, p + k3, len as usize);
                proof {
                    assert(b@.skip(p as int).subrange(k3 as int, k3 + len) =~= b@.subrange(
                        p + k3,
                        p + k3 + len,
                    ));
                }
                Some(HandshakeReply::Disconnect(HandshakeError::Unexpected(msg)))
            } else {
                None
            },
            None => None,
        }
    } else {
        None
    }
}

/// Starts a handshake as the client: the hint byte for `alg`, then the first
/// Noise message carrying the encoded enrollment. Returns the message and the
/// state that reads the node's reply.
pub fn handshake_initial(alg: Alg, cred: &Cred) -> (r: Result<(Vec<u8>, HandshakeState), HandshakeFailure>)
    ensures
        r matches Ok((msg, _)) ==> 1 <= msg@.len() <= 1 + HANDSHAKE_BUF_LEN && msg@[0] == alg_hint(alg),
        r matches Err(e) ==> e is Noise,
{
    let sk = cred.sk.as_bytes();
    let spk = cred.spk.as_bytes();
    let psk = cred.psk.as_bytes();
    let mut st = match noise_initiator(noise_params_name(alg), &sk, &spk, PSK_LOCATION, &psk) {
        Ok(st) => st,
        Err(e) => {
            return Err(HandshakeFailure::Noise(e));
        },
    };
    let mut buffer: Vec<u8> = vec![0u8; HANDSHAKE_BUF_LEN];
    let n = match hs_write_message(&mut st, cred.enrollment.as_slice(), buffer.as_mut_slice()) {
        Ok(n) => n,
        Err(e) => {
            return Err(HandshakeFailure::Noise(e));
        },
    };
    buffer.truncate(n);
    let mut msg: Vec<u8> = Vec::new();
    msg.push(alg_hint_byte(alg));
    msg.append(&mut buffer);
    Ok((msg, st))
}

/// Finishes a handshake as the client: reads the node's reply message with
/// `st` and decodes the reply body from its payload.
pub fn handshake_complete(reply: &[u8], st: HandshakeState) -> (r: Result<
    (HandshakeReply, StatelessTransportState),
    HandshakeFailure,
>)
    ensures
        (r matches Err(HandshakeFailure::TooLong)) <==> reply@.len() > MAX_HANDSHAKE_MSG_LEN,
        r matches Err(e) ==> e is TooLong || e is Noise || e is MalformedReply,
        r matches Ok((body, _)) ==> exists|p: Seq<u8>|
            p.len() <= reply@.len() && #[trigger] parse_reply(p) == Some(body.reply_view()),
        (r matches Err(HandshakeFailure::MalformedReply)) ==> exists|p: Seq<u8>|
            p.len() <= reply@.len() && #[trigger] parse_reply(p) is None,
{
    if reply.len() > MAX_HANDSHAKE_MSG_LEN {
        return Err(HandshakeFailure::TooLong);
    }
    let mut st = st;
    let mut buffer: Vec<u8> = vec![0u8; HANDSHAKE_BUF_LEN];
    let len = match hs_read_message(&mut st, reply, buffer.as_mut_slice()) {
        Ok(n) => n,
        Err(e) => {
            return Err(HandshakeFailure::Noise(e));
        },
    };
    let plain = &buffer.as_slice()[0..len];
    let body = match decode_reply(plain) {
        None => {
            proof {
                assert(parse_reply(plain@) is None);
            }
            return Err(HandshakeFailure::MalformedReply);
        },
        Some(b) => b,
    };
    proof {
        assert(parse_reply(plain@) == Some(body.reply_view()));
    }
    match hs_into_transport(st) {
        Ok(ts) => Ok((body, ts)),
        Err(e) => Err(HandshakeFailure::Noise(e)),
    }
}

/// What the client makes of the reply body: the session id, or why the node refused.
pub fn handshake_result(body: HandshakeReply) -> (r: Result<SessionId, HandshakeError>)
    ensures
        match body {
            HandshakeReply::Complete(sid) => r == Ok::<SessionId, HandshakeError>(sid),
            HandshakeReply::Disconnect(e) => r == Err::<SessionId, HandshakeError>(e),
        },
{
    match body {
        HandshakeReply::Complete(sid) => Ok(sid),
        HandshakeReply::Disconnect(e) => Err(e),
    }
}

/// Reads a client's first handshake message as the node, knowing only its
/// own static key: the device's static key, the algorithm named by the hint
/// byte, and the payload (the device's encoded enrollment).
pub fn read_handshake_init(handshake: &[u8], sk: &crate::keys::SecretKey) -> (r: Result<
    (PublicKey, Alg, Vec<u8>),
    HandshakeFailure,
>)
    ensures
        (r matches Err(HandshakeFailure::Empty)) <==> handshake@.len() == 0,
        handshake@.len() > 0 ==> ((r matches Err(HandshakeFailure::UnknownAlg(_))) <==> forall|a: Alg|
            alg_hint(a) != handshake@[0]),
        r matches Err(HandshakeFailure::UnknownAlg(b)) ==> b == handshake@[0],
        (r matches Err(HandshakeFailure::TooLong)) <==> handshake@.len() > MAX_HANDSHAKE_MSG_LEN + 1
            && exists|a: Alg| alg_hint(a) == handshake@[0],
        r matches Ok((_, alg, payload)) ==> handshake@.len() > 0 && alg_hint(alg) == handshake@[0]
            && payload@.len() < handshake@.len(),
        !(r matches Err(HandshakeFailure::MalformedReply)),
{
    if handshake.len() == 0 {
        return Err(HandshakeFailure::Empty);
    }
    let hint = handshake[0];
    let alg = match alg_from_hint_byte(hint) {
        None => {
            return Err(HandshakeFailure::UnknownAlg(hint));
        },
        Some(a) => a,
    };
    let msg = &handshake[1..handshake.len()];
    if msg.len() > MAX_HANDSHAKE_MSG_LEN {
        return Err(HandshakeFailure::TooLong);
    }
    let key = sk.as_bytes();
    let mut st = match noise_responder(noise_params_name(alg), &key) {
        Ok(st) => st,
        Err(e) => {
            return Err(HandshakeFailure::Noise(e));
        },
    };
    let mut buffer: Vec<u8> = vec![0u8; HANDSHAKE_BUF_LEN];
    let len = match hs_read_message(&mut st, msg, buffer.as_mut_slice()) {
        Ok(n) => n,
        Err(e) => {
            return Err(HandshakeFailure::Noise(e));
        },
    };
    let remote = match hs_remote_static(&st) {
        None => {
            return Err(HandshakeFailure::MissingRemoteStatic);
        },
        Some(v) => v,
    };
    let pk = match PublicKey::try_from_slice(remote.as_slice()) {
        None => {
            return Err(HandshakeFailure::BadRemoteStatic);
        },
        Some(k) => k,
    };
    buffer.truncate(len);
    Ok((pk, alg, buffer))
}

/// The reply to a handshake: the session id when a session slot was found,
/// else a refusal because the node is full.
pub fn reply_for_slot(slot: Option<SessionId>) -> (r: HandshakeReply)
    ensures
        match slot {
            Some(sid) => r == HandshakeReply::Complete(sid),
            None => r == HandshakeReply::Disconnect(HandshakeError::ServerOverloaded),
        },
{
    match slot {
        Some(sid) => HandshakeReply::Complete(sid),
        None => HandshakeReply::Disconnect(HandshakeError::ServerOverloaded),
    }
}

/// No value is left to hand out: the pool is full, or a scan from its cursor
/// over the whole range finds nothing free.
pub open spec fn pool_exhausted(v: PoolView) -> bool {
    v.borrowed.len() >= v.range_size || forall|k: int| 0 <= k < v.range_size ==> !#[trigger] scan_free(v, k)
}

/// Every session's id and tunnel address are marked as taken in the pools
/// they were handed out from.
pub open spec fn pools_hold_sessions(v: SessionsView) -> bool {
    forall|x: SessionId| #[trigger]
        v.sessions.contains_key(x) ==> {
            &&& v.ids.borrowed.contains(x as u64)
            &&& pool_offset(v.ips, v.sessions[x].holy_ip) is Some
            &&& v.ips.borrowed.contains(pool_offset(v.ips, v.sessions[x].holy_ip).unwrap() as u64)
            &&& (v.sessions[x].holy_ip is V4) == v.ips.is_v4
        }
}

/// A table with no session trivially has every session in its pools; with
/// `take_session_slot` and `respond_handshake` keeping the property, every
/// table built by handshakes has it.
pub proof fn lemma_empty_table_holds(v: SessionsView)
    requires
        v.sessions.dom() =~= Set::empty(),
    ensures
        pools_hold_sessions(v),
{
    assert forall|x: SessionId| #[trigger] v.sessions.contains_key(x) implies false by {
        assert(v.sessions.dom().contains(x));
    }
}

/// A session id and an address handed out by the pools of a table whose
/// sessions the pools account for belong to no session.
proof fn lemma_fresh_slot(
    o: SessionsView,
    sid: SessionId,
    ids2: PoolView,
    ip: crate::net::IpAddress,
    ips2: PoolView,
)
    requires
        sessions_wf(o),
        pools_hold_sessions(o),
        next_step(o.ids, ids2, Some(id_addr(sid))),
        next_step(o.ips, ips2, Some(ip)),
    ensures
        !o.sessions.contains_key(sid),
        !o.by_ip.contains_key(ip_key(ip)),
{
    let i = choose|i: int|
        0 <= i < o.ids.range_size && scan_free(o.ids, i) && (forall|k: int|
            0 <= k < i ==> !#[trigger] scan_free(o.ids, k)) && id_addr(sid) == pool_addr(
            o.ids,
            scan_offset(o.ids, i),
        ) && ids2 == PoolView {
            cursor: (o.ids.cursor + i + 1) % crate::ip_pool::cursor_modulus(),
            borrowed: o.ids.borrowed.insert(scan_offset(o.ids, i) as u64),
            ..o.ids
        };
    let off = scan_offset(o.ids, i);
    vstd::arithmetic::div_mod::lemma_mod_bound(
        (o.ids.cursor + i) % crate::ip_pool::cursor_modulus(),
        o.ids.range_size,
    );
    vstd::arithmetic::div_mod::lemma_mod_bound(o.ids.cursor + i, crate::ip_pool::cursor_modulus());
    assert(off == sid as int);
    if o.sessions.contains_key(sid) {
        assert(o.ids.borrowed.contains(sid as u64));
        assert(false);
    }
    let j = choose|j: int|
        0 <= j < o.ips.range_size && scan_free(o.ips, j) && (forall|k: int|
            0 <= k < j ==> !#[trigger] scan_free(o.ips, k)) && ip == pool_addr(
            o.ips,
            scan_offset(o.ips, j),
        ) && ips2 == PoolView {
            cursor: (o.ips.cursor + j + 1) % crate::ip_pool::cursor_modulus(),
            borrowed: o.ips.borrowed.insert(scan_offset(o.ips, j) as u64),
            ..o.ips
        };
    let off2 = scan_offset(o.ips, j);
    vstd::arithmetic::div_mod::lemma_mod_bound(
        (o.ips.cursor + j) % crate::ip_pool::cursor_modulus(),
        o.ips.range_size,
    );
    vstd::arithmetic::div_mod::lemma_mod_bound(o.ips.cursor + j, crate::ip_pool::cursor_modulus());
    crate::ip_pool::lemma_pool_addr_offset(o.ips, off2);
    if o.by_ip.contains_key(ip_key(ip)) {
        let x = o.by_ip[ip_key(ip)];
        assert(o.sessions.contains_key(x));
        let h = o.sessions[x].holy_ip;
        assert(ip_key(h) == ip_key(ip));
        assert(h == ip);
        assert(o.ips.borrowed.contains(off2 as u64));
        assert(false);
    }
}

/// Takes a session id and a tunnel address for a new session, both unused by
/// any session; gives back what it took when either is missing.
pub fn take_session_slot(sessions: &mut Sessions) -> (r: Option<(SessionId, crate::net::IpAddress)>)
    requires
        sessions_wf(old(sessions)@),
    ensures
        sessions_wf(final(sessions)@),
        final(sessions)@.sessions == old(sessions)@.sessions,
        final(sessions)@.by_ip == old(sessions)@.by_ip,
        final(sessions)@.queue == old(sessions)@.queue,
        r matches Some((sid, ip)) ==> !final(sessions)@.sessions.contains_key(sid)
            && !final(sessions)@.by_ip.contains_key(ip_key(ip)),
        r is None ==> pool_exhausted(old(sessions)@.ids) || pool_exhausted(old(sessions)@.ips)
            || !pools_hold_sessions(old(sessions)@),
        pools_hold_sessions(old(sessions)@) ==> pools_hold_sessions(final(sessions)@),
        r matches Some((sid, ip)) ==> final(sessions)@.ids.borrowed.contains(sid as u64) && pool_offset(
            final(sessions)@.ips,
            ip,
        ) is Some && final(sessions)@.ips.borrowed.contains(
            pool_offset(final(sessions)@.ips, ip).unwrap() as u64,
        ) && (ip is V4) == final(sessions)@.ips.is_v4,
{
    let ghost o = sessions@;
    let sid = match sessions.next_session_id() {
        None => {
            return None;
        },
        Some(sid) => sid,
    };
    let ghost m1 = sessions@;
    proof {
        crate::ip_pool::lemma_next_hands_out_free(o.ids, m1.ids, id_addr(sid));
        assert(pool_offset(o.ids, id_addr(sid)) == Some(sid as int));
    }
    let ip = match sessions.next_holy_ip() {
        None => {
            sessions.release_session_id(sid);
            proof {
                assert(sessions@.ids.borrowed =~= o.ids.borrowed);
            }
            return None;
        },
        Some(ip) => ip,
    };
    let ghost m2 = sessions@;
    proof {
        crate::ip_pool::lemma_next_hands_out_free(o.ips, m2.ips, ip);
        assert(m2.ips.start == o.ips.start && m2.ips.range_size == o.ips.range_size && m2.ips.is_v4
            == o.ips.is_v4);
    }
    if sessions.is_sid_allocated(sid) || sessions.holds_ip_key(&ip) {
        proof {
            if pools_hold_sessions(old(sessions)@) {
                lemma_fresh_slot(old(sessions)@, sid, sessions@.ids, ip, sessions@.ips);
            }
        }
        sessions.release_holy_ip(&ip);
        sessions.release_session_id(sid);
        proof {
            assert(sessions@.ids.borrowed =~= o.ids.borrowed);
            assert(sessions@.ips.borrowed =~= o.ips.borrowed);
        }
        return None;
    }
    Some((sid, ip))
}

/// Finishes a handshake as the node once the device is authorized: reads the
/// first message again with the account's psk, takes a session slot, writes
/// the reply message and, when a slot was found, adds the session for `addr`.
/// Returns the reply message.
pub fn respond_handshake(
    noise_msg: &[u8],
    cred: &ServerCredential,
    alg: Alg,
    addr: SocketAddress,
    now: u64,
    sessions: &mut Sessions,
) -> (r: Result<Vec<u8>, HandshakeFailure>)
    requires
        sessions_wf(old(sessions)@),
    ensures
        sessions_wf(final(sessions)@),
        (r matches Err(HandshakeFailure::TooLong)) <==> noise_msg@.len() > MAX_HANDSHAKE_MSG_LEN,
        noise_msg@.len() > MAX_HANDSHAKE_MSG_LEN ==> final(sessions)@ == old(sessions)@,
        r matches Err(e) ==> e is TooLong || e is Noise,
        r matches Ok(msg) ==> msg@.len() <= HANDSHAKE_BUF_LEN,
        pools_hold_sessions(old(sessions)@) ==> pools_hold_sessions(final(sessions)@),
        r is Ok && !pool_exhausted(old(sessions)@.ids) && !pool_exhausted(old(sessions)@.ips)
            && pools_hold_sessions(old(sessions)@) ==> exists|x: SessionId|
            #[trigger] final(sessions)@.sessions.contains_key(x) && !old(sessions)@.sessions.contains_key(x),
        forall|x: SessionId| #[trigger]
            old(sessions)@.sessions.contains_key(x) ==> final(sessions)@.sessions.contains_key(x)
                && final(sessions)@.sessions[x] == old(sessions)@.sessions[x],
        forall|x: SessionId| #[trigger]
            final(sessions)@.sessions.contains_key(x) && !old(sessions)@.sessions.contains_key(x) ==> {
                &&& r is Ok
                &&& final(sessions)@.sessions[x].id == x
                &&& final(sessions)@.sessions[x].addr() == addr
                &&& final(sessions)@.sessions[x].enc == alg
                &&& final(sessions)@.sessions[x].last_seen == now
                &&& final(sessions)@.sessions[x].send_nonce == 0
                &&& forall|y: SessionId| #[trigger]
                    final(sessions)@.sessions.contains_key(y) && !old(sessions)@.sessions.contains_key(y)
                        ==> y == x
            },
{
    if noise_msg.len() > MAX_HANDSHAKE_MSG_LEN {
        return Err(HandshakeFailure::TooLong);
    }
    let sk = cred.sk.as_bytes();
    let peer = cred.peer_pk.as_bytes();
    let psk = cred.psk.as_bytes();
    let mut st = match noise_responder_psk(noise_params_name(alg), &sk, &peer, PSK_LOCATION, &psk) {
        Ok(st) => st,
        Err(e) => {
            return Err(HandshakeFailure::Noise(e));
        },
    };
    let mut buffer: Vec<u8> = vec![0u8; HANDSHAKE_BUF_LEN];
    match hs_read_message(&mut st, noise_msg, buffer.as_mut_slice()) {
        Ok(_) => {},
        Err(e) => {
            return Err(HandshakeFailure::Noise(e));
        },
    }
    let slot = take_session_slot(sessions);
    let body = reply_for_slot(
        match slot {
            Some((sid, _)) => Some(sid),
            None => None,
        },
    );
    let plain = encode_reply(&body);
    let mut out: Vec<u8> = vec![0u8; HANDSHAKE_BUF_LEN];
    let written = hs_write_message(&mut st, plain.as_slice(), out.as_mut_slice());
    let n = match written {
        Ok(n) => n,
        Err(e) => {
            if let Some((sid, ip)) = slot {
                sessions.release_holy_ip(&ip);
                sessions.release_session_id(sid);
            }
            return Err(HandshakeFailure::Noise(e));
        },
    };
    if let Some((sid, ip)) = slot {
        match hs_into_transport(st) {
            Ok(ts) => {
                sessions.add(sid, ip, addr, alg, ts, now);
            },
            Err(e) => {
                sessions.release_holy_ip(&ip);
                sessions.release_session_id(sid);
                return Err(HandshakeFailure::Noise(e));
            },
        }
    }
    out.truncate(n);
    Ok(out)
}

/// Wire type byte of a client's first handshake message.
pub const TYPE_HANDSHAKE_INITIAL: u8 = 0;

/// Wire type byte of a node's handshake reply message.
pub const TYPE_HANDSHAKE_RESPONDER: u8 = 1;

/// A handshake datagram: the type byte, the message length as a varint, the message.
pub open spec fn handshake_frame(ty: u8, msg: Seq<u8>) -> Seq<u8> {
    seq![ty] + (varint_bytes(msg.len() as int) + msg)
}

/// Reads a handshake datagram: its type byte and message; trailing bytes are ignored.
pub open spec fn parse_handshake_frame(s: Seq<u8>) -> Option<(u8, Seq<u8>)> {
    if s.len() == 0 || !(s[0] == TYPE_HANDSHAKE_INITIAL || s[0] == TYPE_HANDSHAKE_RESPONDER) {
        None
    } else {
        match parse_varint(s.skip(1)) {
            Some((len, k)) => if 1 + k + len <= s.len() {
                Some((s[0], s.subrange(1 + k as int, 1 + k + len)))
            } else {
                None
            },
            None => None,
        }
    }
}

/// Frames a handshake message as a datagram.
pub fn encode_handshake_frame(ty: u8, msg: &[u8]) -> (out: Vec<u8>)
    ensures
        out@ == handshake_frame(ty, msg@),
{
    let mut out: Vec<u8> = Vec::new();
    out.push(ty);
    push_varint(&mut out, msg.len() as u128);
    out.extend_from_slice(msg);
    proof {
        assert(out@ =~= handshake_frame(ty, msg@));
    }
    out
}

/// Reads a handshake datagram.
pub fn parse_handshake_datagram(b: &[u8]) -> (r: Option<(u8, &[u8])>)
    ensures
        match r {
            Some((ty, msg)) => parse_handshake_frame(b@) == Some((ty, msg@)),
            None => parse_handshake_frame(b@) is None,
        },
{
    if b.len() == 0 || !(b[0] == TYPE_HANDSHAKE_INITIAL || b[0] == TYPE_HANDSHAKE_RESPONDER) {
        return None;
    }
    let parsed = read_varint_at(b, 1);
    match parsed {
        Some((len, k)) => {
            proof {
                assert(k <= b@.skip(1).len());
            }
            if len <= (b.len() - 1 - k) as u128 {
                let start = 1 + k;
                let msg = &b[start..start + len as usize];
                Some((b[0], msg))
            } else {
                None
            }
        },
        None => None,
    }
}

/// Reading a framed handshake message, followed by anything, gives it back.
pub proof fn lemma_handshake_frame_roundtrip(ty: u8, msg: Seq<u8>, rest: Seq<u8>)
    requires
        ty == TYPE_HANDSHAKE_INITIAL || ty == TYPE_HANDSHAKE_RESPONDER,
        msg.len() <= u64::MAX,
    ensures
        parse_handshake_frame(handshake_frame(ty, msg) + rest) == Some((ty, msg)),
{
    let s = handshake_frame(ty, msg) + rest;
    lemma_varint_roundtrip(msg.len() as int, msg + rest);
    assert(s.skip(1) =~= varint_bytes(msg.len() as int) + (msg + rest));
    let k = varint_bytes(msg.len() as int).len() as int;
    assert(s.subrange(1 + k, 1 + k + msg.len()) =~= msg);
}

} // verus!
