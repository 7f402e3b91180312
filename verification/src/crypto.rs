//! Data-frame encoding and the Noise encrypt/decrypt helpers around it.
//!
//! Data frames carry **no length field**: the ciphertext runs to the end of
//! the UDP datagram (WireGuard-style). The fixed header size is what makes a
//! batch of equal-size plaintext packets produce equal-size datagrams, the
//! precondition for coalescing them into one `sendmsg` with UDP GSO.
//!
//! Frame layouts (network byte order):
//! - `DataServer`: `type(1) = 3 | nonce(8) | ciphertext`
//! - `DataClient`: `type(1) = 2 | sid(4) | nonce(8) | ciphertext`
//!
//! The plaintext of an IP packet is `varint(0) | varint(len) | bytes`.

use vstd::prelude::*;

use snow::StatelessTransportState;

use crate::packet::{
    body_bytes, parse_body, BodyView, DataClientBodyRef, DataServerBodyRef, PlainBody,
};
use crate::codec::{
    be_bytes, lemma_varint_roundtrip, varint_bytes, varint_len, write_be_at, write_varint_at,
};

verus! {

/// `DataServer` wire type byte.
pub const TYPE_DATA_SERVER: u8 = 3;

/// `DataClient` wire type byte.
pub const TYPE_DATA_CLIENT: u8 = 2;

/// `DataServer` header length: `type(1) + nonce(8)`.
pub const DATA_SERVER_HDR_LEN: usize = 9;

/// `DataClient` header length: `type(1) + sid(4) + nonce(8)`.
pub const DATA_CLIENT_HDR_LEN: usize = 13;

/// The largest plaintext frame the encoders accept.
pub const MAX_PLAIN_LEN: usize = 65536;

/// Length of the authentication tag that Noise appends to every ciphertext.
pub const TAG_LEN: usize = 16;

/// The plaintext frame of an IP packet: variant 0, then the length, then the bytes.
pub open spec fn ip_packet_plain(payload: Seq<u8>) -> Seq<u8> {
    seq![0u8] + varint_bytes(payload.len() as int) + payload
}

/// The fixed `DataServer` header.
pub open spec fn data_server_header(nonce: u64) -> Seq<u8> {
    seq![TYPE_DATA_SERVER] + be_bytes(nonce as int, 8)
}

/// The fixed `DataClient` header.
pub open spec fn data_client_header(sid: u32, nonce: u64) -> Seq<u8> {
    seq![TYPE_DATA_CLIENT] + be_bytes(sid as int, 4) + be_bytes(nonce as int, 8)
}

/// `buf` after the call equals `old` except on `[start, end)`, where it holds `bytes`.
pub open spec fn written_at(old: Seq<u8>, new: Seq<u8>, start: int, bytes: Seq<u8>) -> bool {
    &&& new.len() == old.len()
    &&& start + bytes.len() <= new.len()
    &&& new.subrange(start, start + bytes.len()) == bytes
    &&& forall|j: int|
        0 <= j < old.len() && !(start <= j < start + bytes.len()) ==> #[trigger] new[j] == old[j]
}

/// Length of the variable-length encoding of a length or count.
pub fn usize_varint_len(v: usize) -> (len: usize)
    ensures
        len == varint_bytes(v as int).len(),
        v <= 250 ==> len == 1,
        251 <= v <= 65535 ==> len == 3,
        65536 <= v <= 4294967295 ==> len == 5,
        4294967295 < v ==> len == 9,
{
    proof {
        lemma_varint_roundtrip(v as int, Seq::empty());
        crate::codec::lemma_le_roundtrip(v as int, 2);
        crate::codec::lemma_le_roundtrip(v as int, 4);
        crate::codec::lemma_le_roundtrip(v as int, 8);
    }
    varint_len(v as u128)
}

/// Returns the plaintext frame length for an IP packet of `payload_len` bytes.
///
/// Plain frame: `varint_u32(0)` (1 B) + `varint_usize(payload_len)` + `payload_len`.
pub fn ip_packet_plain_len(payload_len: usize) -> (len: usize)
    requires
        1 + varint_bytes(payload_len as int).len() + payload_len <= usize::MAX,
    ensures
        len == 1 + varint_bytes(payload_len as int).len() + payload_len,
        len == ip_packet_plain(Seq::<u8>::new(payload_len as nat, |i: int| 0u8)).len(),
{
    1 + usize_varint_len(payload_len) + payload_len
}

/// Writes the plaintext frame of IP packet `payload` at the start of
/// `plain_buf`. Returns bytes written.
pub fn write_ip_packet_plain(plain_buf: &mut [u8], payload: &[u8]) -> (n: usize)
    requires
        ip_packet_plain(payload@).len() <= old(plain_buf)@.len(),
    ensures
        n == ip_packet_plain(payload@).len(),
        written_at(old(plain_buf)@, final(plain_buf)@, 0, ip_packet_plain(payload@)),
{
    let ghost old_buf = plain_buf@;
    let len = plain_buf.len();
    // Enum variant 0 = Packet.
    let mut pos = write_varint_at(plain_buf, 0, 0);
    pos = pos + write_varint_at(plain_buf, pos, payload.len() as u128);
    let ghost head = plain_buf@;
    let mut i: usize = 0;
    while i < payload.len()
        invariant
            len == plain_buf@.len(),
            pos == 1 + varint_bytes(payload@.len() as int).len(),
            pos + payload@.len() <= plain_buf@.len(),
            plain_buf@.len() == head.len(),
            i <= payload@.len(),
            forall|j: int| 0 <= j < i ==> #[trigger] plain_buf@[pos + j] == payload@[j],
            forall|j: int| 0 <= j < head.len() && !(pos <= j < pos + i) ==> #[trigger] plain_buf@[j] == head[j],
        decreases payload@.len() - i,
    {
        plain_buf[pos + i] = payload[i];
        i = i + 1;
    }
    proof {
        let full = ip_packet_plain(payload@);
        assert(varint_bytes(0) == seq![0u8]);
        assert forall|j: int| 0 <= j < full.len() implies #[trigger] plain_buf@[j] == full[j] by {
            if j >= pos as int {
                assert(plain_buf@[pos + (j - pos)] == payload@[j - pos]);
            } else {
                assert(plain_buf@[j] == head[j]);
            }
        }
        assert(plain_buf@.subrange(0, full.len() as int) =~= full);
    }
    pos + payload.len()
}

/// Writes the fixed `DataServer` header (`type | nonce`) into `buf`.
pub fn write_data_server_header(buf: &mut [u8], nonce: u64) -> (n: usize)
    requires
        old(buf)@.len() >= DATA_SERVER_HDR_LEN,
    ensures
        n == DATA_SERVER_HDR_LEN,
        written_at(old(buf)@, final(buf)@, 0, data_server_header(nonce)),
{
    buf[0] = TYPE_DATA_SERVER;
    let ghost mid = buf@;
    write_be_at(buf, 1, nonce, 8);
    proof {
        crate::codec::lemma_be_roundtrip(nonce as int, 8);
        assert(buf@[0] == mid[0]);
        assert(buf@.subrange(0, 9) =~= data_server_header(nonce));
    }
    DATA_SERVER_HDR_LEN
}

/// Writes the fixed `DataClient` header (`type | sid | nonce`) into `buf`.
pub fn write_data_client_header(buf: &mut [u8], sid: u32, nonce: u64) -> (n: usize)
    requires
        old(buf)@.len() >= DATA_CLIENT_HDR_LEN,
    ensures
        n == DATA_CLIENT_HDR_LEN,
        written_at(old(buf)@, final(buf)@, 0, data_client_header(sid, nonce)),
{
    buf[0] = TYPE_DATA_CLIENT;
    let ghost b1 = buf@;
    write_be_at(buf, 1, sid as u64, 4);
    let ghost b2 = buf@;
    write_be_at(buf, 5, nonce, 8);
    proof {
        crate::codec::lemma_be_roundtrip(sid as int, 4);
        crate::codec::lemma_be_roundtrip(nonce as int, 8);
        assert(buf@[0] == b1[0]);
        assert(buf@.subrange(1, 5) =~= b2.subrange(1, 5));
        assert(buf@.subrange(0, 13) =~= data_client_header(sid, nonce));
    }
    DATA_CLIENT_HDR_LEN
}

/// Copies `bytes` into `out` at `pos`.
fn copy_at(out: &mut [u8], pos: usize, bytes: &[u8])
    requires
        pos + bytes@.len() <= old(out)@.len(),
    ensures
        written_at(old(out)@, final(out)@, pos as int, bytes@),
{
    let len = out.len();
    let ghost head = out@;
    let mut i: usize = 0;
    while i < bytes.len()
        invariant
            len == out@.len(),
            out@.len() == head.len(),
            pos + bytes@.len() <= out@.len(),
            i <= bytes@.len(),
            forall|j: int| 0 <= j < i ==> #[trigger] out@[pos + j] == bytes@[j],
            forall|j: int| 0 <= j < head.len() && !(pos <= j < pos + i) ==> #[trigger] out@[j] == head[j],
        decreases bytes@.len() - i,
    {
        out[pos + i] = bytes[i];
        i = i + 1;
    }
    proof {
        assert forall|j: int| 0 <= j < bytes@.len() implies #[trigger] out@.subrange(
            pos as int,
            pos + bytes@.len(),
        )[j] == bytes@[j] by {
            assert(out@[pos + j] == bytes@[j]);
        }
        assert(out@.subrange(pos as int, pos + bytes@.len()) =~= bytes@);
    }
}

/// Assembles a complete `DataServer` frame from an already-encrypted body
/// (keepalive path). Returns the total frame length.
pub fn encode_data_server_frame(nonce: u64, cipher: &[u8], out: &mut [u8]) -> (n: usize)
    requires
        DATA_SERVER_HDR_LEN + cipher@.len() <= old(out)@.len(),
    ensures
        n == DATA_SERVER_HDR_LEN + cipher@.len(),
        written_at(old(out)@, final(out)@, 0, data_server_header(nonce) + cipher@),
{
    let len = out.len();
    let h = write_data_server_header(out, nonce);
    let ghost m = out@;
    copy_at(out, h, cipher);
    proof {
        crate::codec::lemma_be_roundtrip(nonce as int, 8);
        let full = data_server_header(nonce) + cipher@;
        let hd = data_server_header(nonce);
        assert forall|j: int| 0 <= j < full.len() implies #[trigger] out@[j] == full[j] by {
            if j < 9 {
                assert(m.subrange(0, 9)[j] == hd[j]);
                assert(out@[j] == m[j]);
            } else {
                assert(out@.subrange(9, 9 + cipher@.len() as int)[j - 9] == cipher@[j - 9]);
            }
        }
        assert(out@.subrange(0, full.len() as int) =~= full);
    }
    h + cipher.len()
}

/// Assembles a complete `DataClient` frame from an already-encrypted body
/// (keepalive path). Returns the total frame length.
pub fn encode_data_client_frame(sid: u32, nonce: u64, cipher: &[u8], out: &mut [u8]) -> (n: usize)
    requires
        DATA_CLIENT_HDR_LEN + cipher@.len() <= old(out)@.len(),
    ensures
        n == DATA_CLIENT_HDR_LEN + cipher@.len(),
        written_at(old(out)@, final(out)@, 0, data_client_header(sid, nonce) + cipher@),
{
    let len = out.len();
    let h = write_data_client_header(out, sid, nonce);
    let ghost m = out@;
    copy_at(out, h, cipher);
    proof {
        crate::codec::lemma_be_roundtrip(nonce as int, 8);
        crate::codec::lemma_be_roundtrip(sid as int, 4);
        let full = data_client_header(sid, nonce) + cipher@;
        let hd = data_client_header(sid, nonce);
        assert forall|j: int| 0 <= j < full.len() implies #[trigger] out@[j] == full[j] by {
            if j < 13 {
                assert(m.subrange(0, 13)[j] == hd[j]);
                assert(out@[j] == m[j]);
            } else {
                assert(out@.subrange(13, 13 + cipher@.len() as int)[j - 13] == cipher@[j - 13]);
            }
        }
        assert(out@.subrange(0, full.len() as int) =~= full);
    }
    h + cipher.len()
}

/// The largest Noise transport message (ciphertext and tag).
pub const MAX_NOISE_MSG_LEN: usize = 65535;

#[verifier::external_type_specification]
#[verifier::external_body]
pub struct ExStatelessTransportState(StatelessTransportState);

#[verifier::external_type_specification]
#[verifier::external_body]
pub struct ExNoiseError(snow::Error);

/// Why encrypting or decrypting a data body failed.
#[derive(Debug)]
pub enum CryptoError {
    /// The plaintext frame is longer than `MAX_PLAIN_LEN`.
    PacketTooLarge,
    /// The Noise transport refused the message (size, nonce, key or tag).
    Noise(snow::Error),
    /// The decrypted plaintext is not a body of the expected kind.
    MalformedBody,
}

/// What `StatelessTransportState::write_message` seals `payload` into under
/// `nonce`: the AEAD ciphertext and tag under the state's sending key, or
/// `None` when the state cannot seal under that nonce (it holds no sending
/// key, it is the responder of a one-way pattern, or the nonce is the
/// reserved `u64::MAX`).
pub uninterp spec fn noise_sealed(state: StatelessTransportState, nonce: u64, payload: Seq<u8>) -> Option<Seq<u8>>;

/// What `StatelessTransportState::read_message` opens `ciphertext` into under
/// `nonce`: the plaintext when the tag verifies under the state's receiving
/// key, else `None` (no receiving key, the initiator of a one-way pattern,
/// the reserved nonce, a ciphertext shorter than the tag, or a tag that does
/// not verify).
pub uninterp spec fn noise_opened(state: StatelessTransportState, nonce: u64, ciphertext: Seq<u8>) -> Option<Seq<u8>>;

/// Seals `payload` with `StatelessTransportState::write_message` under `nonce`
/// into `message`.
///
/// Claimed of the snow call: when the sealed message (`payload` and the
/// 16-byte tag) fits in 65535 bytes and in `message`, it succeeds exactly when
/// the state can seal under `nonce`, and writes the sealed bytes
/// `noise_sealed(state, nonce, payload)` at the start of `message`; otherwise
/// it fails. The nonce `u64::MAX` always fails. On failure `message` is
/// untouched; nothing is written past the sealed bytes.
#[verifier::external_body]
fn noise_write_message(
    state: &StatelessTransportState,
    nonce: u64,
    payload: &[u8],
    message: &mut [u8],
) -> (r: Result<usize, snow::Error>)
    ensures
        final(message)@.len() == old(message)@.len(),
        (r is Ok) <==> (payload@.len() + TAG_LEN <= MAX_NOISE_MSG_LEN && payload@.len() + TAG_LEN <= old(
            message,
        )@.len() && noise_sealed(*state, nonce, payload@) is Some),
        nonce == u64::MAX ==> r is Err,
        r is Err ==> final(message)@ == old(message)@,
        r matches Ok(n) ==> n == payload@.len() + TAG_LEN && noise_sealed(*state, nonce, payload@) == Some(
            final(message)@.subrange(0, n as int),
        ) && forall|j: int|
            n <= j < old(message)@.len() ==> #[trigger] final(message)@[j] == old(message)@[j],
{
    state.write_message(nonce, payload, message)
}

/// The ciphertext fits the Noise message limit and its plaintext fits in `out_len` bytes.
pub open spec fn noise_open_fits(ciphertext_len: int, out_len: int) -> bool {
    ciphertext_len <= MAX_NOISE_MSG_LEN && ciphertext_len <= out_len + TAG_LEN
}

/// Opens `ciphertext` with `StatelessTransportState::read_message` under
/// `nonce` into `out`.
///
/// Claimed of the snow call: it fails when `ciphertext` is longer than 65535
/// bytes or shorter than the 16-byte tag, when `out` cannot hold the
/// plaintext, or when `nonce` is `u64::MAX`; otherwise it succeeds exactly
/// when `noise_opened(state, nonce, ciphertext)` is a plaintext, returns its
/// length `ciphertext.len() - 16` and writes it at the start of `out`. It never
/// writes past that length.
#[verifier::external_body]
fn noise_read_message(
    state: &StatelessTransportState,
    nonce: u64,
    ciphertext: &[u8],
    out: &mut [u8],
) -> (r: Result<usize, snow::Error>)
    ensures
        final(out)@.len() == old(out)@.len(),
        ciphertext@.len() > MAX_NOISE_MSG_LEN || ciphertext@.len() < TAG_LEN || old(out)@.len() + TAG_LEN
            < ciphertext@.len() || nonce == u64::MAX ==> r is Err,
        noise_open_fits(ciphertext@.len() as int, old(out)@.len() as int) ==> ((r is Ok) <==> noise_opened(
            *state,
            nonce,
            ciphertext@,
        ) is Some),
        r matches Ok(n) ==> n + TAG_LEN == ciphertext@.len() && noise_opened(*state, nonce, ciphertext@)
            == Some(final(out)@.subrange(0, n as int)),
        forall|j: int|
            0 <= j < old(out)@.len() && j + TAG_LEN >= ciphertext@.len() ==> #[trigger] final(out)@[j]
                == old(out)@[j],
{
    state.read_message(nonce, ciphertext, out)
}

/// Encrypts a body: its plaintext encoding, sealed under `nonce`.
pub fn noise_encrypt<B: PlainBody>(body: &B, state: &StatelessTransportState, nonce: u64) -> (r:
    Result<Vec<u8>, CryptoError>)
    requires
        body.plain_bytes().len() <= usize::MAX,
    ensures
        (r matches Err(CryptoError::PacketTooLarge)) <==> body.plain_bytes().len() > MAX_PLAIN_LEN,
        !(r matches Err(CryptoError::MalformedBody)),
        body.plain_bytes().len() + TAG_LEN > MAX_NOISE_MSG_LEN || nonce == u64::MAX ==> r is Err,
        body.plain_bytes().len() <= MAX_PLAIN_LEN ==> ((r is Ok) <==> (body.plain_bytes().len() + TAG_LEN
            <= MAX_NOISE_MSG_LEN && noise_sealed(*state, nonce, body.plain_bytes()) is Some)),
        r matches Ok(c) ==> c@.len() == body.plain_bytes().len() + TAG_LEN && noise_sealed(
            *state,
            nonce,
            body.plain_bytes(),
        ) == Some(c@),
{
    let plain_len = body.plain_len();
    if plain_len > MAX_PLAIN_LEN {
        return Err(CryptoError::PacketTooLarge);
    }
    let mut plain: Vec<u8> = vec![0u8; plain_len];
    let n = body.write_plain(plain.as_mut_slice());
    proof {
        assert(plain@ =~= body.plain_bytes());
    }
    let mut cipher: Vec<u8> = vec![0u8; plain_len + TAG_LEN];
    match noise_write_message(state, nonce, plain.as_slice(), cipher.as_mut_slice()) {
        Ok(written) => {
            cipher.truncate(written);
            proof {
                assert(cipher@ =~= cipher@.subrange(0, written as int));
            }
            Ok(cipher)
        },
        Err(e) => Err(CryptoError::Noise(e)),
    }
}

/// Encodes a raw IP packet as a complete `DataServer` frame into `out`:
/// the fixed header, then the sealed plaintext frame. Returns the frame length.
pub fn encode_data_server_packet(
    payload: &[u8],
    state: &StatelessTransportState,
    nonce: u64,
    out: &mut [u8],
) -> (r: Result<usize, CryptoError>)
    requires
        ip_packet_plain(payload@).len() <= usize::MAX,
        ip_packet_plain(payload@).len() <= MAX_PLAIN_LEN ==> old(out)@.len() >= DATA_SERVER_HDR_LEN,
    ensures
        final(out)@.len() == old(out)@.len(),
        (r matches Err(CryptoError::PacketTooLarge)) <==> ip_packet_plain(payload@).len()
            > MAX_PLAIN_LEN,
        (r matches Err(CryptoError::PacketTooLarge)) ==> final(out)@ == old(out)@,
        !(r matches Err(CryptoError::MalformedBody)),
        ip_packet_plain(payload@).len() <= MAX_PLAIN_LEN ==> final(out)@.subrange(
            0,
            DATA_SERVER_HDR_LEN as int,
        ) == data_server_header(nonce),
        ip_packet_plain(payload@).len() + TAG_LEN > MAX_NOISE_MSG_LEN || DATA_SERVER_HDR_LEN
            + ip_packet_plain(payload@).len() + TAG_LEN > old(out)@.len() || nonce == u64::MAX
            ==> r is Err,
        r matches Ok(n) ==> n == DATA_SERVER_HDR_LEN + ip_packet_plain(payload@).len() + TAG_LEN,
        ip_packet_plain(payload@).len() <= MAX_PLAIN_LEN ==> ((r is Ok) <==> (ip_packet_plain(payload@).len()
            + TAG_LEN <= MAX_NOISE_MSG_LEN && DATA_SERVER_HDR_LEN + ip_packet_plain(payload@).len() + TAG_LEN <= old(
            out,
        )@.len() && noise_sealed(*state, nonce, ip_packet_plain(payload@)) is Some)),
        r matches Ok(n) ==> noise_sealed(*state, nonce, ip_packet_plain(payload@)) == Some(
            final(out)@.subrange(DATA_SERVER_HDR_LEN as int, n as int),
        ),
        forall|j: int|
            0 <= j < old(out)@.len() && j >= (match r {
                Ok(n) => n as int,
                Err(CryptoError::PacketTooLarge) => 0,
                Err(_) => DATA_SERVER_HDR_LEN as int,
            }) ==> #[trigger] final(out)@[j] == old(out)@[j],
{
    let plain_len = ip_packet_plain_len(payload.len());
    if plain_len > MAX_PLAIN_LEN {
        return Err(CryptoError::PacketTooLarge);
    }
    let header_len = write_data_server_header(out, nonce);
    let mut plain: Vec<u8> = vec![0u8; plain_len];
    let n = write_ip_packet_plain(plain.as_mut_slice(), payload);
    proof {
        assert(plain@ =~= ip_packet_plain(payload@));
    }
    let ghost mid = out@;
    let (head, body) = out.split_at_mut(header_len);
    let res = noise_write_message(state, nonce, plain.as_slice(), body);
    proof {
        crate::codec::lemma_be_roundtrip(nonce as int, 8);
        assert(head@ == mid.subrange(0, 9));
        assert(out@ == head@ + body@);
        assert(out@.subrange(0, 9) =~= mid.subrange(0, 9));
        assert(out@.subrange(0, 9) == data_server_header(nonce));
        assert forall|j: int| 9 <= j < out@.len() implies out@[j] == body@[j - 9] by {}
    }
    proof {
        if let Ok(written) = res {
            assert(out@.subrange(9, 9 + written) =~= body@.subrange(0, written as int));
        }
    }
    match res {
        Ok(written) => Ok(header_len + written),
        Err(e) => Err(CryptoError::Noise(e)),
    }
}

/// Encodes a raw IP packet as a complete `DataClient` frame into `out`:
/// the fixed header with the session id, then the sealed plaintext frame.
/// Returns the frame length.
pub fn encode_data_client_packet(
    payload: &[u8],
    sid: u32,
    state: &StatelessTransportState,
    nonce: u64,
    out: &mut [u8],
) -> (r: Result<usize, CryptoError>)
    requires
        ip_packet_plain(payload@).len() <= usize::MAX,
        ip_packet_plain(payload@).len() <= MAX_PLAIN_LEN ==> old(out)@.len() >= DATA_CLIENT_HDR_LEN,
    ensures
        final(out)@.len() == old(out)@.len(),
        (r matches Err(CryptoError::PacketTooLarge)) <==> ip_packet_plain(payload@).len()
            > MAX_PLAIN_LEN,
        (r matches Err(CryptoError::PacketTooLarge)) ==> final(out)@ == old(out)@,
        !(r matches Err(CryptoError::MalformedBody)),
        ip_packet_plain(payload@).len() <= MAX_PLAIN_LEN ==> final(out)@.subrange(
            0,
            DATA_CLIENT_HDR_LEN as int,
        ) == data_client_header(sid, nonce),
        ip_packet_plain(payload@).len() + TAG_LEN > MAX_NOISE_MSG_LEN || DATA_CLIENT_HDR_LEN
            + ip_packet_plain(payload@).len() + TAG_LEN > old(out)@.len() || nonce == u64::MAX
            ==> r is Err,
        r matches Ok(n) ==> n == DATA_CLIENT_HDR_LEN + ip_packet_plain(payload@).len() + TAG_LEN,
        ip_packet_plain(payload@).len() <= MAX_PLAIN_LEN ==> ((r is Ok) <==> (ip_packet_plain(payload@).len()
            + TAG_LEN <= MAX_NOISE_MSG_LEN && DATA_CLIENT_HDR_LEN + ip_packet_plain(payload@).len() + TAG_LEN <= old(
            out,
        )@.len() && noise_sealed(*state, nonce, ip_packet_plain(payload@)) is Some)),
        r matches Ok(n) ==> noise_sealed(*state, nonce, ip_packet_plain(payload@)) == Some(
            final(out)@.subrange(DATA_CLIENT_HDR_LEN as int, n as int),
        ),
        forall|j: int|
            0 <= j < old(out)@.len() && j >= (match r {
                Ok(n) => n as int,
                Err(CryptoError::PacketTooLarge) => 0,
                Err(_) => DATA_CLIENT_HDR_LEN as int,
            }) ==> #[trigger] final(out)@[j] == old(out)@[j],
{
    let plain_len = ip_packet_plain_len(payload.len());
    if plain_len > MAX_PLAIN_LEN {
        return Err(CryptoError::PacketTooLarge);
    }
    let header_len = write_data_client_header(out, sid, nonce);
    let mut plain: Vec<u8> = vec![0u8; plain_len];
    let n = write_ip_packet_plain(plain.as_mut_slice(), payload);
    proof {
        assert(plain@ =~= ip_packet_plain(payload@));
    }
    let ghost mid = out@;
    let (head, body) = out.split_at_mut(header_len);
    let res = noise_write_message(state, nonce, plain.as_slice(), body);
    proof {
        crate::codec::lemma_be_roundtrip(sid as int, 4);
        crate::codec::lemma_be_roundtrip(nonce as int, 8);
        assert(head@ == mid.subrange(0, 13));
        assert(out@ == head@ + body@);
        assert(out@.subrange(0, 13) =~= mid.subrange(0, 13));
        assert forall|j: int| 13 <= j < out@.len() implies out@[j] == body@[j - 13] by {}
    }
    proof {
        if let Ok(written) = res {
            assert(out@.subrange(13, 13 + written) =~= body@.subrange(0, written as int));
        }
    }
    match res {
        Ok(written) => Ok(header_len + written),
        Err(e) => Err(CryptoError::Noise(e)),
    }
}

/// What the server does with a body decrypted from a client.
pub enum DataClientActionRef<'p> {
    /// IP packet to forward, borrowed from the plaintext buffer.
    Forward(&'p [u8]),
    /// Keepalive timestamp (microseconds since client process start).
    KeepAlive(u128),
    /// The client asks for its tunnel address.
    LeaseRequest,
}

/// What the client does with a body decrypted from the server.
pub enum DataServerActionRef<'p> {
    /// IP packet to forward, borrowed from the plaintext buffer.
    Forward(&'p [u8]),
    /// Keepalive echo timestamp.
    KeepAlive(u128),
    /// Server-initiated disconnect code.
    Disconnect(u8),
    /// The session's tunnel address.
    LeaseGrant(crate::net::IpAddress),
}

impl<'p> DataClientActionRef<'p> {
    pub open spec fn body_view(&self) -> BodyView {
        match self {
            DataClientActionRef::Forward(p) => BodyView::Packet(p@),
            DataClientActionRef::KeepAlive(t) => BodyView::KeepAlive(*t as int),
            DataClientActionRef::LeaseRequest => BodyView::LeaseRequest,
        }
    }
}

impl<'p> DataServerActionRef<'p> {
    pub open spec fn body_view(&self) -> BodyView {
        match self {
            DataServerActionRef::Forward(p) => BodyView::Packet(p@),
            DataServerActionRef::KeepAlive(t) => BodyView::KeepAlive(*t as int),
            DataServerActionRef::Disconnect(c) => BodyView::Disconnect(*c),
            DataServerActionRef::LeaseGrant(ip) => BodyView::LeaseGrant(*ip),
        }
    }
}

/// The Noise transport refuses to open `ciphertext` into a buffer of `out_len` bytes
/// whatever the key.
pub open spec fn noise_open_refused(ciphertext_len: int, out_len: int, nonce: u64) -> bool {
    ciphertext_len > MAX_NOISE_MSG_LEN || ciphertext_len < TAG_LEN || out_len + TAG_LEN
        < ciphertext_len || nonce == u64::MAX
}

/// What opening `ciphertext` under `nonce` into a buffer of `out_len` bytes
/// yields: the plaintext, or `None` when the open fails.
pub open spec fn open_result(
    state: StatelessTransportState,
    nonce: u64,
    ciphertext: Seq<u8>,
    out_len: int,
) -> Option<Seq<u8>> {
    if noise_open_refused(ciphertext.len() as int, out_len, nonce) || !noise_open_fits(
        ciphertext.len() as int,
        out_len,
    ) {
        None
    } else {
        noise_opened(state, nonce, ciphertext)
    }
}

/// Opens `ciphertext`, sealed under `nonce`, into the start of `plain`;
/// returns the plaintext length.
pub fn noise_open(
    ciphertext: &[u8],
    state: &StatelessTransportState,
    plain: &mut [u8],
    nonce: u64,
) -> (r: Result<usize, CryptoError>)
    ensures
        final(plain)@.len() == old(plain)@.len(),
        noise_open_refused(ciphertext@.len() as int, old(plain)@.len() as int, nonce) ==> (r matches Err(
            CryptoError::Noise(_),
        )),
        r matches Err(e) ==> e is Noise,
        noise_open_fits(ciphertext@.len() as int, old(plain)@.len() as int) ==> ((r is Ok) <==> noise_opened(
            *state,
            nonce,
            ciphertext@,
        ) is Some),
        r matches Ok(n) ==> n + TAG_LEN == ciphertext@.len() && n <= old(plain)@.len() && noise_opened(
            *state,
            nonce,
            ciphertext@,
        ) == Some(final(plain)@.subrange(0, n as int)),
        (r is Ok) <==> open_result(*state, nonce, ciphertext@, old(plain)@.len() as int) is Some,
        r matches Ok(n) ==> open_result(*state, nonce, ciphertext@, old(plain)@.len() as int) == Some(
            final(plain)@.subrange(0, n as int),
        ),
        forall|j: int|
            0 <= j < old(plain)@.len() && j + TAG_LEN >= ciphertext@.len()
                ==> #[trigger] final(plain)@[j] == old(plain)@[j],
{
    match noise_read_message(state, nonce, ciphertext, plain) {
        Ok(n) => Ok(n),
        Err(e) => Err(CryptoError::Noise(e)),
    }
}

/// Decrypts a client body from `ciphertext` directly into `plain` and says what
/// to do with it; a forwarded packet borrows `plain`.
pub fn noise_decrypt_data_client_into<'p>(
    ciphertext: &[u8],
    state: &StatelessTransportState,
    plain: &'p mut [u8],
    nonce: u64,
) -> (r: Result<DataClientActionRef<'p>, CryptoError>)
    ensures
        final(plain)@.len() == old(plain)@.len(),
        noise_open_refused(ciphertext@.len() as int, old(plain)@.len() as int, nonce) ==> (r matches Err(
            CryptoError::Noise(_),
        )),
        !(r matches Err(CryptoError::PacketTooLarge)),
        r matches Ok(a) ==> ciphertext@.len() >= TAG_LEN && parse_body(
            final(plain)@.subrange(0, ciphertext@.len() - TAG_LEN),
            false,
        ) == Some(a.body_view()),
        (r matches Err(CryptoError::MalformedBody)) ==> ciphertext@.len() >= TAG_LEN && parse_body(
            final(plain)@.subrange(0, ciphertext@.len() - TAG_LEN),
            false,
        ) is None,
        r matches Err(e) ==> e is Noise || e is MalformedBody,
        (r matches Err(CryptoError::Noise(_))) <==> (noise_open_refused(
            ciphertext@.len() as int,
            old(plain)@.len() as int,
            nonce,
        ) || !noise_open_fits(ciphertext@.len() as int, old(plain)@.len() as int) || noise_opened(
            *state,
            nonce,
            ciphertext@,
        ) is None),
        !(r matches Err(CryptoError::Noise(_))) ==> noise_opened(*state, nonce, ciphertext@) == Some(
            final(plain)@.subrange(0, ciphertext@.len() - TAG_LEN),
        ),
        forall|j: int|
            0 <= j < old(plain)@.len() && j + TAG_LEN >= ciphertext@.len()
                ==> #[trigger] final(plain)@[j] == old(plain)@[j],
{
    let len = match noise_open(ciphertext, state, plain, nonce) {
        Ok(n) => n,
        Err(e) => {
            return Err(e);
        },
    };
    let opened: &'p [u8] = plain;
    match DataClientBodyRef::from_plain_buf(&opened[0..len]) {
        None => Err(CryptoError::MalformedBody),
        Some(DataClientBodyRef::Packet(data)) => Ok(DataClientActionRef::Forward(data)),
        Some(DataClientBodyRef::KeepAlive(ts)) => Ok(DataClientActionRef::KeepAlive(ts)),
        Some(DataClientBodyRef::LeaseRequest) => Ok(DataClientActionRef::LeaseRequest),
    }
}

/// Decrypts a server body from `ciphertext` directly into `plain` and says what
/// to do with it; a forwarded packet borrows `plain`.
pub fn noise_decrypt_data_server_into<'p>(
    ciphertext: &[u8],
    state: &StatelessTransportState,
    plain: &'p mut [u8],
    nonce: u64,
) -> (r: Result<DataServerActionRef<'p>, CryptoError>)
    ensures
        final(plain)@.len() == old(plain)@.len(),
        noise_open_refused(ciphertext@.len() as int, old(plain)@.len() as int, nonce) ==> (r matches Err(
            CryptoError::Noise(_),
        )),
        !(r matches Err(CryptoError::PacketTooLarge)),
        r matches Ok(a) ==> ciphertext@.len() >= TAG_LEN && parse_body(
            final(plain)@.subrange(0, ciphertext@.len() - TAG_LEN),
            true,
        ) == Some(a.body_view()),
        (r matches Err(CryptoError::MalformedBody)) ==> ciphertext@.len() >= TAG_LEN && parse_body(
            final(plain)@.subrange(0, ciphertext@.len() - TAG_LEN),
            true,
        ) is None,
        r matches Err(e) ==> e is Noise || e is MalformedBody,
        (r matches Err(CryptoError::Noise(_))) <==> (noise_open_refused(
            ciphertext@.len() as int,
            old(plain)@.len() as int,
            nonce,
        ) || !noise_open_fits(ciphertext@.len() as int, old(plain)@.len() as int) || noise_opened(
            *state,
            nonce,
            ciphertext@,
        ) is None),
        !(r matches Err(CryptoError::Noise(_))) ==> noise_opened(*state, nonce, ciphertext@) == Some(
            final(plain)@.subrange(0, ciphertext@.len() - TAG_LEN),
        ),
        forall|j: int|
            0 <= j < old(plain)@.len() && j + TAG_LEN >= ciphertext@.len()
                ==> #[trigger] final(plain)@[j] == old(plain)@[j],
{
    let len = match noise_open(ciphertext, state, plain, nonce) {
        Ok(n) => n,
        Err(e) => {
            return Err(e);
        },
    };
    let opened: &'p [u8] = plain;
    match DataServerBodyRef::from_plain_buf(&opened[0..len]) {
        None => Err(CryptoError::MalformedBody),
        Some(DataServerBodyRef::Packet(data)) => Ok(DataServerActionRef::Forward(data)),
        Some(DataServerBodyRef::KeepAlive(ts)) => Ok(DataServerActionRef::KeepAlive(ts)),
        Some(DataServerBodyRef::Disconnect(code)) => Ok(DataServerActionRef::Disconnect(code)),
        Some(DataServerBodyRef::LeaseGrant(ip)) => Ok(DataServerActionRef::LeaseGrant(ip)),
    }
}

/// The plaintext frame of an IP packet is the encoding of a `Packet` body, so
/// the receiving side parses the same packet back out of it.
pub proof fn lemma_ip_packet_plain_roundtrip(p: Seq<u8>, server: bool)
    requires
        p.len() < 0x1_0000_0000_0000_0000,
    ensures
        ip_packet_plain(p) == body_bytes(BodyView::Packet(p)),
        parse_body(ip_packet_plain(p), server) == Some(BodyView::Packet(p)),
{
    assert(varint_bytes(0) == seq![0u8]);
    assert(ip_packet_plain(p) =~= body_bytes(BodyView::Packet(p)));
    crate::packet::lemma_body_roundtrip(BodyView::Packet(p), server, Seq::empty());
    assert(body_bytes(BodyView::Packet(p)) + Seq::<u8>::empty() =~= body_bytes(BodyView::Packet(p)));
}

} // verus!
