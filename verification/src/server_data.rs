//! The server's per-packet work: what it does with a datagram from a client,
//! how it answers a keepalive, and how it seals a packet from its tunnel
//! device for the client that owns the destination address.

use vstd::prelude::*;

use crate::crypto::{
    data_server_header, encode_data_server_frame, encode_data_server_packet, ip_packet_plain,
    noise_encrypt, noise_open, noise_sealed, open_result, CryptoError, DATA_SERVER_HDR_LEN,
    MAX_NOISE_MSG_LEN, MAX_PLAIN_LEN, TAG_LEN,
};
use crate::net::{destination_of, parse_destination, DestinationError, IpAddress, SocketAddress};
use crate::packet::{
    body_bytes, locate_body, parse_body, parse_data_frame, parse_data_frame_spec, BodyRange, BodyView,
    DataFrameRef, DataFrameView, DataServerBody,
};
use crate::replay::window_step;
use crate::session::SessionId;
use crate::sessions::{ip_in_use, ip_key, sessions_wf, touched, Sessions, SessionsView};

verus! {

/// What the server does with one datagram from a client.
pub enum ClientDatagram {
    /// Empty, or filling the receive buffer: dropped.
    BadSize,
    /// Not a `DataClient` frame: left to the handshake and control handlers.
    NotData,
    /// No session has this id: dropped.
    UnknownSession(SessionId),
    /// The nonce was replayed or fell behind the window: dropped undecrypted.
    Replayed(SessionId),
    /// Decryption or body parsing failed: dropped.
    Undecryptable(SessionId, CryptoError),
    /// An IP packet for the tunnel device sits at `plain[start .. start + len]`.
    Forward(SessionId, usize, usize),
    /// A keepalive sent at this timestamp: echo it back.
    KeepAlive(SessionId, u128),
    /// The client asks for its tunnel address.
    LeaseRequest(SessionId),
}

/// The session table after the receive path heard from `sid` at `now`.
pub open spec fn heard_from(v: SessionsView, sid: SessionId, now: u64, track_idle: bool) -> SessionsView {
    if track_idle {
        touched(v, sid, now)
    } else {
        v
    }
}

/// Handles one datagram of `n` bytes at the start of `buf`, received from
/// `from` at `now`: size check, framing, session lookup, last-seen update
/// (unless `track_idle` is off), in-order replay check, decryption into
/// `plain`, and the client's new address when it roamed.
pub fn receive_from_client(
    sessions: &mut Sessions,
    buf: &[u8],
    n: usize,
    from: SocketAddress,
    now: u64,
    track_idle: bool,
    plain: &mut [u8],
) -> (r: ClientDatagram)
    requires
        sessions_wf(old(sessions)@),
        n <= buf@.len(),
    ensures
        sessions_wf(final(sessions)@),
        final(sessions)@.ids == old(sessions)@.ids,
        final(sessions)@.ips == old(sessions)@.ips,
        final(sessions)@.by_ip == old(sessions)@.by_ip,
        final(sessions)@.queue == old(sessions)@.queue,
        final(sessions)@.sessions.dom() == old(sessions)@.sessions.dom(),
        r is BadSize <==> !(0 < n < buf@.len()),
        r is BadSize ==> final(sessions)@ == old(sessions)@,
        0 < n < buf@.len() ==> match parse_data_frame_spec(buf@.subrange(0, n as int)) {
            Some(DataFrameView::DataClient { sid, nonce, ciphertext }) => {
                let sid = sid as SessionId;
                let o = old(sessions)@;
                if !o.sessions.contains_key(sid) {
                    r == ClientDatagram::UnknownSession(sid) && final(sessions)@ == o
                } else {
                    let h = heard_from(o, sid, now, track_idle);
                    let (accepted, w) = window_step(h.sessions[sid].recv_window@, nonce);
                    let s = final(sessions)@.sessions[sid];
                    &&& s.recv_window@ == w
                    &&& s.id == sid
                    &&& s.last_seen == h.sessions[sid].last_seen
                    &&& s.holy_ip == o.sessions[sid].holy_ip
                    &&& s.state == o.sessions[sid].state
                    &&& s.send_nonce == o.sessions[sid].send_nonce
                    &&& (!accepted <==> r == ClientDatagram::Replayed(sid))
                    &&& (r matches ClientDatagram::Forward(x, start, len) ==> x == sid && start + len
                        <= final(plain)@.len() && ciphertext.len() >= TAG_LEN && parse_body(
                        final(plain)@.subrange(0, ciphertext.len() - TAG_LEN),
                        false,
                    ) == Some(BodyView::Packet(final(plain)@.subrange(start as int, start + len)))
                        && s.addr() == from)
                    &&& (r matches ClientDatagram::LeaseRequest(x) ==> x == sid && ciphertext.len() >= TAG_LEN
                        && parse_body(final(plain)@.subrange(0, ciphertext.len() - TAG_LEN), false)
                        == Some(BodyView::LeaseRequest) && s.addr() == from)
                    &&& (r matches ClientDatagram::KeepAlive(x, ts) ==> x == sid && ciphertext.len()
                        >= TAG_LEN && parse_body(
                        final(plain)@.subrange(0, ciphertext.len() - TAG_LEN),
                        false,
                    ) == Some(BodyView::KeepAlive(ts as int)) && s.addr() == from)
                    &&& (r matches ClientDatagram::Undecryptable(x, e) ==> x == sid && ((e matches CryptoError::Noise(_))
                        || ((e matches CryptoError::MalformedBody) && ciphertext.len() >= TAG_LEN && parse_body(
                        final(plain)@.subrange(0, ciphertext.len() - TAG_LEN),
                        false,
                    ) is None)))
                    &&& (!(r is Forward) && !(r is KeepAlive) && !(r is LeaseRequest) ==> s.addr()
                        == h.sessions[sid].addr())
                    &&& forall|x: SessionId| #[trigger]
                        final(sessions)@.sessions.contains_key(x) && x != sid
                            ==> final(sessions)@.sessions[x] == o.sessions[x]
                    &&& (accepted ==> match open_result(o.sessions[sid].state, nonce as u64, ciphertext, old(plain)@.len() as int) {
                        None => r matches ClientDatagram::Undecryptable(_, CryptoError::Noise(_)),
                        Some(p) => final(plain)@.subrange(0, p.len() as int) == p && match parse_body(p, false) {
                            Some(BodyView::Packet(q)) => r matches ClientDatagram::Forward(_, start, len)
                                && final(plain)@.subrange(start as int, start + len) == q,
                            Some(BodyView::KeepAlive(t)) => r == ClientDatagram::KeepAlive(sid, t as u128),
                            Some(BodyView::LeaseRequest) => r == ClientDatagram::LeaseRequest(sid),
                            _ => r matches ClientDatagram::Undecryptable(_, CryptoError::MalformedBody),
                        },
                    })
                    &&& !(r is NotData) && !(r is BadSize) && !(r is UnknownSession)
                }
            },
            _ => r is NotData && final(sessions)@ == old(sessions)@,
        },
{
    if !crate::pipeline::datagram_size_ok(n, buf.len()) {
        return ClientDatagram::BadSize;
    }
    let frame = &buf[0..n];
    assert(frame@ == buf@.subrange(0, n as int));
    let (sid, nonce, ciphertext) = match parse_data_frame(frame) {
        Some(DataFrameRef::DataClient { sid, nonce, ciphertext }) => (sid, nonce, ciphertext),
        _ => {
            return ClientDatagram::NotData;
        },
    };
    if !sessions.is_sid_allocated(sid) {
        return ClientDatagram::UnknownSession(sid);
    }
    if track_idle {
        sessions.touch(sid, now);
    }
    let ghost h = sessions@;
    let accepted = match sessions.accept_nonce(sid, nonce) {
        Some(ok) => ok,
        None => false,
    };
    if !accepted {
        return ClientDatagram::Replayed(sid);
    }
    let ghost a = sessions@;
    let (opened, roamed) = match sessions.get_by_sid(sid) {
        None => {
            return ClientDatagram::UnknownSession(sid);
        },
        Some(session) => {
            let res = noise_open(ciphertext, &session.state, plain, nonce);
            (res, session.sock_addr() != from)
        },
    };
    let len = match opened {
        Err(e) => {
            return ClientDatagram::Undecryptable(sid, e);
        },
        Ok(len) => len,
    };
    let body = &plain[0..len];
    assert(body@ == plain@.subrange(0, ciphertext@.len() - TAG_LEN));
    let outcome = match locate_body(body, false) {
        None => {
            return ClientDatagram::Undecryptable(sid, CryptoError::MalformedBody);
        },
        Some(BodyRange::Packet(start, end)) => {
            assert(body@.subrange(start as int, end as int) =~= plain@.subrange(
                start as int,
                end as int,
            ));
            ClientDatagram::Forward(sid, start, end - start)
        },
        Some(BodyRange::KeepAlive(ts)) => ClientDatagram::KeepAlive(sid, ts),
        Some(BodyRange::LeaseRequest) => ClientDatagram::LeaseRequest(sid),
        Some(BodyRange::Disconnect(_)) => {
            return ClientDatagram::Undecryptable(sid, CryptoError::MalformedBody);
        },
        Some(BodyRange::LeaseGrant(_)) => {
            return ClientDatagram::Undecryptable(sid, CryptoError::MalformedBody);
        },
    };
    if roamed {
        sessions.update_sock_addr(sid, from);
    }
    outcome
}

/// Disconnect code sent when no tunnel address can be leased.
pub const LEASE_UNAVAILABLE: u8 = 1;

/// The answer to a client's lease request: the session's tunnel address, or
/// a disconnect when the session is gone.
pub fn lease_reply(sessions: &Sessions, sid: SessionId) -> (r: DataServerBody)
    ensures
        lease_reply_for(sessions@, sid, r),
{
    match sessions.get_by_sid(sid) {
        Some(session) => DataServerBody::LeaseGrant(session.holy_ip),
        None => DataServerBody::Disconnect(LEASE_UNAVAILABLE),
    }
}

/// `r` is the lease answer for `sid` in the table `v`.
pub open spec fn lease_reply_for(v: SessionsView, sid: SessionId, r: DataServerBody) -> bool {
    if v.sessions.contains_key(sid) {
        r.body_view() == BodyView::LeaseGrant(v.sessions[sid].holy_ip)
    } else {
        r.body_view() == BodyView::Disconnect(LEASE_UNAVAILABLE)
    }
}

/// Encodes the answer to a lease request of session `sid` as a complete
/// `DataServer` frame into `out`, sealed with that session's next nonce.
pub fn encode_lease_reply(sessions: &mut Sessions, sid: SessionId, out: &mut [u8]) -> (r: Result<
    usize,
    CryptoError,
>)
    requires
        sessions_wf(old(sessions)@),
        old(sessions)@.sessions.contains_key(sid),
        old(out)@.len() >= DATA_SERVER_HDR_LEN + MAX_PLAIN_LEN + TAG_LEN,
    ensures
        sessions_wf(final(sessions)@),
        final(sessions)@.sessions.dom() == old(sessions)@.sessions.dom(),
        final(sessions)@.sessions[sid] == (crate::session::Session {
            send_nonce: ((old(sessions)@.sessions[sid].send_nonce + 1) % 0x1_0000_0000_0000_0000int) as u64,
            ..old(sessions)@.sessions[sid]
        }),
        forall|x: SessionId| #[trigger]
            final(sessions)@.sessions.contains_key(x) && x != sid ==> final(sessions)@.sessions[x]
                == old(sessions)@.sessions[x],
        !(r matches Err(CryptoError::PacketTooLarge)),
        !(r matches Err(CryptoError::MalformedBody)),
        (r is Ok) <==> noise_sealed(
            old(sessions)@.sessions[sid].state,
            old(sessions)@.sessions[sid].send_nonce,
            body_bytes(BodyView::LeaseGrant(old(sessions)@.sessions[sid].holy_ip)),
        ) is Some,
        r matches Ok(n) ==> n == DATA_SERVER_HDR_LEN + body_bytes(
            BodyView::LeaseGrant(old(sessions)@.sessions[sid].holy_ip),
        ).len() + TAG_LEN && final(out)@.subrange(0, DATA_SERVER_HDR_LEN as int) == data_server_header(
            old(sessions)@.sessions[sid].send_nonce,
        ) && noise_sealed(
            old(sessions)@.sessions[sid].state,
            old(sessions)@.sessions[sid].send_nonce,
            body_bytes(BodyView::LeaseGrant(old(sessions)@.sessions[sid].holy_ip)),
        ) == Some(final(out)@.subrange(DATA_SERVER_HDR_LEN as int, n as int)),
        r is Err ==> final(out)@ == old(out)@,
{
    let body = lease_reply(sessions, sid);
    let nonce = match sessions.take_send_nonce(sid) {
        Some(n) => n,
        None => {
            return Err(CryptoError::MalformedBody);
        },
    };
    proof {
        crate::packet::lemma_ip_bytes_len(old(sessions)@.sessions[sid].holy_ip);
        crate::codec::lemma_varint_roundtrip(3, Seq::empty());
    }
    let sealed = match sessions.get_by_sid(sid) {
        Some(session) => noise_encrypt(&body, &session.state, nonce),
        None => {
            return Err(CryptoError::MalformedBody);
        },
    };
    match sealed {
        Err(e) => Err(e),
        Ok(cipher) => {
            let n = encode_data_server_frame(nonce, cipher.as_slice(), out);
            proof {
                crate::codec::lemma_be_roundtrip(nonce as int, 8);
                assert((data_server_header(nonce) + cipher@).subrange(0, 9) =~= data_server_header(nonce));
                assert(out@.subrange(9, n as int) =~= (data_server_header(nonce) + cipher@).subrange(9, n as int));
                assert((data_server_header(nonce) + cipher@).subrange(9, n as int) =~= cipher@);
            }
            Ok(n)
        },
    }
}

/// Encodes the echo of a client's keepalive sent at `ts` as a complete
/// `DataServer` frame into `out`, sealed with session `sid`'s next nonce.
pub fn encode_keepalive_echo(sessions: &mut Sessions, sid: SessionId, ts: u128, out: &mut [u8]) -> (r:
    Result<usize, CryptoError>)
    requires
        sessions_wf(old(sessions)@),
        old(sessions)@.sessions.contains_key(sid),
        old(out)@.len() >= DATA_SERVER_HDR_LEN + MAX_PLAIN_LEN + TAG_LEN,
    ensures
        sessions_wf(final(sessions)@),
        final(sessions)@.sessions.dom() == old(sessions)@.sessions.dom(),
        final(sessions)@.sessions[sid] == (crate::session::Session {
            send_nonce: ((old(sessions)@.sessions[sid].send_nonce + 1) % 0x1_0000_0000_0000_0000int) as u64,
            ..old(sessions)@.sessions[sid]
        }),
        forall|x: SessionId| #[trigger]
            final(sessions)@.sessions.contains_key(x) && x != sid ==> final(sessions)@.sessions[x]
                == old(sessions)@.sessions[x],
        !(r matches Err(CryptoError::PacketTooLarge)),
        !(r matches Err(CryptoError::MalformedBody)),
        old(sessions)@.sessions[sid].send_nonce == u64::MAX ==> r is Err,
        (r is Ok) <==> noise_sealed(
            old(sessions)@.sessions[sid].state,
            old(sessions)@.sessions[sid].send_nonce,
            body_bytes(BodyView::KeepAlive(ts as int)),
        ) is Some,
        r matches Ok(n) ==> noise_sealed(
            old(sessions)@.sessions[sid].state,
            old(sessions)@.sessions[sid].send_nonce,
            body_bytes(BodyView::KeepAlive(ts as int)),
        ) == Some(final(out)@.subrange(DATA_SERVER_HDR_LEN as int, n as int)),
        r matches Ok(n) ==> n == DATA_SERVER_HDR_LEN + body_bytes(BodyView::KeepAlive(ts as int)).len()
            + TAG_LEN && final(out)@.subrange(0, DATA_SERVER_HDR_LEN as int) == data_server_header(
            old(sessions)@.sessions[sid].send_nonce,
        ),
        r is Err ==> final(out)@ == old(out)@,
{
    let nonce = match sessions.take_send_nonce(sid) {
        Some(n) => n,
        None => {
            return Err(CryptoError::MalformedBody);
        },
    };
    let body = DataServerBody::KeepAlive(ts);
    proof {
        crate::codec::lemma_varint_roundtrip(ts as int, Seq::empty());
        crate::codec::lemma_varint_roundtrip(1, Seq::empty());
    }
    let sealed = match sessions.get_by_sid(sid) {
        Some(session) => noise_encrypt(&body, &session.state, nonce),
        None => {
            return Err(CryptoError::MalformedBody);
        },
    };
    match sealed {
        Err(e) => Err(e),
        Ok(cipher) => {
            let n = encode_data_server_frame(nonce, cipher.as_slice(), out);
            proof {
                crate::codec::lemma_be_roundtrip(nonce as int, 8);
                assert((data_server_header(nonce) + cipher@).subrange(0, 9) =~= data_server_header(nonce));
                assert(out@.subrange(9, n as int) =~= (data_server_header(nonce) + cipher@).subrange(9, n as int));
                assert((data_server_header(nonce) + cipher@).subrange(9, n as int) =~= cipher@);
            }
            Ok(n)
        },
    }
}

/// What the server does with one packet read from its tunnel device.
pub enum DevicePacket {
    /// The destination could not be read.
    NoDestination(DestinationError),
    /// No session has the destination address.
    NoSession(IpAddress),
    /// Sealing failed.
    Unsealable(SessionId, CryptoError),
    /// Send the first `n` bytes of the output buffer to this address.
    Send(usize, SocketAddress),
}

/// Seals one IP packet read from the tunnel device for the client whose
/// tunnel address is its destination, with that session's next nonce.
pub fn encode_for_client(sessions: &mut Sessions, packet: &[u8], out: &mut [u8]) -> (r: DevicePacket)
    requires
        sessions_wf(old(sessions)@),
        ip_packet_plain(packet@).len() <= usize::MAX,
        old(out)@.len() >= DATA_SERVER_HDR_LEN,
    ensures
        sessions_wf(final(sessions)@),
        final(sessions)@.sessions.dom() == old(sessions)@.sessions.dom(),
        match destination_of(packet@) {
            Err(e) => r == DevicePacket::NoDestination(e) && final(sessions)@ == old(sessions)@,
            Ok(ip) => if !ip_in_use(old(sessions)@, ip) {
                r == DevicePacket::NoSession(ip) && final(sessions)@ == old(sessions)@
            } else {
                let o = old(sessions)@;
                let sid = o.by_ip[ip_key(ip)];
                let s = o.sessions[sid];
                &&& final(sessions)@.sessions[sid] == (crate::session::Session {
                    send_nonce: ((s.send_nonce + 1) % 0x1_0000_0000_0000_0000int) as u64,
                    ..s
                })
                &&& forall|x: SessionId| #[trigger]
                    final(sessions)@.sessions.contains_key(x) && x != sid
                        ==> final(sessions)@.sessions[x] == o.sessions[x]
                &&& ip_packet_plain(packet@).len() > MAX_PLAIN_LEN ==> r == DevicePacket::Unsealable(
                    sid,
                    CryptoError::PacketTooLarge,
                )
                &&& (r matches DevicePacket::Unsealable(x, e) ==> x == sid && !(e matches CryptoError::MalformedBody)
                    && ((e matches CryptoError::PacketTooLarge) <==> ip_packet_plain(packet@).len() > MAX_PLAIN_LEN))
                &&& (r matches DevicePacket::Send(n, to) ==> to == s.addr() && n
                    == DATA_SERVER_HDR_LEN + ip_packet_plain(packet@).len() + TAG_LEN
                    && final(out)@.subrange(0, DATA_SERVER_HDR_LEN as int) == data_server_header(s.send_nonce))
                &&& (r matches DevicePacket::Send(n, _) ==> noise_sealed(s.state, s.send_nonce, ip_packet_plain(packet@))
                    == Some(final(out)@.subrange(DATA_SERVER_HDR_LEN as int, n as int)))
                &&& (ip_packet_plain(packet@).len() <= MAX_PLAIN_LEN ==> ((r is Send) <==> (
                ip_packet_plain(packet@).len() + TAG_LEN <= MAX_NOISE_MSG_LEN && DATA_SERVER_HDR_LEN
                    + ip_packet_plain(packet@).len() + TAG_LEN <= old(out)@.len() && noise_sealed(
                    s.state,
                    s.send_nonce,
                    ip_packet_plain(packet@),
                ) is Some)))
                &&& (r is Send || r is Unsealable)
            },
        },
{
    let ip = match parse_destination(packet) {
        Err(e) => {
            return DevicePacket::NoDestination(e);
        },
        Ok(ip) => ip,
    };
    let sid = match sessions.get_by_holy_ip(&ip) {
        None => {
            return DevicePacket::NoSession(ip);
        },
        Some(session) => session.id,
    };
    let nonce = match sessions.take_send_nonce(sid) {
        Some(n) => n,
        None => {
            return DevicePacket::NoSession(ip);
        },
    };
    match sessions.get_by_sid(sid) {
        None => DevicePacket::NoSession(ip),
        Some(session) => match encode_data_server_packet(packet, &session.state, nonce, out) {
            Err(e) => DevicePacket::Unsealable(sid, e),
            Ok(n) => DevicePacket::Send(n, session.sock_addr()),
        },
    }
}

/// What a decrypt worker of the receive pool makes of one datagram from a
/// client; the replay check is left to the in-order writer.
pub enum PooledDatagram {
    /// Empty, or filling the receive buffer: dropped.
    BadSize,
    /// Not a `DataClient` frame: left to the handshake and control handlers.
    NotData,
    /// No session has this id: dropped.
    UnknownSession(SessionId),
    /// Decryption or body parsing failed: dropped.
    Undecryptable(SessionId, CryptoError),
    /// Sealed under this nonce, an IP packet sits at `plain[start .. start + len]`.
    Forward(SessionId, u64, usize, usize),
    /// A keepalive sent at this timestamp: echo it back.
    KeepAlive(SessionId, u128),
    /// The client asks for its tunnel address.
    LeaseRequest(SessionId),
}

/// Handles one datagram of `n` bytes at the start of `buf`, received from
/// `from` at `now`, without a replay check: size check, framing, session
/// lookup, last-seen update (unless `track_idle` is off), decryption into
/// `plain`, and the client's new address when it roamed.
pub fn open_from_client(
    sessions: &mut Sessions,
    buf: &[u8],
    n: usize,
    from: SocketAddress,
    now: u64,
    track_idle: bool,
    plain: &mut [u8],
) -> (r: PooledDatagram)
    requires
        sessions_wf(old(sessions)@),
        n <= buf@.len(),
    ensures
        sessions_wf(final(sessions)@),
        final(sessions)@.ids == old(sessions)@.ids,
        final(sessions)@.ips == old(sessions)@.ips,
        final(sessions)@.by_ip == old(sessions)@.by_ip,
        final(sessions)@.queue == old(sessions)@.queue,
        final(sessions)@.sessions.dom() == old(sessions)@.sessions.dom(),
        r is BadSize <==> !(0 < n < buf@.len()),
        r is BadSize ==> final(sessions)@ == old(sessions)@,
        0 < n < buf@.len() ==> match parse_data_frame_spec(buf@.subrange(0, n as int)) {
            Some(DataFrameView::DataClient { sid, nonce, ciphertext }) => {
                let sid = sid as SessionId;
                let o = old(sessions)@;
                if !o.sessions.contains_key(sid) {
                    r == PooledDatagram::UnknownSession(sid) && final(sessions)@ == o
                } else {
                    let h = heard_from(o, sid, now, track_idle);
                    let s = final(sessions)@.sessions[sid];
                    &&& s == (crate::session::Session {
                        is_ipv4: s.is_ipv4,
                        ipv4_data: s.ipv4_data,
                        ipv6_data: s.ipv6_data,
                        ..h.sessions[sid]
                    })
                    &&& (r matches PooledDatagram::Forward(x, nc, start, len) ==> x == sid && nc
                        == nonce && start + len <= final(plain)@.len() && ciphertext.len() >= TAG_LEN
                        && parse_body(final(plain)@.subrange(0, ciphertext.len() - TAG_LEN), false)
                        == Some(BodyView::Packet(final(plain)@.subrange(start as int, start + len)))
                        && s.addr() == from)
                    &&& (r matches PooledDatagram::LeaseRequest(x) ==> x == sid && ciphertext.len() >= TAG_LEN
                        && parse_body(final(plain)@.subrange(0, ciphertext.len() - TAG_LEN), false)
                        == Some(BodyView::LeaseRequest) && s.addr() == from)
                    &&& (r matches PooledDatagram::KeepAlive(x, ts) ==> x == sid && ciphertext.len()
                        >= TAG_LEN && parse_body(
                        final(plain)@.subrange(0, ciphertext.len() - TAG_LEN),
                        false,
                    ) == Some(BodyView::KeepAlive(ts as int)) && s.addr() == from)
                    &&& (r matches PooledDatagram::Undecryptable(x, e) ==> x == sid && ((e matches CryptoError::Noise(_))
                        || ((e matches CryptoError::MalformedBody) && ciphertext.len() >= TAG_LEN && parse_body(
                        final(plain)@.subrange(0, ciphertext.len() - TAG_LEN),
                        false,
                    ) is None)))
                    &&& (!(r is Forward) && !(r is KeepAlive) && !(r is LeaseRequest) ==> s.addr()
                        == h.sessions[sid].addr())
                    &&& forall|x: SessionId| #[trigger]
                        final(sessions)@.sessions.contains_key(x) && x != sid
                            ==> final(sessions)@.sessions[x] == o.sessions[x]
                    &&& (match open_result(o.sessions[sid].state, nonce as u64, ciphertext, old(plain)@.len() as int) {
                        None => r matches PooledDatagram::Undecryptable(_, CryptoError::Noise(_)),
                        Some(p) => final(plain)@.subrange(0, p.len() as int) == p && match parse_body(p, false) {
                            Some(BodyView::Packet(q)) => r matches PooledDatagram::Forward(_, _, start, len)
                                && final(plain)@.subrange(start as int, start + len) == q,
                            Some(BodyView::KeepAlive(t)) => r == PooledDatagram::KeepAlive(sid, t as u128),
                            Some(BodyView::LeaseRequest) => r == PooledDatagram::LeaseRequest(sid),
                            _ => r matches PooledDatagram::Undecryptable(_, CryptoError::MalformedBody),
                        },
                    })
                    &&& !(r is NotData) && !(r is BadSize) && !(r is UnknownSession)
                }
            },
            _ => r is NotData && final(sessions)@ == old(sessions)@,
        },
{
    if !crate::pipeline::datagram_size_ok(n, buf.len()) {
        return PooledDatagram::BadSize;
    }
    let frame = &buf[0..n];
    assert(frame@ == buf@.subrange(0, n as int));
    let (sid, nonce, ciphertext) = match parse_data_frame(frame) {
        Some(DataFrameRef::DataClient { sid, nonce, ciphertext }) => (sid, nonce, ciphertext),
        _ => {
            return PooledDatagram::NotData;
        },
    };
    if !sessions.is_sid_allocated(sid) {
        return PooledDatagram::UnknownSession(sid);
    }
    if track_idle {
        sessions.touch(sid, now);
    }
    let (opened, roamed) = match sessions.get_by_sid(sid) {
        None => {
            return PooledDatagram::UnknownSession(sid);
        },
        Some(session) => {
            let res = noise_open(ciphertext, &session.state, plain, nonce);
            (res, session.sock_addr() != from)
        },
    };
    let len = match opened {
        Err(e) => {
            return PooledDatagram::Undecryptable(sid, e);
        },
        Ok(len) => len,
    };
    let body = &plain[0..len];
    assert(body@ == plain@.subrange(0, ciphertext@.len() - TAG_LEN));
    let outcome = match locate_body(body, false) {
        None => {
            return PooledDatagram::Undecryptable(sid, CryptoError::MalformedBody);
        },
        Some(BodyRange::Packet(start, end)) => {
            assert(body@.subrange(start as int, end as int) =~= plain@.subrange(
                start as int,
                end as int,
            ));
            PooledDatagram::Forward(sid, nonce, start, end - start)
        },
        Some(BodyRange::KeepAlive(ts)) => PooledDatagram::KeepAlive(sid, ts),
        Some(BodyRange::LeaseRequest) => PooledDatagram::LeaseRequest(sid),
        Some(BodyRange::Disconnect(_)) => {
            return PooledDatagram::Undecryptable(sid, CryptoError::MalformedBody);
        },
        Some(BodyRange::LeaseGrant(_)) => {
            return PooledDatagram::Undecryptable(sid, CryptoError::MalformedBody);
        },
    };
    if roamed {
        sessions.update_sock_addr(sid, from);
    }
    outcome
}

} // verus!
