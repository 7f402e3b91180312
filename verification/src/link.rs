//! The client side of a tunnel: the session it holds once connected, how its
//! tasks follow the runtime state, how the connector reacts to connection
//! attempts, and the per-datagram work of its send and receive paths.

use vstd::prelude::*;

use snow::StatelessTransportState;

use crate::crypto::{
    data_client_header, encode_data_client_frame, encode_data_client_packet, ip_packet_plain,
    noise_encrypt, noise_open, noise_sealed, open_result, CryptoError, DATA_CLIENT_HDR_LEN,
    MAX_NOISE_MSG_LEN, MAX_PLAIN_LEN, TAG_LEN,
};
use crate::net::IpAddress;
use crate::packet::{
    body_bytes, locate_body, parse_body, parse_data_frame, BodyRange, BodyView, DataClientBody,
    DataFrameRef,
};
use crate::replay::{window_step, ReplayWindow, WindowModel};

verus! {

/// 2^64: nonces count modulo this.
pub open spec fn nonce_modulus() -> int {
    0x1_0000_0000_0000_0000
}

/// The per-session state every client task shares once connected.
pub struct ClientSession {
    pub noise: StatelessTransportState,
    /// The nonce the next outgoing packet is sealed with.
    pub send_nonce: u64,
    pub recv_window: ReplayWindow,
}

impl ClientSession {
    /// A session over a finished handshake's transport state: the first
    /// outgoing nonce is 0 and no incoming nonce has been seen.
    pub fn new(noise: StatelessTransportState) -> (s: Self)
        ensures
            s.noise == noise,
            s.send_nonce == 0,
            s.recv_window@ == (WindowModel { initialized: false, last: 0, seen: Set::<int>::empty() }),
    {
        ClientSession { noise, send_nonce: 0, recv_window: ReplayWindow::new() }
    }

    /// Takes the next outgoing nonce; the counter wraps around at 2^64.
    pub fn next_nonce(&mut self) -> (n: u64)
        ensures
            n == old(self).send_nonce,
            final(self).send_nonce == (old(self).send_nonce + 1) % nonce_modulus(),
            final(self).noise == old(self).noise,
            final(self).recv_window == old(self).recv_window,
    {
        let n = self.send_nonce;
        self.send_nonce = if n == u64::MAX {
            0
        } else {
            n + 1
        };
        n
    }
}

/// Nonces handed out by `k` consecutive calls of `next_nonce` from counter `c`:
/// the `i`-th is `(c + i) mod 2^64`, so none repeats while fewer than 2^64
/// have been taken.
pub proof fn lemma_nonces_distinct(c: int, i: int, j: int)
    requires
        0 <= c < nonce_modulus(),
        0 <= i < j < nonce_modulus(),
    ensures
        (c + i) % nonce_modulus() != (c + j) % nonce_modulus(),
{
    let m = nonce_modulus();
    vstd::arithmetic::div_mod::lemma_sub_mod_noop(c + j, c + i, m);
    vstd::arithmetic::div_mod::lemma_small_mod((j - i) as nat, m as nat);
    if (c + i) % m == (c + j) % m {
        vstd::arithmetic::div_mod::lemma_small_mod(0, m as nat);
        assert(((c + j) % m - (c + i) % m) % m == 0int % m);
    }
}

/// The runtime state a client task reacts to.
pub enum LinkEvent<S> {
    /// The runtime is (re)connecting; the session is gone.
    Connecting,
    /// Connected with session id `sid`.
    Connected(u32, S),
    /// The runtime failed for good.
    Failed,
    /// Any other state.
    Other,
}

/// What a client task knows of the connection.
pub struct LinkState<S> {
    pub connected: bool,
    pub sid: u32,
    pub session: Option<S>,
}

impl<S> LinkState<S> {
    /// Not connected yet, session id 0.
    pub fn new() -> (l: Self)
        ensures
            !l.connected,
            l.sid == 0,
            l.session is None,
    {
        LinkState { connected: false, sid: 0, session: None }
    }

    /// Follows a state change; returns `false` when the task must stop.
    pub fn on_state(&mut self, event: LinkEvent<S>) -> (keep_running: bool)
        ensures
            keep_running == !(event is Failed),
            match event {
                LinkEvent::Connecting => !final(self).connected && final(self).session is None
                    && final(self).sid == old(self).sid,
                LinkEvent::Connected(sid, s) => final(self).connected && final(self).sid == sid
                    && final(self).session == Some(s),
                _ => *final(self) == *old(self),
            },
    {
        match event {
            LinkEvent::Failed => false,
            LinkEvent::Connecting => {
                self.connected = false;
                self.session = None;
                true
            },
            LinkEvent::Connected(sid, s) => {
                self.sid = sid;
                self.session = Some(s);
                self.connected = true;
                true
            },
            LinkEvent::Other => true,
        }
    }
}

/// What the connector does on a state change.
#[derive(Clone, Copy, Debug, PartialEq, Eq, Structural)]
pub enum ConnectorStep {
    /// Connect the transport and run the handshake.
    Attempt,
    /// Stop the connector.
    Stop,
    /// Wait for the next state change.
    Wait,
}

/// What the connector does after a connection attempt.
#[derive(Clone, Copy, Debug, PartialEq, Eq, Structural)]
pub enum AttemptFollowUp {
    /// Publish the new session.
    PublishConnected,
    /// Publish the error and stop: the first connection never came up.
    PublishErrorAndStop,
    /// Log, wait the reconnect delay and try again.
    RetryLater,
}

/// The connector's decision after an attempt, and whether it has connected before.
pub open spec fn follow_up(connected_before: bool, succeeded: bool) -> (AttemptFollowUp, bool) {
    if succeeded {
        (AttemptFollowUp::PublishConnected, true)
    } else if connected_before {
        (AttemptFollowUp::RetryLater, true)
    } else {
        (AttemptFollowUp::PublishErrorAndStop, false)
    }
}

/// The connector task's memory: whether a connection ever came up.
pub struct Connector {
    pub connected_before: bool,
}

impl Connector {
    pub fn new() -> (c: Self)
        ensures
            !c.connected_before,
    {
        Connector { connected_before: false }
    }

    /// Reacts to a runtime state change.
    pub fn on_state<S>(&self, event: &LinkEvent<S>) -> (step: ConnectorStep)
        ensures
            step == match event {
                LinkEvent::Connecting => ConnectorStep::Attempt,
                LinkEvent::Failed => ConnectorStep::Stop,
                _ => ConnectorStep::Wait,
            },
    {
        match event {
            LinkEvent::Connecting => ConnectorStep::Attempt,
            LinkEvent::Failed => ConnectorStep::Stop,
            _ => ConnectorStep::Wait,
        }
    }

    /// Reacts to the outcome of a connect-and-handshake attempt.
    pub fn after_attempt(&mut self, succeeded: bool) -> (f: AttemptFollowUp)
        ensures
            (f, final(self).connected_before) == follow_up(old(self).connected_before, succeeded),
            succeeded ==> f == AttemptFollowUp::PublishConnected && final(self).connected_before,
            !succeeded && old(self).connected_before ==> f == AttemptFollowUp::RetryLater
                && final(self).connected_before,
            !succeeded && !old(self).connected_before ==> f == AttemptFollowUp::PublishErrorAndStop
                && !final(self).connected_before,
    {
        if succeeded {
            self.connected_before = true;
            AttemptFollowUp::PublishConnected
        } else if self.connected_before {
            AttemptFollowUp::RetryLater
        } else {
            AttemptFollowUp::PublishErrorAndStop
        }
    }
}

/// A successful attempt is always published, first connection or reconnect,
/// and only a failure before any connection stops the connector.
pub proof fn lemma_success_always_publishes(connected_before: bool, succeeded: bool)
    ensures
        succeeded ==> follow_up(connected_before, succeeded).0 == AttemptFollowUp::PublishConnected,
        follow_up(connected_before, succeeded).0 == AttemptFollowUp::PublishErrorAndStop <==> (
        !succeeded && !connected_before),
        follow_up(connected_before, succeeded).1 == (connected_before || succeeded),
{
}

/// Once a connection has come up, no later failure stops the connector, and it
/// stays marked as having connected.
pub proof fn lemma_connected_never_stops(succeeded: bool)
    ensures
        follow_up(true, succeeded).0 != AttemptFollowUp::PublishErrorAndStop,
        follow_up(true, succeeded).1,
{
}

/// Encodes a keepalive carrying timestamp `ts` as a complete `DataClient`
/// frame into `out`, sealed with the session's next nonce.
pub fn encode_keepalive(session: &mut ClientSession, sid: u32, ts: u128, out: &mut [u8]) -> (r:
    Result<usize, CryptoError>)
    requires
        old(out)@.len() >= DATA_CLIENT_HDR_LEN + MAX_PLAIN_LEN + TAG_LEN,
    ensures
        final(session).send_nonce == (old(session).send_nonce + 1) % nonce_modulus(),
        final(session).noise == old(session).noise,
        final(session).recv_window == old(session).recv_window,
        !(r matches Err(CryptoError::PacketTooLarge)),
        !(r matches Err(CryptoError::MalformedBody)),
        old(session).send_nonce == u64::MAX ==> r is Err,
        (r is Ok) <==> noise_sealed(
            old(session).noise,
            old(session).send_nonce,
            body_bytes(BodyView::KeepAlive(ts as int)),
        ) is Some,
        r matches Ok(n) ==> n == DATA_CLIENT_HDR_LEN + body_bytes(BodyView::KeepAlive(ts as int)).len()
            + TAG_LEN && final(out)@.subrange(0, DATA_CLIENT_HDR_LEN as int) == data_client_header(
            sid,
            old(session).send_nonce as u64,
        ) && noise_sealed(
            old(session).noise,
            old(session).send_nonce,
            body_bytes(BodyView::KeepAlive(ts as int)),
        ) == Some(final(out)@.subrange(DATA_CLIENT_HDR_LEN as int, n as int)),
        r is Err ==> final(out)@ == old(out)@,
{
    let nonce = session.next_nonce();
    let body = DataClientBody::KeepAlive(ts);
    proof {
        crate::codec::lemma_varint_roundtrip(ts as int, Seq::empty());
        crate::codec::lemma_varint_roundtrip(1, Seq::empty());
    }
    match noise_encrypt(&body, &session.noise, nonce) {
        Err(e) => Err(e),
        Ok(cipher) => {
            let n = encode_data_client_frame(sid, nonce, cipher.as_slice(), out);
            proof {
                crate::codec::lemma_be_roundtrip(sid as int, 4);
                crate::codec::lemma_be_roundtrip(nonce as int, 8);
                assert(data_client_header(sid, nonce).len() == 13);
                assert((data_client_header(sid, nonce) + cipher@).subrange(0, 13) =~= data_client_header(sid, nonce));
                assert(out@.subrange(13, n as int) =~= (data_client_header(sid, nonce) + cipher@).subrange(13, n as int));
                assert((data_client_header(sid, nonce) + cipher@).subrange(13, n as int) =~= cipher@);
            }
            Ok(n)
        },
    }
}

/// Encodes a request for the session's tunnel address as a complete
/// `DataClient` frame into `out`, sealed with the session's next nonce.
pub fn encode_lease_request(session: &mut ClientSession, sid: u32, out: &mut [u8]) -> (r: Result<
    usize,
    CryptoError,
>)
    requires
        old(out)@.len() >= DATA_CLIENT_HDR_LEN + MAX_PLAIN_LEN + TAG_LEN,
    ensures
        final(session).send_nonce == (old(session).send_nonce + 1) % nonce_modulus(),
        final(session).noise == old(session).noise,
        final(session).recv_window == old(session).recv_window,
        !(r matches Err(CryptoError::PacketTooLarge)),
        !(r matches Err(CryptoError::MalformedBody)),
        (r is Ok) <==> noise_sealed(
            old(session).noise,
            old(session).send_nonce,
            body_bytes(BodyView::LeaseRequest),
        ) is Some,
        r matches Ok(n) ==> n == DATA_CLIENT_HDR_LEN + body_bytes(BodyView::LeaseRequest).len() + TAG_LEN
            && final(out)@.subrange(0, DATA_CLIENT_HDR_LEN as int) == data_client_header(
            sid,
            old(session).send_nonce as u64,
        ) && noise_sealed(old(session).noise, old(session).send_nonce, body_bytes(BodyView::LeaseRequest))
            == Some(final(out)@.subrange(DATA_CLIENT_HDR_LEN as int, n as int)),
        r is Err ==> final(out)@ == old(out)@,
{
    let nonce = session.next_nonce();
    let body = DataClientBody::LeaseRequest;
    proof {
        crate::codec::lemma_varint_roundtrip(2, Seq::empty());
    }
    match noise_encrypt(&body, &session.noise, nonce) {
        Err(e) => Err(e),
        Ok(cipher) => {
            let n = encode_data_client_frame(sid, nonce, cipher.as_slice(), out);
            proof {
                crate::codec::lemma_be_roundtrip(sid as int, 4);
                crate::codec::lemma_be_roundtrip(nonce as int, 8);
                assert(data_client_header(sid, nonce).len() == 13);
                assert((data_client_header(sid, nonce) + cipher@).subrange(0, 13) =~= data_client_header(sid, nonce));
                assert(out@.subrange(13, n as int) =~= (data_client_header(sid, nonce) + cipher@).subrange(13, n as int));
                assert((data_client_header(sid, nonce) + cipher@).subrange(13, n as int) =~= cipher@);
            }
            Ok(n)
        },
    }
}

/// What the send path does with one packet read from the tunnel device.
pub enum SendOutcome {
    /// Empty packet: nothing is sent and no nonce is used.
    Skip,
    /// Send the first `n` bytes of the output buffer.
    Send(usize),
    /// Encrypting failed; the runtime is put in its error state.
    Fail(CryptoError),
}

/// Seals one IP packet read from the tunnel device as a `DataClient` frame
/// into `out`, with the session's next nonce.
pub fn encode_outgoing(session: &mut ClientSession, sid: u32, payload: &[u8], out: &mut [u8]) -> (r:
    SendOutcome)
    requires
        ip_packet_plain(payload@).len() <= usize::MAX,
        old(out)@.len() >= DATA_CLIENT_HDR_LEN,
    ensures
        payload@.len() == 0 <==> r is Skip,
        r is Skip ==> *final(session) == *old(session) && final(out)@ == old(out)@,
        payload@.len() > 0 ==> final(session).send_nonce == (old(session).send_nonce + 1)
            % nonce_modulus(),
        final(session).noise == old(session).noise,
        final(session).recv_window == old(session).recv_window,
        payload@.len() > 0 && ip_packet_plain(payload@).len() > MAX_PLAIN_LEN ==> (r matches SendOutcome::Fail(
            CryptoError::PacketTooLarge,
        )),
        (r matches SendOutcome::Fail(CryptoError::PacketTooLarge)) ==> ip_packet_plain(payload@).len()
            > MAX_PLAIN_LEN,
        !(r matches SendOutcome::Fail(CryptoError::MalformedBody)),
        r matches SendOutcome::Send(n) ==> n == DATA_CLIENT_HDR_LEN + ip_packet_plain(payload@).len()
            + TAG_LEN && final(out)@.subrange(0, DATA_CLIENT_HDR_LEN as int) == data_client_header(
            sid,
            old(session).send_nonce as u64,
        ) && noise_sealed(old(session).noise, old(session).send_nonce, ip_packet_plain(payload@)) == Some(
            final(out)@.subrange(DATA_CLIENT_HDR_LEN as int, n as int),
        ),
        payload@.len() > 0 && ip_packet_plain(payload@).len() <= MAX_PLAIN_LEN ==> ((r is Send) <==> (
        ip_packet_plain(payload@).len() + TAG_LEN <= MAX_NOISE_MSG_LEN && DATA_CLIENT_HDR_LEN
            + ip_packet_plain(payload@).len() + TAG_LEN <= old(out)@.len() && noise_sealed(
            old(session).noise,
            old(session).send_nonce,
            ip_packet_plain(payload@),
        ) is Some)),
{
    if payload.len() == 0 {
        return SendOutcome::Skip;
    }
    let nonce = session.next_nonce();
    match encode_data_client_packet(payload, sid, &session.noise, nonce, out) {
        Ok(n) => SendOutcome::Send(n),
        Err(e) => SendOutcome::Fail(e),
    }
}

/// What the receive path does with one datagram from the server.
pub enum ReceiveOutcome {
    /// Empty, or filling the receive buffer: dropped.
    BadSize,
    /// Not a `DataServer` frame: left to the handshake or other handlers.
    NotData,
    /// The nonce was replayed or fell behind the window: dropped undecrypted.
    Replayed,
    /// Decryption or body parsing failed: dropped.
    Undecryptable(CryptoError),
    /// An IP packet for the tunnel device sits at `plain[start .. start + len]`.
    Forward(usize, usize),
    /// The server echoed a keepalive sent at this timestamp.
    KeepAlive(u128),
    /// The server asks the client to disconnect with this code; reconnect.
    Disconnect(u8),
    /// The server granted this tunnel address.
    LeaseGrant(IpAddress),
}

/// Handles one datagram of `n` bytes at the start of `buf`, received from the
/// server: size check, framing, in-order replay check, then decryption into
/// `plain`.
pub fn receive_from_server(session: &mut ClientSession, buf: &[u8], n: usize, plain: &mut [u8]) -> (r:
    ReceiveOutcome)
    requires
        n <= buf@.len(),
    ensures
        final(session).noise == old(session).noise,
        final(session).send_nonce == old(session).send_nonce,
        !(0 < n < buf@.len()) ==> r is BadSize,
        r is BadSize ==> !(0 < n < buf@.len()),
        0 < n < buf@.len() ==> match crate::packet::parse_data_frame_spec(buf@.subrange(0, n as int)) {
            Some(crate::packet::DataFrameView::DataServer { nonce, ciphertext }) => {
                let (accepted, w) = window_step(old(session).recv_window@, nonce);
                &&& final(session).recv_window@ == w
                &&& !accepted <==> r is Replayed
                &&& (r matches ReceiveOutcome::Forward(start, len) ==> start + len <= final(plain)@.len()
                    && ciphertext.len() >= TAG_LEN && parse_body(
                    final(plain)@.subrange(0, ciphertext.len() - TAG_LEN),
                    true,
                ) == Some(BodyView::Packet(final(plain)@.subrange(start as int, start + len))))
                &&& (r matches ReceiveOutcome::KeepAlive(ts) ==> ciphertext.len() >= TAG_LEN
                    && parse_body(final(plain)@.subrange(0, ciphertext.len() - TAG_LEN), true)
                    == Some(BodyView::KeepAlive(ts as int)))
                &&& (r matches ReceiveOutcome::Disconnect(c) ==> ciphertext.len() >= TAG_LEN
                    && parse_body(final(plain)@.subrange(0, ciphertext.len() - TAG_LEN), true)
                    == Some(BodyView::Disconnect(c)))
                &&& (r matches ReceiveOutcome::Undecryptable(e) ==> (e matches CryptoError::Noise(_)) || ((e matches CryptoError::MalformedBody)
                    && ciphertext.len() >= TAG_LEN && parse_body(
                    final(plain)@.subrange(0, ciphertext.len() - TAG_LEN),
                    true,
                ) is None))
                &&& (accepted ==> match open_result(old(session).noise, nonce as u64, ciphertext, old(plain)@.len() as int) {
                    None => r matches ReceiveOutcome::Undecryptable(CryptoError::Noise(_)),
                    Some(p) => final(plain)@.subrange(0, p.len() as int) == p && match parse_body(p, true) {
                        None => r matches ReceiveOutcome::Undecryptable(CryptoError::MalformedBody),
                        Some(BodyView::Packet(q)) => r matches ReceiveOutcome::Forward(start, len)
                            && final(plain)@.subrange(start as int, start + len) == q,
                        Some(BodyView::KeepAlive(t)) => r == ReceiveOutcome::KeepAlive(t as u128),
                        Some(BodyView::Disconnect(c)) => r == ReceiveOutcome::Disconnect(c),
                        Some(BodyView::LeaseGrant(ip)) => r == ReceiveOutcome::LeaseGrant(ip),
                        Some(BodyView::LeaseRequest) => r matches ReceiveOutcome::Undecryptable(CryptoError::MalformedBody),
                    },
                })
                &&& !(r is NotData) && !(r is BadSize)
            },
            _ => r is NotData && final(session).recv_window == old(session).recv_window,
        },
        r is BadSize ==> final(session).recv_window == old(session).recv_window,
{
    if !crate::pipeline::datagram_size_ok(n, buf.len()) {
        return ReceiveOutcome::BadSize;
    }
    let frame = &buf[0..n];
    assert(frame@ == buf@.subrange(0, n as int));
    match parse_data_frame(frame) {
        Some(DataFrameRef::DataServer { nonce, ciphertext }) => {
            if !session.recv_window.check_and_update(nonce) {
                return ReceiveOutcome::Replayed;
            }
            let len = match noise_open(ciphertext, &session.noise, plain, nonce) {
                Err(e) => {
                    return ReceiveOutcome::Undecryptable(e);
                },
                Ok(len) => len,
            };
            let opened = &plain[0..len];
            assert(opened@ == plain@.subrange(0, ciphertext@.len() - TAG_LEN));
            match locate_body(opened, true) {
                None => ReceiveOutcome::Undecryptable(CryptoError::MalformedBody),
                Some(BodyRange::Packet(start, end)) => {
                    assert(opened@.subrange(start as int, end as int) =~= plain@.subrange(
                        start as int,
                        end as int,
                    ));
                    ReceiveOutcome::Forward(start, end - start)
                },
                Some(BodyRange::KeepAlive(ts)) => ReceiveOutcome::KeepAlive(ts),
                Some(BodyRange::Disconnect(c)) => ReceiveOutcome::Disconnect(c),
                Some(BodyRange::LeaseGrant(ip)) => ReceiveOutcome::LeaseGrant(ip),
                Some(BodyRange::LeaseRequest) => ReceiveOutcome::Undecryptable(CryptoError::MalformedBody),
            }
        },
        _ => ReceiveOutcome::NotData,
    }
}

/// What a decrypt worker of the receive pool makes of one datagram from the
/// server; the replay check is left to the in-order writer.
pub enum ServerFrame {
    /// Empty, or filling the receive buffer: dropped.
    BadSize,
    /// Not a `DataServer` frame.
    NotData,
    /// Decryption or body parsing failed: dropped.
    Undecryptable(CryptoError),
    /// Sealed under this nonce, an IP packet sits at `plain[start .. start + len]`.
    Forward(u64, usize, usize),
    /// The server echoed a keepalive sent at this timestamp.
    KeepAlive(u128),
    /// The server asks the client to disconnect with this code.
    Disconnect(u8),
    /// The server granted this tunnel address.
    LeaseGrant(IpAddress),
}

/// Handles one datagram of `n` bytes at the start of `buf` from the server
/// without a replay check: size check, framing, decryption into `plain`.
pub fn open_from_server(noise: &StatelessTransportState, buf: &[u8], n: usize, plain: &mut [u8]) -> (r:
    ServerFrame)
    requires
        n <= buf@.len(),
    ensures
        r is BadSize <==> !(0 < n < buf@.len()),
        0 < n < buf@.len() ==> match crate::packet::parse_data_frame_spec(buf@.subrange(0, n as int)) {
            Some(crate::packet::DataFrameView::DataServer { nonce, ciphertext }) => {
                &&& (r matches ServerFrame::Forward(nc, start, len) ==> nc == nonce && start + len
                    <= final(plain)@.len() && ciphertext.len() >= TAG_LEN && parse_body(
                    final(plain)@.subrange(0, ciphertext.len() - TAG_LEN),
                    true,
                ) == Some(BodyView::Packet(final(plain)@.subrange(start as int, start + len))))
                &&& (r matches ServerFrame::KeepAlive(ts) ==> ciphertext.len() >= TAG_LEN
                    && parse_body(final(plain)@.subrange(0, ciphertext.len() - TAG_LEN), true)
                    == Some(BodyView::KeepAlive(ts as int)))
                &&& (r matches ServerFrame::Disconnect(c) ==> ciphertext.len() >= TAG_LEN
                    && parse_body(final(plain)@.subrange(0, ciphertext.len() - TAG_LEN), true)
                    == Some(BodyView::Disconnect(c)))
                &&& (r matches ServerFrame::Undecryptable(e) ==> (e matches CryptoError::Noise(_)) || ((e matches CryptoError::MalformedBody)
                    && ciphertext.len() >= TAG_LEN && parse_body(
                    final(plain)@.subrange(0, ciphertext.len() - TAG_LEN),
                    true,
                ) is None))
                &&& (match open_result(*noise, nonce as u64, ciphertext, old(plain)@.len() as int) {
                    None => r matches ServerFrame::Undecryptable(CryptoError::Noise(_)),
                    Some(p) => final(plain)@.subrange(0, p.len() as int) == p && match parse_body(p, true) {
                        None => r matches ServerFrame::Undecryptable(CryptoError::MalformedBody),
                        Some(BodyView::Packet(q)) => r matches ServerFrame::Forward(nc, start, len)
                            && final(plain)@.subrange(start as int, start + len) == q,
                        Some(BodyView::KeepAlive(t)) => r == ServerFrame::KeepAlive(t as u128),
                        Some(BodyView::Disconnect(c)) => r == ServerFrame::Disconnect(c),
                        Some(BodyView::LeaseGrant(ip)) => r == ServerFrame::LeaseGrant(ip),
                        Some(BodyView::LeaseRequest) => r matches ServerFrame::Undecryptable(CryptoError::MalformedBody),
                    },
                })
                &&& !(r is NotData)
            },
            _ => r is NotData,
        },
{
    if !crate::pipeline::datagram_size_ok(n, buf.len()) {
        return ServerFrame::BadSize;
    }
    let frame = &buf[0..n];
    assert(frame@ == buf@.subrange(0, n as int));
    match parse_data_frame(frame) {
        Some(DataFrameRef::DataServer { nonce, ciphertext }) => {
            let len = match noise_open(ciphertext, noise, plain, nonce) {
                Err(e) => {
                    return ServerFrame::Undecryptable(e);
                },
                Ok(len) => len,
            };
            let opened = &plain[0..len];
            assert(opened@ == plain@.subrange(0, ciphertext@.len() - TAG_LEN));
            match locate_body(opened, true) {
                None => ServerFrame::Undecryptable(CryptoError::MalformedBody),
                Some(BodyRange::Packet(start, end)) => {
                    assert(opened@.subrange(start as int, end as int) =~= plain@.subrange(
                        start as int,
                        end as int,
                    ));
                    ServerFrame::Forward(nonce, start, end - start)
                },
                Some(BodyRange::KeepAlive(ts)) => ServerFrame::KeepAlive(ts),
                Some(BodyRange::Disconnect(c)) => ServerFrame::Disconnect(c),
                Some(BodyRange::LeaseGrant(ip)) => ServerFrame::LeaseGrant(ip),
                Some(BodyRange::LeaseRequest) => ServerFrame::Undecryptable(CryptoError::MalformedBody),
            }
        },
        _ => ServerFrame::NotData,
    }
}

} // verus!
