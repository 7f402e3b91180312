//! Parsing of data frames and of the plaintext bodies they carry, and the
//! encoding of those bodies.
//!
//! A body is a variant number (variable-length integer) followed by its
//! fields: `Packet` (0) carries a length and the IP packet, `KeepAlive` (1) a
//! timestamp, `Disconnect` (2, sent by the server only) one code byte,
//! `LeaseRequest` (2, sent by a client only) nothing, and `LeaseGrant` (3,
//! sent by the server only) a tunnel address: its family (0 for IPv4, 1 for
//! IPv6) and its octets.

use vstd::prelude::*;

use crate::codec::{
    be_value, lemma_be_roundtrip, lemma_pow256_values, lemma_varint_roundtrip, parse_varint,
    read_be_at, read_varint_at, varint_bytes, varint_len, write_be_at, write_varint_at, be_bytes,
};
use crate::net::IpAddress;
use crate::crypto::{
    written_at, data_client_header, data_server_header, DATA_CLIENT_HDR_LEN, DATA_SERVER_HDR_LEN,
    TYPE_DATA_CLIENT, TYPE_DATA_SERVER,
};

verus! {

/// A data frame: its header fields and the ciphertext, borrowed from the datagram.
pub enum DataFrameRef<'a> {
    DataServer { nonce: u64, ciphertext: &'a [u8] },
    DataClient { sid: u32, nonce: u64, ciphertext: &'a [u8] },
}

/// What a data frame holds, as plain values.
pub enum DataFrameView {
    DataServer { nonce: int, ciphertext: Seq<u8> },
    DataClient { sid: int, nonce: int, ciphertext: Seq<u8> },
}

impl<'a> DataFrameRef<'a> {
    pub open spec fn frame_view(&self) -> DataFrameView {
        match self {
            DataFrameRef::DataServer { nonce, ciphertext } => DataFrameView::DataServer {
                nonce: *nonce as int,
                ciphertext: ciphertext@,
            },
            DataFrameRef::DataClient { sid, nonce, ciphertext } => DataFrameView::DataClient {
                sid: *sid as int,
                nonce: *nonce as int,
                ciphertext: ciphertext@,
            },
        }
    }
}

/// The data frame a datagram holds, if it is one.
pub open spec fn parse_data_frame_spec(s: Seq<u8>) -> Option<DataFrameView> {
    if s.len() == 0 {
        None
    } else if s[0] == TYPE_DATA_SERVER && s.len() >= DATA_SERVER_HDR_LEN {
        Some(
            DataFrameView::DataServer {
                nonce: be_value(s.subrange(1, 9)),
                ciphertext: s.subrange(9, s.len() as int),
            },
        )
    } else if s[0] == TYPE_DATA_CLIENT && s.len() >= DATA_CLIENT_HDR_LEN {
        Some(
            DataFrameView::DataClient {
                sid: be_value(s.subrange(1, 5)),
                nonce: be_value(s.subrange(5, 13)),
                ciphertext: s.subrange(13, s.len() as int),
            },
        )
    } else {
        None
    }
}

/// Splits a datagram into data-frame header fields and ciphertext; `None` if it
/// is not a data frame or too short for its header.
pub fn parse_data_frame<'a>(frame: &'a [u8]) -> (r: Option<DataFrameRef<'a>>)
    ensures
        r matches Some(f) ==> parse_data_frame_spec(frame@) == Some(f.frame_view()),
        r is None ==> parse_data_frame_spec(frame@) is None,
{
    let len = frame.len();
    if len == 0 {
        return None;
    }
    if frame[0] == TYPE_DATA_SERVER && len >= DATA_SERVER_HDR_LEN {
        let nonce = read_be_at(frame, 1, 8);
        let ciphertext = &frame[DATA_SERVER_HDR_LEN..len];
        return Some(DataFrameRef::DataServer { nonce, ciphertext });
    }
    if frame[0] == TYPE_DATA_CLIENT && len >= DATA_CLIENT_HDR_LEN {
        let sid = read_be_at(frame, 1, 4);
        let nonce = read_be_at(frame, 5, 8);
        proof {
            crate::codec::lemma_be_value_bound(frame@.subrange(1, 5));
            lemma_pow256_values();
        }
        let ciphertext = &frame[DATA_CLIENT_HDR_LEN..len];
        return Some(DataFrameRef::DataClient { sid: sid as u32, nonce, ciphertext });
    }
    None
}

/// Parsing a `DataServer` frame gives back its nonce and ciphertext.
pub proof fn lemma_data_server_frame_roundtrip(nonce: u64, ciphertext: Seq<u8>)
    ensures
        parse_data_frame_spec(data_server_header(nonce) + ciphertext) == Some(
            DataFrameView::DataServer { nonce: nonce as int, ciphertext },
        ),
{
    lemma_be_roundtrip(nonce as int, 8);
    lemma_pow256_values();
    let s = data_server_header(nonce) + ciphertext;
    assert(s.subrange(1, 9) =~= crate::codec::be_bytes(nonce as int, 8));
    assert(s.subrange(9, s.len() as int) =~= ciphertext);
}

/// Parsing a `DataClient` frame gives back its session id, nonce and ciphertext.
pub proof fn lemma_data_client_frame_roundtrip(sid: u32, nonce: u64, ciphertext: Seq<u8>)
    ensures
        parse_data_frame_spec(data_client_header(sid, nonce) + ciphertext) == Some(
            DataFrameView::DataClient { sid: sid as int, nonce: nonce as int, ciphertext },
        ),
{
    lemma_be_roundtrip(sid as int, 4);
    lemma_be_roundtrip(nonce as int, 8);
    lemma_pow256_values();
    let s = data_client_header(sid, nonce) + ciphertext;
    assert(s.subrange(1, 5) =~= crate::codec::be_bytes(sid as int, 4));
    assert(s.subrange(5, 13) =~= crate::codec::be_bytes(nonce as int, 8));
    assert(s.subrange(13, s.len() as int) =~= ciphertext);
}

/// What a plaintext body holds.
pub enum BodyView {
    Packet(Seq<u8>),
    KeepAlive(int),
    Disconnect(u8),
    LeaseRequest,
    LeaseGrant(IpAddress),
}

/// Variant number of `Packet`.
pub const BODY_PACKET: u8 = 0;

/// Variant number of `KeepAlive`.
pub const BODY_KEEPALIVE: u8 = 1;

/// Variant number of `Disconnect`.
pub const BODY_DISCONNECT: u8 = 2;

/// Variant number of `LeaseRequest` (a client body).
pub const BODY_LEASE_REQUEST: u8 = 2;

/// Variant number of `LeaseGrant` (a server body).
pub const BODY_LEASE_GRANT: u8 = 3;

/// 2^64.
pub open spec fn two_pow_64() -> int {
    0x1_0000_0000_0000_0000
}

/// The encoding of a tunnel address: family, then octets in network order.
pub open spec fn ip_bytes(ip: IpAddress) -> Seq<u8> {
    match ip {
        IpAddress::V4(a) => varint_bytes(0) + be_bytes(a as int, 4),
        IpAddress::V6(a) => varint_bytes(1) + be_bytes(a as int / two_pow_64(), 8) + be_bytes(
            a as int % two_pow_64(),
            8,
        ),
    }
}

/// The tunnel address at the start of `s`.
pub open spec fn parse_ip(s: Seq<u8>) -> Option<IpAddress> {
    match parse_varint(s) {
        Some((fam, k)) => if fam == 0 && k + 4 <= s.len() {
            Some(IpAddress::V4(be_value(s.subrange(k as int, k as int + 4)) as u32))
        } else if fam == 1 && k + 16 <= s.len() {
            Some(
                IpAddress::V6(
                    (be_value(s.subrange(k as int, k as int + 8)) * two_pow_64() + be_value(
                        s.subrange(k as int + 8, k as int + 16),
                    )) as u128,
                ),
            )
        } else {
            None
        },
        None => None,
    }
}

/// The plaintext encoding of a body.
pub open spec fn body_bytes(b: BodyView) -> Seq<u8> {
    match b {
        BodyView::Packet(p) => varint_bytes(BODY_PACKET as int) + varint_bytes(p.len() as int) + p,
        BodyView::KeepAlive(t) => varint_bytes(BODY_KEEPALIVE as int) + varint_bytes(t),
        BodyView::Disconnect(c) => varint_bytes(BODY_DISCONNECT as int) + seq![c],
        BodyView::LeaseRequest => varint_bytes(BODY_LEASE_REQUEST as int),
        BodyView::LeaseGrant(ip) => varint_bytes(BODY_LEASE_GRANT as int) + ip_bytes(ip),
    }
}

/// The body at the start of a plaintext; `Disconnect` and `LeaseGrant` only
/// when `server` is set, `LeaseRequest` only when it is not.
pub open spec fn parse_body(s: Seq<u8>, server: bool) -> Option<BodyView> {
    match parse_varint(s) {
        None => None,
        Some((tag, k)) => {
            let rest = s.skip(k as int);
            if tag == BODY_PACKET {
                match parse_varint(rest) {
                    Some((len, k2)) => if k2 + len <= rest.len() {
                        Some(BodyView::Packet(rest.subrange(k2 as int, k2 + len)))
                    } else {
                        None
                    },
                    None => None,
                }
            } else if tag == BODY_KEEPALIVE {
                match parse_varint(rest) {
                    Some((t, _)) => Some(BodyView::KeepAlive(t)),
                    None => None,
                }
            } else if tag == BODY_DISCONNECT && server && rest.len() >= 1 {
                Some(BodyView::Disconnect(rest[0]))
            } else if tag == BODY_LEASE_REQUEST && !server {
                Some(BodyView::LeaseRequest)
            } else if tag == BODY_LEASE_GRANT && server {
                match parse_ip(rest) {
                    Some(ip) => Some(BodyView::LeaseGrant(ip)),
                    None => None,
                }
            } else {
                None
            }
        },
    }
}

/// Parsing the encoding of a body, followed by anything, gives the body back.
pub proof fn lemma_body_roundtrip(b: BodyView, server: bool, rest: Seq<u8>)
    requires
        b matches BodyView::Packet(p) ==> p.len() < 0x1_0000_0000_0000_0000,
        b matches BodyView::KeepAlive(t) ==> 0 <= t < 0x1_0000_0000_0000_0000_0000_0000_0000_0000,
        b is Disconnect ==> server,
        b is LeaseGrant ==> server,
        b is LeaseRequest ==> !server,
    ensures
        parse_body(body_bytes(b) + rest, server) == Some(b),
{
    let s = body_bytes(b) + rest;
    match b {
        BodyView::Packet(p) => {
            let tail = varint_bytes(p.len() as int) + p + rest;
            assert(s =~= varint_bytes(0) + tail);
            lemma_varint_roundtrip(0, tail);
            lemma_varint_roundtrip(p.len() as int, p + rest);
            assert(varint_bytes(0) + tail == s);
            assert(s.skip(1) =~= tail);
            let k2 = varint_bytes(p.len() as int).len();
            assert(tail.skip(0) =~= tail);
            assert(tail =~= varint_bytes(p.len() as int) + (p + rest));
            assert(tail.subrange(k2 as int, k2 + p.len() as int) =~= p);
        },
        BodyView::KeepAlive(t) => {
            let tail = varint_bytes(t) + rest;
            assert(s =~= varint_bytes(1) + tail);
            lemma_varint_roundtrip(1, tail);
            lemma_varint_roundtrip(t, rest);
            assert(s.skip(1) =~= tail);
        },
        BodyView::Disconnect(c) => {
            let tail = seq![c] + rest;
            assert(s =~= varint_bytes(2) + tail);
            lemma_varint_roundtrip(2, tail);
            assert(s.skip(1) =~= tail);
        },
        BodyView::LeaseRequest => {
            assert(s =~= varint_bytes(2) + rest);
            lemma_varint_roundtrip(2, rest);
        },
        BodyView::LeaseGrant(ip) => {
            let tail = ip_bytes(ip) + rest;
            assert(s =~= varint_bytes(3) + tail);
            lemma_varint_roundtrip(3, tail);
            assert(s.skip(1) =~= tail);
            lemma_ip_roundtrip(ip, rest);
        },
    }
}

/// The encoding of an IPv4 address takes 5 bytes, that of an IPv6 address 17.
pub proof fn lemma_ip_bytes_len(ip: IpAddress)
    ensures
        ip_bytes(ip).len() == (if ip is V4 {
            5int
        } else {
            17int
        }),
{
    lemma_varint_roundtrip(0, Seq::empty());
    lemma_varint_roundtrip(1, Seq::empty());
    match ip {
        IpAddress::V4(a) => {
            lemma_be_roundtrip(a as int, 4);
        },
        IpAddress::V6(a) => {
            lemma_be_roundtrip(a as int / two_pow_64(), 8);
            lemma_be_roundtrip(a as int % two_pow_64(), 8);
        },
    }
}

/// Parsing the encoding of a tunnel address, followed by anything, gives it back.
pub proof fn lemma_ip_roundtrip(ip: IpAddress, rest: Seq<u8>)
    ensures
        parse_ip(ip_bytes(ip) + rest) == Some(ip),
{
    let s = ip_bytes(ip) + rest;
    lemma_pow256_values();
    match ip {
        IpAddress::V4(a) => {
            let t = be_bytes(a as int, 4) + rest;
            assert(s =~= varint_bytes(0) + t);
            lemma_varint_roundtrip(0, t);
            lemma_be_roundtrip(a as int, 4);
            assert(s.subrange(1, 5) =~= be_bytes(a as int, 4));
        },
        IpAddress::V6(a) => {
            let hi = a as int / two_pow_64();
            let lo = a as int % two_pow_64();
            let t = be_bytes(hi, 8) + be_bytes(lo, 8) + rest;
            assert(s =~= varint_bytes(1) + t);
            lemma_varint_roundtrip(1, t);
            lemma_be_roundtrip(hi, 8);
            lemma_be_roundtrip(lo, 8);
            assert(s.subrange(1, 9) =~= be_bytes(hi, 8));
            assert(s.subrange(9, 17) =~= be_bytes(lo, 8));
            assert(0 <= hi < two_pow_64()) by (nonlinear_arith)
                requires
                    0 <= a < 0x1_0000_0000_0000_0000_0000_0000_0000_0000,
                    hi == a as int / two_pow_64(),
            ;
            assert(hi * two_pow_64() + lo == a) by (nonlinear_arith)
                requires
                    hi == a as int / two_pow_64(),
                    lo == a as int % two_pow_64(),
            ;
        },
    }
}


/// A body sent by a client.
#[derive(Debug)]
pub enum DataClientBody {
    /// IP packet to forward.
    Packet(Vec<u8>),
    /// Keepalive timestamp (microseconds since client process start).
    KeepAlive(u128),
    /// Asks the server for the session's tunnel address.
    LeaseRequest,
}

/// A body sent by the server.
#[derive(Debug)]
pub enum DataServerBody {
    /// IP packet to forward.
    Packet(Vec<u8>),
    /// Keepalive echo timestamp.
    KeepAlive(u128),
    /// Server-initiated disconnect code.
    Disconnect(u8),
    /// The session's tunnel address.
    LeaseGrant(IpAddress),
}

/// A client body whose packet borrows the plaintext buffer.
pub enum DataClientBodyRef<'a> {
    Packet(&'a [u8]),
    KeepAlive(u128),
    LeaseRequest,
}

/// A server body whose packet borrows the plaintext buffer.
pub enum DataServerBodyRef<'a> {
    Packet(&'a [u8]),
    KeepAlive(u128),
    Disconnect(u8),
    LeaseGrant(IpAddress),
}

/// A body that has a plaintext encoding.
pub trait PlainBody {
    spec fn plain_bytes(&self) -> Seq<u8>;

    /// Length of the plaintext encoding.
    fn plain_len(&self) -> (n: usize)
        requires
            self.plain_bytes().len() <= usize::MAX,
        ensures
            n == self.plain_bytes().len(),
    ;

    /// Writes the plaintext encoding at the start of `buf`; returns its length.
    fn write_plain(&self, buf: &mut [u8]) -> (n: usize)
        requires
            self.plain_bytes().len() <= old(buf)@.len(),
        ensures
            n == self.plain_bytes().len(),
            written_at(old(buf)@, final(buf)@, 0, self.plain_bytes()),
    ;
}

impl DataClientBody {
    pub open spec fn body_view(&self) -> BodyView {
        match self {
            DataClientBody::Packet(p) => BodyView::Packet(p@),
            DataClientBody::KeepAlive(t) => BodyView::KeepAlive(*t as int),
            DataClientBody::LeaseRequest => BodyView::LeaseRequest,
        }
    }
}

impl DataServerBody {
    pub open spec fn body_view(&self) -> BodyView {
        match self {
            DataServerBody::Packet(p) => BodyView::Packet(p@),
            DataServerBody::KeepAlive(t) => BodyView::KeepAlive(*t as int),
            DataServerBody::Disconnect(c) => BodyView::Disconnect(*c),
            DataServerBody::LeaseGrant(ip) => BodyView::LeaseGrant(*ip),
        }
    }
}

impl<'a> DataClientBodyRef<'a> {
    pub open spec fn body_view(&self) -> BodyView {
        match self {
            DataClientBodyRef::Packet(p) => BodyView::Packet(p@),
            DataClientBodyRef::KeepAlive(t) => BodyView::KeepAlive(*t as int),
            DataClientBodyRef::LeaseRequest => BodyView::LeaseRequest,
        }
    }

    /// Parses a client body from the start of a decrypted plaintext.
    pub fn from_plain_buf(plain: &'a [u8]) -> (r: Option<Self>)
        ensures
            r matches Some(b) ==> parse_body(plain@, false) == Some(b.body_view()),
            r is None ==> parse_body(plain@, false) is None,
    {
        match locate_body(plain, false) {
            None => None,
            Some(BodyRange::Packet(start, end)) => Some(DataClientBodyRef::Packet(&plain[start..end])),
            Some(BodyRange::KeepAlive(t)) => Some(DataClientBodyRef::KeepAlive(t)),
            Some(BodyRange::LeaseRequest) => Some(DataClientBodyRef::LeaseRequest),
            Some(BodyRange::Disconnect(_)) => None,
            Some(BodyRange::LeaseGrant(_)) => None,
        }
    }
}

impl<'a> DataServerBodyRef<'a> {
    pub open spec fn body_view(&self) -> BodyView {
        match self {
            DataServerBodyRef::Packet(p) => BodyView::Packet(p@),
            DataServerBodyRef::KeepAlive(t) => BodyView::KeepAlive(*t as int),
            DataServerBodyRef::Disconnect(c) => BodyView::Disconnect(*c),
            DataServerBodyRef::LeaseGrant(ip) => BodyView::LeaseGrant(*ip),
        }
    }

    /// Parses a server body from the start of a decrypted plaintext.
    pub fn from_plain_buf(plain: &'a [u8]) -> (r: Option<Self>)
        ensures
            r matches Some(b) ==> parse_body(plain@, true) == Some(b.body_view()),
            r is None ==> parse_body(plain@, true) is None,
    {
        match locate_body(plain, true) {
            None => None,
            Some(BodyRange::Packet(start, end)) => Some(DataServerBodyRef::Packet(&plain[start..end])),
            Some(BodyRange::KeepAlive(t)) => Some(DataServerBodyRef::KeepAlive(t)),
            Some(BodyRange::Disconnect(c)) => Some(DataServerBodyRef::Disconnect(c)),
            Some(BodyRange::LeaseGrant(ip)) => Some(DataServerBodyRef::LeaseGrant(ip)),
            Some(BodyRange::LeaseRequest) => None,
        }
    }
}

/// A parsed body, with a packet given by its position in the plaintext.
pub enum BodyRange {
    Packet(usize, usize),
    KeepAlive(u128),
    Disconnect(u8),
    LeaseRequest,
    LeaseGrant(IpAddress),
}

/// Parses the body at the start of `plain`, giving a packet by its position.
pub fn locate_body(plain: &[u8], server: bool) -> (r: Option<BodyRange>)
    ensures
        r matches Some(BodyRange::Packet(start, end)) ==> start <= end <= plain@.len() && parse_body(
            plain@,
            server,
        ) == Some(BodyView::Packet(plain@.subrange(start as int, end as int))),
        r matches Some(BodyRange::KeepAlive(t)) ==> parse_body(plain@, server) == Some(
            BodyView::KeepAlive(t as int),
        ),
        r matches Some(BodyRange::Disconnect(c)) ==> server && parse_body(plain@, server) == Some(
            BodyView::Disconnect(c),
        ),
        r matches Some(BodyRange::LeaseRequest) ==> !server && parse_body(plain@, server) == Some(
            BodyView::LeaseRequest,
        ),
        r matches Some(BodyRange::LeaseGrant(ip)) ==> server && parse_body(plain@, server) == Some(
            BodyView::LeaseGrant(ip),
        ),
        r is None ==> parse_body(plain@, server) is None,
{
    let len = plain.len();
    proof {
        assert(plain@.skip(0) =~= plain@);
    }
    let (tag, k) = match read_varint_at(plain, 0) {
        None => {
            return None;
        },
        Some(x) => x,
    };
    proof {
        assert(plain@.skip(k as int) =~= plain@.skip(0).skip(k as int));
    }
    if tag == BODY_PACKET as u128 {
        let (n, k2) = match read_varint_at(plain, k) {
            None => {
                return None;
            },
            Some(x) => x,
        };
        if n > (len - k - k2) as u128 {
            return None;
        }
        let start = k + k2;
        let end = start + n as usize;
        proof {
            assert(plain@.skip(k as int).subrange(k2 as int, k2 + n) =~= plain@.subrange(
                start as int,
                end as int,
            ));
        }
        Some(BodyRange::Packet(start, end))
    } else if tag == BODY_KEEPALIVE as u128 {
        match read_varint_at(plain, k) {
            None => None,
            Some((t, _)) => Some(BodyRange::KeepAlive(t)),
        }
    } else if tag == BODY_DISCONNECT as u128 && server && k < len {
        Some(BodyRange::Disconnect(plain[k]))
    } else if tag == BODY_LEASE_REQUEST as u128 && !server {
        Some(BodyRange::LeaseRequest)
    } else if tag == BODY_LEASE_GRANT as u128 && server {
        match read_ip_at(plain, k) {
            None => None,
            Some(ip) => Some(BodyRange::LeaseGrant(ip)),
        }
    } else {
        None
    }
}

/// Reads the tunnel address encoded at `pos`.
fn read_ip_at(buf: &[u8], pos: usize) -> (r: Option<IpAddress>)
    requires
        pos <= buf@.len(),
    ensures
        r == parse_ip(buf@.skip(pos as int)),
{
    let len = buf.len();
    let ghost s = buf@.skip(pos as int);
    let (fam, k) = match read_varint_at(buf, pos) {
        None => {
            return None;
        },
        Some(x) => x,
    };
    proof {
        assert(k <= s.len());
    }
    let start = pos + k;
    if fam == 0 && k + 4 <= len - pos {
        let v = read_be_at(buf, start, 4);
        proof {
            assert(buf@.subrange(start as int, start + 4) =~= s.subrange(k as int, k as int + 4));
            lemma_pow256_values();
            crate::codec::lemma_be_value_bound(s.subrange(k as int, k as int + 4));
        }
        Some(IpAddress::V4(v as u32))
    } else if fam == 1 && k + 16 <= len - pos {
        let hi = read_be_at(buf, start, 8);
        let lo = read_be_at(buf, start + 8, 8);
        proof {
            assert(buf@.subrange(start as int, start + 8) =~= s.subrange(k as int, k as int + 8));
            assert(buf@.subrange(start + 8, start + 16) =~= s.subrange(k as int + 8, k as int + 16));
        }
        let h: u128 = hi as u128;
        let l: u128 = lo as u128;
        assert(h * 0x1_0000_0000_0000_0000u128 + l <= u128::MAX) by (nonlinear_arith)
            requires
                h < 0x1_0000_0000_0000_0000u128,
                l < 0x1_0000_0000_0000_0000u128,
        ;
        Some(IpAddress::V6(h * 0x1_0000_0000_0000_0000u128 + l))
    } else {
        None
    }
}

/// Writes the encoding of a tunnel address at the start of `buf`; returns its length.
fn write_ip_at(buf: &mut [u8], pos: usize, ip: IpAddress) -> (n: usize)
    requires
        pos + ip_bytes(ip).len() <= old(buf)@.len(),
    ensures
        n == ip_bytes(ip).len(),
        final(buf)@.len() == old(buf)@.len(),
        final(buf)@.subrange(pos as int, pos + n) == ip_bytes(ip),
        forall|j: int|
            0 <= j < old(buf)@.len() && !(pos <= j < pos + n) ==> #[trigger] final(buf)@[j] == old(buf)@[j],
{
    proof {
        lemma_varint_roundtrip(0, Seq::empty());
        lemma_varint_roundtrip(1, Seq::empty());
        lemma_ip_bytes_len(ip);
    }
    let ghost b0 = buf@;
    match ip {
        IpAddress::V4(a) => {
            buf[pos] = 0;
            let ghost b1 = buf@;
            write_be_at(buf, pos + 1, a as u64, 4);
            proof {
                assert(buf@.subrange(pos as int, pos + 5) =~= ip_bytes(ip));
            }
            5
        },
        IpAddress::V6(a) => {
            buf[pos] = 1;
            let hi = (a / 0x1_0000_0000_0000_0000u128) as u64;
            let lo = (a % 0x1_0000_0000_0000_0000u128) as u64;
            write_be_at(buf, pos + 1, hi, 8);
            let ghost b2 = buf@;
            write_be_at(buf, pos + 9, lo, 8);
            proof {
                assert(b2.subrange(pos + 1, pos + 9) =~= buf@.subrange(pos + 1, pos + 9));
                assert(buf@.subrange(pos as int, pos + 17) =~= ip_bytes(ip));
            }
            17
        },
    }
}

/// Length of the variable-length encoding of a body field.
fn field_len(v: u128) -> (n: usize)
    ensures
        n == varint_bytes(v as int).len(),
        1 <= n <= 17,
{
    proof {
        lemma_varint_roundtrip(v as int, Seq::empty());
    }
    varint_len(v)
}

/// Writes a one-byte variant number followed by the varint `v` at the start of `buf`.
fn write_tag_varint(buf: &mut [u8], tag: u8, v: u128) -> (n: usize)
    requires
        tag <= 250,
        varint_bytes(tag as int).len() + varint_bytes(v as int).len() <= old(buf)@.len(),
    ensures
        n == (varint_bytes(tag as int) + varint_bytes(v as int)).len(),
        written_at(old(buf)@, final(buf)@, 0, varint_bytes(tag as int) + varint_bytes(v as int)),
{
    let len = buf.len();
    let k = write_varint_at(buf, 0, tag as u128);
    let ghost b1 = buf@;
    let k2 = write_varint_at(buf, k, v);
    proof {
        let full = varint_bytes(tag as int) + varint_bytes(v as int);
        assert forall|j: int| 0 <= j < full.len() implies #[trigger] buf@[j] == full[j] by {
            if j < k {
                assert(b1.subrange(0, k as int)[j] == full[j]);
            } else {
                assert(buf@.subrange(k as int, k + k2)[j - k] == full[j]);
            }
        }
        assert(buf@.subrange(0, full.len() as int) =~= full);
    }
    k + k2
}

/// Writes a one-byte variant number followed by the byte `c` at the start of `buf`.
fn write_tag_byte(buf: &mut [u8], tag: u8, c: u8) -> (n: usize)
    requires
        tag <= 250,
        2 <= old(buf)@.len(),
    ensures
        n == (varint_bytes(tag as int) + seq![c]).len(),
        n == 2,
        written_at(old(buf)@, final(buf)@, 0, varint_bytes(tag as int) + seq![c]),
{
    let k = write_varint_at(buf, 0, tag as u128);
    buf[1] = c;
    proof {
        let full = varint_bytes(tag as int) + seq![c];
        assert(buf@.subrange(0, 2) =~= full);
    }
    2
}

impl PlainBody for DataClientBody {
    open spec fn plain_bytes(&self) -> Seq<u8> {
        body_bytes(self.body_view())
    }

    fn plain_len(&self) -> (n: usize) {
        match self {
            DataClientBody::Packet(p) => 1 + field_len(p.len() as u128) + p.len(),
            DataClientBody::KeepAlive(t) => 1 + field_len(*t),
            DataClientBody::LeaseRequest => 1,
        }
    }

    fn write_plain(&self, buf: &mut [u8]) -> (n: usize) {
        match self {
            DataClientBody::Packet(p) => crate::crypto::write_ip_packet_plain(buf, p.as_slice()),
            DataClientBody::KeepAlive(t) => write_tag_varint(buf, BODY_KEEPALIVE, *t),
            DataClientBody::LeaseRequest => {
                let k = write_varint_at(buf, 0, BODY_LEASE_REQUEST as u128);
                proof {
                    assert(buf@.subrange(0, 1) =~= varint_bytes(BODY_LEASE_REQUEST as int));
                }
                k
            },
        }
    }
}

impl PlainBody for DataServerBody {
    open spec fn plain_bytes(&self) -> Seq<u8> {
        body_bytes(self.body_view())
    }

    fn plain_len(&self) -> (n: usize) {
        match self {
            DataServerBody::Packet(p) => 1 + field_len(p.len() as u128) + p.len(),
            DataServerBody::KeepAlive(t) => 1 + field_len(*t),
            DataServerBody::Disconnect(_) => 2,
            DataServerBody::LeaseGrant(ip) => {
                proof {
                    lemma_ip_bytes_len(*ip);
                    lemma_varint_roundtrip(BODY_LEASE_GRANT as int, Seq::empty());
                }
                match ip {
                    IpAddress::V4(_) => 6,
                    IpAddress::V6(_) => 18,
                }
            },
        }
    }

    fn write_plain(&self, buf: &mut [u8]) -> (n: usize) {
        match self {
            DataServerBody::Packet(p) => crate::crypto::write_ip_packet_plain(buf, p.as_slice()),
            DataServerBody::KeepAlive(t) => write_tag_varint(buf, BODY_KEEPALIVE, *t),
            DataServerBody::Disconnect(c) => write_tag_byte(buf, BODY_DISCONNECT, *c),
            DataServerBody::LeaseGrant(ip) => {
                proof {
                    lemma_ip_bytes_len(*ip);
                    lemma_varint_roundtrip(BODY_LEASE_GRANT as int, Seq::empty());
                }
                let ghost b0 = buf@;
                let k = write_varint_at(buf, 0, BODY_LEASE_GRANT as u128);
                let ghost b1 = buf@;
                let m = write_ip_at(buf, 1, *ip);
                proof {
                    let full = varint_bytes(BODY_LEASE_GRANT as int) + ip_bytes(*ip);
                    assert(b1.subrange(0, 1) =~= buf@.subrange(0, 1));
                    assert(buf@.subrange(0, 1 + m) =~= full);
                }
                1 + m
            },
        }
    }
}

/// A node-to-node frame: its type byte, then the encoded items.
pub fn frame_of(ty: u8, payload: &[u8]) -> (frame: Vec<u8>)
    ensures
        frame@ == seq![ty] + payload@,
{
    let mut frame: Vec<u8> = Vec::new();
    frame.push(ty);
    let mut i: usize = 0;
    while i < payload.len()
        invariant
            i <= payload@.len(),
            frame@ == seq![ty] + payload@.take(i as int),
        decreases payload@.len() - i,
    {
        frame.push(payload[i]);
        i = i + 1;
        proof {
            assert(frame@ =~= seq![ty] + payload@.take(i as int));
        }
    }
    proof {
        assert(payload@.take(payload@.len() as int) =~= payload@);
    }
    frame
}

} // verus!
