//! A server's per-client session.

use vstd::prelude::*;

use snow::StatelessTransportState;

use crate::client_builder::Alg;
use crate::net::{IpAddress, SocketAddress};
use crate::replay::{ReplayWindow, WindowModel};

verus! {

/// The session id a client puts in its data frames.
pub type SessionId = u32;

/// The IPv4 socket address packed in a `u64`: address in the high half, port
/// in the low 16 bits.
pub open spec fn pack_v4(ip: u32, port: u16) -> u64 {
    ((ip as u64) * 0x1_0000_0000 + port as u64) as u64
}

/// The socket address a session's packed fields stand for.
pub open spec fn unpacked_addr(is_ipv4: bool, ipv4_data: u64, ipv6_data: Option<(u128, u16)>) -> SocketAddress {
    if is_ipv4 {
        SocketAddress {
            ip: IpAddress::V4((ipv4_data / 0x1_0000_0000) as u32),
            port: (ipv4_data % 0x1_0000) as u16,
        }
    } else {
        match ipv6_data {
            Some((ip, port)) => SocketAddress { ip: IpAddress::V6(ip), port },
            None => SocketAddress { ip: IpAddress::V6(0), port: 0 },
        }
    }
}

proof fn lemma_pack_v4(ip: u32, port: u16)
    ensures
        ((ip as u64) << 32u64) | (port as u64) == pack_v4(ip, port),
        pack_v4(ip, port) / 0x1_0000_0000 == ip,
        pack_v4(ip, port) % 0x1_0000 == port,
        (pack_v4(ip, port) >> 32u64) & 0xFFFF_FFFFu64 == ip,
        pack_v4(ip, port) & 0xFFFFu64 == port,
{
    assert(((ip as u64) << 32u64) | (port as u64) == (ip as u64) * 0x1_0000_0000 + port as u64)
        by (bit_vector);
    assert(((((ip as u64) << 32u64) | (port as u64)) >> 32u64) & 0xFFFF_FFFFu64 == ip) by (bit_vector);
    assert((((ip as u64) << 32u64) | (port as u64)) & 0xFFFFu64 == port) by (bit_vector);
    assert(((ip as u64) * 0x1_0000_0000 + port as u64) / 0x1_0000_0000 == ip) by (nonlinear_arith);
    assert(((ip as u64) * 0x1_0000_0000 + port as u64) % 0x1_0000 == port) by (nonlinear_arith);
}

proof fn lemma_unpack_v4(d: u64)
    ensures
        (d >> 32u64) & 0xFFFF_FFFFu64 == d / 0x1_0000_0000,
        d & 0xFFFFu64 == d % 0x1_0000,
{
    assert((d >> 32u64) & 0xFFFF_FFFFu64 == d / 0x1_0000_0000) by (bit_vector);
    assert(d & 0xFFFFu64 == d % 0x1_0000) by (bit_vector);
}

/// One client's session on the server.
pub struct Session {
    pub id: SessionId,
    /// Whether the client's address is IPv4 (then held in `ipv4_data`).
    pub is_ipv4: bool,
    /// The client's IPv4 socket address, packed (see `pack_v4`).
    pub ipv4_data: u64,
    /// The client's IPv6 socket address, when it has one.
    pub ipv6_data: Option<(u128, u16)>,
    /// Seconds since the runtime started when the client was last heard from.
    pub last_seen: u64,
    /// The tunnel address leased to the client.
    pub holy_ip: IpAddress,
    pub enc: Alg,
    pub state: StatelessTransportState,
    /// Nonce of the next packet the server sends to this client.
    pub send_nonce: u64,
    /// Anti-replay window for packets received from this client.
    pub recv_window: ReplayWindow,
}

impl Session {
    /// The client's current socket address.
    pub open spec fn addr(&self) -> SocketAddress {
        unpacked_addr(self.is_ipv4, self.ipv4_data, self.ipv6_data)
    }

    /// A fresh session: nonce 0, empty replay window, last seen at `now`.
    pub fn new(
        id: SessionId,
        holy_ip: IpAddress,
        sock_addr: SocketAddress,
        enc: Alg,
        state: StatelessTransportState,
        now: u64,
    ) -> (s: Self)
        ensures
            s.id == id,
            s.addr() == sock_addr,
            s.last_seen == now,
            s.holy_ip == holy_ip,
            s.enc == enc,
            s.state == state,
            s.send_nonce == 0,
            s.recv_window@ == (WindowModel { initialized: false, last: 0, seen: Set::<int>::empty() }),
    {
        let mut s = Session {
            id,
            is_ipv4: true,
            ipv4_data: 0,
            ipv6_data: None,
            last_seen: now,
            holy_ip,
            enc,
            state,
            send_nonce: 0,
            recv_window: ReplayWindow::new(),
        };
        s.set_sock_addr(sock_addr);
        s
    }

    /// The client's current socket address.
    pub fn sock_addr(&self) -> (a: SocketAddress)
        ensures
            a == self.addr(),
    {
        if self.is_ipv4 {
            let encoded = self.ipv4_data;
            proof {
                lemma_unpack_v4(encoded);
            }
            let ip = ((encoded >> 32) & 0xFFFF_FFFF) as u32;
            let port = (encoded & 0xFFFF) as u16;
            SocketAddress { ip: IpAddress::V4(ip), port }
        } else {
            match self.ipv6_data {
                Some((ip, port)) => SocketAddress { ip: IpAddress::V6(ip), port },
                None => SocketAddress { ip: IpAddress::V6(0), port: 0 },
            }
        }
    }

    /// Records the client's observed socket address; nothing else changes.
    pub fn set_sock_addr(&mut self, addr: SocketAddress)
        ensures
            final(self).addr() == addr,
            final(self).id == old(self).id,
            final(self).last_seen == old(self).last_seen,
            final(self).holy_ip == old(self).holy_ip,
            final(self).enc == old(self).enc,
            final(self).state == old(self).state,
            final(self).send_nonce == old(self).send_nonce,
            final(self).recv_window == old(self).recv_window,
    {
        match addr.ip {
            IpAddress::V4(ip) => {
                proof {
                    lemma_pack_v4(ip, addr.port);
                }
                self.ipv4_data = ((ip as u64) << 32) | (addr.port as u64);
                self.ipv6_data = None;
                self.is_ipv4 = true;
            },
            IpAddress::V6(ip) => {
                self.ipv6_data = Some((ip, addr.port));
                self.is_ipv4 = false;
            },
        }
    }
}

} // verus!
