//! IP and socket addresses as plain numbers.

use vstd::prelude::*;

verus! {

/// An IP address: IPv4 as a big-endian `u32`, IPv6 as a big-endian `u128`.
#[derive(Clone, Copy, Debug, PartialEq, Eq, Hash, Structural)]
pub enum IpAddress {
    V4(u32),
    V6(u128),
}

/// An IP address and a UDP port.
#[derive(Clone, Copy, Debug, PartialEq, Eq, Hash, Structural)]
pub struct SocketAddress {
    pub ip: IpAddress,
    pub port: u16,
}

/// The big-endian value of four octets.
pub open spec fn octets_value(a: u8, b: u8, c: u8, d: u8) -> int {
    a * 0x100_0000 + b * 0x1_0000 + c * 0x100 + d
}

impl IpAddress {
    /// The IPv4 address `a.b.c.d`.
    pub fn v4(a: u8, b: u8, c: u8, d: u8) -> (ip: IpAddress)
        ensures
            ip == IpAddress::V4(octets_value(a, b, c, d) as u32),
    {
        let v = (a as u32) * 0x100_0000 + (b as u32) * 0x1_0000 + (c as u32) * 0x100 + (d as u32);
        IpAddress::V4(v)
    }

    /// Whether this is an IPv4 address.
    pub fn is_v4(&self) -> (r: bool)
        ensures
            r == (self is V4),
    {
        match self {
            IpAddress::V4(_) => true,
            IpAddress::V6(_) => false,
        }
    }
}

/// Why the destination of a tunnelled packet could not be read.
#[derive(Clone, Copy, Debug, PartialEq, Eq, Structural)]
pub enum DestinationError {
    /// The packet is empty.
    Empty,
    /// An IPv4 packet shorter than its 20-byte header; carries the length.
    TooShort(usize),
    /// IPv6 packets are not routed.
    Ipv6Unsupported,
    /// The version nibble is neither 4 nor 6; carries it.
    UnknownVersion(u8),
}

/// The destination address of an IP packet, read from its header.
pub open spec fn destination_of(p: Seq<u8>) -> Result<IpAddress, DestinationError> {
    if p.len() == 0 {
        Err(DestinationError::Empty)
    } else if p[0] / 16 == 4 {
        if p.len() < 20 {
            Err(DestinationError::TooShort(p.len() as usize))
        } else {
            Ok(IpAddress::V4(octets_value(p[16], p[17], p[18], p[19]) as u32))
        }
    } else if p[0] / 16 == 6 {
        Err(DestinationError::Ipv6Unsupported)
    } else {
        Err(DestinationError::UnknownVersion((p[0] / 16) as u8))
    }
}

/// Reads the destination address of an IPv4 packet.
pub fn parse_destination(packet: &[u8]) -> (r: Result<IpAddress, DestinationError>)
    ensures
        r == destination_of(packet@),
{
    if packet.len() == 0 {
        return Err(DestinationError::Empty);
    }
    let b = packet[0];
    let version = b >> 4;
    assert(b >> 4 == b / 16) by (bit_vector);
    if version == 4 {
        if packet.len() < 20 {
            return Err(DestinationError::TooShort(packet.len()));
        }
        Ok(IpAddress::v4(packet[16], packet[17], packet[18], packet[19]))
    } else if version == 6 {
        Err(DestinationError::Ipv6Unsupported)
    } else {
        Err(DestinationError::UnknownVersion(version))
    }
}

} // verus!
