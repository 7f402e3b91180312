//! The node registry entries and inter-node latency edges that route planning reads.

use vstd::prelude::*;

use crate::keys::PublicKey;
use crate::net::{IpAddress, SocketAddress};

verus! {

/// A node of the network as advertised in the registry.
#[derive(Clone, Debug)]
pub struct NodeEntry {
    pub node_pk: PublicKey,
    pub endpoint: SocketAddress,
    pub subnet: IpAddress,
    pub prefix: u8,
    pub label: String,
}

/// A measured node-to-node round trip (`rtt_micros = None`: unreachable).
#[derive(Clone, Debug)]
pub struct EdgeMetric {
    pub from: PublicKey,
    pub to: PublicKey,
    pub rtt_micros: Option<u32>,
    pub updated_ms: u64,
}

/// The node list a server hands to clients when no trusted authority signs
/// the registry: this node first when it advertises an endpoint, then the
/// statically known peers in order.
pub fn advertised_nodes(
    self_pk: PublicKey,
    advertise_endpoint: Option<SocketAddress>,
    subnet: IpAddress,
    prefix: u8,
    label: String,
    peers: Vec<NodeEntry>,
) -> (nodes: Vec<NodeEntry>)
    ensures
        advertise_endpoint is None ==> nodes@ == peers@,
        advertise_endpoint matches Some(ep) ==> nodes@.len() == peers@.len() + 1 && nodes@[0]
            == (NodeEntry { node_pk: self_pk, endpoint: ep, subnet, prefix, label })
            && nodes@.skip(1) == peers@,
{
    let mut peers = peers;
    match advertise_endpoint {
        None => peers,
        Some(endpoint) => {
            let mut nodes: Vec<NodeEntry> = Vec::new();
            nodes.push(NodeEntry { node_pk: self_pk, endpoint, subnet, prefix, label });
            let ghost p = peers@;
            nodes.append(&mut peers);
            proof {
                assert(nodes@.skip(1) =~= p);
            }
            nodes
        },
    }
}

/// A measured round trip in microseconds as an edge metric stores it:
/// saturated at `u32::MAX`.
pub fn rtt_micros(micros: u128) -> (r: u32)
    ensures
        micros <= u32::MAX ==> r == micros,
        micros > u32::MAX ==> r == u32::MAX,
{
    if micros > u32::MAX as u128 {
        u32::MAX
    } else {
        micros as u32
    }
}

} // verus!
