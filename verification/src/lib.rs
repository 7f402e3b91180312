//! Verified core of the Holynet VPN runtime: the anti-replay window, the
//! data-frame codec and its Noise sealing, multi-hop route planning, the
//! address pool, the server's session table with idle expiry, the relay
//! table, the Noise handshake, and the per-packet decisions of the client and
//! server data paths.

pub mod bits;
pub mod replay;
pub mod keys;
pub mod net;
pub mod topology;
pub mod route;
pub mod codec;
pub mod crypto;
pub mod packet;
pub mod ip_pool;
pub mod cred;
pub mod client_builder;
pub mod pipeline;
pub mod link;
pub mod session;
pub mod sessions;
pub mod server_data;
pub mod relay;
pub mod handshake;
