//! Credentials a client or a server session is set up with.

use vstd::prelude::*;

use crate::keys::{PublicKey, SecretKey};

verus! {

/// What a client authenticates with.
pub struct Cred {
    pub sk: SecretKey,
    pub psk: SecretKey,
    /// Server public key.
    pub spk: PublicKey,
    /// Account-signed device enrollment, in its encoded form, sent inside the
    /// encrypted handshake metadata so the node can attribute the device
    /// without pre-provisioning its static key.
    pub enrollment: Vec<u8>,
}

/// What a server authenticates one client with.
pub struct ServerCredential {
    pub sk: SecretKey,
    pub psk: SecretKey,
    /// Client's public key.
    pub peer_pk: PublicKey,
}

} // verus!
