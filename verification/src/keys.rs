//! Static keys of nodes and devices (X25519 public and secret keys).

use vstd::prelude::*;

verus! {

/// Length in bytes of a public or secret key.
pub const KEY_LEN: usize = 32;

/// A 32-byte public key identifying a node or a device.
#[derive(Clone, Copy, Debug, PartialEq, Eq, Hash)]
pub struct PublicKey {
    bytes: [u8; KEY_LEN],
}

impl View for PublicKey {
    type V = Seq<u8>;

    closed spec fn view(&self) -> Seq<u8> {
        self.bytes@
    }
}

impl PublicKey {
    /// Wraps raw key bytes.
    pub fn from_bytes(bytes: [u8; KEY_LEN]) -> (k: Self)
        ensures
            k@ == bytes@,
    {
        PublicKey { bytes }
    }

    /// Reads a key from a slice, which must hold exactly `KEY_LEN` bytes.
    pub fn try_from_slice(bytes: &[u8]) -> (k: Option<Self>)
        ensures
            k is Some <==> bytes@.len() == KEY_LEN,
            k matches Some(key) ==> key@ == bytes@,
    {
        if bytes.len() != KEY_LEN {
            return None;
        }
        let mut out = [0u8; KEY_LEN];
        let mut i: usize = 0;
        while i < KEY_LEN
            invariant
                bytes@.len() == KEY_LEN,
                i <= KEY_LEN,
                forall|j: int| 0 <= j < i ==> out@[j] == bytes@[j],
            decreases KEY_LEN - i,
        {
            out[i] = bytes[i];
            i = i + 1;
        }
        proof {
            assert(out@ =~= bytes@);
        }
        Some(PublicKey { bytes: out })
    }

    /// The key's bytes.
    pub fn as_bytes(&self) -> (b: [u8; KEY_LEN])
        ensures
            b@ == self@,
    {
        self.bytes
    }

    /// Whether two keys hold the same bytes.
    pub fn same_as(&self, other: &PublicKey) -> (r: bool)
        ensures
            r == (self@ == other@),
    {
        let mut i: usize = 0;
        while i < KEY_LEN
            invariant
                i <= KEY_LEN,
                self@.len() == KEY_LEN,
                other@.len() == KEY_LEN,
                forall|j: int| 0 <= j < i ==> self@[j] == other@[j],
            decreases KEY_LEN - i,
        {
            if self.bytes[i] != other.bytes[i] {
                return false;
            }
            i = i + 1;
        }
        proof {
            assert(self@ =~= other@);
        }
        true
    }
}

/// A 32-byte secret: a static private key or a pre-shared key.
#[derive(Clone, Copy, Debug, PartialEq, Eq)]
pub struct SecretKey {
    bytes: [u8; KEY_LEN],
}

impl View for SecretKey {
    type V = Seq<u8>;

    closed spec fn view(&self) -> Seq<u8> {
        self.bytes@
    }
}

impl SecretKey {
    /// Wraps raw secret bytes.
    pub fn from_bytes(bytes: [u8; KEY_LEN]) -> (k: Self)
        ensures
            k@ == bytes@,
    {
        SecretKey { bytes }
    }

    /// The secret's bytes.
    pub fn as_bytes(&self) -> (b: [u8; KEY_LEN])
        ensures
            b@ == self@,
    {
        self.bytes
    }
}

} // verus!
