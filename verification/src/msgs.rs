//! Addresses under which a peer can be reached.

use vstd::prelude::*;
use crate::c_types::{FourBytes, SixteenBytes, TenBytes, ThirtyTwoBytes};

verus! {

/// An address which can be used to connect to a remote peer.
#[must_use]
#[derive(Clone)]
#[allow(inconsistent_fields)]
pub enum NetAddress {
    /// An IPv4 address and port on which the peer is listening.
    IPv4 { addr: FourBytes, port: u16 },
    /// An IPv6 address and port on which the peer is listening.
    IPv6 { addr: SixteenBytes, port: u16 },
    /// An old-style Tor onion address and port on which the peer is listening.
    OnionV2 { addr: TenBytes, port: u16 },
    /// A new-style Tor onion address and port on which the peer is listening.
    /// The human-readable hostname is the base32 form of key, checksum and
    /// version, followed by ".onion".
    OnionV3 { ed25519_pubkey: ThirtyTwoBytes, checksum: u16, version: u8, port: u16 },
}

} // verus!
