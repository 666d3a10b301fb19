//! Errors that a caller of the interface can run into.

use vstd::prelude::*;
use crate::c_types::{CVecTempl, Str};

verus! {

/// An error on the client's part, usually some variant of attempting to use
/// too-low or too-high values.
#[must_use]
#[allow(inconsistent_fields)]
pub enum APIError {
    /// The interface was wholly misused; `err` says how. Where this can be
    /// returned is documented with each call; in general some precondition
    /// of the call was violated.
    APIMisuseError { err: CVecTempl<u8> },
    /// Due to a high feerate the request could not be completed: the fee
    /// rate may rule out a channel of the requested value where a larger
    /// one would succeed.
    FeeRateTooHigh { err: CVecTempl<u8>, feerate: u32 },
    /// A malformed route was provided: an overflowed value, a node id
    /// mismatch, too many hops or loops.
    RouteError { err: Str },
    /// The channel needed for the request cannot serve it, or was not
    /// found: the peer is disconnected, the channel at capacity or shutting
    /// down.
    ChannelUnavailable { err: CVecTempl<u8> },
    /// An attempt to add or update a monitor returned an error, which made
    /// the action fail.
    MonitorUpdateFailed,
}

} // verus!
