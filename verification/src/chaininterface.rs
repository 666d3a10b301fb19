//! Vocabulary shared with whoever watches the chain and estimates fees.

use vstd::prelude::*;

verus! {

/// Why a chain lookup could not be answered.
#[must_use]
#[derive(Clone, Copy, Debug, PartialEq, Eq, Structural)]
pub enum ChainError {
    /// The client does not support UTXO lookup, though the chain is the right one.
    NotSupported,
    /// The chain is not the one that is watched.
    NotWatched,
    /// The transaction does not exist or is unconfirmed.
    UnknownTx,
}

/// How quickly a transaction should confirm, for fee estimation.
#[must_use]
#[derive(Clone, Copy, Debug, PartialEq, Eq, Structural)]
pub enum ConfirmationTarget {
    /// Confirming slowly, when fees drop, is fine.
    Background,
    /// Without major delay; a dozen blocks or so is fine.
    Normal,
    /// Within the next few blocks.
    HighPriority,
}

} // verus!
