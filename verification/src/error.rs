//! Errors that can occur during an operation on the channel ledger.

use vstd::prelude::*;

verus! {

/// Contains all errors that can occur during an operation on the ledger.
#[derive(Debug, Clone, Copy, PartialEq, Eq, Structural)]
pub enum Error {
    /// Any kind of signature mismatch.
    Authentication,
    /// A withdrawal or dispute action was attempted on a channel whose
    /// challenge window has not elapsed and which is not finalized.
    NotFinalized,
    /// A deposit or withdrawal has been disputed after conclusion.
    AlreadyConcluded,
    /// In some way, the input was invalid.
    InvalidInput,
    /// A non-initial state's allocation total exceeds the funds deposited
    /// into the channel.
    InsufficientFunding,
    /// There is not enough liquidity in the pool to perform a withdrawal.
    InsufficientLiquidity,
    /// A state that is registered for dispute is not newer than the
    /// previously registered state.
    OutdatedState,
    /// The external ledger transfer or verification call failed.
    LedgerError,
    /// An external transaction could not be confirmed as matching the
    /// claimed funding and amount.
    ConfirmationError,
}

} // verus!
