//! Error kinds of the store. Every operation either commits all of its
//! writes or none of them; the error says why nothing was committed.
use vstd::prelude::*;

verus! {

/// The first uniqueness constraint that a rejected registration violated,
/// in the stable precedence order: id / balance slot, then BTP token, then
/// HTTP token, then settlement address.
#[derive(Clone, Copy, Debug, PartialEq, Eq, Structural)]
pub enum ConflictField {
    IdSlot,
    BtpAuth,
    HttpAuth,
    SettlementAddress,
}

/// Why an operation committed nothing.
#[derive(Clone, Copy, Debug, PartialEq, Eq, Structural)]
pub enum StoreError {
    /// A uniqueness constraint on account registration was violated.
    Conflict(ConflictField),
    /// A transfer would put the debited account below its minimum balance.
    InsufficientBalance,
    /// A credential or a static route's target account does not exist.
    NotFound,
    /// A bulk lookup resolved fewer records than were requested.
    CountMismatch,
    /// The backend connection or a command failed.
    BackendUnavailable,
}

} // verus!
