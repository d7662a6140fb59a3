//! The reasons for which a ledger operation is refused.

use vstd::prelude::*;

verus! {

/// Why an operation was refused. A refused operation leaves the ledger
/// exactly as it was.
#[derive(Clone, Copy, Debug, PartialEq, Eq, Structural)]
pub enum LedgerError {
    /// The required principal has not authorized the call, or the caller is
    /// not the principal the record names.
    Unauthorized,
    /// The event or token referred to does not exist.
    NotFound,
    /// The event is not active.
    InvalidState,
    /// The event has no free place left.
    CapacityExceeded,
    /// The attendee already holds a ticket for the event.
    DuplicateTicket,
    /// The attendee has already joined.
    AlreadyJoined,
    /// The reward of the event was already paid to the principal.
    AlreadyClaimed,
    /// The event has no reward amount set.
    NoRewardConfigured,
    /// The sender holds less than the amount to transfer.
    InsufficientBalance,
    /// The administrator holds less than the rewards to pay.
    InsufficientPool,
    /// The amount to transfer is zero or negative.
    InvalidAmount,
    /// The ledger has not been initialized.
    NotInitialized,
    /// The ledger was initialized before.
    AlreadyInitialized,
    /// A counter, an identifier or a balance would leave the range of its
    /// integer type.
    Overflow,
}

} // verus!
