use vstd::prelude::*;

verus! {

/// Every way an operation of the scheduler can be rejected. A rejected
/// operation leaves all state exactly as it was before the attempt.
#[derive(Clone, Copy, Debug, PartialEq, Eq, Structural)]
pub enum Error {
    /// A cron expression has the wrong number of fields or a field value
    /// outside its domain.
    InvalidExpression,
    /// A task's schedule admits no fire time, or its expiry precedes the
    /// first fire time.
    InvalidSchedule,
    /// A claim arrived before the task's due time.
    NotDue,
    /// A competing claim for the same fire instance already succeeded.
    AlreadyClaimed,
    /// A completion was reported by an identity that does not hold the claim.
    NotClaimed,
    /// The requester is not authorized for the operation.
    Unauthorized,
    /// A client's prepaid balance cannot cover the requested amount.
    InsufficientBalance,
    /// Rotation was requested before the current epoch began.
    TooEarly,
    /// The system singletons already exist.
    AlreadyInitialized,
    /// No record exists for the given identity.
    NotFound,
    /// A stored record is malformed.
    NotParsable,
}

} // verus!
