//! Errors surfaced by the lease subsystem.

use vstd::prelude::*;

verus! {

/// Everything a lease operation can fail with.
#[derive(Debug, Clone, PartialEq, Eq)]
pub enum ExecuteError {
    /// The id names no live lease.
    LeaseNotFound(i64),
    /// A grant named an id that is already live.
    LeaseAlreadyExists(i64),
    /// A renewal reached a lease whose expiry has passed.
    LeaseExpired(i64),
    /// A grant asked for a time to live above the maximum.
    LeaseTtlTooLarge(i64),
    /// A keep-alive reached a follower.
    LeaseNotLeader,
    /// The persistent store failed or returned an undecodable record.
    DbError(DbFault),
}

/// What went wrong at the persistent store.
#[derive(Debug, Clone, Copy, PartialEq, Eq, Structural)]
pub enum DbFault {
    /// A stored lease record does not decode.
    CorruptLeaseRecord,
    /// A stored lease record carries the reserved id zero.
    ZeroLeaseId,
    /// The key-to-revision index has no entry for an attached key.
    MissingIndexEntry,
    /// The key-value table has no record for a revision the index returned.
    MissingKeyValue,
}

} // verus!
