//! The persisted lease record and its wire encoding: three `int64` fields
//! (`id`, `ttl`, `remaining_ttl`) in length-prefixed protocol-buffer wire
//! format.

use vstd::prelude::*;

verus! {

/// The persisted form of a lease: what survives a restart. Expiry never
/// does; it is rebuilt from leader state.
#[derive(Debug, Clone, Copy, PartialEq, Eq, Structural)]
pub struct PbLease {
    pub id: i64,
    /// Time to live, in seconds.
    pub ttl: i64,
    /// Remaining time to live, in seconds.
    pub remaining_ttl: i64,
}

} // verus!
