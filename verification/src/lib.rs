//! Lease subsystem of a consensus-replicated key-value store.
//!
//! A lease is a named, time-bounded grant: clients obtain one, attach user
//! keys to it and refresh it periodically; when it expires or is revoked,
//! every attached key is deleted in one logically atomic step and delete
//! events are published for watchers.

use vstd::prelude::*;

pub mod bytes;
pub mod clock;
pub mod codec;
pub mod db;
pub mod error;
pub mod index;
pub mod laws;
pub mod lease;
pub mod lease_collection;
pub mod lease_queue;
pub mod message;
pub mod pb;
pub mod rpc;
pub mod store;

verus! {

/// Maximum time-to-live of a lease, in seconds.
pub const MAX_LEASE_TTL: i64 = 9_000_000_000;

/// Minimum time-to-live of a lease, in seconds.
pub const MIN_LEASE_TTL: i64 = 1;

} // verus!
