//! The one place the library reads a clock. Instants are whole seconds,
//! carried as `u64`; every function whose outcome depends on the time also
//! exists in a form that takes the instant as an argument and carries the
//! exact contract.

use std::time::SystemTime;

use vstd::prelude::*;

verus! {

/// Relies on std::time::SystemTime::now: the current time, read as whole
/// seconds since the epoch. Nothing is promised of the value — the clock is
/// the machine's and may jump; a reading before the epoch comes back as
/// zero.
#[verifier::external_body]
pub fn clock_now() -> u64 {
    match SystemTime::now().duration_since(SystemTime::UNIX_EPOCH) {
        Ok(d) => d.as_secs(),
        Err(_) => 0,
    }
}

} // verus!
