//! Wall-clock time.

use vstd::prelude::*;

verus! {

/// The current time in seconds since the Unix epoch.
///
/// Relies on std::time::SystemTime::now; nothing is promised of the clock's
/// value, so every caller states what holds of any time it is handed.
#[verifier::external_body]
pub fn now() -> u64 {
    match std::time::SystemTime::now().duration_since(std::time::SystemTime::UNIX_EPOCH) {
        Ok(d) => d.as_secs(),
        Err(_) => 0,
    }
}

} // verus!
