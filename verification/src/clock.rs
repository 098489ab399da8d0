//! The system clock.
use vstd::prelude::*;

verus! {

/// Calls `SystemTime::elapsed` on the Unix epoch and hands out the microseconds,
/// or nothing where the clock stands before the epoch. Nothing is promised of the
/// reading.
#[verifier::external_body]
pub(crate) fn micros_since_epoch() -> Option<u128> {
    match std::time::UNIX_EPOCH.elapsed() {
        Ok(duration) => Some(duration.as_micros()),
        Err(_) => None,
    }
}

} // verus!
