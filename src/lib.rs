//! A log-structured key/value store: records are appended to segment files
//! and an in-memory index maps every live key to its latest record.
use vstd::prelude::*;

pub mod codec;
pub mod store;
pub mod laws;

pub use codec::KvsError;
pub use store::{DiskOp, KvStore, Segment};

verus! {

/// Relies on `SystemTime::now` and `SystemTime::duration_since`: whole
/// seconds since the Unix epoch, or `None` for a clock set before it.
/// Nothing is promised of the value.
#[verifier::external_body]
fn seconds_since_epoch() -> Option<u64> {
    match std::time::SystemTime::now().duration_since(std::time::UNIX_EPOCH) {
        Ok(d) => Some(d.as_secs()),
        Err(_) => None,
    }
}

/// Seconds since the Unix epoch by the system clock; zero for a clock set
/// before the epoch.
pub fn unix_time() -> u64 {
    match seconds_since_epoch() {
        Some(s) => s,
        None => 0,
    }
}

} // verus!
