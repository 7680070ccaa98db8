//! The time.
use vstd::prelude::*;

verus! {

/// `std::time::SystemTime::now`, as whole milliseconds since the Unix epoch;
/// zero before it. Nothing is claimed of the time.
#[verifier::external_body]
pub(crate) fn clock_millis() -> (r: u64) {
    std::time::SystemTime::now()
        .duration_since(std::time::UNIX_EPOCH)
        .map(|elapsed| elapsed.as_millis() as u64)
        .unwrap_or(0)
}

} // verus!
