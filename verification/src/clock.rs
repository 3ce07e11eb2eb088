//! The wall clock.
use vstd::prelude::*;

verus! {

/// Calls `chrono::Utc::now().timestamp()`: the current time in whole seconds
/// since the Unix epoch.  It depends on the clock, so nothing is claimed of it.
#[verifier::external_body]
pub(crate) fn now_seconds() -> (r: i64) {
    chrono::Utc::now().timestamp()
}

/// Calls `chrono::Utc::now().timestamp_millis()`: the current time in
/// milliseconds since the Unix epoch.  Nothing is claimed of it.
#[verifier::external_body]
pub(crate) fn now_millis() -> (r: i64) {
    chrono::Utc::now().timestamp_millis()
}

} // verus!
