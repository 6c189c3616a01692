//! The two points where the library touches the outside world: fresh
//! order identifiers and the current wall-clock time. Both results are
//! nondeterministic, so nothing is promised of their values; every
//! function that takes one works for every value.

use vstd::prelude::*;

verus! {

/// Relies on uuid's Uuid::new_v4 (a version-4 random identifier) and
/// Uuid::as_u128: draws a fresh random 128-bit identifier.
#[verifier::external_body]
pub fn fresh_order_id() -> u128 {
    uuid::Uuid::new_v4().as_u128()
}

/// Relies on chrono's Utc::now and DateTime::timestamp_micros: the
/// current time as microseconds since the Unix epoch.
#[verifier::external_body]
pub fn now_micros() -> u64 {
    chrono::Utc::now().timestamp_micros() as u64
}

} // verus!
