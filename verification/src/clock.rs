//! The machine's clock, read for statistics only.
use std::time::Instant;

use vstd::prelude::*;

verus! {

/// A moment of the machine's monotonic clock ([`std::time::Instant`]). Nothing
/// is stated of it.
#[verifier::external_type_specification]
#[verifier::external_body]
pub struct ExInstant(std::time::Instant);

/// [`Instant::now`] reads the clock; nothing is promised of the moment.
pub assume_specification[ std::time::Instant::now ]() -> std::time::Instant
;

/// [`Instant::elapsed`] reads the clock; nothing is promised of the duration.
pub assume_specification[ std::time::Instant::elapsed ](moment: &std::time::Instant) -> std::time::Duration
;

/// [`std::time::Duration::as_nanos`] gives the length of a duration; nothing is promised
/// of the lengths of the durations measured here.
pub assume_specification[ std::time::Duration::as_nanos ](length: &std::time::Duration) -> u128
;

/// The nanoseconds since the moment.
pub fn nanos_since(moment: &Instant) -> u128 {
    moment.elapsed().as_nanos()
}

} // verus!
