//! Durations, by the nanoseconds they span.
use std::time::Duration;
use vstd::prelude::*;

verus! {

/// The nanoseconds that a duration spans.
pub uninterp spec fn nanos(d: Duration) -> u128;

/// `Duration::as_nanos`: the nanoseconds that the duration spans.
pub assume_specification[ Duration::as_nanos ](d: &Duration) -> (n: u128)
    ensures
        n == nanos(*d),
;

/// `Duration::from_millis`: the duration spans a million nanoseconds for each
/// millisecond.
pub assume_specification[ Duration::from_millis ](millis: u64) -> (d: Duration)
    ensures
        nanos(d) == millis * 1_000_000,
;

/// `Duration::saturating_sub`: the difference, or nothing where it would be
/// negative.
pub assume_specification[ Duration::saturating_sub ](a: Duration, b: Duration) -> (d: Duration)
    ensures
        nanos(d) == if nanos(a) >= nanos(b) {
            nanos(a) - nanos(b)
        } else {
            0
        },
;

} // verus!
