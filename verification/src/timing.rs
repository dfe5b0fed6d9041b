//! Measuring how long a computation takes.

use std::time::{Duration, Instant};
use vstd::prelude::*;

verus! {

/// A point in time.
#[verifier::external_type_specification]
#[verifier::external_body]
pub struct ExInstant(std::time::Instant);

/// `Clone::clone` of `std::time::Duration`, which can be copied: the clone is the
/// same duration.
pub assume_specification [<Duration as Clone>::clone] (d: &Duration) -> (r: Duration)
    ensures
        r == *d,
;

/// Calls `std::time::Instant::now`. Nothing is stated of the point in time.
#[verifier::external_body]
pub(crate) fn now() -> Instant {
    Instant::now()
}

/// Calls `std::time::Instant::elapsed`: the time since a point in time, of which
/// nothing is stated.
#[verifier::external_body]
pub(crate) fn since(start: &Instant) -> Duration {
    start.elapsed()
}

/// Calls `Duration::default`, which gives the duration of no time; durations are
/// opaque here, so this is not stated.
#[verifier::external_body]
pub(crate) fn no_time() -> Duration {
    Duration::default()
}

/// Runs a computation and gives its result, with the time that it took.
pub fn timed<T, F: FnOnce() -> T>(f: F) -> (r: (T, Duration))
    requires
        call_requires(f, ()),
    ensures
        call_ensures(f, (), r.0),
{
    let start = now();
    let result = f();
    (result, since(&start))
}

} // verus!
