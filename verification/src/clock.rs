//! Trusted declarations of std's clock types and thin wrappers around the
//! few clock calls the profile model makes. Nothing is promised of the
//! values they return: they depend on the time of the call.

use vstd::prelude::*;

verus! {

/// std's monotonic clock reading, declared opaquely.
#[verifier::external_type_specification]
#[verifier::external_body]
pub struct ExInstant(std::time::Instant);

/// std's wall-clock reading, declared opaquely.
#[verifier::external_type_specification]
#[verifier::external_body]
pub struct ExSystemTime(std::time::SystemTime);

/// std's error for a wall-clock span that would be negative.
#[verifier::external_type_specification]
#[verifier::external_body]
pub struct ExSystemTimeError(std::time::SystemTimeError);

/// Relies on std's `Instant::now`: an opaque monotonic time point.
#[verifier::external_body]
pub(crate) fn instant_now() -> std::time::Instant {
    std::time::Instant::now()
}

/// Relies on std's `SystemTime::now`: the current wall-clock time.
#[verifier::external_body]
pub(crate) fn system_time_now() -> std::time::SystemTime {
    std::time::SystemTime::now()
}

/// Relies on std's `SystemTime::UNIX_EPOCH`: the epoch reference point.
#[verifier::external_body]
pub(crate) fn unix_epoch() -> std::time::SystemTime {
    std::time::SystemTime::UNIX_EPOCH
}

/// Relies on std's `Instant::elapsed`: the time since the instant was taken.
#[verifier::external_body]
pub(crate) fn instant_elapsed(t: &std::time::Instant) -> std::time::Duration {
    t.elapsed()
}

/// Relies on std's `SystemTime::duration_since`: the span from `earlier` to
/// `t`, or an error if `earlier` is later than `t`.
#[verifier::external_body]
pub(crate) fn system_time_duration_since(
    t: &std::time::SystemTime,
    earlier: std::time::SystemTime,
) -> Result<std::time::Duration, std::time::SystemTimeError> {
    t.duration_since(earlier)
}

/// The total nanoseconds a span holds; named after std's
/// `Duration::as_nanos`, a function of the duration alone.
pub uninterp spec fn duration_nanos_of(d: std::time::Duration) -> nat;

/// Relies on std's `Duration::as_nanos`: the whole span in nanoseconds,
/// a function of the duration alone.
#[verifier::external_body]
pub(crate) fn duration_as_nanos(d: &std::time::Duration) -> (r: u128)
    ensures
        r == duration_nanos_of(*d),
{
    d.as_nanos()
}

} // verus!
