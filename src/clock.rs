//! The monotonic clock that times a game. Its readings are carried through the
//! library as opaque values: nothing here depends on what they hold.

use vstd::prelude::*;
use std::time::{Duration, Instant};

verus! {

#[verifier::external_type_specification]
#[verifier::external_body]
pub struct ExInstant(Instant);

/// Relies on `std::time::Instant::now`: a reading of the monotonic clock.
#[verifier::external_body]
pub(crate) fn now() -> (r: Instant) {
    Instant::now()
}

/// The time from `earlier` to `later`, or zero when `earlier` is the later of the two.
pub uninterp spec fn elapsed_of(later: Instant, earlier: Instant) -> Duration;

/// A span of `secs` whole seconds.
pub uninterp spec fn span_of(secs: u64) -> Duration;

/// Relies on `std::time::Instant::saturating_duration_since`: the time from
/// `earlier` to `later`, or zero when `earlier` is the later of the two; it depends
/// on the two instants alone.
#[verifier::external_body]
pub(crate) fn elapsed_between(later: Instant, earlier: Instant) -> (r: Duration)
    ensures
        r == elapsed_of(later, earlier),
{
    later.saturating_duration_since(earlier)
}

/// Relies on `std::time::Instant::checked_sub`: the instant `d` before `t`, or
/// `None` when the clock cannot represent it.
#[verifier::external_body]
pub(crate) fn instant_before(t: Instant, d: Duration) -> (r: Option<Instant>) {
    t.checked_sub(d)
}

/// Relies on `std::time::Duration::from_secs`: a span of whole seconds.
#[verifier::external_body]
pub(crate) fn seconds(secs: u64) -> (r: Duration)
    ensures
        r == span_of(secs),
{
    Duration::from_secs(secs)
}

} // verus!
