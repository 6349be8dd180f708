//! Wall-clock time of the optimization stages.

use std::time::{Duration, Instant};
use vstd::prelude::*;

verus! {

/// A reading of the clock, [`std::time::Instant`], carried through as an opaque
/// value.
#[verifier::external_type_specification]
#[verifier::external_body]
pub struct ExInstant(Instant);

/// [`std::time::Instant::now`]. Nothing is claimed of the reading.
pub assume_specification[ Instant::now ]() -> Instant
;

/// [`std::time::Instant::elapsed`]. Nothing is claimed of the time that has
/// passed.
pub assume_specification[ Instant::elapsed ](since: &Instant) -> Duration
;

/// [`std::time::Duration::as_nanos`]. Nothing is claimed of the number.
pub assume_specification[ Duration::as_nanos ](span: &Duration) -> u128
;

/// Whether `nanos` are the nanoseconds of a span that had passed since a reading
/// of the clock.
pub open spec fn passed_since(since: Instant, nanos: u128) -> bool {
    exists|span: Duration| #[trigger]
        call_ensures(Instant::elapsed, (&since,), span) && call_ensures(
            Duration::as_nanos,
            (&span,),
            nanos,
        )
}

/// Whether `nanos` were measured: they had passed since some reading of the
/// clock.
pub open spec fn measured(nanos: u128) -> bool {
    exists|since: Instant| #[trigger]
        call_ensures(Instant::now, (), since) && passed_since(since, nanos)
}

/// What was measured is the nanoseconds of a span that the clock gave for a
/// reading of its own.
pub proof fn law_measured_times_are_readings(nanos: u128)
    requires
        measured(nanos),
    ensures
        exists|since: Instant, span: Duration|
            #![trigger call_ensures(Instant::now, (), since), call_ensures(
                Duration::as_nanos,
                (&span,),
                nanos,
            )]
            call_ensures(Instant::now, (), since) && call_ensures(
                Instant::elapsed,
                (&since,),
                span,
            ) && call_ensures(Duration::as_nanos, (&span,), nanos),
{
    let since = choose|since: Instant| #[trigger]
        call_ensures(Instant::now, (), since) && passed_since(since, nanos);
    let span = choose|span: Duration| #[trigger]
        call_ensures(Instant::elapsed, (&since,), span) && call_ensures(
            Duration::as_nanos,
            (&span,),
            nanos,
        );
    assert(call_ensures(Instant::now, (), since) && call_ensures(
        Duration::as_nanos,
        (&span,),
        nanos,
    ));
}

/// The nanoseconds since a reading of the clock: those of the span that has
/// passed since then, whatever it is.
pub(crate) fn nanos_since(since: &Instant) -> (r: u128)
    ensures
        passed_since(*since, r),
{
    let span = since.elapsed();
    assert(call_ensures(Instant::elapsed, (since,), span));
    span.as_nanos()
}

} // verus!
