//! Wall-clock deadlines for the searches.

use vstd::prelude::*;
use std::time::{Duration, Instant};

verus! {

#[verifier::external_type_specification]
#[verifier::external_body]
pub struct ExInstant(Instant);

/// `std::time::Instant::now`: the current time.  It depends on the clock,
/// so nothing is claimed of it.
#[verifier::external_body]
fn now() -> Instant {
    Instant::now()
}

/// `<Instant as PartialOrd>::ge`: whether `a` is at or after `b`.  Instants
/// are opaque here, so nothing is claimed of the answer.
#[verifier::external_body]
fn instant_at_or_after(a: &Instant, b: &Instant) -> bool {
    *a >= *b
}

/// Whether the current time has reached `deadline`.
pub(crate) fn deadline_reached(deadline: &Instant) -> bool {
    let t = now();
    instant_at_or_after(&t, deadline)
}

/// `std::time::Duration::from_millis`: a span of `ms` milliseconds.  The
/// value is opaque here, so nothing is claimed of it.
#[verifier::external_body]
pub(crate) fn millis(ms: u64) -> Duration {
    Duration::from_millis(ms)
}

/// `std::time::Instant::checked_add`: the instant `d` after `start`, or
/// `None` when the platform cannot represent it.  Instants are opaque here,
/// so nothing is claimed of the result.
#[verifier::external_body]
pub(crate) fn checked_deadline(start: &Instant, d: Duration) -> Option<Instant> {
    start.checked_add(d)
}

/// Whether an optional deadline has passed; no deadline never passes.
pub fn deadline_passed(deadline: &Option<Instant>) -> (r: bool)
    ensures
        deadline is None ==> !r,
{
    match deadline {
        Some(d) => deadline_reached(d),
        None => false,
    }
}

} // verus!
