//! Wall-clock measurement for the evaluator's timing wrapper.

use vstd::prelude::*;

verus! {

#[verifier::external_type_specification]
#[verifier::external_body]
pub struct ExInstant(std::time::Instant);

/// Relies on `std::time::Instant::now`: a point in time; nothing is assumed
/// of its value.
#[verifier::external_body]
pub(crate) fn instant_now() -> (r: std::time::Instant)
{
    std::time::Instant::now()
}

/// Relies on `Instant::elapsed` and `Duration::as_nanos`: the nanoseconds
/// since `start`; nothing is assumed of the value.
#[verifier::external_body]
pub(crate) fn elapsed_nanos(start: &std::time::Instant) -> (r: u128)
{
    start.elapsed().as_nanos()
}

} // verus!
