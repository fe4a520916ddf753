//! The fixed texts that the serving layer reports: the liveness
//! answer and the two failure pages.  The layer that speaks HTTP only
//! wraps these values; what they say is decided here.

use vstd::prelude::*;

verus! {

/// The answer of the liveness probe.
pub fn liveness_probe() -> (r: &'static str)
    ensures
        r@ == "alive"@,
{
    "alive"
}

/// The answer for a request that matches no route.
pub fn not_found() -> (r: &'static str)
    ensures
        r@ == "Not found!"@,
{
    "Not found!"
}

/// The answer for a computation that failed internally; deliberately
/// generic, so no internal state leaks to the caller.
pub fn failed_computation() -> (r: &'static str)
    ensures
        r@ == "Your computation could not be done."@,
{
    "Your computation could not be done."
}

} // verus!
