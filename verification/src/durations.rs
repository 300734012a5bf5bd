use std::time::Duration;

use vstd::prelude::*;

verus! {

/// The length of a duration in nanoseconds, as `Duration::as_nanos` reports it.
pub uninterp spec fn duration_nanos(d: Duration) -> nat;

/// Calls `Duration::as_nanos`: the whole length of the duration in nanoseconds.
#[verifier::external_body]
pub(crate) fn nanos_of(d: Duration) -> (r: u128)
    ensures
        r == duration_nanos(d),
{
    d.as_nanos()
}

/// Calls `Duration::from_secs`: a duration of `secs` whole seconds.
#[verifier::external_body]
pub(crate) fn duration_from_secs(secs: u64) -> (r: Duration)
    ensures
        duration_nanos(r) == secs * 1_000_000_000,
{
    Duration::from_secs(secs)
}

/// Calls `Duration::sub` (the `-` operator), which panics when the result would be
/// negative; `requires` rules that out.
#[verifier::external_body]
pub(crate) fn duration_minus(a: Duration, b: Duration) -> (r: Duration)
    requires
        duration_nanos(b) <= duration_nanos(a),
    ensures
        duration_nanos(r) == duration_nanos(a) - duration_nanos(b),
{
    a - b
}

} // verus!
