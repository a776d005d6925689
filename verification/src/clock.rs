//! Monotonic time, in nanoseconds since a fixed origin.

use std::time::{Duration, Instant};

use vstd::prelude::*;

verus! {

#[verifier::external_type_specification]
#[verifier::external_body]
pub struct ExInstant(Instant);

/// Calls `Instant::now`. The result depends on the clock: nothing is
/// stated of it.
#[verifier::external_body]
pub(crate) fn instant_now() -> Instant {
    Instant::now()
}

/// Calls `Instant::elapsed`. The result depends on the clock: nothing is
/// stated of it.
#[verifier::external_body]
pub(crate) fn instant_elapsed(origin: &Instant) -> Duration {
    origin.elapsed()
}

/// Calls `Duration::as_nanos`; nothing is stated of the number.
#[verifier::external_body]
pub(crate) fn duration_as_nanos(d: &Duration) -> u128 {
    d.as_nanos()
}

/// `ns`, saturated at `u64::MAX`.
pub(crate) fn saturate_nanos(ns: u128) -> (r: u64)
    ensures
        r == (if ns > u64::MAX { u64::MAX as u128 } else { ns }),
{
    if ns > u64::MAX as u128 {
        u64::MAX
    } else {
        ns as u64
    }
}

/// Nanoseconds elapsed since `origin`, saturating at `u64::MAX`. The
/// number depends on the clock: any `u64` can come back.
pub(crate) fn nanos_since(origin: &Instant) -> u64 {
    let d = instant_elapsed(origin);
    let ns = duration_as_nanos(&d);
    saturate_nanos(ns)
}

} // verus!
