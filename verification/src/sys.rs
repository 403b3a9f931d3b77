//! Trusted boundary to the outside world: the randomness the sampling
//! policy draws from, and the clock the search deadline polls.

use vstd::prelude::*;

verus! {

/// Relies on `rand::random_range` over `0..n`: the sampled value lies in
/// the (non-empty, by the precondition) range.  Nothing is claimed about
/// which value comes back.
#[verifier::external_body]
pub(crate) fn random_below(n: usize) -> (r: usize)
    requires
        n >= 1,
    ensures
        r < n,
{
    rand::random_range(0..n)
}

/// Relies on `time::OffsetDateTime::now_utc` / `unix_timestamp_nanos`: the
/// clock reading in nanoseconds since the Unix epoch.  `OffsetDateTime`'s
/// value range is bounded (years -9999..=9999, or -999999..=999999 with the
/// `large-dates` feature), so the reading stays well within 2^80 in
/// magnitude; nothing else is claimed about it.
#[verifier::external_body]
pub(crate) fn now_ns() -> (r: i128)
    ensures
        -0x1_0000_0000_0000_0000_0000 < r < 0x1_0000_0000_0000_0000_0000,
{
    time::OffsetDateTime::now_utc().unix_timestamp_nanos()
}

} // verus!
