use vstd::prelude::*;
use rand::Rng;
use std::time::{Duration, Instant};

verus! {

/// A point in time as the machine's monotonic clock gives it.
#[verifier::external_type_specification]
#[verifier::external_body]
pub struct ExInstant(Instant);

/// `Instant::now`: the present time. Nothing is known of it.
pub assume_specification[ Instant::now ]() -> Instant;

/// `Instant::elapsed`: the time that has passed since the instant. Nothing
/// is known of it.
pub assume_specification[ Instant::elapsed ](start: &Instant) -> Duration;

/// `Duration::as_secs`: the whole seconds that the duration holds. Nothing
/// is known of it here, a duration being opaque.
pub assume_specification[ Duration::as_secs ](d: &Duration) -> u64;

/// `rand`'s `random_range` over `0..len`, on the generator of the calling
/// thread: some index below `len`. The call panics on an empty range, which
/// `requires` leaves out.
#[verifier::external_body]
pub(crate) fn random_index(len: usize) -> (i: usize)
    requires
        len > 0,
    ensures
        i < len,
{
    rand::rng().random_range(0..len)
}

/// Whether fewer than `limit` whole seconds have passed since `start`.
pub(crate) fn within_seconds(start: &Instant, limit: u64) -> (within: bool)
    ensures
        limit == 0 ==> !within,
{
    seconds_within(start.elapsed().as_secs(), limit)
}

/// Whether a span of `elapsed` whole seconds lies within a limit of `limit`
/// seconds: it is shorter than the limit. No span lies within the limit 0,
/// so with that limit the clock decides nothing.
pub fn seconds_within(elapsed: u64, limit: u64) -> (within: bool)
    ensures
        within == (elapsed < limit),
{
    elapsed < limit
}

} // verus!
