//! The single source of randomness of the simulation.

use rand::Rng;
use vstd::prelude::*;

verus! {

/// Draws one index from the half-open range `low..high` with
/// `rand::Rng::gen_range` on the thread-local generator that
/// `rand::thread_rng` hands out.
///
/// Trusted, not proved: the drawn value lies within the range it was asked
/// from, as the generator documents for `low..high`. Nothing is claimed of
/// which value comes, and two draws from one range may differ. The
/// generator panics on an empty range, which the precondition excludes; it
/// also panics if the system cannot seed it, which no argument decides.
#[verifier::external_body]
pub(crate) fn random_in_range(low: usize, high: usize) -> (drawn: usize)
    requires
        low < high,
    ensures
        low <= drawn < high,
{
    rand::thread_rng().gen_range(low..high)
}

} // verus!
