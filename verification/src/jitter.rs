use rand::Rng;
use vstd::prelude::*;

verus! {

/// A number drawn at random from `low..=high`, each with the same chance.
///
/// This calls `Rng::gen_range` of the `rand` crate on the generator that
/// `rand::thread_rng` keeps for the calling thread, so no draw waits for a
/// draw of another thread. Trusted, not proved: the number drawn lies in the
/// range, both ends included. Nothing is claimed about which number comes.
/// `gen_range` panics on an empty range; `low <= high` leaves that out.
/// The generator is seeded by the system at a thread's first draw and again
/// after every 64 KiB that it has given out, and a draw that seeds panics
/// where the system has no randomness to give.
#[verifier::external_body]
pub(crate) fn uniform_between(low: u128, high: u128) -> (drawn: u128)
    requires
        low <= high,
    ensures
        low <= drawn <= high,
{
    rand::thread_rng().gen_range(low..=high)
}

} // verus!
