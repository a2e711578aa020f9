//! Wrappers around the `rand` crate: the one source of randomness in the
//! library. Every contract here states only what holds of every possible
//! outcome of the call.

use vstd::prelude::*;
use rand::seq::SliceRandom;
use rand::Rng;

verus! {

/// Relies on rand's `SliceRandom::shuffle`: it permutes the slice in place,
/// so the multiset of elements is unchanged.
#[verifier::external_body]
pub fn shuffle<T>(v: &mut Vec<T>)
    ensures
        final(v)@.to_multiset() == old(v)@.to_multiset(),
{
    let mut rng = rand::thread_rng();
    v.shuffle(&mut rng);
}

/// Relies on rand's `Rng::gen_range`: it returns a value uniformly drawn
/// from the given range, and panics when the range is empty (hence the
/// precondition).
#[verifier::external_body]
pub fn random_below(n: usize) -> (r: usize)
    requires
        n > 0,
    ensures
        r < n,
{
    rand::thread_rng().gen_range(0..n)
}

/// Relies on rand's `random::<bool>()`: a fair coin flip. Nothing can be
/// promised of the value itself.
#[verifier::external_body]
pub fn random_bool() -> bool {
    rand::random::<bool>()
}

} // verus!
