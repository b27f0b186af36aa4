use rand::seq::SliceRandom;
use rand::Rng;
use vstd::prelude::*;

verus! {

/// A number drawn uniformly from `0..n` by `rand::Rng::gen_range` on the
/// thread-local generator (`rand::thread_rng`). The contract claims only that
/// the number lies in the range; which number comes back is chance.
#[verifier::external_body]
pub(crate) fn random_below(n: usize) -> (r: usize)
    requires
        n > 0,
    ensures
        r < n,
{
    rand::thread_rng().gen_range(0..n)
}

/// Puts a list of grid positions in a random order with
/// `rand::seq::SliceRandom::shuffle` on the thread-local generator. The
/// contract claims that the result is a permutation of the input (the same
/// multiset of positions); the order itself is chance.
#[verifier::external_body]
pub(crate) fn shuffle_positions(v: &mut Vec<(usize, usize)>)
    ensures
        final(v)@.to_multiset() == old(v)@.to_multiset(),
        final(v)@.len() == old(v)@.len(),
{
    v.shuffle(&mut rand::thread_rng());
}

/// Puts a list of indices in a random order with
/// `rand::seq::SliceRandom::shuffle` on the thread-local generator. The
/// contract claims that the result is a permutation of the input (the same
/// multiset of indices); the order itself is chance.
#[verifier::external_body]
pub(crate) fn shuffle_indices(v: &mut Vec<usize>)
    ensures
        final(v)@.to_multiset() == old(v)@.to_multiset(),
        final(v)@.len() == old(v)@.len(),
{
    v.shuffle(&mut rand::thread_rng());
}

/// A random 64-bit number from `rand::Rng::gen` on the thread-local
/// generator (`rand::thread_rng`). Nothing is claimed of the value: it is
/// chance.
#[verifier::external_body]
pub(crate) fn random_seed() -> u64 {
    rand::thread_rng().gen::<u64>()
}

/// True with probability `num / den`: a uniform draw below `den` that falls
/// below `num`.
pub fn random_chance(num: usize, den: usize) -> (r: bool)
    requires
        den > 0,
    ensures
        num == 0 ==> !r,
        num >= den ==> r,
{
    random_below(den) < num
}

} // verus!
