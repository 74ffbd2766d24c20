//! Random choice of mine positions.
use rand::seq::SliceRandom;
use vstd::prelude::*;

verus! {

/// Relies on rand's `SliceRandom::partial_shuffle`, driven by `rand::thread_rng`:
/// it only swaps elements of the slice, and the first slice that it returns is
/// the last `min(amount, len)` elements of the slice as it leaves it.
#[verifier::external_body]
pub(crate) fn select_random_coords(coords: &mut Vec<(usize, usize)>, amount: usize) -> (r: Vec<(usize, usize)>)
    ensures
        final(coords)@.to_multiset() == old(coords)@.to_multiset(),
        r@ == final(coords)@.subrange(
            final(coords)@.len() - (if amount < final(coords)@.len() { amount as int } else { final(coords)@.len() as int }),
            final(coords)@.len() as int,
        ),
{
    let mut rng = rand::thread_rng();
    coords.partial_shuffle(&mut rng, amount).0.to_vec()
}

} // verus!
