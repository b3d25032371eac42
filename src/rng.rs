use vstd::prelude::*;
use rand::seq::SliceRandom;
use rand::Rng;
use crate::grid::Direction;

verus! {

/// The seedable generator of `rand`, carried through the library unopened.
#[verifier::external_type_specification]
#[verifier::external_body]
pub struct ExStdRng(rand::rngs::StdRng);

/// Relies on `rand::seq::SliceRandom::shuffle`: it permutes the elements in
/// place, so the same moves come back, in some order.
#[verifier::external_body]
pub(crate) fn shuffle_moves(moves: &mut Vec<Direction>, rng: &mut rand::rngs::StdRng)
    ensures
        final(moves)@.to_multiset() == old(moves)@.to_multiset(),
{
    moves.shuffle(rng);
}

/// Relies on `rand::seq::index::sample`: exactly `amount` distinct indices
/// from `0..length`; it panics only when `amount > length`.
#[verifier::external_body]
pub(crate) fn sample_indices(rng: &mut rand::rngs::StdRng, length: usize, amount: usize) -> (r: Vec<
    usize,
>)
    requires
        amount <= length,
    ensures
        r@.len() == amount,
        forall|i: int| 0 <= i < r@.len() ==> r@[i] < length,
        forall|i: int, j: int| 0 <= i < j < r@.len() ==> r@[i] != r@[j],
{
    rand::seq::index::sample(rng, length, amount).into_vec()
}

/// Relies on `rand::Rng::gen_range` over `lo..hi`: a value in that range; it
/// panics only on an empty range.
#[verifier::external_body]
pub(crate) fn random_in(rng: &mut rand::rngs::StdRng, lo: i32, hi: i32) -> (r: i32)
    requires
        lo < hi,
    ensures
        lo <= r < hi,
{
    rng.gen_range(lo..hi)
}

} // verus!
