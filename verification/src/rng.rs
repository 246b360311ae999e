use vstd::prelude::*;
use crate::direction::Direction;
use rand::seq::IndexedRandom;
use rand::RngExt;

verus! {

/// Relies on rand's `RngExt::random_range` over `0..bound`, on the
/// thread-local generator: a value drawn uniformly from [0, bound).
/// `random_range` panics on an empty range, so the bound must be positive.
#[verifier::external_body]
pub(crate) fn random_below(bound: i8) -> (r: i8)
    requires
        bound >= 1,
    ensures
        0 <= r < bound,
{
    rand::rng().random_range(0..bound)
}

/// Relies on rand's `IndexedRandom::choose`, on the thread-local
/// generator: a uniformly sampled element of the slice, or `None` exactly
/// when the slice is empty.
#[verifier::external_body]
pub(crate) fn choose_direction(choices: &Vec<Direction>) -> (r: Option<Direction>)
    ensures
        r is Some <==> choices@.len() > 0,
        r matches Some(d) ==> choices@.contains(d),
{
    choices.as_slice().choose(&mut rand::rng()).copied()
}

} // verus!
