use vstd::prelude::*;
use rand::rngs::StdRng;
use rand::seq::SliceRandom;
use rand::{Rng, SeedableRng};
use crate::cell::Coord;

verus! {

#[verifier::external_type_specification]
#[verifier::external_body]
pub struct ExStdRng(StdRng);

/// Relies on rand's `SeedableRng::seed_from_u64`: a generator whose draws
/// depend on the seed alone.
#[verifier::external_body]
pub(crate) fn seeded_rng(seed: u64) -> StdRng {
    StdRng::seed_from_u64(seed)
}

/// Relies on rand's `Rng::gen_range`: on a non-empty range it returns a value
/// inside it (it panics on an empty one).
#[verifier::external_body]
pub(crate) fn random_below(rng: &mut StdRng, n: usize) -> (r: usize)
    requires
        0 < n,
    ensures
        r < n,
{
    rng.gen_range(0..n)
}

/// Relies on rand's `Rng::gen::<bool>`: a fair coin.
#[verifier::external_body]
pub(crate) fn random_bool(rng: &mut StdRng) -> bool {
    rng.gen::<bool>()
}

/// Relies on rand's `SliceRandom::shuffle`: the same items in a random order.
#[verifier::external_body]
pub(crate) fn shuffle(rng: &mut StdRng, v: &mut Vec<usize>)
    ensures
        final(v)@.to_multiset() == old(v)@.to_multiset(),
{
    v.shuffle(rng)
}

/// Relies on rand's `SliceRandom::choose`: `None` on an empty slice, else one
/// of its items.
#[verifier::external_body]
pub(crate) fn pick_one(rng: &mut StdRng, v: &Vec<Coord>) -> (r: Option<Coord>)
    ensures
        r is None <==> v@.len() == 0,
        r matches Some(c) ==> v@.contains(c),
{
    v.choose(rng).copied()
}

} // verus!
