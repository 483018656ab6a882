//! The simulation's random source: a generator owned by the `World`, with the
//! few draws the physics pass needs. Each function here wraps one `rand`
//! call; nothing is assumed about which value comes back beyond its range.

use vstd::prelude::*;

verus! {

#[verifier::external_type_specification]
#[verifier::external_body]
pub struct ExStdRng(rand::rngs::StdRng);

/// Relies on rand::SeedableRng::from_entropy: a fresh generator seeded from
/// the operating system. Nothing is assumed of the values it will produce;
/// it aborts only if the platform's entropy source fails, which this library
/// treats as fatal, like allocation failure.
#[verifier::external_body]
pub(crate) fn rng_from_entropy() -> rand::rngs::StdRng {
    <rand::rngs::StdRng as rand::SeedableRng>::from_entropy()
}

/// Relies on rand::SeedableRng::seed_from_u64: a generator whose draws are a
/// function of the seed, so a run can be repeated. Nothing is assumed of the
/// values it will produce.
#[verifier::external_body]
pub(crate) fn rng_from_seed(seed: u64) -> rand::rngs::StdRng {
    <rand::rngs::StdRng as rand::SeedableRng>::seed_from_u64(seed)
}

/// Relies on rand::Rng::gen::<bool>: a coin flip; either value may come back.
#[verifier::external_body]
pub(crate) fn coin(rng: &mut rand::rngs::StdRng) -> bool {
    <rand::rngs::StdRng as rand::Rng>::gen::<bool>(rng)
}

/// Relies on rand::Rng::gen_range on `lo..hi`: a value in `[lo, hi)`. The
/// method panics on an empty range, which the precondition rules out.
#[verifier::external_body]
pub(crate) fn pick_in_range(rng: &mut rand::rngs::StdRng, lo: usize, hi: usize) -> (r: usize)
    requires
        lo < hi,
    ensures
        lo <= r < hi,
{
    <rand::rngs::StdRng as rand::Rng>::gen_range(rng, lo..hi)
}

/// Relies on rand::seq::SliceRandom::shuffle: the slice is permuted in
/// place, so the new contents are the old contents in some order.
#[verifier::external_body]
pub(crate) fn shuffle_values(rng: &mut rand::rngs::StdRng, v: &mut Vec<usize>)
    ensures
        final(v)@.to_multiset() == old(v)@.to_multiset(),
{
    rand::seq::SliceRandom::shuffle(v.as_mut_slice(), rng);
}

} // verus!
