//! The random numbers that uniform noise is drawn from.
use vstd::prelude::*;

verus! {

/// `rand_chacha::ChaCha8Rng`, a generator of random numbers with a state of its own. Nothing is
/// claimed of what is inside.
#[verifier::external_type_specification]
#[verifier::external_body]
pub struct ExChaCha8Rng(rand_chacha::ChaCha8Rng);

/// The state of random numbers.
pub type Dice = rand_chacha::ChaCha8Rng;

/// What `rand::SeedableRng::seed_from_u64` makes of a seed: a seed gives the same generator on all
/// runs and machines.
pub uninterp spec fn seeded(seed: u64) -> rand_chacha::ChaCha8Rng;

/// `rand::SeedableRng::seed_from_u64` for `ChaCha8Rng`: the generator depends on the seed alone.
#[verifier::external_body]
pub(crate) fn seed_dice(seed: u64) -> (r: rand_chacha::ChaCha8Rng)
    ensures
        r == seeded(seed),
{
    rand::SeedableRng::seed_from_u64(seed)
}

} // verus!
