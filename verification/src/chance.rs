//! The random generator that protocols draw their timing from.
use rand::rngs::StdRng;
use rand::{Rng, SeedableRng};
use vstd::prelude::*;

verus! {

/// `rand::rngs::StdRng`. Nothing is known of its state.
#[verifier::external_type_specification]
#[verifier::external_body]
pub struct ExStdRng(StdRng);

/// Calls `rand::Rng::gen_range` on an inclusive range from zero. The number
/// drawn lies in that range; which one it is is chance. The range is never
/// empty, so the call does not panic.
#[verifier::external_body]
pub(crate) fn draw_up_to(rng: &mut StdRng, max: u64) -> (r: u64)
    ensures
        r <= max,
{
    rng.gen_range(0..=max)
}

/// The generator that is made from a seed.
pub uninterp spec fn generator(seed: u64) -> StdRng;

/// Calls `rand::SeedableRng::seed_from_u64` for `StdRng`. The generator's
/// state is worked out from the seed and from nothing else. Which numbers it
/// will give is not stated: the crate leaves that open between its releases.
#[verifier::external_body]
pub(crate) fn seeded(seed: u64) -> (r: StdRng)
    ensures
        r == generator(seed),
{
    StdRng::seed_from_u64(seed)
}

/// Calls `rand::SeedableRng::from_entropy` for `StdRng`. Which numbers the
/// generator will give is chance.
#[verifier::external_body]
pub(crate) fn from_entropy() -> StdRng {
    StdRng::from_entropy()
}

} // verus!
