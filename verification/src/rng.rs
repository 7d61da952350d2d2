//! The source of the coin flips that pick a node's height.

use rand::rngs::SmallRng;
use rand::Rng;
use rand::SeedableRng;
use vstd::prelude::*;

verus! {

/// `rand::rngs::SmallRng`: a generator that the list carries and hands to
/// the calls below. Nothing of its state is known here.
#[verifier::external_type_specification]
#[verifier::external_body]
pub struct ExSmallRng(rand::rngs::SmallRng);

/// Calls `SmallRng::seed_from_u64`. Nothing is claimed of the generator that
/// comes back.
#[verifier::external_body]
pub(crate) fn seeded_rng(seed: u64) -> SmallRng {
    SmallRng::seed_from_u64(seed)
}

/// Calls `Rng::gen_ratio(1, 2)`: one draw that is `true` with probability one
/// half. Nothing is claimed of the outcome.
#[verifier::external_body]
pub(crate) fn coin_flip(rng: &mut SmallRng) -> bool {
    rng.gen_ratio(1, 2)
}

} // verus!
