use rand::Rng;
use vstd::prelude::*;

verus! {

#[verifier::external_type_specification]
#[verifier::external_body]
pub struct ExStdRng(rand::rngs::StdRng);

/// Relies on `rand::SeedableRng::seed_from_u64`: a generator seeded from `seed`.
#[verifier::external_body]
pub(crate) fn seeded(seed: u64) -> rand::rngs::StdRng {
    <rand::rngs::StdRng as rand::SeedableRng>::seed_from_u64(seed)
}

/// Relies on `rand::Rng::gen_range` over `0..n`: a value in the range; an empty
/// range panics, so `n` is positive.
#[verifier::external_body]
pub(crate) fn seeded_below(rng: &mut rand::rngs::StdRng, n: usize) -> (r: usize)
    requires
        n > 0,
    ensures
        r < n,
{
    rng.gen_range(0..n)
}

} // verus!
