//! The random source that rollouts draw their actions from.
use vstd::prelude::*;
use rand::rngs::{OsRng, StdRng};
use rand::{Rng, SeedableRng};

verus! {

#[verifier::external_type_specification]
#[verifier::external_body]
pub struct ExStdRng(StdRng);

/// Relies on rand's `Rng::gen_range`: on the non-empty range `0..n` it returns a
/// value of that range.
#[verifier::external_body]
pub(crate) fn draw_below(rng: &mut StdRng, n: usize) -> (r: usize)
    requires
        n > 0,
    ensures
        r < n,
{
    rng.gen_range(0..n)
}

/// Relies on rand's `SeedableRng::seed_from_u64`: a generator determined by `seed`.
#[verifier::external_body]
pub(crate) fn seeded_rng(seed: u64) -> StdRng {
    StdRng::seed_from_u64(seed)
}

/// Relies on rand's `SeedableRng::from_rng` with `OsRng`: a generator seeded by
/// the operating system, or `None` when the system gives no entropy.
#[verifier::external_body]
pub(crate) fn entropy_rng() -> Option<StdRng> {
    StdRng::from_rng(OsRng).ok()
}

} // verus!
