use vstd::prelude::*;
use rand::Rng;
use rand::SeedableRng;

verus! {

#[verifier::external_type_specification]
#[verifier::external_body]
pub struct ExStdRng(rand::rngs::StdRng);

/// The source of randomness handed to the sampler. It is passed in
/// explicitly, never drawn from a global, so callers can seed it for
/// reproducible runs.
pub struct RandSource {
    inner: rand::rngs::StdRng,
}

impl RandSource {
    /// Relies on rand's `SeedableRng::seed_from_u64` for `StdRng`:
    /// builds a generator from a 64-bit seed. Nothing is claimed about
    /// the values it will produce.
    #[verifier::external_body]
    pub fn from_seed(seed: u64) -> (r: RandSource) {
        RandSource { inner: rand::rngs::StdRng::seed_from_u64(seed) }
    }

    /// Relies on rand's `SeedableRng::from_entropy` for `StdRng`:
    /// builds a generator seeded from the operating system.
    #[verifier::external_body]
    pub fn from_entropy() -> (r: RandSource) {
        RandSource { inner: rand::rngs::StdRng::from_entropy() }
    }

    /// Relies on rand's `Rng::gen_range` on a half-open integer range:
    /// the result lies in `[lo, hi)`. It panics only on an empty range,
    /// which the precondition rules out.
    #[verifier::external_body]
    pub(crate) fn next_in_range(&mut self, lo: i64, hi: i64) -> (r: i64)
        requires
            lo < hi,
        ensures
            lo <= r < hi,
    {
        self.inner.gen_range(lo..hi)
    }
}

} // verus!
