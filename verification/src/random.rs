//! The externally supplied source of randomness that question generation
//! consumes. The engine never seeds randomness itself: callers build a
//! `RandomSource` (seeded for reproducibility, or from entropy) and pass it
//! to each call that needs one.

use vstd::prelude::*;
use rand::Rng;
use rand::SeedableRng;

verus! {

#[verifier::external_type_specification]
#[verifier::external_body]
pub struct ExChaCha8Rng(rand_chacha::ChaCha8Rng);

/// A handle on a pseudorandom number generator.
pub struct RandomSource {
    inner: rand_chacha::ChaCha8Rng,
}

impl RandomSource {
    /// Relies on `rand_chacha::ChaCha8Rng::from_seed`: a generator whose
    /// outputs are determined by the seed alone.
    #[verifier::external_body]
    pub fn from_seed(seed: [u8; 32]) -> RandomSource {
        RandomSource { inner: rand_chacha::ChaCha8Rng::from_seed(seed) }
    }

    /// Relies on `rand::SeedableRng::from_entropy`: a generator seeded from
    /// operating-system entropy. The call panics if the operating system's
    /// entropy source fails — an environmental fault, not one any input can
    /// provoke.
    #[verifier::external_body]
    pub fn from_entropy() -> RandomSource {
        RandomSource { inner: rand_chacha::ChaCha8Rng::from_entropy() }
    }

    /// Relies on `rand::Rng::gen_range`: a value drawn from the half-open
    /// range below `n`; the call panics on an empty range.
    #[verifier::external_body]
    pub(crate) fn below(&mut self, n: usize) -> (r: usize)
        requires
            n >= 1,
        ensures
            r < n,
    {
        self.inner.gen_range(0..n)
    }

    /// Relies on `rand::seq::index::sample`: exactly `amount` distinct
    /// indices below `n`, in an order the generator decides; the call panics
    /// when `amount` exceeds `n`.
    #[verifier::external_body]
    pub(crate) fn sample_distinct(&mut self, n: usize, amount: usize) -> (r: Vec<usize>)
        requires
            amount <= n,
        ensures
            r@.len() == amount,
            forall|i: int| 0 <= i < r@.len() ==> r@[i] < n,
            forall|i: int, j: int| 0 <= i < j < r@.len() ==> r@[i] != r@[j],
    {
        rand::seq::index::sample(&mut self.inner, n, amount).into_vec()
    }
}

} // verus!
