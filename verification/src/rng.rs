//! Random sampling for the stochastic update rules.
//!
//! The generator is seeded explicitly, so a run can be reproduced by reusing
//! its seed; nothing more is assumed about the samples than their range.

use vstd::prelude::*;

verus! {

use crate::fixed::Fx;
use crate::fixed::SCALE;

/// Declares rand's `StdRng` so that a sampler can hold one; the generator
/// itself is opaque to the proofs.
#[verifier::external_type_specification]
#[verifier::external_body]
pub struct ExStdRng(rand::rngs::StdRng);

/// Relies on rand's `StdRng::seed_from_u64`: builds the standard generator
/// deterministically from a 64-bit seed.
#[verifier::external_body]
fn seeded_std_rng(seed: u64) -> rand::rngs::StdRng {
    <rand::rngs::StdRng as rand::SeedableRng>::seed_from_u64(seed)
}

/// A source of uniform random samples, backed by rand's standard generator.
pub struct Sampler {
    rng: rand::rngs::StdRng,
}

impl Sampler {
    /// A sampler built from an explicit seed; reusing a seed reproduces the
    /// same sample stream.
    pub fn from_seed(seed: u64) -> Sampler {
        Sampler { rng: seeded_std_rng(seed) }
    }

    /// Relies on rand's `Rng::gen_range` over the half-open range `0..n`:
    /// it returns a uniform index strictly below `n`, and panics only on an
    /// empty range, which the precondition rules out.
    #[verifier::external_body]
    pub fn below(&mut self, n: usize) -> (r: usize)
        requires
            n >= 1,
        ensures
            r < n,
    {
        rand::Rng::gen_range(&mut self.rng, 0..n)
    }

    /// A uniform fixed-point sample in `[0, 1)`: each of the `SCALE` raw
    /// steps is equally likely.
    pub fn unit(&mut self) -> (u: Fx)
        ensures
            u.wf(),
            0 <= u.raw < SCALE,
    {
        let r: usize = self.below(SCALE as usize);
        Fx { raw: r as i64 }
    }
}

} // verus!
