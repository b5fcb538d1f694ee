use vstd::arithmetic::power2::{lemma2_to64, pow2};
use vstd::bits::lemma_usize_shl_is_mul;
use vstd::prelude::*;

verus! {

/// How long an insertion that found another tail spins before it tries again.
#[derive(Debug, Clone, Copy)]
pub struct Backoff {
    step: usize,
}

impl Backoff {
    /// How often the insertion has backed off, up to six.
    pub closed spec fn step(&self) -> nat {
        self.step as nat
    }

    #[verifier::type_invariant]
    spec fn valid(self) -> bool {
        self.step <= 6
    }

    /// No backing off yet.
    pub fn new() -> (backoff: Self)
        ensures
            backoff.step() == 0,
    {
        Backoff { step: 0 }
    }

    /// How many turns to spin now; twice as many the next time, up to a limit.
    pub fn spin(&mut self) -> (turns: usize)
        ensures
            old(self).step() <= 6,
            turns == pow2(old(self).step()),
            final(self).step() == if old(self).step() < 6 {
                old(self).step() + 1
            } else {
                6
            },
    {
        proof {
            use_type_invariant(&*self);
            lemma2_to64();
            lemma_usize_shl_is_mul(1, self.step);
        }
        let turns: usize = 1usize << self.step;
        if self.step < 6 {
            self.step = self.step + 1;
        }
        turns
    }
}

} // verus!
