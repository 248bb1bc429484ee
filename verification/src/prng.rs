//! A linear-congruential pseudo-random number generator. It feeds pivot
//! selection in the quicksort variants and is deterministic: every draw is a
//! function of the generator's state alone, so a fixed seed reproduces the
//! same stream of values on every run.
//!
//! The generator is not cryptographically secure and must never be used for
//! security purposes.

use vstd::prelude::*;

verus! {

/// The fixed multiplier of the recurrence.
pub const MULTIPLIER: u64 = 4259461;

/// The fixed increment of the recurrence.
pub const INCREMENT: u64 = 7060771;

/// The fixed modulus of the recurrence; every state is below it.
pub const MODULUS: u64 = 81935240129;

/// The default seed used when a sort draws pivots on its own.
pub const DEFAULT_SEED: u64 = 34052;

/// One step of the linear-congruential recurrence.
pub open spec fn lcg_next(s: int) -> int {
    (s * (MULTIPLIER as int) + (INCREMENT as int)) % (MODULUS as int)
}

/// The state reached from `seed` after `n` steps of the recurrence.
pub open spec fn lcg_iter(seed: int, n: nat) -> int
    decreases n,
{
    if n == 0 {
        seed
    } else {
        lcg_next(lcg_iter(seed, (n - 1) as nat))
    }
}

/// The generator: a current state evolved by
/// `curr = (curr * mul + inc) % modulo`, with the three coefficients fixed at
/// construction.
pub struct RandGen {
    curr: u64,
    mul: u64,
    inc: u64,
    modulo: u64,
}

impl RandGen {
    /// The coefficients are the documented fixed ones and the state is
    /// reduced modulo the modulus.
    pub closed spec fn wf(self) -> bool {
        &&& self.mul == MULTIPLIER
        &&& self.inc == INCREMENT
        &&& self.modulo == MODULUS
        &&& self.curr < MODULUS
    }

    /// The current state of the recurrence.
    pub closed spec fn state(self) -> u64 {
        self.curr
    }

    /// A fresh generator seeded with `curr`. The seed must lie below the
    /// modulus, as every state of the recurrence does.
    pub fn new(curr: u64) -> (g: Self)
        requires
            curr < MODULUS,
        ensures
            g.wf(),
            g.state() == curr,
    {
        RandGen { curr, mul: MULTIPLIER, inc: INCREMENT, modulo: MODULUS }
    }

    /// Advances the state by one step of the recurrence and returns it reduced
    /// modulo `max`. The result is a function of the prior state alone.
    pub fn next_val(&mut self, max: usize) -> (r: usize)
        requires
            old(self).wf(),
            max >= 1,
        ensures
            final(self).wf(),
            final(self).state() == lcg_next(old(self).state() as int),
            r == final(self).state() as int % (max as int),
            r < max,
    {
        proof {
            assert(self.curr * self.mul + self.inc < u64::MAX) by (nonlinear_arith)
                requires
                    self.curr < 81935240129u64,
                    self.mul == 4259461u64,
                    self.inc == 7060771u64,
            ;
        }
        self.curr = (self.curr * self.mul + self.inc) % self.modulo;
        (self.curr % (max as u64)) as usize
    }
}

/// Determinism of the generator: from equal seeds, the state after any number
/// of draws is the same, so successive draws coincide run after run.
pub proof fn lemma_prng_deterministic(s1: int, s2: int, n: nat)
    requires
        s1 == s2,
    ensures
        lcg_iter(s1, n) == lcg_iter(s2, n),
{
}

} // verus!
