//! A deterministic, seedable pseudo-random number source. Randomness is
//! an injected dependency of the systems that need it, never ambient
//! state, so a fixed seed fixes every outcome.

use vstd::prelude::*;

verus! {

/// Multiplier of the linear congruential step.
pub const RNG_MUL: u64 = 6364136223846793005;

/// Increment of the linear congruential step.
pub const RNG_ADD: u64 = 1442695040888963407;

/// One linear congruential step of the generator state.
pub open spec fn rng_next_spec(s: u64) -> u64 {
    vstd::wrapping::u64_specs::wrapping_add(vstd::wrapping::u64_specs::wrapping_mul(s, RNG_MUL), RNG_ADD)
}

/// The state after `n` dice rolls.
pub open spec fn rng_state_after(s: u64, n: nat) -> u64
    decreases n,
{
    if n == 0 {
        s
    } else {
        rng_next_spec(rng_state_after(s, (n - 1) as nat))
    }
}

/// The total of `n` dice rolls of `die` sides from state `s`.
pub open spec fn roll_sum_spec(s: u64, n: nat, die: int) -> int
    decreases n,
{
    if n == 0 {
        0
    } else {
        roll_sum_spec(s, (n - 1) as nat, die) + 1 + rng_state_after(s, n) as int % die
    }
}

pub struct Rng {
    pub state: u64,
}

impl Rng {
    pub fn seeded(seed: u64) -> (r: Rng)
        ensures
            r.state == seed,
    {
        Rng { state: seed }
    }

    /// Advance the generator once and hand back the new raw state.
    pub fn next_raw(&mut self) -> (r: u64)
        ensures
            final(self).state == rng_next_spec(old(self).state),
            r == final(self).state,
    {
        self.state = self.state.wrapping_mul(RNG_MUL).wrapping_add(RNG_ADD);
        self.state
    }

    /// Roll `n` dice of `die` sides each and add them up.
    pub fn roll_dice(&mut self, n: i32, die: i32) -> (r: i32)
        requires
            1 <= n,
            1 <= die,
            n * die <= i32::MAX,
        ensures
            n <= r <= n * die,
            r == roll_sum_spec(old(self).state, n as nat, die as int),
            final(self).state == rng_state_after(old(self).state, n as nat),
    {
        let mut total: i32 = 0;
        let mut k: i32 = 0;
        while k < n
            invariant
                0 <= k <= n,
                1 <= die,
                n * die <= i32::MAX,
                total == roll_sum_spec(old(self).state, k as nat, die as int),
                k <= total <= k * die,
                self.state == rng_state_after(old(self).state, k as nat),
            decreases n - k,
        {
            let raw = self.next_raw();
            let roll: i32 = 1 + (raw % (die as u64)) as i32;
            proof {
                assert(raw % (die as u64) < die as u64);
                assert((k + 1) * die == k * die + die) by (nonlinear_arith);
                assert(k * die + die <= n * die) by (nonlinear_arith)
                    requires
                        k < n,
                        1 <= die,
                ;
            }
            total = total + roll;
            k = k + 1;
        }
        total
    }

    /// A value drawn from `[min, max)`.
    pub fn range(&mut self, min: i32, max: i32) -> (r: i32)
        requires
            min < max,
        ensures
            min <= r < max,
            final(self).state == rng_next_spec(old(self).state),
            r == min + rng_next_spec(old(self).state) as int % (max - min),
    {
        let raw = self.next_raw();
        let span = (max as i64) - (min as i64);
        let off = (raw % (span as u64)) as i64;
        proof {
            assert(raw % (span as u64) < span as u64);
        }
        ((min as i64) + off) as i32
    }
}

} // verus!
