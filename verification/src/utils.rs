//! Small utilities: a xorshift32 pseudo-random number generator.

use vstd::prelude::*;

verus! {

/// One step of the xorshift32 generator (shifts 13, 17, 5).
pub open spec fn xorshift32(x: u32) -> u32 {
    let a = x ^ (x << 13u32);
    let b = a ^ (a >> 17u32);
    b ^ (b << 5u32)
}

/// A xorshift32 step never maps a non-zero state to zero.
pub proof fn lemma_xorshift32_nonzero(x: u32)
    requires
        x != 0,
    ensures
        xorshift32(x) != 0,
{
    assert(x != 0 ==> (x ^ (x << 13u32)) != 0) by (bit_vector);
    let a = x ^ (x << 13u32);
    assert(a != 0 ==> (a ^ (a >> 17u32)) != 0) by (bit_vector);
    let b = a ^ (a >> 17u32);
    assert(b != 0 ==> (b ^ (b << 5u32)) != 0) by (bit_vector);
}

/// A xorshift32 step has no fixed point besides zero: two consecutive outputs differ.
pub proof fn lemma_xorshift32_moves(x: u32)
    requires
        x != 0,
    ensures
        xorshift32(x) != x,
{
    assert(x != 0 ==> ({
        let a = x ^ (x << 13u32);
        let b = a ^ (a >> 17u32);
        b ^ (b << 5u32)
    }) != x) by (bit_vector);
}

/// A very light xorshift32 pseudo-random generator (used for noise).
#[derive(Clone, Copy, Debug)]
pub struct RandomXorShift32 {
    state: u32,
}

impl RandomXorShift32 {
    /// The current internal state.
    pub closed spec fn state(&self) -> u32 {
        self.state
    }

    /// The state is never zero (zero would be a fixed point of the generator).
    #[verifier::type_invariant]
    spec fn state_nonzero(&self) -> bool {
        self.state != 0
    }

    /// Creates a generator; a seed of 0 is replaced by 1.
    pub fn new(seed: u32) -> (r: Self)
        ensures
            r.state() == (if seed == 0 { 1u32 } else { seed }),
    {
        Self { state: if seed == 0 { 1 } else { seed } }
    }

    /// Advances the generator one step and returns the new state.
    pub fn next_u32(&mut self) -> (r: u32)
        ensures
            r == xorshift32(old(self).state()),
            final(self).state() == r,
            r != 0,
            r != old(self).state(),
    {
        proof {
            use_type_invariant(&*self);
            lemma_xorshift32_nonzero(self.state);
            lemma_xorshift32_moves(self.state);
        }
        let x = self.state;
        let a = x ^ (x << 13u32);
        let b = a ^ (a >> 17u32);
        let c = b ^ (b << 5u32);
        self.state = c;
        c
    }
}

} // verus!
