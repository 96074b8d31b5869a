//! The xorshift64 pseudo random number generator that seeds a universe.

use vstd::prelude::*;

verus! {

/// One step of Marsaglia's xorshift64 with the shifts 13, 7 and 17.
pub open spec fn xorshift_spec(s: u64) -> u64 {
    let a = s ^ (s << 13u64);
    let b = a ^ (a >> 7u64);
    b ^ (b << 17u64)
}

/// A xorshift64 generator. Its state is never zero, the one state that
/// xorshift maps to itself.
pub struct Rng {
    state: u64,
}

impl Rng {
    /// The current state.
    pub closed spec fn spec_state(&self) -> u64 {
        self.state
    }

    /// A generator seeded with `seed`; a zero seed is replaced by 1.
    pub fn new(seed: u64) -> (r: Rng)
        ensures
            r.spec_state() == if seed == 0 { 1 } else { seed },
            r.spec_state() != 0,
    {
        Rng { state: if seed == 0 { 1 } else { seed } }
    }

    /// Advances the state by one xorshift step and returns the low 32 bits
    /// of the new state.
    pub fn next_u32(&mut self) -> (x: u32)
        requires
            old(self).spec_state() != 0,
        ensures
            final(self).spec_state() == xorshift_spec(old(self).spec_state()),
            final(self).spec_state() != 0,
            x == final(self).spec_state() as u32,
    {
        let s = xorshift(self.state);
        proof {
            lemma_xorshift_nonzero(self.state);
        }
        self.state = s;
        s as u32
    }
}

/// One xorshift64 step.
pub fn xorshift(s: u64) -> (r: u64)
    ensures
        r == xorshift_spec(s),
{
    let a = s ^ (s << 13u64);
    let b = a ^ (a >> 7u64);
    b ^ (b << 17u64)
}

/// Xorshift never maps a nonzero state to zero, so a generator seeded
/// away from zero never gets stuck there.
pub proof fn lemma_xorshift_nonzero(s: u64)
    requires
        s != 0,
    ensures
        xorshift_spec(s) != 0,
{
    let a = s ^ (s << 13u64);
    let b = a ^ (a >> 7u64);
    assert(s != 0 ==> s ^ (s << 13u64) != 0) by (bit_vector);
    assert(a != 0 ==> a ^ (a >> 7u64) != 0) by (bit_vector);
    assert(b != 0 ==> b ^ (b << 17u64) != 0) by (bit_vector);
}

} // verus!
