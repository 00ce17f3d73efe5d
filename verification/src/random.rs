//! An XORShift64 pseudo-random generator, used for session-id randomness.
//! The caller seeds it; the library never reads a clock itself.
use vstd::prelude::*;

verus! {

pub const XORSHIFT_MUL: u64 = 0x2545F4914F6CDD1D;

/// One XORShift64 state transition.
pub open spec fn spec_xorshift(s: u64) -> u64 {
    let a = s ^ (s >> 12);
    let b = a ^ (a << 25);
    b ^ (b >> 27)
}

/// The value a sample call returns for starting state `s`.
pub open spec fn spec_xorshift_output(s: u64) -> u64 {
    spec_xorshift(s).wrapping_mul(XORSHIFT_MUL)
}

pub struct XORShift {
    state: u64,
}

impl XORShift {
    /// The generator state.
    pub closed spec fn spec_state(&self) -> u64 {
        self.state
    }

    pub fn new(seed: u64) -> (r: XORShift)
        ensures
            r.spec_state() == seed,
    {
        XORShift { state: seed }
    }

    /// Advances the state once and returns the state scrambled by a
    /// multiplicative constant.
    pub fn sample(&mut self) -> (r: u64)
        ensures
            final(self).spec_state() == spec_xorshift(old(self).spec_state()),
            r == spec_xorshift_output(old(self).spec_state()),
    {
        self.state = self.state ^ (self.state >> 12);
        self.state = self.state ^ (self.state << 25);
        self.state = self.state ^ (self.state >> 27);

        return self.state.wrapping_mul(XORSHIFT_MUL);
    }
}

} // verus!
