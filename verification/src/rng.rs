use vstd::prelude::*;

verus! {

/// What one draw makes of the 32-bit generator state: a xorshift step.
/// The whole draw sequence is a pure function of the seed.
pub open spec fn next_state(s: u32) -> u32 {
    let a = s ^ (s << 13);
    let b = a ^ (a >> 17);
    b ^ (b << 5)
}

/// Seeded pseudo-random source of 32-bit values. Advancing the state is its
/// only effect; the same seed always yields the same draw sequence.
///
/// A seed of 0 is degenerate (every draw is 0, and the state never leaves 0);
/// any other seed cycles through nonzero states.
pub struct Rng32 {
    pub state: u32,
}

impl Rng32 {
    pub fn new(seed: u32) -> (r: Rng32)
        ensures
            r.state == seed,
    {
        Rng32 { state: seed }
    }

    /// Advance the state by one xorshift step and return the new state as
    /// the draw.
    pub fn rand(&mut self) -> (r: u32)
        ensures
            r == next_state(old(self).state),
            final(self).state == next_state(old(self).state),
    {
        let a: u32 = self.state ^ (self.state << 13u32);
        let b: u32 = a ^ (a >> 17u32);
        let c: u32 = b ^ (b << 5u32);
        self.state = c;
        c
    }
}

} // verus!
