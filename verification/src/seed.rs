use vstd::prelude::*;

verus! {

/// The multiplier of the generator.
pub const LCG_MULTIPLIER: u64 = 6364136223846793005;

/// The state that follows a state of the generator.
pub open spec fn lcg_step(state: u64) -> u64 {
    state.wrapping_mul(LCG_MULTIPLIER).wrapping_add(1)
}

/// The number that the generator gives in a state: the upper half of the
/// state.
pub open spec fn lcg_output(state: u64) -> u32 {
    (state >> 32) as u32
}

/// A linear congruential generator of pseudo-random numbers.
#[derive(Debug)]
pub struct Lcg {
    state: u64,
}

impl Lcg {
    /// The state of the generator.
    pub closed spec fn state(&self) -> u64 {
        self.state
    }

    /// A generator that starts from `seed`.
    pub fn new(seed: u64) -> (lcg: Self)
        ensures
            lcg.state() == seed,
    {
        Lcg { state: seed }
    }

    /// Steps the generator and returns its number.
    pub fn next_u32(&mut self) -> (value: u32)
        ensures
            final(self).state() == lcg_step(old(self).state()),
            value == lcg_output(final(self).state()),
    {
        self.state = self.state.wrapping_mul(LCG_MULTIPLIER).wrapping_add(1);
        (self.state >> 32) as u32
    }

    /// A number below `max`; zero, without a step, where `max` is zero.
    pub fn gen_range(&mut self, max: u32) -> (value: u32)
        ensures
            max == 0 ==> value == 0 && final(self).state() == old(self).state(),
            max > 0 ==> final(self).state() == lcg_step(old(self).state()) && value
                == lcg_output(final(self).state()) % max && value < max,
    {
        if max == 0 {
            0
        } else {
            self.next_u32() % max
        }
    }
}

} // verus!
