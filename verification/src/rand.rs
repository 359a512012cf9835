//! A small deterministic random source, passed explicitly into generation
//! calls so that tests can seed it.

use vstd::prelude::*;

verus! {

/// A xorshift pseudo-random source. Nothing is promised of its output beyond
/// the range of [`Rand::next_below`], so callers must treat every outcome as
/// possible.
pub struct Rand {
    state: u64,
}

impl Rand {
    /// A random source started from the given seed.
    pub fn new(seed: u64) -> (r: Rand) {
        Rand { state: seed }
    }

    /// A pseudo-random integer drawn from `[0, bound)`.
    pub fn next_below(&mut self, bound: u32) -> (r: u32)
        requires
            bound >= 1,
        ensures
            r < bound,
    {
        let mut s = self.state;
        s = s ^ (s << 13);
        s = s ^ (s >> 7);
        s = s ^ (s << 17);
        self.state = s;
        let r = (s % (bound as u64)) as u32;
        proof {
            assert(s % (bound as u64) < (bound as u64)) by (nonlinear_arith)
                requires bound >= 1;
        }
        r
    }
}

} // verus!
