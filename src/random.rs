use vstd::prelude::*;

verus! {

/// A source of uniform draws, used to break ties between equally good
/// placements and to pick filler letters.
pub trait RandomSource {
    /// A draw from `0..n`.
    fn next_below(&mut self, n: usize) -> (r: usize)
        requires
            n > 0,
        ensures
            r < n,
    ;
}

/// A small deterministic generator: the same seed gives the same puzzle.
pub struct Lcg {
    pub state: u64,
}

impl Lcg {
    pub fn new(seed: u64) -> (g: Lcg)
        ensures
            g.state == seed,
    {
        Lcg { state: seed }
    }
}

impl RandomSource for Lcg {
    /// Advances a linear congruential sequence and reduces its high bits
    /// modulo `n`.
    fn next_below(&mut self, n: usize) -> (r: usize) {
        self.state = self.state.wrapping_mul(6364136223846793005).wrapping_add(1442695040888963407);
        ((self.state >> 33u64) % (n as u64)) as usize
    }
}

} // verus!
