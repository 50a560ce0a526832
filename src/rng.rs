use vstd::prelude::*;

verus! {

/// One xorshift step on a 64-bit state.
pub open spec fn xorshift(x: u64) -> u64 {
    let a = x ^ (x << 13u64);
    let b = a ^ (a >> 7u64);
    b ^ (b << 17u64)
}

/// A small pseudo-random source: a xorshift generator over one 64-bit word.
pub struct Rng {
    pub state: u64,
}

impl Rng {
    /// A generator seeded with `seed`; a zero seed, which xorshift never leaves,
    /// is replaced by a fixed nonzero word.
    pub fn new(seed: u64) -> (r: Rng)
        ensures
            r.state == (if seed == 0 { 0x9e37_79b9_7f4a_7c15u64 } else { seed }),
    {
        if seed == 0 {
            Rng { state: 0x9e37_79b9_7f4a_7c15u64 }
        } else {
            Rng { state: seed }
        }
    }

    /// Advances the state one step and returns the new state.
    pub fn next_u64(&mut self) -> (r: u64)
        ensures
            final(self).state == xorshift(old(self).state),
            r == final(self).state,
    {
        let x = self.state;
        let a = x ^ (x << 13u64);
        let b = a ^ (a >> 7u64);
        let c = b ^ (b << 17u64);
        self.state = c;
        c
    }

    /// A number below `n`, taken from the next state.
    pub fn below(&mut self, n: usize) -> (r: usize)
        requires
            n > 0,
        ensures
            final(self).state == xorshift(old(self).state),
            r as int == (final(self).state as int) % (n as int),
            r < n,
    {
        let v = self.next_u64();
        (v % (n as u64)) as usize
    }
}

} // verus!
