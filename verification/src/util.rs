//! Shared utilities: a deterministic xorshift64 random number generator.

use vstd::prelude::*;

verus! {

/// One xorshift64 step (shifts 13, 7, 17).
pub open spec fn xorshift_step(s: u64) -> u64 {
    let a = s ^ (s << 13u64);
    let b = a ^ (a >> 7u64);
    b ^ (b << 17u64)
}

/// The state after `n` xorshift64 steps from `s`.
pub open spec fn xorshift_iter(s: u64, n: nat) -> u64
    decreases n,
{
    if n == 0 { s } else { xorshift_step(xorshift_iter(s, (n - 1) as nat)) }
}

/// The `next_u8` value drawn when the state moves to `s`: its top byte.
pub open spec fn top_byte(s: u64) -> u8 {
    (s >> 56u64) as u8
}

/// A xorshift64 step never maps a non-zero state to zero.
pub proof fn lemma_xorshift_nonzero(s: u64)
    requires
        s != 0,
    ensures
        xorshift_step(s) != 0,
{
    let a = s ^ (s << 13u64);
    assert(a != 0) by (bit_vector)
        requires
            s != 0,
            a == s ^ (s << 13u64),
    ;
    let b = a ^ (a >> 7u64);
    assert(b != 0) by (bit_vector)
        requires
            a != 0,
            b == a ^ (a >> 7u64),
    ;
    let c = b ^ (b << 17u64);
    assert(c != 0) by (bit_vector)
        requires
            b != 0,
            c == b ^ (b << 17u64),
    ;
}

/// Advance a bare xorshift64 state in place and return the new state.
pub fn xorshift64(state: &mut u64) -> (r: u64)
    ensures
        r == xorshift_step(*old(state)),
        *final(state) == r,
{
    let s = *state;
    let a = s ^ (s << 13u64);
    let b = a ^ (a >> 7u64);
    let c = b ^ (b << 17u64);
    *state = c;
    c
}

/// Simple deterministic RNG using xorshift64.
pub struct Rng {
    state: u64,
}

impl Rng {
    /// The current internal state.
    pub closed spec fn state(&self) -> u64 {
        self.state
    }

    #[verifier::type_invariant]
    spec fn inv(&self) -> bool {
        self.state != 0
    }

    /// Create a new RNG with the given seed (a zero seed becomes 1).
    pub fn new(seed: u64) -> (r: Self)
        ensures
            r.state() == (if seed == 0 { 1 } else { seed }),
            r.state() != 0,
    {
        let s = if seed > 1 { seed } else { 1 };
        Rng { state: s }
    }

    /// Advance the generator and return the new state.
    pub fn next_u64(&mut self) -> (r: u64)
        ensures
            r == xorshift_step(old(self).state()),
            final(self).state() == r,
            r != 0,
    {
        proof {
            use_type_invariant(&*self);
            lemma_xorshift_nonzero(self.state);
        }
        let s = self.state;
        let a = s ^ (s << 13u64);
        let b = a ^ (a >> 7u64);
        let c = b ^ (b << 17u64);
        self.state = c;
        c
    }

    /// A random u32: the low 32 bits of the next state.
    pub fn next_u32(&mut self) -> (r: u32)
        ensures
            r == xorshift_step(old(self).state()) as u32,
            final(self).state() == xorshift_step(old(self).state()),
    {
        let v = self.next_u64();
        v as u32
    }

    /// A random u8: the top 8 bits of the next state.
    pub fn next_u8(&mut self) -> (r: u8)
        ensures
            r == (xorshift_step(old(self).state()) >> 56u64) as u8,
            final(self).state() == xorshift_step(old(self).state()),
    {
        let v = self.next_u64();
        (v >> 56u64) as u8
    }

    /// A random i32 in `[min, max]`. When `min == max` the generator is not advanced.
    pub fn range_i32(&mut self, min: i32, max: i32) -> (r: i32)
        requires
            min <= max,
            max - min + 1 <= i32::MAX,
        ensures
            min <= r <= max,
            min == max ==> r == min && final(self).state() == old(self).state(),
            min < max ==> {
                &&& final(self).state() == xorshift_step(old(self).state())
                &&& r == min + (xorshift_step(old(self).state()) % ((max - min + 1) as u64))
            },
    {
        if min >= max {
            return min;
        }
        let range = (max - min + 1) as u64;
        let v = self.next_u64();
        let off = v % range;
        min + off as i32
    }
}

} // verus!
