//! PCG32 random number generator: deterministic for a given seed, everywhere.

use vstd::prelude::*;

verus! {

/// Default PCG stream selector.
pub const PCG_DEFAULT_STREAM: u64 = 0xda3e_39cb_94b9_5bdb;

/// PCG multiplier of the 64-bit linear congruential step.
pub const PCG_MULTIPLIER: u64 = 6_364_136_223_846_793_005;

/// Right rotation of a 32-bit word by `r` bits (`r < 32`).
pub open spec fn rotr32(x: u32, r: u32) -> u32 {
    if r == 0 {
        x
    } else {
        ((x >> r) | (x << (32u32 - r) as u32)) as u32
    }
}

/// The increment used by every generator: the default stream, shifted and made odd.
pub open spec fn pcg_increment() -> u64 {
    ((PCG_DEFAULT_STREAM << 1u64) | 1u64) as u64
}

/// One step of the underlying linear congruential generator.
pub open spec fn pcg_advance(state: u64, inc: u64) -> u64 {
    vstd::wrapping::u64_specs::wrapping_add(
        vstd::wrapping::u64_specs::wrapping_mul(state, PCG_MULTIPLIER),
        inc,
    )
}

/// The 32-bit output produced from the state before a step (XSH-RR permutation).
pub open spec fn pcg_output(old: u64) -> u32 {
    rotr32((((old >> 18u64) ^ old) >> 27u64) as u32, (old >> 59u64) as u32)
}

/// The state of a freshly seeded generator.
pub open spec fn pcg_seeded_state(seed: u64) -> u64 {
    pcg_advance(
        vstd::wrapping::u64_specs::wrapping_add(pcg_advance(0, pcg_increment()), seed),
        pcg_increment(),
    )
}

/// Rejection threshold for an unbiased draw in `0..n`: the largest multiple of `n`
/// not above 2^32.
pub open spec fn rejection_zone(n: nat) -> int {
    0x1_0000_0000int - (0x1_0000_0000int % (n as int))
}

/// The outcome of `gen_index`: the index drawn and the state afterwards. At most
/// `fuel` draws are rejected; the last draw allowed is taken as it is.
pub open spec fn gen_index_spec(state: u64, inc: u64, n: nat, fuel: nat) -> (nat, u64)
    decreases fuel,
{
    let x = pcg_output(state);
    let next = pcg_advance(state, inc);
    if (x as int) < rejection_zone(n) || fuel == 0 {
        ((x as nat) % n, next)
    } else {
        gen_index_spec(next, inc, n, (fuel - 1) as nat)
    }
}

/// A PCG32 generator (64-bit state, 32-bit output).
pub struct Pcg32 {
    state: u64,
    inc: u64,
}

impl Pcg32 {
    /// The current 64-bit state.
    pub closed spec fn spec_state(&self) -> u64 {
        self.state
    }

    /// The stream increment (always `pcg_increment()`).
    pub closed spec fn spec_inc(&self) -> u64 {
        self.inc
    }

    /// A generator seeded with `seed`; equal seeds give equal generators.
    pub fn new(seed: u64) -> (rng: Self)
        ensures
            rng.spec_state() == pcg_seeded_state(seed),
            rng.spec_inc() == pcg_increment(),
    {
        let mut rng = Pcg32 { state: 0, inc: (PCG_DEFAULT_STREAM << 1u64) | 1u64 };
        rng.next_u32();
        rng.state = rng.state.wrapping_add(seed);
        rng.next_u32();
        rng
    }

    /// The next 32-bit output; advances the state by one step.
    pub fn next_u32(&mut self) -> (r: u32)
        ensures
            r == pcg_output(old(self).spec_state()),
            final(self).spec_state() == pcg_advance(old(self).spec_state(), old(self).spec_inc()),
            final(self).spec_inc() == old(self).spec_inc(),
    {
        let old = self.state;
        self.state = old.wrapping_mul(PCG_MULTIPLIER).wrapping_add(self.inc);
        let xorshifted = (((old >> 18u64) ^ old) >> 27u64) as u32;
        let rot = (old >> 59u64) as u32;
        assert(rot < 32) by (bit_vector)
            requires
                rot == (old >> 59u64) as u32,
        ;
        if rot == 0 {
            xorshifted
        } else {
            (xorshifted >> rot) | (xorshifted << (32 - rot))
        }
    }

    /// Uniform integer in `0..n` without modulo bias (rejection sampling).
    pub fn gen_index(&mut self, n: usize) -> (r: usize)
        requires
            n > 0,
        ensures
            r < n,
            (r as nat, final(self).spec_state()) == gen_index_spec(
                old(self).spec_state(),
                old(self).spec_inc(),
                n as nat,
                u64::MAX as nat,
            ),
            final(self).spec_inc() == old(self).spec_inc(),
    {
        let n64 = n as u64;
        let range: u64 = 0x1_0000_0000;
        assert(range % n64 <= range) by (nonlinear_arith)
            requires
                n64 > 0,
        ;
        let zone: u64 = range - range % n64;
        let mut tries: u64 = 0;
        loop
            invariant
                n64 == n as u64,
                n > 0,
                zone as int == rejection_zone(n as nat),
                self.spec_inc() == old(self).spec_inc(),
                gen_index_spec(self.spec_state(), self.spec_inc(), n as nat, (u64::MAX - tries) as nat)
                    == gen_index_spec(old(self).spec_state(), old(self).spec_inc(), n as nat, u64::MAX as nat),
            decreases u64::MAX - tries,
        {
            let x = self.next_u32() as u64;
            if x < zone || tries == u64::MAX {
                let r = (x % n64) as usize;
                return r;
            }
            tries = tries + 1;
        }
    }
}

} // verus!
