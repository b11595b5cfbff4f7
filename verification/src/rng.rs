//! Deterministic pseudo-random generator.
//!
//! The simulation must be reproducible for a given seed, so the generator is
//! a plain xorshift128 state machine owned by the network: every draw is a
//! pure function of the seed.

use vstd::prelude::*;
use crate::params::Seed;

verus! {

/// Xorshift128 generator state.
#[derive(Clone, Copy, PartialEq, Eq, Structural, Debug)]
pub struct Rng {
    pub x: u32,
    pub y: u32,
    pub z: u32,
    pub w: u32,
}

impl Rng {
    /// One xorshift128 step.
    pub open spec fn spec_step(self) -> Rng {
        Rng {
            x: self.y,
            y: self.z,
            z: self.w,
            w: self.w ^ (self.w >> 19u32) ^ ((self.x ^ (self.x << 11u32)) ^ ((self.x ^ (self.x
                << 11u32)) >> 8u32)),
        }
    }

    /// The 64-bit value two steps produce.
    pub open spec fn spec_peek_u64(self) -> u64 {
        ((self.spec_step().w as u64) << 32u64) | (self.spec_step().spec_step().w as u64)
    }

    /// A generator seeded from four words; an all-zero seed (under which
    /// xorshift would stay at zero forever) is replaced by a fixed one.
    pub fn new(seed: Seed) -> (r: Rng)
        ensures
            r == Self::spec_new(seed),
            !(r.x == 0 && r.y == 0 && r.z == 0 && r.w == 0),
    {
        if seed.s0 == 0 && seed.s1 == 0 && seed.s2 == 0 && seed.s3 == 0 {
            Rng { x: 0x193a_6754, y: 0xa8a7_d469, z: 0x9783_0e05, w: 0x113b_a7bb }
        } else {
            Rng { x: seed.s0, y: seed.s1, z: seed.s2, w: seed.s3 }
        }
    }

    /// The state `new` builds from a seed.
    pub open spec fn spec_new(seed: Seed) -> Rng {
        if seed.s0 == 0 && seed.s1 == 0 && seed.s2 == 0 && seed.s3 == 0 {
            Rng { x: 0x193a_6754, y: 0xa8a7_d469, z: 0x9783_0e05, w: 0x113b_a7bb }
        } else {
            Rng { x: seed.s0, y: seed.s1, z: seed.s2, w: seed.s3 }
        }
    }

    /// Draws 32 bits and advances the state by one step.
    pub fn next_u32(&mut self) -> (r: u32)
        ensures
            *final(self) == old(self).spec_step(),
            r == old(self).spec_step().w,
    {
        let t = self.x ^ (self.x << 11u32);
        let w = self.w ^ (self.w >> 19u32) ^ (t ^ (t >> 8u32));
        self.x = self.y;
        self.y = self.z;
        self.z = self.w;
        self.w = w;
        w
    }

    /// Draws 64 bits and advances the state by two steps.
    pub fn next_u64(&mut self) -> (r: u64)
        ensures
            *final(self) == old(self).spec_step().spec_step(),
            r == old(self).spec_peek_u64(),
    {
        let hi = self.next_u32();
        let lo = self.next_u32();
        ((hi as u64) << 32u64) | (lo as u64)
    }

    /// Draws one fair bit and advances the state by one step.
    pub fn next_bool(&mut self) -> (r: bool)
        ensures
            *final(self) == old(self).spec_step(),
            r == (old(self).spec_step().w & 1u32 == 1u32),
    {
        self.next_u32() & 1u32 == 1u32
    }
}

} // verus!
