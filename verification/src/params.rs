//! Tunable constants of the simulation.

use vstd::prelude::*;

verus! {

/// Seed of the deterministic pseudo-random generator.
#[derive(Clone, Copy, PartialEq, Eq, Structural, Debug)]
pub struct Seed {
    pub s0: u32,
    pub s1: u32,
    pub s2: u32,
    pub s3: u32,
}

/// Tunable constants.
#[derive(Clone, Copy, Debug)]
pub struct Params {
    /// Target number of elders per section.
    pub group_size: usize,
    /// Age of a freshly joining node.
    pub init_age: u64,
    /// Age at which a node becomes an adult.
    pub adult_age: u64,
    /// Fatal ceiling on the number of nodes of one section.
    pub max_section_size: usize,
    /// Rehash budget of one relocation attempt.
    pub max_relocation_attempts: usize,
    /// Cap on the number of infants of one section.
    pub max_infants_per_section: usize,
    /// Seed of the pseudo-random generator.
    pub seed: Seed,
}

impl Params {
    /// Parameters the simulation accepts.
    pub open spec fn valid(self) -> bool {
        &&& 1 <= self.group_size
        &&& self.group_size <= 0x7fff_ffff
        &&& 1 <= self.init_age
        &&& 1 <= self.adult_age
        &&& 1 <= self.max_section_size
    }

    /// The quorum: `group_size / 2 + 1`.
    pub open spec fn spec_quorum(self) -> int {
        self.group_size as int / 2 + 1
    }

    /// The adult count each child must reach before a section splits:
    /// `2 * group_size - quorum`.
    pub open spec fn spec_split_limit(self) -> int {
        2 * self.group_size as int - self.spec_quorum()
    }

    /// The quorum: `group_size / 2 + 1`.
    pub fn quorum(&self) -> (r: usize)
        requires
            self.valid(),
        ensures
            r == self.spec_quorum(),
    {
        self.group_size / 2 + 1
    }

    /// The adult count each child must reach before a section splits.
    pub fn split_limit(&self) -> (r: usize)
        requires
            self.valid(),
        ensures
            r == self.spec_split_limit(),
    {
        2 * self.group_size - self.quorum()
    }
}

} // verus!
