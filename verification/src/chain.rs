//! The append-only block log kept by each section.
//!
//! Block hashes seed the relocation selection.

use vstd::prelude::*;
use crate::hash::{keccak256_of, push_u64_le, u64_le_bytes, Digest};
use crate::prefix::Name;

verus! {

/// The event a block records.
#[derive(Clone, Copy, PartialEq, Eq, Structural, Debug)]
pub enum Event {
    Live,
    Dead,
    Gone,
}

/// The byte tag of an event.
pub open spec fn event_tag(e: Event) -> u8 {
    match e {
        Event::Live => 0,
        Event::Dead => 1,
        Event::Gone => 2,
    }
}

/// One block: an event, a name and an age.
#[derive(Clone, Copy, PartialEq, Eq, Structural, Debug)]
pub struct Block {
    pub event: Event,
    pub name: Name,
    pub age: u64,
}

/// The bytes a block is hashed over: the event tag, then the name and the
/// age, both little-endian.
pub open spec fn block_bytes(b: Block) -> Seq<u8> {
    seq![event_tag(b.event)] + u64_le_bytes(b.name) + u64_le_bytes(b.age)
}

impl Block {
    /// A new block.
    pub fn new(event: Event, name: Name, age: u64) -> (r: Block)
        ensures
            r == (Block { event, name, age }),
    {
        Block { event, name, age }
    }

    /// The block's hash: the digest of its bytes.
    pub fn hash(&self) -> (r: Digest)
        ensures
            r.bytes@ == keccak256_of(block_bytes(*self)),
            r.wf(),
    {
        let mut input: Vec<u8> = Vec::new();
        let tag: u8 = match self.event {
            Event::Live => 0,
            Event::Dead => 1,
            Event::Gone => 2,
        };
        input.push(tag);
        push_u64_le(&mut input, self.name);
        push_u64_le(&mut input, self.age);
        proof {
            assert(input@ =~= block_bytes(*self));
        }
        Digest { bytes: crate::hash::keccak256(&input) }
    }
}

/// The most recent `Live` block of a sequence, if any.
pub open spec fn spec_last_live(s: Seq<Block>) -> Option<Block>
    decreases s.len(),
{
    if s.len() == 0 {
        Option::None
    } else if s.last().event == Event::Live {
        Option::Some(s.last())
    } else {
        spec_last_live(s.drop_last())
    }
}

/// An append-only log of blocks.
#[derive(Clone, Debug)]
pub struct Chain {
    pub blocks: Vec<Block>,
}

impl Chain {
    /// An empty chain.
    pub fn new() -> (r: Chain)
        ensures
            r.blocks@ == Seq::<Block>::empty(),
    {
        Chain { blocks: Vec::new() }
    }

    /// Appends one block.
    pub fn insert(&mut self, event: Event, name: Name, age: u64)
        ensures
            final(self).blocks@ == old(self).blocks@.push(Block { event, name, age }),
    {
        self.blocks.push(Block { event, name, age });
    }

    /// Appends every block of another chain.
    pub fn extend(&mut self, other: Chain)
        ensures
            final(self).blocks@ == old(self).blocks@ + other.blocks@,
    {
        let mut o = other;
        self.blocks.append(&mut o.blocks);
    }

    /// A copy of the chain with the same blocks.
    pub fn duplicate(&self) -> (r: Chain)
        ensures
            r.blocks@ == self.blocks@,
    {
        let mut v: Vec<Block> = Vec::new();
        let mut i: usize = 0;
        while i < self.blocks.len()
            invariant
                i <= self.blocks@.len(),
                v@ == self.blocks@.subrange(0, i as int),
            decreases self.blocks@.len() - i,
        {
            v.push(self.blocks[i]);
            proof {
                assert(v@ =~= self.blocks@.subrange(0, i + 1));
            }
            i = i + 1;
        }
        proof {
            assert(self.blocks@.subrange(0, self.blocks@.len() as int) =~= self.blocks@);
        }
        Chain { blocks: v }
    }

    /// The most recent `Live` block, or `None`.
    pub fn last_live(&self) -> (r: Option<Block>)
        ensures
            r == spec_last_live(self.blocks@),
    {
        let mut i: usize = self.blocks.len();
        proof {
            assert(self.blocks@.subrange(0, self.blocks@.len() as int) =~= self.blocks@);
        }
        while i > 0
            invariant
                i <= self.blocks.len(),
                spec_last_live(self.blocks@) == spec_last_live(self.blocks@.subrange(0, i as int)),
            decreases i,
        {
            i = i - 1;
            proof {
                assert(self.blocks@.subrange(0, i + 1).last() == self.blocks@[i as int]);
                assert(self.blocks@.subrange(0, i + 1).drop_last() =~= self.blocks@.subrange(
                    0,
                    i as int,
                ));
            }
            if let Event::Live = self.blocks[i].event {
                return Some(self.blocks[i]);
            }
        }
        None
    }
}

} // verus!
