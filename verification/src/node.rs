//! Overlay participants and counting helpers over node sequences.

use vstd::prelude::*;
use crate::params::Params;
use crate::prefix::{Name, Prefix};

verus! {

/// An overlay participant: a name, an age and an elder flag.
#[derive(Clone, Copy, PartialEq, Eq, Structural, Debug)]
pub struct Node {
    pub name: Name,
    pub age: u64,
    pub elder: bool,
}

impl Node {
    /// A fresh node: not an elder.
    pub fn new(name: Name, age: u64) -> (r: Node)
        ensures
            r == (Node { name, age, elder: false }),
    {
        Node { name, age, elder: false }
    }

    /// Infant: younger than the adult threshold.
    pub open spec fn spec_is_infant(self, params: Params) -> bool {
        self.age < params.adult_age
    }

    /// Adult: at least the adult threshold.
    pub open spec fn spec_is_adult(self, params: Params) -> bool {
        self.age >= params.adult_age
    }

    /// Whether the node is younger than the adult threshold.
    pub fn is_infant(&self, params: &Params) -> (r: bool)
        ensures
            r == self.spec_is_infant(*params),
    {
        self.age < params.adult_age
    }

    /// Whether the node has reached the adult threshold.
    pub fn is_adult(&self, params: &Params) -> (r: bool)
        ensures
            r == self.spec_is_adult(*params),
    {
        self.age >= params.adult_age
    }
}

/// Strict order on nodes by `(age, name)`: the elder order reads it
/// descending.
pub open spec fn key_gt(a: Node, b: Node) -> bool {
    a.age > b.age || (a.age == b.age && a.name > b.name)
}

/// Number of adults in the sequence.
pub open spec fn count_adults(s: Seq<Node>, params: Params) -> int
    decreases s.len(),
{
    if s.len() == 0 {
        0
    } else {
        count_adults(s.drop_last(), params) + if s.last().spec_is_adult(params) {
            1int
        } else {
            0int
        }
    }
}

/// Number of infants in the sequence.
pub open spec fn count_infants(s: Seq<Node>, params: Params) -> int
    decreases s.len(),
{
    if s.len() == 0 {
        0
    } else {
        count_infants(s.drop_last(), params) + if s.last().spec_is_infant(params) {
            1int
        } else {
            0int
        }
    }
}

/// Number of adults in the sequence whose name the prefix matches.
pub open spec fn count_matching_adults(s: Seq<Node>, p: Prefix, params: Params) -> int
    decreases s.len(),
{
    if s.len() == 0 {
        0
    } else {
        count_matching_adults(s.drop_last(), p, params) + if s.last().spec_is_adult(params)
            && p.spec_matches(s.last().name) {
            1int
        } else {
            0int
        }
    }
}

/// Number of nodes in the sequence whose `(age, name)` key exceeds `n`'s.
pub open spec fn count_greater(s: Seq<Node>, n: Node) -> int
    decreases s.len(),
{
    if s.len() == 0 {
        0
    } else {
        count_greater(s.drop_last(), n) + if key_gt(s.last(), n) {
            1int
        } else {
            0int
        }
    }
}

/// Counts the adults of a node list.
pub fn adults(nodes: &Vec<Node>, params: &Params) -> (r: usize)
    ensures
        r == count_adults(nodes@, *params),
        r <= nodes@.len(),
{
    let mut i: usize = 0;
    let mut r: usize = 0;
    while i < nodes.len()
        invariant
            i <= nodes.len(),
            r <= i,
            r == count_adults(nodes@.subrange(0, i as int), *params),
        decreases nodes.len() - i,
    {
        proof {
            assert(nodes@.subrange(0, i + 1).drop_last() =~= nodes@.subrange(0, i as int));
        }
        if nodes[i].age >= params.adult_age {
            r = r + 1;
        }
        i = i + 1;
    }
    proof {
        assert(nodes@.subrange(0, nodes@.len() as int) =~= nodes@);
    }
    r
}

/// Counts the infants of a node list.
pub fn infants(nodes: &Vec<Node>, params: &Params) -> (r: usize)
    ensures
        r == count_infants(nodes@, *params),
        r <= nodes@.len(),
{
    let mut i: usize = 0;
    let mut r: usize = 0;
    while i < nodes.len()
        invariant
            i <= nodes.len(),
            r <= i,
            r == count_infants(nodes@.subrange(0, i as int), *params),
        decreases nodes.len() - i,
    {
        proof {
            assert(nodes@.subrange(0, i + 1).drop_last() =~= nodes@.subrange(0, i as int));
        }
        if nodes[i].age < params.adult_age {
            r = r + 1;
        }
        i = i + 1;
    }
    proof {
        assert(nodes@.subrange(0, nodes@.len() as int) =~= nodes@);
    }
    r
}

/// Counts the adults of a node list whose name the prefix matches.
pub fn matching_adults(nodes: &Vec<Node>, p: &Prefix, params: &Params) -> (r: usize)
    requires
        p.wf(),
    ensures
        r == count_matching_adults(nodes@, *p, *params),
        r <= nodes@.len(),
{
    let mut i: usize = 0;
    let mut r: usize = 0;
    while i < nodes.len()
        invariant
            i <= nodes.len(),
            r <= i,
            p.wf(),
            r == count_matching_adults(nodes@.subrange(0, i as int), *p, *params),
        decreases nodes.len() - i,
    {
        proof {
            assert(nodes@.subrange(0, i + 1).drop_last() =~= nodes@.subrange(0, i as int));
        }
        if nodes[i].age >= params.adult_age && p.matches(nodes[i].name) {
            r = r + 1;
        }
        i = i + 1;
    }
    proof {
        assert(nodes@.subrange(0, nodes@.len() as int) =~= nodes@);
    }
    r
}

/// Counts the nodes of a list whose `(age, name)` key exceeds `n`'s.
pub fn greater_nodes(nodes: &Vec<Node>, n: &Node) -> (r: usize)
    ensures
        r == count_greater(nodes@, *n),
        r <= nodes@.len(),
{
    let mut i: usize = 0;
    let mut r: usize = 0;
    while i < nodes.len()
        invariant
            i <= nodes.len(),
            r <= i,
            r == count_greater(nodes@.subrange(0, i as int), *n),
        decreases nodes.len() - i,
    {
        proof {
            assert(nodes@.subrange(0, i + 1).drop_last() =~= nodes@.subrange(0, i as int));
        }
        if nodes[i].age > n.age || (nodes[i].age == n.age && nodes[i].name > n.name) {
            r = r + 1;
        }
        i = i + 1;
    }
    proof {
        assert(nodes@.subrange(0, nodes@.len() as int) =~= nodes@);
    }
    r
}

} // verus!
