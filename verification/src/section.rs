//! The per-section protocol state machine.
//!
//! A section owns the nodes of one prefix, an append-only chain, two
//! relocation caches and a queue of deferred requests, and reacts to the
//! Live / Dead / Merge / Relocate family of requests.

use vstd::prelude::*;
use crate::chain::{block_bytes, spec_last_live, Block, Chain, Event};
use crate::hash::{keccak256_of, low_u64_of, tz_of, Digest};
use crate::message::{req_ok, Request, Response};
use crate::node::{
    count_adults, count_greater, count_infants, count_matching_adults, Node,
};
use crate::params::Params;
use crate::prefix::{Name, Prefix};

verus! {

/// Lifecycle state of a section.
#[derive(Clone, Copy, PartialEq, Eq, Structural, Debug)]
pub enum State {
    /// Initial and ordinary state.
    Stable,
    /// About to be replaced by its two children.
    Splitting,
    /// About to be replaced by a merged parent with the given prefix.
    Merging(Prefix),
}

/// A name sequence holds a name.
pub open spec fn has_name(s: Seq<Node>, name: Name) -> bool {
    exists|i: int| 0 <= i < s.len() && s[i].name == name
}

/// All node names of the sequence are distinct.
pub open spec fn distinct_names(s: Seq<Node>) -> bool {
    forall|i: int, j: int|
        0 <= i < j < s.len() ==> s[i].name != s[j].name
}

/// A relocation cache holds a key.
pub open spec fn cache_has_key(s: Seq<(Name, Name)>, k: Name) -> bool {
    exists|i: int| 0 <= i < s.len() && s[i].0 == k
}

/// The nodes of the sequence whose name the prefix matches, in order.
pub open spec fn filter_matching(s: Seq<Node>, p: Prefix) -> Seq<Node>
    decreases s.len(),
{
    if s.len() == 0 {
        Seq::empty()
    } else if p.spec_matches(s.last().name) {
        filter_matching(s.drop_last(), p).push(s.last())
    } else {
        filter_matching(s.drop_last(), p)
    }
}

/// The names of the sequence that the prefix matches, in order.
pub open spec fn filter_names(s: Seq<Name>, p: Prefix) -> Seq<Name>
    decreases s.len(),
{
    if s.len() == 0 {
        Seq::empty()
    } else if p.spec_matches(s.last()) {
        filter_names(s.drop_last(), p).push(s.last())
    } else {
        filter_names(s.drop_last(), p)
    }
}

/// The cache entries whose destination the prefix matches, in order.
pub open spec fn filter_cache(s: Seq<(Name, Name)>, p: Prefix) -> Seq<(Name, Name)>
    decreases s.len(),
{
    if s.len() == 0 {
        Seq::empty()
    } else if p.spec_matches(s.last().1) {
        filter_cache(s.drop_last(), p).push(s.last())
    } else {
        filter_cache(s.drop_last(), p)
    }
}

/// XOR of the names of all nodes of the given age.
pub open spec fn xor_of_age(s: Seq<Node>, age: u64) -> u64
    decreases s.len(),
{
    if s.len() == 0 {
        0
    } else if s.last().age == age {
        xor_of_age(s.drop_last(), age) ^ s.last().name
    } else {
        xor_of_age(s.drop_last(), age)
    }
}

/// The node the relocation selection picks for a hash with `tz` trailing
/// zeros: among the nodes of age at most `tz`, those of maximum age, and of
/// them the one minimizing `name XOR X` where `X` is the XOR of all their
/// names.
pub open spec fn spec_chosen(s: Seq<Node>, tz: int, name: Name) -> bool {
    has_name(s, name) && exists|i: int|
        {
            &&& 0 <= i < s.len()
            &&& s[i].name == name
            &&& #[trigger] s[i].age <= tz
            &&& forall|j: int| 0 <= j < s.len() && s[j].age <= tz ==> s[j].age <= s[i].age
            &&& forall|j: int|
                0 <= j < s.len() && s[j].age == s[i].age ==> (s[i].name ^ xor_of_age(s, s[i].age))
                    <= (s[j].name ^ xor_of_age(s, s[i].age))
        }
}

/// Some node's age is at most `tz`: the hash admits a relocation candidate.
pub open spec fn has_candidate(s: Seq<Node>, tz: int) -> bool {
    exists|i: int| 0 <= i < s.len() && #[trigger] s[i].age <= tz
}

/// The hash chain relocation selection walks: the block's hash, then its
/// repeated rehashings.
pub open spec fn hash_chain(b: Block, k: nat) -> Seq<u8>
    decreases k,
{
    if k == 0 {
        keccak256_of(block_bytes(b))
    } else {
        keccak256_of(hash_chain(b, (k - 1) as nat))
    }
}

/// A section of the overlay.
#[derive(Debug)]
pub struct Section {
    /// The prefix whose names this section owns.
    pub prefix: Prefix,
    /// Lifecycle state.
    pub state: State,
    /// The member nodes; names are distinct and match the prefix.
    pub nodes: Vec<Node>,
    /// The append-only block log.
    pub chain: Chain,
    /// Requests deferred to the next handling phase, oldest first.
    pub requests: Vec<Request>,
    /// Reserved capacity for nodes promised to arrive: node name to
    /// relocation destination.
    pub incoming_relocations: Vec<(Name, Name)>,
    /// Local nodes awaiting cross-section relocation acceptance.
    pub outgoing_relocations: Vec<Name>,
}

impl Section {
    /// Well-formedness: the prefix is well-formed, node names are distinct
    /// and all match the prefix, queued requests are addressed here, and the
    /// lifecycle state carries a well-formed prefix.
    pub open spec fn wf(self) -> bool {
        &&& self.prefix.wf()
        &&& distinct_names(self.nodes@)
        &&& forall|i: int|
            0 <= i < self.nodes@.len() ==> self.prefix.spec_matches(
                #[trigger] self.nodes@[i].name,
            )
        &&& forall|i: int|
            0 <= i < self.requests@.len() ==> req_ok(self.prefix, #[trigger] self.requests@[i])
        &&& match self.state {
            State::Stable => true,
            State::Splitting => self.prefix.len < 64,
            State::Merging(p) => p.wf(),
        }
    }

    /// A fresh, empty, stable section.
    pub fn new(prefix: Prefix) -> (r: Section)
        ensures
            r.prefix == prefix,
            r.state == State::Stable,
            r.nodes@ == Seq::<Node>::empty(),
            r.chain.blocks@ == Seq::<Block>::empty(),
            r.requests@ == Seq::<Request>::empty(),
            r.incoming_relocations@ == Seq::<(Name, Name)>::empty(),
            r.outgoing_relocations@ == Seq::<Name>::empty(),
            prefix.wf() ==> r.wf(),
    {
        Section {
            prefix,
            state: State::Stable,
            nodes: Vec::new(),
            chain: Chain::new(),
            requests: Vec::new(),
            incoming_relocations: Vec::new(),
            outgoing_relocations: Vec::new(),
        }
    }

    /// The section's prefix.
    pub fn prefix(&self) -> (r: Prefix)
        ensures
            r == self.prefix,
    {
        self.prefix
    }

    /// The section's nodes.
    pub fn nodes(&self) -> (r: &Vec<Node>)
        ensures
            r@ == self.nodes@,
    {
        &self.nodes
    }

    /// Complete: holds at least `group_size` adults.
    pub fn is_complete(&self, params: &Params) -> (r: bool)
        ensures
            r == (count_adults(self.nodes@, *params) >= params.group_size),
    {
        crate::node::adults(&self.nodes, params) >= params.group_size
    }

    /// Whether any incoming relocation is reserved.
    pub fn has_incoming_relocation(&self) -> (r: bool)
        ensures
            r == (self.incoming_relocations@.len() != 0),
    {
        self.incoming_relocations.len() != 0
    }

    /// Where a request must be forwarded while the section is splitting or
    /// merging: the matching child, or the merge parent. `None` when stable.
    pub open spec fn spec_forward(self, name: Name) -> Option<Prefix> {
        match self.state {
            State::Stable => Option::None,
            State::Splitting => {
                if self.prefix.spec_split().0.spec_matches(name) {
                    Option::Some(self.prefix.spec_split().0)
                } else {
                    Option::Some(self.prefix.spec_split().1)
                }
            },
            State::Merging(p) => Option::Some(p),
        }
    }

    /// The forwarding target for a name, when splitting or merging.
    fn forward(&self, name: Name) -> (r: Option<Prefix>)
        requires
            self.wf(),
        ensures
            r == self.spec_forward(name),
            r is Some ==> r.unwrap().wf(),
            self.state is Splitting && self.prefix.spec_matches(name) ==> r.unwrap().spec_matches(
                name,
            ),
    {
        match self.state {
            State::Stable => None,
            State::Splitting => {
                let (c0, c1) = self.prefix.split();
                proof {
                    crate::prefix::lemma_split_partitions_names(self.prefix, name);
                }
                if c0.matches(name) {
                    Some(c0)
                } else {
                    Some(c1)
                }
            },
            State::Merging(p) => Some(p),
        }
    }

    /// Accepts a request: queues it when stable, forwards it to the children
    /// or to the merge parent otherwise.
    pub fn receive(&mut self, request: Request) -> (r: Vec<Response>)
        requires
            old(self).wf(),
            req_ok(old(self).prefix, request),
        ensures
            final(self).wf(),
            receive_rel(*old(self), request, *final(self), r@),
    {
        match self.state {
            State::Stable => {
                self.requests.push(request);
                Vec::new()
            },
            State::Splitting => {
                let mut r: Vec<Response> = Vec::new();
                r.push(Response::Send(self.prefix, request));
                proof {
                    assert(r@ =~= seq![Response::Send(old(self).prefix, request)]);
                }
                r
            },
            State::Merging(p) => {
                let mut r: Vec<Response> = Vec::new();
                r.push(Response::Send(p, request));
                proof {
                    assert(r@ =~= seq![Response::Send(p, request)]);
                }
                r
            },
        }
    }
}

/// What `receive` does: a stable section queues the request and answers
/// nothing; a splitting section sends it back to its own (vanishing) prefix
/// for redelivery; a merging section forwards it to the merge parent.
pub open spec fn receive_rel(pre: Section, request: Request, post: Section, r: Seq<Response>) -> bool {
    match pre.state {
        State::Stable => post == (Section { requests: post.requests, ..pre }) && post.requests@
            == pre.requests@.push(request) && r.len() == 0,
        State::Splitting => post == pre && r == seq![Response::Send(pre.prefix, request)],
        State::Merging(p) => post == pre && r == seq![Response::Send(p, request)],
    }
}

/// Index of the node with the given name, if present.
pub(crate) fn find_node(nodes: &Vec<Node>, name: Name) -> (r: Option<usize>)
    ensures
        match r {
            Some(i) => i < nodes@.len() && nodes@[i as int].name == name,
            None => !has_name(nodes@, name),
        },
{
    let mut i: usize = 0;
    while i < nodes.len()
        invariant
            i <= nodes.len(),
            forall|j: int| 0 <= j < i ==> nodes@[j].name != name,
        decreases nodes.len() - i,
    {
        if nodes[i].name == name {
            return Some(i);
        }
        i = i + 1;
    }
    None
}

/// Removes and returns the node with the given name, if present.
pub(crate) fn remove_node(nodes: &mut Vec<Node>, name: Name) -> (r: Option<Node>)
    ensures
        match r {
            Some(n) => n.name == name && old(nodes)@.contains(n) && (exists|i: int|
                0 <= i < old(nodes)@.len() && old(nodes)@[i] == n && final(nodes)@ == old(nodes)@.remove(i)),
            None => !has_name(old(nodes)@, name) && *final(nodes) == *old(nodes),
        },
        distinct_names(old(nodes)@) ==> distinct_names(final(nodes)@) && (r is Some
            ==> !has_name(final(nodes)@, name)),
        forall|j: int|
            0 <= j < final(nodes)@.len() ==> old(nodes)@.contains(#[trigger] final(nodes)@[j]),
{
    let idx = find_node(nodes, name);
    match idx {
        Some(i) => {
            let n = nodes.remove(i);
            proof {
                assert(old(nodes)@.contains(n)) by {
                    assert(old(nodes)@[i as int] == n);
                }
                assert forall|j: int|
                    0 <= j < final(nodes)@.len() implies old(nodes)@.contains(
                    #[trigger] final(nodes)@[j],
                ) by {
                    if j < i {
                        assert(final(nodes)@[j] == old(nodes)@[j]);
                    } else {
                        assert(final(nodes)@[j] == old(nodes)@[j + 1]);
                    }
                }
                if distinct_names(old(nodes)@) {
                    assert forall|a: int, b: int|
                        0 <= a < b < final(nodes)@.len() implies final(nodes)@[a].name != final(nodes)@[b].name by {
                        let oa = if a < i {
                            a
                        } else {
                            a + 1
                        };
                        let ob = if b < i {
                            b
                        } else {
                            b + 1
                        };
                        assert(final(nodes)@[a] == old(nodes)@[oa]);
                        assert(final(nodes)@[b] == old(nodes)@[ob]);
                    }
                    assert forall|j: int|
                        0 <= j < final(nodes)@.len() implies final(nodes)@[j].name != name by {
                        let oj = if j < i {
                            j
                        } else {
                            j + 1
                        };
                        assert(final(nodes)@[j] == old(nodes)@[oj]);
                    }
                }
            }
            Some(n)
        },
        None => None,
    }
}

/// Inserts a node, replacing any node of the same name.
pub(crate) fn upsert_node(nodes: &mut Vec<Node>, node: Node)
    ensures
        has_name(final(nodes)@, node.name),
        final(nodes)@.contains(node),
        (exists|i: int|
            0 <= i < old(nodes)@.len() && old(nodes)@[i].name == node.name && final(nodes)@ == old(nodes)@.update(i, node)) || (!has_name(old(nodes)@, node.name) && final(nodes)@ == old(nodes)@.push(node)),
        distinct_names(old(nodes)@) ==> distinct_names(final(nodes)@),
        forall|j: int|
            0 <= j < final(nodes)@.len() ==> old(nodes)@.contains(#[trigger] final(nodes)@[j])
                || final(nodes)@[j] == node,
{
    let idx = find_node(nodes, node.name);
    match idx {
        Some(i) => {
            nodes[i] = node;
            proof {
                assert(final(nodes)@[i as int] == node);
                assert(final(nodes)@.contains(node));
            }
        },
        None => {
            nodes.push(node);
            proof {
                assert(final(nodes)@[old(nodes)@.len() as int] == node);
                assert(final(nodes)@.contains(node));
                if distinct_names(old(nodes)@) {
                    assert forall|a: int, b: int|
                        0 <= a < b < final(nodes)@.len() implies final(nodes)@[a].name != final(nodes)@[b].name by {
                        if b < old(nodes)@.len() {
                        } else {
                            assert(final(nodes)@[b] == node);
                            assert(final(nodes)@[a] == old(nodes)@[a]);
                        }
                    }
                }
            }
        },
    }
}

/// Whether a name list contains a name.
pub(crate) fn names_contain(v: &Vec<Name>, k: Name) -> (r: bool)
    ensures
        r == v@.contains(k),
{
    let mut i: usize = 0;
    while i < v.len()
        invariant
            i <= v.len(),
            forall|j: int| 0 <= j < i ==> v@[j] != k,
        decreases v.len() - i,
    {
        if v[i] == k {
            return true;
        }
        i = i + 1;
    }
    false
}

/// Removes every occurrence of a name from a name list.
pub(crate) fn names_remove(v: &mut Vec<Name>, k: Name)
    ensures
        forall|x: Name| final(v)@.contains(x) == (old(v)@.contains(x) && x != k),
{
    let mut out: Vec<Name> = Vec::new();
    let mut i: usize = 0;
    while i < v.len()
        invariant
            i <= v.len(),
            forall|x: Name|
                #[trigger] out@.contains(x) == (old(v)@.subrange(0, i as int).contains(x) && x
                    != k),
            v@ == old(v)@,
        decreases v.len() - i,
    {
        let e = v[i];
        proof {
            assert forall|x: Name| #[trigger]
                old(v)@.subrange(0, i + 1).contains(x) == (old(v)@.subrange(0, i as int).contains(x)
                    || x == e) by {
                assert(old(v)@.subrange(0, i + 1).drop_last() =~= old(v)@.subrange(0, i as int));
                assert(old(v)@.subrange(0, i + 1) =~= old(v)@.subrange(0, i as int).push(e));
                vstd::seq_lib::lemma_seq_contains_after_push(old(v)@.subrange(0, i as int), e, x);
            }
        }
        if e != k {
            let ghost out0 = out@;
            out.push(e);
            proof {
                assert forall|x: Name| #[trigger]
                    out@.contains(x) == (old(v)@.subrange(0, i + 1).contains(x) && x != k) by {
                    vstd::seq_lib::lemma_seq_contains_after_push(out0, e, x);
                    assert(out@ == out0.push(e));
                }
            }
        }
        i = i + 1;
    }
    proof {
        assert(old(v)@.subrange(0, v@.len() as int) =~= old(v)@);
    }
    *v = out;
}

/// Whether a cache holds an entry with the given key.
pub(crate) fn cache_contains_key(v: &Vec<(Name, Name)>, k: Name) -> (r: bool)
    ensures
        r == cache_has_key(v@, k),
{
    let mut i: usize = 0;
    while i < v.len()
        invariant
            i <= v.len(),
            forall|j: int| 0 <= j < i ==> v@[j].0 != k,
        decreases v.len() - i,
    {
        if v[i].0 == k {
            return true;
        }
        i = i + 1;
    }
    false
}

/// Removes every entry with the given key; reports whether any was present.
pub(crate) fn cache_remove_key(v: &mut Vec<(Name, Name)>, k: Name) -> (r: bool)
    ensures
        r == cache_has_key(old(v)@, k),
        !cache_has_key(final(v)@, k),
        forall|pr: (Name, Name)| final(v)@.contains(pr) == (old(v)@.contains(pr) && pr.0 != k),
{
    let mut out: Vec<(Name, Name)> = Vec::new();
    let mut found = false;
    let mut i: usize = 0;
    while i < v.len()
        invariant
            i <= v.len(),
            found == cache_has_key(old(v)@.subrange(0, i as int), k),
            forall|pr: (Name, Name)|
                #[trigger] out@.contains(pr) == (old(v)@.subrange(0, i as int).contains(pr) && pr.0
                    != k),
            forall|j: int| 0 <= j < out@.len() ==> out@[j].0 != k,
            v@ == old(v)@,
        decreases v.len() - i,
    {
        let e = v[i];
        proof {
            assert(old(v)@.subrange(0, i + 1) =~= old(v)@.subrange(0, i as int).push(e));
            assert forall|pr: (Name, Name)| #[trigger]
                old(v)@.subrange(0, i + 1).contains(pr) == (old(v)@.subrange(0, i as int).contains(
                    pr,
                ) || pr == e) by {
                vstd::seq_lib::lemma_seq_contains_after_push(old(v)@.subrange(0, i as int), e, pr);
            }
            if e.0 == k {
                assert(cache_has_key(old(v)@.subrange(0, i + 1), k)) by {
                    assert(old(v)@.subrange(0, i + 1)[i as int] == e);
                }
            } else {
                if cache_has_key(old(v)@.subrange(0, i + 1), k) {
                    let w = choose|j: int|
                        0 <= j < old(v)@.subrange(0, i + 1).len() && (#[trigger] old(v)@.subrange(
                            0,
                            i + 1,
                        )[j]).0 == k;
                    if w < i {
                        assert(old(v)@.subrange(0, i as int)[w].0 == k);
                    }
                }
            }
        }
        if e.0 == k {
            found = true;
        } else {
            let ghost out0 = out@;
            out.push(e);
            proof {
                assert forall|pr: (Name, Name)| #[trigger]
                    out@.contains(pr) == (old(v)@.subrange(0, i + 1).contains(pr) && pr.0
                        != k) by {
                    vstd::seq_lib::lemma_seq_contains_after_push(out0, e, pr);
                    assert(out@ == out0.push(e));
                }
            }
        }
        i = i + 1;
    }
    proof {
        assert(old(v)@.subrange(0, v@.len() as int) =~= old(v)@);
        assert(!cache_has_key(out@, k));
    }
    *v = out;
    found
}

/// Two node sequences agree pointwise on names and ages (elder flags free).
pub open spec fn eq_names_ages(s: Seq<Node>, t: Seq<Node>) -> bool {
    s.len() == t.len() && forall|i: int|
        0 <= i < s.len() ==> (#[trigger] s[i]).name == t[i].name && s[i].age == t[i].age
}

/// Elder flags are exact: a node is an elder exactly when fewer than `k`
/// nodes have a greater `(age, name)` key.
pub open spec fn elders_ok(s: Seq<Node>, k: int) -> bool {
    forall|i: int| 0 <= i < s.len() ==> ((#[trigger] s[i]).elder <==> count_greater(s, s[i]) < k)
}

/// `count_greater` reads only names and ages, never elder flags.
pub proof fn lemma_count_greater_congruent(s: Seq<Node>, t: Seq<Node>, n: Node, m: Node)
    requires
        eq_names_ages(s, t),
        n.name == m.name,
        n.age == m.age,
    ensures
        count_greater(s, n) == count_greater(t, m),
    decreases s.len(),
{
    if s.len() > 0 {
        assert(eq_names_ages(s.drop_last(), t.drop_last())) by {
            assert(forall|i: int|
                0 <= i < s.drop_last().len() ==> #[trigger] s.drop_last()[i] == s[i]
                    && t.drop_last()[i] == t[i]);
        }
        lemma_count_greater_congruent(s.drop_last(), t.drop_last(), n, m);
        assert(s.last() == s[s.len() - 1]);
        assert(t.last() == t[t.len() - 1]);
    }
}

impl Section {
    /// Recomputes the elder set: the top-`group_size` nodes by `(age, name)`
    /// descending. Demotions write `Gone` blocks and promotions write `Live`
    /// blocks to the chain. When `relocate` is set and exactly one node was
    /// promoted, a relocation attempt is seeded with that node's block.
    pub fn update_elders(&mut self, params: &Params, relocate: bool) -> (r: Vec<Response>)
        requires
            old(self).wf(),
            params.valid(),
        ensures
            final(self).wf(),
            final(self).prefix == old(self).prefix,
            final(self).state == old(self).state,
            final(self).requests@ == old(self).requests@,
            final(self).incoming_relocations@ == old(self).incoming_relocations@,
            eq_names_ages(final(self).nodes@, old(self).nodes@),
            elders_ok(final(self).nodes@, params.group_size as int),
            old(self).chain.blocks@.is_prefix_of(final(self).chain.blocks@),
            final(self).chain.blocks@ == old(self).chain.blocks@ + elder_delta(
                old(self).nodes@,
                old(self).nodes@,
                params.group_size as int,
            ),
            !relocate ==> r@.len() == 0 && final(self).outgoing_relocations@ == old(self).outgoing_relocations@,
            r@.len() == 0 ==> final(self).outgoing_relocations@ == old(self).outgoing_relocations@,
            relocate ==> (r@.len() == 0 && final(self).outgoing_relocations@ == old(self).outgoing_relocations@) || relocate_emitted(
                final(self).nodes@,
                old(self).prefix,
                old(self).outgoing_relocations@,
                final(self).outgoing_relocations@,
                r@,
                *params,
            ),
            !(relocate && promoted_nodes(
                old(self).nodes@,
                old(self).nodes@,
                params.group_size as int,
            ).len() == 1) ==> r@.len() == 0 && final(self).outgoing_relocations@ == old(self).outgoing_relocations@,
            (relocate && promoted_nodes(
                old(self).nodes@,
                old(self).nodes@,
                params.group_size as int,
            ).len() == 1) ==> try_relocate_rel(
                final(self).nodes@,
                old(self).prefix,
                old(self).outgoing_relocations@,
                final(self).outgoing_relocations@,
                r@,
                *params,
                Block {
                    event: Event::Live,
                    name: promoted_nodes(
                        old(self).nodes@,
                        old(self).nodes@,
                        params.group_size as int,
                    )[0].name,
                    age: promoted_nodes(
                        old(self).nodes@,
                        old(self).nodes@,
                        params.group_size as int,
                    )[0].age,
                },
            ),
    {
        let ghost nodes0 = self.nodes@;
        let mut i: usize = 0;
        let mut promoted_count: usize = 0;
        let mut promoted: Node = Node { name: 0, age: 0, elder: false };
        while i < self.nodes.len()
            invariant
                old(self).wf(),
                params.valid(),
                self.prefix == old(self).prefix,
                self.state == old(self).state,
                self.requests@ == old(self).requests@,
                self.incoming_relocations@ == old(self).incoming_relocations@,
                self.outgoing_relocations@ == old(self).outgoing_relocations@,
                nodes0 == old(self).nodes@,
                i <= self.nodes@.len(),
                eq_names_ages(self.nodes@, nodes0),
                forall|j: int| i <= j < self.nodes@.len() ==> #[trigger] self.nodes@[j] == nodes0[j],
                forall|j: int|
                    0 <= j < i ==> ((#[trigger] self.nodes@[j]).elder <==> count_greater(
                        nodes0,
                        nodes0[j],
                    ) < params.group_size),
                self.chain.blocks@ == old(self).chain.blocks@ + elder_delta(
                    nodes0.subrange(0, i as int),
                    nodes0,
                    params.group_size as int,
                ),
                promoted_count <= i,
                promoted_count == promoted_nodes(
                    nodes0.subrange(0, i as int),
                    nodes0,
                    params.group_size as int,
                ).len(),
                promoted_count > 0 ==> promoted == promoted_nodes(
                    nodes0.subrange(0, i as int),
                    nodes0,
                    params.group_size as int,
                ).last(),
            decreases self.nodes@.len() - i,
        {
            let n = self.nodes[i];
            let rank = crate::node::greater_nodes(&self.nodes, &n);
            proof {
                lemma_count_greater_congruent(self.nodes@, nodes0, n, nodes0[i as int]);
                assert(nodes0.subrange(0, i + 1).drop_last() =~= nodes0.subrange(0, i as int));
                assert(nodes0.subrange(0, i + 1).last() == nodes0[i as int]);
                assert(nodes0[i as int].name == n.name && nodes0[i as int].age == n.age
                    && nodes0[i as int].elder == n.elder);
            }
            let is_new = rank < params.group_size;
            let ghost chain_before = self.chain.blocks@;
            if n.elder && !is_new {
                self.nodes[i] = Node { name: n.name, age: n.age, elder: false };
                self.chain.insert(Event::Gone, n.name, n.age);
                proof {
                    assert(self.chain.blocks@ =~= old(self).chain.blocks@ + elder_delta(
                        nodes0.subrange(0, i + 1),
                        nodes0,
                        params.group_size as int,
                    ));
                }
            } else if !n.elder && is_new {
                self.nodes[i] = Node { name: n.name, age: n.age, elder: true };
                self.chain.insert(Event::Live, n.name, n.age);
                promoted_count = promoted_count + 1;
                promoted = n;
                proof {
                    assert(self.chain.blocks@ =~= old(self).chain.blocks@ + elder_delta(
                        nodes0.subrange(0, i + 1),
                        nodes0,
                        params.group_size as int,
                    ));
                    assert(promoted_nodes(
                        nodes0.subrange(0, i + 1),
                        nodes0,
                        params.group_size as int,
                    ) == promoted_nodes(
                        nodes0.subrange(0, i as int),
                        nodes0,
                        params.group_size as int,
                    ).push(nodes0[i as int]));
                    assert(promoted == nodes0[i as int]) by {
                        assert(nodes0[i as int] == n);
                    }
                }
            } else {
                proof {
                    assert(self.chain.blocks@ =~= old(self).chain.blocks@ + elder_delta(
                        nodes0.subrange(0, i + 1),
                        nodes0,
                        params.group_size as int,
                    ));
                }
            }
            proof {
                assert(eq_names_ages(self.nodes@, nodes0));
            }
            i = i + 1;
        }
        proof {
            assert forall|j: int|
                0 <= j < self.nodes@.len() implies ((#[trigger] self.nodes@[j]).elder
                <==> count_greater(self.nodes@, self.nodes@[j]) < params.group_size) by {
                lemma_count_greater_congruent(nodes0, self.nodes@, nodes0[j], self.nodes@[j]);
            }
        }
        proof {
            assert(nodes0.subrange(0, nodes0.len() as int) =~= nodes0);
        }
        if relocate && promoted_count == 1 {
            proof {
                assert(promoted == promoted_nodes(
                    nodes0,
                    nodes0,
                    params.group_size as int,
                )[0]);
            }
            self.try_relocate(params, Block { event: Event::Live, name: promoted.name, age: promoted.age })
        } else {
            Vec::new()
        }
    }
}

/// A relocation request was emitted: some attempt `k` of the hash chain
/// seeded by some block found a candidate; the chosen node's name entered the
/// outgoing cache, and the single response asks the section owning the low 64
/// bits of that hash to reserve capacity.
pub open spec fn relocate_emitted(
    nodes: Seq<Node>,
    prefix: Prefix,
    out_pre: Seq<Name>,
    out_post: Seq<Name>,
    r: Seq<Response>,
    params: Params,
) -> bool {
    &&& out_pre.len() == 0
    &&& count_adults(nodes, params) > params.group_size
    &&& r.len() == 1
    &&& exists|b: Block, k: nat, node_name: Name|
        {
            &&& r[0] == (Response::RelocateRequest {
                src: prefix,
                dst: low_u64_of(hash_chain(b, k)),
                node_name,
            })
            &&& out_post == out_pre.push(node_name)
            &&& has_name(nodes, node_name)
            &&& k < params.max_relocation_attempts
            &&& #[trigger] spec_chosen(nodes, tz_of(hash_chain(b, k)), node_name)
        }
}

/// A prefix of a sequence stays a prefix after a push.
pub proof fn lemma_prefix_push<T>(a: Seq<T>, b: Seq<T>, x: T)
    requires
        a.is_prefix_of(b),
    ensures
        a.is_prefix_of(b.push(x)),
{
    assert(b.push(x).subrange(0, a.len() as int) =~= b.subrange(0, a.len() as int));
}

/// Picks the relocation candidate for a hash with `tz` trailing zero bits:
/// the oldest node of age at most `tz`; ties on age go to the name minimizing
/// `name XOR X`, `X` being the XOR of all tied names.
pub(crate) fn choose_candidate(nodes: &Vec<Node>, tz: u64) -> (r: Option<Name>)
    ensures
        match r {
            Some(n) => spec_chosen(nodes@, tz as int, n),
            None => !has_candidate(nodes@, tz as int),
        },
{
    let mut i: usize = 0;
    let mut best_age: u64 = 0;
    let mut any = false;
    while i < nodes.len()
        invariant
            i <= nodes.len(),
            !any ==> forall|j: int| 0 <= j < i ==> !(#[trigger] nodes@[j].age <= tz),
            any ==> best_age <= tz && (exists|j: int|
                0 <= j < i && (#[trigger] nodes@[j].age) == best_age) && (forall|j: int|
                0 <= j < i && (#[trigger] nodes@[j].age) <= tz ==> nodes@[j].age <= best_age),
        decreases nodes.len() - i,
    {
        let a = nodes[i].age;
        if a <= tz && (!any || a > best_age) {
            best_age = a;
            any = true;
        }
        i = i + 1;
    }
    if !any {
        return None;
    }
    let mut x: u64 = 0;
    let mut i: usize = 0;
    while i < nodes.len()
        invariant
            i <= nodes.len(),
            x == xor_of_age(nodes@.subrange(0, i as int), best_age),
        decreases nodes.len() - i,
    {
        proof {
            assert(nodes@.subrange(0, i + 1).drop_last() =~= nodes@.subrange(0, i as int));
        }
        if nodes[i].age == best_age {
            x = x ^ nodes[i].name;
        }
        i = i + 1;
    }
    proof {
        assert(nodes@.subrange(0, nodes@.len() as int) =~= nodes@);
    }
    let mut i: usize = 0;
    let mut best: Name = 0;
    let ghost mut best_idx: int = 0;
    let mut found = false;
    while i < nodes.len()
        invariant
            i <= nodes.len(),
            !found ==> forall|j: int| 0 <= j < i ==> (#[trigger] nodes@[j].age) != best_age,
            found ==> 0 <= best_idx < i && nodes@[best_idx].age == best_age
                && nodes@[best_idx].name == best && (forall|j: int|
                0 <= j < i && (#[trigger] nodes@[j].age) == best_age ==> (best ^ x) <= (
                nodes@[j].name ^ x)),
        decreases nodes.len() - i,
    {
        if nodes[i].age == best_age {
            let cand = nodes[i].name;
            if !found || (cand ^ x) < (best ^ x) {
                best = cand;
                found = true;
                proof {
                    best_idx = i as int;
                }
            }
        }
        i = i + 1;
    }
    proof {
        assert(found) by {
            let w = choose|j: int| 0 <= j < nodes@.len() && (#[trigger] nodes@[j].age) == best_age;
            assert(nodes@[w].age == best_age);
        }
        assert(x == xor_of_age(nodes@, best_age));
        assert(spec_chosen(nodes@, tz as int, best)) by {
            assert(0 <= best_idx < nodes@.len() && nodes@[best_idx].name == best
                && nodes@[best_idx].age <= tz);
        }
    }
    Some(best)
}

/// Everything one relocation attempt may do, over the node list it selects
/// from: a strict no-op without a surplus of adults or with a relocation
/// already pending; otherwise the first hash of the chain that admits a
/// candidate emits exactly one reservation request for the selected node.
pub open spec fn try_relocate_rel(
    nodes: Seq<Node>,
    prefix: Prefix,
    out_pre: Seq<Name>,
    out_post: Seq<Name>,
    r: Seq<Response>,
    params: Params,
    block: Block,
) -> bool {
    &&& (r.len() == 0 && out_post == out_pre) || relocate_emitted(
        nodes,
        prefix,
        out_pre,
        out_post,
        r,
        params,
    )
    &&& count_adults(nodes, params) <= params.group_size ==> r.len() == 0 && out_post == out_pre
    &&& out_pre.len() != 0 ==> r.len() == 0 && out_post == out_pre
    &&& (count_adults(nodes, params) > params.group_size && out_pre.len() == 0 && exists|k: nat|
        k < params.max_relocation_attempts && has_candidate(
            nodes,
            tz_of(#[trigger] hash_chain(block, k)),
        )) ==> r.len() == 1
    &&& r.len() == 1 ==> exists|k: nat, node_name: Name|
        {
            &&& r[0] == (Response::RelocateRequest {
                src: prefix,
                dst: low_u64_of(hash_chain(block, k)),
                node_name,
            })
            &&& k < params.max_relocation_attempts
            &&& #[trigger] spec_chosen(nodes, tz_of(hash_chain(block, k)), node_name)
            &&& forall|m: nat| m < k ==> !has_candidate(nodes, tz_of(hash_chain(block, m)))
        }
}

/// The chain blocks one elder recomputation writes, in node order: a `Gone`
/// per demotion, a `Live` per promotion, nothing else.
pub open spec fn elder_delta(s: Seq<Node>, full: Seq<Node>, k: int) -> Seq<Block>
    decreases s.len(),
{
    if s.len() == 0 {
        Seq::empty()
    } else {
        elder_delta(s.drop_last(), full, k) + {
            let n = s.last();
            if n.elder && !(count_greater(full, n) < k) {
                seq![Block { event: Event::Gone, name: n.name, age: n.age }]
            } else if !n.elder && count_greater(full, n) < k {
                seq![Block { event: Event::Live, name: n.name, age: n.age }]
            } else {
                Seq::empty()
            }
        }
    }
}

/// The nodes an elder recomputation promotes, in node order.
pub open spec fn promoted_nodes(s: Seq<Node>, full: Seq<Node>, k: int) -> Seq<Node>
    decreases s.len(),
{
    if s.len() == 0 {
        Seq::empty()
    } else if !s.last().elder && count_greater(full, s.last()) < k {
        promoted_nodes(s.drop_last(), full, k).push(s.last())
    } else {
        promoted_nodes(s.drop_last(), full, k)
    }
}

impl Section {
    /// Attempts to relocate one node, seeded by the given block's hash.
    /// Nothing happens when the section has no surplus of adults (a
    /// relocation would trigger a merge) or a relocation is already pending;
    /// otherwise up to `max_relocation_attempts` rehashings look for a
    /// candidate, and the first hit emits a reservation request.
    pub fn try_relocate(&mut self, params: &Params, block: Block) -> (r: Vec<Response>)
        requires
            old(self).wf(),
            params.valid(),
        ensures
            final(self).wf(),
            final(self).prefix == old(self).prefix,
            final(self).state == old(self).state,
            final(self).nodes@ == old(self).nodes@,
            final(self).chain == old(self).chain,
            final(self).requests@ == old(self).requests@,
            final(self).incoming_relocations@ == old(self).incoming_relocations@,
            try_relocate_rel(
                old(self).nodes@,
                old(self).prefix,
                old(self).outgoing_relocations@,
                final(self).outgoing_relocations@,
                r@,
                *params,
                block,
            ),
    {
        if crate::node::adults(&self.nodes, params) <= params.group_size {
            return Vec::new();
        }
        if self.outgoing_relocations.len() != 0 {
            return Vec::new();
        }
        let mut h = block.hash();
        let ghost mut k: nat = 0;
        let mut attempt: usize = 0;
        while attempt < params.max_relocation_attempts
            invariant
                self == old(self),
                params.valid(),
                old(self).wf(),
                count_adults(old(self).nodes@, *params) > params.group_size,
                old(self).outgoing_relocations@.len() == 0,
                attempt == k,
                h.wf(),
                h.bytes@ == hash_chain(block, k),
                forall|m: nat|
                    m < k ==> !has_candidate(old(self).nodes@, tz_of(#[trigger] hash_chain(
                        block,
                        m,
                    ))),
            decreases params.max_relocation_attempts - attempt,
        {
            let tz = h.trailing_zeros();
            match choose_candidate(&self.nodes, tz) {
                Some(node_name) => {
                    self.outgoing_relocations.push(node_name);
                    let dst = h.to_u64();
                    let mut r: Vec<Response> = Vec::new();
                    r.push(Response::RelocateRequest { src: self.prefix, dst, node_name });
                    proof {
                        assert(r@ =~= seq![
                            Response::RelocateRequest { src: old(self).prefix, dst, node_name },
                        ]);
                        assert(final(self).outgoing_relocations@ == old(self).outgoing_relocations@.push(node_name));
                        assert(spec_chosen(old(self).nodes@, tz_of(hash_chain(block, k)), node_name));
                        assert(dst == low_u64_of(hash_chain(block, k)));
                        assert(k < params.max_relocation_attempts);
                        assert(r@[0] == (Response::RelocateRequest {
                            src: old(self).prefix,
                            dst: low_u64_of(hash_chain(block, k)),
                            node_name,
                        }));
                    }
                    return r;
                },
                None => {
                    h = h.rehash();
                    proof {
                        k = k + 1;
                    }
                },
            }
            attempt = attempt + 1;
        }
        Vec::new()
    }

    /// Initiates a merge when the section is not the root and holds fewer
    /// than `group_size` adults: instructs itself and its sibling to merge
    /// into the parent prefix. A no-op otherwise.
    pub fn try_merge(&self, params: &Params) -> (r: Vec<Response>)
        requires
            self.wf(),
            params.valid(),
        ensures
            self.prefix.len == 0 ==> r@.len() == 0,
            count_adults(self.nodes@, *params) >= params.group_size ==> r@.len() == 0,
            self.prefix.len != 0 && count_adults(self.nodes@, *params) < params.group_size ==> r@
                == seq![
                Response::Send(self.prefix, Request::Merge(self.prefix.spec_shorten())),
                Response::Send(self.prefix.spec_sibling(), Request::Merge(self.prefix.spec_shorten())),
            ],
    {
        if self.prefix.len == 0 {
            return Vec::new();
        }
        if crate::node::adults(&self.nodes, params) >= params.group_size {
            return Vec::new();
        }
        let sibling = self.prefix.sibling();
        let parent = self.prefix.shorten();
        let mut r: Vec<Response> = Vec::new();
        r.push(Response::Send(self.prefix, Request::Merge(parent)));
        r.push(Response::Send(sibling, Request::Merge(parent)));
        proof {
            assert(r@ =~= seq![
                Response::Send(self.prefix, Request::Merge(self.prefix.spec_shorten())),
                Response::Send(
                    self.prefix.spec_sibling(),
                    Request::Merge(self.prefix.spec_shorten()),
                ),
            ]);
        }
        r
    }
}

/// The nodes of the sequence whose name the prefix does not match, in order.
pub open spec fn filter_not_matching(s: Seq<Node>, p: Prefix) -> Seq<Node>
    decreases s.len(),
{
    if s.len() == 0 {
        Seq::empty()
    } else if !p.spec_matches(s.last().name) {
        filter_not_matching(s.drop_last(), p).push(s.last())
    } else {
        filter_not_matching(s.drop_last(), p)
    }
}

/// The names of the sequence that the prefix does not match, in order.
pub open spec fn filter_names_out(s: Seq<Name>, p: Prefix) -> Seq<Name>
    decreases s.len(),
{
    if s.len() == 0 {
        Seq::empty()
    } else if !p.spec_matches(s.last()) {
        filter_names_out(s.drop_last(), p).push(s.last())
    } else {
        filter_names_out(s.drop_last(), p)
    }
}

/// The cache entries whose destination the prefix does not match, in order.
pub open spec fn filter_cache_out(s: Seq<(Name, Name)>, p: Prefix) -> Seq<(Name, Name)>
    decreases s.len(),
{
    if s.len() == 0 {
        Seq::empty()
    } else if !p.spec_matches(s.last().1) {
        filter_cache_out(s.drop_last(), p).push(s.last())
    } else {
        filter_cache_out(s.drop_last(), p)
    }
}

/// Every node of `filter_matching(s, p)` comes from `s` and matches `p`;
/// distinct names stay distinct.
pub proof fn lemma_filter_matching_props(s: Seq<Node>, p: Prefix)
    ensures
        forall|j: int|
            0 <= j < filter_matching(s, p).len() ==> s.contains(#[trigger] filter_matching(
                s,
                p,
            )[j]) && p.spec_matches(filter_matching(s, p)[j].name),
        distinct_names(s) ==> distinct_names(filter_matching(s, p)),
        forall|nm: Name| has_name(filter_matching(s, p), nm) ==> has_name(s, nm),
    decreases s.len(),
{
    if s.len() > 0 {
        lemma_filter_matching_props(s.drop_last(), p);
        assert forall|x: Node| s.drop_last().contains(x) implies s.contains(x) by {
            let i = choose|i: int| 0 <= i < s.drop_last().len() && s.drop_last()[i] == x;
            assert(s[i] == x);
        }
        let f = filter_matching(s, p);
        let fd = filter_matching(s.drop_last(), p);
        if p.spec_matches(s.last().name) {
            assert(f == fd.push(s.last()));
            assert(s.contains(s.last())) by {
                assert(s[s.len() - 1] == s.last());
            }
            if distinct_names(s) {
                assert(distinct_names(s.drop_last())) by {
                    assert(forall|i: int|
                        0 <= i < s.drop_last().len() ==> #[trigger] s.drop_last()[i] == s[i]);
                }
                assert forall|a: int, b: int| 0 <= a < b < f.len() implies f[a].name
                    != f[b].name by {
                    if b == f.len() - 1 {
                        assert(f[a] == fd[a]);
                        assert(s.drop_last().contains(fd[a]));
                        let i = choose|i: int|
                            0 <= i < s.drop_last().len() && s.drop_last()[i] == fd[a];
                        assert(s[i] == fd[a]);
                        assert(s[i].name != s[s.len() - 1].name);
                    } else {
                        assert(f[a] == fd[a] && f[b] == fd[b]);
                    }
                }
            }
            assert forall|nm: Name| has_name(f, nm) implies has_name(s, nm) by {
                let j = choose|j: int| 0 <= j < f.len() && f[j].name == nm;
                if j == f.len() - 1 {
                    assert(s[s.len() - 1].name == nm);
                } else {
                    assert(has_name(fd, nm));
                    let i = choose|i: int| 0 <= i < fd.len() && fd[i].name == nm;
                    assert(s.drop_last().contains(fd[i]));
                    let w = choose|w: int|
                        0 <= w < s.drop_last().len() && s.drop_last()[w] == fd[i];
                    assert(s[w].name == nm);
                }
            }
        } else {
            assert(f == fd);
            if distinct_names(s) {
                assert(distinct_names(s.drop_last())) by {
                    assert(forall|i: int|
                        0 <= i < s.drop_last().len() ==> #[trigger] s.drop_last()[i] == s[i]);
                }
            }
            assert forall|nm: Name| has_name(f, nm) implies has_name(s, nm) by {
                let i = choose|i: int| 0 <= i < fd.len() && fd[i].name == nm;
                assert(s.drop_last().contains(fd[i]));
                let w = choose|w: int| 0 <= w < s.drop_last().len() && s.drop_last()[w] == fd[i];
                assert(s[w].name == nm);
            }
        }
    }
}

/// When every node of `s` matches a prefix, the nodes that do not match one
/// child are exactly the nodes that match the other.
pub proof fn lemma_partition_filters(s: Seq<Node>, p: Prefix)
    requires
        p.wf(),
        p.len < 64,
        forall|i: int| 0 <= i < s.len() ==> p.spec_matches((#[trigger] s[i]).name),
    ensures
        filter_not_matching(s, p.spec_split().0) == filter_matching(s, p.spec_split().1),
    decreases s.len(),
{
    if s.len() > 0 {
        assert(forall|i: int|
            0 <= i < s.drop_last().len() ==> #[trigger] s.drop_last()[i] == s[i]);
        lemma_partition_filters(s.drop_last(), p);
        assert(p.spec_matches(s[s.len() - 1].name));
        crate::prefix::lemma_split_partitions_names(p, s.last().name);
    }
}

/// The split fires exactly when both children would keep at least
/// `2 * group_size - quorum` adults.
pub open spec fn split_cond(s: Seq<Node>, p: Prefix, params: Params) -> bool {
    &&& count_matching_adults(s, p.spec_split().0, params) >= params.spec_split_limit()
    &&& count_matching_adults(s, p.spec_split().1, params) >= params.spec_split_limit()
}

/// What the two freshly materialized children of a splitting section hold:
/// the parent's nodes, outgoing and incoming caches partitioned by the child
/// prefixes, a copy of the parent's chain, and exact elder flags.
pub open spec fn split_children_ok(pre: Section, s0: Section, s1: Section, params: Params) -> bool {
    let c0 = pre.prefix.spec_split().0;
    let c1 = pre.prefix.spec_split().1;
    &&& s0.prefix == c0
    &&& s1.prefix == c1
    &&& s0.state == State::Stable
    &&& s1.state == State::Stable
    &&& s0.wf()
    &&& s1.wf()
    &&& eq_names_ages(s0.nodes@, filter_matching(pre.nodes@, c0))
    &&& eq_names_ages(s1.nodes@, filter_matching(pre.nodes@, c1))
    &&& elders_ok(s0.nodes@, params.group_size as int)
    &&& elders_ok(s1.nodes@, params.group_size as int)
    &&& s0.outgoing_relocations@ == filter_names(pre.outgoing_relocations@, c0)
    &&& s1.outgoing_relocations@ == filter_names_out(pre.outgoing_relocations@, c0)
    &&& s0.incoming_relocations@ == filter_cache(pre.incoming_relocations@, c0)
    &&& s1.incoming_relocations@ == filter_cache_out(pre.incoming_relocations@, c0)
    &&& s0.requests@.len() == 0
    &&& s1.requests@.len() == 0
    &&& pre.chain.blocks@.is_prefix_of(s0.chain.blocks@)
    &&& pre.chain.blocks@.is_prefix_of(s1.chain.blocks@)
}

/// What a section looks like right after it emitted a split: drained and
/// marked `Splitting`.
pub open spec fn split_parent_after(pre: Section, post: Section) -> bool {
    &&& post.prefix == pre.prefix
    &&& post.state == State::Splitting
    &&& post.nodes@.len() == 0
    &&& post.incoming_relocations@.len() == 0
    &&& post.outgoing_relocations@.len() == 0
    &&& post.chain == pre.chain
    &&& post.requests@ == pre.requests@
}

impl Section {
    /// Splits the section when both child prefixes would keep at least
    /// `2 * group_size - quorum` adults: materializes the two children with
    /// the partitioned state and marks itself `Splitting`. A strict no-op on
    /// all state otherwise.
    pub fn try_split(&mut self, params: &Params) -> (r: Vec<Response>)
        requires
            old(self).wf(),
            params.valid(),
            old(self).prefix.len < 64,
            old(self).state == State::Stable,
        ensures
            final(self).wf(),
            !split_cond(old(self).nodes@, old(self).prefix, *params) ==> r@.len() == 0 && *final(self) == *old(self),
            split_cond(old(self).nodes@, old(self).prefix, *params) ==> r@.len() == 1
                && split_parent_after(*old(self), *final(self)) && exists|s0: Section, s1: Section|
                r@[0] == Response::Split(s0, s1, old(self).prefix) && #[trigger] split_children_ok(
                    *old(self),
                    s0,
                    s1,
                    *params,
                ),
    {
        let (c0, c1) = self.prefix.split();
        let limit = params.split_limit();
        let a0 = crate::node::matching_adults(&self.nodes, &c0, params);
        let a1 = crate::node::matching_adults(&self.nodes, &c1, params);
        if !(a0 >= limit && a1 >= limit) {
            return Vec::new();
        }
        let mut n0: Vec<Node> = Vec::new();
        let mut n1: Vec<Node> = Vec::new();
        let mut i: usize = 0;
        while i < self.nodes.len()
            invariant
                i <= self.nodes@.len(),
                self == old(self),
                c0 == old(self).prefix.spec_split().0,
                c0.wf(),
                n0@ == filter_matching(self.nodes@.subrange(0, i as int), c0),
                n1@ == filter_not_matching(self.nodes@.subrange(0, i as int), c0),
            decreases self.nodes@.len() - i,
        {
            proof {
                assert(self.nodes@.subrange(0, i + 1).drop_last() =~= self.nodes@.subrange(
                    0,
                    i as int,
                ));
            }
            if c0.matches(self.nodes[i].name) {
                n0.push(self.nodes[i]);
            } else {
                n1.push(self.nodes[i]);
            }
            i = i + 1;
        }
        let mut o0: Vec<Name> = Vec::new();
        let mut o1: Vec<Name> = Vec::new();
        let mut i: usize = 0;
        while i < self.outgoing_relocations.len()
            invariant
                i <= self.outgoing_relocations@.len(),
                self == old(self),
                c0 == old(self).prefix.spec_split().0,
                c0.wf(),
                o0@ == filter_names(self.outgoing_relocations@.subrange(0, i as int), c0),
                o1@ == filter_names_out(self.outgoing_relocations@.subrange(0, i as int), c0),
            decreases self.outgoing_relocations@.len() - i,
        {
            proof {
                assert(self.outgoing_relocations@.subrange(0, i + 1).drop_last()
                    =~= self.outgoing_relocations@.subrange(0, i as int));
            }
            if c0.matches(self.outgoing_relocations[i]) {
                o0.push(self.outgoing_relocations[i]);
            } else {
                o1.push(self.outgoing_relocations[i]);
            }
            i = i + 1;
        }
        let mut c_in0: Vec<(Name, Name)> = Vec::new();
        let mut c_in1: Vec<(Name, Name)> = Vec::new();
        let mut i: usize = 0;
        while i < self.incoming_relocations.len()
            invariant
                i <= self.incoming_relocations@.len(),
                self == old(self),
                c0 == old(self).prefix.spec_split().0,
                c0.wf(),
                c_in0@ == filter_cache(self.incoming_relocations@.subrange(0, i as int), c0),
                c_in1@ == filter_cache_out(self.incoming_relocations@.subrange(0, i as int), c0),
            decreases self.incoming_relocations@.len() - i,
        {
            proof {
                assert(self.incoming_relocations@.subrange(0, i + 1).drop_last()
                    =~= self.incoming_relocations@.subrange(0, i as int));
            }
            if c0.matches(self.incoming_relocations[i].1) {
                c_in0.push(self.incoming_relocations[i]);
            } else {
                c_in1.push(self.incoming_relocations[i]);
            }
            i = i + 1;
        }
        proof {
            assert(self.nodes@.subrange(0, self.nodes@.len() as int) =~= self.nodes@);
            assert(self.outgoing_relocations@.subrange(0, self.outgoing_relocations@.len() as int)
                =~= self.outgoing_relocations@);
            assert(self.incoming_relocations@.subrange(0, self.incoming_relocations@.len() as int)
                =~= self.incoming_relocations@);
            lemma_filter_matching_props(self.nodes@, c0);
            lemma_filter_matching_props(self.nodes@, c1);
            lemma_partition_filters(self.nodes@, self.prefix);
        }
        let mut s0 = Section::new(c0);
        let mut s1 = Section::new(c1);
        s0.chain = self.chain.duplicate();
        s1.chain = self.chain.duplicate();
        s0.nodes = n0;
        s1.nodes = n1;
        let _ = s0.update_elders(params, false);
        let _ = s1.update_elders(params, false);
        s0.outgoing_relocations = o0;
        s1.outgoing_relocations = o1;
        s0.incoming_relocations = c_in0;
        s1.incoming_relocations = c_in1;
        self.nodes = Vec::new();
        self.outgoing_relocations = Vec::new();
        self.incoming_relocations = Vec::new();
        self.state = State::Splitting;
        let ghost g0 = s0;
        let ghost g1 = s1;
        let mut r: Vec<Response> = Vec::new();
        r.push(Response::Split(s0, s1, self.prefix));
        proof {
            assert(r@[0] == Response::Split(g0, g1, old(self).prefix));
            assert(split_children_ok(*old(self), g0, g1, *params));
        }
        r
    }
}

/// `count_adults` reads only ages, never elder flags.
pub proof fn lemma_count_adults_congruent(s: Seq<Node>, t: Seq<Node>, params: Params)
    requires
        eq_names_ages(s, t),
    ensures
        count_adults(s, params) == count_adults(t, params),
    decreases s.len(),
{
    if s.len() > 0 {
        assert(eq_names_ages(s.drop_last(), t.drop_last())) by {
            assert(forall|i: int|
                0 <= i < s.drop_last().len() ==> #[trigger] s.drop_last()[i] == s[i]
                    && t.drop_last()[i] == t[i]);
        }
        lemma_count_adults_congruent(s.drop_last(), t.drop_last(), params);
        assert(s.last() == s[s.len() - 1]);
        assert(t.last() == t[t.len() - 1]);
    }
}

/// Prefixes of sequences compose.
pub proof fn lemma_prefix_trans<T>(a: Seq<T>, b: Seq<T>, c: Seq<T>)
    requires
        a.is_prefix_of(b),
        b.is_prefix_of(c),
    ensures
        a.is_prefix_of(c),
{
    assert(c.subrange(0, a.len() as int) =~= b.subrange(0, a.len() as int));
}

/// The node set after an insertion that replaces any node of the same name,
/// with the elder flags recomputed: what `handle_live` leaves behind before
/// it considers splitting or relocating.
pub open spec fn live_added(pre: Section, nn: Node, params: Params, mid: Section) -> bool {
    &&& mid.prefix == pre.prefix
    &&& mid.state == pre.state
    &&& mid.requests@ == pre.requests@
    &&& mid.incoming_relocations@ == pre.incoming_relocations@
    &&& mid.outgoing_relocations@ == pre.outgoing_relocations@
    &&& pre.chain.blocks@.is_prefix_of(mid.chain.blocks@)
    &&& ((exists|i: int|
        0 <= i < pre.nodes@.len() && (#[trigger] pre.nodes@[i]).name == nn.name && eq_names_ages(
            mid.nodes@,
            pre.nodes@.update(i, nn),
        ) && mid.chain.blocks@ == pre.chain.blocks@ + elder_delta(
            pre.nodes@.update(i, nn),
            pre.nodes@.update(i, nn),
            params.group_size as int,
        )) || (!has_name(pre.nodes@, nn.name) && eq_names_ages(mid.nodes@, pre.nodes@.push(nn))
        && mid.chain.blocks@ == pre.chain.blocks@ + elder_delta(
            pre.nodes@.push(nn),
            pre.nodes@.push(nn),
            params.group_size as int,
        )))
    &&& elders_ok(mid.nodes@, params.group_size as int)
    &&& mid.wf()
}

/// The node a join inserts: at startup (the empty prefix) the joiner's age is
/// rewritten to `adult_age`; otherwise the node enters as it came.
pub open spec fn spec_joiner(pre: Section, node: Node, params: Params) -> Node {
    if pre.prefix.len == 0 {
        Node { name: node.name, age: params.adult_age, elder: false }
    } else {
        node
    }
}

/// Everything `handle_live` may do, as a relation between the section before
/// and after the call. While splitting or merging the request is forwarded;
/// at startup (the empty prefix) the joiner enters with `adult_age` and no
/// relocation follows; an infant beyond the infant cap is rejected; otherwise
/// the node is inserted, the elders are recomputed, and the section then
/// either splits, attempts one relocation (adult joiners only), or rests.
pub open spec fn spec_live_outcome(
    pre: Section,
    node: Node,
    params: Params,
    post: Section,
    r: Seq<Response>,
) -> bool {
    match pre.spec_forward(node.name) {
        Option::Some(t) => post == pre && r == seq![Response::Send(t, Request::Live(node))],
        Option::None => {
            let startup = pre.prefix.len == 0;
            let nn = spec_joiner(pre, node, params);
            if !startup && node.spec_is_infant(params) && count_infants(pre.nodes@, params)
                >= params.max_infants_per_section {
                post == pre && r == seq![Response::Reject(node)]
            } else {
                exists|mid: Section|
                    #[trigger] live_added(pre, nn, params, mid) && if split_cond(
                        mid.nodes@,
                        mid.prefix,
                        params,
                    ) {
                        r.len() == 1 && split_parent_after(mid, post) && exists|
                            s0: Section,
                            s1: Section,
                        |
                            r[0] == Response::Split(s0, s1, pre.prefix)
                                && #[trigger] split_children_ok(mid, s0, s1, params)
                    } else if nn.spec_is_adult(params) && !startup {
                        &&& post.nodes@ == mid.nodes@
                        &&& post.chain == mid.chain
                        &&& post.prefix == mid.prefix
                        &&& post.state == mid.state
                        &&& post.requests@ == mid.requests@
                        &&& post.incoming_relocations@ == mid.incoming_relocations@
                        &&& ((r.len() == 0 && post.outgoing_relocations@
                            == mid.outgoing_relocations@) || relocate_emitted(
                            mid.nodes@,
                            mid.prefix,
                            mid.outgoing_relocations@,
                            post.outgoing_relocations@,
                            r,
                            params,
                        ))
                    } else {
                        post == mid && r.len() == 0
                    }
            }
        },
    }
}

impl Section {
    /// Handles a node attempting to join.
    pub fn handle_live(&mut self, params: &Params, node: Node) -> (r: Vec<Response>)
        requires
            old(self).wf(),
            params.valid(),
            old(self).prefix.len < 64,
            old(self).prefix.spec_matches(node.name),
        ensures
            final(self).wf(),
            final(self).requests@ == old(self).requests@,
            final(self).prefix == old(self).prefix,
            spec_live_outcome(*old(self), node, *params, *final(self), r@),
    {
        match self.forward(node.name) {
            Some(t) => {
                let mut r: Vec<Response> = Vec::new();
                r.push(Response::Send(t, Request::Live(node)));
                proof {
                    assert(r@ =~= seq![Response::Send(t, Request::Live(node))]);
                }
                return r;
            },
            None => {},
        }
        let startup = self.prefix.len == 0;
        let nn = if startup {
            Node::new(node.name, params.adult_age)
        } else {
            node
        };
        if !startup && node.is_infant(params) && crate::node::infants(&self.nodes, params)
            >= params.max_infants_per_section {
            let mut r: Vec<Response> = Vec::new();
            r.push(Response::Reject(node));
            proof {
                assert(r@ =~= seq![Response::Reject(node)]);
            }
            return r;
        }
        let ghost pre = *old(self);
        upsert_node(&mut self.nodes, nn);
        let _ = self.update_elders(params, false);
        let ghost mid = *self;
        proof {
            assert(nn == spec_joiner(pre, node, *params));
            assert(live_added(pre, spec_joiner(pre, node, *params), *params, mid));
        }
        let responses = self.try_split(params);
        if responses.len() != 0 {
            proof {
                assert(split_cond(mid.nodes@, mid.prefix, *params));
                assert(split_parent_after(mid, *self));
                assert(exists|s0: Section, s1: Section|
                    responses@[0] == Response::Split(s0, s1, pre.prefix)
                        && #[trigger] split_children_ok(mid, s0, s1, *params));
                assert(spec_live_outcome(pre, node, *params, *self, responses@));
            }
            return responses;
        }
        if nn.age >= params.adult_age && !startup {
            let rr = self.try_relocate(
                params,
                Block { event: Event::Live, name: nn.name, age: nn.age },
            );
            proof {
                assert(spec_live_outcome(pre, node, *params, *self, rr@));
            }
            rr
        } else {
            proof {
                assert(*self == mid);
                assert(spec_live_outcome(pre, node, *params, *self, Seq::<Response>::empty()));
            }
            Vec::new()
        }
    }
}

impl Section {
    /// Handles a node having left: removes it, recomputes the elders (a sole
    /// promotion may request a relocation), considers merging, and for an
    /// adult departure seeds one relocation attempt from the most recent
    /// `Live` block.
    pub fn handle_dead(&mut self, params: &Params, name: Name) -> (r: Vec<Response>)
        requires
            old(self).wf(),
            params.valid(),
        ensures
            final(self).wf(),
            final(self).prefix == old(self).prefix,
            final(self).state == old(self).state,
            final(self).requests@ == old(self).requests@,
            final(self).incoming_relocations@ == old(self).incoming_relocations@,
            old(self).chain.blocks@.is_prefix_of(final(self).chain.blocks@),
            !has_name(old(self).nodes@, name) ==> *final(self) == *old(self) && r@.len() == 0,
            has_name(old(self).nodes@, name) ==> {
                &&& exists|i: int|
                    0 <= i < old(self).nodes@.len() && (#[trigger] old(self).nodes@[i]).name
                        == name && eq_names_ages(final(self).nodes@, old(self).nodes@.remove(i))
                &&& elders_ok(final(self).nodes@, params.group_size as int)
                &&& (final(self).outgoing_relocations@ == old(self).outgoing_relocations@
                    || exists|nm: Name|
                    final(self).outgoing_relocations@ == old(self).outgoing_relocations@.push(nm))
                &&& (old(self).prefix.len != 0 && count_adults(final(self).nodes@, *params)
                    < params.group_size ==> r@.contains(
                    Response::Send(
                        old(self).prefix,
                        Request::Merge(old(self).prefix.spec_shorten()),
                    ),
                ) && r@.contains(
                    Response::Send(
                        old(self).prefix.spec_sibling(),
                        Request::Merge(old(self).prefix.spec_shorten()),
                    ),
                ))
                &&& exists|i: int, r1: Seq<Response>, r3: Seq<Response>, o1: Seq<Name>|
                    #[trigger] dead_composition(
                        *old(self),
                        name,
                        i,
                        r1,
                        r3,
                        o1,
                        *final(self),
                        r@,
                        *params,
                    )
            },
    {
        let dropped = remove_node(&mut self.nodes, name);
        match dropped {
            None => Vec::new(),
            Some(node) => {
                let ghost after_remove = self.nodes@;
                let ghost ridx = choose|i: int|
                    0 <= i < old(self).nodes@.len() && old(self).nodes@[i] == node && after_remove
                        == old(self).nodes@.remove(i);
                let ghost out0 = self.outgoing_relocations@;
                let mut responses = self.update_elders(params, true);
                proof {
                    lemma_count_adults_congruent(self.nodes@, after_remove, *params);
                }
                let ghost o1 = self.outgoing_relocations@;
                let ghost r1 = responses@;
                let mut m = self.try_merge(params);
                let ghost m0 = m@;
                responses.append(&mut m);
                proof {
                    if self.prefix.len != 0 && count_adults(self.nodes@, *params)
                        < params.group_size {
                        assert(responses@[r1.len() as int] == m0[0]);
                        assert(responses@[r1.len() as int + 1] == m0[1]);
                        assert(responses@.contains(
                            Response::Send(
                                old(self).prefix,
                                Request::Merge(old(self).prefix.spec_shorten()),
                            ),
                        ));
                        assert(responses@.contains(
                            Response::Send(
                                old(self).prefix.spec_sibling(),
                                Request::Merge(old(self).prefix.spec_shorten()),
                            ),
                        ));
                    }
                }
                proof {
                    assert(m0 =~= spec_merge_sends(*self, *params));
                }
                let ghost r2 = responses@;
                let mut r3: Vec<Response> = Vec::new();
                if node.age >= params.adult_age {
                    match self.chain.last_live() {
                        Some(last_live) => {
                            let mut rr = self.try_relocate(params, last_live);
                            r3.append(&mut rr);
                        },
                        None => {},
                    }
                }
                let ghost r3v = r3@;
                responses.append(&mut r3);
                proof {
                    assert forall|resp: Response| r2.contains(resp) implies responses@.contains(
                        resp,
                    ) by {
                        let i = choose|i: int| 0 <= i < r2.len() && r2[i] == resp;
                        assert(responses@[i] == resp);
                    }
                    assert(after_remove == old(self).nodes@.remove(ridx));
                    assert(responses@ =~= r1 + spec_merge_sends(*self, *params) + r3v);
                    assert(dead_composition(
                        *old(self),
                        name,
                        ridx,
                        r1,
                        r3v,
                        o1,
                        *self,
                        responses@,
                        *params,
                    ));
                }
                responses
            },
        }
    }

    /// Handles an instruction to merge into `parent`. When already merging
    /// into an ancestor of `parent` (the same prefix included) this is a
    /// no-op; when merging elsewhere the instruction cascades; when splitting
    /// it is forwarded to both children. Otherwise the section materializes
    /// its content as a fresh section at `parent` and marks itself
    /// `Merging(parent)`.
    pub fn handle_merge(&mut self, params: &Params, parent: Prefix) -> (r: Vec<Response>)
        requires
            old(self).wf(),
            params.valid(),
            parent.wf(),
        ensures
            final(self).wf(),
            final(self).prefix == old(self).prefix,
            final(self).requests@ == old(self).requests@,
            match old(self).state {
                State::Merging(p) => if p.spec_is_ancestor(parent) {
                    *final(self) == *old(self) && r@.len() == 0
                } else {
                    *final(self) == *old(self) && r@ == seq![
                        Response::Send(p, Request::Merge(parent)),
                    ]
                },
                State::Splitting => *final(self) == *old(self) && r@ == seq![
                    Response::Send(old(self).prefix.spec_split().0, Request::Merge(parent)),
                    Response::Send(old(self).prefix.spec_split().1, Request::Merge(parent)),
                ],
                State::Stable => {
                    &&& r@.len() == 1
                    &&& exists|sec: Section|
                        r@[0] == Response::Merge(sec, old(self).prefix)
                            && #[trigger] merged_section_ok(*old(self), parent, sec)
                    &&& final(self).state == State::Merging(parent)
                    &&& final(self).nodes@.len() == 0
                    &&& final(self).incoming_relocations@.len() == 0
                    &&& final(self).outgoing_relocations@.len() == 0
                    &&& final(self).chain == old(self).chain
                },
            },
    {
        match self.state {
            State::Merging(p) => {
                if p.is_ancestor(&parent) {
                    Vec::new()
                } else {
                    let mut r: Vec<Response> = Vec::new();
                    r.push(Response::Send(p, Request::Merge(parent)));
                    proof {
                        assert(r@ =~= seq![Response::Send(p, Request::Merge(parent))]);
                    }
                    r
                }
            },
            State::Splitting => {
                let (c0, c1) = self.prefix.split();
                let mut r: Vec<Response> = Vec::new();
                r.push(Response::Send(c0, Request::Merge(parent)));
                r.push(Response::Send(c1, Request::Merge(parent)));
                proof {
                    assert(r@ =~= seq![
                        Response::Send(old(self).prefix.spec_split().0, Request::Merge(parent)),
                        Response::Send(old(self).prefix.spec_split().1, Request::Merge(parent)),
                    ]);
                }
                r
            },
            State::Stable => {
                let mut sec = Section::new(parent);
                sec.chain = self.chain.duplicate();
                core::mem::swap(&mut sec.nodes, &mut self.nodes);
                core::mem::swap(&mut sec.outgoing_relocations, &mut self.outgoing_relocations);
                core::mem::swap(&mut sec.incoming_relocations, &mut self.incoming_relocations);
                self.state = State::Merging(parent);
                let ghost gsec = sec;
                proof {
                    if parent.spec_is_ancestor(old(self).prefix) {
                        assert forall|i: int| 0 <= i < gsec.nodes@.len() implies
                            parent.spec_matches(#[trigger] gsec.nodes@[i].name) by {
                            crate::prefix::lemma_ancestor_matches(
                                parent,
                                old(self).prefix,
                                gsec.nodes@[i].name,
                            );
                        }
                    }
                    assert(merged_section_ok(*old(self), parent, gsec));
                }
                let mut r: Vec<Response> = Vec::new();
                r.push(Response::Merge(sec, self.prefix));
                proof {
                    assert(r@[0] == Response::Merge(gsec, old(self).prefix));
                }
                r
            },
        }
    }

    /// Handles a reservation request from `src`: declines when a reservation
    /// is already held or the section is full, reserves and confirms
    /// otherwise.
    pub fn handle_relocate_request(
        &mut self,
        params: &Params,
        src: Prefix,
        dst: Name,
        node_name: Name,
    ) -> (r: Vec<Response>)
        requires
            old(self).wf(),
            params.valid(),
        ensures
            final(self).wf(),
            if old(self).incoming_relocations@.len() != 0 || old(self).nodes@.len()
                >= params.max_section_size {
                *final(self) == *old(self) && r@ == seq![
                    Response::Send(src, Request::RelocateReject { dst, node_name }),
                ]
            } else {
                &&& *final(self) == (Section {
                    incoming_relocations: final(self).incoming_relocations,
                    ..*old(self)
                })
                &&& final(self).incoming_relocations@ == old(self).incoming_relocations@.push(
                    (node_name, dst),
                )
                &&& r@ == seq![Response::Send(src, Request::RelocateAccept { dst, node_name })]
            },
    {
        if self.incoming_relocations.len() != 0 || self.nodes.len() >= params.max_section_size {
            let mut r: Vec<Response> = Vec::new();
            r.push(Response::Send(src, Request::RelocateReject { dst, node_name }));
            proof {
                assert(r@ =~= seq![
                    Response::Send(src, Request::RelocateReject { dst, node_name }),
                ]);
            }
            r
        } else {
            self.incoming_relocations.push((node_name, dst));
            let mut r: Vec<Response> = Vec::new();
            r.push(Response::Send(src, Request::RelocateAccept { dst, node_name }));
            proof {
                assert(r@ =~= seq![
                    Response::Send(src, Request::RelocateAccept { dst, node_name }),
                ]);
            }
            r
        }
    }

    /// Handles a reservation acceptance: hands the awaited node over, its age
    /// incremented by one (saturating), demoted and recorded in the chain if
    /// it was an elder.
    pub fn handle_relocate_accept(&mut self, dst: Name, node_name: Name) -> (r: Vec<Response>)
        requires
            old(self).wf(),
        ensures
            final(self).wf(),
            final(self).prefix == old(self).prefix,
            final(self).state == old(self).state,
            final(self).requests@ == old(self).requests@,
            final(self).incoming_relocations@ == old(self).incoming_relocations@,
            old(self).chain.blocks@.is_prefix_of(final(self).chain.blocks@),
            match old(self).spec_forward(node_name) {
                Option::Some(t) => *final(self) == *old(self) && r@ == seq![
                    Response::Send(t, Request::RelocateAccept { dst, node_name }),
                ],
                Option::None => {
                    if !old(self).outgoing_relocations@.contains(node_name) {
                        *final(self) == *old(self) && r@.len() == 0
                    } else {
                        &&& forall|x: Name|
                            final(self).outgoing_relocations@.contains(x) == (old(self).outgoing_relocations@.contains(x) && x != node_name)
                        &&& if has_name(old(self).nodes@, node_name) {
                            exists|i: int|
                                {
                                    &&& 0 <= i < old(self).nodes@.len()
                                    &&& (#[trigger] old(self).nodes@[i]).name == node_name
                                    &&& final(self).nodes@ == old(self).nodes@.remove(i)
                                    &&& final(self).chain.blocks@ == if old(self).nodes@[i].elder {
                                        old(self).chain.blocks@.push(
                                            Block {
                                                event: Event::Dead,
                                                name: node_name,
                                                age: if old(self).nodes@[i].age < u64::MAX {
                                                    (old(self).nodes@[i].age + 1) as u64
                                                } else {
                                                    u64::MAX
                                                },
                                            },
                                        )
                                    } else {
                                        old(self).chain.blocks@
                                    }
                                    &&& r@ == seq![
                                        Response::Relocate {
                                            dst,
                                            node: Node {
                                                name: node_name,
                                                age: if old(self).nodes@[i].age < u64::MAX {
                                                    (old(self).nodes@[i].age + 1) as u64
                                                } else {
                                                    u64::MAX
                                                },
                                                elder: false,
                                            },
                                        },
                                    ]
                                }
                        } else {
                            final(self).nodes@ == old(self).nodes@ && final(self).chain.blocks@
                                == old(self).chain.blocks@ && r@.len() == 0
                        }
                    }
                },
            },
    {
        match self.forward(node_name) {
            Some(t) => {
                let mut r: Vec<Response> = Vec::new();
                r.push(Response::Send(t, Request::RelocateAccept { dst, node_name }));
                proof {
                    assert(r@ =~= seq![
                        Response::Send(t, Request::RelocateAccept { dst, node_name }),
                    ]);
                }
                return r;
            },
            None => {},
        }
        if !names_contain(&self.outgoing_relocations, node_name) {
            return Vec::new();
        }
        names_remove(&mut self.outgoing_relocations, node_name);
        match remove_node(&mut self.nodes, node_name) {
            Some(node) => {
                let new_age = if node.age < u64::MAX {
                    node.age + 1
                } else {
                    u64::MAX
                };
                let ghost chain_before = self.chain.blocks@;
                if node.elder {
                    self.chain.insert(Event::Dead, node_name, new_age);
                    proof {
                        lemma_prefix_push(
                            old(self).chain.blocks@,
                            chain_before,
                            Block { event: Event::Dead, name: node_name, age: new_age },
                        );
                    }
                }
                let out = Node { name: node_name, age: new_age, elder: false };
                let mut r: Vec<Response> = Vec::new();
                r.push(Response::Relocate { dst, node: out });
                proof {
                    assert(r@ =~= seq![Response::Relocate { dst, node: out }]);
                }
                r
            },
            None => Vec::new(),
        }
    }

    /// Handles a reservation rejection: when the node still awaits
    /// relocation, rehashes the destination once and asks again.
    pub fn handle_relocate_reject(&self, dst: Name, node_name: Name) -> (r: Vec<Response>)
        requires
            self.wf(),
        ensures
            if self.outgoing_relocations@.contains(node_name) {
                r@ == seq![
                    Response::RelocateRequest {
                        src: self.prefix,
                        dst: low_u64_of(
                            keccak256_of(keccak256_of(crate::hash::u64_le_bytes(dst))),
                        ),
                        node_name,
                    },
                ]
            } else {
                r@.len() == 0
            },
    {
        if names_contain(&self.outgoing_relocations, node_name) {
            let new_dst = Digest::from_u64(dst).rehash().to_u64();
            let mut r: Vec<Response> = Vec::new();
            r.push(Response::RelocateRequest { src: self.prefix, dst: new_dst, node_name });
            proof {
                assert(r@ =~= seq![
                    Response::RelocateRequest { src: self.prefix, dst: new_dst, node_name },
                ]);
            }
            r
        } else {
            Vec::new()
        }
    }

    /// Handles the hand-off of a relocated node: consumes the reservation
    /// (dropping the node silently when none is held), renames the node into
    /// whichever half of the section holds fewer adults, and replays it
    /// through `handle_live`.
    pub fn handle_relocate(
        &mut self,
        params: &Params,
        rng: &mut crate::rng::Rng,
        dst: Name,
        node: Node,
    ) -> (r: Vec<Response>)
        requires
            old(self).wf(),
            params.valid(),
            old(self).prefix.len < 64,
        ensures
            final(self).wf(),
            final(self).prefix == old(self).prefix,
            final(self).requests@ == old(self).requests@,
            match old(self).spec_forward(node.name) {
                Option::Some(t) => *final(self) == *old(self) && *final(rng) == *old(rng) && r@
                    == seq![Response::Send(t, Request::Relocate { dst, node })],
                Option::None => {
                    if !cache_has_key(old(self).incoming_relocations@, node.name) {
                        *final(self) == *old(self) && *final(rng) == *old(rng) && r@.len() == 0
                    } else {
                        &&& *final(rng) == old(rng).spec_step().spec_step()
                        &&& exists|mid: Section|
                            {
                                &&& #[trigger] live_consumed(*old(self), node.name, mid)
                                &&& spec_live_outcome(
                                    mid,
                                    Node {
                                        name: spec_relocated_name(
                                            *old(self),
                                            old(rng).spec_peek_u64(),
                                            *params,
                                        ),
                                        age: node.age,
                                        elder: false,
                                    },
                                    *params,
                                    *final(self),
                                    r@,
                                )
                            }
                    }
                },
            },
    {
        match self.forward(node.name) {
            Some(t) => {
                let mut r: Vec<Response> = Vec::new();
                r.push(Response::Send(t, Request::Relocate { dst, node }));
                proof {
                    assert(r@ =~= seq![Response::Send(t, Request::Relocate { dst, node })]);
                }
                return r;
            },
            None => {},
        }
        if !cache_contains_key(&self.incoming_relocations, node.name) {
            return Vec::new();
        }
        let _ = cache_remove_key(&mut self.incoming_relocations, node.name);
        let ghost mid = *self;
        let rnd = rng.next_u64();
        let (c0, c1) = self.prefix.split();
        let count0 = crate::node::matching_adults(&self.nodes, &c0, params);
        let count1 = crate::node::matching_adults(&self.nodes, &c1, params);
        let new_name = if count0 < count1 {
            c0.substituted_in(rnd)
        } else {
            c1.substituted_in(rnd)
        };
        proof {
            assert(live_consumed(*old(self), node.name, mid));
            crate::prefix::lemma_split_partitions_names(self.prefix, new_name);
        }
        proof {
            assert(new_name == spec_relocated_name(*old(self), old(rng).spec_peek_u64(), *params));
        }
        let rr = self.handle_live(params, Node::new(new_name, node.age));
        proof {
            assert(spec_live_outcome(
                mid,
                Node {
                    name: spec_relocated_name(*old(self), old(rng).spec_peek_u64(), *params),
                    age: node.age,
                    elder: false,
                },
                *params,
                *self,
                rr@,
            ));
        }
        rr
    }
}

/// What a merging section hands to the router: a fresh stable section at the
/// parent prefix holding this section's nodes, relocation caches and a copy
/// of its chain. It is well-formed whenever the parent really is an ancestor.
pub open spec fn merged_section_ok(pre: Section, parent: Prefix, sec: Section) -> bool {
    &&& sec.prefix == parent
    &&& sec.state == State::Stable
    &&& sec.nodes@ == pre.nodes@
    &&& sec.chain.blocks@ == pre.chain.blocks@
    &&& sec.requests@.len() == 0
    &&& sec.incoming_relocations@ == pre.incoming_relocations@
    &&& sec.outgoing_relocations@ == pre.outgoing_relocations@
    &&& (parent.spec_is_ancestor(pre.prefix) ==> sec.wf())
}

/// The name a relocated node re-joins under: the 64-bit draw substituted
/// into whichever child of the section's prefix holds strictly fewer
/// matching adults (the one-child on a tie).
pub open spec fn spec_relocated_name(pre: Section, draw: u64, params: Params) -> Name {
    if count_matching_adults(pre.nodes@, pre.prefix.spec_split().0, params)
        < count_matching_adults(pre.nodes@, pre.prefix.spec_split().1, params) {
        pre.prefix.spec_split().0.spec_substituted_in(draw)
    } else {
        pre.prefix.spec_split().1.spec_substituted_in(draw)
    }
}

/// The incoming-relocation reservation for a node was consumed, and nothing
/// else changed.
pub open spec fn live_consumed(pre: Section, name: Name, mid: Section) -> bool {
    &&& mid == (Section { incoming_relocations: mid.incoming_relocations, ..pre })
    &&& !cache_has_key(mid.incoming_relocations@, name)
    &&& forall|pr: (Name, Name)|
        mid.incoming_relocations@.contains(pr) == (pre.incoming_relocations@.contains(pr) && pr.0
            != name)
}

impl Section {
    /// Drains the queued requests in FIFO order, dispatching each to its
    /// handler, and concatenates every emitted response: the whole pass is
    /// the fold `queue_outcome` of `one_request_outcome` over the queue.
    #[verifier::rlimit(100)]
    #[verifier::spinoff_prover]
    pub fn handle_requests(&mut self, params: &Params, rng: &mut crate::rng::Rng) -> (r: Vec<
        Response,
    >)
        requires
            old(self).wf(),
            params.valid(),
            old(self).prefix.len < 64,
        ensures
            final(self).wf(),
            final(self).prefix == old(self).prefix,
            final(self).requests@.len() == 0,
            old(self).chain.blocks@.is_prefix_of(final(self).chain.blocks@),
            old(self).requests@.len() == 0 ==> *final(self) == *old(self) && r@.len() == 0,
            queue_outcome(
                *old(self),
                *params,
                *old(rng),
                *final(self),
                *final(rng),
                r@,
                old(self).requests@.len(),
            ),
        decreases old(self).requests@.len(),
    {
        if self.requests.len() == 0 {
            proof {
                assert(self.chain.blocks@.subrange(0, self.chain.blocks@.len() as int)
                    =~= self.chain.blocks@);
            }
            return Vec::new();
        }
        let ghost q0 = self.requests@;
        let request = self.requests.remove(0);
        proof {
            assert(request == q0[0]);
            assert(self.requests@ =~= q0.subrange(1, q0.len() as int));
            assert(req_ok(self.prefix, request));
            assert forall|i: int|
                0 <= i < self.requests@.len() implies req_ok(
                self.prefix,
                #[trigger] self.requests@[i],
            ) by {
                assert(self.requests@[i] == q0[i + 1]);
            }
        }
        let ghost deq = *self;
        let ghost rng0 = *rng;
        let mut out = self.dispatch_one(request, params, rng);
        let ghost mid = *self;
        let ghost rng_mid = *rng;
        let ghost r1 = out@;
        let mut rest = self.handle_requests(params, rng);
        let ghost r2 = rest@;
        out.append(&mut rest);
        proof {
            assert(out@ == r1 + r2);
            assert(deq == (Section { requests: deq.requests, ..*old(self) }));
            assert(deq.requests@ == old(self).requests@.subrange(
                1,
                old(self).requests@.len() as int,
            ));
            assert(mid.requests@.len() == old(self).requests@.len() - 1);
            assert(one_request_outcome(
                deq,
                old(self).requests@[0],
                *params,
                rng0,
                mid,
                rng_mid,
                r1,
            ));
            assert(queue_outcome(
                mid,
                *params,
                rng_mid,
                *self,
                *rng,
                r2,
                (old(self).requests@.len() - 1) as nat,
            ));
            assert(queue_step(
                *old(self),
                deq,
                mid,
                rng0,
                rng_mid,
                r1,
                r2,
                *self,
                *rng,
                out@,
                *params,
                old(self).requests@.len() as nat,
            ));
            lemma_queue_outcome_step(
                *old(self),
                deq,
                mid,
                rng0,
                rng_mid,
                r1,
                r2,
                *self,
                *rng,
                out@,
                *params,
            );
            lemma_queue_outcome_chain_monotone(
                *old(self),
                *params,
                rng0,
                *self,
                *rng,
                out@,
                old(self).requests@.len(),
            );
        }
        out
    }

    /// Dispatches one dequeued request to its handler.
    #[verifier::rlimit(100)]
    #[verifier::spinoff_prover]
    fn dispatch_one(
        &mut self,
        request: Request,
        params: &Params,
        rng: &mut crate::rng::Rng,
    ) -> (r: Vec<Response>)
        requires
            old(self).wf(),
            params.valid(),
            old(self).prefix.len < 64,
            req_ok(old(self).prefix, request),
        ensures
            final(self).wf(),
            final(self).prefix == old(self).prefix,
            final(self).requests@ == old(self).requests@,
            one_request_outcome(
                *old(self),
                request,
                *params,
                *old(rng),
                *final(self),
                *final(rng),
                r@,
            ),
    {
        match request {
            Request::Live(node) => {
                let o = self.handle_live(params, node);
                proof {
                    reveal(one_request_outcome);
                    assert(one_request_outcome(
                        *old(self),
                        request,
                        *params,
                        *old(rng),
                        *self,
                        *rng,
                        o@,
                    ));
                }
                o
            },
            Request::Dead(name) => {
                let o = self.handle_dead(params, name);
                proof {
                    reveal(one_request_outcome);
                    assert(one_request_outcome(
                        *old(self),
                        request,
                        *params,
                        *old(rng),
                        *self,
                        *rng,
                        o@,
                    ));
                }
                o
            },
            Request::Merge(prefix) => {
                let o = self.handle_merge(params, prefix);
                proof {
                    reveal(one_request_outcome);
                    assert(one_request_outcome(
                        *old(self),
                        request,
                        *params,
                        *old(rng),
                        *self,
                        *rng,
                        o@,
                    ));
                }
                o
            },
            Request::RelocateRequest { src, dst, node_name } => {
                let o = self.handle_relocate_request(params, src, dst, node_name);
                proof {
                    reveal(one_request_outcome);
                    assert(one_request_outcome(
                        *old(self),
                        request,
                        *params,
                        *old(rng),
                        *self,
                        *rng,
                        o@,
                    ));
                }
                o
            },
            Request::RelocateAccept { dst, node_name } => {
                let o = self.handle_relocate_accept(dst, node_name);
                proof {
                    reveal(one_request_outcome);
                    assert(one_request_outcome(
                        *old(self),
                        request,
                        *params,
                        *old(rng),
                        *self,
                        *rng,
                        o@,
                    ));
                }
                o
            },
            Request::RelocateReject { dst, node_name } => {
                let o = self.handle_relocate_reject(dst, node_name);
                proof {
                    reveal(one_request_outcome);
                    assert(one_request_outcome(
                        *old(self),
                        request,
                        *params,
                        *old(rng),
                        *self,
                        *rng,
                        o@,
                    ));
                }
                o
            },
            Request::Relocate { dst, node } => {
                let o = self.handle_relocate(params, rng, dst, node);
                proof {
                    reveal(one_request_outcome);
                    assert(one_request_outcome(
                        *old(self),
                        request,
                        *params,
                        *old(rng),
                        *self,
                        *rng,
                        o@,
                    ));
                }
                o
            },
        }
    }

    /// Absorbs another section with the same prefix: chains, nodes, queued
    /// requests and both relocation caches are unioned (a node of an already
    /// present name replaces it), then the elders are recomputed without
    /// triggering relocation.
    pub fn merge(&mut self, params: &Params, other: Section)
        requires
            old(self).wf(),
            other.wf(),
            params.valid(),
            old(self).prefix == other.prefix,
        ensures
            final(self).wf(),
            merge_rel(*old(self), other, *final(self), *params),
    {
        let mut o = other;
        self.chain.extend(o.chain);
        let mut i: usize = 0;
        while i < o.nodes.len()
            invariant
                self.wf(),
                other.wf(),
                params.valid(),
                o.nodes@ == other.nodes@,
                self.prefix == old(self).prefix,
                self.prefix == other.prefix,
                self.state == old(self).state,
                self.requests@ == old(self).requests@,
                self.incoming_relocations@ == old(self).incoming_relocations@,
                self.outgoing_relocations@ == old(self).outgoing_relocations@,
                i <= o.nodes@.len(),
                self.chain.blocks@ == old(self).chain.blocks@ + other.chain.blocks@,
                forall|nm: Name|
                    #[trigger] has_name(self.nodes@, nm) == (has_name(old(self).nodes@, nm)
                        || has_name(other.nodes@.subrange(0, i as int), nm)),
                forall|nm: Name, age: u64|
                    #[trigger] has_name_age(self.nodes@, nm, age) == (has_name_age(
                        other.nodes@.subrange(0, i as int),
                        nm,
                        age,
                    ) || (has_name_age(old(self).nodes@, nm, age) && !has_name(
                        other.nodes@.subrange(0, i as int),
                        nm,
                    ))),
                (forall|nm: Name|
                    has_name(old(self).nodes@, nm) ==> !has_name(other.nodes@, nm))
                    ==> self.nodes@.len() == old(self).nodes@.len() + i,
            decreases o.nodes@.len() - i,
        {
            let n = o.nodes[i];
            let ghost before = self.nodes@;
            proof {
                assert(other.prefix.spec_matches(n.name));
            }
            upsert_node(&mut self.nodes, n);
            proof {
                assert forall|j: int|
                    0 <= j < self.nodes@.len() implies self.prefix.spec_matches(
                    (#[trigger] self.nodes@[j]).name,
                ) by {
                    assert(before.contains(self.nodes@[j]) || self.nodes@[j] == n);
                    if self.nodes@[j] == n {
                        assert(other.prefix.spec_matches(n.name));
                        assert(self.prefix == other.prefix);
                    } else {
                        let u = choose|u: int| 0 <= u < before.len() && before[u] == self.nodes@[j];
                        assert(self.prefix.spec_matches(before[u].name));
                    }
                }
                assert forall|nm: Name| #[trigger]
                    has_name(self.nodes@, nm) == (has_name(before, nm) || nm == n.name) by {
                    if has_name(self.nodes@, nm) {
                        let j = choose|j: int|
                            0 <= j < self.nodes@.len() && self.nodes@[j].name == nm;
                        if has_name(before, n.name) {
                            let u = choose|u: int|
                                0 <= u < before.len() && before[u].name == n.name
                                    && self.nodes@ == before.update(u, n);
                            if j == u {
                            } else {
                                assert(self.nodes@[j] == before[j]);
                            }
                        } else {
                            if j < before.len() {
                                assert(self.nodes@[j] == before[j]);
                            }
                        }
                    }
                    if has_name(before, nm) {
                        let j = choose|j: int| 0 <= j < before.len() && before[j].name == nm;
                        if has_name(before, n.name) {
                            let u = choose|u: int|
                                0 <= u < before.len() && before[u].name == n.name
                                    && self.nodes@ == before.update(u, n);
                            if j == u {
                                assert(self.nodes@[j].name == n.name);
                                assert(nm == n.name);
                            } else {
                                assert(self.nodes@[j] == before[j]);
                            }
                        } else {
                            assert(self.nodes@[j] == before[j]);
                        }
                    }
                }
                assert forall|nm: Name| #[trigger]
                    has_name(other.nodes@.subrange(0, i + 1), nm) == (has_name(
                        other.nodes@.subrange(0, i as int),
                        nm,
                    ) || nm == n.name) by {
                    if has_name(other.nodes@.subrange(0, i + 1), nm) {
                        let j = choose|j: int|
                            0 <= j < i + 1 && (#[trigger] other.nodes@.subrange(0, i + 1)[j]).name
                                == nm;
                        if j < i {
                            assert(other.nodes@.subrange(0, i as int)[j].name == nm);
                        } else {
                            assert(other.nodes@[i as int].name == nm);
                        }
                    }
                    if has_name(other.nodes@.subrange(0, i as int), nm) {
                        let j = choose|j: int|
                            0 <= j < i && (#[trigger] other.nodes@.subrange(0, i as int)[j]).name
                                == nm;
                        assert(other.nodes@.subrange(0, i + 1)[j].name == nm);
                    }
                    if nm == n.name {
                        assert(other.nodes@.subrange(0, i + 1)[i as int].name == nm);
                    }
                }
                assert(!has_name(other.nodes@.subrange(0, i as int), n.name)) by {
                    if has_name(other.nodes@.subrange(0, i as int), n.name) {
                        let j = choose|j: int|
                            0 <= j < i && (#[trigger] other.nodes@.subrange(0, i as int)[j]).name
                                == n.name;
                        assert(other.nodes@[j].name == n.name);
                        assert(other.nodes@[i as int].name == n.name);
                    }
                }
                assert forall|nm: Name, age: u64| #[trigger]
                    has_name_age(self.nodes@, nm, age) == ((nm == n.name && age == n.age) || (
                    has_name_age(before, nm, age) && nm != n.name)) by {
                    if has_name_age(self.nodes@, nm, age) {
                        let j = choose|j: int|
                            0 <= j < self.nodes@.len() && self.nodes@[j].name == nm && (
                            #[trigger] self.nodes@[j]).age == age;
                        if has_name(before, n.name) {
                            let u = choose|u: int|
                                0 <= u < before.len() && before[u].name == n.name && self.nodes@
                                    == before.update(u, n);
                            if j == u {
                            } else {
                                assert(self.nodes@[j] == before[j]);
                                assert(nm != n.name) by {
                                    if nm == n.name {
                                        assert(before[j].name == before[u].name);
                                        assert(distinct_names(before));
                                    }
                                }
                            }
                        } else {
                            if j < before.len() {
                                assert(self.nodes@[j] == before[j]);
                            }
                        }
                    }
                    if nm == n.name && age == n.age {
                        assert(has_name_age(self.nodes@, nm, age)) by {
                            if has_name(before, n.name) {
                                let u = choose|u: int|
                                    0 <= u < before.len() && before[u].name == n.name
                                        && self.nodes@ == before.update(
                                        u,
                                        n,
                                    );
                                assert(self.nodes@[u].name == nm && self.nodes@[u].age == age);
                            } else {
                                assert(self.nodes@[before.len() as int].name == nm
                                    && self.nodes@[before.len() as int].age == age);
                            }
                        }
                    }
                    if has_name_age(before, nm, age) && nm != n.name {
                        let j = choose|j: int|
                            0 <= j < before.len() && before[j].name == nm && (
                            #[trigger] before[j]).age == age;
                        assert(has_name_age(self.nodes@, nm, age)) by {
                            if has_name(before, n.name) {
                                let u = choose|u: int|
                                    0 <= u < before.len() && before[u].name == n.name
                                        && self.nodes@ == before.update(
                                        u,
                                        n,
                                    );
                                assert(j != u);
                                assert(self.nodes@[j] == before[j]);
                            } else {
                                assert(self.nodes@[j] == before[j]);
                            }
                        }
                    }
                }
                assert forall|nm: Name, age: u64| #[trigger]
                    has_name_age(other.nodes@.subrange(0, i + 1), nm, age) == (has_name_age(
                        other.nodes@.subrange(0, i as int),
                        nm,
                        age,
                    ) || (nm == n.name && age == n.age)) by {
                    if has_name_age(other.nodes@.subrange(0, i + 1), nm, age) {
                        let j = choose|j: int|
                            0 <= j < i + 1 && other.nodes@.subrange(0, i + 1)[j].name == nm && (
                            #[trigger] other.nodes@.subrange(0, i + 1)[j]).age == age;
                        if j < i {
                            assert(other.nodes@.subrange(0, i as int)[j].name == nm
                                && other.nodes@.subrange(0, i as int)[j].age == age);
                        } else {
                            assert(other.nodes@[i as int].name == nm && other.nodes@[i as int].age
                                == age);
                        }
                    }
                    if has_name_age(other.nodes@.subrange(0, i as int), nm, age) {
                        let j = choose|j: int|
                            0 <= j < i && other.nodes@.subrange(0, i as int)[j].name == nm && (
                            #[trigger] other.nodes@.subrange(0, i as int)[j]).age == age;
                        assert(other.nodes@.subrange(0, i + 1)[j].name == nm
                            && other.nodes@.subrange(0, i + 1)[j].age == age);
                    }
                    if nm == n.name && age == n.age {
                        assert(other.nodes@.subrange(0, i + 1)[i as int].name == nm
                            && other.nodes@.subrange(0, i + 1)[i as int].age == age);
                    }
                }
                if forall|nm: Name| has_name(old(self).nodes@, nm) ==> !has_name(other.nodes@, nm) {
                    assert(!has_name(before, n.name)) by {
                        if has_name(before, n.name) {
                            assert(has_name(old(self).nodes@, n.name) || has_name(
                                other.nodes@.subrange(0, i as int),
                                n.name,
                            ));
                            if has_name(other.nodes@.subrange(0, i as int), n.name) {
                                let j = choose|j: int|
                                    0 <= j < i && (#[trigger] other.nodes@.subrange(
                                        0,
                                        i as int,
                                    )[j]).name == n.name;
                                assert(other.nodes@[j].name == n.name);
                                assert(distinct_names(other.nodes@));
                                assert(other.nodes@[i as int].name == n.name);
                            } else {
                                assert(has_name(other.nodes@, n.name)) by {
                                    assert(other.nodes@[i as int].name == n.name);
                                }
                            }
                        }
                    }
                }
            }
            i = i + 1;
        }
        proof {
            assert(other.nodes@.subrange(0, other.nodes@.len() as int) =~= other.nodes@);
        }
        let mut req = o.requests;
        self.requests.append(&mut req);
        let mut inc = o.incoming_relocations;
        self.incoming_relocations.append(&mut inc);
        let mut outg = o.outgoing_relocations;
        self.outgoing_relocations.append(&mut outg);
        let ghost pre_elders = self.nodes@;
        let _ = self.update_elders(params, false);
        proof {
            assert forall|nm: Name| #[trigger]
                has_name(self.nodes@, nm) == (has_name(old(self).nodes@, nm) || has_name(
                    other.nodes@,
                    nm,
                )) by {
                lemma_has_name_congruent(self.nodes@, pre_elders, nm);
            }
            assert forall|nm: Name, age: u64| #[trigger]
                has_name_age(self.nodes@, nm, age) == (has_name_age(other.nodes@, nm, age) || (
                has_name_age(old(self).nodes@, nm, age) && !has_name(other.nodes@, nm))) by {
                lemma_has_name_age_congruent(self.nodes@, pre_elders, nm, age);
            }
            assert((old(self).chain.blocks@ + other.chain.blocks@).is_prefix_of(
                self.chain.blocks@,
            ));
            assert(eq_names_ages(self.nodes@, pre_elders) && self.chain.blocks@ == old(self).chain.blocks@ + other.chain.blocks@ + elder_delta(
                pre_elders,
                pre_elders,
                params.group_size as int,
            ));
        }
    }
}

/// Two sequences that agree pointwise on names and ages hold the same
/// name-age pairs.
pub proof fn lemma_has_name_age_congruent(s: Seq<Node>, t: Seq<Node>, nm: Name, age: u64)
    requires
        eq_names_ages(s, t),
    ensures
        has_name_age(s, nm, age) == has_name_age(t, nm, age),
{
    if has_name_age(s, nm, age) {
        let j = choose|j: int| 0 <= j < s.len() && s[j].name == nm && (#[trigger] s[j]).age == age;
        assert(t[j].name == nm && t[j].age == age);
    }
    if has_name_age(t, nm, age) {
        let j = choose|j: int| 0 <= j < t.len() && t[j].name == nm && (#[trigger] t[j]).age == age;
        assert(s[j].name == nm && s[j].age == age);
    }
}

/// A node of this name and age is in the sequence (elder flag free).
pub open spec fn has_name_age(s: Seq<Node>, nm: Name, age: u64) -> bool {
    exists|i: int| 0 <= i < s.len() && s[i].name == nm && (#[trigger] s[i]).age == age
}

/// What absorbing a same-prefix section does: node sets are unioned with the
/// absorbed section's copy winning a name collision, queued requests and both
/// relocation caches are concatenated, the chains are concatenated (elder
/// blocks may follow), and the elder flags are recomputed exactly.
pub open spec fn merge_rel(pre: Section, other: Section, post: Section, params: Params) -> bool {
    &&& post.prefix == pre.prefix
    &&& post.state == pre.state
    &&& forall|nm: Name|
        #[trigger] has_name(post.nodes@, nm) == (has_name(pre.nodes@, nm) || has_name(
            other.nodes@,
            nm,
        ))
    &&& forall|nm: Name, age: u64|
        #[trigger] has_name_age(post.nodes@, nm, age) == (has_name_age(other.nodes@, nm, age) || (
        has_name_age(pre.nodes@, nm, age) && !has_name(other.nodes@, nm)))
    &&& elders_ok(post.nodes@, params.group_size as int)
    &&& (pre.chain.blocks@ + other.chain.blocks@).is_prefix_of(post.chain.blocks@)
    &&& exists|combined: Seq<Node>|
        #[trigger] eq_names_ages(post.nodes@, combined) && post.chain.blocks@
            == pre.chain.blocks@ + other.chain.blocks@ + elder_delta(
            combined,
            combined,
            params.group_size as int,
        )
    &&& post.requests@ == pre.requests@ + other.requests@
    &&& post.incoming_relocations@ == pre.incoming_relocations@ + other.incoming_relocations@
    &&& post.outgoing_relocations@ == pre.outgoing_relocations@ + other.outgoing_relocations@
    &&& (forall|nm: Name| has_name(pre.nodes@, nm) ==> !has_name(other.nodes@, nm))
        ==> post.nodes@.len() == pre.nodes@.len() + other.nodes@.len()
}

/// Two sequences that agree on names and ages hold the same names.
pub proof fn lemma_has_name_congruent(s: Seq<Node>, t: Seq<Node>, nm: Name)
    requires
        eq_names_ages(s, t),
    ensures
        has_name(s, nm) == has_name(t, nm),
{
    if has_name(s, nm) {
        let j = choose|j: int| 0 <= j < s.len() && s[j].name == nm;
        assert(t[j].name == nm);
    }
    if has_name(t, nm) {
        let j = choose|j: int| 0 <= j < t.len() && t[j].name == nm;
        assert(s[j].name == nm);
    }
}

impl Section {
    /// Decides well-formedness at run time; the router uses it to reject a
    /// malformed section instead of absorbing it.
    pub fn check_wf(&self) -> (r: bool)
        ensures
            r == self.wf(),
    {
        if !self.prefix.is_wf() {
            return false;
        }
        match self.state {
            State::Stable => {},
            State::Splitting => {
                if !(self.prefix.len < 64) {
                    return false;
                }
            },
            State::Merging(p) => {
                if !p.is_wf() {
                    return false;
                }
            },
        }
        let mut i: usize = 0;
        while i < self.nodes.len()
            invariant
                i <= self.nodes@.len(),
                self.prefix.wf(),
                forall|a: int, b: int|
                    0 <= a < b < self.nodes@.len() && a < i ==> self.nodes@[a].name
                        != self.nodes@[b].name,
                forall|a: int|
                    0 <= a < i ==> self.prefix.spec_matches((#[trigger] self.nodes@[a]).name),
            decreases self.nodes@.len() - i,
        {
            if !self.prefix.matches(self.nodes[i].name) {
                return false;
            }
            let mut j: usize = i + 1;
            while j < self.nodes.len()
                invariant
                    i < j <= self.nodes@.len() || (i + 1 == j && j >= self.nodes@.len()),
                    i < self.nodes@.len(),
                    forall|b: int| i < b < j ==> self.nodes@[i as int].name != self.nodes@[b].name,
                decreases self.nodes@.len() - j,
            {
                if self.nodes[i].name == self.nodes[j].name {
                    return false;
                }
                j = j + 1;
            }
            i = i + 1;
        }
        let mut i: usize = 0;
        while i < self.requests.len()
            invariant
                i <= self.requests@.len(),
                self.prefix.wf(),
                forall|a: int| 0 <= a < i ==> req_ok(self.prefix, #[trigger] self.requests@[a]),
            decreases self.requests@.len() - i,
        {
            let ok = match &self.requests[i] {
                Request::Live(node) => self.prefix.matches(node.name),
                Request::Merge(parent) => parent.is_wf(),
                Request::RelocateRequest { src, .. } => src.is_wf(),
                _ => true,
            };
            if !ok {
                return false;
            }
            i = i + 1;
        }
        true
    }
}

/// A node with a greater key than another has a greater key than everything
/// the other exceeds: `count_greater` is monotone along the key order.
pub proof fn lemma_count_greater_mono(s: Seq<Node>, a: Node, b: Node)
    requires
        crate::node::key_gt(a, b),
    ensures
        count_greater(s, b) >= count_greater(s, a),
    decreases s.len(),
{
    if s.len() > 0 {
        lemma_count_greater_mono(s.drop_last(), a, b);
    }
}

/// A member with a greater key has a strictly smaller rank.
pub proof fn lemma_count_greater_strict(s: Seq<Node>, a: Node, b: Node)
    requires
        crate::node::key_gt(a, b),
        s.contains(a),
    ensures
        count_greater(s, b) > count_greater(s, a),
    decreases s.len(),
{
    if s.last() == a {
        lemma_count_greater_mono(s.drop_last(), a, b);
    } else {
        assert(s.drop_last().contains(a)) by {
            let i = choose|i: int| 0 <= i < s.len() && s[i] == a;
            assert(s.drop_last()[i] == a);
        }
        lemma_count_greater_strict(s.drop_last(), a, b);
    }
}

/// Ranks are nonnegative and bounded by the length.
pub proof fn lemma_count_greater_bounds(s: Seq<Node>, n: Node)
    ensures
        0 <= count_greater(s, n) <= s.len(),
    decreases s.len(),
{
    if s.len() > 0 {
        lemma_count_greater_bounds(s.drop_last(), n);
    }
}

/// No section has more than `k` elders: when the elder flags are exact and
/// names are distinct, the set of elder positions has at most `k` members.
/// Each elder's rank (the number of strictly greater keys) is below `k`, and
/// distinct names give distinct keys, hence distinct ranks.
pub proof fn lemma_at_most_group_size_elders(s: Seq<Node>, k: int)
    requires
        distinct_names(s),
        elders_ok(s, k),
        0 <= k,
    ensures
        Set::new(|i: int| 0 <= i < s.len() && s[i].elder).finite(),
        Set::new(|i: int| 0 <= i < s.len() && s[i].elder).len() <= k,
{
    let e = Set::new(|i: int| 0 <= i < s.len() && s[i].elder);
    let f = |i: int| count_greater(s, s[i]);
    let idx_range = vstd::set_lib::set_int_range(0, s.len() as int);
    vstd::set_lib::lemma_int_range(0, s.len() as int);
    assert(e.subset_of(idx_range));
    vstd::set_lib::lemma_len_subset(e, idx_range);
    assert(vstd::relations::injective_on(f, e)) by {
        assert forall|i: int, j: int| e.contains(i) && e.contains(j) && #[trigger] f(i) == #[trigger] f(j) implies i == j by {
            if i != j {
                assert(s[i].name != s[j].name);
                assert(s.contains(s[i]) && s.contains(s[j]));
                if crate::node::key_gt(s[i], s[j]) {
                    lemma_count_greater_strict(s, s[i], s[j]);
                } else {
                    assert(crate::node::key_gt(s[j], s[i]));
                    lemma_count_greater_strict(s, s[j], s[i]);
                }
            }
        }
    }
    let img = e.map(f);
    vstd::set_lib::lemma_map_size(e, img, f);
    let rank_range = vstd::set_lib::set_int_range(0, k);
    vstd::set_lib::lemma_int_range(0, k);
    assert(img.subset_of(rank_range)) by {
        assert forall|b: int| img.contains(b) implies rank_range.contains(b) by {
            let i = choose|i: int| e.contains(i) && #[trigger] f(i) == b;
            lemma_count_greater_bounds(s, s[i]);
        }
    }
    vstd::set_lib::lemma_len_subset(img, rank_range);
}

/// `filter_matching` distributes over concatenation.
pub proof fn lemma_filter_matching_concat(s: Seq<Node>, t: Seq<Node>, p: Prefix)
    ensures
        filter_matching(s + t, p) == filter_matching(s, p) + filter_matching(t, p),
    decreases t.len(),
{
    if t.len() == 0 {
        assert(s + t =~= s);
        assert(filter_matching(s, p) + filter_matching(t, p) =~= filter_matching(s, p));
    } else {
        lemma_filter_matching_concat(s, t.drop_last(), p);
        assert((s + t).drop_last() =~= s + t.drop_last());
        assert((s + t).last() == t.last());
        if p.spec_matches(t.last().name) {
            assert(filter_matching(s, p) + filter_matching(t, p) =~= (filter_matching(s, p)
                + filter_matching(t.drop_last(), p)).push(t.last()));
        }
    }
}

/// Filtering keeps everything when every node matches, and nothing when none
/// does.
pub proof fn lemma_filter_matching_extremes(s: Seq<Node>, p: Prefix)
    ensures
        (forall|i: int| 0 <= i < s.len() ==> p.spec_matches((#[trigger] s[i]).name))
            ==> filter_matching(s, p) == s,
        (forall|i: int| 0 <= i < s.len() ==> !p.spec_matches((#[trigger] s[i]).name))
            ==> filter_matching(s, p) == Seq::<Node>::empty(),
    decreases s.len(),
{
    if s.len() > 0 {
        assert(forall|i: int| 0 <= i < s.drop_last().len() ==> #[trigger] s.drop_last()[i] == s[i]);
        lemma_filter_matching_extremes(s.drop_last(), p);
        if forall|i: int| 0 <= i < s.len() ==> p.spec_matches((#[trigger] s[i]).name) {
            assert(p.spec_matches(s[s.len() - 1].name));
            assert(filter_matching(s, p) == s.drop_last().push(s.last()));
            assert(s.drop_last().push(s.last()) =~= s);
        }
    }
}

/// A merge of two siblings followed by a split of the parent preserves the
/// union of nodes: filtering the merged node list by the two child prefixes
/// of the parent recovers exactly the two original node lists.
pub proof fn lemma_merge_then_split_preserves_nodes(s0: Seq<Node>, s1: Seq<Node>, p0: Prefix)
    requires
        p0.wf(),
        1 <= p0.len,
        forall|i: int| 0 <= i < s0.len() ==> p0.spec_matches((#[trigger] s0[i]).name),
        forall|i: int|
            0 <= i < s1.len() ==> p0.spec_sibling().spec_matches((#[trigger] s1[i]).name),
    ensures
        p0.spec_shorten().spec_split() == (p0, p0.spec_sibling()) || p0.spec_shorten().spec_split()
            == (p0.spec_sibling(), p0),
        filter_matching(s0 + s1, p0) == s0,
        filter_matching(s0 + s1, p0.spec_sibling()) == s1,
{
    let q = p0.spec_shorten();
    let sib = p0.spec_sibling();
    crate::prefix::lemma_family_wf(p0);
    crate::prefix::lemma_shorten_split(p0);
    assert forall|name: Name| !(p0.spec_matches(name) && sib.spec_matches(name)) by {
        crate::prefix::lemma_split_partitions_names(q, name);
    }
    lemma_filter_matching_concat(s0, s1, p0);
    lemma_filter_matching_concat(s0, s1, sib);
    lemma_filter_matching_extremes(s0, p0);
    lemma_filter_matching_extremes(s1, p0);
    lemma_filter_matching_extremes(s0, sib);
    lemma_filter_matching_extremes(s1, sib);
    assert(filter_matching(s0 + s1, p0) =~= s0);
    assert(filter_matching(s0 + s1, sib) =~= s1);
}

/// The FIFO fold of request dispatch over a queue of length `n`: the head is
/// dequeued, its handler runs per `one_request_outcome`, and the rest of the
/// queue follows; the responses concatenate in order.
pub open spec fn queue_outcome(
    pre: Section,
    params: Params,
    rng_pre: crate::rng::Rng,
    post: Section,
    rng_post: crate::rng::Rng,
    r: Seq<Response>,
    n: nat,
) -> bool
    decreases n,
{
    if n == 0 {
        &&& pre.requests@.len() == 0
        &&& post == pre
        &&& rng_post == rng_pre
        &&& r.len() == 0
    } else {
        &&& pre.requests@.len() == n
        &&& exists|
            deq: Section,
            mid: Section,
            rng_mid: crate::rng::Rng,
            r1: Seq<Response>,
            r2: Seq<Response>,
        |
            #![trigger queue_step(pre, deq, mid, rng_pre, rng_mid, r1, r2, post, rng_post, r, params, n)]
            {
                &&& queue_step(pre, deq, mid, rng_pre, rng_mid, r1, r2, post, rng_post, r, params, n)
                &&& queue_outcome(mid, params, rng_mid, post, rng_post, r2, (n - 1) as nat)
            }
    }
}

/// One link of the fold: the head request is dequeued (`deq`) and dispatched,
/// reaching `mid` with responses `r1`; `r2` is what the rest of the queue
/// will add.
pub open spec fn queue_step(
    pre: Section,
    deq: Section,
    mid: Section,
    rng_pre: crate::rng::Rng,
    rng_mid: crate::rng::Rng,
    r1: Seq<Response>,
    r2: Seq<Response>,
    post: Section,
    rng_post: crate::rng::Rng,
    r: Seq<Response>,
    params: Params,
    n: nat,
) -> bool {
    &&& n >= 1
    &&& pre.requests@.len() == n
    &&& deq == (Section { requests: deq.requests, ..pre })
    &&& deq.requests@ == pre.requests@.subrange(1, pre.requests@.len() as int)
    &&& r == r1 + r2
    &&& one_request_outcome(deq, pre.requests@[0], params, rng_pre, mid, rng_mid, r1)
}

/// Constructing one link of the fold proves the fold itself.
pub proof fn lemma_queue_outcome_step(
    pre: Section,
    deq: Section,
    mid: Section,
    rng_pre: crate::rng::Rng,
    rng_mid: crate::rng::Rng,
    r1: Seq<Response>,
    r2: Seq<Response>,
    post: Section,
    rng_post: crate::rng::Rng,
    r: Seq<Response>,
    params: Params,
)
    requires
        pre.requests@.len() >= 1,
        queue_step(
            pre,
            deq,
            mid,
            rng_pre,
            rng_mid,
            r1,
            r2,
            post,
            rng_post,
            r,
            params,
            pre.requests@.len(),
        ),
        queue_outcome(
            mid,
            params,
            rng_mid,
            post,
            rng_post,
            r2,
            (pre.requests@.len() - 1) as nat,
        ),
    ensures
        queue_outcome(pre, params, rng_pre, post, rng_post, r, pre.requests@.len()),
{
    assert(pre.requests@.len() != 0);
    assert(exists|
        deq2: Section,
        mid2: Section,
        rng_mid2: crate::rng::Rng,
        r1b: Seq<Response>,
        r2b: Seq<Response>,
    |
        #![trigger queue_step(pre, deq2, mid2, rng_pre, rng_mid2, r1b, r2b, post, rng_post, r, params, pre.requests@.len())]
        {
            &&& queue_step(
                pre,
                deq2,
                mid2,
                rng_pre,
                rng_mid2,
                r1b,
                r2b,
                post,
                rng_post,
                r,
                params,
                pre.requests@.len(),
            )
            &&& queue_outcome(
                mid2,
                params,
                rng_mid2,
                post,
                rng_post,
                r2b,
                (pre.requests@.len() - 1) as nat,
            )
        });
}

/// One dispatched join keeps the prefix and only appends to the chain.
proof fn lemma_live_outcome_chain(
    pre: Section,
    node: Node,
    params: Params,
    post: Section,
    r: Seq<Response>,
)
    requires
        spec_live_outcome(pre, node, params, post, r),
    ensures
        pre.chain.blocks@.is_prefix_of(post.chain.blocks@),
        post.prefix == pre.prefix,
{
    match pre.spec_forward(node.name) {
        Option::Some(t) => {
            assert(post.chain.blocks@.subrange(0, pre.chain.blocks@.len() as int)
                =~= pre.chain.blocks@);
        },
        Option::None => {
            let startup = pre.prefix.len == 0;
            let nn = spec_joiner(pre, node, params);
            if !startup && node.spec_is_infant(params) && count_infants(pre.nodes@, params)
                >= params.max_infants_per_section {
                assert(post.chain.blocks@.subrange(0, pre.chain.blocks@.len() as int)
                    =~= pre.chain.blocks@);
            } else {
                let mid = choose|mid: Section|
                    #[trigger] live_added(pre, nn, params, mid) && if split_cond(
                        mid.nodes@,
                        mid.prefix,
                        params,
                    ) {
                        r.len() == 1 && split_parent_after(mid, post) && exists|
                            s0: Section,
                            s1: Section,
                        |
                            r[0] == Response::Split(s0, s1, pre.prefix)
                                && #[trigger] split_children_ok(mid, s0, s1, params)
                    } else if nn.spec_is_adult(params) && !startup {
                        &&& post.nodes@ == mid.nodes@
                        &&& post.chain == mid.chain
                        &&& post.prefix == mid.prefix
                        &&& post.state == mid.state
                        &&& post.requests@ == mid.requests@
                        &&& post.incoming_relocations@ == mid.incoming_relocations@
                        &&& ((r.len() == 0 && post.outgoing_relocations@
                            == mid.outgoing_relocations@) || relocate_emitted(
                            mid.nodes@,
                            mid.prefix,
                            mid.outgoing_relocations@,
                            post.outgoing_relocations@,
                            r,
                            params,
                        ))
                    } else {
                        post == mid && r.len() == 0
                    };
                assert(pre.chain.blocks@.is_prefix_of(mid.chain.blocks@));
                assert(post.chain == mid.chain);
            }
        },
    }
}

/// A whole FIFO pass keeps the prefix and only appends to the chain.
pub proof fn lemma_queue_outcome_chain_monotone(
    pre: Section,
    params: Params,
    rng_pre: crate::rng::Rng,
    post: Section,
    rng_post: crate::rng::Rng,
    r: Seq<Response>,
    n: nat,
)
    requires
        queue_outcome(pre, params, rng_pre, post, rng_post, r, n),
    ensures
        pre.chain.blocks@.is_prefix_of(post.chain.blocks@),
        post.prefix == pre.prefix,
    decreases n,
{
    if n == 0 {
        assert(post.chain.blocks@.subrange(0, pre.chain.blocks@.len() as int)
            =~= pre.chain.blocks@);
    } else {
        let (deq, mid, rng_mid, r1, r2): (
            Section,
            Section,
            crate::rng::Rng,
            Seq<Response>,
            Seq<Response>,
        ) = choose|
            deq: Section,
            mid: Section,
            rng_mid: crate::rng::Rng,
            r1: Seq<Response>,
            r2: Seq<Response>,
        |
            #![trigger queue_step(pre, deq, mid, rng_pre, rng_mid, r1, r2, post, rng_post, r, params, n)]
            {
                &&& queue_step(pre, deq, mid, rng_pre, rng_mid, r1, r2, post, rng_post, r, params, n)
                &&& queue_outcome(mid, params, rng_mid, post, rng_post, r2, (n - 1) as nat)
            };
        assert(deq.chain == pre.chain && deq.prefix == pre.prefix);
        reveal(one_request_outcome);
        let request = pre.requests@[0];
        match request {
            Request::Live(node) => {
                lemma_live_outcome_chain(deq, node, params, mid, r1);
            },
            Request::Dead(name) => {
                assert(deq.chain.blocks@.is_prefix_of(mid.chain.blocks@));
            },
            Request::Merge(parent) => {
                assert(deq.chain.blocks@.is_prefix_of(mid.chain.blocks@)) by {
                    match deq.state {
                        State::Stable => {
                            assert(mid.chain == deq.chain);
                            assert(mid.chain.blocks@.subrange(
                                0,
                                deq.chain.blocks@.len() as int,
                            ) =~= deq.chain.blocks@);
                        },
                        _ => {
                            assert(mid.chain.blocks@.subrange(
                                0,
                                deq.chain.blocks@.len() as int,
                            ) =~= deq.chain.blocks@);
                        },
                    }
                }
            },
            Request::RelocateRequest { .. } => {
                assert(mid.chain == deq.chain);
                assert(mid.chain.blocks@.subrange(0, deq.chain.blocks@.len() as int)
                    =~= deq.chain.blocks@);
            },
            Request::RelocateAccept { .. } => {
                assert(deq.chain.blocks@.is_prefix_of(mid.chain.blocks@));
            },
            Request::RelocateReject { .. } => {
                assert(mid == deq);
                assert(mid.chain.blocks@.subrange(0, deq.chain.blocks@.len() as int)
                    =~= deq.chain.blocks@);
            },
            Request::Relocate { dst, node } => {
                match deq.spec_forward(node.name) {
                    Option::Some(t) => {
                        assert(mid == deq);
                        assert(mid.chain.blocks@.subrange(0, deq.chain.blocks@.len() as int)
                            =~= deq.chain.blocks@);
                    },
                    Option::None => {
                        if !cache_has_key(deq.incoming_relocations@, node.name) {
                            assert(mid == deq);
                            assert(mid.chain.blocks@.subrange(
                                0,
                                deq.chain.blocks@.len() as int,
                            ) =~= deq.chain.blocks@);
                        } else {
                            let m2 = choose|m2: Section|
                                {
                                    &&& #[trigger] live_consumed(deq, node.name, m2)
                                    &&& spec_live_outcome(
                                        m2,
                                        Node {
                                            name: spec_relocated_name(
                                                deq,
                                                rng_pre.spec_peek_u64(),
                                                params,
                                            ),
                                            age: node.age,
                                            elder: false,
                                        },
                                        params,
                                        mid,
                                        r1,
                                    )
                                };
                            assert(m2.chain == deq.chain && m2.prefix == deq.prefix);
                            lemma_live_outcome_chain(
                                m2,
                                Node {
                                    name: spec_relocated_name(
                                        deq,
                                        rng_pre.spec_peek_u64(),
                                        params,
                                    ),
                                    age: node.age,
                                    elder: false,
                                },
                                params,
                                mid,
                                r1,
                            );
                        }
                    },
                }
            },
        }
        lemma_queue_outcome_chain_monotone(mid, params, rng_mid, post, rng_post, r2, (n - 1) as nat);
        crate::section::lemma_prefix_trans(
            pre.chain.blocks@,
            mid.chain.blocks@,
            post.chain.blocks@,
        );
    }
}

/// The exact composition of a departure's responses: the node at index `i`
/// was removed; `r1` is the elder recomputation's relocation attempt (only
/// when exactly one node was promoted, seeded with its block); then come
/// `try_merge`'s instructions; `r3` is the relocation attempt an adult
/// departure seeds from the chain's most recent `Live` block; the outgoing
/// cache steps through `o1` accordingly.
pub open spec fn dead_composition(
    pre: Section,
    name: Name,
    i: int,
    r1: Seq<Response>,
    r3: Seq<Response>,
    o1: Seq<Name>,
    post: Section,
    r: Seq<Response>,
    params: Params,
) -> bool {
    let removed = pre.nodes@.remove(i);
    let k = params.group_size as int;
    let mid_chain = pre.chain.blocks@ + elder_delta(removed, removed, k);
    &&& 0 <= i < pre.nodes@.len()
    &&& pre.nodes@[i].name == name
    &&& r == r1 + spec_merge_sends(post, params) + r3
    &&& (!(promoted_nodes(removed, removed, k).len() == 1) ==> r1.len() == 0 && o1
        == pre.outgoing_relocations@)
    &&& (promoted_nodes(removed, removed, k).len() == 1 ==> try_relocate_rel(
        post.nodes@,
        pre.prefix,
        pre.outgoing_relocations@,
        o1,
        r1,
        params,
        Block {
            event: Event::Live,
            name: promoted_nodes(removed, removed, k)[0].name,
            age: promoted_nodes(removed, removed, k)[0].age,
        },
    ))
    &&& if pre.nodes@[i].spec_is_adult(params) && spec_last_live(mid_chain) is Some {
        try_relocate_rel(
            post.nodes@,
            pre.prefix,
            o1,
            post.outgoing_relocations@,
            r3,
            params,
            spec_last_live(mid_chain).unwrap(),
        )
    } else {
        r3.len() == 0 && post.outgoing_relocations@ == o1
    }
}

/// The responses `try_merge` emits for a section: the two merge instructions
/// when the section is not the root and short of adults, nothing otherwise.
pub open spec fn spec_merge_sends(sec: Section, params: Params) -> Seq<Response> {
    if sec.prefix.len != 0 && count_adults(sec.nodes@, params) < params.group_size {
        seq![
            Response::Send(sec.prefix, Request::Merge(sec.prefix.spec_shorten())),
            Response::Send(sec.prefix.spec_sibling(), Request::Merge(sec.prefix.spec_shorten())),
        ]
    } else {
        Seq::empty()
    }
}

/// Everything the dispatch of one request may do: the request's handler runs
/// on the section (with the request already dequeued) and its responses are
/// the result. The generator advances only for a `Relocate` hand-off.
#[verifier::opaque]
pub open spec fn one_request_outcome(
    pre: Section,
    request: Request,
    params: Params,
    rng_pre: crate::rng::Rng,
    post: Section,
    rng_post: crate::rng::Rng,
    r: Seq<Response>,
) -> bool {
    match request {
        Request::Live(node) => rng_post == rng_pre && spec_live_outcome(
            pre,
            node,
            params,
            post,
            r,
        ),
        Request::Dead(name) => {
            &&& rng_post == rng_pre
            &&& post.prefix == pre.prefix
            &&& post.state == pre.state
            &&& post.incoming_relocations@ == pre.incoming_relocations@
            &&& pre.chain.blocks@.is_prefix_of(post.chain.blocks@)
            &&& !has_name(pre.nodes@, name) ==> post == pre && r.len() == 0
            &&& has_name(pre.nodes@, name) ==> {
                &&& exists|i: int|
                    0 <= i < pre.nodes@.len() && (#[trigger] pre.nodes@[i]).name == name
                        && eq_names_ages(post.nodes@, pre.nodes@.remove(i))
                &&& elders_ok(post.nodes@, params.group_size as int)
                &&& (post.outgoing_relocations@ == pre.outgoing_relocations@ || exists|nm: Name|
                    post.outgoing_relocations@ == pre.outgoing_relocations@.push(nm))
                &&& (pre.prefix.len != 0 && count_adults(post.nodes@, params) < params.group_size
                    ==> r.contains(
                    Response::Send(pre.prefix, Request::Merge(pre.prefix.spec_shorten())),
                ) && r.contains(
                    Response::Send(
                        pre.prefix.spec_sibling(),
                        Request::Merge(pre.prefix.spec_shorten()),
                    ),
                ))
            }
        },
        Request::Merge(parent) => rng_post == rng_pre && match pre.state {
            State::Merging(p) => if p.spec_is_ancestor(parent) {
                post == pre && r.len() == 0
            } else {
                post == pre && r == seq![Response::Send(p, Request::Merge(parent))]
            },
            State::Splitting => post == pre && r == seq![
                Response::Send(pre.prefix.spec_split().0, Request::Merge(parent)),
                Response::Send(pre.prefix.spec_split().1, Request::Merge(parent)),
            ],
            State::Stable => {
                &&& r.len() == 1
                &&& exists|sec: Section|
                    r[0] == Response::Merge(sec, pre.prefix) && #[trigger] merged_section_ok(
                        pre,
                        parent,
                        sec,
                    )
                &&& post.state == State::Merging(parent)
                &&& post.nodes@.len() == 0
                &&& post.incoming_relocations@.len() == 0
                &&& post.outgoing_relocations@.len() == 0
                &&& post.chain == pre.chain
                &&& post.prefix == pre.prefix
                &&& post.requests@ == pre.requests@
            },
        },
        Request::RelocateRequest { src, dst, node_name } => rng_post == rng_pre && if pre.incoming_relocations@.len() != 0 || pre.nodes@.len() >= params.max_section_size {
            post == pre && r == seq![
                Response::Send(src, Request::RelocateReject { dst, node_name }),
            ]
        } else {
            &&& post == (Section { incoming_relocations: post.incoming_relocations, ..pre })
            &&& post.incoming_relocations@ == pre.incoming_relocations@.push((node_name, dst))
            &&& r == seq![Response::Send(src, Request::RelocateAccept { dst, node_name })]
        },
        Request::RelocateAccept { dst, node_name } => rng_post == rng_pre && {
            &&& post.prefix == pre.prefix
            &&& post.state == pre.state
            &&& post.requests@ == pre.requests@
            &&& post.incoming_relocations@ == pre.incoming_relocations@
            &&& pre.chain.blocks@.is_prefix_of(post.chain.blocks@)
            &&& match pre.spec_forward(node_name) {
                Option::Some(t) => post == pre && r == seq![
                    Response::Send(t, Request::RelocateAccept { dst, node_name }),
                ],
                Option::None => {
                    if !pre.outgoing_relocations@.contains(node_name) {
                        post == pre && r.len() == 0
                    } else {
                        &&& forall|x: Name|
                            post.outgoing_relocations@.contains(x) == (
                            pre.outgoing_relocations@.contains(x) && x != node_name)
                        &&& if has_name(pre.nodes@, node_name) {
                            exists|i: int|
                                {
                                    &&& 0 <= i < pre.nodes@.len()
                                    &&& (#[trigger] pre.nodes@[i]).name == node_name
                                    &&& post.nodes@ == pre.nodes@.remove(i)
                                    &&& r == seq![
                                        Response::Relocate {
                                            dst,
                                            node: Node {
                                                name: node_name,
                                                age: if pre.nodes@[i].age < u64::MAX {
                                                    (pre.nodes@[i].age + 1) as u64
                                                } else {
                                                    u64::MAX
                                                },
                                                elder: false,
                                            },
                                        },
                                    ]
                                }
                        } else {
                            post.nodes@ == pre.nodes@ && r.len() == 0
                        }
                    }
                },
            }
        },
        Request::RelocateReject { dst, node_name } => post == pre && rng_post == rng_pre && if pre.outgoing_relocations@.contains(node_name) {
            r == seq![
                Response::RelocateRequest {
                    src: pre.prefix,
                    dst: low_u64_of(keccak256_of(keccak256_of(crate::hash::u64_le_bytes(dst)))),
                    node_name,
                },
            ]
        } else {
            r.len() == 0
        },
        Request::Relocate { dst, node } => match pre.spec_forward(node.name) {
            Option::Some(t) => post == pre && rng_post == rng_pre && r == seq![
                Response::Send(t, Request::Relocate { dst, node }),
            ],
            Option::None => {
                if !cache_has_key(pre.incoming_relocations@, node.name) {
                    post == pre && rng_post == rng_pre && r.len() == 0
                } else {
                    &&& rng_post == rng_pre.spec_step().spec_step()
                    &&& exists|mid: Section|
                        {
                            &&& #[trigger] live_consumed(pre, node.name, mid)
                            &&& spec_live_outcome(
                                mid,
                                Node {
                                    name: spec_relocated_name(
                                        pre,
                                        rng_pre.spec_peek_u64(),
                                        params,
                                    ),
                                    age: node.age,
                                    elder: false,
                                },
                                params,
                                post,
                                r,
                            )
                        }
                }
            },
        },
    }
}

} // verus!
