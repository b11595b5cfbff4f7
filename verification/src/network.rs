//! The router: owns the prefix-to-section map, drives ticks, routes the
//! responses sections produce, and materializes splits and merges.

use vstd::prelude::*;
use crate::message::{req_ok, Request, Response};
use crate::node::Node;
use crate::params::Params;
use crate::prefix::{Name, Prefix};
use crate::rng::Rng;
use crate::section::{
    has_name, merge_rel, receive_rel, Section, State,
};
use crate::stats::{sat_add, spec_sat_add, Distribution, Stats};

verus! {

/// A fatal invariant violation: the run stops and the seed is reported.
#[derive(Clone, Copy, PartialEq, Eq, Structural, Debug)]
pub enum SimError {
    /// A section entered a tick with a non-empty incoming-relocation cache.
    IncomingAtTickStart,
    /// A section reached the maximum prefix length and can no longer split.
    MaxPrefixLength,
    /// A split tried to insert a child prefix that already exists.
    SectionExists,
    /// A section exceeded `max_section_size`.
    OversizedSection,
    /// A routed request could not find any section matching its destination.
    NoMatchingSection,
    /// The response-routing worklist did not reach quiescence within its
    /// round budget.
    RoutingStalled,
    /// The router was handed a malformed section.
    MalformedSection,
}

/// Counters of one tick.
pub struct TickStats {
    pub merges: u64,
    pub splits: u64,
    pub relocations: u64,
    pub rejections: u64,
}

impl TickStats {
    /// All counters at zero.
    pub fn new() -> (r: TickStats)
        ensures
            r.merges == 0 && r.splits == 0 && r.relocations == 0 && r.rejections == 0,
    {
        TickStats { merges: 0, splits: 0, relocations: 0, rejections: 0 }
    }
}

/// Rounds the response-routing worklist may take before the tick is declared
/// stalled. The loop "until quiescence" has no termination argument (a
/// response can beget forwarded requests without bound in adversarial
/// states, and liveness is outside this library's scope), so the router runs
/// a bounded worklist; exhausting the budget is reported as a fatal
/// `RoutingStalled` failure rather than looping forever. Real cascades
/// settle within a handful of rounds.
pub const MAX_ROUTING_ROUNDS: usize = 4096;

/// The destination name a relocation-family request is routed by.
pub open spec fn reloc_target(request: Request) -> Option<Name> {
    match request {
        Request::RelocateRequest { dst, .. } => Option::Some(dst),
        Request::Relocate { dst, .. } => Option::Some(dst),
        Request::RelocateAccept { node_name, .. } => Option::Some(node_name),
        Request::RelocateReject { node_name, .. } => Option::Some(node_name),
        _ => Option::None,
    }
}

/// The request was handed to the section at index `i` and nothing else
/// changed: the section reacted per `receive_rel` when the request is
/// soundly addressed there, and the request was dropped otherwise.
pub open spec fn delivered_at(
    pre: Seq<Section>,
    post: Seq<Section>,
    i: int,
    request: Request,
    r: Seq<Response>,
) -> bool {
    &&& 0 <= i < pre.len()
    &&& post.len() == pre.len()
    &&& forall|j: int| 0 <= j < pre.len() && j != i ==> post[j] == pre[j]
    &&& if req_ok(pre[i].prefix, request) {
        receive_rel(pre[i], request, post[i], r)
    } else {
        post[i] == pre[i] && r.len() == 0
    }
}

/// The routing rule for one `Send`: deliver to the section with the exact
/// prefix; else to a section whose prefix is an ancestor of the target; else,
/// for the relocation family, to a section matching the carried destination;
/// else drop the request silently.
pub open spec fn send_outcome(
    pre: Seq<Section>,
    prefix: Prefix,
    request: Request,
    post: Seq<Section>,
    r: Seq<Response>,
) -> bool {
    if exists|i: int| 0 <= i < pre.len() && (#[trigger] pre[i]).prefix == prefix {
        exists|i: int|
            0 <= i < pre.len() && (#[trigger] pre[i]).prefix == prefix && delivered_at(
                pre,
                post,
                i,
                request,
                r,
            )
    } else if exists|i: int|
        0 <= i < pre.len() && (#[trigger] pre[i]).prefix.spec_is_ancestor(prefix) {
        exists|i: int|
            0 <= i < pre.len() && (#[trigger] pre[i]).prefix.spec_is_ancestor(prefix)
                && delivered_at(pre, post, i, request, r)
    } else {
        match reloc_target(request) {
            Option::Some(t) => {
                if exists|i: int| 0 <= i < pre.len() && (#[trigger] pre[i]).prefix.spec_matches(t) {
                    exists|i: int|
                        0 <= i < pre.len() && (#[trigger] pre[i]).prefix.spec_matches(t)
                            && delivered_at(pre, post, i, request, r)
                } else {
                    post == pre && r.len() == 0
                }
            },
            Option::None => post == pre && r.len() == 0,
        }
    }
}

/// Every section is stable: no forwarding can occur, so delivering a request
/// only queues it.
pub open spec fn all_stable(secs: Seq<Section>) -> bool {
    forall|i: int| 0 <= i < secs.len() ==> (#[trigger] secs[i]).state == State::Stable
}

/// Some section owns exactly this prefix.
pub open spec fn has_prefix(secs: Seq<Section>, p: Prefix) -> bool {
    exists|i: int| 0 <= i < secs.len() && (#[trigger] secs[i]).prefix == p
}

/// Total number of nodes over all sections.
pub open spec fn sum_nodes(secs: Seq<Section>) -> int
    decreases secs.len(),
{
    if secs.len() == 0 {
        0
    } else {
        sum_nodes(secs.drop_last()) + secs.last().nodes@.len()
    }
}

/// Number of sections holding at least `group_size` adults.
pub open spec fn count_complete(secs: Seq<Section>, params: Params) -> int
    decreases secs.len(),
{
    if secs.len() == 0 {
        0
    } else {
        count_complete(secs.drop_last(), params) + if crate::node::count_adults(
            secs.last().nodes@,
            params,
        ) >= params.group_size {
            1int
        } else {
            0int
        }
    }
}

/// The ages of every node over all sections, section by section.
pub open spec fn all_ages(secs: Seq<Section>) -> Seq<u64>
    decreases secs.len(),
{
    if secs.len() == 0 {
        Seq::empty()
    } else {
        all_ages(secs.drop_last()) + secs.last().nodes@.map_values(|n: Node| n.age)
    }
}

/// The node count of every section, in order.
pub open spec fn all_sizes(secs: Seq<Section>) -> Seq<u64>
    decreases secs.len(),
{
    if secs.len() == 0 {
        Seq::empty()
    } else {
        all_sizes(secs.drop_last()).push(secs.last().nodes@.len() as u64)
    }
}

/// The prefix length of every section, in order.
pub open spec fn all_prefix_lens(secs: Seq<Section>) -> Seq<u64>
    decreases secs.len(),
{
    if secs.len() == 0 {
        Seq::empty()
    } else {
        all_prefix_lens(secs.drop_last()).push(secs.last().prefix.len)
    }
}

/// The request a random join injects into a section: a uniform draw
/// substituted into the section's prefix, at `init_age`.
pub open spec fn spec_live_injection(sec: Section, draw: u64, params: Params) -> Request {
    Request::Live(
        Node { name: sec.prefix.spec_substituted_in(draw), age: params.init_age, elder: false },
    )
}

/// What the random injection leaves behind in one section: a stable section's
/// queue grew by one `Live` of a fresh joiner under its prefix at `init_age`,
/// plus at most one `Dead` naming a then-member (in either order); a section
/// that was splitting or merging is unchanged (its forwards are discarded).
pub open spec fn injected_ok(pre: Section, post: Section, params: Params) -> bool {
    if pre.state == State::Stable {
        exists|inj: Seq<Request>|
            {
                &&& post.requests@ == #[trigger] (pre.requests@ + inj)
                &&& post == (Section { requests: post.requests, ..pre })
                &&& 1 <= inj.len() <= 2
                &&& exists|k: int|
                    0 <= k < inj.len() && #[trigger] is_live_injection(inj[k], pre, params) && (
                    forall|k2: int| 0 <= k2 < inj.len() && k2 != k ==> is_dead_injection(inj[k2], pre))
            }
    } else {
        post == pre
    }
}

/// A `Live` of a node at `init_age` whose name lies under the prefix.
pub open spec fn is_live_injection(req: Request, pre: Section, params: Params) -> bool {
    match req {
        Request::Live(n) => n.age == params.init_age && pre.prefix.spec_matches(n.name)
            && !n.elder,
        _ => false,
    }
}

/// A `Dead` naming a current member.
pub open spec fn is_dead_injection(req: Request, pre: Section) -> bool {
    match req {
        Request::Dead(nm) => has_name(pre.nodes@, nm),
        _ => false,
    }
}

/// The simulated overlay.
pub struct Network {
    /// Tunable constants.
    pub params: Params,
    /// Cumulative counters.
    pub stats: Stats,
    /// The live sections; their prefixes are distinct.
    pub sections: Vec<Section>,
    /// The deterministic generator every random draw comes from.
    pub rng: Rng,
    /// The first fatal invariant violation, if any.
    pub failure: Option<SimError>,
}

impl Network {
    /// Well-formedness: valid parameters, well-formed sections, distinct
    /// prefixes.
    pub open spec fn wf(self) -> bool {
        &&& self.params.valid()
        &&& forall|i: int| 0 <= i < self.sections@.len() ==> (#[trigger] self.sections@[i]).wf()
        &&& forall|i: int, j: int|
            0 <= i < j < self.sections@.len() ==> self.sections@[i].prefix
                != self.sections@[j].prefix
    }

    /// A new simulated network: one empty, stable section owning the whole
    /// name space, zeroed counters, and a generator seeded from the
    /// parameters.
    pub fn new(params: Params) -> (r: Network)
        requires
            params.valid(),
        ensures
            r.wf(),
            r.sections@.len() == 1,
            r.sections@[0].prefix == (Prefix { bits: 0u64, len: 0u64 }),
            r.sections@[0].state == State::Stable,
            r.sections@[0].nodes@.len() == 0,
            r.sections@[0].chain.blocks@.len() == 0,
            r.sections@[0].requests@.len() == 0,
            r.sections@[0].incoming_relocations@.len() == 0,
            r.sections@[0].outgoing_relocations@.len() == 0,
            r.stats == (Stats {
                ticks: 0u64,
                nodes: 0u64,
                sections: 0u64,
                merges: 0u64,
                splits: 0u64,
                relocations: 0u64,
                rejections: 0u64,
            }),
            r.rng == Rng::spec_new(params.seed),
            r.failure is None,
            r.params == params,
    {
        let mut sections: Vec<Section> = Vec::new();
        sections.push(Section::new(Prefix::empty()));
        Network { params, stats: Stats::new(), sections, rng: Rng::new(params.seed), failure: None }
    }

    /// The cumulative counters.
    pub fn stats(&self) -> (r: &Stats)
        ensures
            r == &self.stats,
    {
        &self.stats
    }

    /// Index of the section with exactly this prefix.
    fn find_section_index(&self, prefix: &Prefix) -> (r: Option<usize>)
        ensures
            match r {
                Some(i) => i < self.sections@.len() && self.sections@[i as int].prefix == *prefix,
                None => forall|i: int|
                    0 <= i < self.sections@.len() ==> (#[trigger] self.sections@[i]).prefix
                        != *prefix,
            },
    {
        let mut i: usize = 0;
        while i < self.sections.len()
            invariant
                i <= self.sections@.len(),
                forall|j: int| 0 <= j < i ==> (#[trigger] self.sections@[j]).prefix != *prefix,
            decreases self.sections@.len() - i,
        {
            if self.sections[i].prefix.bits == prefix.bits && self.sections[i].prefix.len
                == prefix.len {
                return Some(i);
            }
            i = i + 1;
        }
        None
    }

    /// Index of the first section whose prefix matches the name.
    fn find_matching_section(&self, name: Name) -> (r: Option<usize>)
        requires
            self.wf(),
        ensures
            match r {
                Some(i) => i < self.sections@.len() && self.sections@[i as int].prefix.spec_matches(
                    name,
                ),
                None => forall|i: int|
                    0 <= i < self.sections@.len() ==> !(#[trigger] self.sections@[i]).prefix.spec_matches(
                        name,
                    ),
            },
    {
        let mut i: usize = 0;
        while i < self.sections.len()
            invariant
                self.wf(),
                i <= self.sections@.len(),
                forall|j: int|
                    0 <= j < i ==> !(#[trigger] self.sections@[j]).prefix.spec_matches(name),
            decreases self.sections@.len() - i,
        {
            if self.sections[i].prefix.matches(name) {
                return Some(i);
            }
            i = i + 1;
        }
        None
    }

    /// Delivers a request to the section at the given index, after checking
    /// that the request is addressed soundly; an unsound request is dropped.
    fn deliver(&mut self, i: usize, request: Request) -> (r: Vec<Response>)
        requires
            old(self).wf(),
            i < old(self).sections@.len(),
        ensures
            final(self).wf(),
            delivered_at(
                old(self).sections@,
                final(self).sections@,
                i as int,
                request,
                r@,
            ),
            final(self).sections@.len() == old(self).sections@.len(),
            forall|j: int|
                0 <= j < final(self).sections@.len() ==> (#[trigger] final(self).sections@[j]).prefix == old(self).sections@[j].prefix,
            final(self).params == old(self).params,
            final(self).rng == old(self).rng,
            final(self).stats == old(self).stats,
            final(self).failure == old(self).failure,
    {
        let ok = match &request {
            Request::Live(node) => self.sections[i].prefix.matches(node.name),
            Request::Merge(parent) => parent.is_wf(),
            Request::RelocateRequest { src, .. } => src.is_wf(),
            _ => true,
        };
        if !ok {
            return Vec::new();
        }
        let ghost pre = self.sections@;
        let s = &mut self.sections[i];
        let r = s.receive(request);
        proof {
            assert forall|j: int|
                0 <= j < self.sections@.len() implies (#[trigger] self.sections@[j]).wf() by {
                if j != i as int {
                    assert(self.sections@[j] == pre[j]);
                }
            }
            assert forall|a: int, b: int|
                0 <= a < b < self.sections@.len() implies self.sections@[a].prefix
                != self.sections@[b].prefix by {
                assert(self.sections@[a].prefix == pre[a].prefix);
                assert(self.sections@[b].prefix == pre[b].prefix);
            }
        }
        r
    }

    /// Routes one `Send` per §4.3's rule: exact prefix, else covering
    /// ancestor, else the relocation family's destination match; anything
    /// else is dropped silently.
    fn send(&mut self, prefix: Prefix, request: Request) -> (r: Vec<Response>)
        requires
            old(self).wf(),
            prefix.wf(),
        ensures
            final(self).wf(),
            send_outcome(old(self).sections@, prefix, request, final(self).sections@, r@),
            final(self).params == old(self).params,
            final(self).rng == old(self).rng,
            final(self).stats == old(self).stats,
            final(self).failure == old(self).failure,
    {
        match self.find_section_index(&prefix) {
            Some(i) => {
                let out = self.deliver(i, request);
                proof {
                    assert(old(self).sections@[i as int].prefix == prefix);
                    assert(delivered_at(
                        old(self).sections@,
                        self.sections@,
                        i as int,
                        request,
                        out@,
                    ));
                }
                return out;
            },
            None => {},
        }
        let mut i: usize = 0;
        while i < self.sections.len()
            invariant
                self == old(self),
                self.wf(),
                prefix.wf(),
                i <= self.sections@.len(),
                forall|j: int|
                    0 <= j < self.sections@.len() ==> (#[trigger] self.sections@[j]).prefix
                        != prefix,
                forall|j: int|
                    0 <= j < i ==> !(#[trigger] self.sections@[j]).prefix.spec_is_ancestor(prefix),
            decreases self.sections@.len() - i,
        {
            let pr = self.sections[i].prefix;
            if pr.is_ancestor(&prefix) {
                let out = self.deliver(i, request);
                proof {
                    assert(old(self).sections@[i as int].prefix.spec_is_ancestor(prefix));
                    assert(delivered_at(
                        old(self).sections@,
                        self.sections@,
                        i as int,
                        request,
                        out@,
                    ));
                }
                return out;
            }
            i = i + 1;
        }
        let target = match &request {
            Request::RelocateRequest { dst, .. } => Some(*dst),
            Request::Relocate { dst, .. } => Some(*dst),
            Request::RelocateAccept { node_name, .. } => Some(*node_name),
            Request::RelocateReject { node_name, .. } => Some(*node_name),
            _ => None,
        };
        proof {
            assert(match target {
                Some(t) => reloc_target(request) == Option::<Name>::Some(t),
                None => reloc_target(request) is None,
            });
        }
        match target {
            Some(name) => {
                match self.find_matching_section(name) {
                    Some(i) => {
                        let out = self.deliver(i, request);
                        proof {
                            assert(old(self).sections@[i as int].prefix.spec_matches(name));
                            assert(delivered_at(
                                old(self).sections@,
                                self.sections@,
                                i as int,
                                request,
                                out@,
                            ));
                        }
                        out
                    },
                    None => Vec::new(),
                }
            },
            None => Vec::new(),
        }
    }

    /// Removes the section with the given prefix, if present.
    fn remove_section(&mut self, prefix: &Prefix)
        requires
            old(self).wf(),
        ensures
            final(self).wf(),
            if has_prefix(old(self).sections@, *prefix) {
                exists|i: int|
                    0 <= i < old(self).sections@.len() && (#[trigger] old(self).sections@[i]).prefix
                        == *prefix && final(self).sections@ == old(self).sections@.remove(i)
            } else {
                final(self).sections@ == old(self).sections@
            },
            final(self).params == old(self).params,
            final(self).rng == old(self).rng,
            final(self).stats == old(self).stats,
            final(self).failure == old(self).failure,
    {
        match self.find_section_index(prefix) {
            Some(i) => {
                let ghost pre = self.sections@;
                let _ = self.sections.remove(i);
                proof {
                    assert forall|a: int|
                        0 <= a < self.sections@.len() implies (
                    #[trigger] self.sections@[a]).wf() by {
                        if a < i {
                            assert(self.sections@[a] == pre[a]);
                        } else {
                            assert(self.sections@[a] == pre[a + 1]);
                        }
                    }
                    assert forall|a: int, b: int|
                        0 <= a < b < self.sections@.len() implies self.sections@[a].prefix
                        != self.sections@[b].prefix by {
                        let oa = if a < i {
                            a
                        } else {
                            a + 1
                        };
                        let ob = if b < i {
                            b
                        } else {
                            b + 1
                        };
                        assert(self.sections@[a] == pre[oa]);
                        assert(self.sections@[b] == pre[ob]);
                    }
                    assert(has_prefix(pre, *prefix)) by {
                        assert(pre[i as int].prefix == *prefix);
                    }
                }
            },
            None => {},
        }
    }

    /// Processes one routed response: materializes a split or a merge,
    /// counts a rejection or a relocation, or delivers a forwarded request,
    /// appending any produced responses to `next`. Returns `false` on a
    /// fatal violation, recording it.
    fn process_one(
        &mut self,
        response: Response,
        t: &mut TickStats,
        next: &mut Vec<Response>,
    ) -> (ok: bool)
        requires
            old(self).wf(),
        ensures
            final(self).wf(),
            final(self).params == old(self).params,
            final(self).rng == old(self).rng,
            final(self).stats == old(self).stats,
            !ok ==> final(self).failure is Some,
            !ok ==> final(self).failure == Some(SimError::NoMatchingSection) || final(self).failure
                == Some(SimError::SectionExists) || final(self).failure == Some(
                SimError::MalformedSection,
            ),
            !ok ==> final(next)@ == old(next)@,
            ok ==> final(self).failure == old(self).failure,
            process_one_rel(
                *old(self),
                response,
                *old(t),
                old(next)@,
                *final(self),
                *final(t),
                final(next)@,
                ok,
            ),
    {
        let ghost pre = self.sections@;
        match response {
            Response::Merge(section, old_prefix) => {
                let ghost gsec = section;
                if !section.check_wf() {
                    self.failure = Some(SimError::MalformedSection);
                    return false;
                }
                let ghost mut gfresh2: Section = vstd::pervasive::arbitrary();
                let idx = match self.find_section_index(&section.prefix()) {
                    Some(i) => i,
                    None => {
                        t.merges = sat_add(t.merges, 1);
                        let fresh = Section::new(section.prefix());
                        proof {
                            gfresh2 = fresh;
                        }
                        let ghost pre1 = self.sections@;
                        self.sections.push(fresh);
                        proof {
                            assert forall|a: int, b: int|
                                0 <= a < b < self.sections@.len() implies self.sections@[a].prefix
                                != self.sections@[b].prefix by {
                                if b < pre1.len() {
                                    assert(self.sections@[a] == pre1[a]);
                                    assert(self.sections@[b] == pre1[b]);
                                } else {
                                    assert(self.sections@[a] == pre1[a]);
                                }
                            }
                            assert forall|a: int|
                                0 <= a < self.sections@.len() implies (
                            #[trigger] self.sections@[a]).wf() by {
                                if a < pre1.len() {
                                    assert(self.sections@[a] == pre1[a]);
                                }
                            }
                        }
                        self.sections.len() - 1
                    },
                };
                let ghost pre2 = self.sections@;
                let ghost presec = self.sections@[idx as int];
                let s = &mut self.sections[idx];
                s.merge(&self.params, section);
                proof {
                    assert forall|a: int|
                        0 <= a < self.sections@.len() implies (
                    #[trigger] self.sections@[a]).wf() by {
                        if a != idx as int {
                            assert(self.sections@[a] == pre2[a]);
                        }
                    }
                    assert forall|a: int, b: int|
                        0 <= a < b < self.sections@.len() implies self.sections@[a].prefix
                        != self.sections@[b].prefix by {
                        assert(self.sections@[a].prefix == pre2[a].prefix);
                        assert(self.sections@[b].prefix == pre2[b].prefix);
                    }
                }
                let ghost merged = self.sections@[idx as int];
                let ghost mid = self.sections@;
                self.remove_section(&old_prefix);
                proof {
                    assert(merged.prefix == section.prefix);
                    if old_prefix != section.prefix {
                        assert(!has_prefix(self.sections@, old_prefix)) by {
                            if has_prefix(self.sections@, old_prefix) {
                                let k = choose|k: int|
                                    0 <= k < self.sections@.len() && (
                                    #[trigger] self.sections@[k]).prefix == old_prefix;
                                if has_prefix(mid, old_prefix) {
                                    let ri = choose|ri: int|
                                        0 <= ri < mid.len() && (#[trigger] mid[ri]).prefix
                                            == old_prefix && self.sections@ == mid.remove(ri);
                                    let ko = if k < ri {
                                        k
                                    } else {
                                        k + 1
                                    };
                                    assert(self.sections@[k] == mid[ko]);
                                    assert(mid[ko].prefix == mid[ri].prefix);
                                } else {
                                    assert(self.sections@[k] == mid[k]);
                                    assert(mid[k].prefix == old_prefix);
                                }
                            }
                        }
                        let ghost kf: int = if has_prefix(mid, old_prefix) {
                            let ri = choose|ri: int|
                                0 <= ri < mid.len() && (#[trigger] mid[ri]).prefix == old_prefix
                                    && self.sections@ == mid.remove(ri);
                            if (idx as int) < ri {
                                idx as int
                            } else {
                                idx - 1
                            }
                        } else {
                            idx as int
                        };
                        assert(0 <= kf < self.sections@.len() && self.sections@[kf] == merged) by {
                            if has_prefix(mid, old_prefix) {
                                let ri = choose|ri: int|
                                    0 <= ri < mid.len() && (#[trigger] mid[ri]).prefix
                                        == old_prefix && self.sections@ == mid.remove(ri);
                                assert(ri != idx as int) by {
                                    assert(mid[idx as int].prefix == section.prefix);
                                }
                                if (idx as int) < ri {
                                    assert(self.sections@[idx as int] == mid[idx as int]);
                                } else {
                                    assert(self.sections@[idx - 1] == mid[idx as int]);
                                }
                            }
                        }
                        assert(merge_rel(presec, section, self.sections@[kf], old(self).params));
                        if has_prefix(old(self).sections@, section.prefix) {
                            assert(presec == old(self).sections@[idx as int]);
                            assert(exists|j: int|
                                0 <= j < old(self).sections@.len() && (#[trigger] old(self).sections@[j]).prefix == section.prefix && merge_rel(
                                    old(self).sections@[j],
                                    section,
                                    self.sections@[kf],
                                    old(self).params,
                                )) by {
                                assert(old(self).sections@[idx as int].prefix == section.prefix);
                            }
                        } else {
                            assert(presec == gfresh2);
                            assert(exists|fresh: Section|
                                {
                                    &&& fresh.prefix == section.prefix
                                    &&& fresh.state == State::Stable
                                    &&& fresh.nodes@.len() == 0
                                    &&& fresh.chain.blocks@.len() == 0
                                    &&& fresh.requests@.len() == 0
                                    &&& fresh.incoming_relocations@.len() == 0
                                    &&& fresh.outgoing_relocations@.len() == 0
                                    &&& #[trigger] merge_rel(
                                        fresh,
                                        section,
                                        self.sections@[kf],
                                        old(self).params,
                                    )
                                }) by {
                                assert(merge_rel(
                                    gfresh2,
                                    section,
                                    self.sections@[kf],
                                    old(self).params,
                                ));
                            }
                        }
                        assert(exists|k: int|
                            0 <= k < self.sections@.len() && (#[trigger] self.sections@[k]).prefix
                                == section.prefix) by {
                            assert(self.sections@[kf].prefix == section.prefix);
                        }
                    }
                    assert(response == Response::Merge(gsec, old_prefix));
                    assert(gsec.wf());
                    assert(has_prefix(old(self).sections@, section.prefix) == has_prefix(
                        pre,
                        section.prefix,
                    ));
                    assert(t.merges == if has_prefix(old(self).sections@, section.prefix) {
                        old(t).merges
                    } else {
                        spec_sat_add(old(t).merges, 1)
                    });
                    assert(next@ == old(next)@);
                    if old_prefix != section.prefix {
                        assert(exists|k: int|
                            0 <= k < self.sections@.len() && (#[trigger] self.sections@[k]).prefix
                                == section.prefix && if has_prefix(
                                old(self).sections@,
                                section.prefix,
                            ) {
                                exists|j: int|
                                    0 <= j < old(self).sections@.len() && (#[trigger] old(self).sections@[j]).prefix == section.prefix && merge_rel(
                                        old(self).sections@[j],
                                        section,
                                        self.sections@[k],
                                        old(self).params,
                                    )
                            } else {
                                exists|fresh: Section|
                                    {
                                        &&& fresh.prefix == section.prefix
                                        &&& fresh.state == State::Stable
                                        &&& fresh.nodes@.len() == 0
                                        &&& fresh.chain.blocks@.len() == 0
                                        &&& fresh.requests@.len() == 0
                                        &&& fresh.incoming_relocations@.len() == 0
                                        &&& fresh.outgoing_relocations@.len() == 0
                                        &&& #[trigger] merge_rel(
                                            fresh,
                                            section,
                                            self.sections@[k],
                                            old(self).params,
                                        )
                                    }
                            });
                    }
                }
                true
            },
            Response::Split(s0, s1, old_prefix) => {
                t.splits = sat_add(t.splits, 1);
                if !s0.check_wf() || !s1.check_wf() {
                    self.failure = Some(SimError::MalformedSection);
                    return false;
                }
                if self.find_section_index(&s0.prefix()).is_some() || self.find_section_index(
                    &s1.prefix(),
                ).is_some() {
                    self.failure = Some(SimError::SectionExists);
                    return false;
                }
                let ghost g0 = s0;
                let ghost g1 = s1;
                let p0 = s0.prefix();
                self.sections.push(s0);
                proof {
                    assert forall|a: int|
                        0 <= a < self.sections@.len() implies (
                    #[trigger] self.sections@[a]).wf() by {
                        if a < pre.len() {
                            assert(self.sections@[a] == pre[a]);
                        }
                    }
                    assert forall|a: int, b: int|
                        0 <= a < b < self.sections@.len() implies self.sections@[a].prefix
                        != self.sections@[b].prefix by {
                        if b < pre.len() {
                            assert(self.sections@[a] == pre[a]);
                            assert(self.sections@[b] == pre[b]);
                        } else {
                            assert(self.sections@[a] == pre[a]);
                        }
                    }
                }
                if self.find_section_index(&s1.prefix()).is_some() {
                    self.failure = Some(SimError::SectionExists);
                    return false;
                }
                proof {
                    assert(self.sections@[pre.len() as int] == g0);
                    assert(g0.prefix != g1.prefix);
                }
                let ghost pre1 = self.sections@;
                self.sections.push(s1);
                proof {
                    assert forall|a: int|
                        0 <= a < self.sections@.len() implies (
                    #[trigger] self.sections@[a]).wf() by {
                        if a < pre1.len() {
                            assert(self.sections@[a] == pre1[a]);
                        }
                    }
                    assert forall|a: int, b: int|
                        0 <= a < b < self.sections@.len() implies self.sections@[a].prefix
                        != self.sections@[b].prefix by {
                        if b < pre1.len() {
                            assert(self.sections@[a] == pre1[a]);
                            assert(self.sections@[b] == pre1[b]);
                        } else {
                            assert(self.sections@[a] == pre1[a]);
                        }
                    }
                }
                let ghost mid = self.sections@;
                self.remove_section(&old_prefix);
                proof {
                    lemma_split_bookkeeping(pre, mid, self.sections@, g0, g1, old_prefix);
                }
                true
            },
            Response::Reject(_) => {
                t.rejections = sat_add(t.rejections, 1);
                true
            },
            Response::RelocateRequest { src, dst, node_name } => {
                if src.is_wf() {
                    match self.find_matching_section(dst) {
                        Some(i) => {
                            let mut out = self.deliver(
                                i,
                                Request::RelocateRequest { src, dst, node_name },
                            );
                            let ghost rr = out@;
                            next.append(&mut out);
                            proof {
                                assert(next@ == old(next)@ + rr);
                                if all_stable(pre) {
                                    assert(pre[i as int].state == State::Stable);
                                    assert(rr.len() == 0);
                                    assert(next@ =~= old(next)@);
                                }
                            }
                            true
                        },
                        None => {
                            self.failure = Some(SimError::NoMatchingSection);
                            false
                        },
                    }
                } else {
                    true
                }
            },
            Response::Relocate { dst, node } => {
                t.relocations = sat_add(t.relocations, 1);
                match self.find_matching_section(dst) {
                    Some(i) => {
                        let mut out = self.deliver(i, Request::Relocate { dst, node });
                        let ghost rr = out@;
                        next.append(&mut out);
                        proof {
                            assert(next@ == old(next)@ + rr);
                            if all_stable(pre) {
                                assert(pre[i as int].state == State::Stable);
                                assert(req_ok(
                                    pre[i as int].prefix,
                                    Request::Relocate { dst, node },
                                ));
                                assert(receive_rel(
                                    pre[i as int],
                                    Request::Relocate { dst, node },
                                    self.sections@[i as int],
                                    rr,
                                ));
                                assert(rr.len() == 0);
                                assert(next@ =~= old(next)@);
                            }
                        }
                        true
                    },
                    None => {
                        self.failure = Some(SimError::NoMatchingSection);
                        false
                    },
                }
            },
            Response::Send(prefix, request) => {
                if prefix.is_wf() {
                    match request {
                        Request::Merge(target) => {
                            if target.is_wf() {
                                let mut i: usize = 0;
                                while i < self.sections.len()
                                    invariant
                                        self.wf(),
                                        self.params == old(self).params,
                                        self.rng == old(self).rng,
                                        self.stats == old(self).stats,
                                        self.failure == old(self).failure,
                                        i <= self.sections@.len(),
                                        self.sections@.len() == pre.len(),
                                        prefix.wf(),
                                        target.wf(),
                                        forall|j: int|
                                            i <= j < pre.len() ==> self.sections@[j] == pre[j],
                                        all_stable(pre) ==> next@ == old(next)@,
                                        all_stable(pre) ==> forall|j: int|
                                            0 <= j < i ==> if prefix.spec_is_ancestor(
                                                (#[trigger] pre[j]).prefix,
                                            ) {
                                                receive_rel(
                                                    pre[j],
                                                    Request::Merge(target),
                                                    self.sections@[j],
                                                    Seq::<Response>::empty(),
                                                )
                                            } else {
                                                self.sections@[j] == pre[j]
                                            },
                                        forall|j: int|
                                            0 <= j < i && !prefix.spec_is_ancestor(
                                                (#[trigger] pre[j]).prefix,
                                            ) ==> self.sections@[j] == pre[j],
                                    decreases self.sections@.len() - i,
                                {
                                    let pr = self.sections[i].prefix;
                                    let ghost before = self.sections@;
                                    if prefix.is_ancestor(&pr) {
                                        let mut out = self.deliver(i, Request::Merge(target));
                                        let ghost rr = out@;
                                        next.append(&mut out);
                                        proof {
                                            assert(before[i as int] == pre[i as int]);
                                            assert(req_ok(before[i as int].prefix, Request::Merge(target)));
                                            assert(receive_rel(
                                                before[i as int],
                                                Request::Merge(target),
                                                self.sections@[i as int],
                                                rr,
                                            ));
                                            if all_stable(pre) {
                                                assert(pre[i as int].state == State::Stable);
                                                assert(rr.len() == 0);
                                                assert(next@ =~= old(next)@);
                                                assert(receive_rel(
                                                    pre[i as int],
                                                    Request::Merge(target),
                                                    self.sections@[i as int],
                                                    Seq::<Response>::empty(),
                                                ));
                                            }
                                        }
                                    }
                                    i = i + 1;
                                }
                            }
                            true
                        },
                        Request::Relocate { dst, node } => {
                            t.relocations = sat_add(t.relocations, 1);
                            let mut out = self.send(prefix, Request::Relocate { dst, node });
                            let ghost rr = out@;
                            next.append(&mut out);
                            proof {
                                if all_stable(pre) {
                                    lemma_send_outcome_stable(
                                        pre,
                                        prefix,
                                        Request::Relocate { dst, node },
                                        self.sections@,
                                        rr,
                                    );
                                    assert(next@ =~= old(next)@);
                                    assert(rr =~= Seq::<Response>::empty());
                                    assert(send_outcome(
                                        pre,
                                        prefix,
                                        Request::Relocate { dst, node },
                                        self.sections@,
                                        Seq::<Response>::empty(),
                                    ));
                                }
                            }
                            true
                        },
                        other => {
                            let mut out = self.send(prefix, other);
                            let ghost rr = out@;
                            next.append(&mut out);
                            proof {
                                if all_stable(pre) {
                                    lemma_send_outcome_stable(pre, prefix, other, self.sections@, rr);
                                    assert(next@ =~= old(next)@);
                                    assert(rr =~= Seq::<Response>::empty());
                                    assert(send_outcome(
                                        pre,
                                        prefix,
                                        other,
                                        self.sections@,
                                        Seq::<Response>::empty(),
                                    ));
                                }
                            }
                            true
                        },
                    }
                } else {
                    true
                }
            },
        }
    }
}

/// Under all-stable sections, a routed request produces no forwards.
proof fn lemma_send_outcome_stable(
    pre: Seq<Section>,
    prefix: Prefix,
    request: Request,
    post: Seq<Section>,
    r: Seq<Response>,
)
    requires
        all_stable(pre),
        send_outcome(pre, prefix, request, post, r),
    ensures
        r.len() == 0,
{
}

/// Bookkeeping of a split: after pushing the two children and removing the
/// old prefix, the children are present, every other section survived, and
/// (unless a child reuses it) the old prefix is gone.
proof fn lemma_split_bookkeeping(
    pre: Seq<Section>,
    mid: Seq<Section>,
    post: Seq<Section>,
    s0: Section,
    s1: Section,
    old_prefix: Prefix,
)
    requires
        mid == pre.push(s0).push(s1),
        forall|a: int, b: int| 0 <= a < b < pre.len() ==> pre[a].prefix != pre[b].prefix,
        if has_prefix(mid, old_prefix) {
            exists|i: int|
                0 <= i < mid.len() && (#[trigger] mid[i]).prefix == old_prefix && post
                    == mid.remove(i)
        } else {
            post == mid
        },
    ensures
        s0.prefix != old_prefix && s1.prefix != old_prefix ==> (exists|k: int|
            0 <= k < post.len() && #[trigger] post[k] == s0) && (exists|k: int|
            0 <= k < post.len() && #[trigger] post[k] == s1) && !has_prefix(post, old_prefix) && (
        forall|j: int|
            0 <= j < pre.len() && (#[trigger] pre[j]).prefix != old_prefix ==> exists|k: int|
                0 <= k < post.len() && post[k] == pre[j]),
{
    if s0.prefix != old_prefix && s1.prefix != old_prefix {
        if has_prefix(mid, old_prefix) {
            let ri = choose|ri: int|
                0 <= ri < mid.len() && (#[trigger] mid[ri]).prefix == old_prefix && post
                    == mid.remove(ri);
            assert(ri < pre.len()) by {
                assert(mid[pre.len() as int] == s0);
                assert(mid[pre.len() as int + 1] == s1);
            }
            assert(post[mid.len() - 3] == mid[mid.len() - 2]);
            assert(post[mid.len() - 2] == mid[mid.len() - 1]);
            assert(mid[mid.len() - 2] == s0);
            assert(mid[mid.len() - 1] == s1);
            assert(!has_prefix(post, old_prefix)) by {
                if has_prefix(post, old_prefix) {
                    let k = choose|k: int|
                        0 <= k < post.len() && (#[trigger] post[k]).prefix == old_prefix;
                    let ko = if k < ri {
                        k
                    } else {
                        k + 1
                    };
                    assert(post[k] == mid[ko]);
                    if ko < pre.len() {
                        assert(pre[ko].prefix == pre[ri].prefix);
                    } else {
                        assert(mid[ko] == s0 || mid[ko] == s1);
                    }
                }
            }
            assert forall|j: int|
                0 <= j < pre.len() && (#[trigger] pre[j]).prefix != old_prefix implies exists|
                k: int,
            |
                0 <= k < post.len() && post[k] == pre[j] by {
                assert(j != ri);
                let k = if j < ri {
                    j
                } else {
                    j - 1
                };
                assert(post[k] == mid[j]);
                assert(mid[j] == pre[j]);
            }
        } else {
            assert(post[pre.len() as int] == s0);
            assert(post[pre.len() as int + 1] == s1);
            assert(!has_prefix(post, old_prefix)) by {
                if has_prefix(post, old_prefix) {
                    let k = choose|k: int|
                        0 <= k < post.len() && (#[trigger] post[k]).prefix == old_prefix;
                    assert(has_prefix(mid, old_prefix)) by {
                        assert(mid[k].prefix == old_prefix);
                    }
                }
            }
            assert forall|j: int|
                0 <= j < pre.len() && (#[trigger] pre[j]).prefix != old_prefix implies exists|
                k: int,
            |
                0 <= k < post.len() && post[k] == pre[j] by {
                assert(post[j] == pre[j]);
            }
        }
    }
}

/// Everything one routed response may do, as a relation over the network,
/// the tick counters and the forward list before and after.
pub open spec fn process_one_rel(
    pre: Network,
    response: Response,
    t_pre: TickStats,
    next_pre: Seq<Response>,
    post: Network,
    t_post: TickStats,
    next_post: Seq<Response>,
    ok: bool,
) -> bool {
    match response {
        Response::Split(s0, s1, old_prefix) => {
            &&& t_post.splits == spec_sat_add(t_pre.splits, 1)
            &&& t_post.merges == t_pre.merges && t_post.relocations == t_pre.relocations
                && t_post.rejections == t_pre.rejections
            &&& next_post == next_pre
            &&& (!s0.wf() || !s1.wf()) ==> !ok && post.failure == Some(SimError::MalformedSection)
                && post.sections@ == pre.sections@
            &&& (s0.wf() && s1.wf() && (has_prefix(pre.sections@, s0.prefix) || has_prefix(
                pre.sections@,
                s1.prefix,
            ) || s0.prefix == s1.prefix)) ==> !ok && post.failure == Some(SimError::SectionExists)
            &&& (s0.wf() && s1.wf() && !has_prefix(pre.sections@, s0.prefix) && !has_prefix(
                pre.sections@,
                s1.prefix,
            ) && s0.prefix != s1.prefix && s0.prefix != old_prefix && s1.prefix != old_prefix)
                ==> {
                &&& ok
                &&& exists|k: int|
                    0 <= k < post.sections@.len() && #[trigger] post.sections@[k] == s0
                &&& exists|k: int|
                    0 <= k < post.sections@.len() && #[trigger] post.sections@[k] == s1
                &&& !has_prefix(post.sections@, old_prefix)
                &&& forall|j: int|
                    0 <= j < pre.sections@.len() && (#[trigger] pre.sections@[j]).prefix
                        != old_prefix ==> exists|k: int|
                        0 <= k < post.sections@.len() && post.sections@[k] == pre.sections@[j]
            }
        },
        Response::Merge(sec, old_prefix) => {
            &&& t_post.splits == t_pre.splits && t_post.relocations == t_pre.relocations
                && t_post.rejections == t_pre.rejections
            &&& next_post == next_pre
            &&& !sec.wf() ==> !ok && post.failure == Some(SimError::MalformedSection)
                && post.sections@ == pre.sections@ && t_post.merges == t_pre.merges
            &&& sec.wf() ==> {
                &&& ok
                &&& t_post.merges == if has_prefix(pre.sections@, sec.prefix) {
                    t_pre.merges
                } else {
                    spec_sat_add(t_pre.merges, 1)
                }
                &&& old_prefix != sec.prefix ==> {
                    &&& !has_prefix(post.sections@, old_prefix)
                    &&& exists|k: int|
                        0 <= k < post.sections@.len() && (#[trigger] post.sections@[k]).prefix
                            == sec.prefix && if has_prefix(pre.sections@, sec.prefix) {
                            exists|j: int|
                                0 <= j < pre.sections@.len() && (
                                #[trigger] pre.sections@[j]).prefix == sec.prefix && merge_rel(
                                    pre.sections@[j],
                                    sec,
                                    post.sections@[k],
                                    pre.params,
                                )
                        } else {
                            exists|fresh: Section|
                                {
                                    &&& fresh.prefix == sec.prefix
                                    &&& fresh.state == State::Stable
                                    &&& fresh.nodes@.len() == 0
                                    &&& fresh.chain.blocks@.len() == 0
                                    &&& fresh.requests@.len() == 0
                                    &&& fresh.incoming_relocations@.len() == 0
                                    &&& fresh.outgoing_relocations@.len() == 0
                                    &&& #[trigger] merge_rel(
                                        fresh,
                                        sec,
                                        post.sections@[k],
                                        pre.params,
                                    )
                                }
                        }
                }
            }
        },
        Response::Reject(_) => {
            &&& ok
            &&& post.sections@ == pre.sections@
            &&& next_post == next_pre
            &&& t_post.rejections == spec_sat_add(t_pre.rejections, 1)
            &&& t_post.merges == t_pre.merges && t_post.splits == t_pre.splits
                && t_post.relocations == t_pre.relocations
        },
        Response::Relocate { dst, node } => {
            &&& t_post.relocations == spec_sat_add(t_pre.relocations, 1)
            &&& t_post.merges == t_pre.merges && t_post.splits == t_pre.splits
                && t_post.rejections == t_pre.rejections
            &&& (exists|i: int|
                0 <= i < pre.sections@.len() && (#[trigger] pre.sections@[i]).prefix.spec_matches(
                    dst,
                )) ==> ok && exists|i: int, rr: Seq<Response>|
                0 <= i < pre.sections@.len() && pre.sections@[i].prefix.spec_matches(dst)
                    && #[trigger] delivered_at(
                    pre.sections@,
                    post.sections@,
                    i,
                    Request::Relocate { dst, node },
                    rr,
                ) && next_post == next_pre + rr
            &&& (forall|i: int|
                0 <= i < pre.sections@.len() ==> !(#[trigger] pre.sections@[i]).prefix.spec_matches(
                    dst,
                )) ==> !ok && post.failure == Some(SimError::NoMatchingSection)
            &&& (ok && all_stable(pre.sections@)) ==> next_post == next_pre
        },
        Response::RelocateRequest { src, dst, node_name } => {
            &&& t_post.merges == t_pre.merges && t_post.splits == t_pre.splits
                && t_post.relocations == t_pre.relocations && t_post.rejections
                == t_pre.rejections
            &&& !src.wf() ==> ok && post.sections@ == pre.sections@ && next_post == next_pre
            &&& (src.wf() && exists|i: int|
                0 <= i < pre.sections@.len() && (#[trigger] pre.sections@[i]).prefix.spec_matches(
                    dst,
                )) ==> ok && exists|i: int, rr: Seq<Response>|
                0 <= i < pre.sections@.len() && pre.sections@[i].prefix.spec_matches(dst)
                    && #[trigger] delivered_at(
                    pre.sections@,
                    post.sections@,
                    i,
                    Request::RelocateRequest { src, dst, node_name },
                    rr,
                ) && next_post == next_pre + rr
            &&& (src.wf() && forall|i: int|
                0 <= i < pre.sections@.len() ==> !(#[trigger] pre.sections@[i]).prefix.spec_matches(
                    dst,
                )) ==> !ok && post.failure == Some(SimError::NoMatchingSection)
            &&& (ok && all_stable(pre.sections@)) ==> next_post == next_pre
        },
        Response::Send(prefix, request) => {
            &&& ok
            &&& t_post.merges == t_pre.merges && t_post.splits == t_pre.splits
                && t_post.rejections == t_pre.rejections
            &&& t_post.relocations == if prefix.wf() && request is Relocate {
                spec_sat_add(t_pre.relocations, 1)
            } else {
                t_pre.relocations
            }
            &&& !prefix.wf() ==> post.sections@ == pre.sections@ && next_post == next_pre
            &&& prefix.wf() ==> match request {
                Request::Merge(target) => {
                    &&& !target.wf() ==> post.sections@ == pre.sections@ && next_post == next_pre
                    &&& (target.wf() && all_stable(pre.sections@)) ==> next_post == next_pre && (
                    forall|j: int|
                        0 <= j < pre.sections@.len() ==> if prefix.spec_is_ancestor(
                            (#[trigger] pre.sections@[j]).prefix,
                        ) {
                            receive_rel(
                                pre.sections@[j],
                                Request::Merge(target),
                                post.sections@[j],
                                Seq::<Response>::empty(),
                            )
                        } else {
                            post.sections@[j] == pre.sections@[j]
                        })
                },
                _ => all_stable(pre.sections@) ==> next_post == next_pre && send_outcome(
                    pre.sections@,
                    prefix,
                    request,
                    post.sections@,
                    Seq::<Response>::empty(),
                ),
            }
        },
    }
}

/// The fold of `process_one_rel` over one batch of `n` responses, processed
/// left to right: each response acts on the network, the tick counters and
/// the forward list; a failing response ends the batch with `ok == false`.
pub open spec fn batch_outcome(
    pre: Network,
    cur: Seq<Response>,
    t_pre: TickStats,
    fwd_pre: Seq<Response>,
    post: Network,
    t_post: TickStats,
    fwd_post: Seq<Response>,
    ok: bool,
    n: nat,
) -> bool
    decreases n,
{
    if n == 0 {
        &&& cur.len() == 0
        &&& post == pre
        &&& t_post == t_pre
        &&& fwd_post == fwd_pre
        &&& ok
    } else {
        &&& cur.len() == n
        &&& ((!ok && process_one_rel(pre, cur[0], t_pre, fwd_pre, post, t_post, fwd_post, false))
            || exists|mid: Network, t_mid: TickStats, fwd_mid: Seq<Response>|
            #![trigger process_one_rel(pre, cur[0], t_pre, fwd_pre, mid, t_mid, fwd_mid, true)]
            {
                &&& process_one_rel(pre, cur[0], t_pre, fwd_pre, mid, t_mid, fwd_mid, true)
                &&& batch_outcome(
                    mid,
                    cur.subrange(1, cur.len() as int),
                    t_mid,
                    fwd_mid,
                    post,
                    t_post,
                    fwd_post,
                    ok,
                    (n - 1) as nat,
                )
            })
    }
}

/// Constructing one successful link of the batch fold proves the fold.
proof fn lemma_batch_outcome_step(
    pre: Network,
    cur: Seq<Response>,
    t_pre: TickStats,
    fwd_pre: Seq<Response>,
    mid: Network,
    t_mid: TickStats,
    fwd_mid: Seq<Response>,
    post: Network,
    t_post: TickStats,
    fwd_post: Seq<Response>,
    ok: bool,
)
    requires
        cur.len() >= 1,
        process_one_rel(pre, cur[0], t_pre, fwd_pre, mid, t_mid, fwd_mid, true),
        batch_outcome(
            mid,
            cur.subrange(1, cur.len() as int),
            t_mid,
            fwd_mid,
            post,
            t_post,
            fwd_post,
            ok,
            (cur.len() - 1) as nat,
        ),
    ensures
        batch_outcome(pre, cur, t_pre, fwd_pre, post, t_post, fwd_post, ok, cur.len()),
{
    assert(exists|mid2: Network, t_mid2: TickStats, fwd_mid2: Seq<Response>|
        #![trigger process_one_rel(pre, cur[0], t_pre, fwd_pre, mid2, t_mid2, fwd_mid2, true)]
        {
            &&& process_one_rel(pre, cur[0], t_pre, fwd_pre, mid2, t_mid2, fwd_mid2, true)
            &&& batch_outcome(
                mid2,
                cur.subrange(1, cur.len() as int),
                t_mid2,
                fwd_mid2,
                post,
                t_post,
                fwd_post,
                ok,
                (cur.len() - 1) as nat,
            )
        });
}

impl Network {
    /// Processes one batch of responses left to right, appending forwarded
    /// requests to `next`; stops at the first fatal violation.
    fn process_batch(
        &mut self,
        cur: Vec<Response>,
        t: &mut TickStats,
        next: &mut Vec<Response>,
    ) -> (ok: bool)
        requires
            old(self).wf(),
        ensures
            final(self).wf(),
            final(self).params == old(self).params,
            final(self).rng == old(self).rng,
            final(self).stats == old(self).stats,
            !ok ==> final(self).failure is Some,
            !ok ==> final(self).failure == Some(SimError::NoMatchingSection) || final(self).failure
                == Some(SimError::SectionExists) || final(self).failure == Some(
                SimError::MalformedSection,
            ),
            ok ==> final(self).failure == old(self).failure,
            batch_outcome(
                *old(self),
                cur@,
                *old(t),
                old(next)@,
                *final(self),
                *final(t),
                final(next)@,
                ok,
                cur@.len(),
            ),
        decreases cur@.len(),
    {
        let mut rest = cur;
        if rest.len() == 0 {
            return true;
        }
        let ghost cur0 = rest@;
        let response = rest.remove(0);
        let ghost t0 = *t;
        let ghost f0 = next@;
        let ok1 = self.process_one(response, t, next);
        if !ok1 {
            proof {
                assert(batch_outcome(
                    *old(self),
                    cur0,
                    t0,
                    f0,
                    *self,
                    *t,
                    next@,
                    false,
                    cur0.len(),
                ));
            }
            return false;
        }
        let ghost mid = *self;
        let ghost t_mid = *t;
        let ghost f_mid = next@;
        let okr = self.process_batch(rest, t, next);
        proof {
            assert(rest@ =~= cur0.subrange(1, cur0.len() as int));
            lemma_batch_outcome_step(
                *old(self),
                cur0,
                t0,
                f0,
                mid,
                t_mid,
                f_mid,
                *self,
                *t,
                next@,
                okr,
            );
        }
        okr
    }

    /// Processes routed responses, and then every forwarded request they
    /// produce, until no work remains (within the round budget). Returns
    /// `false` on a fatal violation, recording it.
    pub fn handle_responses(&mut self, responses: Vec<Response>, t: &mut TickStats) -> (ok: bool)
        requires
            old(self).wf(),
        ensures
            final(self).wf(),
            final(self).params == old(self).params,
            final(self).stats == old(self).stats,
            !ok ==> final(self).failure is Some,
            !ok ==> final(self).failure == Some(SimError::NoMatchingSection) || final(self).failure
                == Some(SimError::SectionExists) || final(self).failure == Some(
                SimError::MalformedSection,
            ) || final(self).failure == Some(SimError::RoutingStalled),
            ok ==> final(self).failure == old(self).failure,
            exists|mid: Network, t_mid: TickStats, fwd: Seq<Response>, b: bool|
                {
                    &&& #[trigger] batch_outcome(
                        *old(self),
                        responses@,
                        *old(t),
                        Seq::<Response>::empty(),
                        mid,
                        t_mid,
                        fwd,
                        b,
                        responses@.len(),
                    )
                    &&& (!b ==> !ok && *final(self) == mid && *final(t) == t_mid)
                    &&& (b && fwd.len() == 0 ==> ok && *final(self) == mid && *final(t) == t_mid)
                },
    {
        let ghost resp0 = responses@;
        let ghost t0 = *t;
        let mut next: Vec<Response> = Vec::new();
        let ok0 = self.process_batch(responses, t, &mut next);
        let ghost mid1 = *self;
        let ghost tm1 = *t;
        let ghost fwd1 = next@;
        proof {
            assert(batch_outcome(
                *old(self),
                resp0,
                t0,
                Seq::<Response>::empty(),
                mid1,
                tm1,
                fwd1,
                ok0,
                resp0.len(),
            ));
        }
        if !ok0 {
            return false;
        }
        if next.len() == 0 {
            return true;
        }
        let mut cur = next;
        let mut rounds: usize = 0;
        while rounds < MAX_ROUTING_ROUNDS
            invariant
                self.wf(),
                self.params == old(self).params,
                self.stats == old(self).stats,
                self.failure == old(self).failure,
                resp0 == responses@,
                t0 == *old(t),
                fwd1.len() != 0,
                batch_outcome(
                    *old(self),
                    resp0,
                    t0,
                    Seq::<Response>::empty(),
                    mid1,
                    tm1,
                    fwd1,
                    true,
                    resp0.len(),
                ),
            decreases MAX_ROUTING_ROUNDS - rounds,
        {
            if cur.len() == 0 {
                return true;
            }
            let mut next2: Vec<Response> = Vec::new();
            let okr = self.process_batch(cur, t, &mut next2);
            if !okr {
                return false;
            }
            cur = next2;
            rounds = rounds + 1;
        }
        if cur.len() == 0 {
            true
        } else {
            self.failure = Some(SimError::RoutingStalled);
            false
        }
    }

    /// One pass of request handling over every section, then response
    /// processing, repeated until quiescence (within the round budget).
    /// On success every request queue is empty.
    pub fn handle_messages(&mut self, t: &mut TickStats) -> (ok: bool)
        requires
            old(self).wf(),
        ensures
            final(self).wf(),
            final(self).params == old(self).params,
            final(self).stats == old(self).stats,
            !ok ==> final(self).failure is Some,
            !ok ==> final(self).failure == Some(SimError::MaxPrefixLength) || final(self).failure
                == Some(SimError::NoMatchingSection) || final(self).failure == Some(
                SimError::SectionExists,
            ) || final(self).failure == Some(SimError::MalformedSection) || final(self).failure
                == Some(SimError::RoutingStalled),
            final(self).failure == Some(SimError::MaxPrefixLength) && old(self).failure != Some(
                SimError::MaxPrefixLength,
            ) ==> exists|i: int|
                0 <= i < final(self).sections@.len() && (#[trigger] final(self).sections@[i]).prefix.len >= 64,
            ok ==> final(self).failure == old(self).failure,
            ok ==> forall|i: int|
                0 <= i < final(self).sections@.len() ==> (#[trigger] final(self).sections@[i]).requests@.len() == 0,
            (!ok && final(self).failure == Some(SimError::MaxPrefixLength)) || exists|
                mid_secs: Seq<Section>,
                rng_mid: Rng,
                resp1: Seq<Response>,
            |
                {
                    &&& #[trigger] pass_outcome(
                        old(self).sections@,
                        old(self).params,
                        old(self).rng,
                        mid_secs,
                        rng_mid,
                        resp1,
                        old(self).sections@.len(),
                    )
                    &&& (resp1.len() == 0 ==> ok && final(self).sections@ == mid_secs && final(self).rng == rng_mid)
                },
    {
        let ghost secs0 = self.sections@;
        let ghost rng0 = self.rng;
        let mut responses: Vec<Response> = Vec::new();
        let mut i: usize = 0;
        while i < self.sections.len()
            invariant
                self.wf(),
                self.params == old(self).params,
                self.stats == old(self).stats,
                self.failure == old(self).failure,
                secs0 == old(self).sections@,
                rng0 == old(self).rng,
                i <= self.sections@.len(),
                self.sections@.len() == secs0.len(),
                forall|j: int| i <= j < secs0.len() ==> self.sections@[j] == secs0[j],
                forall|j: int| 0 <= j < i ==> (#[trigger] self.sections@[j]).requests@.len() == 0,
                pass_outcome(
                    secs0,
                    old(self).params,
                    rng0,
                    self.sections@,
                    self.rng,
                    responses@,
                    i as nat,
                ),
            decreases self.sections@.len() - i,
        {
            if self.sections[i].prefix.len >= 64 {
                self.failure = Some(SimError::MaxPrefixLength);
                proof {
                    assert(self.sections@[i as int].prefix.len >= 64);
                }
                return false;
            }
            let ghost pre = self.sections@;
            let ghost rng_mid = self.rng;
            let ghost r1v = responses@;
            let params = self.params;
            let s = &mut self.sections[i];
            let mut out = s.handle_requests(&params, &mut self.rng);
            let ghost r2v = out@;
            proof {
                assert forall|a: int|
                    0 <= a < self.sections@.len() implies (
                #[trigger] self.sections@[a]).wf() by {
                    if a != i as int {
                        assert(self.sections@[a] == pre[a]);
                    }
                }
                assert forall|a: int, b: int|
                    0 <= a < b < self.sections@.len() implies self.sections@[a].prefix
                    != self.sections@[b].prefix by {
                    assert(self.sections@[a].prefix == pre[a].prefix);
                    assert(self.sections@[b].prefix == pre[b].prefix);
                }
                assert forall|j: int|
                    0 <= j < i implies (#[trigger] self.sections@[j]).requests@.len() == 0 by {
                    assert(self.sections@[j] == pre[j]);
                }
            }
            responses.append(&mut out);
            proof {
                assert(self.sections@ == pre.update(i as int, self.sections@[i as int]));
                assert(pass_step(
                    pre,
                    self.sections@,
                    rng_mid,
                    self.rng,
                    r1v,
                    r2v,
                    old(self).params,
                    (i + 1) as nat,
                ));
                lemma_pass_outcome_step(
                    secs0,
                    old(self).params,
                    rng0,
                    pre,
                    rng_mid,
                    r1v,
                    self.sections@,
                    self.rng,
                    r2v,
                    responses@,
                    (i + 1) as nat,
                );
            }
            i = i + 1;
        }
        let ghost mid1 = self.sections@;
        let ghost rngm = self.rng;
        let ghost resp1 = responses@;
        proof {
            assert(pass_outcome(
                old(self).sections@,
                old(self).params,
                old(self).rng,
                mid1,
                rngm,
                resp1,
                old(self).sections@.len(),
            ));
        }
        if responses.len() == 0 {
            return true;
        }
        if !self.handle_responses(responses, t) {
            return false;
        }
        let mut rounds: usize = 0;
        while rounds < MAX_ROUTING_ROUNDS
            invariant
                self.wf(),
                self.params == old(self).params,
                self.stats == old(self).stats,
                self.failure == old(self).failure,
                resp1.len() != 0,
                pass_outcome(
                    old(self).sections@,
                    old(self).params,
                    old(self).rng,
                    mid1,
                    rngm,
                    resp1,
                    old(self).sections@.len(),
                ),
            decreases MAX_ROUTING_ROUNDS - rounds,
        {
            let mut responses2: Vec<Response> = Vec::new();
            let mut i: usize = 0;
            while i < self.sections.len()
                invariant
                    self.wf(),
                    self.params == old(self).params,
                    self.stats == old(self).stats,
                    self.failure == old(self).failure,
                    resp1.len() != 0,
                    pass_outcome(
                        old(self).sections@,
                        old(self).params,
                        old(self).rng,
                        mid1,
                        rngm,
                        resp1,
                        old(self).sections@.len(),
                    ),
                    i <= self.sections@.len(),
                    forall|j: int|
                        0 <= j < i ==> (#[trigger] self.sections@[j]).requests@.len() == 0,
                decreases self.sections@.len() - i,
            {
                if self.sections[i].prefix.len >= 64 {
                    self.failure = Some(SimError::MaxPrefixLength);
                    proof {
                        assert(self.sections@[i as int].prefix.len >= 64);
                    }
                    return false;
                }
                let ghost pre = self.sections@;
                let params = self.params;
                let s = &mut self.sections[i];
                let mut out = s.handle_requests(&params, &mut self.rng);
                proof {
                    assert forall|a: int|
                        0 <= a < self.sections@.len() implies (
                    #[trigger] self.sections@[a]).wf() by {
                        if a != i as int {
                            assert(self.sections@[a] == pre[a]);
                        }
                    }
                    assert forall|a: int, b: int|
                        0 <= a < b < self.sections@.len() implies self.sections@[a].prefix
                        != self.sections@[b].prefix by {
                        assert(self.sections@[a].prefix == pre[a].prefix);
                        assert(self.sections@[b].prefix == pre[b].prefix);
                    }
                    assert forall|j: int|
                        0 <= j < i implies (#[trigger] self.sections@[j]).requests@.len() == 0 by {
                        assert(self.sections@[j] == pre[j]);
                    }
                }
                responses2.append(&mut out);
                i = i + 1;
            }
            if responses2.len() == 0 {
                return true;
            }
            if !self.handle_responses(responses2, t) {
                return false;
            }
            rounds = rounds + 1;
        }
        self.failure = Some(SimError::RoutingStalled);
        false
    }

    /// Injects one random `Live` per section and, by an independent draw, at
    /// most one random `Dead`, in a random order per section.
    fn generate_random_messages(&mut self)
        requires
            old(self).wf(),
        ensures
            final(self).wf(),
            final(self).params == old(self).params,
            final(self).stats == old(self).stats,
            final(self).failure == old(self).failure,
            final(self).sections@.len() == old(self).sections@.len(),
            forall|j: int|
                0 <= j < old(self).sections@.len() ==> injected_ok(
                    old(self).sections@[j],
                    #[trigger] final(self).sections@[j],
                    old(self).params,
                ),
    {
        let mut i: usize = 0;
        while i < self.sections.len()
            invariant
                self.wf(),
                self.params == old(self).params,
                self.stats == old(self).stats,
                self.failure == old(self).failure,
                self.sections@.len() == old(self).sections@.len(),
                i <= self.sections@.len(),
                forall|j: int| i <= j < self.sections@.len() ==> self.sections@[j] == old(self).sections@[j],
                forall|j: int|
                    0 <= j < i ==> injected_ok(
                        old(self).sections@[j],
                        #[trigger] self.sections@[j],
                        old(self).params,
                    ),
            decreases self.sections@.len() - i,
        {
            let ghost sec0 = self.sections@[i as int];
            let coin = self.rng.next_bool();
            if coin {
                let ghost draw = self.rng.spec_peek_u64();
                let ghost live_req = Request::Live(
                    Node {
                        name: sec0.prefix.spec_substituted_in(draw),
                        age: self.params.init_age,
                        elder: false,
                    },
                );
                proof {
                    crate::prefix::lemma_substituted_in_matches(sec0.prefix, draw);
                    assert(is_live_injection(live_req, sec0, old(self).params));
                }
                self.add_random_node(i);
                let ghost mid = self.sections@[i as int];
                let dropped = self.drop_random_node(i);
                proof {
                    lemma_injection_composes(
                        sec0,
                        mid,
                        self.sections@[i as int],
                        live_req,
                        dropped,
                        old(self).params,
                        true,
                    );
                }
            } else {
                let dropped = self.drop_random_node(i);
                let ghost mid = self.sections@[i as int];
                let ghost draw = self.rng.spec_peek_u64();
                let ghost live_req = Request::Live(
                    Node {
                        name: mid.prefix.spec_substituted_in(draw),
                        age: self.params.init_age,
                        elder: false,
                    },
                );
                proof {
                    assert(mid.prefix == sec0.prefix);
                    crate::prefix::lemma_substituted_in_matches(sec0.prefix, draw);
                    assert(is_live_injection(live_req, sec0, old(self).params));
                }
                self.add_random_node(i);
                proof {
                    lemma_injection_composes(
                        sec0,
                        mid,
                        self.sections@[i as int],
                        live_req,
                        dropped,
                        old(self).params,
                        false,
                    );
                }
            }
            proof {
                assert forall|j: int|
                    0 <= j < i + 1 implies injected_ok(
                    old(self).sections@[j],
                    #[trigger] self.sections@[j],
                    old(self).params,
                ) by {
                }
            }
            i = i + 1;
        }
    }

    /// Queues one `Live` in the section at the given index: a fresh joiner at
    /// `init_age` whose name is the next 64-bit draw substituted into the
    /// section's prefix. A splitting or merging section is left unchanged
    /// (the forwards are discarded, as the original does).
    fn add_random_node(&mut self, i: usize)
        requires
            old(self).wf(),
            i < old(self).sections@.len(),
        ensures
            final(self).wf(),
            final(self).rng == old(self).rng.spec_step().spec_step(),
            final(self).sections@.len() == old(self).sections@.len(),
            forall|j: int|
                0 <= j < old(self).sections@.len() && j != i ==> final(self).sections@[j] == old(self).sections@[j],
            if old(self).sections@[i as int].state == State::Stable {
                final(self).sections@[i as int] == (Section {
                    requests: final(self).sections@[i as int].requests,
                    ..old(self).sections@[i as int]
                }) && final(self).sections@[i as int].requests@ == old(self).sections@[i as int].requests@.push(
                    spec_live_injection(
                        old(self).sections@[i as int],
                        old(self).rng.spec_peek_u64(),
                        old(self).params,
                    ),
                )
            } else {
                final(self).sections@[i as int] == old(self).sections@[i as int]
            },
            final(self).params == old(self).params,
            final(self).stats == old(self).stats,
            final(self).failure == old(self).failure,
    {
        let raw = self.rng.next_u64();
        let name = self.sections[i].prefix.substituted_in(raw);
        let age = self.params.init_age;
        let _ = self.deliver(i, Request::Live(Node::new(name, age)));
    }

    /// Possibly queues one `Dead` in the section at the given index: nodes
    /// are visited youngest first, each dropped with a probability that
    /// halves with every year of age. Returns the dropped name, if any; a
    /// splitting or merging section is left unchanged either way.
    fn drop_random_node(&mut self, i: usize) -> (dropped: Option<Name>)
        requires
            old(self).wf(),
            i < old(self).sections@.len(),
        ensures
            final(self).wf(),
            final(self).sections@.len() == old(self).sections@.len(),
            forall|j: int|
                0 <= j < old(self).sections@.len() && j != i ==> final(self).sections@[j] == old(self).sections@[j],
            match dropped {
                None => final(self).sections@[i as int] == old(self).sections@[i as int],
                Some(nm) => has_name(old(self).sections@[i as int].nodes@, nm) && if old(self).sections@[i as int].state == State::Stable {
                    final(self).sections@[i as int] == (Section {
                        requests: final(self).sections@[i as int].requests,
                        ..old(self).sections@[i as int]
                    }) && final(self).sections@[i as int].requests@ == old(self).sections@[i as int].requests@.push(
                        Request::Dead(nm),
                    )
                } else {
                    final(self).sections@[i as int] == old(self).sections@[i as int]
                },
            },
            exists|ordered: Seq<Node>|
                #![trigger scan_outcome(ordered, old(self).rng, dropped, final(self).rng)]
                {
                    &&& ordered.len() == old(self).sections@[i as int].nodes@.len()
                    &&& forall|x: Node| #[trigger]
                        count_node(ordered, x) == count_node(
                            old(self).sections@[i as int].nodes@,
                            x,
                        )
                    &&& forall|a: int, b: int|
                        0 <= a < b < ordered.len() ==> !crate::node::key_gt(
                            ordered[a],
                            ordered[b],
                        )
                    &&& scan_outcome(ordered, old(self).rng, dropped, final(self).rng)
                },
            final(self).params == old(self).params,
            final(self).stats == old(self).stats,
            final(self).failure == old(self).failure,
    {
        let ordered = by_age(self.sections[i].nodes());
        proof {
            assert(ordered@.subrange(0, ordered@.len() as int) =~= ordered@);
        }
        let mut j: usize = 0;
        while j < ordered.len()
            invariant
                self.wf(),
                self.sections@ == old(self).sections@,
                self.params == old(self).params,
                self.stats == old(self).stats,
                self.failure == old(self).failure,
                i < self.sections@.len(),
                j <= ordered@.len(),
                ordered@.len() == old(self).sections@[i as int].nodes@.len(),
                forall|x: Node| #[trigger]
                    count_node(ordered@, x) == count_node(
                        old(self).sections@[i as int].nodes@,
                        x,
                    ),
                forall|a: int, b: int|
                    0 <= a < b < ordered@.len() ==> !crate::node::key_gt(
                        ordered@[a],
                        ordered@[b],
                    ),
                forall|k: int|
                    0 <= k < ordered@.len() ==> old(self).sections@[i as int].nodes@.contains(
                        #[trigger] ordered@[k],
                    ),
                forall|d: Option<Name>, rr: Rng| #[trigger]
                    scan_outcome(
                        ordered@.subrange(j as int, ordered@.len() as int),
                        self.rng,
                        d,
                        rr,
                    ) ==> scan_outcome(ordered@, old(self).rng, d, rr),
            decreases ordered@.len() - j,
        {
            let ghost rpre = self.rng;
            let ghost sub_j = ordered@.subrange(j as int, ordered@.len() as int);
            let draw = self.rng.next_u64();
            if draw < drop_threshold(ordered[j].age) {
                let name = ordered[j].name;
                proof {
                    let w = choose|w: int|
                        0 <= w < old(self).sections@[i as int].nodes@.len() && old(self).sections@[i as int].nodes@[w] == ordered@[j as int];
                    assert(has_name(old(self).sections@[i as int].nodes@, name));
                    assert(sub_j[0] == ordered@[j as int]);
                    assert(scan_outcome(sub_j, rpre, Option::Some(name), self.rng));
                    assert(scan_outcome(ordered@, old(self).rng, Option::Some(name), self.rng));
                }
                let _ = self.deliver(i, Request::Dead(name));
                return Some(name);
            }
            proof {
                assert forall|d: Option<Name>, rr: Rng| #[trigger]
                    scan_outcome(
                        ordered@.subrange(j + 1, ordered@.len() as int),
                        self.rng,
                        d,
                        rr,
                    ) implies scan_outcome(ordered@, old(self).rng, d, rr) by {
                    assert(sub_j[0] == ordered@[j as int]);
                    assert(sub_j.subrange(1, sub_j.len() as int) =~= ordered@.subrange(
                        j + 1,
                        ordered@.len() as int,
                    ));
                    assert(scan_outcome(sub_j, rpre, d, rr));
                }
            }
            j = j + 1;
        }
        proof {
            assert(ordered@.subrange(ordered@.len() as int, ordered@.len() as int).len() == 0);
            assert(scan_outcome(
                ordered@.subrange(ordered@.len() as int, ordered@.len() as int),
                self.rng,
                Option::None,
                self.rng,
            ));
            assert(scan_outcome(ordered@, old(self).rng, Option::None, self.rng));
        }
        None
    }

    /// All sections respect the size ceiling.
    pub fn check_section_sizes(&self) -> (r: bool)
        ensures
            r == forall|i: int|
                0 <= i < self.sections@.len() ==> (#[trigger] self.sections@[i]).nodes@.len()
                    <= self.params.max_section_size,
    {
        let mut i: usize = 0;
        while i < self.sections.len()
            invariant
                i <= self.sections@.len(),
                forall|j: int|
                    0 <= j < i ==> (#[trigger] self.sections@[j]).nodes@.len()
                        <= self.params.max_section_size,
            decreases self.sections@.len() - i,
        {
            if self.sections[i].nodes.len() > self.params.max_section_size {
                return false;
            }
            i = i + 1;
        }
        true
    }

    /// Executes one tick: checks the tick-start invariants (on a violation
    /// nothing is injected and the sections are untouched), injects random
    /// requests, drains the message loop to quiescence, records statistics,
    /// and checks the size ceiling. Returns `true` exactly while the
    /// simulation runs successfully: on `true` every section respects
    /// `max_section_size` and every queue is empty; on `false` the violation
    /// is in `failure`.
    pub fn tick(&mut self, iterations: u64) -> (r: bool)
        requires
            old(self).wf(),
        ensures
            final(self).wf(),
            final(self).params == old(self).params,
            (exists|i: int|
                0 <= i < old(self).sections@.len() && (#[trigger] old(self).sections@[i]).incoming_relocations@.len() != 0) ==> r == false && final(self).failure
                == Some(SimError::IncomingAtTickStart) && final(self).sections@ == old(self).sections@ && final(self).stats == old(self).stats && final(self).rng == old(self).rng,
            !r ==> final(self).failure is Some,
            r ==> final(self).failure == old(self).failure,
            final(self).failure == Some(SimError::IncomingAtTickStart) && old(self).failure
                != Some(SimError::IncomingAtTickStart) ==> exists|i: int|
                0 <= i < old(self).sections@.len() && (#[trigger] old(self).sections@[i]).incoming_relocations@.len() != 0,
            final(self).failure == Some(SimError::OversizedSection) && old(self).failure != Some(
                SimError::OversizedSection,
            ) ==> exists|i: int|
                0 <= i < final(self).sections@.len() && (#[trigger] final(self).sections@[i]).nodes@.len() > old(self).params.max_section_size,
            final(self).failure == Some(SimError::MaxPrefixLength) && old(self).failure != Some(
                SimError::MaxPrefixLength,
            ) ==> exists|i: int|
                0 <= i < final(self).sections@.len() && (#[trigger] final(self).sections@[i]).prefix.len >= 64,
            r ==> forall|i: int|
                0 <= i < final(self).sections@.len() ==> (#[trigger] final(self).sections@[i]).nodes@.len() <= old(self).params.max_section_size,
            r ==> forall|i: int|
                0 <= i < final(self).sections@.len() ==> (#[trigger] final(self).sections@[i]).requests@.len() == 0,
            r ==> final(self).stats.ticks == if old(self).stats.ticks < u64::MAX {
                old(self).stats.ticks + 1
            } else {
                u64::MAX as int
            },
            r ==> final(self).stats.sections == final(self).sections@.len(),
            r ==> final(self).stats.nodes == if sum_nodes(final(self).sections@) <= u64::MAX {
                sum_nodes(final(self).sections@)
            } else {
                u64::MAX as int
            },
    {
        let _ = iterations;
        let mut i: usize = 0;
        while i < self.sections.len()
            invariant
                self == old(self),
                self.wf(),
                i <= self.sections@.len(),
                forall|j: int|
                    0 <= j < i ==> (#[trigger] self.sections@[j]).incoming_relocations@.len() == 0,
            decreases self.sections@.len() - i,
        {
            if self.sections[i].has_incoming_relocation() {
                self.failure = Some(SimError::IncomingAtTickStart);
                proof {
                    assert(old(self).sections@[i as int].incoming_relocations@.len() != 0);
                }
                return false;
            }
            i = i + 1;
        }
        self.generate_random_messages();
        let mut t = TickStats::new();
        let ok = self.handle_messages(&mut t);
        let mut nodes_total: u64 = 0;
        let mut i: usize = 0;
        proof {
            assert(sum_nodes(self.sections@.subrange(0, 0)) == 0);
        }
        while i < self.sections.len()
            invariant
                self.wf(),
                self.params == old(self).params,
                i <= self.sections@.len(),
                nodes_total == if sum_nodes(self.sections@.subrange(0, i as int)) <= u64::MAX {
                    sum_nodes(self.sections@.subrange(0, i as int))
                } else {
                    u64::MAX as int
                },
            decreases self.sections@.len() - i,
        {
            proof {
                assert(self.sections@.subrange(0, i + 1).drop_last() =~= self.sections@.subrange(
                    0,
                    i as int,
                ));
                lemma_sum_nodes_nonneg(self.sections@.subrange(0, i as int));
            }
            let n = self.sections[i].nodes.len();
            nodes_total = sat_add(nodes_total, n as u64);
            i = i + 1;
        }
        proof {
            assert(self.sections@.subrange(0, self.sections@.len() as int) =~= self.sections@);
        }
        self.stats.record(
            nodes_total,
            self.sections.len() as u64,
            t.merges,
            t.splits,
            t.relocations,
            t.rejections,
        );
        if !ok {
            return false;
        }
        if !self.check_section_sizes() {
            self.failure = Some(SimError::OversizedSection);
            return false;
        }
        true
    }

    /// Number of sections holding at least `group_size` adults.
    pub fn num_complete_sections(&self) -> (r: u64)
        requires
            self.wf(),
        ensures
            r == count_complete(self.sections@, self.params),
    {
        let mut count: u64 = 0;
        let mut i: usize = 0;
        while i < self.sections.len()
            invariant
                self.wf(),
                i <= self.sections@.len(),
                count == count_complete(self.sections@.subrange(0, i as int), self.params),
                count <= i,
            decreases self.sections@.len() - i,
        {
            proof {
                assert(self.sections@.subrange(0, i + 1).drop_last() =~= self.sections@.subrange(
                    0,
                    i as int,
                ));
            }
            if self.sections[i].is_complete(&self.params) {
                count = count + 1;
            }
            i = i + 1;
        }
        proof {
            assert(self.sections@.subrange(0, self.sections@.len() as int) =~= self.sections@);
        }
        count
    }

    /// The distribution of node ages over all sections.
    pub fn age_dist(&self) -> (r: Distribution)
        ensures
            r.count == all_ages(self.sections@).len(),
            r.sum == crate::stats::seq_sum(all_ages(self.sections@)),
            all_ages(self.sections@).len() == 0 ==> r.min == 0 && r.max == 0,
            all_ages(self.sections@).len() > 0 ==> (exists|i: int|
                0 <= i < all_ages(self.sections@).len() && r.min == #[trigger] all_ages(
                    self.sections@,
                )[i]) && (exists|i: int|
                0 <= i < all_ages(self.sections@).len() && r.max == #[trigger] all_ages(
                    self.sections@,
                )[i]) && (forall|i: int|
                0 <= i < all_ages(self.sections@).len() ==> r.min <= #[trigger] all_ages(
                    self.sections@,
                )[i] && all_ages(self.sections@)[i] <= r.max),
    {
        let mut values: Vec<u64> = Vec::new();
        let mut i: usize = 0;
        proof {
            assert(all_ages(self.sections@.subrange(0, 0)) =~= Seq::<u64>::empty());
        }
        while i < self.sections.len()
            invariant
                i <= self.sections@.len(),
                values@ == all_ages(self.sections@.subrange(0, i as int)),
            decreases self.sections@.len() - i,
        {
            let s = &self.sections[i];
            let ghost base = values@;
            let mut j: usize = 0;
            while j < s.nodes.len()
                invariant
                    j <= s.nodes@.len(),
                    values@ == base + s.nodes@.subrange(0, j as int).map_values(|n: Node| n.age),
                decreases s.nodes@.len() - j,
            {
                values.push(s.nodes[j].age);
                proof {
                    assert(values@ =~= base + s.nodes@.subrange(0, j + 1).map_values(
                        |n: Node| n.age,
                    ));
                }
                j = j + 1;
            }
            proof {
                assert(s.nodes@.subrange(0, s.nodes@.len() as int) =~= s.nodes@);
                assert(self.sections@.subrange(0, i + 1).drop_last() =~= self.sections@.subrange(
                    0,
                    i as int,
                ));
                assert(values@ =~= all_ages(self.sections@.subrange(0, i + 1)));
            }
            i = i + 1;
        }
        proof {
            assert(self.sections@.subrange(0, self.sections@.len() as int) =~= self.sections@);
        }
        Distribution::new(&values)
    }

    /// The distribution of section sizes.
    pub fn section_size_dist(&self) -> (r: Distribution)
        ensures
            r.count == self.sections@.len(),
            r.sum == crate::stats::seq_sum(all_sizes(self.sections@)),
            self.sections@.len() == 0 ==> r.min == 0 && r.max == 0,
            self.sections@.len() > 0 ==> (exists|i: int|
                0 <= i < all_sizes(self.sections@).len() && r.min == #[trigger] all_sizes(
                    self.sections@,
                )[i]) && (exists|i: int|
                0 <= i < all_sizes(self.sections@).len() && r.max == #[trigger] all_sizes(
                    self.sections@,
                )[i]) && (forall|i: int|
                0 <= i < all_sizes(self.sections@).len() ==> r.min <= #[trigger] all_sizes(
                    self.sections@,
                )[i] && all_sizes(self.sections@)[i] <= r.max),
    {
        let mut values: Vec<u64> = Vec::new();
        let mut i: usize = 0;
        proof {
            assert(all_sizes(self.sections@.subrange(0, 0)) =~= Seq::<u64>::empty());
        }
        while i < self.sections.len()
            invariant
                i <= self.sections@.len(),
                values@ == all_sizes(self.sections@.subrange(0, i as int)),
                values@.len() == i,
            decreases self.sections@.len() - i,
        {
            proof {
                assert(self.sections@.subrange(0, i + 1).drop_last() =~= self.sections@.subrange(
                    0,
                    i as int,
                ));
            }
            values.push(self.sections[i].nodes.len() as u64);
            i = i + 1;
        }
        proof {
            assert(self.sections@.subrange(0, self.sections@.len() as int) =~= self.sections@);
        }
        Distribution::new(&values)
    }

    /// The distribution of prefix lengths.
    pub fn prefix_len_dist(&self) -> (r: Distribution)
        ensures
            r.count == self.sections@.len(),
            r.sum == crate::stats::seq_sum(all_prefix_lens(self.sections@)),
            self.sections@.len() == 0 ==> r.min == 0 && r.max == 0,
            self.sections@.len() > 0 ==> (exists|i: int|
                0 <= i < all_prefix_lens(self.sections@).len() && r.min
                    == #[trigger] all_prefix_lens(self.sections@)[i]) && (exists|i: int|
                0 <= i < all_prefix_lens(self.sections@).len() && r.max
                    == #[trigger] all_prefix_lens(self.sections@)[i]) && (forall|i: int|
                0 <= i < all_prefix_lens(self.sections@).len() ==> r.min
                    <= #[trigger] all_prefix_lens(self.sections@)[i] && all_prefix_lens(
                    self.sections@,
                )[i] <= r.max),
    {
        let mut values: Vec<u64> = Vec::new();
        let mut i: usize = 0;
        proof {
            assert(all_prefix_lens(self.sections@.subrange(0, 0)) =~= Seq::<u64>::empty());
        }
        while i < self.sections.len()
            invariant
                i <= self.sections@.len(),
                values@ == all_prefix_lens(self.sections@.subrange(0, i as int)),
                values@.len() == i,
            decreases self.sections@.len() - i,
        {
            proof {
                assert(self.sections@.subrange(0, i + 1).drop_last() =~= self.sections@.subrange(
                    0,
                    i as int,
                ));
            }
            values.push(self.sections[i].prefix.len);
            i = i + 1;
        }
        proof {
            assert(self.sections@.subrange(0, self.sections@.len() as int) =~= self.sections@);
        }
        Distribution::new(&values)
    }
}

/// One link of the section pass: section `k - 1` of `mid` drains its queue
/// per `queue_outcome`, reaching `post` at that index; `r1` is what the
/// earlier sections emitted, `r2` this section's responses.
pub open spec fn pass_step(
    mid: Seq<Section>,
    post: Seq<Section>,
    rng_mid: Rng,
    rng_post: Rng,
    r1: Seq<Response>,
    r2: Seq<Response>,
    params: Params,
    k: nat,
) -> bool {
    &&& k >= 1
    &&& k <= mid.len()
    &&& post == mid.update((k - 1) as int, post[(k - 1) as int])
    &&& crate::section::queue_outcome(
        mid[(k - 1) as int],
        params,
        rng_mid,
        post[(k - 1) as int],
        rng_post,
        r2,
        mid[(k - 1) as int].requests@.len(),
    )
}

/// The fold of one request-handling pass over the first `k` sections, in
/// index order: each drains its queue per `queue_outcome`, the generator
/// threads through, and the responses concatenate.
pub open spec fn pass_outcome(
    pre: Seq<Section>,
    params: Params,
    rng_pre: Rng,
    post: Seq<Section>,
    rng_post: Rng,
    resp: Seq<Response>,
    k: nat,
) -> bool
    decreases k,
{
    if k == 0 {
        &&& post == pre
        &&& rng_post == rng_pre
        &&& resp.len() == 0
    } else {
        &&& k <= pre.len()
        &&& exists|mid: Seq<Section>, rng_mid: Rng, r1: Seq<Response>, r2: Seq<Response>|
            #![trigger pass_step(mid, post, rng_mid, rng_post, r1, r2, params, k)]
            {
                &&& pass_step(mid, post, rng_mid, rng_post, r1, r2, params, k)
                &&& resp == r1 + r2
                &&& pass_outcome(pre, params, rng_pre, mid, rng_mid, r1, (k - 1) as nat)
            }
    }
}

/// Constructing one link of the pass fold proves the fold.
proof fn lemma_pass_outcome_step(
    pre: Seq<Section>,
    params: Params,
    rng_pre: Rng,
    mid: Seq<Section>,
    rng_mid: Rng,
    r1: Seq<Response>,
    post: Seq<Section>,
    rng_post: Rng,
    r2: Seq<Response>,
    resp: Seq<Response>,
    k: nat,
)
    requires
        1 <= k <= pre.len(),
        pass_outcome(pre, params, rng_pre, mid, rng_mid, r1, (k - 1) as nat),
        pass_step(mid, post, rng_mid, rng_post, r1, r2, params, k),
        resp == r1 + r2,
    ensures
        pass_outcome(pre, params, rng_pre, post, rng_post, resp, k),
{
    assert(exists|mid2: Seq<Section>, rng_mid2: Rng, r1b: Seq<Response>, r2b: Seq<Response>|
        #![trigger pass_step(mid2, post, rng_mid2, rng_post, r1b, r2b, params, k)]
        {
            &&& pass_step(mid2, post, rng_mid2, rng_post, r1b, r2b, params, k)
            &&& resp == r1b + r2b
            &&& pass_outcome(pre, params, rng_pre, mid2, rng_mid2, r1b, (k - 1) as nat)
        });
}

/// Totals are nonnegative.
proof fn lemma_sum_nodes_nonneg(secs: Seq<Section>)
    ensures
        sum_nodes(secs) >= 0,
    decreases secs.len(),
{
    if secs.len() > 0 {
        lemma_sum_nodes_nonneg(secs.drop_last());
    }
}

/// Composes the two injections of one section: the `Live` always lands when
/// the section is stable, the `Dead` lands when a member was drawn.
proof fn lemma_injection_composes(
    sec0: Section,
    mid: Section,
    post: Section,
    live_req: Request,
    dropped: Option<Name>,
    params: Params,
    live_first: bool,
)
    requires
        is_live_injection(live_req, sec0, params),
        live_first ==> (if sec0.state == State::Stable {
            mid == (Section { requests: mid.requests, ..sec0 }) && mid.requests@
                == sec0.requests@.push(live_req)
        } else {
            mid == sec0
        }) && (match dropped {
            Option::None => post == mid,
            Option::Some(nm) => has_name(mid.nodes@, nm) && if mid.state == State::Stable {
                post == (Section { requests: post.requests, ..mid }) && post.requests@
                    == mid.requests@.push(Request::Dead(nm))
            } else {
                post == mid
            },
        }),
        !live_first ==> (match dropped {
            Option::None => mid == sec0,
            Option::Some(nm) => has_name(sec0.nodes@, nm) && if sec0.state == State::Stable {
                mid == (Section { requests: mid.requests, ..sec0 }) && mid.requests@
                    == sec0.requests@.push(Request::Dead(nm))
            } else {
                mid == sec0
            },
        }) && (if mid.state == State::Stable {
            post == (Section { requests: post.requests, ..mid }) && post.requests@
                == mid.requests@.push(live_req)
        } else {
            post == mid
        }),
    ensures
        injected_ok(sec0, post, params),
{
    if sec0.state == State::Stable {
        if live_first {
            match dropped {
                Option::None => {
                    let inj = seq![live_req];
                    assert(post.requests@ =~= sec0.requests@ + inj);
                    assert(is_live_injection(inj[0], sec0, params));
                },
                Option::Some(nm) => {
                    let inj = seq![live_req, Request::Dead(nm)];
                    assert(post.requests@ =~= sec0.requests@ + inj);
                    assert(mid.nodes@ == sec0.nodes@);
                    assert(is_live_injection(inj[0], sec0, params));
                    assert(is_dead_injection(inj[1], sec0));
                },
            }
        } else {
            match dropped {
                Option::None => {
                    let inj = seq![live_req];
                    assert(post.requests@ =~= sec0.requests@ + inj);
                    assert(is_live_injection(inj[0], sec0, params));
                },
                Option::Some(nm) => {
                    let inj = seq![Request::Dead(nm), live_req];
                    assert(post.requests@ =~= sec0.requests@ + inj);
                    assert(is_live_injection(inj[1], sec0, params));
                    assert(is_dead_injection(inj[0], sec0));
                },
            }
        }
    } else {
        assert(post == sec0);
    }
}

/// The youngest-first departure scan: walking the ordered list, each node's
/// 64-bit draw is compared against its age's threshold; the first success
/// names the departing node, and the generator advances two steps per draw.
pub open spec fn scan_outcome(
    ordered: Seq<Node>,
    rng0: Rng,
    dropped: Option<Name>,
    rng1: Rng,
) -> bool
    decreases ordered.len(),
{
    if ordered.len() == 0 {
        dropped is None && rng1 == rng0
    } else if rng0.spec_peek_u64() < spec_drop_threshold(ordered[0].age) {
        dropped == Option::Some(ordered[0].name) && rng1 == rng0.spec_step().spec_step()
    } else {
        scan_outcome(
            ordered.subrange(1, ordered.len() as int),
            rng0.spec_step().spec_step(),
            dropped,
            rng1,
        )
    }
}

/// Drop probability as an integer threshold on a uniform 64-bit draw: a node
/// of age `a` is dropped when the draw falls below `2^(64-a)`, so the
/// probability halves with every year of age.
pub fn drop_threshold(age: u64) -> (r: u64)
    ensures
        r == spec_drop_threshold(age),
{
    if age >= 64 {
        0
    } else {
        u64::MAX >> age
    }
}

/// The drop threshold for an age.
pub open spec fn spec_drop_threshold(age: u64) -> u64 {
    if age >= 64 {
        0
    } else {
        u64::MAX >> age
    }
}

/// The drop threshold never grows with age: older nodes are dropped less
/// often.
pub proof fn lemma_drop_threshold_monotone(a: u64, b: u64)
    requires
        a <= b,
    ensures
        spec_drop_threshold(b) <= spec_drop_threshold(a),
{
    if b < 64 {
        assert(a < 64 ==> u64::MAX >> b <= u64::MAX >> a) by (bit_vector)
            requires
                a <= b < 64,
        ;
    }
}

/// Occurrences of a node value in a sequence.
pub open spec fn count_node(s: Seq<Node>, x: Node) -> int
    decreases s.len(),
{
    if s.len() == 0 {
        0
    } else {
        count_node(s.drop_last(), x) + if s.last() == x {
            1int
        } else {
            0int
        }
    }
}

/// Inserting an element adds exactly one occurrence of it.
pub proof fn lemma_count_node_insert(s: Seq<Node>, k: int, x: Node, y: Node)
    requires
        0 <= k <= s.len(),
    ensures
        count_node(s.insert(k, x), y) == count_node(s, y) + if x == y {
            1int
        } else {
            0int
        },
    decreases s.len() - k,
{
    if k == s.len() {
        assert(s.insert(k, x) =~= s.push(x));
        assert(s.push(x).drop_last() =~= s);
    } else {
        assert(s.insert(k, x).drop_last() =~= s.drop_last().insert(k, x));
        assert(s.insert(k, x).last() == s.last());
        lemma_count_node_insert(s.drop_last(), k, x, y);
    }
}

/// The nodes of a list ordered by `(age, name)` ascending: youngest first.
/// The result is a permutation of the input.
pub fn by_age(nodes: &Vec<Node>) -> (r: Vec<Node>)
    ensures
        r@.len() == nodes@.len(),
        forall|j: int| 0 <= j < r@.len() ==> nodes@.contains(#[trigger] r@[j]),
        forall|a: int, b: int|
            0 <= a < b < r@.len() ==> !crate::node::key_gt(r@[a], r@[b]),
        forall|x: Node| #[trigger] count_node(r@, x) == count_node(nodes@, x),
{
    let mut out: Vec<Node> = Vec::new();
    let mut i: usize = 0;
    while i < nodes.len()
        invariant
            i <= nodes@.len(),
            out@.len() == i,
            forall|j: int| 0 <= j < out@.len() ==> nodes@.contains(#[trigger] out@[j]),
            forall|a: int, b: int|
                0 <= a < b < out@.len() ==> !crate::node::key_gt(out@[a], out@[b]),
            forall|x: Node| #[trigger]
                count_node(out@, x) == count_node(nodes@.subrange(0, i as int), x),
        decreases nodes@.len() - i,
    {
        let n = nodes[i];
        proof {
            assert(nodes@.contains(n)) by {
                assert(nodes@[i as int] == n);
            }
        }
        let mut k: usize = 0;
        while k < out.len() && !(out[k].age > n.age || (out[k].age == n.age && out[k].name
            > n.name))
            invariant
                k <= out@.len(),
                out@.len() == i,
                forall|a: int, b: int|
                    0 <= a < b < out@.len() ==> !crate::node::key_gt(out@[a], out@[b]),
                forall|a: int| 0 <= a < k ==> !crate::node::key_gt(#[trigger] out@[a], n),
            decreases out@.len() - k,
        {
            k = k + 1;
        }
        let ghost pre = out@;
        out.insert(k, n);
        proof {
            assert forall|x: Node| #[trigger]
                count_node(out@, x) == count_node(nodes@.subrange(0, i + 1), x) by {
                lemma_count_node_insert(pre, k as int, n, x);
                assert(nodes@.subrange(0, i + 1).drop_last() =~= nodes@.subrange(0, i as int));
                assert(nodes@.subrange(0, i + 1).last() == nodes@[i as int]);
            }
            assert forall|j: int| 0 <= j < out@.len() implies nodes@.contains(
                #[trigger] out@[j],
            ) by {
                if j < k {
                    assert(out@[j] == pre[j]);
                } else if j == k {
                    assert(out@[j] == n);
                } else {
                    assert(out@[j] == pre[j - 1]);
                }
            }
            assert forall|a: int, b: int|
                0 <= a < b < out@.len() implies !crate::node::key_gt(out@[a], out@[b]) by {
                if a == k {
                    assert(out@[a] == n);
                    assert(out@[b] == pre[b - 1]);
                    assert(crate::node::key_gt(pre[k as int], n));
                    assert(!crate::node::key_gt(pre[k as int], pre[b - 1]));
                } else if b == k {
                    assert(out@[b] == n);
                    assert(out@[a] == pre[a]);
                } else {
                    let pa = if a < k {
                        a
                    } else {
                        a - 1
                    };
                    let pb = if b < k {
                        b
                    } else {
                        b - 1
                    };
                    assert(out@[a] == pre[pa]);
                    assert(out@[b] == pre[pb]);
                }
            }
        }
        i = i + 1;
    }
    proof {
        assert(nodes@.subrange(0, nodes@.len() as int) =~= nodes@);
    }
    out
}

} // verus!
