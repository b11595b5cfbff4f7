use overlay_sim::chain::{Block, Event};
use overlay_sim::hash::Digest;
use overlay_sim::message::{Request, Response};
use overlay_sim::node::Node;
use overlay_sim::params::{Params, Seed};
use overlay_sim::prefix::Prefix;
use overlay_sim::rng::Rng;
use overlay_sim::section::{Section, State};

fn base_params() -> Params {
    Params {
        group_size: 8,
        init_age: 4,
        adult_age: 5,
        max_section_size: 60,
        max_relocation_attempts: 25,
        max_infants_per_section: 1,
        seed: Seed { s0: 1, s1: 2, s2: 3, s3: 4 },
    }
}

fn seeded_rng() -> Rng {
    Rng::new(Seed { s0: 7, s1: 8, s2: 9, s3: 10 })
}

fn sections_equal(a: &Section, b: &Section) -> bool {
    a.prefix == b.prefix && a.state == b.state && a.nodes == b.nodes
        && a.chain.blocks == b.chain.blocks && a.requests == b.requests
        && a.incoming_relocations == b.incoming_relocations
        && a.outgoing_relocations == b.outgoing_relocations
}

#[test]
fn startup_join_makes_eight_elder_adults() {
    let params = base_params();
    let mut rng = seeded_rng();
    let mut s = Section::new(Prefix::empty());
    for name in 0..8u64 {
        let r = s.receive(Request::Live(Node::new(name * 1000 + 1, params.init_age)));
        assert!(r.is_empty());
    }
    let responses = s.handle_requests(&params, &mut rng);
    for r in &responses {
        assert!(!matches!(r, Response::Split(_, _, _)));
    }
    assert_eq!(s.nodes.len(), 8);
    for n in &s.nodes {
        assert_eq!(n.age, params.adult_age);
        assert!(n.elder);
    }
    assert_eq!(s.state, State::Stable);
}

#[test]
fn infant_cap_rejects_second_infant() {
    let params = base_params();
    let mut rng = seeded_rng();
    let p = Prefix { bits: 0, len: 1 };
    let mut s = Section::new(p);
    let first = Node::new(10, params.init_age);
    let second = Node::new(20, params.init_age);
    s.receive(Request::Live(first));
    let r = s.handle_requests(&params, &mut rng);
    assert!(r.is_empty());
    assert_eq!(s.nodes.len(), 1);
    let before_state = s.state;
    s.receive(Request::Live(second));
    let r = s.handle_requests(&params, &mut rng);
    assert_eq!(r.len(), 1);
    match &r[0] {
        Response::Reject(n) => assert_eq!(n.name, 20),
        other => panic!("expected a rejection, got {:?}", other),
    }
    assert_eq!(s.nodes.len(), 1);
    assert_eq!(s.state, before_state);
}

#[test]
fn split_triggers_when_both_halves_have_enough_adults() {
    let params = base_params();
    let mut rng = seeded_rng();
    // limit = 2 * 8 - (8 / 2 + 1) = 11 adults per half.
    let mut s = Section::new(Prefix::empty());
    let top = 0x8000_0000_0000_0000u64;
    // Age 300 exceeds any trailing-zeros count, so no relocation fires.
    for i in 0..11u64 {
        s.receive(Request::Live(Node::new(top + i, 300)));
    }
    for i in 0..10u64 {
        s.receive(Request::Live(Node::new(i + 1, 300)));
    }
    let r = s.handle_requests(&params, &mut rng);
    assert!(r.is_empty(), "no split before both halves reach the limit");
    assert_eq!(s.nodes.len(), 21);
    s.receive(Request::Live(Node::new(500, 300)));
    let r = s.handle_requests(&params, &mut rng);
    assert_eq!(r.len(), 1);
    match r.into_iter().next().unwrap() {
        Response::Split(s0, s1, old) => {
            assert_eq!(old, Prefix::empty());
            assert_eq!(s0.prefix, Prefix { bits: 0, len: 1 });
            assert_eq!(s1.prefix, Prefix { bits: top, len: 1 });
            assert_eq!(s0.nodes.len(), 11);
            assert_eq!(s1.nodes.len(), 11);
            for n in &s0.nodes {
                assert!(s0.prefix.matches(n.name));
            }
            for n in &s1.nodes {
                assert!(s1.prefix.matches(n.name));
            }
        },
        other => panic!("expected a split, got {:?}", other),
    }
    assert_eq!(s.state, State::Splitting);
    assert!(s.nodes.is_empty());
}

#[test]
fn try_split_below_limit_is_a_noop() {
    let params = base_params();
    let mut rng = seeded_rng();
    let mut s = Section::new(Prefix::empty());
    for i in 0..10u64 {
        s.receive(Request::Live(Node::new(i * 7 + 1, 300)));
    }
    let _ = s.handle_requests(&params, &mut rng);
    let copy_nodes = s.nodes.clone();
    let copy_chain = s.chain.blocks.clone();
    let r = s.try_split(&params);
    assert!(r.is_empty());
    assert_eq!(s.nodes, copy_nodes);
    assert_eq!(s.chain.blocks, copy_chain);
    assert_eq!(s.state, State::Stable);
}

#[test]
fn merge_triggers_when_adults_fall_below_group_size() {
    let params = base_params();
    let mut rng = seeded_rng();
    let p0 = Prefix { bits: 0, len: 1 };
    let mut s = Section::new(p0);
    for i in 0..7u64 {
        s.receive(Request::Live(Node::new(i + 1, 300)));
    }
    let r = s.handle_requests(&params, &mut rng);
    assert!(r.is_empty());
    s.receive(Request::Dead(1));
    let r = s.handle_requests(&params, &mut rng);
    let parent = Prefix::empty();
    let sibling = Prefix { bits: 0x8000_0000_0000_0000, len: 1 };
    let mut to_self = false;
    let mut to_sibling = false;
    for resp in &r {
        if let Response::Send(pr, Request::Merge(target)) = resp {
            assert_eq!(*target, parent);
            if *pr == p0 {
                to_self = true;
            }
            if *pr == sibling {
                to_sibling = true;
            }
        }
    }
    assert!(to_self && to_sibling);
    assert_eq!(s.nodes.len(), 6);
}

#[test]
fn handle_merge_into_same_parent_twice_is_a_noop() {
    let params = base_params();
    let parent = Prefix::empty();
    let p0 = Prefix { bits: 0, len: 1 };
    let mut s = Section::new(p0);
    let r = s.handle_merge(&params, parent);
    assert_eq!(r.len(), 1);
    assert!(matches!(&r[0], Response::Merge(_, _)));
    assert_eq!(s.state, State::Merging(parent));
    let snapshot = Section {
        prefix: s.prefix,
        state: s.state,
        nodes: s.nodes.clone(),
        chain: s.chain.clone(),
        requests: s.requests.clone(),
        incoming_relocations: s.incoming_relocations.clone(),
        outgoing_relocations: s.outgoing_relocations.clone(),
    };
    let r = s.handle_merge(&params, parent);
    assert!(r.is_empty());
    assert!(sections_equal(&s, &snapshot));
}

#[test]
fn splitting_section_forwards_every_request() {
    let params = base_params();
    let p = Prefix { bits: 0, len: 1 };
    let mut s = Section::new(p);
    s.state = State::Splitting;
    let req = Request::Dead(3);
    let r = s.receive(req);
    assert_eq!(r.len(), 1);
    match &r[0] {
        Response::Send(target, Request::Dead(3)) => assert_eq!(*target, p),
        other => panic!("expected a forward, got {:?}", other),
    }
    let _ = params;
}

fn relocation_params() -> Params {
    Params {
        group_size: 1,
        init_age: 1,
        adult_age: 1,
        max_section_size: 60,
        max_relocation_attempts: 25,
        max_infants_per_section: 1,
        seed: Seed { s0: 1, s1: 2, s2: 3, s3: 4 },
    }
}

#[test]
fn relocation_accept_path_moves_node_with_age_incremented() {
    let params = relocation_params();
    let mut rng = seeded_rng();
    let p0 = Prefix { bits: 0, len: 1 };
    let p1 = Prefix { bits: 0x8000_0000_0000_0000, len: 1 };
    let mut a = Section::new(p0);
    // Two resident adults of age 1; the joining adult makes three, which
    // exceeds group_size = 1, so a relocation attempt fires.
    a.receive(Request::Live(Node::new(10, 1)));
    a.receive(Request::Live(Node::new(20, 1)));
    let r = a.handle_requests(&params, &mut rng);
    // With two adults the surplus rule (adults > group_size) already lets a
    // relocation fire for the second Live; accept whatever happened, then
    // clear the cache to study the next join in isolation.
    drop(r);
    a.outgoing_relocations.clear();
    let joiner = Node::new(30, 1);
    a.receive(Request::Live(joiner));
    let r = a.handle_requests(&params, &mut rng);
    assert_eq!(r.len(), 1, "an adult join above the surplus line emits one request");
    let (dst, node_name) = match &r[0] {
        Response::RelocateRequest { src, dst, node_name } => {
            assert_eq!(*src, p0);
            (*dst, *node_name)
        },
        other => panic!("expected a relocation request, got {:?}", other),
    };
    // Replay the documented selection: walk the hash chain from the seeding
    // block until the trailing-zeros test admits the age-1 candidates.
    let mut h = Block::new(Event::Live, 30, 1).hash();
    let mut expected = None;
    for _ in 0..params.max_relocation_attempts {
        if h.trailing_zeros() >= 1 {
            let x = 10u64 ^ 20 ^ 30;
            let mut best = 10u64;
            for cand in [20u64, 30] {
                if (cand ^ x) < (best ^ x) {
                    best = cand;
                }
            }
            expected = Some((h.to_u64(), best));
            break;
        }
        h = h.rehash();
    }
    let (exp_dst, exp_name) = expected.expect("some attempt admits the age-1 candidates");
    assert_eq!(dst, exp_dst);
    assert_eq!(node_name, exp_name);
    assert!(a.outgoing_relocations.contains(&node_name));

    // The destination section reserves capacity and accepts.
    let mut b = Section::new(p1);
    let r = b.handle_relocate_request(&params, p0, dst, node_name);
    assert_eq!(r.len(), 1);
    assert!(matches!(&r[0], Response::Send(_, Request::RelocateAccept { .. })));
    // While the hand-off is in flight, the source's outgoing entry has its
    // matching incoming reservation at the destination.
    assert!(a.outgoing_relocations.contains(&node_name));
    assert!(b.incoming_relocations.iter().any(|e| e.0 == node_name && e.1 == dst));

    // The source extracts the node with its age incremented.
    let r = a.handle_relocate_accept(dst, node_name);
    assert_eq!(r.len(), 1);
    let node = match &r[0] {
        Response::Relocate { dst: d, node } => {
            assert_eq!(*d, dst);
            assert_eq!(node.name, node_name);
            assert_eq!(node.age, 2);
            *node
        },
        other => panic!("expected a relocation, got {:?}", other),
    };
    assert!(!a.outgoing_relocations.contains(&node_name));
    assert!(!a.nodes.iter().any(|n| n.name == node_name));

    // The destination consumes the reservation and admits the renamed node.
    let r = b.handle_relocate(&params, &mut rng, dst, node);
    drop(r);
    assert!(b.incoming_relocations.is_empty());
    assert_eq!(b.nodes.len(), 1);
    assert_eq!(b.nodes[0].age, 2);
    assert!(p1.matches(b.nodes[0].name));
}

#[test]
fn relocation_reject_rehashes_and_retries() {
    let params = relocation_params();
    let mut rng = seeded_rng();
    let p0 = Prefix { bits: 0, len: 1 };
    let p1 = Prefix { bits: 0x8000_0000_0000_0000, len: 1 };
    let mut a = Section::new(p0);
    a.receive(Request::Live(Node::new(10, 1)));
    a.receive(Request::Live(Node::new(20, 1)));
    let _ = a.handle_requests(&params, &mut rng);
    a.outgoing_relocations.clear();
    a.receive(Request::Live(Node::new(30, 1)));
    let r = a.handle_requests(&params, &mut rng);
    assert_eq!(r.len(), 1);
    let (dst, node_name) = match &r[0] {
        Response::RelocateRequest { dst, node_name, .. } => (*dst, *node_name),
        other => panic!("expected a relocation request, got {:?}", other),
    };
    // A destination already holding a reservation declines.
    let mut b = Section::new(p1);
    b.incoming_relocations.push((999, 7));
    let r = b.handle_relocate_request(&params, p0, dst, node_name);
    assert_eq!(r.len(), 1);
    assert!(matches!(&r[0], Response::Send(_, Request::RelocateReject { .. })));
    // The source rehashes the destination and asks again.
    let r = a.handle_relocate_reject(dst, node_name);
    assert_eq!(r.len(), 1);
    match &r[0] {
        Response::RelocateRequest { src, dst: new_dst, node_name: nn } => {
            assert_eq!(*src, p0);
            assert_eq!(*nn, node_name);
            assert_eq!(*new_dst, Digest::from_u64(dst).rehash().to_u64());
            assert_ne!(*new_dst, dst);
        },
        other => panic!("expected a retried request, got {:?}", other),
    }
    // Once the entry is gone, a late reject produces nothing.
    a.outgoing_relocations.clear();
    let r = a.handle_relocate_reject(dst, node_name);
    assert!(r.is_empty());
}

#[test]
fn elders_are_exactly_the_top_group_by_age_then_name() {
    let params = Params { group_size: 3, ..base_params() };
    let mut s = Section::new(Prefix::empty());
    let ages = [(1u64, 9u64), (2, 9), (3, 9), (4, 5), (5, 9), (6, 2)];
    for (name, age) in ages {
        s.nodes.push(Node::new(name, age));
    }
    let _ = s.update_elders(&params, false);
    // Top three by (age desc, name desc): (9,5), (9,3), (9,2).
    let elder_names: Vec<u64> = s.nodes.iter().filter(|n| n.elder).map(|n| n.name).collect();
    assert_eq!(elder_names.len(), 3);
    assert!(elder_names.contains(&5));
    assert!(elder_names.contains(&3));
    assert!(elder_names.contains(&2));
}

#[test]
fn merge_unions_two_sections() {
    let params = base_params();
    let mut rng = seeded_rng();
    let parent = Prefix::empty();
    let p0 = Prefix { bits: 0, len: 1 };
    let p1 = Prefix { bits: 0x8000_0000_0000_0000, len: 1 };
    let mut s0 = Section::new(p0);
    let mut s1 = Section::new(p1);
    for i in 0..7u64 {
        s0.receive(Request::Live(Node::new(i + 1, 300)));
        s1.receive(Request::Live(Node::new(0x8000_0000_0000_0000 + i, 300)));
    }
    let _ = s0.handle_requests(&params, &mut rng);
    let _ = s1.handle_requests(&params, &mut rng);
    assert_eq!(s1.nodes.len(), 7);
    let r0 = s0.handle_merge(&params, parent);
    let r1 = s1.handle_merge(&params, parent);
    let m0 = match r0.into_iter().next().unwrap() {
        Response::Merge(sec, old) => {
            assert_eq!(old, p0);
            sec
        },
        other => panic!("expected a merge, got {:?}", other),
    };
    let m1 = match r1.into_iter().next().unwrap() {
        Response::Merge(sec, old) => {
            assert_eq!(old, p1);
            sec
        },
        other => panic!("expected a merge, got {:?}", other),
    };
    let mut merged = m0;
    merged.merge(&params, m1);
    assert_eq!(merged.prefix, parent);
    assert_eq!(merged.nodes.len(), 14);
}
