use overlay_sim::message::{Request, Response};
use overlay_sim::network::{Network, SimError, TickStats};
use overlay_sim::node::Node;
use overlay_sim::params::{Params, Seed};
use overlay_sim::prefix::Prefix;
use overlay_sim::rng::Rng;
use overlay_sim::section::Section;

fn net_params() -> Params {
    Params {
        group_size: 8,
        init_age: 4,
        adult_age: 5,
        max_section_size: 60,
        max_relocation_attempts: 25,
        max_infants_per_section: 1,
        seed: Seed { s0: 11, s1: 12, s2: 13, s3: 14 },
    }
}

fn filled_sibling_sections(params: &Params, n0: u64, n1: u64) -> (Section, Section) {
    let mut rng = Rng::new(Seed { s0: 5, s1: 6, s2: 7, s3: 8 });
    let p0 = Prefix { bits: 0, len: 1 };
    let p1 = Prefix { bits: 0x8000_0000_0000_0000, len: 1 };
    let mut s0 = Section::new(p0);
    let mut s1 = Section::new(p1);
    for i in 0..n0 {
        s0.receive(Request::Live(Node::new(i + 1, 300)));
    }
    for i in 0..n1 {
        s1.receive(Request::Live(Node::new(0x8000_0000_0000_0000 + i, 300)));
    }
    let _ = s0.handle_requests(params, &mut rng);
    let _ = s1.handle_requests(params, &mut rng);
    (s0, s1)
}

#[test]
fn new_network_has_one_root_section() {
    let n = Network::new(net_params());
    assert_eq!(n.sections.len(), 1);
    assert_eq!(n.sections[0].prefix, Prefix::empty());
    assert!(n.failure.is_none());
}

#[test]
fn split_response_replaces_parent_with_children() {
    let params = net_params();
    let mut n = Network::new(params);
    let (s0, s1) = filled_sibling_sections(&params, 7, 7);
    let mut t = TickStats::new();
    let ok = n.handle_responses(
        vec![Response::Split(s0, s1, Prefix::empty())],
        &mut t,
    );
    assert!(ok);
    assert_eq!(t.splits, 1);
    assert_eq!(n.sections.len(), 2);
    let prefixes: Vec<Prefix> = n.sections.iter().map(|s| s.prefix).collect();
    assert!(prefixes.contains(&Prefix { bits: 0, len: 1 }));
    assert!(prefixes.contains(&Prefix { bits: 0x8000_0000_0000_0000, len: 1 }));
    assert!(!prefixes.contains(&Prefix::empty()));
}

#[test]
fn split_into_existing_prefix_is_fatal() {
    let params = net_params();
    let mut n = Network::new(params);
    let (s0, s1) = filled_sibling_sections(&params, 7, 7);
    let mut t = TickStats::new();
    let ok = n.handle_responses(vec![Response::Split(s0, s1, Prefix::empty())], &mut t);
    assert!(ok);
    let (s0b, s1b) = filled_sibling_sections(&params, 7, 7);
    let ok = n.handle_responses(vec![Response::Split(s0b, s1b, Prefix::empty())], &mut t);
    assert!(!ok);
    assert_eq!(n.failure, Some(SimError::SectionExists));
}

#[test]
fn dead_below_group_size_merges_siblings_into_parent() {
    let params = net_params();
    let mut n = Network::new(params);
    let (s0, s1) = filled_sibling_sections(&params, 7, 7);
    let mut t = TickStats::new();
    let ok = n.handle_responses(vec![Response::Split(s0, s1, Prefix::empty())], &mut t);
    assert!(ok);
    // A departure leaves one sibling with 6 < 8 adults; the routed merge
    // instructions materialize the parent holding all 13 nodes.
    let p0 = Prefix { bits: 0, len: 1 };
    let ok = n.handle_responses(vec![Response::Send(p0, Request::Dead(1))], &mut t);
    assert!(ok);
    let ok = n.handle_messages(&mut t);
    assert!(ok, "message loop reaches quiescence");
    assert_eq!(n.sections.len(), 1);
    assert_eq!(n.sections[0].prefix, Prefix::empty());
    assert_eq!(n.sections[0].nodes.len(), 13);
    assert!(t.merges >= 1);
}

#[test]
fn request_to_vanished_parent_reaches_the_matching_child() {
    let params = net_params();
    let mut n = Network::new(params);
    let (s0, s1) = filled_sibling_sections(&params, 7, 7);
    let mut t = TickStats::new();
    let ok = n.handle_responses(vec![Response::Split(s0, s1, Prefix::empty())], &mut t);
    assert!(ok);
    // A relocation request addressed by destination name: the parent is
    // gone, so delivery must pick the child matching the destination.
    let dst = 0x9000_0000_0000_0000u64;
    let ok = n.handle_responses(
        vec![Response::RelocateRequest { src: Prefix { bits: 0, len: 1 }, dst, node_name: 42 }],
        &mut t,
    );
    assert!(ok);
    let p1 = Prefix { bits: 0x8000_0000_0000_0000, len: 1 };
    let target = n.sections.iter().find(|s| s.prefix == p1).unwrap();
    assert_eq!(target.requests.len(), 1);
    let other = n.sections.iter().find(|s| s.prefix == (Prefix { bits: 0, len: 1 })).unwrap();
    assert_eq!(other.requests.len(), 0);
}

#[test]
fn tick_rejects_leftover_incoming_relocations() {
    let params = net_params();
    let mut n = Network::new(params);
    n.sections[0].incoming_relocations.push((1, 2));
    let ok = n.tick(0);
    assert!(!ok);
    assert_eq!(n.failure, Some(SimError::IncomingAtTickStart));
}

#[test]
fn tick_runs_and_records_stats() {
    let params = net_params();
    let mut n = Network::new(params);
    for i in 0..20u64 {
        let ok = n.tick(i);
        assert!(ok, "tick {} failed with {:?}", i, n.failure);
        assert!(n.sections[0].incoming_relocations.is_empty() || n.sections.len() > 1);
    }
    assert_eq!(n.stats().ticks, 20);
    assert!(n.stats().nodes > 0);
    let d = n.age_dist();
    assert!(d.count > 0);
    assert!(d.min >= 1);
    let p = n.prefix_len_dist();
    assert_eq!(p.count, n.sections.len() as u64);
}

#[test]
fn oversized_section_fails_the_size_check() {
    let params = Params { max_section_size: 3, ..net_params() };
    let mut n = Network::new(params);
    for i in 0..4u64 {
        n.sections[0].nodes.push(Node::new(i, 300));
    }
    assert!(!n.check_section_sizes());
    n.sections[0].nodes.pop();
    assert!(n.check_section_sizes());
}
