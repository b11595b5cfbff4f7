use overlay_sim::chain::{Block, Chain, Event};
use overlay_sim::hash::Digest;
use overlay_sim::network::drop_threshold;
use overlay_sim::params::Seed;
use overlay_sim::rng::Rng;
use overlay_sim::stats::{Distribution, Stats};

#[test]
fn digest_reads_low_bits_little_endian() {
    let mut bytes = vec![0u8; 32];
    bytes[0] = 1;
    bytes[9] = 0xff;
    let d = Digest { bytes };
    assert_eq!(d.to_u64(), 1);
    let mut bytes = vec![0u8; 32];
    bytes[7] = 2;
    let d = Digest { bytes };
    assert_eq!(d.to_u64(), 2u64 << 56);
}

#[test]
fn digest_trailing_zeros_counts_over_whole_value() {
    let d = Digest { bytes: vec![0u8; 32] };
    assert_eq!(d.trailing_zeros(), 256);
    let mut bytes = vec![0u8; 32];
    bytes[0] = 4;
    let d = Digest { bytes };
    assert_eq!(d.trailing_zeros(), 2);
    let mut bytes = vec![0u8; 32];
    bytes[2] = 1;
    let d = Digest { bytes };
    assert_eq!(d.trailing_zeros(), 16);
}

#[test]
fn keccak_digest_is_deterministic_and_not_identity() {
    let a = Digest::from_u64(0);
    let b = Digest::from_u64(0);
    assert_eq!(a.to_u64(), b.to_u64());
    assert_ne!(a.to_u64(), 0);
    assert_ne!(a.rehash().to_u64(), a.to_u64());
    assert_ne!(Digest::from_u64(1).to_u64(), a.to_u64());
    assert_eq!(a.bytes.len(), 32);
}

#[test]
fn block_hash_depends_on_every_field() {
    let h = Block::new(Event::Live, 7, 4).hash();
    assert_eq!(h.to_u64(), Block::new(Event::Live, 7, 4).hash().to_u64());
    assert_ne!(h.to_u64(), Block::new(Event::Dead, 7, 4).hash().to_u64());
    assert_ne!(h.to_u64(), Block::new(Event::Live, 8, 4).hash().to_u64());
    assert_ne!(h.to_u64(), Block::new(Event::Live, 7, 5).hash().to_u64());
}

#[test]
fn chain_last_live_finds_most_recent_live() {
    let mut c = Chain::new();
    assert!(c.last_live().is_none());
    c.insert(Event::Dead, 1, 1);
    assert!(c.last_live().is_none());
    c.insert(Event::Live, 2, 5);
    c.insert(Event::Gone, 3, 6);
    let b = c.last_live().unwrap();
    assert_eq!(b.name, 2);
    assert_eq!(b.age, 5);
    c.insert(Event::Live, 9, 7);
    assert_eq!(c.last_live().unwrap().name, 9);
}

#[test]
fn chain_extend_appends() {
    let mut a = Chain::new();
    a.insert(Event::Live, 1, 1);
    let mut b = Chain::new();
    b.insert(Event::Gone, 2, 2);
    a.extend(b);
    assert_eq!(a.blocks.len(), 2);
    assert_eq!(a.blocks[1].name, 2);
}

#[test]
fn rng_is_deterministic_for_a_seed() {
    let seed = Seed { s0: 1, s1: 2, s2: 3, s3: 4 };
    let mut a = Rng::new(seed);
    let mut b = Rng::new(seed);
    for _ in 0..10 {
        assert_eq!(a.next_u64(), b.next_u64());
    }
    let mut c = Rng::new(Seed { s0: 9, s1: 9, s2: 9, s3: 9 });
    let mut d = Rng::new(seed);
    assert_ne!(c.next_u64(), d.next_u64());
}

#[test]
fn rng_survives_all_zero_seed() {
    let mut z = Rng::new(Seed { s0: 0, s1: 0, s2: 0, s3: 0 });
    let x = z.next_u64();
    let y = z.next_u64();
    assert!(x != 0 || y != 0);
}

#[test]
fn drop_threshold_halves_with_age() {
    assert_eq!(drop_threshold(0), u64::MAX);
    assert_eq!(drop_threshold(1), u64::MAX >> 1);
    assert_eq!(drop_threshold(64), 0);
    assert_eq!(drop_threshold(200), 0);
    for a in 0..70u64 {
        assert!(drop_threshold(a + 1) <= drop_threshold(a));
    }
}

#[test]
fn stats_record_accumulates() {
    let mut s = Stats::new();
    s.record(10, 2, 1, 0, 3, 4);
    s.record(12, 3, 1, 1, 0, 1);
    assert_eq!(s.ticks, 2);
    assert_eq!(s.nodes, 12);
    assert_eq!(s.sections, 3);
    assert_eq!(s.merges, 2);
    assert_eq!(s.splits, 1);
    assert_eq!(s.relocations, 3);
    assert_eq!(s.rejections, 5);
}

#[test]
fn distribution_reports_min_max_sum_count() {
    let d = Distribution::new(&vec![5u64, 2, 9, 2]);
    assert_eq!(d.min, 2);
    assert_eq!(d.max, 9);
    assert_eq!(d.sum, 18);
    assert_eq!(d.count, 4);
    let e = Distribution::new(&vec![]);
    assert_eq!(e.min, 0);
    assert_eq!(e.max, 0);
    assert_eq!(e.count, 0);
}
