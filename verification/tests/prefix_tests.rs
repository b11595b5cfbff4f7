use overlay_sim::prefix::Prefix;

fn p(bits: u64, len: u64) -> Prefix {
    Prefix { bits, len }
}

#[test]
fn empty_prefix_matches_everything() {
    let e = Prefix::empty();
    assert!(e.matches(0));
    assert!(e.matches(u64::MAX));
    assert!(e.matches(0x8000_0000_0000_0000));
}

#[test]
fn matches_checks_top_bits() {
    let one = p(0x8000_0000_0000_0000, 1);
    assert!(one.matches(u64::MAX));
    assert!(one.matches(0x8000_0000_0000_0001));
    assert!(!one.matches(0));
    assert!(!one.matches(0x7fff_ffff_ffff_ffff));
    let zero = p(0, 1);
    assert!(zero.matches(0));
    assert!(zero.matches(0x7fff_ffff_ffff_ffff));
    assert!(!zero.matches(0x8000_0000_0000_0000));
}

#[test]
fn split_produces_the_two_children() {
    let e = Prefix::empty();
    let (c0, c1) = e.split();
    assert_eq!(c0, p(0, 1));
    assert_eq!(c1, p(0x8000_0000_0000_0000, 1));
    let (d0, d1) = c1.split();
    assert_eq!(d0, p(0x8000_0000_0000_0000, 2));
    assert_eq!(d1, p(0xc000_0000_0000_0000, 2));
}

#[test]
fn split_partitions_names() {
    let e = p(0x8000_0000_0000_0000, 1);
    let (c0, c1) = e.split();
    for name in [0x8000_0000_0000_0000u64, 0x9234_5678_0000_0000, 0xc000_0000_0000_0000, u64::MAX]
    {
        assert!(e.matches(name));
        assert!(c0.matches(name) ^ c1.matches(name));
    }
    assert!(!c0.matches(0x7000_0000_0000_0000) && !c1.matches(0x7000_0000_0000_0000));
}

#[test]
fn sibling_and_shorten() {
    let q = p(0xc000_0000_0000_0000, 2);
    assert_eq!(q.sibling(), p(0x8000_0000_0000_0000, 2));
    assert_eq!(q.shorten(), p(0x8000_0000_0000_0000, 1));
    assert_eq!(q.sibling().sibling(), q);
}

#[test]
fn is_ancestor_includes_equality() {
    let a = p(0x8000_0000_0000_0000, 1);
    let b = p(0xc000_0000_0000_0000, 2);
    assert!(a.is_ancestor(&a));
    assert!(a.is_ancestor(&b));
    assert!(!b.is_ancestor(&a));
    assert!(Prefix::empty().is_ancestor(&a));
    assert!(!a.is_ancestor(&Prefix::empty()));
}

#[test]
fn substituted_in_lands_under_the_prefix() {
    let a = p(0xc000_0000_0000_0000, 2);
    let r = a.substituted_in(0x1234_5678_9abc_def0);
    assert!(a.matches(r));
    assert_eq!(r, 0xd234_5678_9abc_def0);
    assert_eq!(Prefix::empty().substituted_in(42), 42);
}
