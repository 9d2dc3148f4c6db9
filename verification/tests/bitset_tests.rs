use archetype_ecs::bitset::BitSet;

fn ones(b: &BitSet) -> Vec<usize> {
    let mut it = b.ones();
    let mut out = Vec::new();
    while let Some(i) = it.next() {
        out.push(i);
    }
    out
}

#[test]
fn set_contains_and_grow() {
    let mut b = BitSet::with_capacity(10);
    assert!(!b.contains(3));
    b.set(3);
    b.set(200);
    assert!(b.contains(3));
    assert!(b.contains(200));
    assert!(!b.contains(199));
    assert_eq!(ones(&b), vec![3, 200]);
}

#[test]
fn ones_come_out_in_increasing_order() {
    let mut b = BitSet::default();
    for i in [130usize, 0, 64, 63, 5] {
        b.set(i);
    }
    assert_eq!(ones(&b), vec![0, 5, 63, 64, 130]);
    assert!(ones(&BitSet::with_capacity(0)).is_empty());
}

#[test]
fn intersects_only_on_shared_bits() {
    let mut a = BitSet::with_capacity(128);
    let mut b = BitSet::with_capacity(64);
    a.set(100);
    b.set(3);
    assert!(!a.intersects(&b));
    b.set(100);
    assert!(a.intersects(&b));
    a.set(3);
    assert!(a.intersects(&b));
}
