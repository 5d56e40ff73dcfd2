use roaring::bitmap::store::Store;
use roaring::RoaringBitmap;

#[test]
fn insert_contains_remove() {
    let mut b = RoaringBitmap::new();
    assert!(b.is_empty());
    assert!(b.insert(7));
    assert!(!b.insert(7));
    assert!(b.insert(u32::MAX));
    assert!(b.insert(65_536));
    assert!(b.contains(7));
    assert!(b.contains(u32::MAX));
    assert!(b.contains(65_536));
    assert!(!b.contains(8));
    assert!(!b.contains(65_537));
    assert!(b.remove(7));
    assert!(!b.remove(7));
    assert!(!b.contains(7));
    assert!(b.remove(65_536));
    assert!(b.remove(u32::MAX));
    assert!(b.is_empty());
}

#[test]
fn full_bitmap() {
    let mut b = RoaringBitmap::full();
    assert!(b.is_full());
    assert!(b.contains(0));
    assert!(b.contains(123_456_789));
    assert!(!b.insert(42));
    assert!(b.remove(42));
    assert!(!b.is_full());
    assert!(!b.contains(42));
    assert!(b.contains(43));
    assert!(b.insert(42));
    assert!(b.is_full());
    assert!(!RoaringBitmap::new().is_full());
}

#[test]
fn filling_a_container_makes_it_full() {
    let mut s = Store::new();
    for v in 0..=u16::MAX {
        assert!(s.insert(v));
    }
    assert!(s.is_full());
    assert!(matches!(s, Store::Full));
    assert!(s.remove(9));
    assert!(!s.contains(9));
    assert!(s.contains(10));
    assert!(!s.is_full());
}

#[test]
fn equality_and_clone() {
    let mut a = RoaringBitmap::new();
    a.insert(3);
    a.insert(300_000);
    let b = a.clone();
    assert!(a == b);
    let mut c = RoaringBitmap::new();
    c.insert(300_000);
    assert!(a != c);
    c.insert(3);
    assert!(a == c);
}

#[test]
fn store_set_operations() {
    let mut a = Store::new();
    let mut b = Store::new();
    for v in [1u16, 5, 9] {
        a.insert(v);
    }
    for v in [2u16, 5, 10] {
        b.insert(v);
    }
    assert!(!a.is_disjoint(&b));
    assert!(!a.is_subset(&b));
    b.remove(5);
    assert!(a.is_disjoint(&b));
    b.insert(1);
    b.insert(5);
    b.insert(9);
    assert!(a.is_subset(&b));
    assert!(a.is_subset(&Store::Full));
    assert!(!Store::Full.is_subset(&a));
    assert!(Store::Full.is_disjoint(&Store::new()));
}

#[test]
fn iterates_in_increasing_order() {
    let mut b = RoaringBitmap::new();
    for v in [70_000u32, 5, 1, u32::MAX, 65_535] {
        b.insert(v);
    }
    let mut it = b.iter();
    let mut out = Vec::new();
    while let Some(v) = it.next() {
        out.push(v);
    }
    assert_eq!(out, vec![1, 5, 65_535, 70_000, u32::MAX]);
    assert_eq!(it.next(), None);
}

#[test]
fn full_container_iteration_runs_through_every_low_half() {
    let b = RoaringBitmap::full();
    let mut it = b.iter();
    for expected in 0u32..70_000 {
        assert_eq!(it.next(), Some(expected));
    }
}
