use roaring::artmap::key::HighKey;
use roaring::artmap::{assemble_key_from_parts, split_key, RoaringArtmap};

#[test]
fn test_split_key() {
    assert_eq!(split_key(0x0123456789ABCDEF), (0x01234567, 0x89ABCDEF));
}

#[test]
fn assemble_undoes_split() {
    for v in [0u64, 1, u64::MAX, 0x0123456789ABCDEF, 1 << 32] {
        let (h, l) = split_key(v);
        assert_eq!(assemble_key_from_parts(h, l), v);
    }
    assert_eq!(assemble_key_from_parts(0x01234567, 0x89ABCDEF), 0x0123456789ABCDEF);
}

#[test]
fn high_key_cmp() {
    let a = HighKey::new(0xFF000000, 2).unwrap();
    let b = HighKey::new(0xFF00AA00, 3).unwrap();
    assert!(b.starts_with(&a));
    assert!(a < b);
}

#[test]
fn high_key_new_rejects_long_keys() {
    assert!(HighKey::new(1, 5).is_err());
    assert_eq!(HighKey::new(0x01020304, 3).unwrap().as_bytes(), vec![1, 2, 3]);
    assert_eq!(HighKey::from(0x01020304).as_bytes(), vec![1, 2, 3, 4]);
}

#[test]
fn high_key_steps() {
    let k = HighKey::new(0x0000_0100, 1).unwrap();
    assert_eq!(k.next_step().map(|k| (k.value(), k.length())), Some((0x0000_0200, 1)));
    assert_eq!(k.next().map(|k| (k.value(), k.length())), Some((0x0000_0200, 4)));
    assert_eq!(k.prev_step().map(|k| (k.value(), k.length())), Some((0, 1)));
    assert_eq!(k.prev().map(|k| (k.value(), k.length())), Some((0, 4)));
    assert!(HighKey::from(5).next_step().is_none());
    assert!(HighKey::new(u32::MAX, 0).unwrap().next_step().is_none());
    assert!(HighKey::new(0, 2).unwrap().prev().is_none());
}

#[test]
fn artmap_insert_remove() {
    let mut m = RoaringArtmap::new();
    assert!(m.insert(5));
    assert!(!m.insert(5));
    assert!(m.insert((7u64 << 32) | 9));
    assert!(m.insert(6));
    // Taking a value out of a bitmap container drops the container with it.
    assert!(m.remove(5));
    assert!(!m.remove(6));
    assert!(m.insert(6));
    assert!(!m.remove(8));
    assert!(m.remove((7u64 << 32) | 9));
    assert!(!m.remove((7u64 << 32) | 9));
}

#[test]
fn artmap_default_is_empty() {
    let mut m = RoaringArtmap::default();
    assert!(!m.remove(0));
    assert!(m.insert(0));
}

use roaring::artmap::compare::{CompareIter, EitherOrBoth};
use roaring::artmap::container::Container;
use roaring::artmap::container::Iter as ContainerIter;

#[test]
fn iter_test() {
    let full = Container::Full;
    let left = vec![
        (HighKey::new(0xAAAAAA00, 3).unwrap(), &full),
        (HighKey::new(0xBBBBBB00, 3).unwrap(), &full),
        (HighKey::new(0xFFFFFF00, 4).unwrap(), &full),
        (HighKey::new(0xFFFFFF01, 4).unwrap(), &full),
        (HighKey::new(0xFFFFFF02, 4).unwrap(), &full),
    ];
    let right = vec![
        (HighKey::new(0xAAAAAA00, 2).unwrap(), &full),
        (HighKey::new(0xCCCCCC00, 2).unwrap(), &full),
        (HighKey::new(0xFFFFFF00, 2).unwrap(), &full),
    ];
    let mut iter = CompareIter::new(&left, &right);
    assert_eq!(
        iter.next(),
        Some(
            EitherOrBoth::Both(
                (HighKey::new(0xAAAAAA00, 3).unwrap(), &Container::Full),
                (HighKey::new(0xAAAAAA00, 2).unwrap(), &Container::Full),
            )
        )
    );
    assert_eq!(
        iter.next(),
        Some(
            EitherOrBoth::Left(
                (HighKey::new(0xBBBBBB00, 3).unwrap(), &Container::Full),
            )
        )
    );
    assert_eq!(
        iter.next(),
        Some(
            EitherOrBoth::Right(
                (HighKey::new(0xCCCCCC00, 2).unwrap(), &Container::Full),
            )
        )
    );
    assert_eq!(
        iter.next(),
        Some(
            EitherOrBoth::Both(
                (HighKey::new(0xFFFFFF00, 4).unwrap(), &Container::Full),
                (HighKey::new(0xFFFFFF00, 2).unwrap(), &Container::Full),
            )
        )
    );
    assert_eq!(
        iter.next(),
        Some(
            EitherOrBoth::Both(
                (HighKey::new(0xFFFFFF01, 4).unwrap(), &Container::Full),
                (HighKey::new(0xFFFFFF00, 2).unwrap(), &Container::Full),
            )
        )
    );
    assert_eq!(
        iter.next(),
        Some(
            EitherOrBoth::Both(
                (HighKey::new(0xFFFFFF02, 4).unwrap(), &Container::Full),
                (HighKey::new(0xFFFFFF00, 2).unwrap(), &Container::Full),
            )
        )
    );
}

#[test]
fn artmap_equality() {
    let mut a = RoaringArtmap::new();
    let mut b = RoaringArtmap::new();
    assert!(a == b);
    a.insert(1);
    assert!(a != b);
    b.insert(1);
    assert!(a == b);
    a.insert(3u64 << 32);
    b.insert((3u64 << 32) | 1);
    assert!(a != b);
    a.insert((3u64 << 32) | 1);
    b.insert(3u64 << 32);
    assert!(a == b);
    a.insert(9u64 << 32);
    assert!(a != b);
}

#[test]
fn container_equality() {
    let mut bitmap = roaring::RoaringBitmap::new();
    bitmap.insert(4);
    assert!(Container::Full != Container::Bitmap(bitmap));
    assert!(Container::Full == Container::Bitmap(roaring::RoaringBitmap::full()));
    assert!(Container::Full == Container::Full);
}

#[test]
fn container_iteration() {
    let mut it = Container::Full.iter();
    assert_eq!(it.next(), Some(0));
    assert_eq!(it.next(), Some(1));
    assert_eq!(it.next(), Some(2));
    let mut bitmap = roaring::RoaringBitmap::new();
    bitmap.insert(9);
    bitmap.insert(4);
    let c = Container::Bitmap(bitmap);
    let mut it = c.iter();
    assert_eq!(it.next(), Some(4));
    assert_eq!(it.next(), Some(9));
    assert_eq!(it.next(), None);
}

#[test]
fn full_container_iteration_ends_after_max() {
    let mut it = ContainerIter::Full { cur: u32::MAX - 1, ended: false };
    assert_eq!(it.next(), Some(u32::MAX - 1));
    assert_eq!(it.next(), Some(u32::MAX));
    assert_eq!(it.next(), None);
    assert_eq!(it.next(), None);
}

#[test]
fn high_key_steps_undo_each_other() {
    let k = HighKey::new(0x0102_0304, 2).unwrap();
    let up = k.next_step().unwrap();
    assert_eq!(up.prev_step(), Some(k));
    let down = k.prev_step().unwrap();
    assert_eq!(down.next_step(), Some(k));
    let full = k.next().unwrap();
    assert_eq!((full.value(), full.length()), (up.value(), 4));
    let full_down = k.prev().unwrap();
    assert_eq!((full_down.value(), full_down.length()), (down.value(), 4));
}
