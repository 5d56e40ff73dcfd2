use roaring::bitmap::{Container, Pairs, ParPairsProducer, ParallelPairs};
use roaring::RoaringBitmap;

#[test]
fn test_split_2() {
    let left = Vec::from_iter([
        Container::new(3),
        Container::new(5),
        Container::new(8),
        Container::new(9),
    ]);
    let right = Vec::from_iter([
        Container::new(0),
        Container::new(1),
        Container::new(3),
        Container::new(5),
        Container::new(7),
        Container::new(8),
    ]);
    let parallel_pairs = ParallelPairs::new(&left, &right);
    let pairs = Pairs::new(&left, &right);
    let par_pars_vec: Vec<_> = parallel_pairs.collect();
    let pairs_vec: Vec<_> = pairs.collect();
    assert_eq!(par_pars_vec, pairs_vec);
}

fn keys(pairs: &[(Option<&Container>, Option<&Container>)]) -> Vec<(Option<u16>, Option<u16>)> {
    pairs.iter().map(|(a, b)| (a.map(|c| c.key), b.map(|c| c.key))).collect()
}

#[test]
fn pairs_follow_key_order() {
    let left: Vec<Container> = [0u16, 1, 3, 5, 7, 8].iter().map(|&k| Container::new(k)).collect();
    let right: Vec<Container> = [3u16, 5, 8, 9].iter().map(|&k| Container::new(k)).collect();
    let pairs = Pairs::new(&left, &right).collect();
    assert_eq!(
        keys(&pairs),
        vec![
            (Some(0), None),
            (Some(1), None),
            (Some(3), Some(3)),
            (Some(5), Some(5)),
            (Some(7), None),
            (Some(8), Some(8)),
            (None, Some(9)),
        ]
    );
}

#[test]
fn pairs_next_ends_with_none() {
    let left: Vec<Container> = vec![Container::new(2)];
    let right: Vec<Container> = vec![];
    let mut pairs = Pairs::new(&left, &right);
    assert_eq!(pairs.next().map(|(a, b)| (a.map(|c| c.key), b.map(|c| c.key))), Some((Some(2), None)));
    assert!(pairs.next().is_none());
    assert!(pairs.next().is_none());
}

#[test]
fn split_of_large_walk_keeps_pairs() {
    let left: Vec<Container> = (0u16..3000).filter(|k| k % 3 != 0).map(Container::new).collect();
    let right: Vec<Container> = (0u16..3000).filter(|k| k % 2 == 0).map(Container::new).collect();
    let producer = ParPairsProducer { left: &left, right: &right };
    let (first, second) = producer.split();
    let second = second.expect("both sides are long enough to be cut");
    // The left side is longer: it is halved, and the right side is cut after the same key.
    assert_eq!(first.left.len(), left.len() / 2);
    let bound = left[left.len() / 2 - 1].key;
    assert!(first.right.iter().all(|c| c.key <= bound));
    assert!(second.right.iter().all(|c| c.key > bound));
    let mut joined = first.into_pairs().collect();
    joined.extend(second.into_pairs().collect());
    assert_eq!(keys(&joined), keys(&Pairs::new(&left, &right).collect()));
    let parallel = ParallelPairs::new(&left, &right).collect();
    assert_eq!(keys(&parallel), keys(&Pairs::new(&left, &right).collect()));
}

#[test]
fn small_walk_is_not_cut() {
    let left: Vec<Container> = (0u16..1024).map(Container::new).collect();
    let right: Vec<Container> = (0u16..10).map(Container::new).collect();
    let producer = ParPairsProducer { left: &left, right: &right };
    let (first, second) = producer.split();
    assert!(second.is_none());
    assert_eq!(first.left.len(), 1024);
}

#[test]
fn walk_without_overlap_left_is_not_cut() {
    let left: Vec<Container> = (0u16..2000).map(Container::new).collect();
    let right: Vec<Container> = (0u16..10).map(Container::new).collect();
    let producer = ParPairsProducer { left: &left, right: &right };
    let (_, second) = producer.split();
    assert!(second.is_none());
}

#[test]
fn is_disjoint_example() {
    let mut rb1 = RoaringBitmap::new();
    let mut rb2 = RoaringBitmap::new();

    rb1.insert(1);

    assert_eq!(rb1.is_disjoint(&rb2), true);

    rb2.insert(1);

    assert_eq!(rb1.is_disjoint(&rb2), false);
}

#[test]
fn is_subset_example() {
    let mut rb1 = RoaringBitmap::new();
    let mut rb2 = RoaringBitmap::new();

    rb1.insert(1);

    assert_eq!(rb1.is_subset(&rb2), false);

    rb2.insert(1);

    assert_eq!(rb1.is_subset(&rb2), true);

    rb1.insert(2);

    assert_eq!(rb1.is_subset(&rb2), false);
}

#[test]
fn is_superset_example() {
    let mut rb1 = RoaringBitmap::new();
    let mut rb2 = RoaringBitmap::new();

    rb1.insert(1);

    assert_eq!(rb2.is_superset(&rb1), false);

    rb2.insert(1);

    assert_eq!(rb2.is_superset(&rb1), true);

    rb1.insert(2);

    assert_eq!(rb2.is_superset(&rb1), false);
}

#[test]
fn comparisons_across_containers() {
    let mut a = RoaringBitmap::new();
    let mut b = RoaringBitmap::new();
    for v in [1u32, 70_000, 5_000_000] {
        a.insert(v);
    }
    for v in [2u32, 70_001, 5_000_000, 9_000_000] {
        b.insert(v);
    }
    assert!(!a.is_disjoint(&b));
    b.remove(5_000_000);
    assert!(a.is_disjoint(&b));
    assert!(!a.is_subset(&b));
    let full = RoaringBitmap::full();
    assert!(a.is_subset(&full));
    assert!(full.is_superset(&b));
    assert!(!full.is_disjoint(&a));
    assert!(RoaringBitmap::new().is_subset(&a));
    assert!(RoaringBitmap::new().is_disjoint(&full));
}

#[test]
fn unsorted_walk_is_not_cut_but_still_walked() {
    let left: Vec<Container> = (0u16..2000).rev().map(Container::new).collect();
    let right: Vec<Container> = (0u16..2000).map(Container::new).collect();
    assert!(!roaring::bitmap::cmp::keys_increasing(&left));
    assert!(roaring::bitmap::cmp::keys_increasing(&right));
    let parallel = ParallelPairs::new(&left, &right).collect();
    assert_eq!(keys(&parallel), keys(&Pairs::new(&left, &right).collect()));
}

#[test]
fn split_takes_any_keys() {
    let small: Vec<Container> = [5u16, 1, 3].iter().map(|&k| Container::new(k)).collect();
    let (first, second) = ParPairsProducer { left: &small, right: &small }.split();
    assert!(second.is_none());
    assert_eq!(first.left.len(), 3);
    let big: Vec<Container> = (0u16..3000).rev().map(Container::new).collect();
    let (first, second) = ParPairsProducer { left: &big, right: &small }.split();
    let joined = first.left.len() + second.map(|s| s.left.len()).unwrap_or(0);
    assert_eq!(joined, big.len());
}

#[test]
fn size_hint_bounds_the_walk() {
    let left: Vec<Container> = [0u16, 1, 3].iter().map(|&k| Container::new(k)).collect();
    let right: Vec<Container> = [3u16, 5].iter().map(|&k| Container::new(k)).collect();
    let pairs = Pairs::new(&left, &right);
    assert_eq!(pairs.size_hint(), (3, Some(5)));
    assert_eq!(pairs.collect().len(), 4);
}
