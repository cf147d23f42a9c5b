use avl_trees::avl::{Avl, NodeDirection, OutlineLine};
use rand::seq::IteratorRandom;
use rand::{Rng, SeedableRng};
use std::collections::HashSet;

fn build(keys: &[u64]) -> Avl {
    let mut t = Avl::new();
    for &k in keys {
        t.insert(k);
    }
    t
}

fn walk(t: &Avl) -> Vec<u64> {
    let mut v = Vec::new();
    let mut it = t.iter();
    while let Some(&x) = it.next() {
        v.push(x);
    }
    v
}

#[test]
fn avl_test() {
    let mut t = build(&[1, 2, 3, 4, 5, 6, 7, 8, 15, 14, 13, 12, 11, 10, 9]);

    t.remove(8);

    let expected = vec![1, 2, 3, 4, 5, 6, 7, 9, 10, 11, 12, 13, 14, 15];

    let v = walk(&t);
    assert_eq!(v, expected);

    let mut v = Vec::new();
    let mut it = t.iter();
    while let Some(&x) = it.next() {
        v.push(x);
    }
    assert_eq!(v, expected);

    let mut v = Vec::new();
    let mut it = t.into_iter();
    while let Some(x) = it.next() {
        v.push(x);
    }
    assert_eq!(v, expected);
}

#[test]
fn avl_big_test() {
    let mut rng = rand::rngs::StdRng::seed_from_u64(42);
    let mut tree = Avl::new();
    let mut expected = HashSet::new();

    // try to unbalance the tree
    for x in 0..10000 {
        tree.insert(x);
        expected.insert(x);
    }

    // add some more
    for _ in 0..10000 {
        let x: u64 = rng.gen();
        tree.insert(x);
        expected.insert(x);
    }
    let actual: HashSet<_> = walk(&tree).into_iter().collect();
    assert_eq!(actual, expected);

    // remove some
    for _ in 0..1000 {
        let x: u64 = *expected.iter().choose(&mut rng).unwrap();
        tree.remove(x);
        expected.remove(&x);
    }
    let actual: HashSet<_> = walk(&tree).into_iter().collect();
    assert_eq!(actual, expected);
}

#[test]
fn avl_insert_ascending_then_remove_middle() {
    let mut t = build(&(1..=15).collect::<Vec<u64>>());
    t.remove(8);
    assert_eq!(walk(&t), vec![1, 2, 3, 4, 5, 6, 7, 9, 10, 11, 12, 13, 14, 15]);
    assert!(!t.contains(8));
    assert!(t.contains(7) && t.contains(9));
}

#[test]
fn avl_insert_level_order_then_remove_root() {
    let mut t = build(&[8, 4, 2, 1, 3, 6, 5, 7, 12, 10, 9, 11, 14, 13, 15]);
    t.remove(8);
    assert_eq!(walk(&t), vec![1, 2, 3, 4, 5, 6, 7, 9, 10, 11, 12, 13, 14, 15]);
}

#[test]
fn avl_single_key_removed() {
    let mut t = Avl::new();
    t.insert(42);
    assert!(t.contains(42));
    t.remove(42);
    assert!(!t.contains(42));
    assert_eq!(walk(&t), Vec::<u64>::new());
    let mut it = t.into_iter();
    assert_eq!(it.next(), None);
}

#[test]
fn avl_empty_tree() {
    let t = Avl::new();
    assert!(!t.contains(0));
    assert!(!t.contains(u64::MAX));
    assert_eq!(walk(&t), Vec::<u64>::new());
}

#[test]
fn avl_insert_twice_is_idempotent() {
    let mut t = build(&[5, 3, 9]);
    t.insert(3);
    t.insert(3);
    assert_eq!(walk(&t), vec![3, 5, 9]);
    assert!(t.contains(3));
}

#[test]
fn avl_remove_absent_key_is_noop() {
    let mut t = build(&[5, 3, 9]);
    t.remove(4);
    assert_eq!(walk(&t), vec![3, 5, 9]);
}

#[test]
fn avl_membership_follows_history() {
    let mut t = Avl::new();
    t.insert(1);
    t.insert(2);
    t.remove(1);
    t.insert(3);
    t.remove(3);
    t.insert(3);
    assert!(!t.contains(1));
    assert!(t.contains(2));
    assert!(t.contains(3));
    assert!(!t.contains(4));
}

#[test]
fn avl_count_after_distinct_inserts() {
    let keys: Vec<u64> = (0..1000u64).map(|i| (i * 7919) % 1000).collect();
    let t = build(&keys);
    let v = walk(&t);
    assert_eq!(v.len(), 1000);
    assert!(v.windows(2).all(|w| w[0] < w[1]));
}

#[test]
fn avl_extreme_keys() {
    let mut t = build(&[u64::MAX, 0, u64::MAX - 1, 1]);
    assert_eq!(walk(&t), vec![0, 1, u64::MAX - 1, u64::MAX]);
    t.remove(u64::MAX);
    t.remove(0);
    assert_eq!(walk(&t), vec![1, u64::MAX - 1]);
}

#[test]
fn avl_remove_everything_in_mixed_order() {
    let keys: Vec<u64> = (0..200u64).map(|i| (i * 37) % 200).collect();
    let mut t = build(&keys);
    for i in 0..200u64 {
        let k = (i * 53) % 200;
        t.remove(k);
        assert!(!t.contains(k));
        let v = walk(&t);
        assert!(v.windows(2).all(|w| w[0] < w[1]));
        assert_eq!(v.len() as u64, 199 - i);
    }
}

#[test]
fn avl_check_holds_throughout() {
    let mut t = Avl::new();
    for k in (0..64u64).rev() {
        t.insert(k * 3);
        assert!(t.check());
    }
    for k in 0..64u64 {
        t.remove(k * 6);
        assert!(t.check());
    }
    assert_eq!(walk(&t).len(), 32);
}

#[test]
fn avl_outline_of_three_keys() {
    let t = build(&[2, 1, 3]);
    let lines = t.outline();
    assert_eq!(
        lines,
        vec![
            OutlineLine::Node { depth: 0, key: 2, longer_side: NodeDirection::Neither },
            OutlineLine::Node { depth: 1, key: 1, longer_side: NodeDirection::Neither },
            OutlineLine::Empty { parent_depth: Some(1) },
            OutlineLine::Empty { parent_depth: Some(1) },
            OutlineLine::Node { depth: 1, key: 3, longer_side: NodeDirection::Neither },
            OutlineLine::Empty { parent_depth: Some(1) },
            OutlineLine::Empty { parent_depth: Some(1) },
        ]
    );
    assert_eq!(Avl::new().outline(), vec![OutlineLine::Empty { parent_depth: None }]);
}

#[test]
fn avl_rotation_after_ascending_inserts() {
    let t = build(&[1, 2, 3, 4]);
    let lines = t.outline();
    assert_eq!(lines[0], OutlineLine::Node { depth: 0, key: 2, longer_side: NodeDirection::Right });
    assert_eq!(lines[1], OutlineLine::Node { depth: 1, key: 1, longer_side: NodeDirection::Neither });
}

#[test]
fn avl_default_is_empty() {
    let t: Avl = Default::default();
    assert!(!t.contains(1));
    assert_eq!(walk(&t), Vec::<u64>::new());
}

#[test]
fn avl_present_insert_and_absent_remove_change_nothing() {
    let mut t = build(&[4, 2, 6, 1, 3, 5, 7, 8]);
    let before = t.outline();
    t.insert(6);
    assert_eq!(t.outline(), before);
    t.remove(100);
    assert_eq!(t.outline(), before);
}

#[test]
fn avl_double_rotation_makes_grandchild_root() {
    let t = build(&[3, 1, 2]);
    let lines = t.outline();
    assert_eq!(lines[0], OutlineLine::Node { depth: 0, key: 2, longer_side: NodeDirection::Neither });
    assert_eq!(lines[1], OutlineLine::Node { depth: 1, key: 1, longer_side: NodeDirection::Neither });
}
