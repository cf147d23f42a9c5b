use avl_trees::treap::{OutlineLine, Treap};
use rand::seq::IteratorRandom;
use rand::{Rng, SeedableRng};
use std::collections::HashSet;

fn walk(t: &Treap) -> Vec<u64> {
    let mut v = Vec::new();
    let mut it = t.iter();
    while let Some(&x) = it.next() {
        v.push(x);
    }
    v
}

#[test]
fn treap_test() {
    let mut tree = Treap::new();

    // add some
    for x in [5, 4, 2, 3, 9, 6, 8] {
        tree.insert(x);
        assert!(tree.contains(x));
    }
    assert_eq!(walk(&tree), vec![2, 3, 4, 5, 6, 8, 9]);

    // remove some
    for x in [5, 4, 2, 3, 9, 6, 8] {
        tree.remove(x);
        assert!(tree.check());
        assert!(!tree.contains(x));
    }
    assert_eq!(walk(&tree), Vec::<u64>::new());
}

#[test]
fn treap_big_test() {
    let mut rng = rand::rngs::StdRng::seed_from_u64(42);
    let mut tree = Treap::new();
    let mut expected = HashSet::new();

    // try to unbalance the tree
    for x in 0..10000 {
        tree.insert(x);
        expected.insert(x);
    }

    // add some more
    for _ in 0..10000 {
        let x: u64 = rng.gen();
        tree.insert(x);
        expected.insert(x);
    }
    let actual: HashSet<_> = walk(&tree).into_iter().collect();
    assert_eq!(actual, expected);

    // remove some
    for _ in 0..1000 {
        let x: u64 = *expected.iter().choose(&mut rng).unwrap();
        tree.remove(x);
        expected.remove(&x);
    }
    let actual: HashSet<_> = walk(&tree).into_iter().collect();
    assert_eq!(actual, expected);
}

#[test]
fn treap_consuming_walk() {
    let mut tree = Treap::new();
    for x in [10, 3, 7, 3, 1] {
        tree.insert(x);
    }
    let mut v = Vec::new();
    let mut it = tree.into_iter();
    while let Some(x) = it.next() {
        v.push(x);
    }
    assert_eq!(v, vec![1, 3, 7, 10]);
}

#[test]
fn treap_check_holds_throughout() {
    let mut tree = Treap::new();
    for x in [50, 20, 80, 10, 30, 70, 90, 60] {
        tree.insert(x);
        assert!(tree.check());
    }
    for x in [50, 10, 90, 42] {
        tree.remove(x);
        assert!(tree.check());
    }
    assert_eq!(walk(&tree), vec![20, 30, 60, 70, 80]);
}

#[test]
fn treap_given_priorities_fix_the_shape() {
    let mut tree = Treap::new();
    tree.insert_with_priority(5, 10);
    tree.insert_with_priority(3, 20);
    tree.insert_with_priority(8, 5);
    tree.insert_with_priority(3, 99);
    assert_eq!(
        tree.outline(),
        vec![
            OutlineLine::Node { depth: 0, key: 3 },
            OutlineLine::Empty { parent_depth: Some(0) },
            OutlineLine::Node { depth: 1, key: 5 },
            OutlineLine::Empty { parent_depth: Some(1) },
            OutlineLine::Node { depth: 2, key: 8 },
            OutlineLine::Empty { parent_depth: Some(2) },
            OutlineLine::Empty { parent_depth: Some(2) },
        ]
    );
    let before = tree.outline();
    tree.remove(4);
    assert_eq!(tree.outline(), before);
    tree.remove(3);
    assert!(tree.check());
    assert_eq!(walk(&tree), vec![5, 8]);
}
