use avl_trees::impl_treap::{ImplTreap, OutlineLine};
use rand::{Rng, SeedableRng};

fn walk(t: &ImplTreap) -> Vec<u64> {
    let mut v = Vec::new();
    let mut it = t.iter();
    while let Some(&x) = it.next() {
        v.push(x);
    }
    v
}

#[test]
fn impl_treap_test() {
    let mut treap = ImplTreap::new();
    assert!(treap.check());

    for i in 1..10 {
        treap.push(i);
        assert!(treap.check());
    }
    assert_eq!(walk(&treap), vec![1, 2, 3, 4, 5, 6, 7, 8, 9]);

    let mut popped = Vec::new();
    while let Some(x) = treap.pop() {
        popped.push(x);
        assert!(treap.check());
    }
    assert_eq!(popped, vec![9, 8, 7, 6, 5, 4, 3, 2, 1]);
}

#[test]
fn impl_treap_big_test() {
    let mut rng = rand::rngs::StdRng::seed_from_u64(42);
    let mut treap = ImplTreap::new();
    let mut expected = Vec::new();

    // add some
    for _ in 0..10000 {
        let x: u64 = rng.gen();
        treap.push(x);
        assert!(treap.check());
        expected.push(x);
    }
    let actual = walk(&treap);
    assert_eq!(actual, expected);

    // remove some
    for _ in 0..1000 {
        let i = rng.gen_range(0..expected.len() - 1);
        treap.remove(i);
        assert!(treap.check());
        expected.remove(i);
    }
    let actual = walk(&treap);
    assert_eq!(actual, expected);
}

#[test]
fn impl_treap_insert_in_the_middle() {
    let mut treap = ImplTreap::new();
    treap.insert(0, 10);
    treap.insert(1, 30);
    treap.insert(1, 20);
    treap.insert(0, 5);
    treap.insert(4, 40);
    assert!(treap.check());
    assert_eq!(walk(&treap), vec![5, 10, 20, 30, 40]);
    assert_eq!(treap.remove(2), 20);
    assert_eq!(treap.remove(0), 5);
    assert_eq!(walk(&treap), vec![10, 30, 40]);
    assert_eq!(treap.pop(), Some(40));
    assert_eq!(treap.pop(), Some(30));
    assert_eq!(treap.pop(), Some(10));
    assert_eq!(treap.pop(), None);
}

#[test]
fn impl_treap_given_priorities_fix_the_shape() {
    let mut treap = ImplTreap::new();
    treap.insert_with_priority(0, 100, 1);
    treap.insert_with_priority(1, 200, 9);
    treap.insert_with_priority(2, 300, 5);
    assert_eq!(
        treap.outline(),
        vec![
            OutlineLine::Node { depth: 0, value: 200, priority: 9 },
            OutlineLine::Node { depth: 1, value: 100, priority: 1 },
            OutlineLine::Empty { parent_depth: Some(1) },
            OutlineLine::Empty { parent_depth: Some(1) },
            OutlineLine::Node { depth: 1, value: 300, priority: 5 },
            OutlineLine::Empty { parent_depth: Some(1) },
            OutlineLine::Empty { parent_depth: Some(1) },
        ]
    );
    assert_eq!(treap.remove(1), 200);
    assert_eq!(
        treap.outline(),
        vec![
            OutlineLine::Node { depth: 0, value: 300, priority: 5 },
            OutlineLine::Node { depth: 1, value: 100, priority: 1 },
            OutlineLine::Empty { parent_depth: Some(1) },
            OutlineLine::Empty { parent_depth: Some(1) },
            OutlineLine::Empty { parent_depth: Some(0) },
        ]
    );
}
