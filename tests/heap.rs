use avl_trees::heap::{Heap, OutlineLine};
use rand::{Rng, SeedableRng};

#[test]
fn heap_test() {
    let mut heap = Heap::new();
    for v in [4, 2, 1, 3, 5, 7, 9, 6] {
        heap.push(v);
    }
    while let Some(_) = heap.pop() {}
}

#[test]
fn heap_big_test() {
    let mut rng = rand::rngs::StdRng::seed_from_u64(42);
    let mut heap = Heap::new();
    let mut expected = Vec::new();

    for _ in 0..10000 {
        let x: u64 = rng.gen();
        heap.push(x);
        expected.push(x);
    }
    expected.sort();
    expected.reverse();

    let mut actual = Vec::new();
    while let Some(x) = heap.pop() {
        actual.push(x);
    }
    assert_eq!(actual, expected);
}

#[test]
fn heap_pops_in_descending_order_with_duplicates() {
    let mut heap = Heap::new();
    assert_eq!(heap.peek(), None);
    assert_eq!(heap.pop(), None);
    for v in [4, 2, 9, 4, 7, 9, 1] {
        heap.push(v);
    }
    assert_eq!(heap.peek(), Some(&9));
    let mut out = Vec::new();
    while let Some(x) = heap.pop() {
        out.push(x);
    }
    assert_eq!(out, vec![9, 9, 7, 4, 4, 2, 1]);
    assert_eq!(heap.peek(), None);
}

#[test]
fn heap_check_holds_throughout() {
    let mut heap = Heap::new();
    for v in [3, 1, 4, 1, 5, 9, 2, 6] {
        heap.push(v);
        assert!(heap.check());
    }
    while heap.pop().is_some() {
        assert!(heap.check());
    }
}

#[test]
fn heap_outline_follows_positions() {
    let mut heap = Heap::new();
    heap.push(1);
    heap.push(5);
    assert_eq!(
        heap.outline(),
        vec![
            OutlineLine::Node { depth: 0, key: 5 },
            OutlineLine::Node { depth: 1, key: 1 },
            OutlineLine::Empty { parent_depth: Some(1) },
            OutlineLine::Empty { parent_depth: Some(1) },
            OutlineLine::Empty { parent_depth: Some(0) },
        ]
    );
}

#[test]
fn heap_default_is_empty() {
    let mut heap: Heap = Default::default();
    assert_eq!(heap.pop(), None);
}
