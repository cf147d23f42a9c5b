use avl_trees::recursive_heap::RecursiveHeap;
use rand::{Rng, SeedableRng};

#[test]
fn recursive_heap_test() {
    let mut heap = RecursiveHeap::new();
    for v in [4, 2, 1, 3, 5, 7, 9, 6] {
        heap.push(v);
    }
    while heap.pop().is_some() {}
}

#[test]
fn recursive_heap_big_test() {
    let mut rng = rand::rngs::StdRng::seed_from_u64(42);
    let mut heap = RecursiveHeap::new();
    let mut expected = Vec::new();

    for _ in 0..10000 {
        let x: u64 = rng.gen();
        heap.push(x);
        expected.push(x);
    }
    expected.sort();
    expected.reverse();

    let mut actual = Vec::new();
    while let Some(x) = heap.pop() {
        actual.push(x);
    }
    assert_eq!(actual, expected);
}

#[test]
fn recursive_heap_descending_with_duplicates() {
    let mut heap = RecursiveHeap::new();
    assert_eq!(heap.peek(), None);
    assert_eq!(heap.pop(), None);
    for v in [4, 2, 9, 4, 7, 9, 1, 0, 3] {
        heap.push(v);
        assert!(heap.check());
    }
    assert_eq!(heap.peek(), Some(&9));
    let mut out = Vec::new();
    while let Some(x) = heap.pop() {
        assert!(heap.check());
        out.push(x);
    }
    assert_eq!(out, vec![9, 9, 7, 4, 4, 3, 2, 1, 0]);
    assert_eq!(heap.peek(), None);
}

#[test]
fn recursive_heap_interleaved() {
    let mut heap = RecursiveHeap::new();
    heap.push(5);
    heap.push(1);
    assert_eq!(heap.pop(), Some(5));
    heap.push(3);
    heap.push(8);
    assert_eq!(heap.pop(), Some(8));
    assert_eq!(heap.pop(), Some(3));
    assert_eq!(heap.pop(), Some(1));
    assert_eq!(heap.pop(), None);
}
