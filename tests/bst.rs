use avl_trees::bst::{Bst, OutlineLine};

fn walk(t: &Bst) -> Vec<u64> {
    let mut v = Vec::new();
    let mut it = t.iter();
    while let Some(&x) = it.next() {
        v.push(x);
    }
    v
}

#[test]
fn bst_test() {
    let mut t = Bst::new();
    for k in [8, 4, 2, 1, 3, 6, 5, 7, 12, 10, 9, 11, 14, 13, 15] {
        t.insert(k);
    }

    t.remove(8);

    let expected = vec![1, 2, 3, 4, 5, 6, 7, 9, 10, 11, 12, 13, 14, 15];

    let v = walk(&t);
    assert_eq!(v, expected);

    let mut v = Vec::new();
    let mut it = t.iter();
    while let Some(&x) = it.next() {
        v.push(x);
    }
    assert_eq!(v, expected);

    let mut v = Vec::new();
    let mut it = t.into_iter();
    while let Some(x) = it.next() {
        v.push(x);
    }
    assert_eq!(v, expected);
}

#[test]
fn bst_membership_and_removal_cases() {
    let mut t = Bst::new();
    for k in [50, 30, 70, 20, 40, 60, 80, 65] {
        t.insert(k);
    }
    t.insert(30);
    assert!(t.contains(65));
    // leaf
    t.remove(20);
    // one child
    t.remove(60);
    // two children, right child has a left subtree
    t.remove(50);
    // two children, right child without a left subtree
    t.remove(70);
    assert_eq!(walk(&t), vec![30, 40, 65, 80]);
    assert!(!t.contains(50) && !t.contains(100));
}

#[test]
fn bst_check_holds_throughout() {
    let mut t = Bst::new();
    for k in [5, 2, 8, 1, 9, 3] {
        t.insert(k);
        assert!(t.check());
    }
    t.remove(5);
    t.remove(1);
    assert!(t.check());
    assert_eq!(walk(&t), vec![2, 3, 8, 9]);
}

#[test]
fn bst_new_key_becomes_a_leaf() {
    let mut t = Bst::new();
    for k in [5, 2, 8] {
        t.insert(k);
    }
    t.insert(9);
    assert_eq!(
        t.outline(),
        vec![
            OutlineLine::Node { depth: 0, key: 5 },
            OutlineLine::Node { depth: 1, key: 2 },
            OutlineLine::Empty { parent_depth: Some(1) },
            OutlineLine::Empty { parent_depth: Some(1) },
            OutlineLine::Node { depth: 1, key: 8 },
            OutlineLine::Empty { parent_depth: Some(1) },
            OutlineLine::Node { depth: 2, key: 9 },
            OutlineLine::Empty { parent_depth: Some(2) },
            OutlineLine::Empty { parent_depth: Some(2) },
        ]
    );
    let before = t.outline();
    t.insert(2);
    t.remove(7);
    assert_eq!(t.outline(), before);
}
