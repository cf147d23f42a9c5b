//! Treap over `u64` keys: a binary search tree on the keys that is also a
//! max-heap on random priorities drawn when each key is inserted.

use vstd::prelude::*;

verus! {

/// A slot that holds a subtree, or nothing.
type Anchor = Option<Box<Node>>;

/// A key, its random priority, and its two subtrees: smaller keys on the
/// left, greater on the right.
struct Node {
    key: u64,
    priority: u64,
    left: Anchor,
    right: Anchor,
}

/// The subtree on side `dir` (0 left, 1 right) of the node.
spec fn child_at(n: Node, dir: usize) -> Anchor {
    if dir == 0 {
        n.left
    } else {
        n.right
    }
}

/// The node with its subtree on side `dir` replaced by `c`.
spec fn with_child(n: Node, dir: usize, c: Anchor) -> Node {
    if dir == 0 {
        Node { left: c, ..n }
    } else {
        Node { right: c, ..n }
    }
}

/// The keys stored in the subtree.
spec fn keys(a: Anchor) -> Set<u64>
    decreases a,
{
    match a {
        None => Set::empty(),
        Some(n) => keys(n.left).union(keys(n.right)).insert(n.key),
    }
}

/// The priorities stored in the subtree.
spec fn prios(a: Anchor) -> Set<u64>
    decreases a,
{
    match a {
        None => Set::empty(),
        Some(n) => prios(n.left).union(prios(n.right)).insert(n.priority),
    }
}

/// Keys in ascending order, as an in-order walk visits them.
spec fn inorder(a: Anchor) -> Seq<u64>
    decreases a,
{
    match a {
        None => Seq::empty(),
        Some(n) => inorder(n.left) + seq![n.key] + inorder(n.right),
    }
}

/// Keys on the left of the node are smaller than its own, keys on the right
/// greater.
spec fn ordered(n: Node) -> bool {
    &&& forall|k: u64| keys(n.left).contains(k) ==> k < n.key
    &&& forall|k: u64| keys(n.right).contains(k) ==> n.key < k
}

/// No priority below the node is greater than its own.
spec fn heaped(n: Node) -> bool {
    &&& forall|p: u64| prios(n.left).contains(p) ==> p <= n.priority
    &&& forall|p: u64| prios(n.right).contains(p) ==> p <= n.priority
}

/// Search-tree order on keys and heap order on priorities hold at every node.
spec fn wf(a: Anchor) -> bool
    decreases a,
{
    match a {
        None => true,
        Some(n) => ordered(*n) && heaped(*n) && wf(n.left) && wf(n.right),
    }
}

/// The subtree after the child on side `dir` of its root is promoted.
spec fn rotated(a: Anchor, dir: usize) -> Anchor {
    let n = *a.unwrap();
    let c = *child_at(n, dir).unwrap();
    Some(Box::new(with_child(c, (1 - dir) as usize, Some(Box::new(with_child(n, dir, child_at(c, (1 - dir) as usize)))))))
}

impl Node {
    fn new(key: u64, priority: u64) -> (r: Node)
        ensures
            r == (Node { key, priority, left: None, right: None }),
    {
        Node { key, priority, left: None, right: None }
    }

    fn take_child(&mut self, dir: usize) -> (r: Anchor)
        requires
            dir < 2,
        ensures
            r == child_at(*old(self), dir),
            *final(self) == with_child(*old(self), dir, None),
    {
        if dir == 0 {
            self.left.take()
        } else {
            self.right.take()
        }
    }

    fn set_child(&mut self, dir: usize, c: Anchor)
        requires
            dir < 2,
        ensures
            *final(self) == with_child(*old(self), dir, c),
    {
        if dir == 0 {
            self.left = c;
        } else {
            self.right = c;
        }
    }
}

/// The priority of each key in the subtree.
spec fn prio_map(a: Anchor) -> Map<u64, u64>
    decreases a,
{
    match a {
        None => Map::empty(),
        Some(n) => prio_map(n.left).union_prefer_right(prio_map(n.right)).insert(n.key, n.priority),
    }
}

/// Each key of the subtree has a priority.
proof fn lemma_prio_dom(a: Anchor)
    ensures
        prio_map(a).dom() == keys(a),
    decreases a,
{
    if let Some(n) = a {
        lemma_prio_dom(n.left);
        lemma_prio_dom(n.right);
        assert(prio_map(a).dom() =~= keys(a));
    }
}

/// A rotation keeps the priority of every key.
proof fn lemma_rotated_prio_map(a: Anchor, dir: usize)
    requires
        a is Some,
        dir < 2,
        child_at(*a.unwrap(), dir) is Some,
        wf(child_at(*a.unwrap(), (1 - dir) as usize)),
        ordered(*a.unwrap()),
        wf(child_at(*a.unwrap(), dir)),
    ensures
        prio_map(rotated(a, dir)) == prio_map(a),
{
    lemma_rotated(a, dir);
    let o = (1 - dir) as usize;
    let n = *a.unwrap();
    let c = *child_at(n, dir).unwrap();
    let r = *rotated(a, dir).unwrap();
    let m = *child_at(r, o).unwrap();
    lemma_prio_dom(n.left);
    lemma_prio_dom(n.right);
    lemma_prio_dom(c.left);
    lemma_prio_dom(c.right);
    assert(ordered(c));
    assert(keys(child_at(n, dir)) == keys(c.left).union(keys(c.right)).insert(c.key));
    assert(prio_map(child_at(n, dir)) == prio_map(c.left).union_prefer_right(prio_map(c.right)).insert(
        c.key,
        c.priority,
    ));
    assert(prio_map(Some(Box::new(m))) == prio_map(m.left).union_prefer_right(prio_map(m.right)).insert(
        m.key,
        m.priority,
    ));
    assert(keys(child_at(n, dir)).contains(c.key));
    assert forall|k: u64| keys(child_at(n, dir)).contains(k) implies (dir == 0 ==> k < n.key) && (dir
        == 1 ==> n.key < k) by {}
    assert(prio_map(rotated(a, dir)) =~= prio_map(a));
}

/// What a rotation keeps: keys, priorities, key order, and the soundness of
/// the subtrees that it moves without looking into them.
proof fn lemma_rotated(a: Anchor, dir: usize)
    requires
        a is Some,
        dir < 2,
        child_at(*a.unwrap(), dir) is Some,
        wf(child_at(*a.unwrap(), (1 - dir) as usize)),
        ordered(*a.unwrap()),
        wf(child_at(*a.unwrap(), dir)),
    ensures
        ({
            let o = (1 - dir) as usize;
            let n = *a.unwrap();
            let c = *child_at(n, dir).unwrap();
            let r = *rotated(a, dir).unwrap();
            let m = *child_at(r, o).unwrap();
            &&& m == with_child(n, dir, child_at(c, o))
            &&& child_at(r, dir) == child_at(c, dir)
            &&& r.key == c.key
            &&& r.priority == c.priority
            &&& ordered(m)
            &&& ordered(r)
            &&& wf(child_at(m, o))
            &&& wf(child_at(m, dir))
            &&& wf(child_at(r, dir))
            &&& heaped(c)
            &&& prios(Some(Box::new(m))) == prios(child_at(n, o)).union(prios(child_at(c, o))).insert(n.priority)
            &&& keys(rotated(a, dir)) == keys(a)
            &&& prios(rotated(a, dir)) == prios(a)
            &&& inorder(rotated(a, dir)) == inorder(a)
            &&& inorder(Some(Box::new(m))).len() < inorder(a).len()
        }),
{
    let o = (1 - dir) as usize;
    let n = *a.unwrap();
    let c = *child_at(n, dir).unwrap();
    let r = *rotated(a, dir).unwrap();
    let m = *child_at(r, o).unwrap();
    assert(keys(child_at(n, dir)) == keys(c.left).union(keys(c.right)).insert(c.key));
    assert(keys(Some(Box::new(m))) == keys(m.left).union(keys(m.right)).insert(m.key));
    assert(keys(rotated(a, dir)) =~= keys(a));
    assert(prios(child_at(n, dir)) == prios(c.left).union(prios(c.right)).insert(c.priority));
    assert(prios(Some(Box::new(m))) =~= prios(child_at(n, o)).union(prios(child_at(c, o))).insert(n.priority));
    assert(prios(rotated(a, dir)) =~= prios(a));
    assert(inorder(child_at(n, dir)) == inorder(c.left) + seq![c.key] + inorder(c.right));
    assert(inorder(Some(Box::new(m))) == inorder(m.left) + seq![m.key] + inorder(m.right));
    assert(inorder(rotated(a, dir)) =~= inorder(a));
    assert(wf(Some(Box::new(c))));
    assert(keys(child_at(n, dir)).contains(c.key));
    if dir == 0 {
        assert forall|k: u64| keys(m.left).contains(k) implies k < m.key by {
            assert(keys(child_at(n, dir)).contains(k));
        }
        assert forall|k: u64| keys(r.right).contains(k) implies r.key < k by {
            if keys(n.right).contains(k) {
                assert(n.key < k);
            }
        }
    } else {
        assert forall|k: u64| keys(m.right).contains(k) implies m.key < k by {
            assert(keys(child_at(n, dir)).contains(k));
        }
        assert forall|k: u64| keys(r.left).contains(k) implies k < r.key by {
            if keys(n.left).contains(k) {
                assert(k < n.key);
            }
        }
    }
}

/// Promotes the child on side `dir` (0 left, 1 right) of the subtree's root,
/// which must have the higher priority of the two.
fn rotate(anchor: &mut Anchor, dir: usize)
    requires
        dir < 2,
        old(anchor).is_some(),
        child_at(*old(anchor).unwrap(), dir) is Some,
        child_at(*old(anchor).unwrap(), dir).unwrap().priority > old(anchor).unwrap().priority,
    ensures
        *final(anchor) == rotated(*old(anchor), dir),
{
    let mut parent = anchor.take().unwrap();
    let mut new_parent = parent.take_child(dir).unwrap();
    let inner = new_parent.take_child(1 - dir);
    parent.set_child(dir, inner);
    new_parent.set_child(1 - dir, Some(parent));
    *anchor = Some(new_parent);
}

fn contains_in(anchor: &Anchor, key: u64) -> (r: bool)
    requires
        wf(*anchor),
    ensures
        r == keys(*anchor).contains(key),
    decreases anchor,
{
    match anchor {
        None => false,
        Some(node) => {
            if key < node.key {
                assert(!keys(node.right).contains(key));
                contains_in(&node.left, key)
            } else if key > node.key {
                assert(!keys(node.left).contains(key));
                contains_in(&node.right, key)
            } else {
                true
            }
        },
    }
}

/// Inserts `key` below the slot. Returns whether the subtree's root is now the
/// new node, whose priority its parent has yet to be compared with; otherwise
/// the root is the one that was there.
fn insert_into(anchor: &mut Anchor, key: u64, priority: u64) -> (r: bool)
    requires
        wf(*old(anchor)),
    ensures
        keys(*old(anchor)).contains(key) ==> *final(anchor) == *old(anchor) && !r,
        !keys(*old(anchor)).contains(key) ==> prio_map(*final(anchor)) == prio_map(
            *old(anchor),
        ).insert(key, priority),
        wf(*final(anchor)),
        final(anchor).is_some(),
        keys(*final(anchor)) == keys(*old(anchor)).insert(key),
        !r ==> old(anchor).is_some() && final(anchor).unwrap().priority == old(
            anchor,
        ).unwrap().priority,
        r ==> prios(final(anchor).unwrap().left).subset_of(prios(*old(anchor)))
            && prios(final(anchor).unwrap().right).subset_of(prios(*old(anchor))),
    decreases *old(anchor),
{
    let ghost a0 = *anchor;
    match anchor.take() {
        None => {
            *anchor = Some(Box::new(Node::new(key, priority)));
            proof {
                assert(keys(*anchor) =~= keys(a0).insert(key));
                assert(prio_map(*anchor) =~= prio_map(a0).insert(key, priority));
                assert(prios(anchor.unwrap().left) =~= Set::<u64>::empty());
                assert(prios(anchor.unwrap().right) =~= Set::<u64>::empty());
            }
            true
        },
        Some(mut node) => {
            let ghost n0 = *node;
            if key == node.key {
                *anchor = Some(node);
                proof {
                    assert(keys(*anchor) =~= keys(a0).insert(key));
                }
                return false;
            }
            let dir: usize = if key < node.key {
                0
            } else {
                1
            };
            let mut sub = node.take_child(dir);
            assert(sub == child_at(n0, dir));
            let r = insert_into(&mut sub, key, priority);
            let child_priority = match &sub {
                Some(c) => c.priority,
                None => 0,
            };
            let ghost c1 = *sub.unwrap();
            node.set_child(dir, sub);
            *anchor = Some(node);
            proof {
                let n1 = *anchor.unwrap();
                let o = (1 - dir) as usize;
                assert(child_at(n1, o) == child_at(n0, o));
                if dir == 0 {
                    assert(keys(n1.left) == keys(n0.left).insert(key));
                    assert(!keys(n0.right).contains(key));
                } else {
                    assert(keys(n1.right) == keys(n0.right).insert(key));
                    assert(!keys(n0.left).contains(key));
                }
                assert(ordered(n1));
                assert(keys(*anchor) =~= keys(a0).insert(key));
                assert(prios(child_at(n1, dir)) == prios(c1.left).union(prios(c1.right)).insert(
                    c1.priority,
                ));
                assert(prios(*anchor) == prios(n1.left).union(prios(n1.right)).insert(n1.priority));
                assert(ordered(n0));
                assert(keys(a0) == keys(n0.left).union(keys(n0.right)).insert(n0.key));
                if keys(a0).contains(key) {
                    // the key lies on side `dir`: that subtree came back unchanged
                    assert(keys(child_at(n0, dir)).contains(key));
                    assert(n1 == n0);
                } else {
                    lemma_prio_dom(child_at(n0, o));
                    assert(!keys(child_at(n0, o)).contains(key));
                    assert(prio_map(a0) == prio_map(n0.left).union_prefer_right(
                        prio_map(n0.right),
                    ).insert(n0.key, n0.priority));
                    assert(prio_map(*anchor) == prio_map(n1.left).union_prefer_right(
                        prio_map(n1.right),
                    ).insert(n1.key, n1.priority));
                    assert(prio_map(*anchor) =~= prio_map(a0).insert(key, priority));
                }
            }
            if !r {
                proof {
                    let n1 = *anchor.unwrap();
                    assert(wf(child_at(n1, dir)));
                    let oc = *child_at(n0, dir).unwrap();
                    assert(prios(child_at(n0, dir)) == prios(oc.left).union(prios(oc.right)).insert(
                        oc.priority,
                    ));
                    assert(c1.priority == oc.priority);
                    assert(heaped(n0));
                    assert(prios(child_at(n0, dir)).contains(oc.priority));
                    assert(n1.priority == n0.priority);
                    assert(c1.priority <= n1.priority);
                    assert(heaped(c1));
                    assert forall|p: u64| prios(child_at(n1, dir)).contains(p) implies p
                        <= n1.priority by {
                        if p != c1.priority {
                            assert(prios(c1.left).contains(p) || prios(c1.right).contains(p));
                        }
                    }
                    assert(heaped(n1));
                }
                return false;
            }
            if child_priority > node_priority(anchor) {
                // the new node bubbles up above this one
                let ghost a1 = *anchor;
                proof {
                    lemma_rotated(a1, dir);
                    lemma_rotated_prio_map(a1, dir);
                }
                rotate(anchor, dir);
                proof {
                    let o = (1 - dir) as usize;
                    let t = *anchor.unwrap();
                    let m = *child_at(t, o).unwrap();
                    let n1 = *a1.unwrap();
                    assert(prios(a0) == prios(n0.left).union(prios(n0.right)).insert(n0.priority));
                    assert forall|p: u64| prios(child_at(m, dir)).contains(p) implies p
                        <= m.priority by {
                        assert(prios(child_at(n0, dir)).contains(p));
                    }
                    assert(heaped(m));
                    assert(wf(child_at(t, o)));
                    assert forall|p: u64| prios(child_at(t, o)).contains(p) implies p
                        <= t.priority by {
                        if p != n0.priority {
                            if prios(child_at(n0, o)).contains(p) {
                                assert(p <= n0.priority);
                            } else {
                                assert(prios(child_at(n0, dir)).contains(p));
                            }
                        }
                    }
                    assert(heaped(t));
                    assert(wf(*anchor));
                    assert(prios(child_at(t, dir)).subset_of(prios(a0))) by {
                        assert forall|p: u64| prios(child_at(t, dir)).contains(p) implies prios(
                            a0,
                        ).contains(p) by {
                            assert(prios(child_at(n0, dir)).contains(p));
                        }
                    }
                    assert(prios(child_at(t, o)).subset_of(prios(a0))) by {
                        assert forall|p: u64| prios(child_at(t, o)).contains(p) implies prios(
                            a0,
                        ).contains(p) by {
                            if p != n0.priority && !prios(child_at(n0, o)).contains(p) {
                                assert(prios(child_at(n0, dir)).contains(p));
                            }
                        }
                    }
                }
                true
            } else {
                proof {
                    let n1 = *anchor.unwrap();
                    assert(wf(child_at(n1, dir)));
                    assert forall|p: u64| prios(child_at(n1, dir)).contains(p) implies p
                        <= n1.priority by {
                        if p != c1.priority {
                            assert(prios(child_at(n0, dir)).contains(p));
                        }
                    }
                    assert(heaped(n1));
                }
                false
            }
        },
    }
}

/// Rotates the root of a subtree down, each time below its child of highest
/// priority, until no child's priority exceeds its own. The root alone may be
/// out of heap order on entry.
fn bubble_down(anchor: &mut Anchor)
    requires
        old(anchor).is_some(),
        ordered(*old(anchor).unwrap()),
        wf(old(anchor).unwrap().left),
        wf(old(anchor).unwrap().right),
    ensures
        wf(*final(anchor)),
        keys(*final(anchor)) == keys(*old(anchor)),
        prios(*final(anchor)) == prios(*old(anchor)),
        prio_map(*final(anchor)) == prio_map(*old(anchor)),
    decreases inorder(*old(anchor)).len(),
{
    let ghost a0 = *anchor;
    let ghost n0 = *a0.unwrap();
    let node = anchor.take().unwrap();
    let mut max_priority = node.priority;
    let mut max_priority_dir: usize = 2;
    if let Some(child) = &node.left {
        if child.priority > max_priority {
            max_priority = child.priority;
            max_priority_dir = 0;
        }
    }
    if let Some(child) = &node.right {
        if child.priority > max_priority {
            max_priority_dir = 1;
        }
    }
    *anchor = Some(node);
    if max_priority_dir == 2 {
        proof {
            assert(wf(n0.left));
            assert(wf(n0.right));
            assert forall|p: u64| prios(n0.left).contains(p) implies p <= n0.priority by {
                let c = *n0.left.unwrap();
                assert(prios(n0.left) == prios(c.left).union(prios(c.right)).insert(c.priority));
            }
            assert forall|p: u64| prios(n0.right).contains(p) implies p <= n0.priority by {
                let c = *n0.right.unwrap();
                assert(prios(n0.right) == prios(c.left).union(prios(c.right)).insert(c.priority));
            }
        }
        return;
    }
    let dir = max_priority_dir;
    proof {
        lemma_rotated(a0, dir);
        lemma_rotated_prio_map(a0, dir);
    }
    rotate(anchor, dir);
    let ghost a1 = *anchor;
    let mut top = anchor.take().unwrap();
    let mut sub = top.take_child(1 - dir);
    bubble_down(&mut sub);
    top.set_child(1 - dir, sub);
    *anchor = Some(top);
    proof {
        let o = (1 - dir) as usize;
        let t1 = *a1.unwrap();
        let m = *child_at(t1, o).unwrap();
        let t = *anchor.unwrap();
        let c = *child_at(n0, dir).unwrap();
        assert(child_at(t, dir) == child_at(t1, dir));
        assert(keys(child_at(t, o)) == keys(Some(Box::new(m))));
        assert(ordered(t));
        assert(prios(child_at(t, o)) == prios(child_at(n0, o)).union(prios(child_at(c, o))).insert(
            n0.priority,
        ));
        assert(wf(child_at(n0, o)));
        assert forall|p: u64| prios(child_at(n0, o)).contains(p) implies p <= c.priority by {
            let d = *child_at(n0, o).unwrap();
            assert(prios(child_at(n0, o)) == prios(d.left).union(prios(d.right)).insert(d.priority));
        }
        assert(heaped(t));
        assert(keys(*anchor) =~= keys(a1));
        assert(prios(*anchor) =~= prios(a1));
        assert(prio_map(child_at(t, o)) == prio_map(child_at(t1, o)));
        assert(prio_map(*anchor) == prio_map(t.left).union_prefer_right(prio_map(t.right)).insert(
            t.key,
            t.priority,
        ));
        assert(prio_map(a1) == prio_map(t1.left).union_prefer_right(prio_map(t1.right)).insert(
            t1.key,
            t1.priority,
        ));
        assert(prio_map(*anchor) =~= prio_map(a1));
    }
}

/// Detaches the node with the smallest key of a non-empty subtree and returns
/// it, emptied of children.
fn remove_leftmost(anchor: &mut Anchor) -> (r: Box<Node>)
    requires
        old(anchor).is_some(),
        wf(*old(anchor)),
    ensures
        wf(*final(anchor)),
        r.left is None,
        r.right is None,
        keys(*old(anchor)).contains(r.key),
        prios(*old(anchor)).contains(r.priority),
        forall|k: u64| keys(*old(anchor)).contains(k) ==> r.key <= k,
        keys(*final(anchor)) == keys(*old(anchor)).remove(r.key),
        prios(*final(anchor)).subset_of(prios(*old(anchor))),
        prio_map(*old(anchor)).contains_pair(r.key, r.priority),
        prio_map(*final(anchor)) == prio_map(*old(anchor)).remove(r.key),
    decreases *old(anchor),
{
    let ghost a0 = *anchor;
    let mut node = anchor.take().unwrap();
    let ghost n0 = *node;
    proof {
        lemma_prio_dom(n0.left);
        lemma_prio_dom(n0.right);
        assert(ordered(n0));
        assert(prio_map(a0) == prio_map(n0.left).union_prefer_right(prio_map(n0.right)).insert(
            n0.key,
            n0.priority,
        ));
    }
    if node.left.is_none() {
        *anchor = node.right.take();
        proof {
            assert(*anchor == n0.right);
            assert(!keys(n0.right).contains(n0.key));
            assert(keys(a0) == keys(n0.left).union(keys(n0.right)).insert(n0.key));
            assert(prios(a0) == prios(n0.left).union(prios(n0.right)).insert(n0.priority));
            assert(keys(*anchor) =~= keys(a0).remove(n0.key));
            assert(prio_map(n0.left) =~= Map::<u64, u64>::empty());
            assert(prio_map(*anchor) =~= prio_map(a0).remove(n0.key));
        }
        return node;
    }
    let min = remove_leftmost(&mut node.left);
    *anchor = Some(node);
    proof {
        let n1 = *anchor.unwrap();
        assert(keys(n0.left).contains(min.key));
        assert(min.key < n0.key);
        assert(!keys(n0.right).contains(min.key));
        assert(keys(n1.left) == keys(n0.left).remove(min.key));
        assert(ordered(n1));
        assert(heaped(n1));
        assert(keys(*anchor) =~= keys(a0).remove(min.key));
        assert(prios(a0) == prios(n0.left).union(prios(n0.right)).insert(n0.priority));
        assert(prios(*anchor) == prios(n1.left).union(prios(n1.right)).insert(n1.priority));
        assert forall|k: u64| keys(a0).contains(k) implies min.key <= k by {
            if keys(n0.right).contains(k) {
                assert(min.key < n0.key);
            }
        }
        assert(prio_map(*anchor) == prio_map(n1.left).union_prefer_right(prio_map(n1.right)).insert(
            n1.key,
            n1.priority,
        ));
        assert(prio_map(*anchor) =~= prio_map(a0).remove(min.key));
    }
    min
}

/// Removes `key` from below the slot.
fn remove_from(anchor: &mut Anchor, key: u64)
    requires
        wf(*old(anchor)),
    ensures
        wf(*final(anchor)),
        keys(*final(anchor)) == keys(*old(anchor)).remove(key),
        prios(*final(anchor)).subset_of(prios(*old(anchor))),
        prio_map(*final(anchor)) == prio_map(*old(anchor)).remove(key),
        !keys(*old(anchor)).contains(key) ==> *final(anchor) == *old(anchor),
    decreases *old(anchor),
{
    let ghost a0 = *anchor;
    match anchor.take() {
        None => {
            proof {
                assert(keys(*anchor) =~= keys(a0).remove(key));
                assert(prio_map(*anchor) =~= prio_map(a0).remove(key));
            }
        },
        Some(mut node) => {
            let ghost n0 = *node;
            proof {
                assert(prios(a0) == prios(n0.left).union(prios(n0.right)).insert(n0.priority));
                lemma_prio_dom(n0.left);
                lemma_prio_dom(n0.right);
                assert(ordered(n0));
                assert(prio_map(a0) == prio_map(n0.left).union_prefer_right(prio_map(n0.right)).insert(
                    n0.key,
                    n0.priority,
                ));
                assert(keys(a0) == keys(n0.left).union(keys(n0.right)).insert(n0.key));
            }
            if key < node.key {
                remove_from(&mut node.left, key);
                *anchor = Some(node);
                proof {
                    assert(!keys(n0.right).contains(key));
                    assert(ordered(*anchor.unwrap()));
                    assert(heaped(*anchor.unwrap()));
                    assert(keys(*anchor) =~= keys(a0).remove(key));
                    let n1 = *anchor.unwrap();
                    assert(prio_map(*anchor) == prio_map(n1.left).union_prefer_right(
                        prio_map(n1.right),
                    ).insert(n1.key, n1.priority));
                    assert(prio_map(*anchor) =~= prio_map(a0).remove(key));
                    if !keys(a0).contains(key) {
                        assert(n1 == n0);
                    }
                }
            } else if key > node.key {
                remove_from(&mut node.right, key);
                *anchor = Some(node);
                proof {
                    assert(!keys(n0.left).contains(key));
                    assert(ordered(*anchor.unwrap()));
                    assert(heaped(*anchor.unwrap()));
                    assert(keys(*anchor) =~= keys(a0).remove(key));
                    let n1 = *anchor.unwrap();
                    assert(prio_map(*anchor) == prio_map(n1.left).union_prefer_right(
                        prio_map(n1.right),
                    ).insert(n1.key, n1.priority));
                    assert(prio_map(*anchor) =~= prio_map(a0).remove(key));
                    if !keys(a0).contains(key) {
                        assert(n1 == n0);
                    }
                }
            } else {
                let left = node.left.take();
                let right = node.right.take();
                proof {
                    assert(!keys(n0.left).contains(key));
                    assert(!keys(n0.right).contains(key));
                }
                if left.is_none() {
                    *anchor = right;
                    proof {
                        assert(keys(*anchor) =~= keys(a0).remove(key));
                        assert(prio_map(n0.left) =~= Map::<u64, u64>::empty());
                        assert(prio_map(*anchor) =~= prio_map(a0).remove(key));
                    }
                } else if right.is_none() {
                    *anchor = left;
                    proof {
                        assert(keys(*anchor) =~= keys(a0).remove(key));
                        assert(prio_map(n0.right) =~= Map::<u64, u64>::empty());
                        assert(prio_map(*anchor) =~= prio_map(a0).remove(key));
                    }
                } else {
                    let mut right_node = right.unwrap();
                    let ghost r0 = *right_node;
                    proof {
                        assert(wf(n0.right));
                        assert(ordered(r0));
                        assert(keys(n0.right).contains(r0.key));
                        assert(keys(n0.right) == keys(r0.left).union(keys(r0.right)).insert(
                            r0.key,
                        ));
                        assert(prios(n0.right) == prios(r0.left).union(prios(r0.right)).insert(
                            r0.priority,
                        ));
                        lemma_prio_dom(r0.left);
                        lemma_prio_dom(r0.right);
                        assert(prio_map(n0.right) == prio_map(r0.left).union_prefer_right(
                            prio_map(r0.right),
                        ).insert(r0.key, r0.priority));
                    }
                    if right_node.left.is_none() {
                        // the right child is the successor: it takes the node's
                        // place, then sinks to its rank of priority
                        right_node.left = left;
                        *anchor = Some(right_node);
                        proof {
                            let n1 = *anchor.unwrap();
                            assert(keys(r0.left) == Set::<u64>::empty());
                            assert(prios(r0.left) == Set::<u64>::empty());
                            assert forall|k: u64| keys(n1.left).contains(k) implies k < n1.key by {
                                assert(k < n0.key);
                            }
                            assert(ordered(n1));
                            assert(keys(*anchor) =~= keys(a0).remove(key));
                            assert(prios(*anchor) == prios(n1.left).union(prios(n1.right)).insert(
                                n1.priority,
                            ));
                            assert(prios(*anchor).subset_of(prios(a0)));
                            assert(prio_map(r0.left) =~= Map::<u64, u64>::empty());
                            assert(prio_map(*anchor) == prio_map(n1.left).union_prefer_right(
                                prio_map(n1.right),
                            ).insert(n1.key, n1.priority));
                            assert(prio_map(*anchor) =~= prio_map(a0).remove(key));
                        }
                        bubble_down(anchor);
                    } else {
                        // the leftmost node of the right subtree is detached,
                        // takes the node's place, then sinks to its rank
                        let mut right_slot = Some(right_node);
                        let mut successor = remove_leftmost(&mut right_slot);
                        successor.left = left;
                        successor.right = right_slot;
                        *anchor = Some(successor);
                        proof {
                            let n1 = *anchor.unwrap();
                            assert(n0.key < n1.key);
                            assert forall|k: u64| keys(n1.left).contains(k) implies k < n1.key by {
                                assert(k < n0.key);
                            }
                            assert forall|k: u64| keys(n1.right).contains(k) implies n1.key < k by {
                                assert(n1.key <= k);
                            }
                            assert(ordered(n1));
                            assert(keys(*anchor) =~= keys(a0).remove(key));
                            assert(prios(*anchor) == prios(n1.left).union(prios(n1.right)).insert(
                                n1.priority,
                            ));
                            assert(prios(*anchor).subset_of(prios(a0)));
                            lemma_prio_dom(n1.right);
                            assert(prio_map(*anchor) == prio_map(n1.left).union_prefer_right(
                                prio_map(n1.right),
                            ).insert(n1.key, n1.priority));
                            assert(prio_map(*anchor) =~= prio_map(a0).remove(key));
                        }
                        bubble_down(anchor);
                    }
                }
            }
        },
    }
}

fn node_priority(anchor: &Anchor) -> (r: u64)
    requires
        anchor.is_some(),
    ensures
        r == anchor.unwrap().priority,
{
    match anchor {
        Some(n) => n.priority,
        None => 0,
    }
}

/// Every key of `s` lies strictly between the bounds that are given.
spec fn within(s: Set<u64>, min: Option<u64>, max: Option<u64>) -> bool {
    forall|k: u64|
        s.contains(k) ==> (min is Some ==> min.unwrap() < k) && (max is Some ==> k < max.unwrap())
}

/// No priority of `s` exceeds the bound, if one is given.
spec fn capped(s: Set<u64>, cap: Option<u64>) -> bool {
    forall|p: u64| s.contains(p) ==> (cap is Some ==> p <= cap.unwrap())
}

/// Whether the subtree's keys lie between the bounds, its priorities are no
/// greater than its parent's, and it is a sound treap.
fn check_subtree(
    anchor: &Anchor,
    min_key: Option<u64>,
    max_key: Option<u64>,
    parent_priority: Option<u64>,
) -> (r: bool)
    ensures
        r == (wf(*anchor) && within(keys(*anchor), min_key, max_key) && capped(
            prios(*anchor),
            parent_priority,
        )),
    decreases anchor,
{
    match anchor {
        None => true,
        Some(node) => {
            proof {
                assert(keys(*anchor).contains(node.key));
                assert(prios(*anchor).contains(node.priority));
                assert(keys(*anchor) == keys(node.left).union(keys(node.right)).insert(node.key));
                assert(prios(*anchor) == prios(node.left).union(prios(node.right)).insert(
                    node.priority,
                ));
                if wf(*anchor) && within(keys(*anchor), min_key, max_key) {
                    assert(ordered(**node));
                    assert forall|k: u64| keys(node.left).contains(k) implies (min_key is Some
                        ==> min_key.unwrap() < k) && k < node.key by {
                        assert(keys(*anchor).contains(k));
                    }
                    assert forall|k: u64| keys(node.right).contains(k) implies node.key < k && (
                    max_key is Some ==> k < max_key.unwrap()) by {
                        assert(keys(*anchor).contains(k));
                    }
                }
            }
            if let Some(lo) = min_key {
                if node.key <= lo {
                    return false;
                }
            }
            if let Some(hi) = max_key {
                if node.key >= hi {
                    return false;
                }
            }
            if let Some(pp) = parent_priority {
                if node.priority > pp {
                    return false;
                }
            }
            let prio = Some(node.priority);
            if !check_subtree(&node.left, min_key, Some(node.key), prio) {
                return false;
            }
            let r = check_subtree(&node.right, Some(node.key), max_key, prio);
            proof {
                if r {
                    assert(within(keys(*anchor), min_key, max_key));
                    assert(capped(prios(*anchor), parent_priority));
                }
            }
            r
        },
    }
}

/// One line of a pre-order outline of a tree: a node, with its depth (the
/// root at 0), or an empty slot, with the depth of the node that holds it
/// (`None` for the slot of an empty tree).
#[derive(Clone, Copy, Debug, PartialEq, Eq, Structural)]
pub enum OutlineLine {
    Node { depth: u64, key: u64 },
    Empty { parent_depth: Option<u64> },
}

/// Number of nodes on the longest path down (0 for an empty slot).
spec fn height(a: Anchor) -> nat
    decreases a,
{
    match a {
        None => 0,
        Some(n) => {
            let hl = height(n.left);
            let hr = height(n.right);
            1 + if hl >= hr { hl } else { hr }
        },
    }
}

/// A search-ordered subtree whose keys lie in `[lo, hi]` is at most
/// `hi - lo + 1` levels tall: each level down a path narrows the interval.
proof fn lemma_height_within(a: Anchor, lo: int, hi: int)
    requires
        wf(a),
        forall|k: u64| keys(a).contains(k) ==> lo <= k <= hi,
    ensures
        height(a) <= if hi - lo + 1 >= 0 {
            hi - lo + 1
        } else {
            0
        },
    decreases a,
{
    if let Some(n) = a {
        assert(keys(a).contains(n.key));
        assert(ordered(*n));
        assert(keys(a) == keys(n.left).union(keys(n.right)).insert(n.key));
        assert forall|k: u64| keys(n.left).contains(k) implies lo <= k <= n.key - 1 by {
            assert(keys(a).contains(k));
        }
        assert forall|k: u64| keys(n.right).contains(k) implies n.key + 1 <= k <= hi by {
            assert(keys(a).contains(k));
        }
        lemma_height_within(n.left, lo, n.key - 1);
        lemma_height_within(n.right, n.key + 1, hi);
    }
}

/// Depth of a node whose parent is at `parent` (`None` for the root).
spec fn depth_below(parent: Option<u64>) -> int {
    match parent {
        None => 0,
        Some(p) => p + 1,
    }
}

/// Pre-order outline of the subtree in a slot held by a node at `parent`.
spec fn outline(a: Anchor, parent: Option<u64>) -> Seq<OutlineLine>
    decreases a,
{
    match a {
        None => seq![OutlineLine::Empty { parent_depth: parent }],
        Some(n) => {
            let d = depth_below(parent) as u64;
            seq![OutlineLine::Node { depth: d, key: n.key }] + outline(n.left, Some(d)) + outline(
                n.right,
                Some(d),
            )
        },
    }
}

fn outline_into(anchor: &Anchor, parent: Option<u64>, out: &mut Vec<OutlineLine>)
    requires
        depth_below(parent) + height(*anchor) <= u64::MAX + 1,
    ensures
        final(out)@ == old(out)@ + outline(*anchor, parent),
    decreases anchor,
{
    match anchor {
        None => {
            out.push(OutlineLine::Empty { parent_depth: parent });
        },
        Some(node) => {
            let depth: u64 = match parent {
                None => 0,
                Some(p) => p + 1,
            };
            out.push(OutlineLine::Node { depth, key: node.key });
            outline_into(&node.left, Some(depth), out);
            outline_into(&node.right, Some(depth), out);
            proof {
                assert(out@ =~= old(out)@ + outline(*anchor, parent));
            }
        },
    }
}

/// A treap of `u64` keys.
pub struct Treap {
    root: Anchor,
}

impl View for Treap {
    type V = Set<u64>;

    closed spec fn view(&self) -> Set<u64> {
        keys(self.root)
    }
}

impl Treap {
    #[verifier::type_invariant]
    spec fn inv(self) -> bool {
        wf(self.root)
    }

    /// The stored keys in ascending order.
    pub closed spec fn in_order(&self) -> Seq<u64> {
        inorder(self.root)
    }

    /// The priority of each stored key.
    pub closed spec fn priorities(&self) -> Map<u64, u64> {
        prio_map(self.root)
    }

    /// Search order on keys and heap order on priorities hold at every node.
    pub closed spec fn is_treap(&self) -> bool {
        wf(self.root)
    }

    /// Consistency pass: walks the whole treap and reports whether search
    /// order on keys and heap order on priorities hold. The invariant that
    /// every operation maintains makes it always hold.
    pub fn check(&self) -> (r: bool)
        ensures
            r == self.is_treap(),
            r,
    {
        proof {
            use_type_invariant(self);
        }
        check_subtree(&self.root, None, None, None)
    }

    /// Pre-order outline of the treap: each node with its depth and key, and
    /// each empty slot.
    pub closed spec fn outline_lines(&self) -> Seq<OutlineLine> {
        outline(self.root, None)
    }

    /// The treap's outline, for display: one line per node and per empty slot,
    /// in pre-order.
    pub fn outline(&self) -> (r: Vec<OutlineLine>)
        ensures
            r@ == self.outline_lines(),
    {
        proof {
            use_type_invariant(self);
            lemma_height_within(self.root, 0, u64::MAX as int);
        }
        let mut out = Vec::new();
        outline_into(&self.root, None, &mut out);
        proof {
            assert(out@ =~= self.outline_lines());
        }
        out
    }

    /// An empty treap.
    pub fn new() -> (t: Treap)
        ensures
            t@ == Set::<u64>::empty(),
            t.is_treap(),
    {
        Treap { root: None }
    }

    /// Stores `key` with a fresh random priority; a key already present
    /// leaves the treap as it is.
    pub fn insert(&mut self, key: u64)
        ensures
            final(self)@ == old(self)@.insert(key),
            final(self).is_treap(),
            old(self)@.contains(key) ==> *final(self) == *old(self),
            !old(self)@.contains(key) ==> exists|p: u64|
                final(self).priorities() == old(self).priorities().insert(key, p),
    {
        let priority: u64 = rand::random();
        self.insert_with_priority(key, priority);
    }

    /// Stores `key` with the given priority; a key already present leaves
    /// the treap as it is. Every other key keeps its priority.
    pub fn insert_with_priority(&mut self, key: u64, priority: u64)
        ensures
            final(self)@ == old(self)@.insert(key),
            final(self).is_treap(),
            old(self)@.contains(key) ==> *final(self) == *old(self),
            !old(self)@.contains(key) ==> final(self).priorities() == old(self).priorities().insert(
                key,
                priority,
            ),
    {
        proof {
            use_type_invariant(&*self);
        }
        let mut root = None;
        std::mem::swap(&mut root, &mut self.root);
        insert_into(&mut root, key, priority);
        self.root = root;
    }

    /// Whether `key` is stored.
    pub fn contains(&self, key: u64) -> (r: bool)
        ensures
            r == self@.contains(key),
    {
        proof {
            use_type_invariant(self);
        }
        contains_in(&self.root, key)
    }

    /// Removes `key`; an absent key leaves the treap as it is.
    pub fn remove(&mut self, key: u64)
        ensures
            final(self)@ == old(self)@.remove(key),
            final(self).is_treap(),
            final(self).priorities() == old(self).priorities().remove(key),
            !old(self)@.contains(key) ==> *final(self) == *old(self),
    {
        proof {
            use_type_invariant(&*self);
        }
        let mut root = None;
        std::mem::swap(&mut root, &mut self.root);
        remove_from(&mut root, key);
        self.root = root;
    }

    /// A walk over the stored keys in ascending order.
    pub fn iter(&self) -> (r: IterRef<'_>)
        ensures
            r.remaining() == self.in_order(),
    {
        IterRef::new(self)
    }

    /// A walk over the stored keys in ascending order that consumes the treap.
    pub fn into_iter(self) -> (r: Iter)
        ensures
            r.remaining() == self.in_order(),
    {
        Iter::new(self)
    }
}

spec fn entry_keys(e: (bool, &Node)) -> Seq<u64> {
    if e.0 {
        seq![e.1.key] + inorder(e.1.right)
    } else {
        inorder(e.1.left) + seq![e.1.key] + inorder(e.1.right)
    }
}

spec fn entry_cost(e: (bool, &Node)) -> nat {
    if e.0 {
        2 * inorder(e.1.right).len() + 1
    } else {
        2 * (inorder(e.1.left).len() + inorder(e.1.right).len() + 1) + 1
    }
}

/// Keys that a borrowing walk's stack has yet to yield, top entry first. An
/// entry marked explored has had its left subtree walked.
spec fn pending_ref(s: Seq<(bool, &Node)>) -> Seq<u64>
    decreases s.len(),
{
    if s.len() == 0 {
        Seq::empty()
    } else {
        entry_keys(s.last()) + pending_ref(s.drop_last())
    }
}

spec fn stack_cost(s: Seq<(bool, &Node)>) -> nat
    decreases s.len(),
{
    if s.len() == 0 {
        0
    } else {
        entry_cost(s.last()) + stack_cost(s.drop_last())
    }
}

proof fn lemma_push_ref(s: Seq<(bool, &Node)>, e: (bool, &Node))
    ensures
        pending_ref(s.push(e)) == entry_keys(e) + pending_ref(s),
        stack_cost(s.push(e)) == entry_cost(e) + stack_cost(s),
{
    assert(s.push(e).drop_last() =~= s);
}

/// A walk over the keys of a `Treap` in ascending order, borrowing it.
pub struct IterRef<'a> {
    stack: Vec<(bool, &'a Node)>,
}

impl<'a> IterRef<'a> {
    fn new(treap: &'a Treap) -> (r: IterRef<'a>)
        ensures
            r.remaining() == treap.in_order(),
    {
        match &treap.root {
            Some(node) => {
                let r = IterRef { stack: vec![(false, &**node)] };
                proof {
                    lemma_push_ref(Seq::empty(), (false, &**node));
                    assert(r.stack@ =~= Seq::<(bool, &Node)>::empty().push((false, &**node)));
                    assert(r.remaining() =~= treap.in_order());
                }
                r
            },
            None => {
                let r = IterRef { stack: Vec::new() };
                proof {
                    assert(r.remaining() =~= treap.in_order());
                }
                r
            },
        }
    }

    /// The keys that the walk has yet to yield, in the order it yields them.
    pub closed spec fn remaining(&self) -> Seq<u64> {
        pending_ref(self.stack@)
    }

    /// Yields the next key, or `None` once all have been yielded.
    pub fn next(&mut self) -> (r: Option<&'a u64>)
        ensures
            old(self).remaining().len() == 0 ==> r is None && final(self).remaining()
                == old(self).remaining(),
            old(self).remaining().len() > 0 ==> r is Some && *r.unwrap() == old(
                self,
            ).remaining()[0] && final(self).remaining() == old(self).remaining().drop_first(),
    {
        loop
            invariant
                self.remaining() == old(self).remaining(),
            decreases stack_cost(self.stack@),
        {
            let ghost s0 = self.stack@;
            match self.stack.pop() {
                None => {
                    return None;
                },
                Some((explored, node)) => {
                    let ghost s1 = self.stack@;
                    proof {
                        assert(s0 =~= s1.push((explored, node)));
                        lemma_push_ref(s1, (explored, node));
                    }
                    if !explored {
                        if let Some(child) = &node.left {
                            self.stack.push((true, node));
                            self.stack.push((false, &**child));
                            proof {
                                lemma_push_ref(s1, (true, node));
                                lemma_push_ref(s1.push((true, node)), (false, &**child));
                                assert(self.remaining() =~= old(self).remaining());
                            }
                            continue;
                        }
                    }
                    if let Some(child) = &node.right {
                        self.stack.push((false, &**child));
                        proof {
                            lemma_push_ref(s1, (false, &**child));
                        }
                    }
                    proof {
                        assert(inorder(node.left) =~= Seq::<u64>::empty() || explored);
                        assert(self.remaining() =~= old(self).remaining().drop_first());
                    }
                    return Some(&node.key);
                },
            }
        }
    }
}

spec fn pending(s: Seq<Box<Node>>) -> Seq<u64>
    decreases s.len(),
{
    if s.len() == 0 {
        Seq::empty()
    } else {
        inorder(Some(s.last())) + pending(s.drop_last())
    }
}

spec fn cost(a: Anchor) -> nat
    decreases a,
{
    match a {
        None => 0,
        Some(n) => cost(n.left) + cost(n.right) + if n.left is Some {
            3nat
        } else {
            1nat
        },
    }
}

spec fn pending_cost(s: Seq<Box<Node>>) -> nat
    decreases s.len(),
{
    if s.len() == 0 {
        0
    } else {
        cost(Some(s.last())) + 1 + pending_cost(s.drop_last())
    }
}

proof fn lemma_push(s: Seq<Box<Node>>, b: Box<Node>)
    ensures
        pending(s.push(b)) == inorder(Some(b)) + pending(s),
        pending_cost(s.push(b)) == cost(Some(b)) + 1 + pending_cost(s),
{
    assert(s.push(b).drop_last() =~= s);
}

/// A walk over the keys of a `Treap` in ascending order that consumes it.
pub struct Iter {
    stack: Vec<Box<Node>>,
}

impl Iter {
    fn new(treap: Treap) -> (r: Iter)
        ensures
            r.remaining() == treap.in_order(),
    {
        let ghost root = treap.root;
        match treap.root {
            Some(node) => {
                let ghost b = node;
                let r = Iter { stack: vec![node] };
                proof {
                    lemma_push(Seq::empty(), b);
                    assert(r.stack@ =~= Seq::<Box<Node>>::empty().push(b));
                    assert(r.remaining() =~= inorder(root));
                }
                r
            },
            None => {
                let r = Iter { stack: Vec::new() };
                proof {
                    assert(r.remaining() =~= inorder(root));
                }
                r
            },
        }
    }

    /// The keys that the walk has yet to yield, in the order it yields them.
    pub closed spec fn remaining(&self) -> Seq<u64> {
        pending(self.stack@)
    }

    /// Yields the next key, or `None` once all have been yielded.
    pub fn next(&mut self) -> (r: Option<u64>)
        ensures
            old(self).remaining().len() == 0 ==> r is None && final(self).remaining()
                == old(self).remaining(),
            old(self).remaining().len() > 0 ==> r == Some(old(self).remaining()[0])
                && final(self).remaining() == old(self).remaining().drop_first(),
    {
        loop
            invariant
                self.remaining() == old(self).remaining(),
            decreases pending_cost(self.stack@),
        {
            let ghost s0 = self.stack@;
            match self.stack.pop() {
                None => {
                    return None;
                },
                Some(mut node) => {
                    let ghost s1 = self.stack@;
                    let ghost n0 = *node;
                    proof {
                        assert(s0 =~= s1.push(node));
                        lemma_push(s1, node);
                    }
                    if let Some(child) = node.left.take() {
                        let ghost n1 = *node;
                        let ghost b = child;
                        self.stack.push(node);
                        self.stack.push(child);
                        proof {
                            let b1 = Box::new(n1);
                            lemma_push(s1, b1);
                            lemma_push(s1.push(b1), b);
                            assert(n1.left is None && n1.right == n0.right);
                            assert(inorder(n1.left) =~= Seq::<u64>::empty());
                            assert(inorder(Some(b1)) =~= seq![n0.key] + inorder(n0.right));
                            assert(cost(Some(Box::new(n0))) == cost(n0.left) + cost(n0.right) + 3);
                            assert(cost(n1.left) == 0);
                            assert(cost(Some(b1)) == cost(n0.right) + 1);
                            assert(self.remaining() =~= old(self).remaining());
                        }
                    } else {
                        let k = node.key;
                        if let Some(child) = node.right.take() {
                            let ghost b = child;
                            self.stack.push(child);
                            proof {
                                lemma_push(s1, b);
                            }
                        }
                        proof {
                            assert(inorder(n0.left) =~= Seq::<u64>::empty());
                            assert(inorder(Some(Box::new(n0))) =~= seq![n0.key] + inorder(
                                n0.right,
                            ));
                            assert(self.remaining() =~= old(self).remaining().drop_first());
                        }
                        return Some(k);
                    }
                },
            }
        }
    }
}

/// An in-order walk of a sound subtree meets each of its keys once, in
/// strictly increasing order.
proof fn lemma_inorder(a: Anchor)
    requires
        wf(a),
    ensures
        forall|i: int| 0 <= i < inorder(a).len() ==> keys(a).contains(#[trigger] inorder(a)[i]),
        forall|k: u64| keys(a).contains(k) ==> inorder(a).contains(k),
        forall|i: int, j: int|
            0 <= i < j < inorder(a).len() ==> inorder(a)[i] < inorder(a)[j],
    decreases a,
{
    if let Some(n) = a {
        lemma_inorder(n.left);
        lemma_inorder(n.right);
        let l = inorder(n.left);
        let r = inorder(n.right);
        let s = inorder(a);
        assert(ordered(*n));
        assert(s == l + seq![n.key] + r);
        assert forall|i: int| 0 <= i < s.len() implies keys(a).contains(#[trigger] s[i]) by {
            if i < l.len() {
                assert(s[i] == l[i]);
            } else if i > l.len() {
                assert(s[i] == r[i - l.len() - 1]);
            }
        }
        assert forall|k: u64| keys(a).contains(k) implies s.contains(k) by {
            if keys(n.left).contains(k) {
                let i = choose|i: int| 0 <= i < l.len() && l[i] == k;
                assert(s[i] == k);
            } else if keys(n.right).contains(k) {
                let i = choose|i: int| 0 <= i < r.len() && r[i] == k;
                assert(s[i + l.len() + 1] == k);
            } else {
                assert(s[l.len() as int] == k);
            }
        }
        assert forall|i: int, j: int| 0 <= i < j < s.len() implies s[i] < s[j] by {
            if j < l.len() {
                assert(s[i] == l[i] && s[j] == l[j]);
            } else if i > l.len() {
                assert(s[i] == r[i - l.len() - 1] && s[j] == r[j - l.len() - 1]);
            } else {
                let ki = s[i];
                let kj = s[j];
                if i < l.len() {
                    assert(ki == l[i]);
                    assert(keys(n.left).contains(ki));
                }
                if j > l.len() {
                    assert(kj == r[j - l.len() - 1]);
                    assert(keys(n.right).contains(kj));
                }
            }
        }
    }
}

/// Every stored key has a priority, and only they do.
pub proof fn lemma_priorities_domain(t: &Treap)
    ensures
        t.priorities().dom() == t@,
{
    lemma_prio_dom(t.root);
}

/// A walk yields strictly increasing keys, each stored key exactly once.
pub proof fn lemma_in_order(t: &Treap)
    requires
        t.is_treap(),
    ensures
        forall|i: int, j: int| 0 <= i < j < t.in_order().len() ==> t.in_order()[i] < t.in_order()[j],
        t.in_order().to_set() == t@,
        t.in_order().len() == t@.len(),
{
    lemma_inorder(t.root);
    let s = inorder(t.root);
    assert(s.to_set() =~= keys(t.root));
    assert(s.no_duplicates()) by {
        assert forall|i: int, j: int| 0 <= i < s.len() && 0 <= j < s.len() && i != j implies s[i]
            != s[j] by {
            if i < j {
                assert(s[i] < s[j]);
            } else {
                assert(s[j] < s[i]);
            }
        }
    }
    s.unique_seq_to_set();
}

impl Default for Treap {
    /// An empty treap, as `new` gives.
    fn default() -> (r: Treap)
        ensures
            r@ == Set::<u64>::empty(),
    {
        Treap::new()
    }
}

} // verus!
