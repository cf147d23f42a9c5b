//! Implicit treap: a sequence of `u64` values stored in a tree ordered by
//! position (an in-order walk gives the sequence), heap-ordered on random
//! priorities. Each node records the size of its subtree, from which
//! positions are found.

use vstd::prelude::*;

verus! {

/// A slot that holds a subtree, or nothing.
type Anchor = Option<Box<ImplTreapNode>>;

/// A value, its random priority, the number of values in its subtree, and
/// its two subtrees: earlier positions on the left, later on the right.
struct ImplTreapNode {
    value: u64,
    priority: u64,
    count: usize,
    left: Anchor,
    right: Anchor,
}

impl ImplTreapNode {
    fn new(value: u64, priority: u64) -> (r: ImplTreapNode)
        ensures
            r.value == value,
            r.priority == priority,
            r.count == 1,
            r.left is None,
            r.right is None,
    {
        ImplTreapNode { value, priority, count: 1, left: None, right: None }
    }
}

/// The subtree on side `dir` (0 left, 1 right) of the node.
spec fn child_at(n: ImplTreapNode, dir: usize) -> Anchor {
    if dir == 0 {
        n.left
    } else {
        n.right
    }
}

/// The values of the subtree in order.
spec fn seq_of(a: Anchor) -> Seq<u64>
    decreases a,
{
    match a {
        None => Seq::empty(),
        Some(n) => seq_of(n.left) + seq![n.value] + seq_of(n.right),
    }
}

/// The priorities stored in the subtree.
/// There is one priority per value.
proof fn lemma_prio_len(a: Anchor)
    ensures
        prio_seq(a).len() == seq_of(a).len(),
    decreases a,
{
    if let Some(n) = a {
        lemma_prio_len(n.left);
        lemma_prio_len(n.right);
    }
}

/// The priorities of the subtree, in the order of its values.
spec fn prio_seq(a: Anchor) -> Seq<u64>
    decreases a,
{
    match a {
        None => Seq::empty(),
        Some(n) => prio_seq(n.left) + seq![n.priority] + prio_seq(n.right),
    }
}

spec fn prios(a: Anchor) -> Set<u64>
    decreases a,
{
    match a {
        None => Set::empty(),
        Some(n) => prios(n.left).union(prios(n.right)).insert(n.priority),
    }
}

/// The node's recorded size is that of its subtree.
spec fn counted(n: ImplTreapNode) -> bool {
    n.count == seq_of(n.left).len() + seq_of(n.right).len() + 1
}

/// No priority below the node is greater than its own.
spec fn heaped(n: ImplTreapNode) -> bool {
    &&& forall|p: u64| prios(n.left).contains(p) ==> p <= n.priority
    &&& forall|p: u64| prios(n.right).contains(p) ==> p <= n.priority
}

spec fn wf(a: Anchor) -> bool
    decreases a,
{
    match a {
        None => true,
        Some(n) => counted(*n) && heaped(*n) && wf(n.left) && wf(n.right),
    }
}

/// The subtree after the child on side `dir` of its root is promoted, with
/// the sizes of the two moved nodes recomputed.
spec fn rotated(a: Anchor, dir: usize) -> Anchor {
    let o = (1 - dir) as usize;
    let n = *a.unwrap();
    let c = *child_at(n, dir).unwrap();
    let inner = child_at(c, o);
    let m_count = (n.count - c.count + seq_of(inner).len()) as usize;
    let m = if dir == 0 {
        ImplTreapNode { left: inner, count: m_count, ..n }
    } else {
        ImplTreapNode { right: inner, count: m_count, ..n }
    };
    let r = if dir == 0 {
        ImplTreapNode { right: Some(Box::new(m)), count: n.count, ..c }
    } else {
        ImplTreapNode { left: Some(Box::new(m)), count: n.count, ..c }
    };
    Some(Box::new(r))
}

/// The recorded size of the subtree (0 when empty).
fn count_of(anchor: &Anchor) -> (r: usize)
    requires
        anchor is Some ==> counted(*anchor.unwrap()),
    ensures
        r == seq_of(*anchor).len(),
{
    match anchor {
        None => 0,
        Some(node) => node.count,
    }
}

/// What a rotation keeps: the sequence, the priorities, and the soundness of
/// the subtrees that it moves without looking into them.
proof fn lemma_rotated(a: Anchor, dir: usize)
    requires
        a is Some,
        dir < 2,
        child_at(*a.unwrap(), dir) is Some,
        counted(*a.unwrap()),
        wf(child_at(*a.unwrap(), (1 - dir) as usize)),
        wf(child_at(*a.unwrap(), dir)),
    ensures
        ({
            let o = (1 - dir) as usize;
            let n = *a.unwrap();
            let c = *child_at(n, dir).unwrap();
            let r = *rotated(a, dir).unwrap();
            let m = *child_at(r, o).unwrap();
            &&& m.priority == n.priority
            &&& child_at(m, o) == child_at(n, o)
            &&& child_at(m, dir) == child_at(c, o)
            &&& child_at(r, dir) == child_at(c, dir)
            &&& r.priority == c.priority
            &&& counted(m)
            &&& counted(r)
            &&& wf(child_at(m, o))
            &&& wf(child_at(m, dir))
            &&& wf(child_at(r, dir))
            &&& heaped(c)
            &&& prios(Some(Box::new(m))) == prios(child_at(n, o)).union(prios(child_at(c, o))).insert(n.priority)
            &&& prios(rotated(a, dir)) == prios(a)
            &&& seq_of(rotated(a, dir)) == seq_of(a)
            &&& prio_seq(rotated(a, dir)) == prio_seq(a)
            &&& seq_of(Some(Box::new(m))).len() < seq_of(a).len()
        }),
{
    let o = (1 - dir) as usize;
    let n = *a.unwrap();
    let c = *child_at(n, dir).unwrap();
    let r = *rotated(a, dir).unwrap();
    let m = *child_at(r, o).unwrap();
    assert(wf(Some(Box::new(c))));
    assert(prios(child_at(n, dir)) == prios(c.left).union(prios(c.right)).insert(c.priority));
    assert(prios(Some(Box::new(m))) =~= prios(child_at(n, o)).union(prios(child_at(c, o))).insert(n.priority));
    assert(prios(rotated(a, dir)) =~= prios(a));
    assert(seq_of(child_at(n, dir)) == seq_of(c.left) + seq![c.value] + seq_of(c.right));
    assert(prio_seq(child_at(n, dir)) == prio_seq(c.left) + seq![c.priority] + prio_seq(c.right));
    assert(seq_of(Some(Box::new(m))) == seq_of(m.left) + seq![m.value] + seq_of(m.right));
    assert(prio_seq(Some(Box::new(m))) == prio_seq(m.left) + seq![m.priority] + prio_seq(m.right));
    assert(seq_of(rotated(a, dir)) =~= seq_of(a));
    assert(prio_seq(rotated(a, dir)) =~= prio_seq(a));
}

/// Promotes the child on side `dir` (0 left, 1 right) of the subtree's root,
/// which must have the higher priority of the two, keeping sizes recorded.
fn rotate(anchor: &mut Anchor, dir: usize)
    requires
        dir < 2,
        old(anchor).is_some(),
        counted(*old(anchor).unwrap()),
        child_at(*old(anchor).unwrap(), dir) is Some,
        counted(*child_at(*old(anchor).unwrap(), dir).unwrap()),
        wf(child_at(*child_at(*old(anchor).unwrap(), dir).unwrap(), (1 - dir) as usize)),
        child_at(*old(anchor).unwrap(), dir).unwrap().priority > old(anchor).unwrap().priority,
    ensures
        *final(anchor) == rotated(*old(anchor), dir),
{
    let mut old_parent = anchor.take().unwrap();
    let ghost n = *old_parent;
    let mut new_parent = if dir == 0 {
        old_parent.left.take().unwrap()
    } else {
        old_parent.right.take().unwrap()
    };
    let ghost c = *new_parent;
    proof {
        assert(child_at(n, dir) == Some(Box::new(c)));
        assert(seq_of(Some(Box::new(c))).len() == c.count);
    }
    old_parent.count -= new_parent.count;
    let grand_child = if dir == 0 {
        new_parent.right.take()
    } else {
        new_parent.left.take()
    };
    let grand_child_count = count_of(&grand_child);
    new_parent.count -= grand_child_count;
    if dir == 0 {
        old_parent.left = grand_child;
    } else {
        old_parent.right = grand_child;
    }
    old_parent.count += grand_child_count;
    new_parent.count += old_parent.count;
    if dir == 0 {
        new_parent.right = Some(old_parent);
    } else {
        new_parent.left = Some(old_parent);
    }
    *anchor = Some(new_parent);
}

/// The node with its child on side `dir` replaced by `c` and its recorded
/// size grown by one.
spec fn regrown(n: ImplTreapNode, dir: usize, c: ImplTreapNode) -> ImplTreapNode {
    if dir == 0 {
        ImplTreapNode { left: Some(Box::new(c)), count: (n.count + 1) as usize, ..n }
    } else {
        ImplTreapNode { right: Some(Box::new(c)), count: (n.count + 1) as usize, ..n }
    }
}

proof fn lemma_regrown_seq(
    n0: ImplTreapNode,
    dir: usize,
    c1: ImplTreapNode,
    index: int,
    sub_index: int,
    value: u64,
    priority: u64,
)
    requires
        counted(n0),
        dir < 2,
        0 <= index <= seq_of(Some(Box::new(n0))).len(),
        seq_of(Some(Box::new(n0))).len() < usize::MAX,
        dir == 0 ==> sub_index == index && index <= seq_of(n0.left).len(),
        dir == 1 ==> sub_index == index - seq_of(n0.left).len() - 1 && index > seq_of(
            n0.left,
        ).len(),
        seq_of(Some(Box::new(c1))) == seq_of(child_at(n0, dir)).insert(sub_index, value),
        prio_seq(Some(Box::new(c1))) == prio_seq(child_at(n0, dir)).insert(sub_index, priority),
    ensures
        seq_of(Some(Box::new(regrown(n0, dir, c1)))) == seq_of(Some(Box::new(n0))).insert(
            index,
            value,
        ),
        prio_seq(Some(Box::new(regrown(n0, dir, c1)))) == prio_seq(Some(Box::new(n0))).insert(
            index,
            priority,
        ),
        counted(regrown(n0, dir, c1)),
{
    let n1 = regrown(n0, dir, c1);
    lemma_prio_len(n0.left);
    lemma_prio_len(n0.right);
    lemma_prio_len(Some(Box::new(c1)));
    lemma_prio_len(child_at(n0, dir));
    assert(seq_of(Some(Box::new(n1))) == seq_of(n1.left) + seq![n1.value] + seq_of(n1.right));
    assert(prio_seq(Some(Box::new(n1))) == prio_seq(n1.left) + seq![n1.priority] + prio_seq(n1.right));
    assert(seq_of(Some(Box::new(n0))) == seq_of(n0.left) + seq![n0.value] + seq_of(n0.right));
    assert(prio_seq(Some(Box::new(n0))) == prio_seq(n0.left) + seq![n0.priority] + prio_seq(n0.right));
    assert(seq_of(Some(Box::new(n1))) =~= seq_of(Some(Box::new(n0))).insert(index, value));
    assert(prio_seq(Some(Box::new(n1))) =~= prio_seq(Some(Box::new(n0))).insert(index, priority));
    assert(seq_of(child_at(n1, dir)).len() == seq_of(child_at(n0, dir)).len() + 1);
}

/// The grown child keeps below the node's priority: heap order holds.
proof fn lemma_regrown_kept(n0: ImplTreapNode, dir: usize, c1: ImplTreapNode)
    requires
        dir < 2,
        wf(Some(Box::new(n0))),
        wf(Some(Box::new(c1))),
        counted(regrown(n0, dir, c1)),
        c1.priority <= n0.priority,
    ensures
        wf(Some(Box::new(regrown(n0, dir, c1)))),
{
    let n1 = regrown(n0, dir, c1);
    let grown = child_at(n1, dir);
    assert(heaped(c1));
    assert(prios(grown) == prios(c1.left).union(prios(c1.right)).insert(c1.priority));
    assert forall|p: u64| prios(grown).contains(p) implies p <= n1.priority by {
        if p != c1.priority {
            assert(prios(c1.left).contains(p) || prios(c1.right).contains(p));
        }
    }
    assert(heaped(n1));
}

/// The grown child's root, new and of higher priority, rotates above the
/// node: the result is sound, and the priorities below its root all were in
/// the node's subtree.
proof fn lemma_regrown_rises(n0: ImplTreapNode, dir: usize, c1: ImplTreapNode)
    requires
        dir < 2,
        wf(Some(Box::new(n0))),
        wf(Some(Box::new(c1))),
        counted(regrown(n0, dir, c1)),
        c1.priority > n0.priority,
        prios(c1.left).subset_of(prios(child_at(n0, dir))),
        prios(c1.right).subset_of(prios(child_at(n0, dir))),
    ensures
        wf(rotated(Some(Box::new(regrown(n0, dir, c1))), dir)),
        prios(rotated(Some(Box::new(regrown(n0, dir, c1))), dir).unwrap().left).subset_of(
            prios(Some(Box::new(n0))),
        ),
        prios(rotated(Some(Box::new(regrown(n0, dir, c1))), dir).unwrap().right).subset_of(
            prios(Some(Box::new(n0))),
        ),
{
    let o = (1 - dir) as usize;
    let a1 = Some(Box::new(regrown(n0, dir, c1)));
    let a0 = Some(Box::new(n0));
    assert(heaped(n0));
    assert(wf(child_at(n0, o)));
    lemma_rotated(a1, dir);
    let t = *rotated(a1, dir).unwrap();
    let m = *child_at(t, o).unwrap();
    assert(prios(a0) == prios(n0.left).union(prios(n0.right)).insert(n0.priority));
    let moved = child_at(m, dir);
    assert forall|p: u64| prios(moved).contains(p) implies p <= m.priority by {
        assert(prios(child_at(n0, dir)).contains(p));
    }
    assert(heaped(m));
    let demoted = child_at(t, o);
    assert(wf(demoted));
    assert forall|p: u64| prios(demoted).contains(p) implies p <= t.priority by {
        if p != n0.priority {
            if prios(child_at(n0, o)).contains(p) {
                assert(p <= n0.priority);
            } else {
                assert(prios(child_at(n0, dir)).contains(p));
            }
        }
    }
    assert(heaped(t));
    let outer = child_at(t, dir);
    assert forall|p: u64| prios(outer).contains(p) implies prios(a0).contains(p) by {
        assert(prios(child_at(n0, dir)).contains(p));
    }
    assert forall|p: u64| prios(demoted).contains(p) implies prios(a0).contains(p) by {
        if p != n0.priority && !prios(child_at(n0, o)).contains(p) {
            assert(prios(child_at(n0, dir)).contains(p));
        }
    }
    assert(prios(t.left).subset_of(prios(a0)));
    assert(prios(t.right).subset_of(prios(a0)));
}

/// Inserts `value` at position `index` of the subtree's sequence, as a leaf
/// that then rotates up while its priority exceeds its parent's. Returns
/// whether the subtree's root is now the new node, whose priority its parent
/// has yet to be compared with; otherwise the root is the one that was there.
fn insert_into(anchor: &mut Anchor, index: usize, value: u64, priority: u64) -> (r: bool)
    requires
        wf(*old(anchor)),
        index <= seq_of(*old(anchor)).len(),
        seq_of(*old(anchor)).len() < usize::MAX,
    ensures
        wf(*final(anchor)),
        final(anchor).is_some(),
        seq_of(*final(anchor)) == seq_of(*old(anchor)).insert(index as int, value),
        prio_seq(*final(anchor)) == prio_seq(*old(anchor)).insert(index as int, priority),
        !r ==> old(anchor).is_some() && final(anchor).unwrap().priority == old(
            anchor,
        ).unwrap().priority,
        r ==> prios(final(anchor).unwrap().left).subset_of(prios(*old(anchor)))
            && prios(final(anchor).unwrap().right).subset_of(prios(*old(anchor))),
    decreases *old(anchor),
{
    let ghost a0 = *anchor;
    match anchor.take() {
        None => {
            *anchor = Some(Box::new(ImplTreapNode::new(value, priority)));
            proof {
                assert(seq_of(*anchor) =~= seq_of(a0).insert(index as int, value));
                assert(prio_seq(*anchor) =~= prio_seq(a0).insert(index as int, priority));
                assert(prios(anchor.unwrap().left) =~= Set::<u64>::empty());
                assert(prios(anchor.unwrap().right) =~= Set::<u64>::empty());
            }
            true
        },
        Some(mut node) => {
            let ghost n0 = *node;
            proof {
                assert(wf(n0.left) && wf(n0.right) && counted(n0) && heaped(n0));
        lemma_prio_len(n0.left);
        lemma_prio_len(n0.right);
                if n0.left is Some {
                    assert(counted(*n0.left.unwrap()));
                }
                assert(seq_of(a0) == seq_of(n0.left) + seq![n0.value] + seq_of(n0.right));
                assert(prio_seq(a0) == prio_seq(n0.left) + seq![n0.priority] + prio_seq(n0.right));
            }
            let current_index = count_of(&node.left);
            let (dir, sub_index): (usize, usize) = if index <= current_index {
                (0, index)
            } else {
                (1, index - current_index - 1)
            };
            let mut sub = if dir == 0 {
                node.left.take()
            } else {
                node.right.take()
            };
            assert(sub == child_at(n0, dir));
            let r = insert_into(&mut sub, sub_index, value, priority);
            let child_priority = match &sub {
                Some(c) => c.priority,
                None => 0,
            };
            let ghost c1 = *sub.unwrap();
            if dir == 0 {
                node.left = sub;
            } else {
                node.right = sub;
            }
            node.count += 1;
            let node_priority = node.priority;
            *anchor = Some(node);
            proof {
                assert(*anchor.unwrap() == regrown(n0, dir, c1));
                lemma_regrown_seq(n0, dir, c1, index as int, sub_index as int, value, priority);
            }
            if !r {
                proof {
                    let oc = *child_at(n0, dir).unwrap();
                    assert(prios(child_at(n0, dir)) == prios(oc.left).union(prios(oc.right)).insert(
                        oc.priority,
                    ));
                    assert(prios(child_at(n0, dir)).contains(oc.priority));
                    lemma_regrown_kept(n0, dir, c1);
                }
                return false;
            }
            if child_priority > node_priority {
                // the new node rotates up above this one
                proof {
                    lemma_rotated(*anchor, dir);
                    lemma_regrown_rises(n0, dir, c1);
                }
                rotate(anchor, dir);
                true
            } else {
                proof {
                    lemma_regrown_kept(n0, dir, c1);
                }
                false
            }
        },
    }
}

/// Rotates the root of a subtree down, each time below its child of highest
/// priority, until no child's priority exceeds its own. The root alone may be
/// out of heap order on entry.
fn bubble_down(anchor: &mut Anchor)
    requires
        old(anchor).is_some(),
        counted(*old(anchor).unwrap()),
        wf(old(anchor).unwrap().left),
        wf(old(anchor).unwrap().right),
    ensures
        wf(*final(anchor)),
        seq_of(*final(anchor)) == seq_of(*old(anchor)),
        prio_seq(*final(anchor)) == prio_seq(*old(anchor)),
        prios(*final(anchor)) == prios(*old(anchor)),
    decreases seq_of(*old(anchor)).len(),
{
    let ghost a0 = *anchor;
    let ghost n0 = *a0.unwrap();
    let node = anchor.take().unwrap();
    let mut max_priority = node.priority;
    let mut max_priority_dir: usize = 2;
    if let Some(child) = &node.left {
        if child.priority > max_priority {
            max_priority = child.priority;
            max_priority_dir = 0;
        }
    }
    if let Some(child) = &node.right {
        if child.priority > max_priority {
            max_priority_dir = 1;
        }
    }
    *anchor = Some(node);
    if max_priority_dir == 2 {
        proof {
            lemma_root_bounds(n0.left);
            lemma_root_bounds(n0.right);
        }
        return;
    }
    let dir = max_priority_dir;
    proof {
        assert(wf(child_at(n0, dir)));
        lemma_rotated(a0, dir);
    }
    rotate(anchor, dir);
    let ghost a1 = *anchor;
    let mut top = anchor.take().unwrap();
    let mut sub = if dir == 0 {
        top.right.take()
    } else {
        top.left.take()
    };
    bubble_down(&mut sub);
    if dir == 0 {
        top.right = sub;
    } else {
        top.left = sub;
    }
    *anchor = Some(top);
    proof {
        let o = (1 - dir) as usize;
        let t1 = *a1.unwrap();
        let t = *anchor.unwrap();
        let c = *child_at(n0, dir).unwrap();
        assert(child_at(t, dir) == child_at(t1, dir));
        assert(counted(t));
        lemma_root_bounds(child_at(n0, o));
        assert(heaped(t));
        assert(seq_of(*anchor) =~= seq_of(a1));
        assert(prio_seq(*anchor) =~= prio_seq(a1));
        assert(prios(*anchor) =~= prios(a1));
    }
}

/// In a sound subtree no priority exceeds the root's.
proof fn lemma_root_bounds(a: Anchor)
    requires
        wf(a),
    ensures
        a is Some ==> forall|p: u64| prios(a).contains(p) ==> p <= a.unwrap().priority,
{
    if let Some(n) = a {
        assert(prios(a) == prios(n.left).union(prios(n.right)).insert(n.priority));
        assert(heaped(*n));
    }
}

/// Detaches the first node of a non-empty subtree and returns it, emptied of
/// children.
fn remove_leftmost(anchor: &mut Anchor) -> (r: Box<ImplTreapNode>)
    requires
        old(anchor).is_some(),
        wf(*old(anchor)),
    ensures
        wf(*final(anchor)),
        seq_of(*old(anchor)).len() > 0,
        r.value == seq_of(*old(anchor))[0],
        r.priority == prio_seq(*old(anchor))[0],
        r.left is None,
        r.right is None,
        prios(*old(anchor)).contains(r.priority),
        seq_of(*final(anchor)) == seq_of(*old(anchor)).drop_first(),
        prio_seq(*final(anchor)) == prio_seq(*old(anchor)).drop_first(),
        prios(*final(anchor)).subset_of(prios(*old(anchor))),
    decreases *old(anchor),
{
    let ghost a0 = *anchor;
    let mut node = anchor.take().unwrap();
    let ghost n0 = *node;
    proof {
        assert(seq_of(a0) == seq_of(n0.left) + seq![n0.value] + seq_of(n0.right));
        assert(prio_seq(a0) == prio_seq(n0.left) + seq![n0.priority] + prio_seq(n0.right));
        assert(prios(a0) == prios(n0.left).union(prios(n0.right)).insert(n0.priority));
    }
    if node.left.is_none() {
        *anchor = node.right.take();
        proof {
            assert(seq_of(*anchor) =~= seq_of(a0).drop_first());
            assert(prio_seq(*anchor) =~= prio_seq(a0).drop_first());
        }
        return node;
    }
    let min = remove_leftmost(&mut node.left);
    node.count -= 1;
    *anchor = Some(node);
    proof {
        let n1 = *anchor.unwrap();
        assert(seq_of(*anchor) == seq_of(n1.left) + seq![n1.value] + seq_of(n1.right));
        assert(prio_seq(*anchor) == prio_seq(n1.left) + seq![n1.priority] + prio_seq(n1.right));
        assert(seq_of(*anchor) =~= seq_of(a0).drop_first());
        assert(prio_seq(*anchor) =~= prio_seq(a0).drop_first());
        assert(counted(n1));
        assert(heaped(n1));
        assert(prios(*anchor) == prios(n1.left).union(prios(n1.right)).insert(n1.priority));
    }
    min
}

/// Removes the root of a sound subtree and returns what takes its place.
fn remove_root(node: Box<ImplTreapNode>) -> (r: Anchor)
    requires
        wf(Some(node)),
    ensures
        wf(r),
        seq_of(r) == seq_of(Some(node)).remove(seq_of(node.left).len() as int),
        prio_seq(r) == prio_seq(Some(node)).remove(seq_of(node.left).len() as int),
        prios(r).subset_of(prios(Some(node))),
{
    let ghost a0 = Some(node);
    let ghost n0 = *node;
    let mut node = node;
    proof {
        assert(seq_of(a0) == seq_of(n0.left) + seq![n0.value] + seq_of(n0.right));
        assert(prio_seq(a0) == prio_seq(n0.left) + seq![n0.priority] + prio_seq(n0.right));
        assert(prios(a0) == prios(n0.left).union(prios(n0.right)).insert(n0.priority));
        assert(wf(n0.left) && wf(n0.right) && counted(n0) && heaped(n0));
        lemma_prio_len(n0.left);
        lemma_prio_len(n0.right);
    }
    let ghost index = seq_of(n0.left).len() as int;
    let left = node.left.take();
    let right = node.right.take();
    if left.is_none() {
        proof {
            assert(seq_of(right) =~= seq_of(a0).remove(index));
            assert(prio_seq(right) =~= prio_seq(a0).remove(index));
        }
        return right;
    }
    if right.is_none() {
        proof {
            assert(seq_of(left) =~= seq_of(a0).remove(index));
            assert(prio_seq(left) =~= prio_seq(a0).remove(index));
        }
        return left;
    }
    let mut right_node = right.unwrap();
    let ghost r0 = *right_node;
    proof {
        assert(seq_of(n0.right) == seq_of(r0.left) + seq![r0.value] + seq_of(r0.right));
        assert(prio_seq(n0.right) == prio_seq(r0.left) + seq![r0.priority] + prio_seq(r0.right));
        assert(prios(n0.right) == prios(r0.left).union(prios(r0.right)).insert(r0.priority));
    }
    let mut anchor: Anchor;
    if right_node.left.is_none() {
        // the right child takes the node's place, then sinks to its rank of
        // priority
        right_node.left = left;
        right_node.count = node.count - 1;
        anchor = Some(right_node);
        proof {
            let n1 = *anchor.unwrap();
            assert(seq_of(anchor) == seq_of(n1.left) + seq![n1.value] + seq_of(n1.right));
            assert(prio_seq(anchor) == prio_seq(n1.left) + seq![n1.priority] + prio_seq(n1.right));
            assert(seq_of(anchor) =~= seq_of(a0).remove(index));
            assert(prio_seq(anchor) =~= prio_seq(a0).remove(index));
            assert(counted(n1));
            assert(prios(anchor) == prios(n1.left).union(prios(n1.right)).insert(n1.priority));
            assert(prios(anchor).subset_of(prios(a0)));
        }
    } else {
        // the first node of the right subtree is detached, takes the node's
        // place, then sinks to its rank
        let mut right_slot = Some(right_node);
        let mut new_node = remove_leftmost(&mut right_slot);
        new_node.count = node.count - 1;
        new_node.left = left;
        new_node.right = right_slot;
        anchor = Some(new_node);
        proof {
            let n1 = *anchor.unwrap();
            assert(seq_of(anchor) == seq_of(n1.left) + seq![n1.value] + seq_of(n1.right));
            assert(prio_seq(anchor) == prio_seq(n1.left) + seq![n1.priority] + prio_seq(n1.right));
            assert(seq_of(anchor) =~= seq_of(a0).remove(index));
            assert(prio_seq(anchor) =~= prio_seq(a0).remove(index));
            assert(counted(n1));
            assert(prios(anchor) == prios(n1.left).union(prios(n1.right)).insert(n1.priority));
            assert(prios(anchor).subset_of(prios(a0)));
        }
    }
    bubble_down(&mut anchor);
    anchor
}

/// Removes the value at position `index` of the subtree's sequence and
/// returns it.
#[verifier::rlimit(40)]
fn remove_from(anchor: &mut Anchor, index: usize) -> (r: u64)
    requires
        wf(*old(anchor)),
        index < seq_of(*old(anchor)).len(),
    ensures
        wf(*final(anchor)),
        r == seq_of(*old(anchor))[index as int],
        seq_of(*final(anchor)) == seq_of(*old(anchor)).remove(index as int),
        prio_seq(*final(anchor)) == prio_seq(*old(anchor)).remove(index as int),
        prios(*final(anchor)).subset_of(prios(*old(anchor))),
    decreases *old(anchor),
{
    let ghost a0 = *anchor;
    let mut node = anchor.take().unwrap();
    let ghost n0 = *node;
    proof {
        assert(seq_of(a0) == seq_of(n0.left) + seq![n0.value] + seq_of(n0.right));
        assert(prio_seq(a0) == prio_seq(n0.left) + seq![n0.priority] + prio_seq(n0.right));
        assert(prios(a0) == prios(n0.left).union(prios(n0.right)).insert(n0.priority));
        assert(wf(n0.left) && wf(n0.right) && counted(n0) && heaped(n0));
        lemma_prio_len(n0.left);
        lemma_prio_len(n0.right);
        if n0.left is Some {
            assert(counted(*n0.left.unwrap()));
        }
    }
    let current_index = count_of(&node.left);
    if index == current_index {
        let ret = node.value;
        *anchor = remove_root(node);
        ret
    } else {
        let ret = if index < current_index {
            remove_from(&mut node.left, index)
        } else {
            remove_from(&mut node.right, index - current_index - 1)
        };
        node.count -= 1;
        *anchor = Some(node);
        proof {
            let n1 = *anchor.unwrap();
            assert(seq_of(*anchor) == seq_of(n1.left) + seq![n1.value] + seq_of(n1.right));
            assert(prio_seq(*anchor) == prio_seq(n1.left) + seq![n1.priority] + prio_seq(n1.right));
            assert(seq_of(*anchor) =~= seq_of(a0).remove(index as int));
            assert(prio_seq(*anchor) =~= prio_seq(a0).remove(index as int));
            assert(counted(n1));
            assert(heaped(n1));
            assert(prios(*anchor) == prios(n1.left).union(prios(n1.right)).insert(n1.priority));
        }
        ret
    }
}

/// One line of a pre-order outline of the tree: a node, with its depth (the
/// root at 0), value and priority, or an empty slot, with the depth of the
/// node that holds it (`None` for the slot of an empty sequence).
#[derive(Clone, Copy, Debug, PartialEq, Eq, Structural)]
pub enum OutlineLine {
    Node { depth: u64, value: u64, priority: u64 },
    Empty { parent_depth: Option<u64> },
}

/// Number of nodes on the longest path down (0 for an empty slot).
spec fn height(a: Anchor) -> nat
    decreases a,
{
    match a {
        None => 0,
        Some(n) => {
            let hl = height(n.left);
            let hr = height(n.right);
            1 + if hl >= hr { hl } else { hr }
        },
    }
}

/// A subtree is no taller than the number of values it holds.
proof fn lemma_height_len(a: Anchor)
    ensures
        height(a) <= seq_of(a).len(),
    decreases a,
{
    if let Some(n) = a {
        lemma_height_len(n.left);
        lemma_height_len(n.right);
    }
}

/// Depth of a node whose parent is at `parent` (`None` for the root).
spec fn depth_below(parent: Option<u64>) -> int {
    match parent {
        None => 0,
        Some(p) => p + 1,
    }
}

/// Pre-order outline of the subtree in a slot held by a node at `parent`.
spec fn outline(a: Anchor, parent: Option<u64>) -> Seq<OutlineLine>
    decreases a,
{
    match a {
        None => seq![OutlineLine::Empty { parent_depth: parent }],
        Some(n) => {
            let d = depth_below(parent) as u64;
            seq![OutlineLine::Node { depth: d, value: n.value, priority: n.priority }] + outline(
                n.left,
                Some(d),
            ) + outline(n.right, Some(d))
        },
    }
}

fn outline_into(anchor: &Anchor, parent: Option<u64>, out: &mut Vec<OutlineLine>)
    requires
        depth_below(parent) + height(*anchor) <= u64::MAX + 1,
    ensures
        final(out)@ == old(out)@ + outline(*anchor, parent),
    decreases anchor,
{
    match anchor {
        None => {
            out.push(OutlineLine::Empty { parent_depth: parent });
        },
        Some(node) => {
            let depth: u64 = match parent {
                None => 0,
                Some(p) => p + 1,
            };
            out.push(OutlineLine::Node { depth, value: node.value, priority: node.priority });
            outline_into(&node.left, Some(depth), out);
            outline_into(&node.right, Some(depth), out);
            proof {
                assert(out@ =~= old(out)@ + outline(*anchor, parent));
            }
        },
    }
}

/// No priority of `s` exceeds the bound, if one is given.
spec fn capped(s: Set<u64>, cap: Option<u64>) -> bool {
    forall|p: u64| s.contains(p) ==> (cap is Some ==> p <= cap.unwrap())
}

/// Whether the subtree is sound with no priority above its parent's; if so,
/// also its size.
fn check_subtree(anchor: &Anchor, parent_priority: Option<u64>) -> (r: (bool, usize))
    ensures
        r.0 == (wf(*anchor) && capped(prios(*anchor), parent_priority)),
        r.0 ==> r.1 == seq_of(*anchor).len(),
    decreases anchor,
{
    match anchor {
        None => (true, 0),
        Some(node) => {
            proof {
                assert(prios(*anchor) == prios(node.left).union(prios(node.right)).insert(
                    node.priority,
                ));
                assert(prios(*anchor).contains(node.priority));
            }
            if let Some(pp) = parent_priority {
                if node.priority > pp {
                    return (false, 0);
                }
            }
            let prio = Some(node.priority);
            let (left_ok, left_count) = check_subtree(&node.left, prio);
            if !left_ok {
                return (false, 0);
            }
            let (right_ok, right_count) = check_subtree(&node.right, prio);
            if !right_ok {
                return (false, 0);
            }
            if node.count < 1 || node.count - 1 < left_count || node.count - 1 - left_count
                != right_count {
                return (false, 0);
            }
            proof {
                assert(counted(**node));
                assert(heaped(**node));
                assert forall|p: u64| prios(*anchor).contains(p) implies (parent_priority is Some
                    ==> p <= parent_priority.unwrap()) by {
                    if p != node.priority {
                        assert(prios(node.left).contains(p) || prios(node.right).contains(p));
                    }
                }
            }
            (true, node.count)
        },
    }
}

/// A sequence of `u64` values kept in an implicit treap: inserting and
/// removing at any position take time logarithmic in the length, expected.
pub struct ImplTreap {
    root: Anchor,
    size: usize,
}

impl View for ImplTreap {
    type V = Seq<u64>;

    closed spec fn view(&self) -> Seq<u64> {
        seq_of(self.root)
    }
}

impl ImplTreap {
    #[verifier::type_invariant]
    spec fn inv(self) -> bool {
        &&& wf(self.root)
        &&& self.size == seq_of(self.root).len()
    }

    /// Sizes recorded in the nodes are right and no priority exceeds its
    /// parent's.
    pub closed spec fn is_treap(&self) -> bool {
        wf(self.root)
    }

    /// Pre-order outline of the tree: each node with its depth, value and
    /// priority, and each empty slot.
    pub closed spec fn outline_lines(&self) -> Seq<OutlineLine> {
        outline(self.root, None)
    }

    /// The tree's outline, for display: one line per node and per empty slot,
    /// in pre-order.
    pub fn outline(&self) -> (r: Vec<OutlineLine>)
        ensures
            r@ == self.outline_lines(),
    {
        proof {
            use_type_invariant(self);
            lemma_height_len(self.root);
        }
        let mut out = Vec::new();
        outline_into(&self.root, None, &mut out);
        proof {
            assert(out@ =~= self.outline_lines());
        }
        out
    }

    /// An empty sequence.
    pub fn new() -> (t: ImplTreap)
        ensures
            t@ == Seq::<u64>::empty(),
    {
        ImplTreap { root: None, size: 0 }
    }

    /// Consistency pass: walks the whole tree and reports whether the sizes
    /// recorded in the nodes are right and no priority exceeds its parent's.
    /// The invariant that every operation maintains makes it always hold.
    pub fn check(&self) -> (r: bool)
        ensures
            r == self.is_treap(),
            r,
    {
        proof {
            use_type_invariant(self);
        }
        check_subtree(&self.root, None).0
    }

    /// The priorities of the nodes, in the order of their values.
    pub closed spec fn priorities(&self) -> Seq<u64> {
        prio_seq(self.root)
    }

    /// Inserts `value` at position `index`, shifting the later values up; its
    /// node gets a fresh random priority.
    pub fn insert(&mut self, index: usize, value: u64)
        requires
            index <= old(self)@.len(),
            old(self)@.len() < usize::MAX,
        ensures
            final(self)@ == old(self)@.insert(index as int, value),
            exists|p: u64| final(self).priorities() == old(self).priorities().insert(index as int, p),
    {
        let priority: u64 = rand::random();
        self.insert_with_priority(index, value, priority);
    }

    /// Inserts `value` at position `index`, shifting the later values up; its
    /// node gets the given priority, and every other node keeps its own.
    pub fn insert_with_priority(&mut self, index: usize, value: u64, priority: u64)
        requires
            index <= old(self)@.len(),
            old(self)@.len() < usize::MAX,
        ensures
            final(self)@ == old(self)@.insert(index as int, value),
            final(self).priorities() == old(self).priorities().insert(index as int, priority),
    {
        let mut t = ImplTreap::new();
        std::mem::swap(self, &mut t);
        proof {
            use_type_invariant(&t);
        }
        let ImplTreap { root, size } = t;
        let mut root = root;
        insert_into(&mut root, index, value, priority);
        *self = ImplTreap { root, size: size + 1 };
    }

    /// Appends `value` at the end; its node gets a fresh random priority.
    pub fn push(&mut self, value: u64)
        requires
            old(self)@.len() < usize::MAX,
        ensures
            final(self)@ == old(self)@.push(value),
            exists|p: u64| final(self).priorities() == old(self).priorities().push(p),
    {
        proof {
            use_type_invariant(&*self);
            lemma_prio_len(self.root);
        }
        let size = self.size;
        self.insert(size, value);
        proof {
            assert(old(self)@.insert(size as int, value) =~= old(self)@.push(value));
            let p = choose|p: u64| final(self).priorities() == old(self).priorities().insert(
                size as int,
                p,
            );
            assert(old(self).priorities().insert(size as int, p) =~= old(self).priorities().push(p));
        }
    }

    /// Removes the value at position `index` and returns it, shifting the
    /// later values down.
    pub fn remove(&mut self, index: usize) -> (r: u64)
        requires
            index < old(self)@.len(),
        ensures
            r == old(self)@[index as int],
            final(self)@ == old(self)@.remove(index as int),
            final(self).priorities() == old(self).priorities().remove(index as int),
    {
        let mut t = ImplTreap::new();
        std::mem::swap(self, &mut t);
        proof {
            use_type_invariant(&t);
        }
        let ImplTreap { root, size } = t;
        let mut root = root;
        let ret = remove_from(&mut root, index);
        *self = ImplTreap { root, size: size - 1 };
        ret
    }

    /// Removes and returns the last value, or returns `None` when empty.
    pub fn pop(&mut self) -> (r: Option<u64>)
        ensures
            old(self)@.len() == 0 ==> r is None && final(self)@ == old(self)@,
            old(self)@.len() > 0 ==> r == Some(old(self)@.last()) && final(self)@ == old(
                self,
            )@.drop_last(),
            old(self)@.len() > 0 ==> final(self).priorities() == old(self).priorities().drop_last(),
    {
        proof {
            use_type_invariant(&*self);
            lemma_prio_len(self.root);
        }
        if self.size == 0 {
            None
        } else {
            let last = self.size - 1;
            let r = self.remove(last);
            proof {
                assert(old(self)@.remove(last as int) =~= old(self)@.drop_last());
                assert(old(self).priorities().remove(last as int) =~= old(
                    self,
                ).priorities().drop_last());
            }
            Some(r)
        }
    }

    /// A walk over the values in order.
    pub fn iter(&self) -> (r: IterRef<'_>)
        ensures
            r.remaining() == self@,
    {
        IterRef::new(self)
    }
}

/// How far a walk has got with a node.
#[derive(Clone, Copy, PartialEq, Eq, Structural)]
enum ExplorationState {
    /// Nothing of the subtree has been yielded yet.
    Unexplored,
    /// The left subtree has been yielded: the node's value and its right
    /// subtree are left.
    LeftYielded,
}

spec fn entry_values(e: (ExplorationState, &ImplTreapNode)) -> Seq<u64> {
    match e.0 {
        ExplorationState::Unexplored => seq_of(e.1.left) + seq![e.1.value] + seq_of(e.1.right),
        ExplorationState::LeftYielded => seq![e.1.value] + seq_of(e.1.right),
    }
}

spec fn entry_cost(e: (ExplorationState, &ImplTreapNode)) -> nat {
    match e.0 {
        ExplorationState::Unexplored => 2 * (seq_of(e.1.left).len() + seq_of(e.1.right).len() + 1)
            + 1,
        ExplorationState::LeftYielded => 2 * seq_of(e.1.right).len() + 1,
    }
}

/// Values that a walk's stack has yet to yield, top entry first.
spec fn pending(s: Seq<(ExplorationState, &ImplTreapNode)>) -> Seq<u64>
    decreases s.len(),
{
    if s.len() == 0 {
        Seq::empty()
    } else {
        entry_values(s.last()) + pending(s.drop_last())
    }
}

spec fn stack_cost(s: Seq<(ExplorationState, &ImplTreapNode)>) -> nat
    decreases s.len(),
{
    if s.len() == 0 {
        0
    } else {
        entry_cost(s.last()) + stack_cost(s.drop_last())
    }
}

proof fn lemma_push(
    s: Seq<(ExplorationState, &ImplTreapNode)>,
    e: (ExplorationState, &ImplTreapNode),
)
    ensures
        pending(s.push(e)) == entry_values(e) + pending(s),
        stack_cost(s.push(e)) == entry_cost(e) + stack_cost(s),
{
    assert(s.push(e).drop_last() =~= s);
}

/// A walk over the values of an `ImplTreap` in order, borrowing it.
pub struct IterRef<'a> {
    stack: Vec<(ExplorationState, &'a ImplTreapNode)>,
}

impl<'a> IterRef<'a> {
    fn new(treap: &'a ImplTreap) -> (r: IterRef<'a>)
        ensures
            r.remaining() == treap@,
    {
        match &treap.root {
            None => {
                let r = IterRef { stack: Vec::new() };
                proof {
                    assert(r.remaining() =~= treap@);
                }
                r
            },
            Some(node) => {
                let e = (ExplorationState::Unexplored, &**node);
                let r = IterRef { stack: vec![e] };
                proof {
                    lemma_push(Seq::empty(), e);
                    assert(r.stack@ =~= Seq::<(ExplorationState, &ImplTreapNode)>::empty().push(e));
                    assert(r.remaining() =~= treap@);
                }
                r
            },
        }
    }

    /// The values that the walk has yet to yield, in the order it yields them.
    pub closed spec fn remaining(&self) -> Seq<u64> {
        pending(self.stack@)
    }

    /// Yields the next value, or `None` once all have been yielded.
    pub fn next(&mut self) -> (r: Option<&'a u64>)
        ensures
            old(self).remaining().len() == 0 ==> r is None && final(self).remaining()
                == old(self).remaining(),
            old(self).remaining().len() > 0 ==> r is Some && *r.unwrap() == old(
                self,
            ).remaining()[0] && final(self).remaining() == old(self).remaining().drop_first(),
    {
        loop
            invariant
                self.remaining() == old(self).remaining(),
            decreases stack_cost(self.stack@),
        {
            let ghost s0 = self.stack@;
            match self.stack.pop() {
                None => {
                    return None;
                },
                Some((state, node)) => {
                    let ghost s1 = self.stack@;
                    proof {
                        assert(s0 =~= s1.push((state, node)));
                        lemma_push(s1, (state, node));
                    }
                    match state {
                        ExplorationState::Unexplored => {
                            let e = (ExplorationState::LeftYielded, node);
                            self.stack.push(e);
                            proof {
                                lemma_push(s1, e);
                            }
                            if let Some(child) = &node.left {
                                let f = (ExplorationState::Unexplored, &**child);
                                self.stack.push(f);
                                proof {
                                    lemma_push(s1.push(e), f);
                                }
                            }
                            proof {
                                assert(self.remaining() =~= old(self).remaining());
                            }
                        },
                        ExplorationState::LeftYielded => {
                            if let Some(child) = &node.right {
                                let f = (ExplorationState::Unexplored, &**child);
                                self.stack.push(f);
                                proof {
                                    lemma_push(s1, f);
                                }
                            }
                            proof {
                                assert(self.remaining() =~= old(self).remaining().drop_first());
                            }
                            return Some(&node.value);
                        },
                    }
                },
            }
        }
    }
}

} // verus!