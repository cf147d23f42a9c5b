//! AVL tree: a binary search tree whose every node records which of its two
//! subtrees is one level taller, if any, and which is rebalanced by rotations
//! after each insertion and deletion.

use vstd::arithmetic::power::lemma_pow0;
use vstd::arithmetic::power2::{lemma_pow2_unfold, pow2};
use vstd::prelude::*;

verus! {

/// A side of a node, or, as a balance indicator, the taller side (`Neither`
/// when both subtrees have the same height).
#[derive(Clone, Copy, Debug, PartialEq, Eq, Structural)]
pub enum NodeDirection {
    Left,
    Right,
    Neither,
}

impl NodeDirection {
    /// The opposite side.
    pub open spec fn flip(self) -> NodeDirection {
        match self {
            NodeDirection::Left => NodeDirection::Right,
            NodeDirection::Right => NodeDirection::Left,
            NodeDirection::Neither => NodeDirection::Neither,
        }
    }

    /// The opposite side.
    pub fn not(self) -> (r: NodeDirection)
        ensures
            r == self.flip(),
    {
        match self {
            NodeDirection::Left => NodeDirection::Right,
            NodeDirection::Right => NodeDirection::Left,
            NodeDirection::Neither => NodeDirection::Neither,
        }
    }
}

/// A slot that holds a subtree, or nothing.
type Anchor = Option<Box<Node>>;

/// A key, the side whose subtree is taller (if either), and the two subtrees:
/// smaller keys on the left, greater on the right.
struct Node {
    key: u64,
    longer_side: NodeDirection,
    left: Anchor,
    right: Anchor,
}

/// The subtree on side `dir` of the node.
spec fn child_at(n: Node, dir: NodeDirection) -> Anchor {
    if dir == NodeDirection::Left {
        n.left
    } else {
        n.right
    }
}

/// The node with its subtree on side `dir` replaced by `c`.
spec fn with_child(n: Node, dir: NodeDirection, c: Anchor) -> Node {
    if dir == NodeDirection::Left {
        Node { left: c, ..n }
    } else {
        Node { right: c, ..n }
    }
}

/// Number of nodes on the longest path down (0 for an empty slot).
spec fn height(a: Anchor) -> nat
    decreases a,
{
    match a {
        None => 0,
        Some(n) => {
            let hl = height(n.left);
            let hr = height(n.right);
            1 + if hl >= hr { hl } else { hr }
        },
    }
}

/// The keys stored in the subtree.
spec fn keys(a: Anchor) -> Set<u64>
    decreases a,
{
    match a {
        None => Set::empty(),
        Some(n) => keys(n.left).union(keys(n.right)).insert(n.key),
    }
}

/// Keys in ascending order, as an in-order walk visits them.
spec fn inorder(a: Anchor) -> Seq<u64>
    decreases a,
{
    match a {
        None => Seq::empty(),
        Some(n) => inorder(n.left) + seq![n.key] + inorder(n.right),
    }
}

/// Height of the right subtree minus height of the left one, as recorded.
spec fn bal(d: NodeDirection) -> int {
    match d {
        NodeDirection::Left => -1,
        NodeDirection::Right => 1,
        NodeDirection::Neither => 0,
    }
}

/// Keys on the left of the node are smaller than its own, keys on the right
/// greater.
spec fn ordered(n: Node) -> bool {
    &&& forall|k: u64| keys(n.left).contains(k) ==> k < n.key
    &&& forall|k: u64| keys(n.right).contains(k) ==> n.key < k
}

/// The node's own ordering and balance conditions, its subtrees assumed sound.
spec fn node_ok(n: Node) -> bool {
    &&& ordered(n)
    &&& height(n.right) - height(n.left) == bal(n.longer_side)
}

/// How far a balance indicator leans toward `dir`: 1 toward it, -1 away.
spec fn lean(s: NodeDirection, dir: NodeDirection) -> int {
    if s == NodeDirection::Neither {
        0
    } else if s == dir {
        1
    } else {
        -1
    }
}

/// A subtree whose children are sound and ordered around the root, but whose
/// `dir` side has just become one level taller than its indicator records:
/// by growth on that side, or by shrinking of the other one.
spec fn tipped(a: Anchor, dir: NodeDirection) -> bool {
    &&& a is Some
    &&& dir != NodeDirection::Neither
    &&& wf(a.unwrap().left)
    &&& wf(a.unwrap().right)
    &&& ordered(*a.unwrap())
    &&& height(child_at(*a.unwrap(), dir)) - height(child_at(*a.unwrap(), dir.flip())) == 1 + lean(
        a.unwrap().longer_side,
        dir,
    )
}

/// Height of the subtree on side `dir` of the root.
spec fn side_height(a: Anchor, dir: NodeDirection) -> nat {
    height(child_at(*a.unwrap(), dir))
}

/// Search-tree order and AVL balance hold at every node.
spec fn wf(a: Anchor) -> bool
    decreases a,
{
    match a {
        None => true,
        Some(n) => node_ok(*n) && wf(n.left) && wf(n.right),
    }
}

/// The subtree after the child on side `dir` of its root is promoted.
spec fn rotated(a: Anchor, dir: NodeDirection) -> Anchor {
    let n = *a.unwrap();
    let c = *child_at(n, dir).unwrap();
    Some(Box::new(with_child(c, dir.flip(), Some(Box::new(with_child(n, dir, child_at(c, dir.flip())))))))
}

impl Node {
    fn new(key: u64) -> (r: Node)
        ensures
            r == (Node { key, longer_side: NodeDirection::Neither, left: None, right: None }),
    {
        Node { key, longer_side: NodeDirection::Neither, left: None, right: None }
    }

    /// The side on which `key` lies relative to this node's key.
    fn dir(&self, key: u64) -> (r: NodeDirection)
        ensures
            r == NodeDirection::Left <==> key < self.key,
            r == NodeDirection::Right <==> key > self.key,
            r == NodeDirection::Neither <==> key == self.key,
    {
        if key < self.key {
            NodeDirection::Left
        } else if key > self.key {
            NodeDirection::Right
        } else {
            NodeDirection::Neither
        }
    }

    fn take_child(&mut self, dir: NodeDirection) -> (r: Anchor)
        requires
            dir != NodeDirection::Neither,
        ensures
            r == child_at(*old(self), dir),
            *final(self) == with_child(*old(self), dir, None),
    {
        if dir == NodeDirection::Left {
            self.left.take()
        } else {
            self.right.take()
        }
    }

    fn set_child(&mut self, dir: NodeDirection, c: Anchor)
        requires
            dir != NodeDirection::Neither,
        ensures
            *final(self) == with_child(*old(self), dir, c),
    {
        if dir == NodeDirection::Left {
            self.left = c;
        } else {
            self.right = c;
        }
    }
}

/// What a rotation keeps: the keys, their order, and the soundness of the
/// subtrees that it moves without looking into them. The balance indicators of
/// the two nodes that it moves may be stale.
proof fn lemma_rotated(a: Anchor, dir: NodeDirection)
    requires
        a is Some,
        dir != NodeDirection::Neither,
        child_at(*a.unwrap(), dir) is Some,
        wf(child_at(*a.unwrap(), dir.flip())),
        ordered(*a.unwrap()),
        ordered(*child_at(*a.unwrap(), dir).unwrap()),
        wf(child_at(*a.unwrap(), dir).unwrap().left),
        wf(child_at(*a.unwrap(), dir).unwrap().right),
    ensures
        ({
            let n = *a.unwrap();
            let c = *child_at(n, dir).unwrap();
            let r = *rotated(a, dir).unwrap();
            let m = *child_at(r, dir.flip()).unwrap();
            &&& m == with_child(n, dir, child_at(c, dir.flip()))
            &&& child_at(r, dir) == child_at(c, dir)
            &&& r.key == c.key
            &&& r.longer_side == c.longer_side
            &&& ordered(m)
            &&& ordered(r)
            &&& wf(child_at(m, dir.flip()))
            &&& wf(child_at(m, dir))
            &&& wf(child_at(r, dir))
            &&& keys(rotated(a, dir)) == keys(a)
            &&& inorder(rotated(a, dir)) == inorder(a)
        }),
{
    let n = *a.unwrap();
    let c = *child_at(n, dir).unwrap();
    let r = *rotated(a, dir).unwrap();
    let m = *child_at(r, dir.flip()).unwrap();
    assert(keys(child_at(n, dir)) == keys(c.left).union(keys(c.right)).insert(c.key));
    assert(keys(Some(Box::new(m))) == keys(m.left).union(keys(m.right)).insert(m.key));
    assert(keys(rotated(a, dir)) =~= keys(a));
    assert(inorder(child_at(n, dir)) == inorder(c.left) + seq![c.key] + inorder(c.right));
    assert(inorder(Some(Box::new(m))) == inorder(m.left) + seq![m.key] + inorder(m.right));
    assert(inorder(rotated(a, dir)) =~= inorder(a));
    assert(keys(child_at(n, dir)).contains(c.key));
    if dir == NodeDirection::Left {
        assert forall|k: u64| keys(m.left).contains(k) implies k < m.key by {
            assert(keys(child_at(n, dir)).contains(k));
        }
        assert forall|k: u64| keys(r.right).contains(k) implies r.key < k by {
            if keys(n.right).contains(k) {
                assert(n.key < k);
            }
        }
    } else {
        assert forall|k: u64| keys(m.right).contains(k) implies m.key < k by {
            assert(keys(child_at(n, dir)).contains(k));
        }
        assert forall|k: u64| keys(r.left).contains(k) implies k < r.key by {
            if keys(n.left).contains(k) {
                assert(k < n.key);
            }
        }
    }
    assert(ordered(m));
    assert(ordered(r));
    assert(wf(child_at(m, dir.flip())));
    assert(wf(child_at(m, dir)));
    assert(wf(child_at(r, dir)));
}

/// Promotes the child on side `dir` of the subtree's root to be its new root;
/// the old root becomes that child's opposite-side subtree.
fn rotate(anchor: &mut Anchor, dir: NodeDirection)
    requires
        dir != NodeDirection::Neither,
        old(anchor).is_some(),
        child_at(*old(anchor).unwrap(), dir) is Some,
    ensures
        *final(anchor) == rotated(*old(anchor), dir),
{
    let mut node = anchor.take().unwrap();
    let mut new_root = node.take_child(dir).unwrap();
    let inner = new_root.take_child(dir.not());
    node.set_child(dir, inner);
    new_root.set_child(dir.not(), Some(node));
    *anchor = Some(new_root);
}

fn contains_in(anchor: &Anchor, key: u64) -> (r: bool)
    requires
        wf(*anchor),
    ensures
        r == keys(*anchor).contains(key),
    decreases anchor,
{
    match anchor {
        None => false,
        Some(node) => {
            let dir = node.dir(key);
            if dir == NodeDirection::Neither {
                true
            } else if dir == NodeDirection::Left {
                assert(!keys(node.right).contains(key));
                contains_in(&node.left, key)
            } else {
                assert(!keys(node.left).contains(key));
                contains_in(&node.right, key)
            }
        },
    }
}

/// Inserts `key` below the slot; returns whether the subtree grew by one level.
fn insert_into(anchor: &mut Anchor, key: u64) -> (grew: bool)
    requires
        wf(*old(anchor)),
    ensures
        wf(*final(anchor)),
        keys(*final(anchor)) == keys(*old(anchor)).insert(key),
        height(*final(anchor)) == height(*old(anchor)) + if grew {
            1int
        } else {
            0int
        },
        grew ==> final(anchor).is_some() && (height(*final(anchor)) == 1
            || final(anchor).unwrap().longer_side != NodeDirection::Neither),
        keys(*old(anchor)).contains(key) ==> *final(anchor) == *old(anchor) && !grew,
    decreases *old(anchor),
{
    let ghost a0 = *anchor;
    match anchor.take() {
        None => {
            *anchor = Some(Box::new(Node::new(key)));
            proof {
                assert(keys(*anchor) =~= keys(a0).insert(key));
            }
            true
        },
        Some(mut node) => {
            let ghost n0 = *node;
            let dir = node.dir(key);
            if dir == NodeDirection::Neither {
                *anchor = Some(node);
                proof {
                    assert(keys(*anchor) =~= keys(a0).insert(key));
                }
                return false;
            }
            let mut sub = node.take_child(dir);
            assert(sub == child_at(n0, dir));
            let grew = insert_into(&mut sub, key);
            node.set_child(dir, sub);
            *anchor = Some(node);
            proof {
                let n1 = *anchor.unwrap();
                assert(child_at(n1, dir.flip()) == child_at(n0, dir.flip()));
                if dir == NodeDirection::Left {
                    assert(keys(n1.left) == keys(n0.left).insert(key));
                } else {
                    assert(keys(n1.right) == keys(n0.right).insert(key));
                }
                assert(ordered(n1));
                assert(keys(*anchor) =~= keys(a0).insert(key));
                if keys(a0).contains(key) {
                    // the key lies on side `dir`: that subtree came back unchanged
                    assert(node_ok(n0));
                    assert(keys(a0) == keys(n0.left).union(keys(n0.right)).insert(n0.key));
                    assert(keys(child_at(n0, dir)).contains(key));
                    assert(n1 == n0);
                }
            }
            if !grew {
                return false;
            }
            proof {
                let n1 = *anchor.unwrap();
                assert(wf(child_at(n1, dir)));
                assert(wf(child_at(n1, dir.flip())));
            }
            rebalance(anchor, dir)
        },
    }
}

/// The node with its balance indicator set to `s`.
spec fn with_side(n: Node, s: NodeDirection) -> Node {
    Node { longer_side: s, ..n }
}

/// A single rotation promoting the child on side `dir` of `n`, after the
/// indicators of `n` and of that child are set to `n_side` and `c_side`.
spec fn single_rotation(n: Node, dir: NodeDirection, n_side: NodeDirection, c_side: NodeDirection) -> Anchor {
    let c = *child_at(n, dir).unwrap();
    rotated(Some(Box::new(with_child(with_side(n, n_side), dir, Some(Box::new(with_side(c, c_side)))))), dir)
}

/// Indicators of the node and of its child on side `dir` after a double
/// rotation, from the old indicator `g_side` of the grandchild that becomes
/// the root.
spec fn double_sides(g_side: NodeDirection, dir: NodeDirection) -> (NodeDirection, NodeDirection) {
    if g_side == NodeDirection::Neither {
        (NodeDirection::Neither, NodeDirection::Neither)
    } else if g_side == dir {
        (dir.flip(), NodeDirection::Neither)
    } else {
        (NodeDirection::Neither, dir)
    }
}

/// A double rotation: the child `c` on side `dir` of `n` is rotated so that
/// its grandchild `g` on side `dir.flip()` comes up, then `n` is rotated so
/// that `g` becomes the root, balanced; the indicators of `n` and `c` follow
/// the old one of `g`.
spec fn double_rotation(n: Node, dir: NodeDirection) -> Anchor {
    let c = *child_at(n, dir).unwrap();
    let g = *child_at(c, dir.flip()).unwrap();
    let sides = double_sides(g.longer_side, dir);
    let c1 = with_child(
        with_side(c, sides.1),
        dir.flip(),
        Some(Box::new(with_side(g, NodeDirection::Neither))),
    );
    rotated(
        Some(Box::new(with_child(with_side(n, sides.0), dir, rotated(Some(Box::new(c1)), dir.flip())))),
        dir,
    )
}

/// Restores balance at a subtree's root after its `dir` side became one level
/// taller relative to the other (see `tipped`). Returns whether the subtree is
/// now one level taller than it was before that change, for a growth, or
/// still as tall as before, for a shrinking of the other side.
fn rebalance(anchor: &mut Anchor, dir: NodeDirection) -> (r: bool)
    requires
        tipped(*old(anchor), dir),
    ensures
        final(anchor).is_some(),
        wf(*final(anchor)),
        keys(*final(anchor)) == keys(*old(anchor)),
        inorder(*final(anchor)) == inorder(*old(anchor)),
        side_height(*old(anchor), dir) == side_height(*old(anchor), dir.flip()) + 1 ==> r
            && height(*final(anchor)) == side_height(*old(anchor), dir) + 1,
        side_height(*old(anchor), dir) == side_height(*old(anchor), dir.flip()) ==> !r
            && height(*final(anchor)) == side_height(*old(anchor), dir) + 1,
        side_height(*old(anchor), dir) == side_height(*old(anchor), dir.flip()) + 2 ==> (r
            <==> child_at(*old(anchor).unwrap(), dir).unwrap().longer_side == NodeDirection::Neither)
            && height(*final(anchor)) == side_height(*old(anchor), dir) + if r {
            1int
        } else {
            0int
        },
        r ==> final(anchor).unwrap().longer_side != NodeDirection::Neither,
        // the transition table, case by case
        old(anchor).unwrap().longer_side == NodeDirection::Neither ==> r && *final(anchor) == Some(
            Box::new(with_side(*old(anchor).unwrap(), dir)),
        ),
        old(anchor).unwrap().longer_side == dir.flip() ==> !r && *final(anchor) == Some(
            Box::new(with_side(*old(anchor).unwrap(), NodeDirection::Neither)),
        ),
        old(anchor).unwrap().longer_side == dir && child_at(*old(anchor).unwrap(), dir).unwrap().longer_side
            == NodeDirection::Neither ==> r && *final(anchor) == single_rotation(
            *old(anchor).unwrap(),
            dir,
            dir,
            dir.flip(),
        ),
        old(anchor).unwrap().longer_side == dir && child_at(*old(anchor).unwrap(), dir).unwrap().longer_side
            == dir ==> !r && *final(anchor) == single_rotation(
            *old(anchor).unwrap(),
            dir,
            NodeDirection::Neither,
            NodeDirection::Neither,
        ),
        old(anchor).unwrap().longer_side == dir && child_at(*old(anchor).unwrap(), dir).unwrap().longer_side
            == dir.flip() ==> !r && *final(anchor) == double_rotation(*old(anchor).unwrap(), dir),
{
    let ghost a0 = *anchor;
    let ghost n0 = *a0.unwrap();
    let ghost hd = height(child_at(n0, dir));
    let ghost ho = height(child_at(n0, dir.flip()));
    let mut node = anchor.take().unwrap();
    if node.longer_side == NodeDirection::Neither {
        // the node was balanced: it now leans toward `dir`, one level taller
        node.longer_side = dir;
        *anchor = Some(node);
        proof {
            assert(keys(*anchor) =~= keys(a0));
            assert(inorder(*anchor) =~= inorder(a0));
        }
        return true;
    }
    if node.longer_side != dir {
        // the node leaned the other way: the change evened it out
        node.longer_side = NodeDirection::Neither;
        *anchor = Some(node);
        proof {
            assert(keys(*anchor) =~= keys(a0));
            assert(inorder(*anchor) =~= inorder(a0));
        }
        return false;
    }
    // the node already leaned toward `dir`: it is two levels out of balance
    proof {
        assert(wf(child_at(n0, dir)));
        assert(node_ok(*child_at(n0, dir).unwrap()));
    }
    let mut child = node.take_child(dir).unwrap();
    let ghost c0 = *child;
    if child.longer_side == NodeDirection::Neither {
        // a single rotation leaves the new root leaning the other way, and the
        // subtree as tall as before the change (only a shrinking comes here)
        child.longer_side = dir.not();
        node.set_child(dir, Some(child));
        *anchor = Some(node);
        let ghost a1 = *anchor;
        proof {
            assert(keys(child_at(*a1.unwrap(), dir)) =~= keys(child_at(n0, dir)));
            assert(inorder(child_at(*a1.unwrap(), dir)) =~= inorder(child_at(n0, dir)));
            assert(keys(a1) =~= keys(a0));
            assert(inorder(a1) =~= inorder(a0));
            lemma_rotated(a1, dir);
        }
        rotate(anchor, dir);
        proof {
            let r = *anchor.unwrap();
            let m = *child_at(r, dir.flip()).unwrap();
            assert(height(Some(Box::new(m))) == hd);
            assert(node_ok(m));
            assert(node_ok(r));
            assert(wf(child_at(r, dir.flip())));
            assert(wf(child_at(r, dir)));
            assert(wf(*anchor));
        }
        true
    } else if child.longer_side == dir {
        // a single rotation balances both nodes and absorbs the change
        node.longer_side = NodeDirection::Neither;
        child.longer_side = NodeDirection::Neither;
        node.set_child(dir, Some(child));
        *anchor = Some(node);
        let ghost a1 = *anchor;
        proof {
            assert(keys(child_at(*a1.unwrap(), dir)) =~= keys(child_at(n0, dir)));
            assert(inorder(child_at(*a1.unwrap(), dir)) =~= inorder(child_at(n0, dir)));
            assert(keys(a1) =~= keys(a0));
            assert(inorder(a1) =~= inorder(a0));
            lemma_rotated(a1, dir);
        }
        rotate(anchor, dir);
        proof {
            let r = *anchor.unwrap();
            let m = *child_at(r, dir.flip()).unwrap();
            assert(height(Some(Box::new(m))) == ho + 1);
            assert(node_ok(m));
            assert(node_ok(r));
            assert(wf(child_at(r, dir.flip())));
            assert(wf(child_at(r, dir)));
            assert(wf(*anchor));
        }
        false
    } else {
        // a double rotation makes the grandchild the balanced new root
        proof {
            assert(wf(child_at(c0, dir.flip())));
            assert(node_ok(*child_at(c0, dir.flip()).unwrap()));
        }
        let mut grandchild = child.take_child(dir.not()).unwrap();
        if grandchild.longer_side == NodeDirection::Neither {
            node.longer_side = NodeDirection::Neither;
            child.longer_side = NodeDirection::Neither;
        } else if grandchild.longer_side == dir {
            node.longer_side = dir.not();
            child.longer_side = NodeDirection::Neither;
        } else {
            node.longer_side = NodeDirection::Neither;
            child.longer_side = dir;
        }
        grandchild.longer_side = NodeDirection::Neither;
        child.set_child(dir.not(), Some(grandchild));
        let mut child_slot = Some(child);
        let ghost s1 = child_slot;
        proof {
            let c1 = *s1.unwrap();
            assert(keys(child_at(c1, dir.flip())) =~= keys(child_at(c0, dir.flip())));
            assert(inorder(child_at(c1, dir.flip())) =~= inorder(child_at(c0, dir.flip())));
            assert(keys(s1) =~= keys(Some(Box::new(c0))));
            assert(inorder(s1) =~= inorder(Some(Box::new(c0))));
            lemma_rotated(s1, dir.flip());
        }
        rotate(&mut child_slot, dir.not());
        node.set_child(dir, child_slot);
        *anchor = Some(node);
        let ghost a1 = *anchor;
        proof {
            let g1 = *child_slot.unwrap();
            let c1 = *child_at(g1, dir).unwrap();
            assert(node_ok(c1));
            assert(wf(Some(Box::new(c1))));
            assert(keys(child_slot) == keys(child_at(n0, dir)));
            lemma_rotated(a1, dir);
        }
        rotate(anchor, dir);
        proof {
            let r = *anchor.unwrap();
            let m = *child_at(r, dir.flip()).unwrap();
            assert(node_ok(m));
            assert(node_ok(r));
            assert(wf(child_at(r, dir.flip())));
            assert(wf(child_at(r, dir)));
        }
        false
    }
}

/// Detaches the node with the smallest key of a non-empty subtree, rebalancing
/// on the way back up. Returns that node, emptied of children, and whether the
/// subtree lost a level.
fn remove_leftmost(anchor: &mut Anchor) -> (r: (Box<Node>, bool))
    requires
        old(anchor).is_some(),
        wf(*old(anchor)),
    ensures
        wf(*final(anchor)),
        r.0.left is None,
        r.0.right is None,
        keys(*old(anchor)).contains(r.0.key),
        forall|k: u64| keys(*old(anchor)).contains(k) ==> r.0.key <= k,
        keys(*final(anchor)) == keys(*old(anchor)).remove(r.0.key),
        height(*final(anchor)) + (if r.1 {
            1int
        } else {
            0int
        }) == height(*old(anchor)),
    decreases *old(anchor),
{
    let ghost a0 = *anchor;
    let mut node = anchor.take().unwrap();
    let ghost n0 = *node;
    assert(node_ok(n0));
    if node.left.is_none() {
        *anchor = node.right.take();
        proof {
            assert(*anchor == n0.right);
            assert(keys(n0.left) == Set::<u64>::empty());
            assert(!keys(n0.right).contains(n0.key));
            assert(keys(a0) == keys(n0.left).union(keys(n0.right)).insert(n0.key));
            assert(keys(*anchor) =~= keys(a0).remove(n0.key));
        }
        return (node, true);
    }
    let mut sub = node.left.take();
    let (min, shrank) = remove_leftmost(&mut sub);
    node.left = sub;
    *anchor = Some(node);
    proof {
        let n1 = *anchor.unwrap();
        assert(keys(n0.left).contains(min.key));
        assert(min.key < n0.key);
        assert(!keys(n0.right).contains(min.key));
        assert(keys(n1.left) == keys(n0.left).remove(min.key));
        assert(n1.right == n0.right && n1.key == n0.key);
        assert(ordered(n1));
        assert(keys(*anchor) =~= keys(a0).remove(min.key));
        assert forall|k: u64| keys(a0).contains(k) implies min.key <= k by {
            if keys(n0.right).contains(k) {
                assert(min.key < n0.key);
            }
        }
    }
    if !shrank {
        return (min, false);
    }
    let still = rebalance(anchor, NodeDirection::Right);
    (min, !still)
}

/// Removes `key` from below the slot; returns whether the subtree lost a level.
fn remove_from(anchor: &mut Anchor, key: u64) -> (shrank: bool)
    requires
        wf(*old(anchor)),
    ensures
        wf(*final(anchor)),
        keys(*final(anchor)) == keys(*old(anchor)).remove(key),
        height(*final(anchor)) + (if shrank {
            1int
        } else {
            0int
        }) == height(*old(anchor)),
        !keys(*old(anchor)).contains(key) ==> *final(anchor) == *old(anchor) && !shrank,
    decreases *old(anchor),
{
    let ghost a0 = *anchor;
    match anchor.take() {
        None => {
            proof {
                assert(keys(*anchor) =~= keys(a0).remove(key));
            }
            false
        },
        Some(mut node) => {
            let ghost n0 = *node;
            assert(node_ok(n0));
            let dir = node.dir(key);
            if dir == NodeDirection::Neither {
                let left = node.take_child(NodeDirection::Left);
                let right = node.take_child(NodeDirection::Right);
                proof {
                    assert(!keys(n0.left).contains(key));
                    assert(!keys(n0.right).contains(key));
                }
                if left.is_none() {
                    // no child, or only a right one: it takes the node's place
                    *anchor = right;
                    proof {
                        assert(keys(*anchor) =~= keys(a0).remove(key));
                    }
                    return true;
                }
                if right.is_none() {
                    // only a left child: it takes the node's place
                    *anchor = left;
                    proof {
                        assert(keys(*anchor) =~= keys(a0).remove(key));
                    }
                    return true;
                }
                let mut right_node = right.unwrap();
                let ghost r0 = *right_node;
                if right_node.left.is_none() {
                    // the right child is the successor: it takes the node's
                    // place and balance, and its right side lost a level
                    right_node.left = left;
                    right_node.longer_side = node.longer_side;
                    *anchor = Some(right_node);
                    proof {
                        let n1 = *anchor.unwrap();
                        assert(wf(n0.right));
                        assert(node_ok(r0));
                        assert(keys(n1.right) == keys(r0.right));
                        assert(keys(n0.right).contains(r0.key));
                        assert(keys(n0.right) == keys(r0.left).union(keys(r0.right)).insert(r0.key));
                        assert(keys(r0.left) == Set::<u64>::empty());
                        assert(n1.left == n0.left);
                        assert forall|k: u64| keys(n1.left).contains(k) implies k < n1.key by {
                            assert(k < n0.key);
                        }
                        assert(ordered(n1));
                        assert(keys(*anchor) =~= keys(a0).remove(key));
                    }
                    return !rebalance(anchor, NodeDirection::Left);
                }
                // the successor is the leftmost node of the right subtree: it is
                // detached and takes the node's place and balance
                let mut right_slot = Some(right_node);
                let (mut successor, right_shrank) = remove_leftmost(&mut right_slot);
                successor.longer_side = node.longer_side;
                successor.left = left;
                successor.right = right_slot;
                *anchor = Some(successor);
                proof {
                    let n1 = *anchor.unwrap();
                    assert(keys(Some(Box::new(r0))) == keys(n0.right));
                    assert(n0.key < n1.key);
                    assert forall|k: u64| keys(n1.left).contains(k) implies k < n1.key by {
                        assert(k < n0.key);
                    }
                    assert forall|k: u64| keys(n1.right).contains(k) implies n1.key < k by {
                        assert(n1.key <= k);
                    }
                    assert(ordered(n1));
                    assert(keys(*anchor) =~= keys(a0).remove(key));
                }
                if right_shrank {
                    !rebalance(anchor, NodeDirection::Left)
                } else {
                    false
                }
            } else {
                let mut sub = node.take_child(dir);
                assert(sub == child_at(n0, dir));
                let shrank = remove_from(&mut sub, key);
                node.set_child(dir, sub);
                *anchor = Some(node);
                proof {
                    let n1 = *anchor.unwrap();
                    assert(child_at(n1, dir.flip()) == child_at(n0, dir.flip()));
                    if dir == NodeDirection::Left {
                        assert(keys(n1.left) == keys(n0.left).remove(key));
                        assert(!keys(n0.right).contains(key));
                    } else {
                        assert(keys(n1.right) == keys(n0.right).remove(key));
                        assert(!keys(n0.left).contains(key));
                    }
                    assert(ordered(n1));
                    assert(keys(*anchor) =~= keys(a0).remove(key));
                }
                if !shrank {
                    return false;
                }
                proof {
                    let n1 = *anchor.unwrap();
                    assert(wf(child_at(n1, dir)));
                    assert(wf(child_at(n1, dir.flip())));
                }
                !rebalance(anchor, dir.not())
            }
        },
    }
}

/// Every key of `s` lies strictly between the bounds that are given.
spec fn within(s: Set<u64>, min: Option<u64>, max: Option<u64>) -> bool {
    forall|k: u64|
        s.contains(k) ==> (min is Some ==> min.unwrap() < k) && (max is Some ==> k < max.unwrap())
}

/// A search-ordered subtree whose keys lie in `[lo, hi]` is at most
/// `hi - lo + 1` levels tall: each level down a path narrows the interval.
proof fn lemma_height_within(a: Anchor, lo: int, hi: int)
    requires
        wf(a),
        forall|k: u64| keys(a).contains(k) ==> lo <= k <= hi,
    ensures
        height(a) <= if hi - lo + 1 >= 0 {
            hi - lo + 1
        } else {
            0
        },
    decreases a,
{
    if let Some(n) = a {
        assert(keys(a).contains(n.key));
        assert(node_ok(*n));
        assert(keys(a) == keys(n.left).union(keys(n.right)).insert(n.key));
        assert forall|k: u64| keys(n.left).contains(k) implies lo <= k <= n.key - 1 by {
            assert(keys(a).contains(k));
        }
        assert forall|k: u64| keys(n.right).contains(k) implies n.key + 1 <= k <= hi by {
            assert(keys(a).contains(k));
        }
        lemma_height_within(n.left, lo, n.key - 1);
        lemma_height_within(n.right, n.key + 1, hi);
    }
}

/// Walks the subtree and recomputes what the invariant states: whether its
/// keys lie between the bounds and it is a sound AVL subtree, and if so its
/// height.
fn check_subtree(anchor: &Anchor, min: Option<u64>, max: Option<u64>) -> (r: (bool, u128))
    ensures
        r.0 == (wf(*anchor) && within(keys(*anchor), min, max)),
        r.0 ==> r.1 == height(*anchor),
    decreases anchor,
{
    match anchor {
        None => (true, 0),
        Some(node) => {
            proof {
                assert(keys(*anchor).contains(node.key));
            }
            if let Some(lo) = min {
                if node.key <= lo {
                    return (false, 0);
                }
            }
            if let Some(hi) = max {
                if node.key >= hi {
                    return (false, 0);
                }
            }
            proof {
                assert(keys(*anchor) == keys(node.left).union(keys(node.right)).insert(node.key));
                if wf(*anchor) && within(keys(*anchor), min, max) {
                    assert(node_ok(**node));
                    assert forall|k: u64| keys(node.left).contains(k) implies (min is Some
                        ==> min.unwrap() < k) && k < node.key by {
                        assert(keys(*anchor).contains(k));
                    }
                    assert forall|k: u64| keys(node.right).contains(k) implies node.key < k && (
                    max is Some ==> k < max.unwrap()) by {
                        assert(keys(*anchor).contains(k));
                    }
                }
            }
            let (left_ok, hl) = check_subtree(&node.left, min, Some(node.key));
            if !left_ok {
                return (false, 0);
            }
            let (right_ok, hr) = check_subtree(&node.right, Some(node.key), max);
            if !right_ok {
                return (false, 0);
            }
            proof {
                lemma_height_within(node.left, 0, u64::MAX as int);
                lemma_height_within(node.right, 0, u64::MAX as int);
            }
            let longer = if hr == hl + 1 {
                NodeDirection::Right
            } else if hl == hr + 1 {
                NodeDirection::Left
            } else if hl == hr {
                NodeDirection::Neither
            } else {
                return (false, 0);
            };
            if node.longer_side != longer {
                return (false, 0);
            }
            proof {
                assert(within(keys(*anchor), min, max));
            }
            (true, 1 + if hl >= hr {
                hl
            } else {
                hr
            })
        },
    }
}

/// One line of a pre-order outline of a tree: a node, with its depth (the
/// root at 0), or an empty slot, with the depth of the node that holds it
/// (`None` for the slot of an empty tree).
#[derive(Clone, Copy, Debug, PartialEq, Eq, Structural)]
pub enum OutlineLine {
    Node { depth: u64, key: u64, longer_side: NodeDirection },
    Empty { parent_depth: Option<u64> },
}

/// Depth of a node whose parent is at `parent` (`None` for the root).
spec fn depth_below(parent: Option<u64>) -> int {
    match parent {
        None => 0,
        Some(p) => p + 1,
    }
}

/// Pre-order outline of the subtree in a slot held by a node at `parent`.
spec fn outline(a: Anchor, parent: Option<u64>) -> Seq<OutlineLine>
    decreases a,
{
    match a {
        None => seq![OutlineLine::Empty { parent_depth: parent }],
        Some(n) => {
            let d = depth_below(parent) as u64;
            seq![OutlineLine::Node { depth: d, key: n.key, longer_side: n.longer_side }]
                + outline(n.left, Some(d)) + outline(n.right, Some(d))
        },
    }
}

fn outline_into(anchor: &Anchor, parent: Option<u64>, out: &mut Vec<OutlineLine>)
    requires
        depth_below(parent) + height(*anchor) <= u64::MAX + 1,
    ensures
        final(out)@ == old(out)@ + outline(*anchor, parent),
    decreases anchor,
{
    match anchor {
        None => {
            out.push(OutlineLine::Empty { parent_depth: parent });
        },
        Some(node) => {
            let depth: u64 = match parent {
                None => 0,
                Some(p) => p + 1,
            };
            out.push(OutlineLine::Node { depth, key: node.key, longer_side: node.longer_side });
            outline_into(&node.left, Some(depth), out);
            outline_into(&node.right, Some(depth), out);
            proof {
                assert(out@ =~= old(out)@ + outline(*anchor, parent));
            }
        },
    }
}

/// A tree of `u64` keys kept as an AVL tree: a search tree in which the two
/// subtrees of every node differ in height by at most one.
pub struct Avl {
    root: Anchor,
}

impl View for Avl {
    type V = Set<u64>;

    closed spec fn view(&self) -> Set<u64> {
        keys(self.root)
    }
}

/// Keys that a stack of a borrowing walk has yet to yield, top entry first. An
/// entry marked explored has had its left subtree walked: its own key and its
/// right subtree are left.
spec fn pending_ref(s: Seq<(bool, &Anchor)>) -> Seq<u64>
    decreases s.len(),
{
    if s.len() == 0 {
        Seq::empty()
    } else {
        entry_keys(s.last()) + pending_ref(s.drop_last())
    }
}

spec fn entry_keys(e: (bool, &Anchor)) -> Seq<u64> {
    if e.0 {
        match *e.1 {
            None => Seq::empty(),
            Some(n) => seq![n.key] + inorder(n.right),
        }
    } else {
        inorder(*e.1)
    }
}

spec fn entry_cost(e: (bool, &Anchor)) -> nat {
    if e.0 {
        match *e.1 {
            None => 1,
            Some(n) => 2 * inorder(n.right).len() + 1,
        }
    } else {
        2 * inorder(*e.1).len() + 1
    }
}

spec fn stack_cost(s: Seq<(bool, &Anchor)>) -> nat
    decreases s.len(),
{
    if s.len() == 0 {
        0
    } else {
        entry_cost(s.last()) + stack_cost(s.drop_last())
    }
}

/// A walk over the keys of an `Avl` in ascending order, borrowing the tree.
pub struct IterRef<'a> {
    stack: Vec<(bool, &'a Anchor)>,
}

impl<'a> IterRef<'a> {
    /// The keys that the walk has yet to yield, in the order it yields them.
    pub closed spec fn remaining(&self) -> Seq<u64> {
        pending_ref(self.stack@)
    }

    /// Yields the next key, or `None` once all have been yielded.
    pub fn next(&mut self) -> (r: Option<&'a u64>)
        ensures
            old(self).remaining().len() == 0 ==> r is None && final(self).remaining()
                == old(self).remaining(),
            old(self).remaining().len() > 0 ==> r is Some && *r.unwrap() == old(
                self,
            ).remaining()[0] && final(self).remaining() == old(self).remaining().drop_first(),
    {
        loop
            invariant
                self.remaining() == old(self).remaining(),
            decreases stack_cost(self.stack@),
        {
            let ghost s0 = self.stack@;
            match self.stack.pop() {
                None => {
                    return None;
                },
                Some((explored, anchor)) => {
                    let ghost s1 = self.stack@;
                    proof {
                        assert(s0 =~= s1.push((explored, anchor)));
                        lemma_push_ref(s1, (explored, anchor));
                    }
                    match anchor {
                        None => {},
                        Some(node) => {
                            if explored {
                                self.stack.push((false, &node.right));
                                proof {
                                    lemma_push_ref(s1, (false, &node.right));
                                    assert(self.remaining() =~= old(self).remaining().drop_first());
                                }
                                return Some(&node.key);
                            } else {
                                self.stack.push((true, anchor));
                                self.stack.push((false, &node.left));
                                proof {
                                    lemma_push_ref(s1, (true, anchor));
                                    lemma_push_ref(s1.push((true, anchor)), (false, &node.left));
                                    assert(self.remaining() =~= old(self).remaining());
                                }
                            }
                        },
                    }
                },
            }
        }
    }
}

proof fn lemma_push_ref(s: Seq<(bool, &Anchor)>, e: (bool, &Anchor))
    ensures
        pending_ref(s.push(e)) == entry_keys(e) + pending_ref(s),
        stack_cost(s.push(e)) == entry_cost(e) + stack_cost(s),
{
    assert(s.push(e).drop_last() =~= s);
}

/// Keys that a stack of a consuming walk has yet to yield, top entry first.
spec fn pending(s: Seq<Anchor>) -> Seq<u64>
    decreases s.len(),
{
    if s.len() == 0 {
        Seq::empty()
    } else {
        inorder(s.last()) + pending(s.drop_last())
    }
}

spec fn cost(a: Anchor) -> nat
    decreases a,
{
    match a {
        None => 0,
        Some(n) => cost(n.left) + cost(n.right) + if n.left is Some {
            3nat
        } else {
            1nat
        },
    }
}

spec fn pending_cost(s: Seq<Anchor>) -> nat
    decreases s.len(),
{
    if s.len() == 0 {
        0
    } else {
        cost(s.last()) + 1 + pending_cost(s.drop_last())
    }
}

/// A walk over the keys of an `Avl` in ascending order that consumes the tree,
/// giving up each node as its key is yielded.
pub struct Iter {
    stack: Vec<Anchor>,
}

impl Iter {
    /// The keys that the walk has yet to yield, in the order it yields them.
    pub closed spec fn remaining(&self) -> Seq<u64> {
        pending(self.stack@)
    }

    /// Yields the next key, or `None` once all have been yielded.
    pub fn next(&mut self) -> (r: Option<u64>)
        ensures
            old(self).remaining().len() == 0 ==> r is None && final(self).remaining()
                == old(self).remaining(),
            old(self).remaining().len() > 0 ==> r == Some(old(self).remaining()[0])
                && final(self).remaining() == old(self).remaining().drop_first(),
    {
        loop
            invariant
                self.remaining() == old(self).remaining(),
            decreases pending_cost(self.stack@),
        {
            let ghost s0 = self.stack@;
            match self.stack.pop() {
                None => {
                    return None;
                },
                Some(anchor) => {
                    let ghost s1 = self.stack@;
                    proof {
                        assert(s0 =~= s1.push(anchor));
                        lemma_push(s1, anchor);
                    }
                    match anchor {
                        None => {},
                        Some(mut node) => {
                            let ghost n0 = *node;
                            match node.left.take() {
                                None => {
                                    let right = node.right.take();
                                    self.stack.push(right);
                                    proof {
                                        lemma_push(s1, right);
                                        assert(inorder(n0.left) =~= Seq::<u64>::empty());
                                        assert(inorder(anchor) =~= seq![n0.key] + inorder(n0.right));
                                        assert(self.remaining() =~= old(
                                            self,
                                        ).remaining().drop_first());
                                    }
                                    return Some(node.key);
                                },
                                Some(left) => {
                                    let ghost n1 = *node;
                                    self.stack.push(Some(node));
                                    self.stack.push(Some(left));
                                    proof {
                                        let a1 = Some(Box::new(n1));
                                        lemma_push(s1, a1);
                                        lemma_push(s1.push(a1), Some(left));
                                        assert(n1.left is None && n1.right == n0.right);
                                        assert(inorder(n1.left) =~= Seq::<u64>::empty());
                                        assert(inorder(a1) =~= seq![n0.key] + inorder(n0.right));
                                        assert(cost(anchor) == cost(n0.left) + cost(n0.right) + 3);
                                        assert(cost(n1.left) == 0);
                                        assert(cost(a1) == cost(n0.right) + 1);
                                        assert(self.remaining() =~= old(self).remaining());
                                    }
                                },
                            }
                        },
                    }
                },
            }
        }
    }
}

proof fn lemma_push(s: Seq<Anchor>, a: Anchor)
    ensures
        pending(s.push(a)) == inorder(a) + pending(s),
        pending_cost(s.push(a)) == cost(a) + 1 + pending_cost(s),
{
    assert(s.push(a).drop_last() =~= s);
}

impl Avl {
    #[verifier::type_invariant]
    spec fn inv(self) -> bool {
        wf(self.root)
    }

    /// An empty tree.
    pub fn new() -> (t: Avl)
        ensures
            t@ == Set::<u64>::empty(),
            t.is_avl(),
    {
        Avl { root: None }
    }

    /// Whether `key` is stored.
    pub fn contains(&self, key: u64) -> (r: bool)
        ensures
            r == self@.contains(key),
    {
        proof {
            use_type_invariant(self);
        }
        contains_in(&self.root, key)
    }

    /// Stores `key`; a key already present leaves the tree as it is.
    pub fn insert(&mut self, key: u64)
        ensures
            final(self)@ == old(self)@.insert(key),
            final(self).is_avl(),
            old(self)@.contains(key) ==> *final(self) == *old(self),
    {
        proof {
            use_type_invariant(&*self);
        }
        let mut root = None;
        std::mem::swap(&mut root, &mut self.root);
        insert_into(&mut root, key);
        self.root = root;
    }

    /// Removes `key`; an absent key leaves the tree as it is.
    pub fn remove(&mut self, key: u64)
        ensures
            final(self)@ == old(self)@.remove(key),
            final(self).is_avl(),
            !old(self)@.contains(key) ==> *final(self) == *old(self),
    {
        proof {
            use_type_invariant(&*self);
        }
        let mut root = None;
        std::mem::swap(&mut root, &mut self.root);
        remove_from(&mut root, key);
        self.root = root;
    }

    /// The stored keys in ascending order.
    pub closed spec fn in_order(&self) -> Seq<u64> {
        inorder(self.root)
    }

    /// Search-tree order and AVL balance, with balance indicators that match
    /// the subtrees' heights, hold at every node.
    pub closed spec fn is_avl(&self) -> bool {
        wf(self.root)
    }

    /// Consistency pass: walks the whole tree and reports whether search
    /// order holds and every balance indicator matches its subtrees' heights.
    /// The invariant that every operation maintains makes it always hold.
    pub fn check(&self) -> (r: bool)
        ensures
            r == self.is_avl(),
            r,
    {
        proof {
            use_type_invariant(self);
        }
        check_subtree(&self.root, None, None).0
    }

    /// Pre-order outline of the tree: each node with its depth, key and
    /// balance indicator, and each empty slot.
    pub closed spec fn outline_lines(&self) -> Seq<OutlineLine> {
        outline(self.root, None)
    }

    /// The tree's outline, for display: one line per node and per empty slot,
    /// in pre-order.
    pub fn outline(&self) -> (r: Vec<OutlineLine>)
        ensures
            r@ == self.outline_lines(),
    {
        proof {
            use_type_invariant(self);
            lemma_height_within(self.root, 0, u64::MAX as int);
        }
        let mut out = Vec::new();
        outline_into(&self.root, None, &mut out);
        proof {
            assert(out@ =~= self.outline_lines());
        }
        out
    }

    /// Number of nodes on the longest path from the root down (0 when empty).
    pub closed spec fn height(&self) -> nat {
        height(self.root)
    }

    /// A walk over the stored keys in ascending order.
    pub fn iter(&self) -> (r: IterRef<'_>)
        ensures
            r.remaining() == self.in_order(),
    {
        let r = IterRef { stack: vec![(false, &self.root)] };
        proof {
            lemma_push_ref(Seq::empty(), (false, &self.root));
            assert(r.stack@ =~= Seq::<(bool, &Anchor)>::empty().push((false, &self.root)));
            assert(r.remaining() =~= self.in_order());
        }
        r
    }

    /// A walk over the stored keys in ascending order that consumes the tree.
    pub fn into_iter(self) -> (r: Iter)
        ensures
            r.remaining() == self.in_order(),
    {
        let ghost root = self.root;
        let r = Iter { stack: vec![self.root] };
        proof {
            lemma_push(Seq::empty(), root);
            assert(r.stack@ =~= Seq::<Anchor>::empty().push(root));
            assert(r.remaining() =~= self.in_order());
        }
        r
    }
}

/// An operation that changes the set of stored keys.
pub enum Op {
    Insert(u64),
    Remove(u64),
}

/// The key set after applying `ops`, first to last, to `start`.
pub open spec fn replay(start: Set<u64>, ops: Seq<Op>) -> Set<u64>
    decreases ops.len(),
{
    if ops.len() == 0 {
        start
    } else {
        let s = replay(start, ops.drop_last());
        match ops.last() {
            Op::Insert(k) => s.insert(k),
            Op::Remove(k) => s.remove(k),
        }
    }
}

/// Insertions of `ks`, in order.
pub open spec fn inserts(ks: Seq<u64>) -> Seq<Op> {
    ks.map_values(|k: u64| Op::Insert(k))
}

/// The Fibonacci numbers: 0, 1, 1, 2, 3, 5, ...
pub open spec fn fib(n: nat) -> nat
    decreases n,
{
    if n < 2 {
        n
    } else {
        fib((n - 1) as nat) + fib((n - 2) as nat)
    }
}

/// After a sequence of insertions and removals on an empty tree, a key is
/// stored exactly when it was inserted at some point and not removed since.
pub proof fn lemma_membership(ops: Seq<Op>, k: u64)
    ensures
        replay(Set::empty(), ops).contains(k) <==> exists|i: int|
            0 <= i < ops.len() && ops[i] == Op::Insert(k) && forall|j: int|
                i < j < ops.len() ==> ops[j] != Op::Remove(k),
    decreases ops.len(),
{
    if ops.len() > 0 {
        let init = ops.drop_last();
        let last = ops.len() - 1;
        lemma_membership(init, k);
        if replay(Set::empty(), ops).contains(k) {
            if ops.last() == Op::Insert(k) {
                assert(ops[last] == Op::Insert(k));
            } else {
                let i = choose|i: int|
                    0 <= i < init.len() && init[i] == Op::Insert(k) && forall|j: int|
                        i < j < init.len() ==> init[j] != Op::Remove(k);
                assert(ops[i] == Op::Insert(k));
                assert forall|j: int| i < j < ops.len() implies ops[j] != Op::Remove(k) by {
                    if j < last {
                        assert(ops[j] == init[j]);
                    }
                }
            }
        } else {
            assert forall|i: int|
                0 <= i < ops.len() && ops[i] == Op::Insert(k) implies exists|j: int|
                i < j < ops.len() && ops[j] == Op::Remove(k) by {
                if ops.last() == Op::Remove(k) {
                    assert(i < last);
                } else {
                    assert(i != last);
                    assert(init[i] == Op::Insert(k));
                    let j = choose|j: int| i < j < init.len() && init[j] == Op::Remove(k);
                    assert(ops[j] == Op::Remove(k));
                }
            }
        }
    }
}

/// A walk yields strictly increasing keys, each stored key exactly once.
pub proof fn lemma_in_order(t: &Avl)
    requires
        t.is_avl(),
    ensures
        forall|i: int, j: int| 0 <= i < j < t.in_order().len() ==> t.in_order()[i] < t.in_order()[j],
        t.in_order().to_set() == t@,
        t.in_order().len() == t@.len(),
{
    lemma_inorder(t.root);
    let s = inorder(t.root);
    assert(s.to_set() =~= keys(t.root));
    assert(s.no_duplicates()) by {
        assert forall|i: int, j: int| 0 <= i < s.len() && 0 <= j < s.len() && i != j implies s[i]
            != s[j] by {
            if i < j {
                assert(s[i] < s[j]);
            } else {
                assert(s[j] < s[i]);
            }
        }
    }
    s.unique_seq_to_set();
}

/// After inserting `n` distinct keys into an empty tree, with no removals, a
/// walk yields `n` keys.
pub proof fn lemma_count_after_inserts(t: &Avl, ks: Seq<u64>)
    requires
        t.is_avl(),
        ks.no_duplicates(),
        t@ == replay(Set::empty(), inserts(ks)),
    ensures
        t.in_order().len() == ks.len(),
{
    lemma_replay_inserts(ks);
    ks.unique_seq_to_set();
    lemma_in_order(t);
}

proof fn lemma_replay_inserts(ks: Seq<u64>)
    ensures
        replay(Set::empty(), inserts(ks)) == ks.to_set(),
    decreases ks.len(),
{
    if ks.len() > 0 {
        let init = ks.drop_last();
        lemma_replay_inserts(init);
        assert(inserts(ks).drop_last() =~= inserts(init));
        assert(ks =~= init.push(ks.last()));
        assert(ks.to_set() =~= init.to_set().insert(ks.last())) by {
            assert forall|k: u64| ks.to_set().contains(k) implies init.to_set().insert(
                ks.last(),
            ).contains(k) by {
                let i = choose|i: int| 0 <= i < ks.len() && ks[i] == k;
                if i < ks.len() - 1 {
                    assert(init[i] == k);
                }
            }
            assert forall|k: u64| init.to_set().insert(ks.last()).contains(k) implies ks.to_set().contains(
                k,
            ) by {
                if k != ks.last() {
                    let i = choose|i: int| 0 <= i < init.len() && init[i] == k;
                    assert(ks[i] == k);
                } else {
                    assert(ks[ks.len() - 1] == k);
                }
            }
        }
    } else {
        assert(ks.to_set() =~= Set::<u64>::empty());
    }
}

/// Inserting a key a second time changes nothing.
pub proof fn lemma_insert_idempotent(s: Set<u64>, k: u64)
    ensures
        replay(s, seq![Op::Insert(k), Op::Insert(k)]) == replay(s, seq![Op::Insert(k)]),
{
    let two = seq![Op::Insert(k), Op::Insert(k)];
    let one = seq![Op::Insert(k)];
    assert(two.drop_last() =~= one);
    assert(one.drop_last() =~= Seq::<Op>::empty());
    assert(s.insert(k).insert(k) =~= s.insert(k));
}

/// Height bound: an AVL tree of height `h` holds at least `fib(h + 2) - 1`
/// keys, so its height grows at most logarithmically (about 1.44 log2 n).
pub proof fn lemma_height_bound(t: &Avl)
    requires
        t.is_avl(),
    ensures
        t@.len() + 1 >= fib(t.height() + 2),
{
    lemma_min_size(t.root);
    lemma_in_order(t);
}

/// Height is logarithmic in the number of keys: `2^h <= (n + 1)^2`, that is,
/// `h <= 2 log2(n + 1)`.
pub proof fn lemma_height_log(t: &Avl)
    requires
        t.is_avl(),
    ensures
        pow2(t.height()) <= (t@.len() + 1) * (t@.len() + 1),
{
    lemma_height_bound(t);
    lemma_fib_square(t.height());
    let f = fib(t.height() + 2);
    let m = t@.len() + 1;
    assert(f * f <= m * m) by (nonlinear_arith)
        requires
            f <= m,
    ;
}

proof fn lemma_fib_square(h: nat)
    ensures
        pow2(h) <= fib(h + 2) * fib(h + 2),
    decreases h,
{
    lemma_pow0(2);
    assert(fib(0) == 0 && fib(1) == 1);
    assert(fib(2) == fib(1) + fib(0));
    assert(fib(3) == fib(2) + fib(1));
    if h == 0 {
        assert(pow2(0) == 1);
        assert(fib(2) * fib(2) == 1);
    } else if h == 1 {
        lemma_pow2_unfold(1);
        assert(pow2(0) == 1);
        assert(fib(3) == 2);
        assert(fib(3) * fib(3) == 4);
    } else {
        lemma_fib_square((h - 2) as nat);
        lemma_pow2_unfold(h);
        lemma_pow2_unfold((h - 1) as nat);
        lemma_fib_monotone(h, h + 1);
        let a = fib(h + 2);
        let b = fib(h);
        assert(a == fib(h + 1) + b);
        assert(a * a >= 4 * (b * b)) by (nonlinear_arith)
            requires
                a >= 2 * b,
                b >= 0,
        ;
        assert(pow2(h) == 4 * pow2((h - 2) as nat));
        assert(pow2((h - 2) as nat) <= b * b);
    }
}

proof fn lemma_fib_monotone(a: nat, b: nat)
    requires
        a <= b,
    ensures
        fib(a) <= fib(b),
    decreases b,
{
    if a < b {
        lemma_fib_monotone(a, (b - 1) as nat);
        if b >= 2 {
            assert(fib(b) == fib((b - 1) as nat) + fib((b - 2) as nat));
        } else {
            assert(fib(0) == 0 && fib(1) == 1);
        }
    }
}

proof fn lemma_min_size(a: Anchor)
    requires
        wf(a),
    ensures
        inorder(a).len() + 1 >= fib(height(a) + 2),
    decreases a,
{
    match a {
        None => {
            assert(fib(2) == fib(1) + fib(0));
        },
        Some(n) => {
            lemma_min_size(n.left);
            lemma_min_size(n.right);
            let hl = height(n.left);
            let hr = height(n.right);
            let h = height(a);
            assert(fib(h + 2) == fib(h + 1) + fib(h as nat));
            if hl >= hr {
                lemma_fib_monotone(h as nat, hr + 2);
            } else {
                lemma_fib_monotone(h as nat, hl + 2);
            }
        },
    }
}

/// An in-order walk of a sound subtree meets each of its keys once, in
/// strictly increasing order.
proof fn lemma_inorder(a: Anchor)
    requires
        wf(a),
    ensures
        forall|i: int| 0 <= i < inorder(a).len() ==> keys(a).contains(#[trigger] inorder(a)[i]),
        forall|k: u64| keys(a).contains(k) ==> inorder(a).contains(k),
        forall|i: int, j: int|
            0 <= i < j < inorder(a).len() ==> inorder(a)[i] < inorder(a)[j],
    decreases a,
{
    if let Some(n) = a {
        lemma_inorder(n.left);
        lemma_inorder(n.right);
        let l = inorder(n.left);
        let r = inorder(n.right);
        let s = inorder(a);
        assert(s == l + seq![n.key] + r);
        assert forall|i: int| 0 <= i < s.len() implies keys(a).contains(#[trigger] s[i]) by {
            if i < l.len() {
                assert(s[i] == l[i]);
            } else if i > l.len() {
                assert(s[i] == r[i - l.len() - 1]);
            }
        }
        assert forall|k: u64| keys(a).contains(k) implies s.contains(k) by {
            if keys(n.left).contains(k) {
                let i = choose|i: int| 0 <= i < l.len() && l[i] == k;
                assert(s[i] == k);
            } else if keys(n.right).contains(k) {
                let i = choose|i: int| 0 <= i < r.len() && r[i] == k;
                assert(s[i + l.len() + 1] == k);
            } else {
                assert(s[l.len() as int] == k);
            }
        }
        assert forall|i: int, j: int| 0 <= i < j < s.len() implies s[i] < s[j] by {
            if j < l.len() {
                assert(s[i] == l[i] && s[j] == l[j]);
            } else if i > l.len() {
                assert(s[i] == r[i - l.len() - 1] && s[j] == r[j - l.len() - 1]);
            } else {
                let ki = s[i];
                let kj = s[j];
                if i < l.len() {
                    assert(ki == l[i]);
                    assert(keys(n.left).contains(ki));
                }
                if j > l.len() {
                    assert(kj == r[j - l.len() - 1]);
                    assert(keys(n.right).contains(kj));
                }
            }
        }
    }
}

impl Default for Avl {
    /// An empty tree, as `new` gives.
    fn default() -> (r: Avl)
        ensures
            r@ == Set::<u64>::empty(),
    {
        Avl::new()
    }
}

} // verus!
