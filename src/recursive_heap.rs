//! Binary max-heap kept as a linked complete binary tree. Its elements sit at
//! the level-order positions `0 .. size`: the children of position `i` are
//! `2i + 1` (left) and `2i + 2` (right), and the next element goes to
//! position `size`.

use vstd::multiset::Multiset;
use vstd::prelude::*;

verus! {

/// A slot that holds a subtree, or nothing.
type Anchor = Option<Box<Node>>;

/// A key and its two subtrees.
struct Node {
    key: u64,
    left: Anchor,
    right: Anchor,
}

impl Node {
    fn new(key: u64) -> (r: Node)
        ensures
            r == (Node { key, left: None, right: None }),
    {
        Node { key, left: None, right: None }
    }
}

/// The subtree on side `dir` (0 left, 1 right) of the node.
spec fn child_at(n: Node, dir: int) -> Anchor {
    if dir == 0 {
        n.left
    } else {
        n.right
    }
}

/// The keys stored in the subtree, with their multiplicities.
spec fn vals(a: Anchor) -> Multiset<u64>
    decreases a,
{
    match a {
        None => Multiset::empty(),
        Some(n) => vals(n.left).add(vals(n.right)).insert(n.key),
    }
}

/// No key below the node is greater than its own.
spec fn heaped(n: Node) -> bool {
    &&& forall|k: u64| vals(n.left).contains(k) ==> k <= n.key
    &&& forall|k: u64| vals(n.right).contains(k) ==> k <= n.key
}

spec fn heap_wf(a: Anchor) -> bool
    decreases a,
{
    match a {
        None => true,
        Some(n) => heaped(*n) && heap_wf(n.left) && heap_wf(n.right),
    }
}

/// The subtree rooted at level-order position `i` holds exactly the positions
/// below `n` that descend from `i`.
spec fn shaped(a: Anchor, i: nat, n: nat) -> bool
    decreases a,
{
    match a {
        None => i >= n,
        Some(b) => i < n && shaped(b.left, 2 * i + 1, n) && shaped(b.right, 2 * i + 2, n),
    }
}

/// The position reached from `i` by `s` steps down, the directions read from
/// the low bits of `p` first (0 left, 1 right).
spec fn target(i: nat, p: nat, s: nat) -> nat
    decreases s,
{
    if s == 0 {
        i
    } else {
        target(2 * i + 1 + p % 2, p / 2, (s - 1) as nat)
    }
}

/// Number of steps from the root down to position `j`.
spec fn depth(j: nat) -> nat
    decreases j,
{
    if j == 0 {
        0
    } else {
        1 + depth(((j - 1) / 2) as nat)
    }
}

/// Position `j` is `i` or lies below it.
spec fn desc(i: nat, j: nat) -> bool
    decreases j,
{
    j == i || (j > i && desc(i, ((j - 1) / 2) as nat))
}

proof fn lemma_desc_le(i: nat, j: nat)
    requires
        desc(i, j),
    ensures
        i <= j,
{
}

proof fn lemma_desc_parent(i: nat, c: nat, t: nat)
    requires
        c == 2 * i + 1 || c == 2 * i + 2,
        desc(c, t),
    ensures
        desc(i, t),
    decreases t,
{
    if t != c {
        lemma_desc_parent(i, c, ((t - 1) / 2) as nat);
    } else {
        assert(((t - 1) / 2) as nat == i);
        assert(desc(i, i));
    }
}

proof fn lemma_desc_chain(x: nat, y: nat, t: nat)
    requires
        desc(x, t),
        desc(y, t),
    ensures
        desc(x, y) || desc(y, x),
    decreases t,
{
    if t != x && t != y {
        lemma_desc_chain(x, y, ((t - 1) / 2) as nat);
    }
}

/// Of two sibling positions, neither lies below the other.
proof fn lemma_siblings(i: nat, t: nat, c: nat, o: nat)
    requires
        c == 2 * i + 1 || c == 2 * i + 2,
        o == 2 * i + 1 || o == 2 * i + 2,
        c != o,
        desc(c, t),
    ensures
        !desc(o, t),
{
    if desc(o, t) {
        lemma_desc_chain(c, o, t);
        if desc(c, o) {
            assert(o != c);
            assert(desc(c, ((o - 1) / 2) as nat));
            lemma_desc_le(c, ((o - 1) / 2) as nat);
        } else {
            assert(desc(o, ((c - 1) / 2) as nat));
            lemma_desc_le(o, ((c - 1) / 2) as nat);
        }
    }
}

proof fn lemma_target_desc(i: nat, p: nat, s: nat)
    ensures
        desc(i, target(i, p, s)),
    decreases s,
{
    if s > 0 {
        let c = 2 * i + 1 + p % 2;
        lemma_target_desc(c, p / 2, (s - 1) as nat);
        lemma_desc_parent(i, c, target(i, p, s));
    }
}

/// Growing or shrinking the heap by its last position leaves alone every
/// subtree that the position does not lie in.
proof fn lemma_shaped_resize(a: Anchor, o: nat, n1: nat, n2: nat, m: nat)
    requires
        shaped(a, o, n1),
        !desc(o, m),
        (n2 == n1 + 1 && m == n1) || (n1 == n2 + 1 && m == n2),
    ensures
        shaped(a, o, n2),
    decreases a,
{
    if let Some(b) = a {
        if desc(2 * o + 1, m) {
            lemma_desc_parent(o, 2 * o + 1, m);
        }
        if desc(2 * o + 2, m) {
            lemma_desc_parent(o, 2 * o + 2, m);
        }
        lemma_shaped_resize(b.left, 2 * o + 1, n1, n2, m);
        lemma_shaped_resize(b.right, 2 * o + 2, n1, n2, m);
    }
}

/// The root of a heap-ordered subtree holds its largest key.
proof fn lemma_root_max(a: Anchor)
    requires
        a is Some,
        heap_wf(a),
    ensures
        forall|k: u64| vals(a).contains(k) ==> k <= a.unwrap().key,
    decreases a,
{
    let n = *a.unwrap();
    assert forall|k: u64| vals(a).contains(k) implies k <= n.key by {
        if k != n.key {
            assert(vals(n.left).contains(k) || vals(n.right).contains(k));
        }
    }
}

/// The directions from the root down to level-order position `index`, first
/// step in the lowest bit (0 left, 1 right): the bits of `index + 1` below its
/// leading one, in reverse order.
fn binary_path_to(index: usize) -> (r: usize)
    ensures
        target(0, r as nat, depth(index as nat)) == index,
{
    let mut i = index;
    let mut path: usize = 0;
    let ghost mut steps: nat = 0;
    while i > 0
        invariant
            target(i as nat, path as nat, steps) == index,
            steps + depth(i as nat) == depth(index as nat),
            (path + 1) * (i + 1) <= index + 1,
        decreases i,
    {
        let dir: usize = if i % 2 == 1 {
            0
        } else {
            1
        };
        let parent = (i - 1) / 2;
        proof {
            assert(2 * parent + 1 + dir == i);
            assert((2 * path + dir + 1) * (parent + 1) <= (path + 1) * (i + 1)) by (nonlinear_arith)
                requires
                    2 * parent + 1 + dir == i,
                    dir <= 1,
            ;
            assert((2 * path + dir + 1) * (parent + 1) >= 2 * path + dir + 1) by (nonlinear_arith);
        }
        let new_path = 2 * path + dir;
        proof {
            assert(new_path as nat % 2 == dir);
            assert(new_path as nat / 2 == path);
            assert(target(parent as nat, new_path as nat, steps + 1) == target(
                i as nat,
                path as nat,
                steps,
            ));
            steps = steps + 1;
        }
        path = new_path;
        i = parent;
    }
    path
}

/// The node after its child on side `dir` has been replaced by `c1`, the keys
/// of the two swapped if the child's is greater.
spec fn sifted(n0: Node, dir: int, c1: Node) -> Node {
    if c1.key > n0.key {
        let c2 = Node { key: n0.key, ..c1 };
        if dir == 0 {
            Node { key: c1.key, left: Some(Box::new(c2)), ..n0 }
        } else {
            Node { key: c1.key, right: Some(Box::new(c2)), ..n0 }
        }
    } else if dir == 0 {
        Node { left: Some(Box::new(c1)), ..n0 }
    } else {
        Node { right: Some(Box::new(c1)), ..n0 }
    }
}

/// One step of moving a new key up: `c1` is the child subtree after `key`
/// went into it.
proof fn lemma_sift_step(n0: Node, dir: int, c1: Node, key: u64)
    requires
        dir == 0 || dir == 1,
        heap_wf(Some(Box::new(n0))),
        heap_wf(Some(Box::new(c1))),
        vals(Some(Box::new(c1))) == vals(child_at(n0, dir)).insert(key),
        c1.key == if child_at(n0, dir) is Some && child_at(n0, dir).unwrap().key >= key {
            child_at(n0, dir).unwrap().key
        } else {
            key
        },
        child_at(n0, dir) is Some && key > child_at(n0, dir).unwrap().key ==> vals(c1.left).add(
            vals(c1.right),
        ) == vals(child_at(n0, dir)),
        child_at(n0, dir) is None ==> c1.left is None && c1.right is None,
    ensures
        heap_wf(Some(Box::new(sifted(n0, dir, c1)))),
        vals(Some(Box::new(sifted(n0, dir, c1)))) == vals(Some(Box::new(n0))).insert(key),
        sifted(n0, dir, c1).key == if n0.key >= key {
            n0.key
        } else {
            key
        },
        key > n0.key ==> vals(sifted(n0, dir, c1).left).add(vals(sifted(n0, dir, c1).right))
            == vals(Some(Box::new(n0))),
{
    let s0 = child_at(n0, dir);
    let other = child_at(n0, 1 - dir);
    let n2 = sifted(n0, dir, c1);
    let a0 = Some(Box::new(n0));
    assert(heaped(n0));
    assert(heap_wf(other));
    if s0 is Some {
        lemma_root_max(s0);
        assert(vals(s0).contains(s0.unwrap().key));
        if dir == 0 {
            assert(s0.unwrap().key <= n0.key);
        } else {
            assert(s0.unwrap().key <= n0.key);
        }
    }
    if other is Some {
        lemma_root_max(other);
    }
    lemma_root_max(Some(Box::new(c1)));
    assert(vals(a0) == vals(n0.left).add(vals(n0.right)).insert(n0.key));
    assert(vals(Some(Box::new(c1))) == vals(c1.left).add(vals(c1.right)).insert(c1.key));
    if c1.key > n0.key {
        let c2 = Node { key: n0.key, ..c1 };
        assert(c1.key == key);
        if s0 is None {
            assert(vals(c1.left).add(vals(c1.right)) =~= Multiset::<u64>::empty());
        }
        assert(vals(c1.left).add(vals(c1.right)) == vals(s0));
        assert forall|k: u64| vals(c2.left).contains(k) implies k <= c2.key by {
            assert(vals(s0).contains(k));
        }
        assert forall|k: u64| vals(c2.right).contains(k) implies k <= c2.key by {
            assert(vals(s0).contains(k));
        }
        assert(heaped(c2));
        assert(heap_wf(Some(Box::new(c2))));
        lemma_root_max(Some(Box::new(c2)));
        assert(vals(Some(Box::new(c2))) == vals(c2.left).add(vals(c2.right)).insert(c2.key));
        assert(vals(Some(Box::new(c2))) =~= vals(s0).insert(n0.key));
        assert(heaped(n2));
        assert(vals(Some(Box::new(n2))) == vals(n2.left).add(vals(n2.right)).insert(n2.key));
        assert(vals(n2.left).add(vals(n2.right)) =~= vals(a0));
        assert(vals(Some(Box::new(n2))) =~= vals(a0).insert(key));
    } else {
        assert(heaped(n2));
        assert(vals(Some(Box::new(n2))) == vals(n2.left).add(vals(n2.right)).insert(n2.key));
        assert(vals(Some(Box::new(n2))) =~= vals(a0).insert(key));
    }
}

/// Adds `key` at the position that the path leads to from the slot (the
/// first free one), then moves it up while it is greater than its parent.
fn push_into(
    anchor: &mut Anchor,
    key: u64,
    path: usize,
    Ghost(i): Ghost<nat>,
    Ghost(steps): Ghost<nat>,
    Ghost(n): Ghost<nat>,
)
    requires
        shaped(*old(anchor), i, n),
        heap_wf(*old(anchor)),
        target(i, path as nat, steps) == n,
    ensures
        final(anchor).is_some(),
        shaped(*final(anchor), i, n + 1),
        heap_wf(*final(anchor)),
        vals(*final(anchor)) == vals(*old(anchor)).insert(key),
        final(anchor).unwrap().key == if old(anchor).is_some() && old(anchor).unwrap().key >= key {
            old(anchor).unwrap().key
        } else {
            key
        },
        old(anchor).is_some() && key > old(anchor).unwrap().key ==> vals(
            final(anchor).unwrap().left,
        ).add(vals(final(anchor).unwrap().right)) == vals(*old(anchor)),
        old(anchor).is_none() ==> final(anchor).unwrap().left is None
            && final(anchor).unwrap().right is None,
    decreases steps,
{
    let ghost a0 = *anchor;
    proof {
        lemma_target_desc(i, path as nat, steps);
        lemma_desc_le(i, n);
    }
    match anchor.take() {
        None => {
            *anchor = Some(Box::new(Node::new(key)));
            proof {
                assert(i == n);
                assert(shaped(anchor.unwrap().left, 2 * i + 1, n + 1));
                assert(shaped(anchor.unwrap().right, 2 * i + 2, n + 1));
                assert(vals(*anchor) =~= vals(a0).insert(key));
            }
        },
        Some(mut node) => {
            let ghost n0 = *node;
            assert(steps > 0);
            let dir = path % 2;
            let ghost c: nat = (2 * i + 1 + dir) as nat;
            let ghost o: nat = (2 * i + 2 - dir) as nat;
            let mut sub = if dir == 0 {
                node.left.take()
            } else {
                node.right.take()
            };
            let ghost s0 = sub;
            assert(s0 == child_at(n0, dir as int));
            push_into(&mut sub, key, path / 2, Ghost(c), Ghost((steps - 1) as nat), Ghost(n));
            let mut child = sub.unwrap();
            let ghost c1 = *child;
            if child.key > node.key {
                let t = child.key;
                child.key = node.key;
                node.key = t;
            }
            let ghost c2 = *child;
            if dir == 0 {
                node.left = Some(child);
            } else {
                node.right = Some(child);
            }
            *anchor = Some(node);
            proof {
                let n2 = *anchor.unwrap();
                let other = child_at(n0, (1 - dir) as int);
                assert(child_at(n2, (1 - dir) as int) == other);
                assert(child_at(n2, dir as int) == Some(Box::new(c2)));
                lemma_target_desc(c, (path / 2) as nat, (steps - 1) as nat);
                lemma_siblings(i, n, c, o);
                lemma_shaped_resize(other, o, n, n + 1, n);
                assert(c2.left == c1.left && c2.right == c1.right);
                assert(shaped(Some(Box::new(c1)), c, n + 1));
                assert(shaped(c1.left, 2 * c + 1, n + 1));
                assert(shaped(Some(Box::new(c2)), c, n + 1));
                assert(i < n);
                if dir == 0 {
                    assert(shaped(n2.left, 2 * i + 1, n + 1));
                    assert(shaped(n2.right, 2 * i + 2, n + 1));
                } else {
                    assert(shaped(n2.left, 2 * i + 1, n + 1));
                    assert(shaped(n2.right, 2 * i + 2, n + 1));
                }
                assert(shaped(*anchor, i, n + 1));
                assert(n2 == sifted(n0, dir as int, c1));
                lemma_sift_step(n0, dir as int, c1, key);
            }
        },
    }
}

proof fn lemma_desc_below(c: nat, m: nat)
    requires
        desc(c, m),
        m != c,
    ensures
        m >= 2 * c + 1,
{
    lemma_desc_le(c, ((m - 1) / 2) as nat);
}

/// Detaches the node at the position that the path leads to from `node` (the
/// last position, `n - 1`, which lies strictly below it) and returns its key.
fn last_key(
    node: &mut Node,
    path: usize,
    Ghost(i): Ghost<nat>,
    Ghost(steps): Ghost<nat>,
    Ghost(n): Ghost<nat>,
) -> (r: u64)
    requires
        shaped(Some(Box::new(*old(node))), i, n),
        heap_wf(Some(Box::new(*old(node)))),
        target(i, path as nat, steps) == n - 1,
        i < n - 1,
    ensures
        shaped(Some(Box::new(*final(node))), i, (n - 1) as nat),
        heap_wf(Some(Box::new(*final(node)))),
        final(node).key == old(node).key,
        vals(Some(Box::new(*old(node)))).contains(r),
        vals(Some(Box::new(*final(node)))) == vals(Some(Box::new(*old(node)))).remove(r),
    decreases steps,
{
    let ghost n0 = *node;
    let ghost m: nat = (n - 1) as nat;
    assert(steps > 0);
    let dir = path % 2;
    let ghost c: nat = (2 * i + 1 + dir) as nat;
    let ghost o: nat = (2 * i + 2 - dir) as nat;
    proof {
        lemma_target_desc(c, (path / 2) as nat, (steps - 1) as nat);
        lemma_desc_le(c, m);
        lemma_siblings(i, m, c, o);
        lemma_shaped_resize(child_at(n0, (1 - dir) as int), o, n, m, m);
        assert(shaped(child_at(n0, dir as int), c, n));
        assert(heaped(n0));
        assert(vals(Some(Box::new(n0))) == vals(n0.left).add(vals(n0.right)).insert(n0.key));
    }
    let mut child = if dir == 0 {
        node.left.take().unwrap()
    } else {
        node.right.take().unwrap()
    };
    let ghost k0 = *child;
    proof {
        assert(child_at(n0, dir as int) == Some(Box::new(k0)));
        assert(vals(Some(Box::new(k0))) == vals(k0.left).add(vals(k0.right)).insert(k0.key));
    }
    if child.left.is_none() {
        // the child is the last position: it has no children
        proof {
            assert(shaped(Some(Box::new(k0)), c, n));
            assert(shaped(k0.left, 2 * c + 1, n));
            assert(shaped(k0.right, 2 * c + 2, n));
            if c != m {
                lemma_desc_below(c, m);
            }
            assert(c == m);
            assert(k0.right is None);
            assert(vals(Some(Box::new(k0))) =~= Multiset::<u64>::empty().insert(k0.key));
            let n1 = *node;
            assert(vals(Some(Box::new(n1))) == vals(n1.left).add(vals(n1.right)).insert(n1.key));
            assert(vals(Some(Box::new(n1))) =~= vals(Some(Box::new(n0))).remove(k0.key));
            assert(heaped(n1));
            assert(child_at(n1, dir as int) is None);
            assert(child_at(n1, (1 - dir) as int) == child_at(n0, (1 - dir) as int));
            assert(shaped(child_at(n1, dir as int), c, m));
            assert(shaped(child_at(n1, (1 - dir) as int), o, m));
            assert(shaped(n1.left, 2 * i + 1, m));
            assert(shaped(n1.right, 2 * i + 2, m));
            assert(heap_wf(n0.left) && heap_wf(n0.right));
            assert(heap_wf(n1.left) && heap_wf(n1.right));
        }
        return child.key;
    }
    proof {
        assert(shaped(Some(Box::new(k0)), c, n));
        assert(shaped(k0.left, 2 * c + 1, n));
        assert(c != m);
        assert(heap_wf(Some(Box::new(k0))));
    }
    let r = last_key(&mut child, path / 2, Ghost(c), Ghost((steps - 1) as nat), Ghost(n));
    let ghost k1 = *child;
    if dir == 0 {
        node.left = Some(child);
    } else {
        node.right = Some(child);
    }
    proof {
        let n1 = *node;
        assert(child_at(n1, dir as int) == Some(Box::new(k1)));
        assert(child_at(n1, (1 - dir) as int) == child_at(n0, (1 - dir) as int));
        assert(vals(Some(Box::new(n1))) == vals(n1.left).add(vals(n1.right)).insert(n1.key));
        assert(vals(Some(Box::new(n1))) =~= vals(Some(Box::new(n0))).remove(r));
        let shrunk = child_at(n1, dir as int);
        assert forall|k: u64| vals(shrunk).contains(k) implies k <= n1.key by {
            assert(vals(child_at(n0, dir as int)).contains(k));
        }
        assert(heaped(n1));
    }
    r
}

/// Moves the node's key down, each time swapping it with its greater child,
/// until no child is greater. The subtrees below are heap-ordered on entry.
fn bubble_down(node: &mut Node, Ghost(i): Ghost<nat>, Ghost(n): Ghost<nat>)
    requires
        heap_wf(old(node).left),
        heap_wf(old(node).right),
        shaped(Some(Box::new(*old(node))), i, n),
    ensures
        heap_wf(Some(Box::new(*final(node)))),
        vals(Some(Box::new(*final(node)))) == vals(Some(Box::new(*old(node)))),
        shaped(Some(Box::new(*final(node))), i, n),
    decreases vals(Some(Box::new(*old(node)))).len(),
{
    let ghost n0 = *node;
    let mut biggest_dir: usize = 2;
    let mut biggest = node.key;
    if let Some(child) = &node.left {
        if child.key > biggest {
            biggest_dir = 0;
            biggest = child.key;
        }
    }
    if let Some(child) = &node.right {
        if child.key > biggest {
            biggest_dir = 1;
        }
    }
    proof {
        if n0.left is Some {
            lemma_root_max(n0.left);
        }
        if n0.right is Some {
            lemma_root_max(n0.right);
        }
        assert(vals(Some(Box::new(n0))) == vals(n0.left).add(vals(n0.right)).insert(n0.key));
    }
    if biggest_dir == 2 {
        return;
    }
    let mut child = if biggest_dir == 0 {
        node.left.take().unwrap()
    } else {
        node.right.take().unwrap()
    };
    let ghost k0 = *child;
    let t = node.key;
    node.key = child.key;
    child.key = t;
    let ghost k1 = *child;
    proof {
        assert(child_at(n0, biggest_dir as int) == Some(Box::new(k0)));
        assert(heap_wf(Some(Box::new(k0))));
        assert(shaped(Some(Box::new(k0)), (2 * i + 1 + biggest_dir) as nat, n));
        assert(vals(Some(Box::new(k0))) == vals(k0.left).add(vals(k0.right)).insert(k0.key));
        assert(vals(Some(Box::new(k1))) == vals(k1.left).add(vals(k1.right)).insert(k1.key));
        assert(vals(Some(Box::new(k1))).len() == vals(Some(Box::new(k0))).len());
        assert(vals(Some(Box::new(k0))).len() < vals(Some(Box::new(n0))).len());
    }
    bubble_down(&mut child, Ghost((2 * i + 1 + biggest_dir) as nat), Ghost(n));
    let ghost k2 = *child;
    if biggest_dir == 0 {
        node.left = Some(child);
    } else {
        node.right = Some(child);
    }
    proof {
        let n2 = *node;
        let d = biggest_dir as int;
        assert(child_at(n2, d) == Some(Box::new(k2)));
        assert(child_at(n2, 1 - d) == child_at(n0, 1 - d));
        lemma_root_max(Some(Box::new(k0)));
        assert(vals(Some(Box::new(k0))) == vals(k0.left).add(vals(k0.right)).insert(k0.key));
        assert(vals(Some(Box::new(k1))) == vals(k1.left).add(vals(k1.right)).insert(k1.key));
        assert(vals(Some(Box::new(k2))) == vals(Some(Box::new(k1))));
        let moved = child_at(n2, d);
        assert forall|k: u64| vals(moved).contains(k) implies k <= n2.key by {
            if k != t {
                assert(vals(Some(Box::new(k0))).contains(k));
            }
        }
        let other = child_at(n2, 1 - d);
        assert forall|k: u64| vals(other).contains(k) implies k <= n2.key by {
            assert(vals(child_at(n0, 1 - d)).contains(k));
        }
        assert(heaped(n2));
        assert(vals(Some(Box::new(n2))) == vals(n2.left).add(vals(n2.right)).insert(n2.key));
        assert(vals(Some(Box::new(n2))) =~= vals(Some(Box::new(n0))));
        assert(shaped(Some(Box::new(n2)), i, n));
    }
}

/// One line of a pre-order outline of the tree: a node, with its depth (the
/// root at 0), or an empty slot, with the depth of the node that holds it
/// (`None` for the slot of an empty heap).
#[derive(Clone, Copy, Debug, PartialEq, Eq, Structural)]
pub enum OutlineLine {
    Node { depth: u64, key: u64 },
    Empty { parent_depth: Option<u64> },
}

/// Number of nodes on the longest path down (0 for an empty slot).
spec fn height(a: Anchor) -> nat
    decreases a,
{
    match a {
        None => 0,
        Some(n) => {
            let hl = height(n.left);
            let hr = height(n.right);
            1 + if hl >= hr { hl } else { hr }
        },
    }
}

/// A non-empty subtree at position `i` of a heap of `n` elements is at most
/// `n - i` levels tall: each level down at least one position further.
proof fn lemma_height_shaped(a: Anchor, i: nat, n: nat)
    requires
        shaped(a, i, n),
    ensures
        a is Some ==> i + height(a) <= n,
    decreases a,
{
    if let Some(b) = a {
        assert(i < n);
        assert(shaped(b.left, 2 * i + 1, n) && shaped(b.right, 2 * i + 2, n));
        lemma_height_shaped(b.left, 2 * i + 1, n);
        lemma_height_shaped(b.right, 2 * i + 2, n);
        assert(height(a) == 1 + if height(b.left) >= height(b.right) {
            height(b.left)
        } else {
            height(b.right)
        });
    }
}

/// Depth of a node whose parent is at `parent` (`None` for the root).
spec fn depth_below(parent: Option<u64>) -> int {
    match parent {
        None => 0,
        Some(p) => p + 1,
    }
}

/// Pre-order outline of the subtree in a slot held by a node at `parent`.
spec fn outline(a: Anchor, parent: Option<u64>) -> Seq<OutlineLine>
    decreases a,
{
    match a {
        None => seq![OutlineLine::Empty { parent_depth: parent }],
        Some(n) => {
            let d = depth_below(parent) as u64;
            seq![OutlineLine::Node { depth: d, key: n.key }] + outline(n.left, Some(d)) + outline(
                n.right,
                Some(d),
            )
        },
    }
}

fn outline_into(anchor: &Anchor, parent: Option<u64>, out: &mut Vec<OutlineLine>)
    requires
        depth_below(parent) + height(*anchor) <= u64::MAX + 1,
    ensures
        final(out)@ == old(out)@ + outline(*anchor, parent),
    decreases anchor,
{
    match anchor {
        None => {
            out.push(OutlineLine::Empty { parent_depth: parent });
        },
        Some(node) => {
            let depth: u64 = match parent {
                None => 0,
                Some(p) => p + 1,
            };
            out.push(OutlineLine::Node { depth, key: node.key });
            outline_into(&node.left, Some(depth), out);
            outline_into(&node.right, Some(depth), out);
            proof {
                assert(out@ =~= old(out)@ + outline(*anchor, parent));
            }
        },
    }
}

/// No key of `s` exceeds the bound, if one is given.
spec fn capped(s: Multiset<u64>, cap: Option<u64>) -> bool {
    forall|k: u64| s.contains(k) ==> (cap is Some ==> k <= cap.unwrap())
}

/// Whether the subtree is heap-ordered with no key above its parent's.
fn check_subtree(anchor: &Anchor, parent_key: Option<u64>) -> (r: bool)
    ensures
        r == (heap_wf(*anchor) && capped(vals(*anchor), parent_key)),
    decreases anchor,
{
    match anchor {
        None => true,
        Some(node) => {
            proof {
                assert(vals(*anchor) == vals(node.left).add(vals(node.right)).insert(node.key));
                assert(vals(*anchor).contains(node.key));
            }
            if let Some(pk) = parent_key {
                if node.key > pk {
                    return false;
                }
            }
            let key = Some(node.key);
            if !check_subtree(&node.left, key) {
                return false;
            }
            let r = check_subtree(&node.right, key);
            proof {
                if r {
                    assert(heaped(**node));
                    assert forall|k: u64| vals(*anchor).contains(k) implies (parent_key is Some
                        ==> k <= parent_key.unwrap()) by {
                        if k != node.key {
                            assert(vals(node.left).contains(k) || vals(node.right).contains(k));
                        }
                    }
                    assert(capped(vals(*anchor), parent_key));
                }
            }
            r
        },
    }
}

/// A max-heap of `u64` keys kept as a linked complete binary tree: the
/// largest key comes out first.
pub struct RecursiveHeap {
    root: Anchor,
    size: usize,
}

impl View for RecursiveHeap {
    type V = Multiset<u64>;

    closed spec fn view(&self) -> Multiset<u64> {
        vals(self.root)
    }
}

impl RecursiveHeap {
    #[verifier::type_invariant]
    spec fn inv(self) -> bool {
        &&& shaped(self.root, 0, self.size as nat)
        &&& heap_wf(self.root)
        &&& vals(self.root).len() == self.size
    }

    /// No key is greater than its parent's.
    pub closed spec fn is_heap(&self) -> bool {
        heap_wf(self.root)
    }

    /// Consistency pass: walks the whole tree and reports whether no key is
    /// greater than its parent's. The invariant that every operation
    /// maintains makes it always hold.
    pub fn check(&self) -> (r: bool)
        ensures
            r == self.is_heap(),
            r,
    {
        proof {
            use_type_invariant(self);
        }
        check_subtree(&self.root, None)
    }

    /// Pre-order outline of the tree: each node with its depth and key, and
    /// each empty slot.
    pub closed spec fn outline_lines(&self) -> Seq<OutlineLine> {
        outline(self.root, None)
    }

    /// The tree's outline, for display: one line per node and per empty slot,
    /// in pre-order.
    pub fn outline(&self) -> (r: Vec<OutlineLine>)
        ensures
            r@ == self.outline_lines(),
    {
        proof {
            use_type_invariant(self);
            lemma_height_shaped(self.root, 0, self.size as nat);
        }
        let mut out = Vec::new();
        outline_into(&self.root, None, &mut out);
        proof {
            assert(out@ =~= self.outline_lines());
        }
        out
    }

    /// An empty heap.
    pub fn new() -> (h: RecursiveHeap)
        ensures
            h@ == Multiset::<u64>::empty(),
    {
        RecursiveHeap { root: None, size: 0 }
    }

    /// Adds `key`.
    pub fn push(&mut self, key: u64)
        requires
            old(self)@.len() < usize::MAX,
        ensures
            final(self)@ == old(self)@.insert(key),
    {
        let mut h = RecursiveHeap::new();
        std::mem::swap(self, &mut h);
        proof {
            use_type_invariant(&h);
        }
        let RecursiveHeap { root, size } = h;
        let mut root = root;
        let path = binary_path_to(size);
        push_into(&mut root, key, path, Ghost(0), Ghost(depth(size as nat)), Ghost(size as nat));
        *self = RecursiveHeap { root, size: size + 1 };
    }

    /// The largest key, or `None` when the heap is empty.
    pub fn peek(&self) -> (r: Option<&u64>)
        ensures
            r is None <==> self@.len() == 0,
            r is Some ==> self@.contains(*r.unwrap()) && forall|x: u64|
                self@.contains(x) ==> x <= *r.unwrap(),
    {
        proof {
            use_type_invariant(self);
        }
        match &self.root {
            None => None,
            Some(node) => {
                proof {
                    lemma_root_max(self.root);
                    assert(vals(self.root).contains(node.key));
                }
                Some(&node.key)
            },
        }
    }

    /// Removes and returns the largest key, or returns `None` when empty.
    pub fn pop(&mut self) -> (r: Option<u64>)
        ensures
            old(self)@.len() == 0 ==> r is None && final(self)@ == old(self)@,
            old(self)@.len() > 0 ==> r is Some && old(self)@.contains(r.unwrap()) && (forall|x: u64|
                old(self)@.contains(x) ==> x <= r.unwrap()) && final(self)@ == old(self)@.remove(
                r.unwrap(),
            ),
    {
        let mut h = RecursiveHeap::new();
        std::mem::swap(self, &mut h);
        proof {
            use_type_invariant(&h);
        }
        let ghost a0 = h.root;
        let RecursiveHeap { root, size } = h;
        match root {
            None => {
                *self = RecursiveHeap { root: None, size };
                None
            },
            Some(mut node) => {
                let ghost n0 = *node;
                proof {
                    lemma_root_max(a0);
                    assert(vals(a0) == vals(n0.left).add(vals(n0.right)).insert(n0.key));
                }
                if size == 1 {
                    // the root is the only node
                    proof {
                        assert(vals(n0.left).add(vals(n0.right)).len() == 0);
                        assert(vals(n0.left).add(vals(n0.right)) =~= Multiset::<u64>::empty());
                        assert(vals(a0).remove(n0.key) =~= Multiset::<u64>::empty());
                    }
                    *self = RecursiveHeap { root: None, size: 0 };
                    return Some(node.key);
                }
                let new_size = size - 1;
                let path = binary_path_to(new_size);
                let last = last_key(
                    &mut node,
                    path,
                    Ghost(0),
                    Ghost(depth(new_size as nat)),
                    Ghost(size as nat),
                );
                let ghost n1 = *node;
                let ret = node.key;
                node.key = last;
                let ghost n2 = *node;
                proof {
                    assert(heap_wf(Some(Box::new(n1))));
                    assert(vals(Some(Box::new(n1))) == vals(n1.left).add(vals(n1.right)).insert(
                        n1.key,
                    ));
                    assert(vals(Some(Box::new(n2))) == vals(n2.left).add(vals(n2.right)).insert(
                        n2.key,
                    ));
                    assert(n1.key == ret);
                    assert(vals(Some(Box::new(n1))).contains(ret));
                    assert(vals(Some(Box::new(n1))) == vals(a0).remove(last));
                    assert(vals(Some(Box::new(n2))) =~= vals(Some(Box::new(n1))).remove(ret).insert(
                        last,
                    ));
                    assert(vals(Some(Box::new(n2))) =~= vals(a0).remove(ret));
                }
                bubble_down(&mut node, Ghost(0), Ghost(new_size as nat));
                *self = RecursiveHeap { root: Some(node), size: new_size };
                Some(ret)
            },
        }
    }
}

impl Default for RecursiveHeap {
    /// An empty heap, as `new` gives.
    fn default() -> (r: RecursiveHeap)
        ensures
            r@ == Multiset::<u64>::empty(),
    {
        RecursiveHeap::new()
    }
}

} // verus!
