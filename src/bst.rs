//! Plain (unbalanced) binary search tree over `u64` keys.

use vstd::prelude::*;

verus! {

/// A slot that holds a subtree, or nothing.
type Anchor = Option<Box<BstNode>>;

/// A key and its two subtrees: smaller keys on the left, greater on the right.
struct BstNode {
    key: u64,
    left: Anchor,
    right: Anchor,
}

impl BstNode {
    fn new(key: u64) -> (r: BstNode)
        ensures
            r == (BstNode { key, left: None, right: None }),
    {
        BstNode { key, left: None, right: None }
    }
}

/// The keys stored in the subtree.
spec fn keys(a: Anchor) -> Set<u64>
    decreases a,
{
    match a {
        None => Set::empty(),
        Some(n) => keys(n.left).union(keys(n.right)).insert(n.key),
    }
}

/// Keys in ascending order, as an in-order walk visits them.
spec fn inorder(a: Anchor) -> Seq<u64>
    decreases a,
{
    match a {
        None => Seq::empty(),
        Some(n) => inorder(n.left) + seq![n.key] + inorder(n.right),
    }
}

/// Keys on the left of the node are smaller than its own, keys on the right
/// greater.
spec fn ordered(n: BstNode) -> bool {
    &&& forall|k: u64| keys(n.left).contains(k) ==> k < n.key
    &&& forall|k: u64| keys(n.right).contains(k) ==> n.key < k
}

/// Search-tree order holds at every node.
spec fn wf(a: Anchor) -> bool
    decreases a,
{
    match a {
        None => true,
        Some(n) => ordered(*n) && wf(n.left) && wf(n.right),
    }
}

fn contains_in(anchor: &Anchor, key: u64) -> (r: bool)
    requires
        wf(*anchor),
    ensures
        r == keys(*anchor).contains(key),
    decreases anchor,
{
    match anchor {
        None => false,
        Some(node) => {
            if key < node.key {
                assert(!keys(node.right).contains(key));
                contains_in(&node.left, key)
            } else if key > node.key {
                assert(!keys(node.left).contains(key));
                contains_in(&node.right, key)
            } else {
                true
            }
        },
    }
}

/// The subtree after `key` is added as a new leaf where a search for it ends,
/// every other link kept; the same subtree when `key` is already there.
spec fn with_leaf(a: Anchor, key: u64) -> Anchor
    decreases a,
{
    match a {
        None => Some(Box::new(BstNode { key, left: None, right: None })),
        Some(n) => if key < n.key {
            Some(Box::new(BstNode { left: with_leaf(n.left, key), ..*n }))
        } else if key > n.key {
            Some(Box::new(BstNode { right: with_leaf(n.right, key), ..*n }))
        } else {
            a
        },
    }
}

fn insert_into(anchor: &mut Anchor, key: u64)
    requires
        wf(*old(anchor)),
    ensures
        wf(*final(anchor)),
        keys(*final(anchor)) == keys(*old(anchor)).insert(key),
        *final(anchor) == with_leaf(*old(anchor), key),
        keys(*old(anchor)).contains(key) ==> *final(anchor) == *old(anchor),
    decreases *old(anchor),
{
    let ghost a0 = *anchor;
    match anchor.take() {
        None => {
            *anchor = Some(Box::new(BstNode::new(key)));
            proof {
                assert(keys(*anchor) =~= keys(a0).insert(key));
            }
        },
        Some(mut node) => {
            let ghost n0 = *node;
            if key < node.key {
                insert_into(&mut node.left, key);
            } else if key > node.key {
                insert_into(&mut node.right, key);
            }
            *anchor = Some(node);
            proof {
                let n1 = *anchor.unwrap();
                assert(ordered(n1));
                assert(keys(*anchor) =~= keys(a0).insert(key));
                if keys(a0).contains(key) {
                    assert(ordered(n0));
                    assert(keys(a0) == keys(n0.left).union(keys(n0.right)).insert(n0.key));
                    if key < n0.key {
                        assert(keys(n0.left).contains(key));
                    } else if key > n0.key {
                        assert(keys(n0.right).contains(key));
                    }
                    assert(n1 == n0);
                }
            }
        },
    }
}

/// Detaches the node with the smallest key of a non-empty subtree and returns
/// it, emptied of children.
fn remove_leftmost(anchor: &mut Anchor) -> (r: Box<BstNode>)
    requires
        old(anchor).is_some(),
        wf(*old(anchor)),
    ensures
        wf(*final(anchor)),
        r.left is None,
        r.right is None,
        keys(*old(anchor)).contains(r.key),
        forall|k: u64| keys(*old(anchor)).contains(k) ==> r.key <= k,
        keys(*final(anchor)) == keys(*old(anchor)).remove(r.key),
    decreases *old(anchor),
{
    let ghost a0 = *anchor;
    let mut node = anchor.take().unwrap();
    let ghost n0 = *node;
    if node.left.is_none() {
        *anchor = node.right.take();
        proof {
            assert(*anchor == n0.right);
            assert(!keys(n0.right).contains(n0.key));
            assert(keys(a0) == keys(n0.left).union(keys(n0.right)).insert(n0.key));
            assert(keys(*anchor) =~= keys(a0).remove(n0.key));
        }
        return node;
    }
    let min = remove_leftmost(&mut node.left);
    *anchor = Some(node);
    proof {
        let n1 = *anchor.unwrap();
        assert(keys(n0.left).contains(min.key));
        assert(min.key < n0.key);
        assert(!keys(n0.right).contains(min.key));
        assert(keys(n1.left) == keys(n0.left).remove(min.key));
        assert(ordered(n1));
        assert(keys(*anchor) =~= keys(a0).remove(min.key));
        assert forall|k: u64| keys(a0).contains(k) implies min.key <= k by {
            if keys(n0.right).contains(k) {
                assert(min.key < n0.key);
            }
        }
    }
    min
}

fn remove_from(anchor: &mut Anchor, key: u64)
    requires
        wf(*old(anchor)),
    ensures
        wf(*final(anchor)),
        keys(*final(anchor)) == keys(*old(anchor)).remove(key),
        !keys(*old(anchor)).contains(key) ==> *final(anchor) == *old(anchor),
    decreases *old(anchor),
{
    let ghost a0 = *anchor;
    match anchor.take() {
        None => {
            proof {
                assert(keys(*anchor) =~= keys(a0).remove(key));
            }
        },
        Some(mut node) => {
            let ghost n0 = *node;
            if key < node.key {
                remove_from(&mut node.left, key);
                *anchor = Some(node);
                proof {
                    assert(!keys(n0.right).contains(key));
                    assert(ordered(*anchor.unwrap()));
                    assert(keys(*anchor) =~= keys(a0).remove(key));
                }
            } else if key > node.key {
                remove_from(&mut node.right, key);
                *anchor = Some(node);
                proof {
                    assert(!keys(n0.left).contains(key));
                    assert(ordered(*anchor.unwrap()));
                    assert(keys(*anchor) =~= keys(a0).remove(key));
                }
            } else {
                let left = node.left.take();
                let right = node.right.take();
                proof {
                    assert(!keys(n0.left).contains(key));
                    assert(!keys(n0.right).contains(key));
                }
                if left.is_none() {
                    *anchor = right;
                    proof {
                        assert(keys(*anchor) =~= keys(a0).remove(key));
                    }
                } else if right.is_none() {
                    *anchor = left;
                    proof {
                        assert(keys(*anchor) =~= keys(a0).remove(key));
                    }
                } else {
                    let mut right_node = right.unwrap();
                    let ghost r0 = *right_node;
                    proof {
                        assert(wf(n0.right));
                        assert(ordered(r0));
                        assert(keys(n0.right).contains(r0.key));
                        assert(keys(n0.right) == keys(r0.left).union(keys(r0.right)).insert(
                            r0.key,
                        ));
                    }
                    if right_node.left.is_none() {
                        // the right child is the successor: it takes the node's place
                        right_node.left = left;
                        *anchor = Some(right_node);
                        proof {
                            let n1 = *anchor.unwrap();
                            assert(keys(r0.left) == Set::<u64>::empty());
                            assert forall|k: u64| keys(n1.left).contains(k) implies k < n1.key by {
                                assert(k < n0.key);
                            }
                            assert(ordered(n1));
                            assert(keys(*anchor) =~= keys(a0).remove(key));
                        }
                    } else {
                        // the leftmost node of the right subtree is detached and
                        // takes the node's place
                        let mut right_slot = Some(right_node);
                        let mut successor = remove_leftmost(&mut right_slot);
                        successor.left = left;
                        successor.right = right_slot;
                        *anchor = Some(successor);
                        proof {
                            let n1 = *anchor.unwrap();
                            assert(n0.key < n1.key);
                            assert forall|k: u64| keys(n1.left).contains(k) implies k < n1.key by {
                                assert(k < n0.key);
                            }
                            assert forall|k: u64| keys(n1.right).contains(k) implies n1.key < k by {
                                assert(n1.key <= k);
                            }
                            assert(ordered(n1));
                            assert(keys(*anchor) =~= keys(a0).remove(key));
                        }
                    }
                }
            }
        },
    }
}

/// Every key of `s` lies strictly between the bounds that are given.
spec fn within(s: Set<u64>, min: Option<u64>, max: Option<u64>) -> bool {
    forall|k: u64|
        s.contains(k) ==> (min is Some ==> min.unwrap() < k) && (max is Some ==> k < max.unwrap())
}

/// Whether the subtree's keys lie between the bounds and it is search-ordered.
fn check_subtree(anchor: &Anchor, min: Option<u64>, max: Option<u64>) -> (r: bool)
    ensures
        r == (wf(*anchor) && within(keys(*anchor), min, max)),
    decreases anchor,
{
    match anchor {
        None => true,
        Some(node) => {
            proof {
                assert(keys(*anchor).contains(node.key));
                assert(keys(*anchor) == keys(node.left).union(keys(node.right)).insert(node.key));
                if wf(*anchor) && within(keys(*anchor), min, max) {
                    assert(ordered(**node));
                    assert forall|k: u64| keys(node.left).contains(k) implies (min is Some
                        ==> min.unwrap() < k) && k < node.key by {
                        assert(keys(*anchor).contains(k));
                    }
                    assert forall|k: u64| keys(node.right).contains(k) implies node.key < k && (
                    max is Some ==> k < max.unwrap()) by {
                        assert(keys(*anchor).contains(k));
                    }
                }
            }
            if let Some(lo) = min {
                if node.key <= lo {
                    return false;
                }
            }
            if let Some(hi) = max {
                if node.key >= hi {
                    return false;
                }
            }
            if !check_subtree(&node.left, min, Some(node.key)) {
                return false;
            }
            let r = check_subtree(&node.right, Some(node.key), max);
            proof {
                if r {
                    assert(within(keys(*anchor), min, max));
                }
            }
            r
        },
    }
}

/// How far a borrowing walk has got with a node.
#[derive(Clone, Copy, PartialEq, Eq, Structural)]
enum ExplorationState {
    /// Nothing of the subtree has been yielded yet.
    Unexplored,
    /// The left subtree has been yielded: the node's key and its right
    /// subtree are left.
    YieldedLeft,
}

spec fn entry_keys(e: (ExplorationState, &Anchor)) -> Seq<u64> {
    match e.0 {
        ExplorationState::Unexplored => inorder(*e.1),
        ExplorationState::YieldedLeft => match *e.1 {
            None => Seq::empty(),
            Some(n) => seq![n.key] + inorder(n.right),
        },
    }
}

spec fn entry_cost(e: (ExplorationState, &Anchor)) -> nat {
    match e.0 {
        ExplorationState::Unexplored => 2 * inorder(*e.1).len() + 1,
        ExplorationState::YieldedLeft => match *e.1 {
            None => 1,
            Some(n) => 2 * inorder(n.right).len() + 1,
        },
    }
}

/// Keys that a borrowing walk's stack has yet to yield, top entry first.
spec fn pending_ref(s: Seq<(ExplorationState, &Anchor)>) -> Seq<u64>
    decreases s.len(),
{
    if s.len() == 0 {
        Seq::empty()
    } else {
        entry_keys(s.last()) + pending_ref(s.drop_last())
    }
}

spec fn stack_cost(s: Seq<(ExplorationState, &Anchor)>) -> nat
    decreases s.len(),
{
    if s.len() == 0 {
        0
    } else {
        entry_cost(s.last()) + stack_cost(s.drop_last())
    }
}

proof fn lemma_push_ref(s: Seq<(ExplorationState, &Anchor)>, e: (ExplorationState, &Anchor))
    ensures
        pending_ref(s.push(e)) == entry_keys(e) + pending_ref(s),
        stack_cost(s.push(e)) == entry_cost(e) + stack_cost(s),
{
    assert(s.push(e).drop_last() =~= s);
}

/// A walk over the keys of a `Bst` in ascending order, borrowing the tree.
pub struct IterRef<'a> {
    stack: Vec<(ExplorationState, &'a Anchor)>,
}

impl<'a> IterRef<'a> {
    fn new(anchor: &'a Anchor) -> (r: IterRef<'a>)
        ensures
            r.remaining() == inorder(*anchor),
    {
        let r = IterRef { stack: vec![(ExplorationState::Unexplored, anchor)] };
        proof {
            lemma_push_ref(Seq::empty(), (ExplorationState::Unexplored, anchor));
            assert(r.stack@ =~= Seq::<(ExplorationState, &Anchor)>::empty().push(
                (ExplorationState::Unexplored, anchor),
            ));
            assert(r.remaining() =~= inorder(*anchor));
        }
        r
    }

    /// The keys that the walk has yet to yield, in the order it yields them.
    pub closed spec fn remaining(&self) -> Seq<u64> {
        pending_ref(self.stack@)
    }

    /// Yields the next key, or `None` once all have been yielded.
    pub fn next(&mut self) -> (r: Option<&'a u64>)
        ensures
            old(self).remaining().len() == 0 ==> r is None && final(self).remaining()
                == old(self).remaining(),
            old(self).remaining().len() > 0 ==> r is Some && *r.unwrap() == old(
                self,
            ).remaining()[0] && final(self).remaining() == old(self).remaining().drop_first(),
    {
        loop
            invariant
                self.remaining() == old(self).remaining(),
            decreases stack_cost(self.stack@),
        {
            let ghost s0 = self.stack@;
            match self.stack.pop() {
                None => {
                    return None;
                },
                Some((state, anchor)) => {
                    let ghost s1 = self.stack@;
                    proof {
                        assert(s0 =~= s1.push((state, anchor)));
                        lemma_push_ref(s1, (state, anchor));
                    }
                    match anchor {
                        None => {},
                        Some(node) => {
                            match state {
                                ExplorationState::Unexplored => {
                                    self.stack.push((ExplorationState::YieldedLeft, anchor));
                                    self.stack.push((ExplorationState::Unexplored, &node.left));
                                    proof {
                                        let e = (ExplorationState::YieldedLeft, anchor);
                                        lemma_push_ref(s1, e);
                                        lemma_push_ref(
                                            s1.push(e),
                                            (ExplorationState::Unexplored, &node.left),
                                        );
                                        assert(self.remaining() =~= old(self).remaining());
                                    }
                                },
                                ExplorationState::YieldedLeft => {
                                    self.stack.push((ExplorationState::Unexplored, &node.right));
                                    proof {
                                        lemma_push_ref(
                                            s1,
                                            (ExplorationState::Unexplored, &node.right),
                                        );
                                        assert(self.remaining() =~= old(
                                            self,
                                        ).remaining().drop_first());
                                    }
                                    return Some(&node.key);
                                },
                            }
                        },
                    }
                },
            }
        }
    }
}

/// Keys that a consuming walk's stack has yet to yield, top entry first.
spec fn pending(s: Seq<Anchor>) -> Seq<u64>
    decreases s.len(),
{
    if s.len() == 0 {
        Seq::empty()
    } else {
        inorder(s.last()) + pending(s.drop_last())
    }
}

spec fn cost(a: Anchor) -> nat
    decreases a,
{
    match a {
        None => 0,
        Some(n) => cost(n.left) + cost(n.right) + if n.left is Some {
            3nat
        } else {
            1nat
        },
    }
}

spec fn pending_cost(s: Seq<Anchor>) -> nat
    decreases s.len(),
{
    if s.len() == 0 {
        0
    } else {
        cost(s.last()) + 1 + pending_cost(s.drop_last())
    }
}

proof fn lemma_push(s: Seq<Anchor>, a: Anchor)
    ensures
        pending(s.push(a)) == inorder(a) + pending(s),
        pending_cost(s.push(a)) == cost(a) + 1 + pending_cost(s),
{
    assert(s.push(a).drop_last() =~= s);
}

/// A walk over the keys of a `Bst` in ascending order that consumes the tree.
pub struct Iter {
    stack: Vec<Anchor>,
}

impl Iter {
    fn new(tree: Bst) -> (r: Iter)
        ensures
            r.remaining() == tree.in_order(),
    {
        let ghost root = tree.root;
        let r = Iter { stack: vec![tree.root] };
        proof {
            lemma_push(Seq::empty(), root);
            assert(r.stack@ =~= Seq::<Anchor>::empty().push(root));
            assert(r.remaining() =~= inorder(root));
        }
        r
    }

    /// The keys that the walk has yet to yield, in the order it yields them.
    pub closed spec fn remaining(&self) -> Seq<u64> {
        pending(self.stack@)
    }

    /// Yields the next key, or `None` once all have been yielded.
    pub fn next(&mut self) -> (r: Option<u64>)
        ensures
            old(self).remaining().len() == 0 ==> r is None && final(self).remaining()
                == old(self).remaining(),
            old(self).remaining().len() > 0 ==> r == Some(old(self).remaining()[0])
                && final(self).remaining() == old(self).remaining().drop_first(),
    {
        loop
            invariant
                self.remaining() == old(self).remaining(),
            decreases pending_cost(self.stack@),
        {
            let ghost s0 = self.stack@;
            match self.stack.pop() {
                None => {
                    return None;
                },
                Some(anchor) => {
                    let ghost s1 = self.stack@;
                    proof {
                        assert(s0 =~= s1.push(anchor));
                        lemma_push(s1, anchor);
                    }
                    match anchor {
                        None => {},
                        Some(mut node) => {
                            let ghost n0 = *node;
                            if let Some(left) = node.left.take() {
                                let ghost n1 = *node;
                                self.stack.push(Some(node));
                                self.stack.push(Some(left));
                                proof {
                                    let a1 = Some(Box::new(n1));
                                    lemma_push(s1, a1);
                                    lemma_push(s1.push(a1), Some(left));
                                    assert(n1.left is None && n1.right == n0.right);
                                    assert(inorder(n1.left) =~= Seq::<u64>::empty());
                                    assert(inorder(a1) =~= seq![n0.key] + inorder(n0.right));
                                    assert(cost(anchor) == cost(n0.left) + cost(n0.right) + 3);
                                    assert(cost(n1.left) == 0);
                                    assert(cost(a1) == cost(n0.right) + 1);
                                    assert(self.remaining() =~= old(self).remaining());
                                }
                            } else {
                                if let Some(right) = node.right.take() {
                                    self.stack.push(Some(right));
                                }
                                proof {
                                    if n0.right is Some {
                                        lemma_push(s1, n0.right);
                                    }
                                    assert(inorder(n0.left) =~= Seq::<u64>::empty());
                                    assert(inorder(anchor) =~= seq![n0.key] + inorder(n0.right));
                                    assert(self.remaining() =~= old(self).remaining().drop_first());
                                }
                                return Some(node.key);
                            }
                        },
                    }
                },
            }
        }
    }
}

/// One line of a pre-order outline of a tree: a node, with its depth (the
/// root at 0), or an empty slot, with the depth of the node that holds it
/// (`None` for the slot of an empty tree).
#[derive(Clone, Copy, Debug, PartialEq, Eq, Structural)]
pub enum OutlineLine {
    Node { depth: u64, key: u64 },
    Empty { parent_depth: Option<u64> },
}

/// Number of nodes on the longest path down (0 for an empty slot).
spec fn height(a: Anchor) -> nat
    decreases a,
{
    match a {
        None => 0,
        Some(n) => {
            let hl = height(n.left);
            let hr = height(n.right);
            1 + if hl >= hr { hl } else { hr }
        },
    }
}

/// A search-ordered subtree whose keys lie in `[lo, hi]` is at most
/// `hi - lo + 1` levels tall: each level down a path narrows the interval.
proof fn lemma_height_within(a: Anchor, lo: int, hi: int)
    requires
        wf(a),
        forall|k: u64| keys(a).contains(k) ==> lo <= k <= hi,
    ensures
        height(a) <= if hi - lo + 1 >= 0 {
            hi - lo + 1
        } else {
            0
        },
    decreases a,
{
    if let Some(n) = a {
        assert(keys(a).contains(n.key));
        assert(ordered(*n));
        assert(keys(a) == keys(n.left).union(keys(n.right)).insert(n.key));
        assert forall|k: u64| keys(n.left).contains(k) implies lo <= k <= n.key - 1 by {
            assert(keys(a).contains(k));
        }
        assert forall|k: u64| keys(n.right).contains(k) implies n.key + 1 <= k <= hi by {
            assert(keys(a).contains(k));
        }
        lemma_height_within(n.left, lo, n.key - 1);
        lemma_height_within(n.right, n.key + 1, hi);
    }
}

/// Depth of a node whose parent is at `parent` (`None` for the root).
spec fn depth_below(parent: Option<u64>) -> int {
    match parent {
        None => 0,
        Some(p) => p + 1,
    }
}

/// Pre-order outline of the subtree in a slot held by a node at `parent`.
spec fn outline(a: Anchor, parent: Option<u64>) -> Seq<OutlineLine>
    decreases a,
{
    match a {
        None => seq![OutlineLine::Empty { parent_depth: parent }],
        Some(n) => {
            let d = depth_below(parent) as u64;
            seq![OutlineLine::Node { depth: d, key: n.key }] + outline(n.left, Some(d)) + outline(
                n.right,
                Some(d),
            )
        },
    }
}

fn outline_into(anchor: &Anchor, parent: Option<u64>, out: &mut Vec<OutlineLine>)
    requires
        depth_below(parent) + height(*anchor) <= u64::MAX + 1,
    ensures
        final(out)@ == old(out)@ + outline(*anchor, parent),
    decreases anchor,
{
    match anchor {
        None => {
            out.push(OutlineLine::Empty { parent_depth: parent });
        },
        Some(node) => {
            let depth: u64 = match parent {
                None => 0,
                Some(p) => p + 1,
            };
            out.push(OutlineLine::Node { depth, key: node.key });
            outline_into(&node.left, Some(depth), out);
            outline_into(&node.right, Some(depth), out);
            proof {
                assert(out@ =~= old(out)@ + outline(*anchor, parent));
            }
        },
    }
}

/// A binary search tree of `u64` keys, without balancing.
pub struct Bst {
    root: Anchor,
}

impl View for Bst {
    type V = Set<u64>;

    closed spec fn view(&self) -> Set<u64> {
        keys(self.root)
    }
}

impl Bst {
    #[verifier::type_invariant]
    spec fn inv(self) -> bool {
        wf(self.root)
    }

    /// The stored keys in ascending order.
    pub closed spec fn in_order(&self) -> Seq<u64> {
        inorder(self.root)
    }

    /// Search order holds at every node.
    pub closed spec fn is_search_tree(&self) -> bool {
        wf(self.root)
    }

    /// Consistency pass: walks the whole tree and reports whether search
    /// order holds. The invariant that every operation maintains makes it
    /// always hold.
    pub fn check(&self) -> (r: bool)
        ensures
            r == self.is_search_tree(),
            r,
    {
        proof {
            use_type_invariant(self);
        }
        check_subtree(&self.root, None, None)
    }

    /// Pre-order outline of the tree: each node with its depth and key, and
    /// each empty slot.
    pub closed spec fn outline_lines(&self) -> Seq<OutlineLine> {
        outline(self.root, None)
    }

    /// The tree's outline, for display: one line per node and per empty slot,
    /// in pre-order.
    pub fn outline(&self) -> (r: Vec<OutlineLine>)
        ensures
            r@ == self.outline_lines(),
    {
        proof {
            use_type_invariant(self);
            lemma_height_within(self.root, 0, u64::MAX as int);
        }
        let mut out = Vec::new();
        outline_into(&self.root, None, &mut out);
        proof {
            assert(out@ =~= self.outline_lines());
        }
        out
    }

    /// An empty tree.
    pub fn new() -> (t: Bst)
        ensures
            t@ == Set::<u64>::empty(),
            t.is_search_tree(),
    {
        Bst { root: None }
    }

    /// The tree after `key` is added as a new leaf where a search for it
    /// ends, every other link kept; the same tree when `key` is stored.
    pub closed spec fn with_key_inserted(&self, key: u64) -> Bst {
        Bst { root: with_leaf(self.root, key) }
    }

    /// Stores `key`, as a new leaf; a key already present leaves the tree as
    /// it is.
    pub fn insert(&mut self, key: u64)
        ensures
            final(self)@ == old(self)@.insert(key),
            *final(self) == old(self).with_key_inserted(key),
            old(self)@.contains(key) ==> *final(self) == *old(self),
            final(self).is_search_tree(),
    {
        proof {
            use_type_invariant(&*self);
        }
        let mut root = None;
        std::mem::swap(&mut root, &mut self.root);
        insert_into(&mut root, key);
        self.root = root;
    }

    /// Whether `key` is stored.
    pub fn contains(&self, key: u64) -> (r: bool)
        ensures
            r == self@.contains(key),
    {
        proof {
            use_type_invariant(self);
        }
        contains_in(&self.root, key)
    }

    /// Removes `key`; an absent key leaves the tree as it is.
    pub fn remove(&mut self, key: u64)
        ensures
            final(self)@ == old(self)@.remove(key),
            !old(self)@.contains(key) ==> *final(self) == *old(self),
            final(self).is_search_tree(),
    {
        proof {
            use_type_invariant(&*self);
        }
        let mut root = None;
        std::mem::swap(&mut root, &mut self.root);
        remove_from(&mut root, key);
        self.root = root;
    }

    /// A walk over the stored keys in ascending order.
    pub fn iter(&self) -> (r: IterRef<'_>)
        ensures
            r.remaining() == self.in_order(),
    {
        IterRef::new(&self.root)
    }

    /// A walk over the stored keys in ascending order that consumes the tree.
    pub fn into_iter(self) -> (r: Iter)
        ensures
            r.remaining() == self.in_order(),
    {
        Iter::new(self)
    }
}

/// An in-order walk of a sound subtree meets each of its keys once, in
/// strictly increasing order.
proof fn lemma_inorder(a: Anchor)
    requires
        wf(a),
    ensures
        forall|i: int| 0 <= i < inorder(a).len() ==> keys(a).contains(#[trigger] inorder(a)[i]),
        forall|k: u64| keys(a).contains(k) ==> inorder(a).contains(k),
        forall|i: int, j: int|
            0 <= i < j < inorder(a).len() ==> inorder(a)[i] < inorder(a)[j],
    decreases a,
{
    if let Some(n) = a {
        lemma_inorder(n.left);
        lemma_inorder(n.right);
        let l = inorder(n.left);
        let r = inorder(n.right);
        let s = inorder(a);
        assert(ordered(*n));
        assert(s == l + seq![n.key] + r);
        assert forall|i: int| 0 <= i < s.len() implies keys(a).contains(#[trigger] s[i]) by {
            if i < l.len() {
                assert(s[i] == l[i]);
            } else if i > l.len() {
                assert(s[i] == r[i - l.len() - 1]);
            }
        }
        assert forall|k: u64| keys(a).contains(k) implies s.contains(k) by {
            if keys(n.left).contains(k) {
                let i = choose|i: int| 0 <= i < l.len() && l[i] == k;
                assert(s[i] == k);
            } else if keys(n.right).contains(k) {
                let i = choose|i: int| 0 <= i < r.len() && r[i] == k;
                assert(s[i + l.len() + 1] == k);
            } else {
                assert(s[l.len() as int] == k);
            }
        }
        assert forall|i: int, j: int| 0 <= i < j < s.len() implies s[i] < s[j] by {
            if j < l.len() {
                assert(s[i] == l[i] && s[j] == l[j]);
            } else if i > l.len() {
                assert(s[i] == r[i - l.len() - 1] && s[j] == r[j - l.len() - 1]);
            } else {
                let ki = s[i];
                let kj = s[j];
                if i < l.len() {
                    assert(ki == l[i]);
                    assert(keys(n.left).contains(ki));
                }
                if j > l.len() {
                    assert(kj == r[j - l.len() - 1]);
                    assert(keys(n.right).contains(kj));
                }
            }
        }
    }
}

/// A walk yields strictly increasing keys, each stored key exactly once.
pub proof fn lemma_in_order(t: &Bst)
    requires
        t.is_search_tree(),
    ensures
        forall|i: int, j: int| 0 <= i < j < t.in_order().len() ==> t.in_order()[i] < t.in_order()[j],
        t.in_order().to_set() == t@,
        t.in_order().len() == t@.len(),
{
    lemma_inorder(t.root);
    let s = inorder(t.root);
    assert(s.to_set() =~= keys(t.root));
    assert(s.no_duplicates()) by {
        assert forall|i: int, j: int| 0 <= i < s.len() && 0 <= j < s.len() && i != j implies s[i]
            != s[j] by {
            if i < j {
                assert(s[i] < s[j]);
            } else {
                assert(s[j] < s[i]);
            }
        }
    }
    s.unique_seq_to_set();
}

impl Default for Bst {
    /// An empty tree, as `new` gives.
    fn default() -> (r: Bst)
        ensures
            r@ == Set::<u64>::empty(),
    {
        Bst::new()
    }
}

} // verus!
