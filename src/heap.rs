//! Binary max-heap stored in a vector: the children of the element at index
//! `i` sit at `2i + 1` and `2i + 2`.

use vstd::multiset::Multiset;
use vstd::prelude::*;

verus! {

broadcast use {vstd::seq_lib::group_to_multiset_ensures, vstd::seq_lib::to_multiset_update};

/// Position of the parent of position `i` (for `i > 0`).
spec fn parent_of(i: int) -> int {
    (i - 1) / 2
}

/// No element is greater than its parent.
spec fn heap_ok(s: Seq<u64>) -> bool {
    forall|j: int| 0 < j < s.len() ==> #[trigger] s[j] <= s[parent_of(j)]
}

/// The heap order holds but for the edge between `i` and its parent, and the
/// children of `i` are no greater than that parent.
spec fn heap_except_up(s: Seq<u64>, i: int) -> bool {
    &&& forall|j: int| 0 < j < s.len() && j != i ==> #[trigger] s[j] <= s[parent_of(j)]
    &&& i > 0 ==> forall|j: int|
        0 < j < s.len() && parent_of(j) == i ==> #[trigger] s[j] <= s[parent_of(i)]
}

/// The heap order holds but for the edges between `i` and its children, and
/// those children are no greater than the parent of `i`.
spec fn heap_except_down(s: Seq<u64>, i: int) -> bool {
    &&& forall|j: int| 0 < j < s.len() && parent_of(j) != i ==> #[trigger] s[j] <= s[parent_of(j)]
    &&& i > 0 ==> forall|j: int|
        0 < j < s.len() && parent_of(j) == i ==> #[trigger] s[j] <= s[parent_of(i)]
}

fn left(index: usize) -> (r: usize)
    requires
        index <= (usize::MAX - 1) / 2,
    ensures
        r == 2 * index + 1,
{
    2 * index + 1
}

fn right(index: usize) -> (r: usize)
    requires
        index <= (usize::MAX - 2) / 2,
    ensures
        r == 2 * index + 2,
{
    2 * index + 2
}

fn parent(index: usize) -> (r: usize)
    requires
        index > 0,
    ensures
        r == parent_of(index as int),
{
    (index - 1) / 2
}

fn swap(v: &mut Vec<u64>, i: usize, j: usize)
    requires
        i < old(v).len(),
        j < old(v).len(),
    ensures
        final(v)@ == old(v)@.update(i as int, old(v)@[j as int]).update(j as int, old(v)@[i as int]),
        final(v)@.to_multiset() == old(v)@.to_multiset(),
{
    let a = v[i];
    let b = v[j];
    let ghost s0 = v@;
    v.set(i, b);
    v.set(j, a);
    proof {
        let s1 = s0.update(i as int, b);
        assert(s1.to_multiset() == s0.to_multiset().insert(b).remove(a));
        assert(v@.to_multiset() == s1.to_multiset().insert(a).remove(s1[j as int]));
        assert(v@.to_multiset() =~= s0.to_multiset());
    }
}

/// Moves the element at `index` up until its parent is no smaller.
fn bubble_up(nodes: &mut Vec<u64>, index: usize)
    requires
        index < old(nodes).len(),
        heap_except_up(old(nodes)@, index as int),
    ensures
        heap_ok(final(nodes)@),
        final(nodes)@.to_multiset() == old(nodes)@.to_multiset(),
        final(nodes)@.len() == old(nodes)@.len(),
    decreases index,
{
    if index == 0 {
        return;
    }
    let p = parent(index);
    if nodes[index] > nodes[p] {
        let ghost s0 = nodes@;
        swap(nodes, index, p);
        proof {
            let s = nodes@;
            assert forall|j: int| 0 < j < s.len() && j != p implies #[trigger] s[j] <= s[parent_of(
                j,
            )] by {
                if parent_of(j) == index {
                    assert(s0[j] <= s0[p as int]);
                } else if parent_of(j) == p && j != index {
                    assert(s0[j] <= s0[p as int]);
                }
            }
            if p > 0 {
                assert forall|j: int|
                    0 < j < s.len() && parent_of(j) == p implies #[trigger] s[j] <= s[parent_of(
                    p as int,
                )] by {
                    assert(s0[p as int] <= s0[parent_of(p as int)]);
                    if j != index {
                        assert(s0[j] <= s0[p as int]);
                    }
                }
            }
        }
        bubble_up(nodes, p);
    }
}

/// Moves the element at `index` down until no child is greater.
fn bubble_down(nodes: &mut Vec<u64>, index: usize)
    requires
        index < old(nodes).len(),
        heap_except_down(old(nodes)@, index as int),
    ensures
        heap_ok(final(nodes)@),
        final(nodes)@.to_multiset() == old(nodes)@.to_multiset(),
        final(nodes)@.len() == old(nodes)@.len(),
    decreases old(nodes).len() - index,
{
    let len = nodes.len();
    let key = nodes[index];
    let mut biggest_key = key;
    let mut biggest_index: usize = 0;
    if index <= (usize::MAX - 2) / 2 {
        let l = left(index);
        if l < len && nodes[l] > biggest_key {
            biggest_key = nodes[l];
            biggest_index = 1;
        }
        let r = right(index);
        if r < len && nodes[r] > biggest_key {
            biggest_index = 2;
        }
    }
    if biggest_index != 0 {
        let child = 2 * index + biggest_index;
        let ghost s0 = nodes@;
        swap(nodes, index, child);
        proof {
            let s = nodes@;
            let c = child as int;
            let i = index as int;
            assert(parent_of(c) == i);
            assert forall|j: int| 0 < j < s.len() && parent_of(j) != c implies #[trigger] s[j]
                <= s[parent_of(j)] by {
                if parent_of(j) == i && j != c {
                    assert(s0[j] <= s0[c]);
                }
                if j == i {
                    assert(s0[c] <= s0[parent_of(i)]);
                }
            }
            assert forall|j: int| 0 < j < s.len() && parent_of(j) == c implies #[trigger] s[j]
                <= s[parent_of(c)] by {
                assert(s0[j] <= s0[c]);
            }
        }
        bubble_down(nodes, child);
    } else {
        proof {
            let s = nodes@;
            assert forall|j: int| 0 < j < s.len() implies #[trigger] s[j] <= s[parent_of(j)] by {
                if parent_of(j) == index {
                    assert(j == 2 * index + 1 || j == 2 * index + 2);
                }
            }
        }
    }
}

/// One line of a pre-order outline of the heap as a tree: an element, with its
/// depth (the root at 0), or an empty slot, with the depth of the element that
/// holds it (`None` for the slot of an empty heap).
#[derive(Clone, Copy, Debug, PartialEq, Eq, Structural)]
pub enum OutlineLine {
    Node { depth: u64, key: u64 },
    Empty { parent_depth: Option<u64> },
}

/// Depth of an element whose parent is at `parent` (`None` for the root).
spec fn depth_below(parent: Option<u64>) -> int {
    match parent {
        None => 0,
        Some(p) => p + 1,
    }
}

/// Elements of `s` from position `i` on that lie at or below it.
spec fn remaining_below(s: Seq<u64>, i: nat) -> nat {
    if i < s.len() {
        (s.len() - i) as nat
    } else {
        0
    }
}

/// Pre-order outline of the subtree at position `i`, whose parent is at
/// depth `parent`.
spec fn outline(s: Seq<u64>, i: nat, parent: Option<u64>) -> Seq<OutlineLine>
    decreases remaining_below(s, i),
{
    if i < s.len() {
        let d = depth_below(parent) as u64;
        seq![OutlineLine::Node { depth: d, key: s[i as int] }] + outline(s, 2 * i + 1, Some(d))
            + outline(s, 2 * i + 2, Some(d))
    } else {
        seq![OutlineLine::Empty { parent_depth: parent }]
    }
}

fn outline_into(nodes: &Vec<u64>, index: usize, parent: Option<u64>, out: &mut Vec<OutlineLine>)
    requires
        depth_below(parent) <= index,
    ensures
        final(out)@ == old(out)@ + outline(nodes@, index as nat, parent),
    decreases remaining_below(nodes@, index as nat),
{
    if index >= nodes.len() {
        out.push(OutlineLine::Empty { parent_depth: parent });
        return;
    }
    let depth: u64 = match parent {
        None => 0,
        Some(p) => p + 1,
    };
    out.push(OutlineLine::Node { depth, key: nodes[index] });
    if index <= (usize::MAX - 2) / 2 {
        outline_into(nodes, left(index), Some(depth), out);
        outline_into(nodes, right(index), Some(depth), out);
    } else {
        // no position below this one can be held
        out.push(OutlineLine::Empty { parent_depth: Some(depth) });
        out.push(OutlineLine::Empty { parent_depth: Some(depth) });
        proof {
            assert(2 * index + 1 >= nodes@.len());
            assert(outline(nodes@, (2 * index + 1) as nat, Some(depth)) == seq![
                OutlineLine::Empty { parent_depth: Some(depth) },
            ]);
            assert(outline(nodes@, (2 * index + 2) as nat, Some(depth)) == seq![
                OutlineLine::Empty { parent_depth: Some(depth) },
            ]);
        }
    }
    proof {
        assert(out@ =~= old(out)@ + outline(nodes@, index as nat, parent));
    }
}

/// The root of a heap-ordered sequence is its largest element.
proof fn lemma_root_max(s: Seq<u64>, j: int)
    requires
        heap_ok(s),
        0 <= j < s.len(),
    ensures
        s[j] <= s[0],
    decreases j,
{
    if j > 0 {
        lemma_root_max(s, parent_of(j));
    }
}

/// A max-heap of `u64` keys: the largest key comes out first.
pub struct Heap {
    nodes: Vec<u64>,
}

impl View for Heap {
    type V = Multiset<u64>;

    closed spec fn view(&self) -> Multiset<u64> {
        self.nodes@.to_multiset()
    }
}

impl Heap {
    #[verifier::type_invariant]
    spec fn inv(self) -> bool {
        heap_ok(self.nodes@)
    }

    /// No key is greater than its parent.
    pub closed spec fn is_heap(&self) -> bool {
        heap_ok(self.nodes@)
    }

    /// Consistency pass: reports whether no key is greater than its parent.
    /// The invariant that every operation maintains makes it always hold.
    pub fn check(&self) -> (r: bool)
        ensures
            r == self.is_heap(),
            r,
    {
        proof {
            use_type_invariant(self);
        }
        let len = self.nodes.len();
        let mut index: usize = 1;
        while index < len
            invariant
                1 <= index,
                len == self.nodes@.len(),
                heap_ok(self.nodes@),
                forall|j: int| 0 < j < index && j < len ==> #[trigger] self.nodes@[j] <= self.nodes@[parent_of(j)],
            decreases len - index,
        {
            if self.nodes[index] > self.nodes[parent(index)] {
                return false;
            }
            index += 1;
        }
        true
    }

    /// Pre-order outline of the heap as a tree: each element with its depth
    /// and key, and each empty slot.
    pub closed spec fn outline_lines(&self) -> Seq<OutlineLine> {
        outline(self.nodes@, 0, None)
    }

    /// The heap's outline, for display: one line per element and per empty
    /// slot, in pre-order of the tree that the positions form.
    pub fn outline(&self) -> (r: Vec<OutlineLine>)
        ensures
            r@ == self.outline_lines(),
    {
        let mut out = Vec::new();
        outline_into(&self.nodes, 0, None, &mut out);
        proof {
            assert(out@ =~= self.outline_lines());
        }
        out
    }

    /// An empty heap.
    pub fn new() -> (h: Heap)
        ensures
            h@ == Multiset::<u64>::empty(),
    {
        let h = Heap { nodes: Vec::new() };
        proof {
            assert(h.nodes@ =~= Seq::<u64>::empty());
        }
        h
    }

    /// Adds `key`.
    pub fn push(&mut self, key: u64)
        ensures
            final(self)@ == old(self)@.insert(key),
    {
        proof {
            use_type_invariant(&*self);
        }
        let mut nodes = Vec::new();
        std::mem::swap(&mut nodes, &mut self.nodes);
        let ghost s0 = nodes@;
        nodes.push(key);
        proof {
            assert(nodes@ == s0.push(key));
            let s = nodes@;
            let i = s.len() - 1;
            assert forall|j: int| 0 < j < s.len() && j != i implies #[trigger] s[j] <= s[parent_of(
                j,
            )] by {
                assert(s0[j] <= s0[parent_of(j)]);
            }
        }
        let last = nodes.len() - 1;
        bubble_up(&mut nodes, last);
        self.nodes = nodes;
    }

    /// The largest key, or `None` when the heap is empty.
    pub fn peek(&self) -> (r: Option<&u64>)
        ensures
            r is None <==> self@.len() == 0,
            r is Some ==> self@.contains(*r.unwrap()) && forall|x: u64|
                self@.contains(x) ==> x <= *r.unwrap(),
    {
        proof {
            use_type_invariant(self);
            self.lemma_top();
        }
        if self.nodes.len() == 0 {
            None
        } else {
            Some(&self.nodes[0])
        }
    }

    proof fn lemma_top(&self)
        requires
            heap_ok(self.nodes@),
        ensures
            self.nodes@.len() > 0 ==> self@.contains(self.nodes@[0]) && forall|x: u64|
                self@.contains(x) ==> x <= self.nodes@[0],
    {
        let s = self.nodes@;
        if s.len() > 0 {
            assert(s.contains(s[0]));
            assert forall|x: u64| self@.contains(x) implies x <= s[0] by {
                assert(s.contains(x));
                let j = choose|j: int| 0 <= j < s.len() && s[j] == x;
                lemma_root_max(s, j);
            }
        }
    }

    /// Removes and returns the largest key, or returns `None` when empty.
    pub fn pop(&mut self) -> (r: Option<u64>)
        ensures
            old(self)@.len() == 0 ==> r is None && final(self)@ == old(self)@,
            old(self)@.len() > 0 ==> r is Some && old(self)@.contains(r.unwrap()) && (forall|x: u64|
                old(self)@.contains(x) ==> x <= r.unwrap()) && final(self)@ == old(self)@.remove(
                r.unwrap(),
            ),
    {
        proof {
            use_type_invariant(&*self);
            self.lemma_top();
        }
        if self.nodes.len() == 0 {
            return None;
        }
        let mut nodes = Vec::new();
        std::mem::swap(&mut nodes, &mut self.nodes);
        let ghost s0 = nodes@;
        let ret = nodes.swap_remove(0);
        proof {
            let s1 = s0.update(0, s0.last());
            assert(s1.to_multiset() == s0.to_multiset().insert(s0.last()).remove(s0[0]));
            assert(s1.drop_last() == s1.remove(s1.len() - 1));
            assert(nodes@.to_multiset() =~= s0.to_multiset().remove(ret));
            let s = nodes@;
            assert forall|j: int| 0 < j < s.len() && parent_of(j) != 0 implies #[trigger] s[j]
                <= s[parent_of(j)] by {
                assert(s0[j] <= s0[parent_of(j)]);
            }
        }
        if nodes.len() > 0 {
            bubble_down(&mut nodes, 0);
        }
        self.nodes = nodes;
        Some(ret)
    }
}

impl Default for Heap {
    /// An empty heap, as `new` gives.
    fn default() -> (r: Heap)
        ensures
            r@ == Multiset::<u64>::empty(),
    {
        Heap::new()
    }
}

} // verus!
