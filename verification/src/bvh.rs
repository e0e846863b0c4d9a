use vstd::prelude::*;

use crate::bvh_utils::{
    is_deterministic_predicate, is_total_predicate, moved_count, pairs_exchanged, partition,
};

verus! {

/// Marks an interior node: its `right` field holds this value and its `left`
/// field holds the index of its first child (the second child follows it).
pub const INTERIOR_MARK: u32 = 0xffff_ffffu32;

/// The links of one node of a bounding volume hierarchy.
///
/// A leaf covers the items `left..right`; an interior node has
/// `right == INTERIOR_MARK` and its children at `left` and `left + 1`.
#[derive(Debug, Clone, Copy)]
pub struct BVHNode {
    pub left: u32,
    pub right: u32,
}

impl BVHNode {
    pub open spec fn is_leaf_node(self) -> bool {
        self.right != INTERIOR_MARK
    }

    /// Whether the node is a leaf.
    pub fn is_leaf(&self) -> (leaf: bool)
        ensures
            leaf == self.is_leaf_node(),
    {
        self.right != INTERIOR_MARK
    }

    /// The range of item positions that a leaf covers.
    pub fn indices(&self) -> (range: core::ops::Range<usize>)
        requires
            self.is_leaf_node(),
        ensures
            range.start == self.left,
            range.end == self.right,
    {
        (self.left as usize)..(self.right as usize)
    }

    /// The node indices of the two children of an interior node.
    pub fn left_right_idx(&self) -> (children: (usize, usize))
        requires
            !self.is_leaf_node(),
            self.left < INTERIOR_MARK,
        ensures
            children.0 == self.left,
            children.1 == self.left + 1,
    {
        (self.left as usize, self.left as usize + 1)
    }
}

/// The node structure of a bounding volume hierarchy over a list of items
/// (primitive indices or instance ids). Node 0 is the root. Each node covers a
/// contiguous span of item positions: a leaf covers the span it names, an
/// interior node the union of its two children's spans, and the root covers all
/// items.
pub struct Bvh<T> {
    nodes: Vec<BVHNode>,
    items: Vec<T>,
    spans: Ghost<Seq<(int, int)>>,
}

impl<T> Bvh<T> {
    pub closed spec fn node_seq(&self) -> Seq<BVHNode> {
        self.nodes@
    }

    pub closed spec fn item_seq(&self) -> Seq<T> {
        self.items@
    }

    /// The span of item positions that node `i` covers.
    pub closed spec fn span(&self, i: int) -> (int, int) {
        self.spans@[i]
    }

    pub closed spec fn node_wf(&self, i: int) -> bool {
        let nd = self.nodes@[i];
        let sp = self.spans@[i];
        let m = self.nodes@.len();
        &&& 0 <= sp.0 < sp.1 <= self.items@.len()
        &&& if nd.is_leaf_node() {
            nd.left == sp.0 && nd.right == sp.1
        } else {
            &&& i < nd.left
            &&& nd.left + 1 < m
            &&& self.spans@[nd.left as int].0 == sp.0
            &&& self.spans@[nd.left as int].1 == self.spans@[nd.left + 1].0
            &&& self.spans@[nd.left + 1].1 == sp.1
        }
    }

    /// Well-formedness: the root covers every item, each node covers a
    /// non-empty span, each leaf names its span, and the two children of an
    /// interior node come after it and split its span in two adjacent parts.
    /// Each split turns one leaf into two, so the nodes number twice the leaves
    /// less one, and the leaves' ranges add up to the item count.
    pub closed spec fn wf(&self) -> bool {
        &&& 0 < self.items@.len() < INTERIOR_MARK
        &&& self.nodes@.len() >= 1
        &&& self.spans@.len() == self.nodes@.len()
        &&& self.spans@[0] == (0int, self.items@.len() as int)
        &&& forall|i: int| 0 <= i < self.nodes@.len() ==> #[trigger] self.node_wf(i)
        &&& self.nodes@.len() == 2 * leaf_count(self.nodes@, self.nodes@.len() as int) - 1
        &&& leaf_item_total(self.nodes@, self.nodes@.len() as int) == self.items@.len()
    }

    /// How many leaves under `node` cover item position `k`: a leaf counts once
    /// when `k` lies in its range, an interior node adds up its two children.
    pub open spec fn cover_count(&self, node: int, k: int) -> nat
        decreases self.node_seq().len() - node,
    {
        let nodes = self.node_seq();
        if node < 0 || node >= nodes.len() {
            0
        } else if nodes[node].is_leaf_node() {
            if nodes[node].left <= k < nodes[node].right {
                1
            } else {
                0
            }
        } else {
            let c = nodes[node].left as int;
            if c <= node || c + 1 >= nodes.len() {
                0
            } else {
                self.cover_count(c, k) + self.cover_count(c + 1, k)
            }
        }
    }

    proof fn lemma_cover_count_matches_span(&self, node: int, k: int)
        requires
            self.wf(),
            0 <= node < self.node_seq().len(),
        ensures
            self.cover_count(node, k) == if self.span(node).0 <= k < self.span(node).1 {
                1nat
            } else {
                0nat
            },
        decreases self.node_seq().len() - node,
    {
        assert(self.node_wf(node));
        let nd = self.nodes@[node];
        if !nd.is_leaf_node() {
            let c = nd.left as int;
            self.lemma_cover_count_matches_span(c, k);
            self.lemma_cover_count_matches_span(c + 1, k);
            assert(self.node_wf(c));
            assert(self.node_wf(c + 1));
        }
    }

    /// Every item is covered by exactly one leaf of the hierarchy, and no
    /// position outside the item list is covered: a traversal from the root that
    /// visits every node reaches each item exactly once.
    pub proof fn lemma_each_item_in_exactly_one_leaf(&self, k: int)
        requires
            self.wf(),
        ensures
            self.cover_count(0, k) == if 0 <= k < self.item_seq().len() {
                1nat
            } else {
                0nat
            },
    {
        self.lemma_cover_count_matches_span(0, k);
    }

    /// Every node's links stay inside the hierarchy: a leaf's range lies within
    /// the item list, and an interior node's children come after it and are
    /// nodes of the hierarchy.
    pub proof fn lemma_links_in_bounds(&self, node: int)
        requires
            self.wf(),
            0 <= node < self.node_seq().len(),
        ensures
            self.node_seq()[node].is_leaf_node() ==> self.node_seq()[node].left
                < self.node_seq()[node].right <= self.item_seq().len(),
            !self.node_seq()[node].is_leaf_node() ==> node < self.node_seq()[node].left
                && self.node_seq()[node].left + 1 < self.node_seq().len(),
    {
        assert(self.node_wf(node));
    }

    /// A hierarchy over `n` items has at most `2n - 1` nodes: its leaves are
    /// non-empty and cover the items, so there are at most `n` of them, and
    /// each interior node has split one leaf into two.
    pub proof fn lemma_node_count_bound(&self)
        requires
            self.wf(),
        ensures
            self.node_seq().len() <= 2 * self.item_seq().len() - 1,
    {
        let m = self.nodes@.len() as int;
        assert forall|i: int| 0 <= i < m && (#[trigger] self.nodes@[i]).is_leaf_node() implies self.nodes@[i].left < self.nodes@[i].right by {
            assert(self.node_wf(i));
        }
        lemma_leaves_at_most_items(self.nodes@, m);
    }

    /// A hierarchy with a single leaf that covers all of `items`.
    pub fn new(items: Vec<T>) -> (bvh: Self)
        requires
            0 < items@.len() < INTERIOR_MARK,
        ensures
            bvh.wf(),
            bvh.item_seq() == items@,
            bvh.node_seq() == seq![BVHNode { left: 0, right: items@.len() as u32 }],
    {
        let n = items.len();
        let mut nodes: Vec<BVHNode> = Vec::with_capacity(
            if n <= usize::MAX / 2 { 2 * n - 1 } else { n },
        );
        nodes.push(BVHNode { left: 0, right: n as u32 });
        let spans: Ghost<Seq<(int, int)>> = Ghost(Seq::empty().push((0int, n as int)));
        let bvh = Bvh { nodes, items, spans };
        assert(bvh.node_wf(0));
        assert(leaf_count(bvh.nodes@, 0) == 0);
        assert(leaf_item_total(bvh.nodes@, 0) == 0);
        bvh
    }

    /// The number of nodes.
    pub fn num_nodes(&self) -> (count: usize)
        ensures
            count == self.node_seq().len(),
    {
        self.nodes.len()
    }

    /// The node at `node_idx`.
    pub fn node(&self, node_idx: usize) -> (node: BVHNode)
        requires
            node_idx < self.node_seq().len(),
        ensures
            node == self.node_seq()[node_idx as int],
    {
        self.nodes[node_idx]
    }

    /// The items, in the order in which the leaves cover them.
    pub fn items(&self) -> (items: &[T])
        ensures
            items@ == self.item_seq(),
    {
        self.items.as_slice()
    }

    /// Partitions the items of leaf `node_idx` so that those for which
    /// `comparator` holds come first, and returns the position of the first item
    /// of the second group, counted from the start of all items.
    pub fn partition_items<F: Fn(&T) -> bool>(&mut self, node_idx: usize, comparator: F) -> (right_start: u32)
        requires
            old(self).wf(),
            node_idx < old(self).node_seq().len(),
            old(self).node_seq()[node_idx as int].is_leaf_node(),
            old(self).node_seq()[node_idx as int].left < old(self).node_seq()[node_idx as int].right,
            is_total_predicate(comparator),
            is_deterministic_predicate(comparator),
        ensures
            final(self).wf(),
            final(self).node_seq() == old(self).node_seq(),
            final(self).item_seq().to_multiset() == old(self).item_seq().to_multiset(),
            ({
                let lo = old(self).node_seq()[node_idx as int].left as int;
                let hi = old(self).node_seq()[node_idx as int].right as int;
                let old_items = old(self).item_seq();
                let new_items = final(self).item_seq();
                &&& new_items.len() == old_items.len()
                &&& forall|k: int| 0 <= k < lo ==> #[trigger] new_items[k] == old_items[k]
                &&& forall|k: int| hi <= k < old_items.len() ==> #[trigger] new_items[k] == old_items[k]
                &&& new_items.subrange(lo, hi).to_multiset() == old_items.subrange(lo, hi).to_multiset()
                &&& lo <= right_start < hi
                &&& forall|k: int| lo <= k < right_start ==> #[trigger] comparator.ensures((&new_items[k],), true)
                &&& forall|k: int| right_start < k < hi ==> #[trigger] comparator.ensures((&new_items[k],), false)
                &&& (right_start == hi - 1 || comparator.ensures((&new_items[right_start as int],), false))
                &&& forall|k: int| lo <= k < right_start ==> #[trigger] new_items[k] == old_items[k]
                    || comparator.ensures((&old_items[k],), false)
                &&& forall|k: int| right_start <= k < hi ==> #[trigger] new_items[k] == old_items[k]
                    || comparator.ensures((&old_items[k],), true)
                &&& moved_count(old_items.subrange(lo, hi), new_items.subrange(lo, hi), 0, right_start - lo)
                    == moved_count(old_items.subrange(lo, hi), new_items.subrange(lo, hi), right_start - lo, hi - lo)
                &&& pairs_exchanged(old_items.subrange(lo, hi), new_items.subrange(lo, hi))
            }),
    {
        let node = self.nodes[node_idx];
        let lo = node.left as usize;
        let hi = node.right as usize;
        proof {
            assert(self.node_wf(node_idx as int));
        }
        let ghost old_items = self.items@;
        let split;
        let ghost mut mid_before: Seq<T> = Seq::empty();
        let ghost mut mid_after: Seq<T> = Seq::empty();
        {
            let all = self.items.as_mut_slice();
            let (_, tail) = all.split_at_mut(lo);
            let (mid, _) = tail.split_at_mut(hi - lo);
            proof {
                mid_before = mid@;
            }
            split = partition(mid, comparator);
            proof {
                mid_after = mid@;
            }
        }
        let ghost new_items = self.items@;
        proof {
            assert(mid_before =~= old_items.subrange(lo as int, hi as int));
            assert(mid_after =~= new_items.subrange(lo as int, hi as int));
            let n = old_items.len() as int;
            assert(old_items =~= old_items.subrange(0, lo as int) + old_items.subrange(lo as int, hi as int) + old_items.subrange(hi as int, n));
            assert(new_items =~= new_items.subrange(0, lo as int) + new_items.subrange(lo as int, hi as int) + new_items.subrange(hi as int, n));
            assert(new_items.subrange(0, lo as int) =~= old_items.subrange(0, lo as int));
            assert(new_items.subrange(hi as int, n) =~= old_items.subrange(hi as int, n));
            broadcast use vstd::seq_lib::lemma_multiset_commutative;
            assert forall|k: int| lo <= k < lo + split implies #[trigger] comparator.ensures((&new_items[k],), true) by {
                assert(new_items[k] == new_items.subrange(lo as int, hi as int)[k - lo]);
            }
            assert forall|k: int| lo + split < k < hi implies #[trigger] comparator.ensures((&new_items[k],), false) by {
                assert(new_items[k] == new_items.subrange(lo as int, hi as int)[k - lo]);
            }
            assert(new_items[lo + split] == new_items.subrange(lo as int, hi as int)[split as int]);
            assert forall|k: int| lo <= k < hi implies #[trigger] new_items[k] == mid_after[k - lo] && old_items[k] == mid_before[k - lo] by {
                assert(new_items[k] == new_items.subrange(lo as int, hi as int)[k - lo]);
                assert(old_items[k] == old_items.subrange(lo as int, hi as int)[k - lo]);
            }
            assert forall|i: int| 0 <= i < self.nodes@.len() implies #[trigger] self.node_wf(i) by {
                assert(old(self).node_wf(i));
            }
        }
        (lo + split) as u32
    }

    /// Turns leaf `node_idx` into an interior node whose two new children, added
    /// at the end, cover the item positions before and from `right_start`.
    /// Returns the index of the first child.
    pub fn split_node(&mut self, node_idx: usize, right_start: u32) -> (left_child_idx: usize)
        requires
            old(self).wf(),
            node_idx < old(self).node_seq().len(),
            old(self).node_seq()[node_idx as int].is_leaf_node(),
            old(self).node_seq()[node_idx as int].left < right_start < old(self).node_seq()[node_idx as int].right,
            old(self).node_seq().len() + 2 < INTERIOR_MARK,
        ensures
            final(self).wf(),
            final(self).item_seq() == old(self).item_seq(),
            left_child_idx == old(self).node_seq().len(),
            final(self).node_seq() == old(self).node_seq().update(
                node_idx as int,
                BVHNode { left: left_child_idx as u32, right: INTERIOR_MARK },
            ).push(BVHNode { left: old(self).node_seq()[node_idx as int].left, right: right_start }).push(
                BVHNode { left: right_start, right: old(self).node_seq()[node_idx as int].right },
            ),
    {
        let node = self.nodes[node_idx];
        let left_child_idx = self.nodes.len();
        proof {
            assert(self.node_wf(node_idx as int));
        }
        let ghost old_nodes = self.nodes@;
        let ghost m = old_nodes.len() as int;
        let ghost a = BVHNode { left: node.left, right: right_start };
        let ghost b = BVHNode { left: right_start, right: node.right };
        let ghost x = BVHNode { left: left_child_idx as u32, right: INTERIOR_MARK };
        proof {
            let na = old_nodes.push(a);
            let nab = na.push(b);
            lemma_prefix_push(old_nodes, a, m);
            lemma_prefix_push(na, b, m + 1);
            assert(na[m] == a);
            assert(nab[m + 1] == b);
            assert(leaf_count(nab, m + 2) == leaf_count(old_nodes, m) + 2);
            assert(leaf_item_total(nab, m + 2) == leaf_item_total(old_nodes, m) + leaf_weight(a) + leaf_weight(b));
            lemma_prefix_update(nab, node_idx as int, x, m + 2);
            assert(nab[node_idx as int] == node);
        }
        self.nodes.push(BVHNode { left: node.left, right: right_start });
        self.nodes.push(BVHNode { left: right_start, right: node.right });
        self.nodes.set(node_idx, BVHNode { left: left_child_idx as u32, right: INTERIOR_MARK });
        let new_spans: Ghost<Seq<(int, int)>> = Ghost(
            self.spans@.push((node.left as int, right_start as int)).push(
                (right_start as int, node.right as int),
            ),
        );
        self.spans = new_spans;
        proof {
            assert forall|i: int| 0 <= i < self.nodes@.len() implies #[trigger] self.node_wf(i) by {
                if i < left_child_idx {
                    assert(old(self).node_wf(i));
                }
            }
        }
        left_child_idx
    }
}

/// How many of the first `k` nodes are leaves.
pub open spec fn leaf_count(nodes: Seq<BVHNode>, k: int) -> nat
    decreases k,
{
    if k <= 0 {
        0
    } else {
        leaf_count(nodes, k - 1) + if nodes[k - 1].is_leaf_node() {
            1nat
        } else {
            0nat
        }
    }
}

/// The number of items that a leaf covers; zero for an interior node.
pub open spec fn leaf_weight(node: BVHNode) -> int {
    if node.is_leaf_node() {
        node.right - node.left
    } else {
        0
    }
}

/// The total number of items that the leaves among the first `k` nodes cover.
pub open spec fn leaf_item_total(nodes: Seq<BVHNode>, k: int) -> int
    decreases k,
{
    if k <= 0 {
        0
    } else {
        leaf_item_total(nodes, k - 1) + leaf_weight(nodes[k - 1])
    }
}

proof fn lemma_prefix_update(nodes: Seq<BVHNode>, q: int, x: BVHNode, k: int)
    requires
        0 <= q < nodes.len(),
        0 <= k <= nodes.len(),
    ensures
        leaf_count(nodes.update(q, x), k) == if q < k {
            leaf_count(nodes, k) - (if nodes[q].is_leaf_node() { 1int } else { 0int }) + (if x.is_leaf_node() { 1int } else { 0int })
        } else {
            leaf_count(nodes, k) as int
        },
        leaf_item_total(nodes.update(q, x), k) == if q < k {
            leaf_item_total(nodes, k) - leaf_weight(nodes[q]) + leaf_weight(x)
        } else {
            leaf_item_total(nodes, k)
        },
    decreases k,
{
    if k > 0 {
        lemma_prefix_update(nodes, q, x, k - 1);
    }
}

proof fn lemma_prefix_push(nodes: Seq<BVHNode>, x: BVHNode, k: int)
    requires
        0 <= k <= nodes.len(),
    ensures
        leaf_count(nodes.push(x), k) == leaf_count(nodes, k),
        leaf_item_total(nodes.push(x), k) == leaf_item_total(nodes, k),
    decreases k,
{
    if k > 0 {
        lemma_prefix_push(nodes, x, k - 1);
    }
}

proof fn lemma_leaves_at_most_items(nodes: Seq<BVHNode>, k: int)
    requires
        0 <= k <= nodes.len(),
        forall|i: int| 0 <= i < k && (#[trigger] nodes[i]).is_leaf_node() ==> nodes[i].left < nodes[i].right,
    ensures
        leaf_count(nodes, k) <= leaf_item_total(nodes, k),
    decreases k,
{
    if k > 0 {
        lemma_leaves_at_most_items(nodes, k - 1);
        assert(nodes[k - 1].is_leaf_node() ==> nodes[k - 1].left < nodes[k - 1].right);
    }
}

/// The item list `0, 1, ..., count - 1` with which a hierarchy over `count`
/// primitives starts.
pub fn identity_indices(count: usize) -> (indices: Vec<u32>)
    requires
        count <= INTERIOR_MARK,
    ensures
        indices@.len() == count,
        forall|i: int| 0 <= i < count ==> #[trigger] indices@[i] == i,
{
    let mut indices: Vec<u32> = Vec::with_capacity(count);
    let mut i: usize = 0;
    while i < count
        invariant
            i <= count <= INTERIOR_MARK,
            indices@.len() == i,
            forall|k: int| 0 <= k < i ==> #[trigger] indices@[k] == k,
        decreases count - i,
    {
        indices.push(i as u32);
        i += 1;
    }
    indices
}

} // verus!
