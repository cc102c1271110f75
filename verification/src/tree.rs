//! The shape of a hierarchy, and what it means for a node array to hold it.
use crate::aabb::Aabb;
use crate::bih::Node;
use crate::partition::{
    lemma_bounds_local, lemma_bounds_meaning, lemma_same_range_entries, max_upper, min_lower,
    occurs, same_range,
};
use vstd::prelude::*;

verus! {

/// The shape of a hierarchy: each node with its slot in the node array and the
/// positions `lo..=hi` of the index array that it holds.
pub ghost enum Tree {
    Leaf { slot: int, lo: int, hi: int },
    Node {
        slot: int,
        lo: int,
        hi: int,
        axis: int,
        leftclip: int,
        rightclip: int,
        left: Box<Tree>,
        right: Box<Tree>,
    },
}

impl Tree {
    /// The slot of the root.
    pub open spec fn slot(self) -> int {
        match self {
            Tree::Leaf { slot, .. } => slot,
            Tree::Node { slot, .. } => slot,
        }
    }

    /// The first position that the tree holds.
    pub open spec fn lo(self) -> int {
        match self {
            Tree::Leaf { lo, .. } => lo,
            Tree::Node { lo, .. } => lo,
        }
    }

    /// The last position that the tree holds.
    pub open spec fn hi(self) -> int {
        match self {
            Tree::Leaf { hi, .. } => hi,
            Tree::Node { hi, .. } => hi,
        }
    }

    /// Whether some node of the tree stands in slot `s`.
    pub open spec fn has_slot(self, s: int) -> bool
        decreases self,
    {
        match self {
            Tree::Leaf { slot, .. } => s == slot,
            Tree::Node { slot, left, right, .. } => s == slot || left.has_slot(s) || right.has_slot(s),
        }
    }

    /// Every node but the root stands in one of the slots `base..top`.
    pub open spec fn below(self, base: int, top: int) -> bool
        decreases self,
    {
        match self {
            Tree::Leaf { .. } => true,
            Tree::Node { left, right, .. } => {
                &&& base <= left.slot() < top
                &&& base <= right.slot() < top
                &&& left.below(base, top)
                &&& right.below(base, top)
            },
        }
    }

    /// The number of inner nodes.
    pub open spec fn inner_count(self) -> nat
        decreases self,
    {
        match self {
            Tree::Leaf { .. } => 0,
            Tree::Node { left, right, .. } => 1 + left.inner_count() + right.inner_count(),
        }
    }

    /// The number of leaves.
    pub open spec fn leaf_count(self) -> nat
        decreases self,
    {
        match self {
            Tree::Leaf { .. } => 1,
            Tree::Node { left, right, .. } => left.leaf_count() + right.leaf_count(),
        }
    }

    /// The number of leaves whose range holds position `p`.
    pub open spec fn leaves_holding(self, p: int) -> nat
        decreases self,
    {
        match self {
            Tree::Leaf { lo, hi, .. } => if lo <= p <= hi {
                1
            } else {
                0
            },
            Tree::Node { left, right, .. } => left.leaves_holding(p) + right.leaves_holding(p),
        }
    }

    /// The ranges nest: an inner node holds the positions of its left child
    /// followed by those of its right child, and no range below the root is empty.
    pub open spec fn partitions(self) -> bool
        decreases self,
    {
        match self {
            Tree::Leaf { .. } => true,
            Tree::Node { lo, hi, left, right, .. } => {
                &&& left.lo() == lo
                &&& left.lo() <= left.hi()
                &&& left.hi() + 1 == right.lo()
                &&& right.lo() <= right.hi()
                &&& right.hi() == hi
                &&& left.partitions()
                &&& right.partitions()
            },
        }
    }

    /// The clip planes are tight: at each inner node, `leftclip` is the largest
    /// upper bound along the axis among the objects of the left child, and
    /// `rightclip` the least lower bound among those of the right child.
    pub open spec fn clipped(self, boxes: Seq<Aabb>, index: Seq<usize>) -> bool
        decreases self,
    {
        match self {
            Tree::Leaf { .. } => true,
            Tree::Node { axis, leftclip, rightclip, left, right, .. } => {
                &&& 0 <= axis < 3
                &&& leftclip == max_upper(boxes, index, axis, left.lo(), left.hi() + 1)
                &&& rightclip == min_lower(boxes, index, axis, right.lo(), right.hi() + 1)
                &&& left.clipped(boxes, index)
                &&& right.clipped(boxes, index)
            },
        }
    }
}

/// The node array holds the tree: each node of the tree stands in its slot,
/// an inner node before its children, and the two children side by side.
pub open spec fn encodes(nodes: Seq<Node>, t: Tree) -> bool
    decreases t,
{
    match t {
        Tree::Leaf { slot, lo, hi } => {
            &&& 0 <= slot < nodes.len()
            &&& 0 <= lo <= usize::MAX
            &&& 0 <= hi <= usize::MAX
            &&& nodes[slot] == (Node::Leaf { start: lo as usize, stop: hi as usize })
        },
        Tree::Node { slot, lo, hi, axis, leftclip, rightclip, left, right } => {
            &&& 0 <= slot < left.slot()
            &&& right.slot() == left.slot() + 1
            &&& right.slot() < nodes.len() <= usize::MAX
            &&& 0 <= axis < 3
            &&& i32::MIN <= leftclip <= i32::MAX
            &&& i32::MIN <= rightclip <= i32::MAX
            &&& nodes[slot] == (Node::Node {
                axis: axis as u8,
                leftclip: leftclip as i32,
                rightclip: rightclip as i32,
                left: left.slot() as usize,
                right: right.slot() as usize,
            })
            &&& encodes(nodes, *left)
            &&& encodes(nodes, *right)
        },
    }
}

/// A tree whose nodes but the root stand in `base..top` has its slots there
/// or at the root.
pub proof fn lemma_below_slots(t: Tree, base: int, top: int, s: int)
    requires
        t.below(base, top),
        t.has_slot(s),
    ensures
        s == t.slot() || base <= s < top,
    decreases t,
{
    match t {
        Tree::Leaf { .. } => {},
        Tree::Node { left, right, .. } => {
            if left.has_slot(s) {
                lemma_below_slots(*left, base, top, s);
            }
            if right.has_slot(s) {
                lemma_below_slots(*right, base, top, s);
            }
        },
    }
}

/// `below` holds of every wider range of slots.
pub proof fn lemma_below_widen(t: Tree, base: int, top: int, wbase: int, wtop: int)
    requires
        t.below(base, top),
        wbase <= base,
        top <= wtop,
    ensures
        t.below(wbase, wtop),
    decreases t,
{
    match t {
        Tree::Leaf { .. } => {},
        Tree::Node { left, right, .. } => {
            lemma_below_widen(*left, base, top, wbase, wtop);
            lemma_below_widen(*right, base, top, wbase, wtop);
        },
    }
}

/// A node array that agrees with another on the slots of a tree holds the
/// tree if the other does.
pub proof fn lemma_encodes_stable(a: Seq<Node>, b: Seq<Node>, t: Tree)
    requires
        encodes(a, t),
        a.len() <= b.len() <= usize::MAX,
        forall|s: int| t.has_slot(s) && 0 <= s < a.len() ==> a[s] == b[s],
    ensures
        encodes(b, t),
    decreases t,
{
    match t {
        Tree::Leaf { .. } => {},
        Tree::Node { left, right, .. } => {
            lemma_encodes_stable(a, b, *left);
            lemma_encodes_stable(a, b, *right);
        },
    }
}

/// Tightness of the clip planes depends only on the entries that the tree holds.
pub proof fn lemma_clipped_local(t: Tree, boxes: Seq<Aabb>, a: Seq<usize>, b: Seq<usize>)
    requires
        t.partitions(),
        t.clipped(boxes, a),
        forall|p: int| t.lo() <= p <= t.hi() ==> a[p] == b[p],
    ensures
        t.clipped(boxes, b),
    decreases t,
{
    match t {
        Tree::Leaf { .. } => {},
        Tree::Node { axis, left, right, .. } => {
            lemma_clipped_local(*left, boxes, a, b);
            lemma_clipped_local(*right, boxes, a, b);
            lemma_bounds_local(boxes, a, b, axis, left.lo(), left.hi() + 1);
            lemma_bounds_local(boxes, a, b, axis, right.lo(), right.hi() + 1);
        },
    }
}

/// The bounds of a range do not depend on the order of its entries.
pub proof fn lemma_bounds_permuted(
    boxes: Seq<Aabb>,
    a: Seq<usize>,
    b: Seq<usize>,
    dim: int,
    lo: int,
    hi: int,
)
    requires
        0 <= lo <= hi <= a.len(),
        a.len() == b.len(),
        same_range(a, b, lo, hi),
    ensures
        max_upper(boxes, a, dim, lo, hi) == max_upper(boxes, b, dim, lo, hi),
        min_lower(boxes, a, dim, lo, hi) == min_lower(boxes, b, dim, lo, hi),
{
    lemma_same_range_entries(a, b, lo, hi);
    lemma_bounds_meaning(boxes, a, dim, lo, hi);
    lemma_bounds_meaning(boxes, b, dim, lo, hi);
    if lo < hi {
        let pa = choose|p: int|
            lo <= p < hi && (#[trigger] boxes[a[p] as int]).maxs.at(dim) == max_upper(boxes, a, dim, lo, hi);
        assert(occurs(b, a[pa], lo, hi));
        let qa = choose|q: int| lo <= q < hi && b[q] == a[pa];
        assert(boxes[b[qa] as int].maxs.at(dim) <= max_upper(boxes, b, dim, lo, hi));
        let pb = choose|p: int|
            lo <= p < hi && (#[trigger] boxes[b[p] as int]).maxs.at(dim) == max_upper(boxes, b, dim, lo, hi);
        assert(occurs(a, b[pb], lo, hi));
        let qb = choose|q: int| lo <= q < hi && a[q] == b[pb];
        assert(boxes[a[qb] as int].maxs.at(dim) <= max_upper(boxes, a, dim, lo, hi));

        let na = choose|p: int|
            lo <= p < hi && (#[trigger] boxes[a[p] as int]).mins.at(dim) == min_lower(boxes, a, dim, lo, hi);
        assert(occurs(b, a[na], lo, hi));
        let ma = choose|q: int| lo <= q < hi && b[q] == a[na];
        assert(boxes[b[ma] as int].mins.at(dim) >= min_lower(boxes, b, dim, lo, hi));
        let nb = choose|p: int|
            lo <= p < hi && (#[trigger] boxes[b[p] as int]).mins.at(dim) == min_lower(boxes, b, dim, lo, hi);
        assert(occurs(a, b[nb], lo, hi));
        let mb = choose|q: int| lo <= q < hi && a[q] == b[nb];
        assert(boxes[a[mb] as int].mins.at(dim) >= min_lower(boxes, a, dim, lo, hi));
    }
}

/// Each position of the range of a tree that partitions lies in one leaf, and
/// in one only; no other position lies in a leaf.
pub proof fn lemma_leaves_partition(t: Tree, p: int)
    requires
        t.partitions(),
    ensures
        t.leaves_holding(p) == if t.lo() <= p <= t.hi() {
            1nat
        } else {
            0nat
        },
    decreases t,
{
    match t {
        Tree::Leaf { .. } => {},
        Tree::Node { left, right, .. } => {
            lemma_leaves_partition(*left, p);
            lemma_leaves_partition(*right, p);
        },
    }
}

/// A tree has one leaf more than it has inner nodes, and where it partitions
/// a range that holds a position, no more leaves than positions.
pub proof fn lemma_node_counts(t: Tree)
    requires
        t.partitions(),
        t.lo() <= t.hi(),
    ensures
        t.leaf_count() == t.inner_count() + 1,
        t.leaf_count() <= t.hi() - t.lo() + 1,
    decreases t,
{
    match t {
        Tree::Leaf { .. } => {},
        Tree::Node { left, right, .. } => {
            lemma_node_counts(*left);
            lemma_node_counts(*right);
        },
    }
}

/// The subtree in `slot` can be walked: every slot met lies in the array,
/// each child stands after its parent, every axis is one of the three, and
/// each leaf is empty or names positions below `positions`.
pub open spec fn walkable(nodes: Seq<Node>, slot: int, positions: int) -> bool
    decreases nodes.len() - slot,
{
    if 0 <= slot < nodes.len() {
        match nodes[slot] {
            Node::Leaf { start, stop } => start > stop || stop < positions,
            Node::Node { axis, left, right, .. } => {
                if slot < left < nodes.len() && slot < right < nodes.len() {
                    &&& axis < 3
                    &&& walkable(nodes, left as int, positions)
                    &&& walkable(nodes, right as int, positions)
                } else {
                    false
                }
            },
        }
    } else {
        false
    }
}

/// A node array that holds a tree whose leaves name positions below
/// `positions` can be walked from the root of the tree.
pub proof fn lemma_encodes_walkable(nodes: Seq<Node>, t: Tree, positions: int)
    requires
        encodes(nodes, t),
        t.partitions(),
        t.lo() > t.hi() || t.hi() < positions,
    ensures
        walkable(nodes, t.slot(), positions),
    decreases t,
{
    match t {
        Tree::Leaf { .. } => {},
        Tree::Node { left, right, .. } => {
            lemma_encodes_walkable(nodes, *left, positions);
            lemma_encodes_walkable(nodes, *right, positions);
        },
    }
}

} // verus!
