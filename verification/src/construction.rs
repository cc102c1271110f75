//! What building a hierarchy computes, stated on sequences.
use crate::aabb::Aabb;
use crate::cell::{Cell, UNIT};
use crate::bih::Node;
use crate::partition::{
    goes_left, lemma_bounds_local, lemma_bounds_meaning, lemma_partition, lemma_same_range_entries,
    lemma_same_range_widen, max_upper, min_lower, names_boxes, occurs, partition, same_outside,
    same_range, swapped,
};
use crate::tree::{
    encodes, lemma_encodes_walkable, lemma_leaves_partition, lemma_node_counts, walkable, lemma_below_slots, lemma_below_widen, lemma_bounds_permuted, lemma_clipped_local,
    lemma_encodes_stable, Tree,
};
use crate::vec3::Vec3;
use vstd::prelude::*;

verus! {

/// A range of positions still to be turned into a subtree: the positions
/// `start..=stop`, the box the range is split in, and the node slot to fill.
pub ghost struct Frame {
    pub start: int,
    pub stop: int,
    pub bbox: Cell,
    pub slot: int,
}

/// How the attempt to split a frame ends.
pub ghost enum Outcome {
    /// No axis separates the objects: the range becomes a leaf.
    GiveUp { index: Seq<usize> },
    /// The positions before `left_end` form the left child, the others the
    /// right; `bbox` is the box of the frame as it was cut before the split.
    Split {
        index: Seq<usize>,
        bbox: Cell,
        dim: int,
        half: int,
        left_end: int,
        leftclip: int,
        rightclip: int,
    },
}

/// What one partition of a frame leads to: an outcome, or another partition.
pub ghost enum Step {
    /// The attempt goes on with this index array, box and axis.
    Again { index: Seq<usize>, f: Frame, dim: int, tried: int },
    Done { outcome: Outcome },
}

/// The axis of the largest component, the lower axis winning a tie.
pub open spec fn spec_index_of_max(v: Vec3) -> int {
    if v.x >= v.y {
        if v.x >= v.z {
            0
        } else {
            2
        }
    } else if v.y >= v.z {
        1
    } else {
        2
    }
}

/// One partition of the range along `dim`, with `tried` axes already given up.
///
/// The plane is the midpoint of the frame's box across the axis: the exact
/// midpoint where the two faces are an even number of plane units apart, and
/// half a plane unit below it where planes have run out. An object goes left
/// where the centre of its box, taken exactly, is at most the plane. Where
/// both sides hold objects the frame splits. Where all objects fell on one
/// side and none reaches the plane, the box is cut at the plane and the same
/// axis is taken again, provided the plane lies strictly inside the box: it
/// does unless the two faces are less than two plane units apart. Otherwise
/// the next axis is taken, and after the third the frame is given up.
pub open spec fn step(boxes: Seq<Aabb>, index: Seq<usize>, f: Frame, dim: int, tried: int) -> Step {
    let half = f.bbox.middle(dim);
    let (sorted, left_end) = partition(boxes, index, half, dim, f.start, f.stop + 1);
    let lmin = min_lower(boxes, sorted, dim, f.start, f.stop + 1);
    let rmax = max_upper(boxes, sorted, dim, f.start, f.stop + 1);
    if left_end == f.stop + 1 {
        if rmax * UNIT < half && half < f.bbox.maxs.at(dim) {
            Step::Again { index: sorted, f: Frame { bbox: f.bbox.cut_above(dim, half), ..f }, dim, tried }
        } else if tried >= 2 {
            Step::Done { outcome: Outcome::GiveUp { index: sorted } }
        } else {
            Step::Again { index: sorted, f, dim: (dim + 1) % 3, tried: tried + 1 }
        }
    } else if left_end == f.start {
        if half < lmin * UNIT && f.bbox.mins.at(dim) < half {
            Step::Again { index: sorted, f: Frame { bbox: f.bbox.cut_below(dim, half), ..f }, dim, tried }
        } else if tried >= 2 {
            Step::Done { outcome: Outcome::GiveUp { index: sorted } }
        } else {
            Step::Again { index: sorted, f, dim: (dim + 1) % 3, tried: tried + 1 }
        }
    } else {
        Step::Done {
            outcome: Outcome::Split {
                index: sorted,
                bbox: f.bbox,
                dim,
                half,
                left_end,
                leftclip: max_upper(boxes, sorted, dim, f.start, left_end),
                rightclip: min_lower(boxes, sorted, dim, left_end, f.stop + 1),
            },
        }
    }
}

/// Partitions the range again and again, from `dim` on with `tried` axes
/// already given up, until an axis splits the range or none is left.
pub open spec fn attempt(
    boxes: Seq<Aabb>,
    index: Seq<usize>,
    f: Frame,
    dim: int,
    tried: int,
) -> Outcome
    decreases 3 - tried, f.bbox.girth(),
    via attempt_decreases
{
    match step(boxes, index, f, dim, tried) {
        Step::Again { index: sorted, f: g, dim: d, tried: t } => attempt(boxes, sorted, g, d, t),
        Step::Done { outcome } => outcome,
    }
}

#[via_fn]
proof fn attempt_decreases(boxes: Seq<Aabb>, index: Seq<usize>, f: Frame, dim: int, tried: int) {
    lemma_step(boxes, index, f, dim, tried);
}

/// The attempt on a frame: from the longest axis of its box on.
pub open spec fn first_attempt(boxes: Seq<Aabb>, index: Seq<usize>, f: Frame) -> Outcome {
    attempt(boxes, index, f, f.bbox.longest(), 0)
}

/// A step that goes on keeps the range and the slot of the frame, and either
/// cuts the box to a smaller one along the same axis or takes the next axis.
pub proof fn lemma_step(boxes: Seq<Aabb>, index: Seq<usize>, f: Frame, dim: int, tried: int)
    ensures
        f.bbox.girth() >= 0,
        match step(boxes, index, f, dim, tried) {
            Step::Again { index: sorted, f: g, dim: d, tried: t } => {
                &&& sorted == partition(boxes, index, f.bbox.middle(dim), dim, f.start, f.stop + 1).0
                &&& g.start == f.start
                &&& g.stop == f.stop
                &&& g.slot == f.slot
                &&& 0 <= g.bbox.girth()
                &&& if t == tried {
                    d == dim && g.bbox.girth() < f.bbox.girth()
                } else {
                    t == tried + 1 && tried < 2 && d == (dim + 1) % 3 && g.bbox == f.bbox
                }
            },
            Step::Done { outcome } => match outcome {
                Outcome::GiveUp { index: sorted } => sorted == partition(
                    boxes,
                    index,
                    f.bbox.middle(dim),
                    dim,
                    f.start,
                    f.stop + 1,
                ).0,
                Outcome::Split { index: sorted, bbox, dim: axis, half, left_end, leftclip, rightclip } => {
                    &&& (sorted, left_end) == partition(
                        boxes,
                        index,
                        f.bbox.middle(dim),
                        dim,
                        f.start,
                        f.stop + 1,
                    )
                    &&& bbox == f.bbox
                    &&& axis == dim
                    &&& half == f.bbox.middle(dim)
                    &&& left_end != f.start
                    &&& left_end != f.stop + 1
                    &&& leftclip == max_upper(boxes, sorted, dim, f.start, left_end)
                    &&& rightclip == min_lower(boxes, sorted, dim, left_end, f.stop + 1)
                },
            },
        },
{
}

/// What building a frame leaves behind: the index array, the node array, the
/// shape of the subtree built, and the number of frames taken from the stack.
pub ghost struct Built {
    pub index: Seq<usize>,
    pub nodes: Seq<Node>,
    pub tree: Tree,
    pub steps: nat,
}

/// What a slot holds between its allocation and the building of its frame.
pub open spec fn vacant() -> Node {
    Node::Leaf { start: 0, stop: 0 }
}

/// The frame closed as a leaf.
pub open spec fn close(f: Frame, index: Seq<usize>, nodes: Seq<Node>) -> Built {
    Built {
        index,
        nodes: nodes.update(f.slot, Node::Leaf { start: f.start as usize, stop: f.stop as usize }),
        tree: Tree::Leaf { slot: f.slot, lo: f.start, hi: f.stop },
        steps: 1,
    }
}

/// The frame of the left child of `f`, whose box `bbox` is split across `dim`
/// at `half`, before `left_end`.
pub open spec fn left_frame(f: Frame, bbox: Cell, dim: int, half: int, left_end: int, slot: int) -> Frame {
    Frame { start: f.start, stop: left_end - 1, bbox: bbox.cut_above(dim, half), slot }
}

/// The frame of the right child of `f`, whose box `bbox` is split across `dim`
/// at `half`, before `left_end`.
pub open spec fn right_frame(f: Frame, bbox: Cell, dim: int, half: int, left_end: int, slot: int) -> Frame {
    Frame { start: left_end, stop: f.stop, bbox: bbox.cut_below(dim, half), slot }
}

/// The node array after a split of `f`: the inner node in the frame's slot, and
/// two fresh slots at the end for its children, the left one first.
pub open spec fn opened(nodes: Seq<Node>, f: Frame, dim: int, leftclip: int, rightclip: int) -> Seq<Node> {
    nodes.update(
        f.slot,
        Node::Node {
            axis: dim as u8,
            leftclip: leftclip as i32,
            rightclip: rightclip as i32,
            left: nodes.len() as usize,
            right: (nodes.len() + 1) as usize,
        },
    ).push(vacant()).push(vacant())
}

/// Builds the subtree of one frame.
///
/// A range of at most `leaf_bound` objects is a leaf. A longer one is split
/// where an axis separates its objects: the left child is built first, then
/// the right one. A range that no axis separates is a leaf.
pub open spec fn build(
    boxes: Seq<Aabb>,
    leaf_bound: nat,
    f: Frame,
    index: Seq<usize>,
    nodes: Seq<Node>,
) -> Built
    decreases f.stop - f.start,
    via build_decreases
{
    if f.stop - f.start < leaf_bound {
        close(f, index, nodes)
    } else {
        match first_attempt(boxes, index, f) {
            Outcome::GiveUp { index: sorted } => close(f, sorted, nodes),
            Outcome::Split { index: sorted, bbox, dim, half, left_end, leftclip, rightclip } => {
                let l = build(
                    boxes,
                    leaf_bound,
                    left_frame(f, bbox, dim, half, left_end, nodes.len() as int),
                    sorted,
                    opened(nodes, f, dim, leftclip, rightclip),
                );
                let r = build(
                    boxes,
                    leaf_bound,
                    right_frame(f, bbox, dim, half, left_end, nodes.len() as int + 1),
                    l.index,
                    l.nodes,
                );
                Built {
                    index: r.index,
                    nodes: r.nodes,
                    tree: Tree::Node {
                        slot: f.slot,
                        lo: f.start,
                        hi: f.stop,
                        axis: dim,
                        leftclip,
                        rightclip,
                        left: Box::new(l.tree),
                        right: Box::new(r.tree),
                    },
                    steps: 1 + l.steps + r.steps,
                }
            },
        }
    }
}

#[via_fn]
proof fn build_decreases(
    boxes: Seq<Aabb>,
    leaf_bound: nat,
    f: Frame,
    index: Seq<usize>,
    nodes: Seq<Node>,
) {
    if f.stop - f.start >= leaf_bound {
        lemma_attempt_progress(boxes, index, f, f.bbox.longest(), 0);
    }
}

/// The boundary that `partition` returns lies within the range.
pub proof fn lemma_partition_end(
    boxes: Seq<Aabb>,
    index: Seq<usize>,
    half: int,
    dim: int,
    left: int,
    right: int,
)
    requires
        left <= right,
    ensures
        left <= partition(boxes, index, half, dim, left, right).1 <= right,
    decreases right - left,
{
    if left >= right {
    } else if goes_left(boxes, index, left, half, dim) {
        lemma_partition_end(boxes, index, half, dim, left + 1, right);
    } else {
        lemma_partition_end(boxes, swapped(index, left, right - 1), half, dim, left, right - 1);
    }
}

/// Both sides of a split hold an object, and the split is along one of the
/// three axes.
pub proof fn lemma_attempt_progress(
    boxes: Seq<Aabb>,
    index: Seq<usize>,
    f: Frame,
    dim: int,
    tried: int,
)
    requires
        f.start <= f.stop,
        0 <= dim < 3,
        0 <= tried <= 2,
    ensures
        match attempt(boxes, index, f, dim, tried) {
            Outcome::GiveUp { index: sorted } => true,
            Outcome::Split { index: sorted, bbox, dim, half, left_end, leftclip, rightclip } => {
                &&& f.start < left_end <= f.stop
                &&& 0 <= dim < 3
                &&& half == bbox.middle(dim)
            },
        },
    decreases 3 - tried, f.bbox.girth(),
{
    lemma_step(boxes, index, f, dim, tried);
    lemma_partition_end(boxes, index, f.bbox.middle(dim), dim, f.start, f.stop + 1);
    match step(boxes, index, f, dim, tried) {
        Step::Again { index: sorted, f: g, dim: d, tried: t } => {
            lemma_attempt_progress(boxes, sorted, g, d, t);
        },
        Step::Done { .. } => {},
    }
}

/// What is left when the frames of a stack have been built, the last one
/// first, each on what the one before it left behind.
pub ghost struct Ran {
    pub index: Seq<usize>,
    pub nodes: Seq<Node>,
    pub steps: nat,
}

/// Builds the frames of `stack` in turn, the last one first.
pub open spec fn run(
    boxes: Seq<Aabb>,
    leaf_bound: nat,
    stack: Seq<Frame>,
    index: Seq<usize>,
    nodes: Seq<Node>,
) -> Ran
    decreases stack.len(),
{
    if stack.len() == 0 {
        Ran { index, nodes, steps: 0 }
    } else {
        let top = build(boxes, leaf_bound, stack.last(), index, nodes);
        let rest = run(boxes, leaf_bound, stack.drop_last(), top.index, top.nodes);
        Ran { index: rest.index, nodes: rest.nodes, steps: top.steps + rest.steps }
    }
}

/// The frame that holds all of an index array of `len` entries, in the box `global`.
pub open spec fn root_frame(len: int, global: Aabb) -> Frame {
    Frame { start: 0, stop: len - 1, bbox: Cell::of(global), slot: 0 }
}

/// The hierarchy over all of `index`: one leaf with the empty range `1..=0`
/// where there is no object, else the subtree of the root frame, in slot 0.
pub open spec fn built(boxes: Seq<Aabb>, global: Aabb, index: Seq<usize>, leaf_bound: nat) -> Built {
    if index.len() == 0 {
        Built {
            index,
            nodes: seq![Node::Leaf { start: 1, stop: 0 }],
            tree: Tree::Leaf { slot: 0, lo: 1, hi: 0 },
            steps: 0,
        }
    } else {
        build(boxes, leaf_bound, root_frame(index.len() as int, global), index, seq![vacant()])
    }
}

/// Every build takes at least one frame from the stack.
pub proof fn lemma_build_steps(
    boxes: Seq<Aabb>,
    leaf_bound: nat,
    f: Frame,
    index: Seq<usize>,
    nodes: Seq<Node>,
)
    ensures
        build(boxes, leaf_bound, f, index, nodes).steps >= 1,
{
}

/// The index array that an outcome leaves behind.
pub open spec fn left_behind(outcome: Outcome) -> Seq<usize> {
    match outcome {
        Outcome::GiveUp { index } => index,
        Outcome::Split { index, .. } => index,
    }
}

/// An attempt only reorders the range of its frame, and the clip planes of a
/// split are the bounds of the two parts.
pub proof fn lemma_attempt_facts(
    boxes: Seq<Aabb>,
    index: Seq<usize>,
    f: Frame,
    dim: int,
    tried: int,
)
    requires
        0 <= f.start <= f.stop < index.len(),
        names_boxes(index, boxes.len() as int),
        0 <= dim < 3,
        0 <= tried <= 2,
    ensures
        ({
            let sorted = left_behind(attempt(boxes, index, f, dim, tried));
            &&& sorted.len() == index.len()
            &&& names_boxes(sorted, boxes.len() as int)
            &&& same_range(sorted, index, f.start, f.stop + 1)
            &&& same_outside(sorted, index, f.start, f.stop + 1)
        }),
        match attempt(boxes, index, f, dim, tried) {
            Outcome::Split { index: sorted, dim: axis, left_end, leftclip, rightclip, .. } => {
                &&& leftclip == max_upper(boxes, sorted, axis, f.start, left_end)
                &&& rightclip == min_lower(boxes, sorted, axis, left_end, f.stop + 1)
                &&& i32::MIN <= leftclip <= i32::MAX
                &&& i32::MIN <= rightclip <= i32::MAX
            },
            _ => true,
        },
    decreases 3 - tried, f.bbox.girth(),
{
    let half = f.bbox.middle(dim);
    let (sorted, left_end) = partition(boxes, index, half, dim, f.start, f.stop + 1);
    lemma_step(boxes, index, f, dim, tried);
    lemma_partition(boxes, index, half, dim, f.start, f.stop + 1);
    lemma_names_kept(index, sorted, f.start, f.stop + 1, boxes.len() as int);
    lemma_bounds_meaning(boxes, sorted, dim, f.start, left_end);
    lemma_bounds_meaning(boxes, sorted, dim, left_end, f.stop + 1);
    match step(boxes, index, f, dim, tried) {
        Step::Again { index: again, f: g, dim: d, tried: t } => {
            lemma_attempt_facts(boxes, again, g, d, t);
        },
        Step::Done { .. } => {},
    }
}

/// A sequence that holds, in a range, the entries of one whose entries all
/// name boxes, and agrees with it elsewhere, has entries that all name boxes.
pub proof fn lemma_names_kept(a: Seq<usize>, b: Seq<usize>, lo: int, hi: int, count: int)
    requires
        0 <= lo <= hi <= a.len(),
        names_boxes(a, count),
        same_range(b, a, lo, hi),
        same_outside(b, a, lo, hi),
    ensures
        names_boxes(b, count),
{
    lemma_same_range_entries(b, a, lo, hi);
    assert forall|p: int| 0 <= p < b.len() implies (#[trigger] b[p]) < count by {
        if lo <= p < hi {
            assert(occurs(a, b[p], lo, hi));
        } else {
            assert(b[p] == a[p]);
        }
    }
}

/// Building never shortens the node array.
pub proof fn lemma_build_grows(
    boxes: Seq<Aabb>,
    leaf_bound: nat,
    f: Frame,
    index: Seq<usize>,
    nodes: Seq<Node>,
)
    requires
        0 <= f.slot < nodes.len(),
    ensures
        build(boxes, leaf_bound, f, index, nodes).nodes.len() >= nodes.len(),
    decreases f.stop - f.start,
{
    if f.stop - f.start >= leaf_bound {
        lemma_attempt_progress(boxes, index, f, f.bbox.longest(), 0);
        match first_attempt(boxes, index, f) {
            Outcome::GiveUp { .. } => {},
            Outcome::Split { index: sorted, bbox, dim, half, left_end, leftclip, rightclip } => {
                let lf = left_frame(f, bbox, dim, half, left_end, nodes.len() as int);
                let rf = right_frame(f, bbox, dim, half, left_end, nodes.len() as int + 1);
                let open = opened(nodes, f, dim, leftclip, rightclip);
                lemma_build_grows(boxes, leaf_bound, lf, sorted, open);
                let l = build(boxes, leaf_bound, lf, sorted, open);
                lemma_build_grows(boxes, leaf_bound, rf, l.index, l.nodes);
            },
        }
    }
}

/// What a build leaves behind.
///
/// The index array is reordered within the range of the frame only. The node
/// array keeps every old slot but that of the frame, and holds the subtree
/// built, whose nodes below the root stand in the slots added. The subtree
/// partitions the range of the frame, and its clip planes are tight.
pub proof fn lemma_build(
    boxes: Seq<Aabb>,
    leaf_bound: nat,
    f: Frame,
    index: Seq<usize>,
    nodes: Seq<Node>,
)
    requires
        0 <= f.start <= f.stop < index.len() <= usize::MAX,
        0 <= f.slot < nodes.len(),
        names_boxes(index, boxes.len() as int),
        build(boxes, leaf_bound, f, index, nodes).nodes.len() <= usize::MAX,
    ensures
        ({
            let b = build(boxes, leaf_bound, f, index, nodes);
            &&& b.index.len() == index.len()
            &&& names_boxes(b.index, boxes.len() as int)
            &&& same_range(b.index, index, f.start, f.stop + 1)
            &&& same_outside(b.index, index, f.start, f.stop + 1)
            &&& b.nodes.len() >= nodes.len()
            &&& forall|s: int|
                0 <= s < nodes.len() && s != f.slot ==> (#[trigger] b.nodes[s]) == nodes[s]
            &&& b.tree.slot() == f.slot
            &&& b.tree.lo() == f.start
            &&& b.tree.hi() == f.stop
            &&& b.tree.below(nodes.len() as int, b.nodes.len() as int)
            &&& encodes(b.nodes, b.tree)
            &&& b.tree.partitions()
            &&& b.tree.clipped(boxes, b.index)
        }),
    decreases f.stop - f.start,
{
    let b = build(boxes, leaf_bound, f, index, nodes);
    if f.stop - f.start < leaf_bound {
    } else {
        let first = f.bbox.longest();
        lemma_attempt_progress(boxes, index, f, first, 0);
        lemma_attempt_facts(boxes, index, f, first, 0);
        match first_attempt(boxes, index, f) {
            Outcome::GiveUp { index: sorted } => {},
            Outcome::Split { index: sorted, bbox, dim, half, left_end, leftclip, rightclip } => {
                let base = nodes.len() as int;
                let lf = left_frame(f, bbox, dim, half, left_end, base);
                let rf = right_frame(f, bbox, dim, half, left_end, base + 1);
                let open = opened(nodes, f, dim, leftclip, rightclip);
                let l = build(boxes, leaf_bound, lf, sorted, open);
                let r = build(boxes, leaf_bound, rf, l.index, l.nodes);
                assert(b.nodes == r.nodes);
                assert(b.index == r.index);
                lemma_build_grows(boxes, leaf_bound, lf, sorted, open);
                lemma_build_grows(boxes, leaf_bound, rf, l.index, l.nodes);
                lemma_build(boxes, leaf_bound, lf, sorted, open);
                lemma_build(boxes, leaf_bound, rf, l.index, l.nodes);
                // the index array
                lemma_same_range_widen(l.index, sorted, f.start, left_end, f.start, f.stop + 1);
                lemma_same_range_widen(r.index, l.index, left_end, f.stop + 1, f.start, f.stop + 1);
                // the left subtree is still held after the right one is built
                assert forall|s: int| l.tree.has_slot(s) && 0 <= s < l.nodes.len() implies l.nodes[s]
                    == r.nodes[s] by {
                    lemma_below_slots(l.tree, base + 2, l.nodes.len() as int, s);
                }
                lemma_encodes_stable(l.nodes, r.nodes, l.tree);
                lemma_below_widen(l.tree, base + 2, l.nodes.len() as int, base, r.nodes.len() as int);
                lemma_below_widen(
                    r.tree,
                    l.nodes.len() as int,
                    r.nodes.len() as int,
                    base,
                    r.nodes.len() as int,
                );
                // the clip planes
                lemma_clipped_local(l.tree, boxes, l.index, r.index);
                lemma_bounds_permuted(boxes, l.index, sorted, dim, f.start, left_end);
                lemma_bounds_local(boxes, l.index, r.index, dim, f.start, left_end);
                lemma_bounds_local(boxes, sorted, l.index, dim, left_end, f.stop + 1);
                lemma_bounds_permuted(boxes, r.index, l.index, dim, left_end, f.stop + 1);
                assert(r.nodes[f.slot] == open[f.slot]);
                assert forall|s: int| 0 <= s < nodes.len() && s != f.slot implies (#[trigger] b.nodes[s])
                    == nodes[s] by {
                    assert(r.nodes[s] == l.nodes[s]);
                    assert(l.nodes[s] == open[s]);
                }
            },
        }
    }
}

/// The node array holds the tree from slot 0 on, the tree partitions all
/// positions of the index array, and its clip planes are tight.
pub open spec fn holds_hierarchy(boxes: Seq<Aabb>, index: Seq<usize>, nodes: Seq<Node>, t: Tree) -> bool {
    &&& encodes(nodes, t)
    &&& t.slot() == 0
    &&& t.partitions()
    &&& t.clipped(boxes, index)
    &&& if index.len() == 0 {
        t == (Tree::Leaf { slot: 0, lo: 1, hi: 0 })
    } else {
        t.lo() == 0 && t.hi() == index.len() - 1
    }
}

/// What building a hierarchy leaves behind: the index array reordered, and a
/// node array that holds a hierarchy over all of it and can be walked.
pub proof fn lemma_built(boxes: Seq<Aabb>, global: Aabb, index: Seq<usize>, leaf_bound: nat)
    requires
        names_boxes(index, boxes.len() as int),
        index.len() <= usize::MAX,
        built(boxes, global, index, leaf_bound).nodes.len() <= usize::MAX,
    ensures
        ({
            let b = built(boxes, global, index, leaf_bound);
            &&& b.index.len() == index.len()
            &&& names_boxes(b.index, boxes.len() as int)
            &&& b.index.to_multiset() == index.to_multiset()
            &&& holds_hierarchy(boxes, b.index, b.nodes, b.tree)
            &&& walkable(b.nodes, 0, index.len() as int)
        }),
{
    let b = built(boxes, global, index, leaf_bound);
    if index.len() > 0 {
        let f = root_frame(index.len() as int, global);
        lemma_build(boxes, leaf_bound, f, index, seq![vacant()]);
        assert(b.index.subrange(0, index.len() as int) =~= b.index);
        assert(index.subrange(0, index.len() as int) =~= index);
        lemma_encodes_walkable(b.nodes, b.tree, index.len() as int);
    } else {
        assert(walkable(b.nodes, 0, 0));
    }
}

/// The two sequences have the same entries at the positions `lo..hi`.
pub open spec fn agree_on(a: Seq<usize>, b: Seq<usize>, lo: int, hi: int) -> bool {
    forall|p: int| lo <= p < hi ==> a[p] == b[p]
}

/// A partition reads and writes its range only: on index arrays that agree
/// there it finds the same boundary and leaves arrays that agree there.
pub proof fn lemma_partition_local(
    boxes: Seq<Aabb>,
    a: Seq<usize>,
    b: Seq<usize>,
    half: int,
    dim: int,
    left: int,
    right: int,
    lo: int,
    hi: int,
)
    requires
        0 <= lo <= left <= right <= hi,
        hi <= a.len(),
        hi <= b.len(),
        agree_on(a, b, lo, hi),
    ensures
        partition(boxes, a, half, dim, left, right).1 == partition(boxes, b, half, dim, left, right).1,
        agree_on(
            partition(boxes, a, half, dim, left, right).0,
            partition(boxes, b, half, dim, left, right).0,
            lo,
            hi,
        ),
    decreases right - left,
{
    if left >= right {
    } else if goes_left(boxes, a, left, half, dim) {
        lemma_partition_local(boxes, a, b, half, dim, left + 1, right, lo, hi);
    } else {
        let sa = swapped(a, left, right - 1);
        let sb = swapped(b, left, right - 1);
        lemma_partition_local(boxes, sa, sb, half, dim, left, right - 1, lo, hi);
    }
}

/// The two frames hold the same range in the same box.
pub open spec fn alike(f: Frame, g: Frame) -> bool {
    f.start == g.start && f.stop == g.stop && f.bbox == g.bbox
}

/// An attempt reads and writes the range of its frame only, and never the
/// slot: on frames that are alike and index arrays that agree on the range it
/// ends in the same way and leaves arrays that agree there.
pub proof fn lemma_attempt_local(
    boxes: Seq<Aabb>,
    a: Seq<usize>,
    b: Seq<usize>,
    f: Frame,
    g: Frame,
    dim: int,
    tried: int,
)
    requires
        alike(f, g),
        0 <= f.start <= f.stop,
        f.stop < a.len(),
        f.stop < b.len(),
        agree_on(a, b, f.start, f.stop + 1),
        0 <= tried <= 2,
    ensures
        match (attempt(boxes, a, f, dim, tried), attempt(boxes, b, g, dim, tried)) {
            (Outcome::GiveUp { index: sa }, Outcome::GiveUp { index: sb }) => {
                agree_on(sa, sb, f.start, f.stop + 1)
            },
            (
                Outcome::Split {
                    index: sa,
                    bbox: ba,
                    dim: da,
                    half: ha,
                    left_end: ea,
                    leftclip: la,
                    rightclip: ra,
                },
                Outcome::Split {
                    index: sb,
                    bbox: bb,
                    dim: db,
                    half: hb,
                    left_end: eb,
                    leftclip: lb,
                    rightclip: rb,
                },
            ) => {
                &&& ba == bb
                &&& da == db
                &&& ha == hb
                &&& ea == eb
                &&& la == lb
                &&& ra == rb
                &&& agree_on(sa, sb, f.start, f.stop + 1)
            },
            _ => false,
        },
    decreases 3 - tried, f.bbox.girth(),
{
    let half = f.bbox.middle(dim);
    let (sa, ea) = partition(boxes, a, half, dim, f.start, f.stop + 1);
    let (sb, eb) = partition(boxes, b, half, dim, f.start, f.stop + 1);
    lemma_step(boxes, a, f, dim, tried);
    lemma_step(boxes, b, g, dim, tried);
    lemma_partition_local(boxes, a, b, half, dim, f.start, f.stop + 1, f.start, f.stop + 1);
    lemma_partition(boxes, a, half, dim, f.start, f.stop + 1);
    lemma_partition(boxes, b, half, dim, f.start, f.stop + 1);
    lemma_bounds_local(boxes, sa, sb, dim, f.start, f.stop + 1);
    lemma_bounds_local(boxes, sa, sb, dim, f.start, ea);
    lemma_bounds_local(boxes, sa, sb, dim, ea, f.stop + 1);
    match (step(boxes, a, f, dim, tried), step(boxes, b, g, dim, tried)) {
        (
            Step::Again { index: xa, f: fa, dim: d, tried: t },
            Step::Again { index: xb, f: fb, .. },
        ) => {
            lemma_attempt_local(boxes, xa, xb, fa, fb, d, t);
        },
        _ => {},
    }
}

/// A build leaves the index array as long as it was and changes it within the
/// range of its frame only.
pub proof fn lemma_build_outside(
    boxes: Seq<Aabb>,
    leaf_bound: nat,
    f: Frame,
    index: Seq<usize>,
    nodes: Seq<Node>,
)
    requires
        0 <= f.start <= f.stop < index.len(),
    ensures
        same_outside(build(boxes, leaf_bound, f, index, nodes).index, index, f.start, f.stop + 1),
    decreases f.stop - f.start,
{
    if f.stop - f.start >= leaf_bound {
        let first = f.bbox.longest();
        lemma_attempt_progress(boxes, index, f, first, 0);
        lemma_attempt_outside(boxes, index, f, first, 0);
        match first_attempt(boxes, index, f) {
            Outcome::GiveUp { .. } => {},
            Outcome::Split { index: sorted, bbox, dim, half, left_end, leftclip, rightclip } => {
                let lf = left_frame(f, bbox, dim, half, left_end, nodes.len() as int);
                let rf = right_frame(f, bbox, dim, half, left_end, nodes.len() as int + 1);
                let open = opened(nodes, f, dim, leftclip, rightclip);
                lemma_build_outside(boxes, leaf_bound, lf, sorted, open);
                let l = build(boxes, leaf_bound, lf, sorted, open);
                lemma_build_outside(boxes, leaf_bound, rf, l.index, l.nodes);
            },
        }
    }
}

/// An attempt changes the index array within the range of its frame only.
pub proof fn lemma_attempt_outside(
    boxes: Seq<Aabb>,
    index: Seq<usize>,
    f: Frame,
    dim: int,
    tried: int,
)
    requires
        0 <= f.start <= f.stop < index.len(),
        0 <= tried <= 2,
    ensures
        same_outside(left_behind(attempt(boxes, index, f, dim, tried)), index, f.start, f.stop + 1),
    decreases 3 - tried, f.bbox.girth(),
{
    lemma_step(boxes, index, f, dim, tried);
    lemma_partition(boxes, index, f.bbox.middle(dim), dim, f.start, f.stop + 1);
    match step(boxes, index, f, dim, tried) {
        Step::Again { index: again, f: g, dim: d, tried: t } => {
            lemma_attempt_outside(boxes, again, g, d, t);
        },
        Step::Done { .. } => {},
    }
}

/// With a larger leaf bound, the subtree of a frame has no more inner nodes.
/// This holds whatever the slots and the node arrays are, and for any two
/// index arrays that agree on the range of the frame.
pub proof fn lemma_build_monotone(
    boxes: Seq<Aabb>,
    small: nat,
    large: nat,
    f: Frame,
    g: Frame,
    index_a: Seq<usize>,
    nodes_a: Seq<Node>,
    index_b: Seq<usize>,
    nodes_b: Seq<Node>,
)
    requires
        small <= large,
        alike(f, g),
        0 <= f.start <= f.stop,
        f.stop < index_a.len(),
        f.stop < index_b.len(),
        agree_on(index_a, index_b, f.start, f.stop + 1),
    ensures
        build(boxes, large, g, index_b, nodes_b).tree.inner_count() <= build(
            boxes,
            small,
            f,
            index_a,
            nodes_a,
        ).tree.inner_count(),
    decreases f.stop - f.start,
{
    if f.stop - f.start >= large {
        let first = f.bbox.longest();
        lemma_attempt_progress(boxes, index_a, f, first, 0);
        lemma_attempt_progress(boxes, index_b, g, first, 0);
        lemma_attempt_local(boxes, index_a, index_b, f, g, first, 0);
        lemma_attempt_outside(boxes, index_a, f, first, 0);
        lemma_attempt_outside(boxes, index_b, g, first, 0);
        match (first_attempt(boxes, index_a, f), first_attempt(boxes, index_b, g)) {
            (
                Outcome::Split { index: sa, bbox, dim, half, left_end, leftclip, rightclip },
                Outcome::Split { index: sb, .. },
            ) => {
                let lfa = left_frame(f, bbox, dim, half, left_end, nodes_a.len() as int);
                let rfa = right_frame(f, bbox, dim, half, left_end, nodes_a.len() as int + 1);
                let lfb = left_frame(g, bbox, dim, half, left_end, nodes_b.len() as int);
                let rfb = right_frame(g, bbox, dim, half, left_end, nodes_b.len() as int + 1);
                let open_a = opened(nodes_a, f, dim, leftclip, rightclip);
                let open_b = opened(nodes_b, g, dim, leftclip, rightclip);
                lemma_build_monotone(boxes, small, large, lfa, lfb, sa, open_a, sb, open_b);
                let la = build(boxes, small, lfa, sa, open_a);
                let lb = build(boxes, large, lfb, sb, open_b);
                lemma_build_outside(boxes, small, lfa, sa, open_a);
                lemma_build_outside(boxes, large, lfb, sb, open_b);
                assert forall|p: int| left_end <= p < f.stop + 1 implies la.index[p] == lb.index[p] by {
                    assert(la.index[p] == sa[p]);
                    assert(lb.index[p] == sb[p]);
                }
                lemma_build_monotone(boxes, small, large, rfa, rfb, la.index, la.nodes, lb.index, lb.nodes);
            },
            _ => {},
        }
    }
}

/// A larger leaf bound never gives a hierarchy with more inner nodes, over
/// the same boxes in the same order.
pub proof fn lemma_leaf_bound_monotone(
    boxes: Seq<Aabb>,
    global: Aabb,
    index: Seq<usize>,
    small: nat,
    large: nat,
)
    requires
        small <= large,
    ensures
        built(boxes, global, index, large).tree.inner_count() <= built(
            boxes,
            global,
            index,
            small,
        ).tree.inner_count(),
{
    if index.len() > 0 {
        let f = root_frame(index.len() as int, global);
        lemma_build_monotone(boxes, small, large, f, f, index, seq![vacant()], index, seq![vacant()]);
    }
}

/// A build adds two slots to the node array for each inner node of its subtree.
pub proof fn lemma_build_size(
    boxes: Seq<Aabb>,
    leaf_bound: nat,
    f: Frame,
    index: Seq<usize>,
    nodes: Seq<Node>,
)
    requires
        0 <= f.slot < nodes.len(),
    ensures
        build(boxes, leaf_bound, f, index, nodes).nodes.len() == nodes.len() + 2 * build(
            boxes,
            leaf_bound,
            f,
            index,
            nodes,
        ).tree.inner_count(),
    decreases f.stop - f.start,
{
    if f.stop - f.start >= leaf_bound {
        lemma_attempt_progress(boxes, index, f, f.bbox.longest(), 0);
        match first_attempt(boxes, index, f) {
            Outcome::GiveUp { .. } => {},
            Outcome::Split { index: sorted, bbox, dim, half, left_end, leftclip, rightclip } => {
                let lf = left_frame(f, bbox, dim, half, left_end, nodes.len() as int);
                let rf = right_frame(f, bbox, dim, half, left_end, nodes.len() as int + 1);
                let open = opened(nodes, f, dim, leftclip, rightclip);
                lemma_build_size(boxes, leaf_bound, lf, sorted, open);
                let l = build(boxes, leaf_bound, lf, sorted, open);
                lemma_build_grows(boxes, leaf_bound, lf, sorted, open);
                lemma_build_size(boxes, leaf_bound, rf, l.index, l.nodes);
            },
        }
    }
}

/// The node array of a hierarchy has one slot for the root and two for each
/// inner node: a larger leaf bound never gives a longer node array.
pub proof fn lemma_built_size(boxes: Seq<Aabb>, global: Aabb, index: Seq<usize>, leaf_bound: nat)
    ensures
        built(boxes, global, index, leaf_bound).nodes.len() == 1 + 2 * built(
            boxes,
            global,
            index,
            leaf_bound,
        ).tree.inner_count(),
{
    if index.len() > 0 {
        lemma_build_size(boxes, leaf_bound, root_frame(index.len() as int, global), index, seq![vacant()]);
    }
}

/// The leaves of a hierarchy cover the index array exactly once: each
/// position of the array lies in the range of one leaf and of no other, and
/// no leaf names a position outside the array.
pub proof fn lemma_leaf_coverage(
    boxes: Seq<Aabb>,
    global: Aabb,
    index: Seq<usize>,
    leaf_bound: nat,
    p: int,
)
    requires
        names_boxes(index, boxes.len() as int),
        index.len() <= usize::MAX,
        built(boxes, global, index, leaf_bound).nodes.len() <= usize::MAX,
    ensures
        built(boxes, global, index, leaf_bound).tree.leaves_holding(p) == if 0 <= p < index.len() {
            1nat
        } else {
            0nat
        },
{
    lemma_built(boxes, global, index, leaf_bound);
    lemma_leaves_partition(built(boxes, global, index, leaf_bound).tree, p);
}

/// A hierarchy over `n` objects, `n` at least one, has at most `n` leaves
/// and so at most `2 n - 1` nodes.
pub proof fn lemma_node_bound(boxes: Seq<Aabb>, global: Aabb, index: Seq<usize>, leaf_bound: nat)
    requires
        names_boxes(index, boxes.len() as int),
        0 < index.len() <= usize::MAX,
        built(boxes, global, index, leaf_bound).nodes.len() <= usize::MAX,
    ensures
        built(boxes, global, index, leaf_bound).tree.leaf_count() <= index.len(),
        built(boxes, global, index, leaf_bound).nodes.len() <= 2 * index.len() - 1,
{
    lemma_built(boxes, global, index, leaf_bound);
    lemma_built_size(boxes, global, index, leaf_bound);
    lemma_node_counts(built(boxes, global, index, leaf_bound).tree);
}

} // verus!
