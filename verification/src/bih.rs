//! The bounding interval hierarchy: its nodes, and how it is built.
use crate::aabb::{empty, hull, join, Aabb};
use crate::cell::{fine, midplane, Cell, UNIT};
use crate::construction::{
    attempt, build, built, first_attempt, holds_hierarchy, left_frame, lemma_attempt_progress,
    lemma_build_steps, lemma_built, lemma_step, opened, right_frame, root_frame, run,
    spec_index_of_max, vacant, Frame, Outcome, Ran,
};
use crate::partition::{
    goes_left, lemma_bounds_local, lemma_bounds_split, lemma_partition, lemma_swap_same_range,
    max_upper, min_lower, names_boxes, partition, same_outside, same_range, swapped,
};
use crate::text::{blank_string, blanks, decimal, decimal_string, digits_string};
use crate::tree::{walkable, Tree};
use crate::vec3::{max_i32, max_int, min_i32, min_int, Vec3};
use vstd::prelude::*;
use vstd::string::*;

verus! {

/// A position of the index array, or the number of an object.
pub type ObjIndex = usize;

/// An axis: 0, 1 or 2.
pub type Dim = u8;

/// A slot of the node array.
pub type NodeIndex = usize;

/// A node of the hierarchy.
///
/// A leaf holds the objects named at the positions `start..=stop` of the index
/// array. An inner node splits along `axis`: no object under `left` reaches
/// above `leftclip`, none under `right` reaches below `rightclip`.
#[derive(Clone, Copy, Debug, PartialEq, Eq, Structural)]
pub enum Node {
    Leaf { start: ObjIndex, stop: ObjIndex },
    Node { axis: Dim, leftclip: i32, rightclip: i32, left: NodeIndex, right: NodeIndex },
}

/// Partitions the positions `left_obj..=right_obj` of `index` about the plane
/// `half_dim` across `dim`, given in plane units, an object going left where
/// the centre of its box is at most the plane, and returns the first position
/// of the right part,
/// followed by four bounds along `dim`: the largest upper bound of the left
/// part, the least lower bound of the right part, and the least lower and the
/// largest upper bound of the whole range.
pub fn sort_objects(
    bboxes: &[Aabb],
    index: &mut [usize],
    half_dim: i64,
    dim: usize,
    left_obj: usize,
    right_obj: usize,
) -> (r: (ObjIndex, i32, i32, i32, i32))
    requires
        dim < 3,
        left_obj <= right_obj < old(index)@.len(),
        names_boxes(old(index)@, bboxes@.len() as int),
    ensures
        (final(index)@, r.0 as int) == partition(
            bboxes@,
            old(index)@,
            half_dim as int,
            dim as int,
            left_obj as int,
            right_obj + 1,
        ),
        left_obj <= r.0 <= right_obj + 1,
        forall|p: int| left_obj <= p < r.0 ==> goes_left(bboxes@, final(index)@, p, half_dim as int, dim as int),
        forall|p: int| r.0 <= p <= right_obj ==> !goes_left(bboxes@, final(index)@, p, half_dim as int, dim as int),
        r.1 == max_upper(bboxes@, final(index)@, dim as int, left_obj as int, r.0 as int),
        r.2 == min_lower(bboxes@, final(index)@, dim as int, r.0 as int, right_obj + 1),
        r.3 == min_lower(bboxes@, final(index)@, dim as int, left_obj as int, right_obj + 1),
        r.4 == max_upper(bboxes@, final(index)@, dim as int, left_obj as int, right_obj + 1),
        same_range(final(index)@, old(index)@, left_obj as int, right_obj + 1),
        same_outside(final(index)@, old(index)@, left_obj as int, right_obj + 1),
        names_boxes(final(index)@, bboxes@.len() as int),
{
    let ghost start = index@;
    let ghost d = dim as int;
    let ghost lo = left_obj as int;
    let ghost hi = right_obj + 1;
    let len: usize = index.len();
    let mut l: usize = left_obj;
    let mut r: usize = right_obj + 1;
    let mut lclip: i32 = i32::MIN;
    let mut rclip: i32 = i32::MAX;
    let mut lmin: i32 = i32::MAX;
    let mut rmax: i32 = i32::MIN;
    proof {
        lemma_partition(bboxes@, start, half_dim as int, d, lo, hi);
    }
    while l < r
        invariant
            dim < 3,
            d == dim as int,
            lo == left_obj as int,
            hi == right_obj + 1,
            lo <= l <= r <= hi <= index@.len(),
            index@.len() == start.len(),
            names_boxes(index@, bboxes@.len() as int),
            partition(bboxes@, index@, half_dim as int, d, l as int, r as int) == partition(
                bboxes@,
                start,
                half_dim as int,
                d,
                lo,
                hi,
            ),
            lclip == max_upper(bboxes@, index@, d, lo, l as int),
            rclip == min_lower(bboxes@, index@, d, r as int, hi),
            lmin == min_int(
                min_lower(bboxes@, index@, d, lo, l as int),
                min_lower(bboxes@, index@, d, r as int, hi),
            ),
            rmax == max_int(
                max_upper(bboxes@, index@, d, lo, l as int),
                max_upper(bboxes@, index@, d, r as int, hi),
            ),
            forall|p: int| lo <= p < l ==> goes_left(bboxes@, index@, p, half_dim as int, d),
            forall|p: int| r <= p < hi ==> !goes_left(bboxes@, index@, p, half_dim as int, d),
            same_range(index@, start, lo, hi),
            same_outside(index@, start, lo, hi),
        decreases r - l,
    {
        let obj: usize = index[l];
        let left_box = &bboxes[obj];
        let box_min: i32 = left_box.mins.get(dim);
        let box_max: i32 = left_box.maxs.get(dim);
        let twice_middle: i128 = (box_min as i128 + box_max as i128) * (UNIT as i128);
        lmin = min_i32(lmin, box_min);
        rmax = max_i32(rmax, box_max);
        if twice_middle <= 2 * (half_dim as i128) {
            proof {
                lemma_bounds_split(bboxes@, index@, d, lo, l as int, l + 1);
                assert(max_upper(bboxes@, index@, d, l as int, l as int) == i32::MIN);
                assert(min_lower(bboxes@, index@, d, l as int, l as int) == i32::MAX);
            }
            l += 1;
            lclip = max_i32(lclip, box_max);
            assert(goes_left(bboxes@, index@, l - 1, half_dim as int, d));
        } else {
            let ghost before = index@;
            let other: usize = index[r - 1];
            index[l] = other;
            index[r - 1] = obj;
            r -= 1;
            rclip = min_i32(rclip, box_min);
            proof {
                assert(index@ =~= swapped(before, l as int, r as int));
                assert forall|p: int| lo <= p < l implies goes_left(
                    bboxes@,
                    index@,
                    p,
                    half_dim as int,
                    d,
                ) by {
                    assert(goes_left(bboxes@, before, p, half_dim as int, d));
                }
                assert forall|p: int| r <= p < hi implies !goes_left(
                    bboxes@,
                    index@,
                    p,
                    half_dim as int,
                    d,
                ) by {
                    if p > r {
                        assert(!goes_left(bboxes@, before, p, half_dim as int, d));
                    }
                }
                lemma_swap_same_range(before, l as int, r as int, lo, hi);
                lemma_bounds_local(bboxes@, before, index@, d, lo, l as int);
                lemma_bounds_local(bboxes@, before, index@, d, r + 1, hi);
                lemma_bounds_split(bboxes@, index@, d, r as int, r + 1, hi);
                assert(max_upper(bboxes@, index@, d, r as int, r as int) == i32::MIN);
                assert(min_lower(bboxes@, index@, d, r as int, r as int) == i32::MAX);
                assert(max_upper(bboxes@, index@, d, r as int, r + 1) == box_max);
                assert(min_lower(bboxes@, index@, d, r as int, r + 1) == box_min);
            }
        }
    }
    proof {
        lemma_bounds_split(bboxes@, index@, d, lo, l as int, hi);
    }
    (l, lclip, rclip, lmin, rmax)
}

/// A range of positions waiting on the stack to be turned into a subtree.
#[derive(Clone, Copy, Debug)]
pub struct StackFrame {
    pub start: usize,
    pub stop: usize,
    pub bbox: Cell,
    pub node_index: ObjIndex,
}

impl StackFrame {
    /// The frame as the construction rules see it.
    pub open spec fn frame(self) -> Frame {
        Frame {
            start: self.start as int,
            stop: self.stop as int,
            bbox: self.bbox,
            slot: self.node_index as int,
        }
    }
}

/// How the attempt to split a frame ended: no axis separates the objects, or
/// one does, and `bbox` is the box of the frame as it was cut before the split.
#[derive(Clone, Copy, Debug)]
pub enum Attempt {
    GiveUp,
    Split { bbox: Cell, dim: Dim, half: i64, left_end: ObjIndex, leftclip: i32, rightclip: i32 },
}

impl Attempt {
    /// The outcome that this result and the index array left behind stand for.
    pub open spec fn outcome(self, index: Seq<usize>) -> Outcome {
        match self {
            Attempt::GiveUp => Outcome::GiveUp { index },
            Attempt::Split { bbox, dim, half, left_end, leftclip, rightclip } => Outcome::Split {
                index,
                bbox,
                dim: dim as int,
                half: half as int,
                left_end: left_end as int,
                leftclip: leftclip as int,
                rightclip: rightclip as int,
            },
        }
    }
}

/// The axis of the largest component, the lower axis winning a tie.
pub fn index_of_max(vec: &Vec3) -> (r: u8)
    ensures
        r == spec_index_of_max(*vec),
        r < 3,
{
    if vec.x >= vec.y {
        if vec.x >= vec.z {
            0
        } else {
            2
        }
    } else if vec.y >= vec.z {
        1
    } else {
        2
    }
}

/// Tries to split the range of `frame`, starting across the longest axis of
/// its box. While the objects all fall on one side, the box is cut at the
/// plane and the same axis taken again where the plane lies clear of them,
/// and the next axis is taken where it does not.
pub fn split_frame(bboxes: &[Aabb], index: &mut [usize], frame: &StackFrame) -> (r: Attempt)
    requires
        frame.start <= frame.stop < old(index)@.len(),
        names_boxes(old(index)@, bboxes@.len() as int),
    ensures
        r.outcome(final(index)@) == first_attempt(bboxes@, old(index)@, frame.frame()),
        final(index)@.len() == old(index)@.len(),
        names_boxes(final(index)@, bboxes@.len() as int),
{
    let ghost begin = index@;
    let len: usize = index.len();
    let start: usize = frame.start;
    let stop: usize = frame.stop;
    let mut bbox: Cell = frame.bbox;
    let maxdim: u8 = bbox.longest_axis();
    let mut dim: u8 = maxdim;
    let mut tried: u8 = 0;
    loop
        invariant
            begin == old(index)@,
            begin.len() == len,
            start == frame.start,
            stop == frame.stop,
            start <= stop < len,
            index@.len() == len,
            names_boxes(index@, bboxes@.len() as int),
            maxdim < 3,
            dim < 3,
            tried <= 2,
            dim == (maxdim + tried) % 3,
            attempt(
                bboxes@,
                index@,
                (Frame { bbox, ..frame.frame() }),
                dim as int,
                tried as int,
            ) == first_attempt(bboxes@, begin, frame.frame()),
        decreases 3 - tried, bbox.girth(),
    {
        let d: usize = dim as usize;
        let lower: i64 = bbox.mins.get(d);
        let upper: i64 = bbox.maxs.get(d);
        let half_dim: i64 = midplane(lower, upper);
        let ghost f = Frame { bbox, ..frame.frame() };
        let ghost before = index@;
        proof {
            lemma_step(bboxes@, before, f, dim as int, tried as int);
        }
        let (left_end, lclip, rclip, lmin, rmax) = sort_objects(bboxes, index, half_dim, d, start, stop);
        let next: u8 = (dim + 1) % 3;
        assert((next == maxdim) == (tried == 2));
        if left_end == stop + 1 {
            if fine(rmax) < half_dim && half_dim < upper {
                bbox = Cell { mins: bbox.mins, maxs: bbox.maxs.with(d, half_dim) };
            } else if next == maxdim {
                return Attempt::GiveUp;
            } else {
                dim = next;
                tried = tried + 1;
            }
        } else if left_end == start {
            if half_dim < fine(lmin) && lower < half_dim {
                bbox = Cell { mins: bbox.mins.with(d, half_dim), maxs: bbox.maxs };
            } else if next == maxdim {
                return Attempt::GiveUp;
            } else {
                dim = next;
                tried = tried + 1;
            }
        } else {
            return Attempt::Split {
                bbox,
                dim,
                half: half_dim,
                left_end,
                leftclip: lclip,
                rightclip: rclip,
            };
        }
    }
}

/// Builds the hierarchy over the objects that `index` names: reorders `index`
/// and fills `nodes`, the root in slot 0.
pub fn compute_bih(
    leaf_bound: usize,
    bboxes: &[Aabb],
    global: &Aabb,
    index: &mut [usize],
    nodes: &mut Vec<Node>,
)
    requires
        names_boxes(old(index)@, bboxes@.len() as int),
    ensures
        final(index)@ == built(bboxes@, *global, old(index)@, leaf_bound as nat).index,
        final(nodes)@ == built(bboxes@, *global, old(index)@, leaf_bound as nat).nodes,
        final(index)@.to_multiset() == old(index)@.to_multiset(),
        names_boxes(final(index)@, bboxes@.len() as int),
        holds_hierarchy(
            bboxes@,
            final(index)@,
            final(nodes)@,
            built(bboxes@, *global, old(index)@, leaf_bound as nat).tree,
        ),
        walkable(final(nodes)@, 0, final(index)@.len() as int),
{
    let ghost begin = index@;
    let ghost lb = leaf_bound as nat;
    let ghost goal = built(bboxes@, *global, begin, lb);
    let size: usize = index.len();
    *nodes = Vec::new();
    if size == 0 {
        nodes.push(Node::Leaf { start: 1, stop: 0 });
        proof {
            assert(nodes@ =~= goal.nodes);
            lemma_built(bboxes@, *global, begin, lb);
        }
        return ;
    }
    nodes.push(Node::Leaf { start: 0, stop: 0 });
    let mut stack: Vec<StackFrame> = Vec::new();
    let init_frame = StackFrame {
        start: 0,
        stop: size - 1,
        bbox: Cell::from_aabb(global),
        node_index: 0,
    };
    stack.push(init_frame);
    let ghost mut pending: Seq<Frame> = seq![init_frame.frame()];
    proof {
        assert(nodes@ =~= seq![vacant()]);
        assert(pending.drop_last() =~= Seq::<Frame>::empty());
        assert(pending.last() == root_frame(size as int, *global));
        let top = build(bboxes@, lb, pending.last(), index@, nodes@);
        assert(run(bboxes@, lb, pending.drop_last(), top.index, top.nodes).index == top.index);
    }
    loop
        invariant
            lb == leaf_bound as nat,
                index@.len() == size,
            names_boxes(index@, bboxes@.len() as int),
            pending.len() == stack@.len(),
            forall|i: int| 0 <= i < pending.len() ==> (#[trigger] stack@[i]).frame() == pending[i],
            forall|i: int|
                0 <= i < pending.len() ==> {
                    &&& (#[trigger] stack@[i]).start <= stack@[i].stop < size
                    &&& stack@[i].node_index < nodes@.len()
                },
            run(bboxes@, lb, pending, index@, nodes@).index == goal.index,
            run(bboxes@, lb, pending, index@, nodes@).nodes == goal.nodes,
        ensures
            index@ == goal.index,
            nodes@ == goal.nodes,
        decreases run(bboxes@, lb, pending, index@, nodes@).steps,
    {
        let ghost index_before = index@;
        let ghost nodes_before = nodes@;
        match stack.pop() {
            None => {
                break ;
            },
            Some(frame) => {
                let ghost f = frame.frame();
                let ghost rest = pending.drop_last();
                proof {
                    assert(f == pending.last());
                    lemma_build_steps(bboxes@, lb, f, index@, nodes@);
                    pending = rest;
                }
                let start: usize = frame.start;
                let stop: usize = frame.stop;
                if stop - start < leaf_bound {
                    nodes[frame.node_index] = Node::Leaf { start, stop };
                } else {
                    match split_frame(bboxes, index, &frame) {
                        Attempt::GiveUp => {
                            nodes[frame.node_index] = Node::Leaf { start, stop };
                        },
                        Attempt::Split { bbox, dim, half, left_end, leftclip, rightclip } => {
                            proof {
                                lemma_attempt_progress(
                                    bboxes@,
                                    index_before,
                                    f,
                                    f.bbox.longest(),
                                    0,
                                );
                            }
                            let d: usize = dim as usize;
                            let left_index: usize = nodes.len();
                            nodes.push(Node::Leaf { start: 0, stop: 0 });
                            let left = StackFrame {
                                start,
                                stop: left_end - 1,
                                bbox: Cell { mins: bbox.mins, maxs: bbox.maxs.with(d, half) },
                                node_index: left_index,
                            };
                            let right_index: usize = nodes.len();
                            nodes.push(Node::Leaf { start: 0, stop: 0 });
                            let right = StackFrame {
                                start: left_end,
                                stop,
                                bbox: Cell { mins: bbox.mins.with(d, half), maxs: bbox.maxs },
                                node_index: right_index,
                            };
                            let node = Node::Node {
                                axis: dim,
                                leftclip,
                                rightclip,
                                left: left_index,
                                right: right_index,
                            };
                            stack.push(right);
                            stack.push(left);
                            nodes[frame.node_index] = node;
                            proof {
                                pending = rest.push(right.frame()).push(left.frame());
                                assert(pending.drop_last() =~= rest.push(right.frame()));
                                assert(pending.drop_last().drop_last() =~= rest);
                                assert(nodes@ =~= opened(
                                    nodes_before,
                                    f,
                                    dim as int,
                                    leftclip as int,
                                    rightclip as int,
                                ));
                                assert(left.frame() == left_frame(
                                    f,
                                    bbox,
                                    dim as int,
                                    half as int,
                                    left_end as int,
                                    nodes_before.len() as int,
                                ));
                                assert(right.frame() == right_frame(
                                    f,
                                    bbox,
                                    dim as int,
                                    half as int,
                                    left_end as int,
                                    nodes_before.len() as int + 1,
                                ));
                                let bl = build(bboxes@, lb, left.frame(), index@, nodes@);
                                assert(run(bboxes@, lb, pending, index@, nodes@) == ({
                                    let r1 = run(
                                        bboxes@,
                                        lb,
                                        rest.push(right.frame()),
                                        bl.index,
                                        bl.nodes,
                                    );
                                    Ran {
                                        index: r1.index,
                                        nodes: r1.nodes,
                                        steps: bl.steps + r1.steps,
                                    }
                                }));
                            }
                        },
                    }
                }
            },
        }
    }
    let count: usize = nodes.len();
    proof {
        lemma_built(bboxes@, *global, begin, lb);
    }
}

/// What can be put into a hierarchy: an element that, in some state, has a box.
pub trait Elt {
    type T;

    type State;

    /// Whether the element can be measured in the state.
    spec fn measurable(state: &Self::State, elt: &Self::T) -> bool;

    /// The box of the element.
    spec fn spec_extents(state: &Self::State, elt: &Self::T) -> Aabb;

    /// Measures the element.
    fn extents(state: &Self::State, elt: &Self::T) -> (r: Aabb)
        requires
            Self::measurable(state, elt),
        ensures
            r == Self::spec_extents(state, elt),
    ;
}

/// A hierarchy: the index array that its leaves read, its nodes, the root in
/// slot 0, the boxes of the objects, and the box of them all.
pub struct BihState {
    pub index: Vec<ObjIndex>,
    pub nodes: Vec<Node>,
    pub boxes: Vec<Aabb>,
    pub global: Aabb,
}

/// The index array that names each object at its own position.
pub open spec fn identity(len: nat) -> Seq<usize> {
    Seq::new(len, |i: int| i as usize)
}

/// The boxes of the elements, in their order.
pub open spec fn boxes_of<E: Elt>(state: &E::State, objects: Seq<E::T>) -> Seq<Aabb> {
    Seq::new(objects.len(), |i: int| E::spec_extents(state, &objects[i]))
}

/// Each of `0..len` stands in the sequence, which has `len` entries, once.
pub open spec fn is_permutation(s: Seq<usize>) -> bool {
    &&& s.no_duplicates()
    &&& forall|v: usize| v < s.len() ==> #[trigger] s.contains(v)
    &&& forall|p: int| 0 <= p < s.len() ==> (#[trigger] s[p]) < s.len()
}

/// A sequence with the entries of the identity is a permutation.
pub proof fn lemma_identity_permuted(s: Seq<usize>, len: nat)
    requires
        s.to_multiset() == identity(len).to_multiset(),
        len <= usize::MAX,
    ensures
        s.len() == len,
        is_permutation(s),
{
    broadcast use vstd::seq_lib::group_to_multiset_ensures;

    let id = identity(len);
    assert(s.len() == len) by {
        assert(s.to_multiset().len() == id.to_multiset().len());
    }
    assert(id.no_duplicates());
    id.lemma_multiset_has_no_duplicates();
    s.lemma_multiset_has_no_duplicates_conv();
    assert forall|v: usize| v < s.len() implies #[trigger] s.contains(v) by {
        assert(id[v as int] == v);
        assert(id.contains(v));
        assert(id.to_multiset().count(v) > 0);
    }
    assert forall|p: int| 0 <= p < s.len() implies (#[trigger] s[p]) < s.len() by {
        assert(s.contains(s[p]));
        assert(s.to_multiset().count(s[p]) > 0);
        assert(id.contains(s[p]));
        let q = choose|q: int| 0 <= q < id.len() && id[q] == s[p];
        assert(id[q] == q as usize);
    }
}

impl BihState {
    /// The hierarchy can be walked from the root, and its index array names boxes.
    pub open spec fn wf(&self) -> bool {
        &&& names_boxes(self.index@, self.boxes@.len() as int)
        &&& walkable(self.nodes@, 0, self.index@.len() as int)
    }

    /// The hierarchy is the one built over its boxes with this leaf bound.
    pub open spec fn built_with(&self, leaf_bound: nat) -> bool {
        let b = built(self.boxes@, self.global, identity(self.boxes@.len()), leaf_bound);
        &&& self.global == hull(self.boxes@)
        &&& self.index@ == b.index
        &&& self.nodes@ == b.nodes
    }

    /// The shape of the hierarchy built over the boxes with this leaf bound.
    pub open spec fn shape(&self, leaf_bound: nat) -> Tree {
        built(self.boxes@, self.global, identity(self.boxes@.len()), leaf_bound).tree
    }
}

/// Measures the objects and builds the hierarchy over them, with at most
/// `leaf_bound` objects in a leaf wherever the objects can be told apart.
pub fn allocate<E: Elt>(state: &E::State, objects: &[E::T], leaf_bound: usize) -> (r: BihState)
    requires
        forall|i: int| 0 <= i < objects@.len() ==> E::measurable(state, #[trigger] &objects@[i]),
    ensures
        r.boxes@ == boxes_of::<E>(state, objects@),
        r.built_with(leaf_bound as nat),
        r.wf(),
        is_permutation(r.index@),
        r.index@.len() == objects@.len(),
        holds_hierarchy(r.boxes@, r.index@, r.nodes@, r.shape(leaf_bound as nat)),
{
    let size: usize = objects.len();
    let mut index: Vec<usize> = Vec::new();
    let mut boxes: Vec<Aabb> = Vec::new();
    let mut global: Aabb = empty();
    let mut i: usize = 0;
    while i < size
        invariant
            size == objects@.len(),
            i <= size,
            index@ == identity(i as nat),
            boxes@ == boxes_of::<E>(state, objects@.subrange(0, i as int)),
            global == hull(boxes@),
            forall|j: int| 0 <= j < objects@.len() ==> E::measurable(state, #[trigger] &objects@[j]),
        decreases size - i,
    {
        let aabb = E::extents(state, &objects[i]);
        let ghost before = boxes@;
        global = join(&aabb, &global);
        boxes.push(aabb);
        index.push(i);
        proof {
            assert(boxes@.drop_last() =~= before);
            assert(index@ =~= identity((i + 1) as nat));
            assert(boxes@ =~= boxes_of::<E>(state, objects@.subrange(0, i + 1)));
        }
        i += 1;
    }
    proof {
        assert(objects@.subrange(0, size as int) =~= objects@);
    }
    let mut nodes: Vec<Node> = Vec::new();
    compute_bih(leaf_bound, boxes.as_slice(), &global, index.as_mut_slice(), &mut nodes);
    proof {
        lemma_identity_permuted(index@, size as nat);
    }
    BihState { index, nodes, boxes, global }
}

/// The line of a leaf at the given depth: the blanks, then the word `Leaf`
/// and the two ends of the range by name.
pub open spec fn leaf_text(start: usize, stop: usize, depth: usize) -> Seq<char> {
    blanks(depth as nat) + "Leaf start="@ + decimal(start as int) + " stop="@ + decimal(stop as int)
        + "\n"@
}

/// The text of an inner node at the given depth, from the texts of its two
/// children: a line with the word `Node`, the axis and the clip planes by
/// name, then each child behind the blanks and its name.
pub open spec fn node_text(
    axis: u8,
    leftclip: i32,
    rightclip: i32,
    depth: usize,
    left: Seq<char>,
    right: Seq<char>,
) -> Seq<char> {
    "Node axis="@ + decimal(axis as int) + ", lclip="@ + decimal(leftclip as int) + ", rclip="@
        + decimal(rightclip as int) + "\n"@ + blanks(depth as nat) + "left="@ + left + blanks(
        depth as nat,
    ) + "right="@ + right
}

/// Writes the line of a leaf.
fn format_leaf(start: usize, stop: usize, depth: usize) -> (r: String)
    ensures
        r@ == leaf_text(start, stop, depth),
{
    let mut s = blank_string(depth);
    s.append("Leaf start=");
    s.append(digits_string(start as u64).as_str());
    s.append(" stop=");
    s.append(digits_string(stop as u64).as_str());
    s.append("\n");
    s
}

/// Writes the text of an inner node.
fn format_node(axis: u8, leftclip: i32, rightclip: i32, depth: usize, left: &String, right: &String) -> (r:
    String)
    ensures
        r@ == node_text(axis, leftclip, rightclip, depth, left@, right@),
{
    let pad = blank_string(depth);
    let mut s = String::from_str("Node axis=");
    s.append(digits_string(axis as u64).as_str());
    s.append(", lclip=");
    s.append(decimal_string(leftclip as i64).as_str());
    s.append(", rclip=");
    s.append(decimal_string(rightclip as i64).as_str());
    s.append("\n");
    s.append(pad.as_str());
    s.append("left=");
    s.append(left.as_str());
    s.append(pad.as_str());
    s.append("right=");
    s.append(right.as_str());
    s
}

/// The text of the subtree in `slot`, for a subtree that can be walked: the
/// text of a leaf, or that of an inner node over the texts of its children,
/// one level deeper.
pub open spec fn spec_debug(nodes: Seq<Node>, slot: int, depth: int) -> Seq<char>
    decreases nodes.len() - slot,
{
    if 0 <= slot < nodes.len() {
        match nodes[slot] {
            Node::Leaf { start, stop } => leaf_text(start, stop, depth as usize),
            Node::Node { axis, leftclip, rightclip, left, right } => {
                if slot < left < nodes.len() && slot < right < nodes.len() {
                    node_text(
                        axis,
                        leftclip,
                        rightclip,
                        depth as usize,
                        spec_debug(nodes, left as int, depth + 1),
                        spec_debug(nodes, right as int, depth + 1),
                    )
                } else {
                    Seq::empty()
                }
            },
        }
    } else {
        Seq::empty()
    }
}

/// Writes the subtree in slot `node_index` as text, one node to a line, each
/// level one column further in.
pub fn debug(bih: &BihState, node_index: usize, depth: usize) -> (r: String)
    requires
        walkable(bih.nodes@, node_index as int, bih.index@.len() as int),
        depth + (bih.nodes@.len() - node_index) <= usize::MAX,
    ensures
        r@ == spec_debug(bih.nodes@, node_index as int, depth as int),
    decreases bih.nodes@.len() - node_index,
{
    let node = &bih.nodes[node_index];
    match node {
        Node::Leaf { start, stop } => format_leaf(*start, *stop, depth),
        Node::Node { axis, leftclip, rightclip, left, right } => {
            let left_text = debug(bih, *left, depth + 1);
            let right_text = debug(bih, *right, depth + 1);
            format_node(*axis, *leftclip, *rightclip, depth, &left_text, &right_text)
        },
    }
}

/// Whether the subtree in `slot` can be walked.
fn can_walk(nodes: &Vec<Node>, slot: usize, positions: usize) -> (r: bool)
    ensures
        r == walkable(nodes@, slot as int, positions as int),
    decreases nodes@.len() - slot,
{
    if slot >= nodes.len() {
        return false;
    }
    match nodes[slot] {
        Node::Leaf { start, stop } => start > stop || stop < positions,
        Node::Node { axis, left, right, .. } => {
            if slot < left && left < nodes.len() && slot < right && right < nodes.len() {
                axis < 3 && can_walk(nodes, left, positions) && can_walk(nodes, right, positions)
            } else {
                false
            }
        },
    }
}

impl BihState {
    /// Tests whether the hierarchy is well formed.
    pub fn is_wf(&self) -> (r: bool)
        ensures
            r == self.wf(),
    {
        let count: usize = self.boxes.len();
        let mut p: usize = 0;
        while p < self.index.len()
            invariant
                p <= self.index@.len(),
                count == self.boxes@.len(),
                forall|q: int| 0 <= q < p ==> (#[trigger] self.index@[q]) < count,
            decreases self.index@.len() - p,
        {
            if self.index[p] >= count {
                return false;
            }
            p += 1;
        }
        can_walk(&self.nodes, 0, self.index.len())
    }

    /// The whole hierarchy as text, the root one column in.
    pub fn to_string(&self) -> (r: String)
        requires
            self.wf(),
            self.nodes@.len() < usize::MAX,
        ensures
            r@ == spec_debug(self.nodes@, 0, 1),
    {
        debug(self, 0, 1)
    }
}

} // verus!
