use render::aabb::{make, Aabb};
use render::bih::{allocate, compute_bih, index_of_max, sort_objects, split_frame, Attempt, BihState, Elt, Node, StackFrame};
use render::cell::{Cell, UNIT};
use render::vec3::Vec3;

/// The plane at `x` lattice units, in plane units.
fn plane(x: f64) -> i64 {
    (x * UNIT as f64) as i64
}

fn cell(b: Aabb) -> Cell {
    Cell::from_aabb(&b)
}

/// A box that spans `lo..=hi` along x and `0..=1` along the other two axes.
fn slab(lo: i32, hi: i32) -> Aabb {
    make(Vec3::new(lo, 0, 0), Vec3::new(hi, 1, 1))
}

fn cube(x: i32, y: i32, z: i32, side: i32) -> Aabb {
    make(Vec3::new(x, y, z), Vec3::new(x + side, y + side, z + side))
}

struct Boxes;

/// Elements that are their own boxes. The first two functions are the
/// trait's statement of what `extents` returns; no compiled code calls them.
impl Elt for Boxes {
    type T = Aabb;
    type State = ();

    fn measurable(_state: &(), _elt: &Aabb) -> bool {
        true
    }

    fn spec_extents(_state: &(), elt: &Aabb) -> Aabb {
        *elt
    }

    fn extents(_state: &(), elt: &Aabb) -> Aabb {
        *elt
    }
}

fn build(boxes: &[Aabb], leaf_bound: usize) -> BihState {
    allocate::<Boxes>(&(), boxes, leaf_bound)
}

struct Lcg(u64);

impl Lcg {
    fn next(&mut self) -> u64 {
        self.0 = self.0.wrapping_mul(6364136223846793005).wrapping_add(1442695040888963407);
        self.0 >> 33
    }

    fn between(&mut self, lo: i32, hi: i32) -> i32 {
        lo + (self.next() % ((hi - lo + 1) as u64)) as i32
    }
}

fn random_boxes(seed: u64, count: usize) -> Vec<Aabb> {
    let mut rng = Lcg(seed);
    let mut boxes = Vec::new();
    for _ in 0..count {
        let x = rng.between(-100, 100);
        let y = rng.between(-100, 100);
        let z = rng.between(-100, 100);
        let dx = rng.between(0, 20);
        let dy = rng.between(0, 20);
        let dz = rng.between(0, 20);
        boxes.push(make(Vec3::new(x, y, z), Vec3::new(x + dx, y + dy, z + dz)));
    }
    boxes
}

fn inner_nodes(bih: &BihState) -> usize {
    bih.nodes.iter().filter(|n| matches!(n, Node::Node { .. })).count()
}

/// The leaf ranges under `slot`, from left to right.
fn leaves(bih: &BihState, slot: usize, out: &mut Vec<(usize, usize)>) {
    match bih.nodes[slot] {
        Node::Leaf { start, stop } => out.push((start, stop)),
        Node::Node { left, right, .. } => {
            leaves(bih, left, out);
            leaves(bih, right, out);
        }
    }
}

/// The positions under `slot`.
fn span(bih: &BihState, slot: usize) -> (usize, usize) {
    let mut out = Vec::new();
    leaves(bih, slot, &mut out);
    (out[0].0, out[out.len() - 1].1)
}

#[test]
fn index_of_max_prefers_the_lower_axis_on_ties() {
    assert_eq!(index_of_max(&Vec3::new(3, 2, 1)), 0);
    assert_eq!(index_of_max(&Vec3::new(1, 3, 2)), 1);
    assert_eq!(index_of_max(&Vec3::new(1, 2, 3)), 2);
    assert_eq!(index_of_max(&Vec3::new(2, 2, 2)), 0);
    assert_eq!(index_of_max(&Vec3::new(1, 2, 2)), 1);
    assert_eq!(index_of_max(&Vec3::new(2, 1, 2)), 0);
    assert_eq!(index_of_max(&Vec3::new(2, 1, 3)), 2);
    assert_eq!(index_of_max(&Vec3::new(0, 0, 0)), 0);
}

#[test]
fn sort_objects_partitions_about_the_plane() {
    // centres along x: 1, 11, 3, 13, 5
    let boxes = [slab(0, 2), slab(10, 12), slab(2, 4), slab(12, 14), slab(4, 6)];
    let mut index = [0usize, 1, 2, 3, 4];
    let (left_end, lclip, rclip, lmin, rmax) = sort_objects(&boxes, &mut index, plane(7.0), 0, 0, 4);
    assert_eq!(left_end, 3);
    assert_eq!(index, [0, 4, 2, 3, 1]);
    assert_eq!(lclip, 6);
    assert_eq!(rclip, 10);
    assert_eq!(lmin, 0);
    assert_eq!(rmax, 14);
}

#[test]
fn sort_objects_counts_a_centre_on_the_plane_as_left() {
    let boxes = [slab(6, 8), slab(7, 8), slab(7, 9)];
    let mut index = [0usize, 1, 2];
    // centres 7, 7.5 and 8: only the first is at most 7
    let (left_end, lclip, rclip, lmin, rmax) = sort_objects(&boxes, &mut index, plane(7.0), 0, 0, 2);
    assert_eq!(left_end, 1);
    assert_eq!(index, [0, 2, 1]);
    assert_eq!(lclip, 8);
    assert_eq!(rclip, 7);
    assert_eq!((lmin, rmax), (6, 9));
}

#[test]
fn sort_objects_does_not_round_a_centre() {
    // every centre lies half a unit above the plane
    let boxes = [slab(2, 3), slab(0, 5), slab(-1, 6), slab(2, 3)];
    let mut index = [0usize, 1, 2, 3];
    let (left_end, lclip, rclip, _, _) = sort_objects(&boxes, &mut index, plane(2.0), 0, 0, 3);
    assert_eq!(left_end, 0);
    assert_eq!((lclip, rclip), (i32::MIN, -1));
    // and half a unit below it
    let (left_end, lclip, rclip, _, _) = sort_objects(&boxes, &mut index, plane(3.0), 0, 0, 3);
    assert_eq!(left_end, 4);
    assert_eq!((lclip, rclip), (6, i32::MAX));
    // below nought too: the centre of -3..-2 is -2.5
    let boxes = [slab(-3, -2)];
    let mut index = [0usize];
    assert_eq!(sort_objects(&boxes, &mut index, plane(-3.0), 0, 0, 0).0, 0);
    assert_eq!(sort_objects(&boxes, &mut index, plane(-2.0), 0, 0, 0).0, 1);
}

#[test]
fn sort_objects_with_everything_on_one_side() {
    let boxes = [slab(0, 2), slab(2, 4), slab(4, 6)];
    let mut index = [2usize, 0, 1];
    let (left_end, lclip, rclip, lmin, rmax) = sort_objects(&boxes, &mut index, plane(100.0), 0, 0, 2);
    assert_eq!(left_end, 3);
    assert_eq!(index, [2, 0, 1]);
    assert_eq!((lclip, rclip, lmin, rmax), (6, i32::MAX, 0, 6));
    // everything right, from position zero on
    let (left_end, lclip, rclip, lmin, rmax) = sort_objects(&boxes, &mut index, plane(-100.0), 0, 0, 2);
    assert_eq!(left_end, 0);
    assert_eq!((lclip, rclip, lmin, rmax), (i32::MIN, 0, 0, 6));
    let mut sorted = index;
    sorted.sort();
    assert_eq!(sorted, [0, 1, 2]);
}

#[test]
fn sort_objects_leaves_the_rest_of_the_index_alone() {
    let boxes = [slab(0, 2), slab(10, 12), slab(2, 4), slab(12, 14), slab(4, 6)];
    let mut index = [1usize, 3, 1, 0, 4, 2];
    let (left_end, _, _, lmin, rmax) = sort_objects(&boxes, &mut index, plane(7.0), 0, 1, 3);
    assert_eq!(left_end, 2);
    assert_eq!(index, [1, 0, 1, 3, 4, 2]);
    assert_eq!((lmin, rmax), (0, 14));
}

#[test]
fn sort_objects_reads_the_axis_asked_for() {
    let boxes = [
        make(Vec3::new(0, 10, 0), Vec3::new(1, 12, 5)),
        make(Vec3::new(0, 0, 20), Vec3::new(1, 2, 30)),
    ];
    let mut index = [0usize, 1];
    let (left_end, lclip, rclip, _, _) = sort_objects(&boxes, &mut index, plane(5.0), 1, 0, 1);
    assert_eq!((left_end, lclip, rclip), (1, 2, 10));
    assert_eq!(index, [1, 0]);
    let (left_end, lclip, rclip, _, _) = sort_objects(&boxes, &mut index, plane(10.0), 2, 0, 1);
    assert_eq!((left_end, lclip, rclip), (1, 5, 20));
    assert_eq!(index, [0, 1]);
}

#[test]
fn split_frame_splits_along_the_longest_axis() {
    let boxes = [slab(0, 2), slab(10, 12), slab(2, 4), slab(12, 14)];
    let mut index = [0usize, 1, 2, 3];
    let frame = StackFrame {
        start: 0,
        stop: 3,
        bbox: cell(make(Vec3::new(0, 0, 0), Vec3::new(14, 1, 1))),
        node_index: 0,
    };
    match split_frame(&boxes, &mut index, &frame) {
        Attempt::Split { bbox, dim, half, left_end, leftclip, rightclip } => {
            assert_eq!((dim, half, left_end, leftclip, rightclip), (0, plane(7.0), 2, 4, 10));
            assert_eq!(bbox, frame.bbox);
        }
        other => panic!("no split: {:?}", other),
    }
    assert_eq!(index, [0, 2, 3, 1]);
}

#[test]
fn split_frame_halves_a_box_that_is_too_wide() {
    // all objects sit in the lowest part of the box: it is cut at 50, 25,
    // 12.5 and 6.25 before the plane at 3.125 separates the centres 1 and 3
    // from 5
    let boxes = [slab(0, 2), slab(2, 4), slab(4, 6)];
    let mut index = [0usize, 1, 2];
    let frame = StackFrame {
        start: 0,
        stop: 2,
        bbox: cell(make(Vec3::new(0, 0, 0), Vec3::new(100, 1, 1))),
        node_index: 0,
    };
    match split_frame(&boxes, &mut index, &frame) {
        Attempt::Split { bbox, dim, half, left_end, leftclip, rightclip } => {
            assert_eq!((dim, half, left_end, leftclip, rightclip), (0, plane(3.125), 2, 4, 4));
            assert_eq!(bbox.mins, frame.bbox.mins);
            assert_eq!((bbox.maxs.x, bbox.maxs.y, bbox.maxs.z), (plane(6.25), UNIT, UNIT));
        }
        other => panic!("no split: {:?}", other),
    }
    assert_eq!(index, [0, 1, 2]);
    // and in the highest part: cut at 50, 75, 87.5 and 93.75, split at 96.875
    let boxes = [slab(94, 96), slab(96, 98), slab(98, 100)];
    let mut index = [0usize, 1, 2];
    match split_frame(&boxes, &mut index, &frame) {
        Attempt::Split { bbox, dim, half, left_end, leftclip, rightclip } => {
            assert_eq!((dim, half, left_end, leftclip, rightclip), (0, plane(96.875), 1, 96, 96));
            assert_eq!(bbox.maxs, frame.bbox.maxs);
            assert_eq!((bbox.mins.x, bbox.mins.y, bbox.mins.z), (plane(93.75), 0, 0));
        }
        other => panic!("no split: {:?}", other),
    }
    assert_eq!(index, [0, 2, 1]);
}

#[test]
fn split_frame_takes_the_same_axis_again_after_a_cut() {
    // across x the box is cut at 8 and at 4, then split at 2, though the
    // box is by then longer across y
    let boxes = [
        make(Vec3::new(0, 0, 0), Vec3::new(1, 1, 1)),
        make(Vec3::new(2, 6, 0), Vec3::new(3, 7, 1)),
    ];
    let mut index = [0usize, 1];
    let frame = StackFrame {
        start: 0,
        stop: 1,
        bbox: cell(make(Vec3::new(0, 0, 0), Vec3::new(16, 10, 1))),
        node_index: 0,
    };
    match split_frame(&boxes, &mut index, &frame) {
        Attempt::Split { dim, half, left_end, leftclip, rightclip, .. } => {
            assert_eq!((dim, half, left_end, leftclip, rightclip), (0, plane(2.0), 1, 1, 2));
        }
        other => panic!("no split: {:?}", other),
    }
}

#[test]
fn split_frame_goes_on_to_the_next_axis() {
    // along x every centre lies left of the plane but one object reaches
    // beyond it; along y the objects fall apart
    let boxes = [
        make(Vec3::new(0, 0, 0), Vec3::new(60, 2, 1)),
        make(Vec3::new(0, 8, 0), Vec3::new(10, 10, 1)),
    ];
    let mut index = [0usize, 1];
    let frame = StackFrame {
        start: 0,
        stop: 1,
        bbox: cell(make(Vec3::new(0, 0, 0), Vec3::new(100, 10, 1))),
        node_index: 0,
    };
    match split_frame(&boxes, &mut index, &frame) {
        Attempt::Split { dim, half, left_end, leftclip, rightclip, .. } => {
            assert_eq!((dim, half, left_end, leftclip, rightclip), (1, plane(5.0), 1, 2, 8));
        }
        other => panic!("no split: {:?}", other),
    }
}

#[test]
fn split_frame_gives_up_on_objects_that_no_axis_separates() {
    let boxes = [cube(0, 0, 0, 10), cube(0, 0, 0, 10), cube(0, 0, 0, 10)];
    let mut index = [0usize, 1, 2];
    let frame = StackFrame { start: 0, stop: 2, bbox: cell(cube(0, 0, 0, 10)), node_index: 0 };
    assert!(matches!(split_frame(&boxes, &mut index, &frame), Attempt::GiveUp));
}

#[test]
fn split_frame_stops_halving_where_the_planes_run_out() {
    // every centre lies at or beyond the upper face of the box 0..=1: the
    // box is halved towards that face until its faces are one plane unit
    // apart, and then no axis separates the objects
    let boxes = [
        make(Vec3::new(1, 0, 0), Vec3::new(1, 0, 0)),
        make(Vec3::new(1, 0, 0), Vec3::new(2, 0, 0)),
    ];
    let mut index = [0usize, 1];
    let frame = StackFrame {
        start: 0,
        stop: 1,
        bbox: cell(make(Vec3::new(0, 0, 0), Vec3::new(1, 0, 0))),
        node_index: 0,
    };
    assert!(matches!(split_frame(&boxes, &mut index, &frame), Attempt::GiveUp));
}

#[test]
fn split_frame_leaves_a_box_without_width_as_it_is() {
    // the objects lie below a box whose two faces across x are one plane
    let boxes = [slab(0, 1), slab(0, 2)];
    let mut index = [0usize, 1];
    let frame = StackFrame {
        start: 0,
        stop: 1,
        bbox: cell(make(Vec3::new(5, 0, 0), Vec3::new(5, 1, 1))),
        node_index: 0,
    };
    assert!(matches!(split_frame(&boxes, &mut index, &frame), Attempt::GiveUp));
}

#[test]
fn compute_bih_of_nothing_is_one_empty_leaf() {
    let boxes: [Aabb; 0] = [];
    let mut index: [usize; 0] = [];
    let mut nodes = vec![Node::Leaf { start: 7, stop: 9 }];
    compute_bih(5, &boxes, &render::aabb::empty(), &mut index, &mut nodes);
    assert_eq!(nodes, vec![Node::Leaf { start: 1, stop: 0 }]);
    let bih = build(&boxes, 1);
    assert_eq!(bih.nodes, vec![Node::Leaf { start: 1, stop: 0 }]);
    assert!(bih.index.is_empty());
    assert_eq!(bih.global, render::aabb::empty());
}

#[test]
fn compute_bih_of_few_objects_is_one_leaf() {
    let boxes = [slab(0, 2), slab(10, 12), slab(2, 4)];
    let bih = build(&boxes, 3);
    assert_eq!(bih.nodes, vec![Node::Leaf { start: 0, stop: 2 }]);
    assert_eq!(bih.index, vec![0, 1, 2]);
    let bih = build(&boxes[..1], 1);
    assert_eq!(bih.nodes, vec![Node::Leaf { start: 0, stop: 0 }]);
}

#[test]
fn compute_bih_lays_children_out_as_they_are_allocated() {
    // centres along x: 1, 11, 5, 15
    let boxes = [slab(0, 2), slab(10, 12), slab(4, 6), slab(14, 16)];
    let bih = build(&boxes, 1);
    assert_eq!(bih.global, make(Vec3::new(0, 0, 0), Vec3::new(16, 1, 1)));
    assert_eq!(bih.index, vec![0, 2, 1, 3]);
    assert_eq!(
        bih.nodes,
        vec![
            Node::Node { axis: 0, leftclip: 6, rightclip: 10, left: 1, right: 2 },
            Node::Node { axis: 0, leftclip: 2, rightclip: 4, left: 3, right: 4 },
            Node::Node { axis: 0, leftclip: 12, rightclip: 14, left: 5, right: 6 },
            Node::Leaf { start: 0, stop: 0 },
            Node::Leaf { start: 1, stop: 1 },
            Node::Leaf { start: 2, stop: 2 },
            Node::Leaf { start: 3, stop: 3 },
        ]
    );
}

#[test]
fn a_range_that_no_plane_separates_stays_a_leaf() {
    // below the root, the objects with centres 1 and 3 both lie left of the
    // plane at 3.5, and one of them reaches beyond it
    let boxes = [slab(0, 2), slab(10, 12), slab(2, 4), slab(12, 14)];
    let bih = build(&boxes, 1);
    assert_eq!(
        bih.nodes,
        vec![
            Node::Node { axis: 0, leftclip: 4, rightclip: 10, left: 1, right: 2 },
            Node::Leaf { start: 0, stop: 1 },
            Node::Leaf { start: 2, stop: 3 },
        ]
    );
}

#[test]
fn compute_bih_with_leaf_bound_two() {
    let boxes = [slab(0, 2), slab(10, 12), slab(2, 4), slab(12, 14)];
    let bih = build(&boxes, 2);
    assert_eq!(
        bih.nodes,
        vec![
            Node::Node { axis: 0, leftclip: 4, rightclip: 10, left: 1, right: 2 },
            Node::Leaf { start: 0, stop: 1 },
            Node::Leaf { start: 2, stop: 3 },
        ]
    );
}

#[test]
fn compute_bih_takes_the_box_it_is_given() {
    // the objects lie in the lowest part of the box given: the box is halved
    // (100, 50, 25, 12) until its plane, at 6, separates them
    let boxes = [slab(0, 2), slab(8, 10)];
    let mut index = [0usize, 1];
    let mut nodes = Vec::new();
    let wide = make(Vec3::new(0, 0, 0), Vec3::new(100, 1, 1));
    compute_bih(1, &boxes, &wide, &mut index, &mut nodes);
    assert_eq!(
        nodes,
        vec![
            Node::Node { axis: 0, leftclip: 2, rightclip: 8, left: 1, right: 2 },
            Node::Leaf { start: 0, stop: 0 },
            Node::Leaf { start: 1, stop: 1 },
        ]
    );
}

#[test]
fn compute_bih_splits_between_centres_half_a_unit_apart_from_the_plane() {
    // the box given is halved once, to 0..=4; the plane, at 2, lies between
    // the centres 0.5 and 2.5
    let boxes = [cube(0, 0, 0, 1), make(Vec3::new(2, 0, 0), Vec3::new(3, 1, 1))];
    let mut index = [0usize, 1];
    let mut nodes = Vec::new();
    let wide = make(Vec3::new(0, 0, 0), Vec3::new(8, 1, 1));
    compute_bih(1, &boxes, &wide, &mut index, &mut nodes);
    let split = vec![
        Node::Node { axis: 0, leftclip: 1, rightclip: 2, left: 1, right: 2 },
        Node::Leaf { start: 0, stop: 0 },
        Node::Leaf { start: 1, stop: 1 },
    ];
    assert_eq!(nodes, split);
    assert_eq!(index, [0, 1]);
    // as with the box that fits
    let fit = make(Vec3::new(0, 0, 0), Vec3::new(3, 1, 1));
    let mut index = [0usize, 1];
    compute_bih(1, &boxes, &fit, &mut index, &mut nodes);
    assert_eq!(nodes, split);
}

#[test]
fn equal_boxes_with_a_plane_between_lattice_points_stay_in_their_order() {
    // the plane lies at 0.5 across every axis, and so do both centres
    let boxes = [cube(0, 0, 0, 1), cube(0, 0, 0, 1)];
    let mut index = [0usize, 1];
    let mut nodes = Vec::new();
    compute_bih(1, &boxes, &cube(0, 0, 0, 1), &mut index, &mut nodes);
    assert_eq!(nodes, vec![Node::Leaf { start: 0, stop: 1 }]);
    assert_eq!(index, [0, 1]);
}

#[test]
fn a_centre_below_a_plane_between_lattice_points_goes_left() {
    // centres 0.5 and 0 across x, the plane at 0.5: no axis separates them
    let boxes = [cube(0, 0, 0, 1), make(Vec3::new(0, 0, 0), Vec3::new(0, 1, 1))];
    let mut index = [0usize, 1];
    let mut nodes = Vec::new();
    compute_bih(1, &boxes, &cube(0, 0, 0, 1), &mut index, &mut nodes);
    assert_eq!(nodes, vec![Node::Leaf { start: 0, stop: 1 }]);
    assert_eq!(index, [0, 1]);
    // centres 1 and 2 in the box 0..=3: the plane at 1.5 separates them
    let boxes = [slab(0, 2), slab(1, 3)];
    let bih = build(&boxes, 1);
    assert_eq!(
        bih.nodes,
        vec![
            Node::Node { axis: 0, leftclip: 2, rightclip: 1, left: 1, right: 2 },
            Node::Leaf { start: 0, stop: 0 },
            Node::Leaf { start: 1, stop: 1 },
        ]
    );
}

#[test]
fn compute_bih_takes_the_same_axis_again_after_a_cut() {
    let boxes = [
        make(Vec3::new(0, 0, 0), Vec3::new(1, 1, 1)),
        make(Vec3::new(2, 6, 0), Vec3::new(3, 7, 1)),
    ];
    let mut index = [0usize, 1];
    let mut nodes = Vec::new();
    let wide = make(Vec3::new(0, 0, 0), Vec3::new(16, 10, 1));
    compute_bih(1, &boxes, &wide, &mut index, &mut nodes);
    assert_eq!(
        nodes,
        vec![
            Node::Node { axis: 0, leftclip: 1, rightclip: 2, left: 1, right: 2 },
            Node::Leaf { start: 0, stop: 0 },
            Node::Leaf { start: 1, stop: 1 },
        ]
    );
}

#[test]
fn compute_bih_reads_boxes_through_the_index() {
    let boxes = [slab(0, 2), slab(10, 12), slab(20, 22)];
    // only the boxes 2 and 0 are named
    let mut index = [2usize, 0];
    let mut nodes = Vec::new();
    let global = make(Vec3::new(0, 0, 0), Vec3::new(22, 1, 1));
    compute_bih(1, &boxes, &global, &mut index, &mut nodes);
    assert_eq!(index, [0, 2]);
    assert_eq!(
        nodes,
        vec![
            Node::Node { axis: 0, leftclip: 2, rightclip: 20, left: 1, right: 2 },
            Node::Leaf { start: 0, stop: 0 },
            Node::Leaf { start: 1, stop: 1 },
        ]
    );
}

#[test]
fn identical_objects_end_in_one_leaf() {
    let boxes = vec![cube(3, 3, 3, 4); 9];
    let bih = build(&boxes, 1);
    assert_eq!(bih.nodes, vec![Node::Leaf { start: 0, stop: 8 }]);
    let mut sorted = bih.index.clone();
    sorted.sort();
    assert_eq!(sorted, (0..9).collect::<Vec<usize>>());
}

#[test]
fn overlapping_children_have_crossed_clip_planes() {
    let boxes = [slab(0, 9), slab(5, 14)];
    let bih = build(&boxes, 1);
    assert_eq!(
        bih.nodes[0],
        Node::Node { axis: 0, leftclip: 9, rightclip: 5, left: 1, right: 2 }
    );
}

#[test]
fn index_is_a_permutation_after_every_build() {
    for seed in 0..20u64 {
        for count in [0usize, 1, 2, 3, 7, 40, 133] {
            for leaf_bound in [1usize, 2, 5, 200] {
                let boxes = random_boxes(seed * 31 + count as u64, count);
                let bih = build(&boxes, leaf_bound);
                let mut sorted = bih.index.clone();
                sorted.sort();
                assert_eq!(sorted, (0..count).collect::<Vec<usize>>());
            }
        }
    }
}

#[test]
fn leaves_cover_every_position_once() {
    for seed in 0..20u64 {
        for count in [1usize, 2, 3, 7, 40, 133] {
            for leaf_bound in [1usize, 2, 5] {
                let boxes = random_boxes(seed * 17 + count as u64, count);
                let bih = build(&boxes, leaf_bound);
                let mut ranges = Vec::new();
                leaves(&bih, 0, &mut ranges);
                let mut next = 0usize;
                for (start, stop) in ranges.iter() {
                    assert_eq!(*start, next);
                    assert!(start <= stop);
                    next = stop + 1;
                }
                assert_eq!(next, count);
                // one slot for each node, none to spare
                assert_eq!(bih.nodes.len(), 2 * ranges.len() - 1);
                assert!(bih.nodes.len() <= 2 * count - 1);
            }
        }
    }
}

#[test]
fn children_follow_their_parent_side_by_side() {
    let boxes = random_boxes(5, 200);
    let bih = build(&boxes, 2);
    for (slot, node) in bih.nodes.iter().enumerate() {
        if let Node::Node { axis, left, right, .. } = node {
            assert!(*axis < 3);
            assert!(slot < *left);
            assert_eq!(*right, *left + 1);
            assert!(*right < bih.nodes.len());
        }
    }
}

#[test]
fn clip_planes_are_tight() {
    for seed in 0..10u64 {
        let boxes = random_boxes(seed + 1000, 60);
        let bih = build(&boxes, 2);
        for node in bih.nodes.iter() {
            if let Node::Node { axis, leftclip, rightclip, left, right } = node {
                let d = *axis as usize;
                let (llo, lhi) = span(&bih, *left);
                let (rlo, rhi) = span(&bih, *right);
                let upper = (llo..=lhi).map(|p| boxes[bih.index[p]].maxs.get(d)).max().unwrap();
                let lower = (rlo..=rhi).map(|p| boxes[bih.index[p]].mins.get(d)).min().unwrap();
                assert_eq!(*leftclip, upper);
                assert_eq!(*rightclip, lower);
            }
        }
    }
}

#[test]
fn a_larger_leaf_bound_never_gives_more_inner_nodes() {
    for seed in 0..10u64 {
        let boxes = random_boxes(seed + 77, 90);
        let mut last = usize::MAX;
        for leaf_bound in 1..=95usize {
            let count = inner_nodes(&build(&boxes, leaf_bound));
            assert!(count <= last);
            last = count;
        }
        assert_eq!(last, 0);
    }
}

#[test]
fn building_twice_gives_the_same_hierarchy() {
    let boxes = random_boxes(4242, 150);
    let first = build(&boxes, 3);
    let second = build(&boxes, 3);
    assert_eq!(first.index, second.index);
    assert_eq!(first.nodes, second.nodes);
    assert_eq!(first.global, second.global);
    assert_eq!(first.boxes, second.boxes);
}

#[test]
fn allocate_joins_the_boxes_in_the_global_box() {
    let boxes = [cube(0, 0, 0, 1), cube(-5, 2, 9, 3), cube(4, -8, 1, 2)];
    let bih = build(&boxes, 1);
    assert_eq!(bih.global, make(Vec3::new(-5, -8, 0), Vec3::new(6, 5, 12)));
    assert_eq!(bih.boxes, boxes.to_vec());
}

#[test]
fn extreme_boxes_are_built_without_overflow() {
    let boxes = [
        make(Vec3::broadcast(i32::MIN), Vec3::broadcast(i32::MIN)),
        make(Vec3::broadcast(i32::MAX), Vec3::broadcast(i32::MAX)),
        make(Vec3::broadcast(i32::MIN), Vec3::broadcast(i32::MAX)),
        make(Vec3::broadcast(-1), Vec3::broadcast(0)),
    ];
    let bih = build(&boxes, 1);
    let mut sorted = bih.index.clone();
    sorted.sort();
    assert_eq!(sorted, vec![0, 1, 2, 3]);
    let mut ranges = Vec::new();
    leaves(&bih, 0, &mut ranges);
    assert_eq!(ranges.iter().map(|(a, b)| b - a + 1).sum::<usize>(), 4);
}

#[test]
fn a_leaf_bound_of_nought_splits_as_far_as_planes_separate() {
    let boxes = [slab(0, 2), slab(10, 12), slab(4, 6), slab(14, 16)];
    let none = build(&boxes, 0);
    let one = build(&boxes, 1);
    assert_eq!(none.nodes, one.nodes);
    assert_eq!(none.index, one.index);
    let single = build(&boxes[..1], 0);
    assert_eq!(single.nodes, vec![Node::Leaf { start: 0, stop: 0 }]);
}

#[test]
fn the_hierarchy_checks_itself() {
    let boxes = random_boxes(3, 50);
    let mut bih = build(&boxes, 2);
    assert!(bih.is_wf());
    let root = bih.nodes[0];
    // a child that does not follow its parent
    bih.nodes[0] = Node::Node { axis: 0, leftclip: 0, rightclip: 0, left: 0, right: 1 };
    assert!(!bih.is_wf());
    // an axis that is none
    bih.nodes[0] = match root {
        Node::Node { leftclip, rightclip, left, right, .. } => {
            Node::Node { axis: 3, leftclip, rightclip, left, right }
        }
        leaf => leaf,
    };
    assert!(!bih.is_wf());
    bih.nodes[0] = root;
    assert!(bih.is_wf());
    // a leaf beyond the index array
    let last = bih.nodes.len() - 1;
    bih.nodes[last] = Node::Leaf { start: 0, stop: 50 };
    assert!(!bih.is_wf());
    bih.nodes[last] = Node::Leaf { start: 5, stop: 4 };
    assert!(bih.is_wf());
    // an entry of the index array that names no box
    bih.index[7] = 50;
    assert!(!bih.is_wf());
}
