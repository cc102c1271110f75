use render::aabb::{make, Aabb, DisplayVec3};
use render::bih::{allocate, debug, BihState, Elt};
use render::vec3::Vec3;

struct Boxes;

/// Elements that are their own boxes. The first two functions are the
/// trait's statement of what `extents` returns; no compiled code calls them.
impl Elt for Boxes {
    type T = Aabb;
    type State = ();

    fn measurable(_state: &(), _elt: &Aabb) -> bool {
        true
    }

    fn spec_extents(_state: &(), elt: &Aabb) -> Aabb {
        *elt
    }

    fn extents(_state: &(), elt: &Aabb) -> Aabb {
        *elt
    }
}

fn slab(lo: i32, hi: i32) -> Aabb {
    make(Vec3::new(lo, 0, 0), Vec3::new(hi, 1, 1))
}

fn build(boxes: &[Aabb], leaf_bound: usize) -> BihState {
    allocate::<Boxes>(&(), boxes, leaf_bound)
}

#[test]
fn a_vector_is_written_in_round_brackets() {
    assert_eq!(DisplayVec3(Vec3::new(1, -2, 30)).to_string(), "(1, -2, 30)");
}

#[test]
fn a_box_is_written_with_both_corners() {
    let b = make(Vec3::new(0, 0, 0), Vec3::new(1, 2, 3));
    assert_eq!(b.to_string(), "{ mins=(0, 0, 0); maxs=(1, 2, 3)}");
}

#[test]
fn a_leaf_is_written_behind_its_depth() {
    let bih = build(&[slab(0, 2), slab(4, 6)], 2);
    assert_eq!(debug(&bih, 0, 0), "Leaf start=0 stop=1\n");
    assert_eq!(debug(&bih, 0, 3), "   Leaf start=0 stop=1\n");
    assert_eq!(bih.to_string(), " Leaf start=0 stop=1\n");
}

#[test]
fn an_inner_node_is_written_over_its_children() {
    let bih = build(&[slab(0, 2), slab(10, 12), slab(2, 4), slab(12, 14)], 2);
    assert_eq!(
        bih.to_string(),
        "Node axis=0, lclip=4, rclip=10\n left=  Leaf start=0 stop=1\n right=  Leaf start=2 stop=3\n"
    );
    assert_eq!(debug(&bih, 2, 0), "Leaf start=2 stop=3\n");
}

#[test]
fn negative_clip_planes_are_written_with_their_sign() {
    let bih = build(&[slab(-20, -12), slab(-8, -2)], 1);
    assert_eq!(
        debug(&bih, 0, 0),
        "Node axis=0, lclip=-12, rclip=-8\nleft= Leaf start=0 stop=0\nright= Leaf start=1 stop=1\n"
    );
}

#[test]
fn a_leaf_far_down_is_written_behind_as_many_blanks() {
    let bih = build(&[slab(0, 2), slab(4, 6)], 2);
    let text = debug(&bih, 0, 70000);
    assert_eq!(text.len(), 70000 + "Leaf start=0 stop=1\n".len());
    assert!(text.starts_with("     "));
    assert!(text.ends_with(" Leaf start=0 stop=1\n"));
}

#[test]
fn extreme_numbers_are_written_in_full() {
    assert_eq!(
        DisplayVec3(Vec3::new(i32::MIN, i32::MAX, 0)).to_string(),
        "(-2147483648, 2147483647, 0)"
    );
    assert_eq!(DisplayVec3(Vec3::new(-1, 10, -100)).to_string(), "(-1, 10, -100)");
}
