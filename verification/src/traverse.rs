//! Nearest-hit queries: the walk down a hierarchy, and the test of a leaf.
use crate::bih::{BihState, Node};
use crate::partition::names_boxes;
use crate::ratio::{mul_within, Frac, Ratio};
use crate::scene::Scene;
use crate::tree::walkable;
use crate::triaccel::{triaccel_intersect, TriAccel};
use crate::types::{hit_view, new_hit, zero_frac, Hit, HitModel, Ray};
use vstd::prelude::*;

verus! {

/// The hit of the ray on triangle `obj` between `tmin` and `tmax`, if there is one.
pub open spec fn tested(tris: Seq<TriAccel>, obj: int, ray: Ray, tmin: Frac, tmax: Frac) -> Option<
    HitModel,
> {
    if tris[obj].hits(ray, tmin, tmax) {
        Some(
            HitModel {
                t: tris[obj].hit_t(ray),
                u: zero_frac(),
                v: zero_frac(),
                dot: tris[obj].hit_dot(ray),
                tri: obj,
            },
        )
    } else {
        None
    }
}

/// The candidate where it is closer than the best hit so far, else the best so far.
pub open spec fn closer(best: Option<HitModel>, candidate: Option<HitModel>) -> Option<HitModel> {
    match (best, candidate) {
        (_, None) => best,
        (None, Some(_)) => candidate,
        (Some(b), Some(c)) => if c.t.lt(b.t) {
            candidate
        } else {
            best
        },
    }
}

/// The closest hit among the triangles named at the positions `lo..hi`, the
/// first such position winning among equally close hits.
pub open spec fn nearest_in(
    tris: Seq<TriAccel>,
    index: Seq<usize>,
    ray: Ray,
    tmin: Frac,
    tmax: Frac,
    lo: int,
    hi: int,
) -> Option<HitModel>
    decreases hi - lo,
{
    if hi <= lo {
        None
    } else {
        closer(
            nearest_in(tris, index, ray, tmin, tmax, lo, hi - 1),
            tested(tris, index[hi - 1] as int, ray, tmin, tmax),
        )
    }
}

/// Whether the ray is at or below the plane `clip` at parameter `t`, along an
/// axis where it starts at `origin` and moves by `dir`.
pub open spec fn at_or_below(origin: int, dir: int, t: Frac, clip: int) -> bool {
    (origin - clip) * t.den + dir * t.num <= 0
}

/// Whether the ray is at or above the plane `clip` at parameter `t`.
pub open spec fn at_or_above(origin: int, dir: int, t: Frac, clip: int) -> bool {
    (origin - clip) * t.den + dir * t.num >= 0
}

/// The parameter at which the ray crosses the plane `clip`, for a ray that moves
/// along the axis.
pub open spec fn crossing(origin: int, dir: int, clip: int) -> Frac {
    Frac::signed(clip - origin, dir)
}

/// The end of the interval inside the near child: the crossing of its clip
/// plane or `tmax`, whichever comes first. A ray that does not move along the
/// axis never crosses.
pub open spec fn far_clip(origin: int, dir: int, clip: int, tmax: Frac) -> Frac {
    if dir == 0 {
        tmax
    } else {
        crossing(origin, dir, clip).min(tmax)
    }
}

/// The start of the interval inside the far child: the crossing of its clip
/// plane or `tmin`, whichever comes last.
pub open spec fn near_clip(origin: int, dir: int, clip: int, tmin: Frac) -> Frac {
    if dir == 0 {
        tmin
    } else {
        crossing(origin, dir, clip).max(tmin)
    }
}

/// The closer of two hits, the second one where they are equally close.
pub open spec fn merged(first: Option<HitModel>, second: Option<HitModel>) -> Option<HitModel> {
    match (first, second) {
        (None, _) => second,
        (_, None) => first,
        (Some(x), Some(y)) => if x.t.lt(y.t) {
            first
        } else {
            second
        },
    }
}

/// Whether the ray, at the start of the interval, has not yet passed the
/// clip plane of the child it comes to first.
pub open spec fn enters(origin: int, dir: int, tmin: Frac, plane: int) -> bool {
    if dir >= 0 {
        at_or_below(origin, dir, tmin, plane)
    } else {
        at_or_above(origin, dir, tmin, plane)
    }
}

/// Whether the ray, at the end of the interval, has come to the clip plane of
/// the child it comes to last.
pub open spec fn reaches(origin: int, dir: int, tmax: Frac, plane: int) -> bool {
    if dir >= 0 {
        at_or_above(origin, dir, tmax, plane)
    } else {
        at_or_below(origin, dir, tmax, plane)
    }
}

/// The answer at an inner node, from the answers `first` and `second` of the
/// child the ray comes to first and of the other one.
///
/// A child that the ray does not come to within the interval is left out.
/// Where the clip planes leave a gap, a hit in the first child settles the
/// matter; where they overlap, the closer of the two hits is the answer.
pub open spec fn decide(
    enter: bool,
    reach: bool,
    gap: bool,
    first: Option<HitModel>,
    second: Option<HitModel>,
) -> Option<HitModel> {
    if enter {
        if gap {
            if first is Some || !reach {
                first
            } else {
                second
            }
        } else if reach {
            merged(first, second)
        } else {
            first
        }
    } else if reach {
        second
    } else {
        None
    }
}

/// The hit that the walk from `slot` returns for the ray between `tmin` and `tmax`.
///
/// An empty interval gives no hit. A leaf gives the closest hit among its
/// triangles. At an inner node the ray comes first to the left child if it
/// does not go down along the axis, else to the right child. The first child
/// is walked up to its clip plane, the other one from its clip plane on, and
/// `decide` gives the answer.
pub open spec fn spec_traverse(
    tris: Seq<TriAccel>,
    index: Seq<usize>,
    nodes: Seq<Node>,
    slot: int,
    ray: Ray,
    tmin: Frac,
    tmax: Frac,
) -> Option<HitModel>
    decreases nodes.len() - slot,
{
    if !(0 <= slot < nodes.len()) || !tmin.lt(tmax) {
        None
    } else {
        match nodes[slot] {
            Node::Leaf { start, stop } => nearest_in(tris, index, ray, tmin, tmax, start as int, stop + 1),
            Node::Node { axis, leftclip, rightclip, left, right } => {
                if !(slot < left < nodes.len() && slot < right < nodes.len()) {
                    None
                } else {
                    let o = ray.origin.at(axis as int);
                    let d = ray.normal.at(axis as int);
                    let (near, near_plane, far, far_plane) = if d >= 0 {
                        (left as int, leftclip as int, right as int, rightclip as int)
                    } else {
                        (right as int, rightclip as int, left as int, leftclip as int)
                    };
                    decide(
                        enters(o, d, tmin, near_plane),
                        reaches(o, d, tmax, far_plane),
                        leftclip <= rightclip,
                        spec_traverse(
                            tris,
                            index,
                            nodes,
                            near,
                            ray,
                            tmin,
                            far_clip(o, d, near_plane, tmax),
                        ),
                        spec_traverse(
                            tris,
                            index,
                            nodes,
                            far,
                            ray,
                            near_clip(o, d, far_plane, tmin),
                            tmax,
                        ),
                    )
                }
            },
        }
    }
}

/// Tests the triangles named at the positions `tri_start..=tri_end` of `index`
/// and returns the closest hit between `tmin` and `tmax`.
pub fn intersect_ray(
    scene: &Scene,
    index: &[usize],
    ray: &Ray,
    tmin: Ratio,
    tmax: Ratio,
    tri_start: &usize,
    tri_end: &usize,
) -> (r: Option<Hit>)
    requires
        *tri_start > *tri_end || *tri_end < index@.len(),
        names_boxes(index@, scene.triaccels@.len() as int),
        scene.triaccels@.len() <= u32::MAX,
        forall|i: int| 0 <= i < scene.triaccels@.len() ==> (#[trigger] scene.triaccels@[i]).wf(),
        ray.in_range(),
    ensures
        hit_view(r) == nearest_in(
            scene.triaccels@,
            index@,
            *ray,
            tmin@,
            tmax@,
            *tri_start as int,
            *tri_end + 1,
        ),
        r matches Some(hit) ==> hit.t.wf(),
{
    let mut min_hit: Option<Hit> = None;
    let stop: usize = *tri_end;
    let mut pos: usize = *tri_start;
    let len: usize = index.len();
    while pos <= stop
        invariant
            stop == *tri_end,
            *tri_start > stop || stop < len,
            len == index@.len(),
            *tri_start <= pos,
            *tri_start <= stop ==> pos <= stop + 1,
            *tri_start > stop ==> pos == *tri_start,
            names_boxes(index@, scene.triaccels@.len() as int),
            scene.triaccels@.len() <= u32::MAX,
            forall|i: int| 0 <= i < scene.triaccels@.len() ==> (#[trigger] scene.triaccels@[i]).wf(),
            ray.in_range(),
            hit_view(min_hit) == nearest_in(
                scene.triaccels@,
                index@,
                *ray,
                tmin@,
                tmax@,
                *tri_start as int,
                pos as int,
            ),
            min_hit matches Some(hit) ==> hit.t.wf(),
        decreases stop + 1 - pos,
    {
        let i: usize = index[pos];
        let triaccel = &scene.triaccels[i];
        let mut hit = new_hit();
        hit.tri = i as u32;
        let found: bool = triaccel_intersect(triaccel, ray, tmin, tmax, &mut hit);
        if found {
            let better: bool = match min_hit {
                None => true,
                Some(best) => hit.t.lt(&best.t),
            };
            if better {
                min_hit = Some(hit);
            }
        }
        pos += 1;
    }
    min_hit
}

/// `(origin - clip) * t.den + dir * t.num`: its sign tells on which side of
/// the plane `clip` the ray is at parameter `t`.
fn side_of_plane(origin: i32, dir: i32, t: &Ratio, clip: i32) -> (r: i128)
    ensures
        r == (origin - clip) * t.den + dir * t.num,
{
    let gap: i128 = origin as i128 - clip as i128;
    mul_within(gap, t.den as i128, Ghost(0x1_0000_0000int), Ghost(0x8000_0000_0000_0000int))
        + mul_within(
        dir as i128,
        t.num as i128,
        Ghost(0x1_0000_0000int),
        Ghost(0x8000_0000_0000_0000int),
    )
}

/// The parameter at which a ray that moves along the axis crosses the plane `clip`.
fn crossing_of(origin: i32, dir: i32, clip: i32) -> (r: Ratio)
    requires
        dir != 0,
    ensures
        r@ == crossing(origin as int, dir as int, clip as int),
        r.wf(),
{
    let num: i64 = clip as i64 - origin as i64;
    if dir > 0 {
        Ratio { num, den: dir as i64 }
    } else {
        Ratio { num: -num, den: -(dir as i64) }
    }
}

fn far_clip_of(origin: i32, dir: i32, clip: i32, tmax: Ratio) -> (r: Ratio)
    ensures
        r@ == far_clip(origin as int, dir as int, clip as int, tmax@),
{
    if dir == 0 {
        tmax
    } else {
        crossing_of(origin, dir, clip).min(tmax)
    }
}

fn near_clip_of(origin: i32, dir: i32, clip: i32, tmin: Ratio) -> (r: Ratio)
    ensures
        r@ == near_clip(origin as int, dir as int, clip as int, tmin@),
{
    if dir == 0 {
        tmin
    } else {
        crossing_of(origin, dir, clip).max(tmin)
    }
}

/// The closer of two hits, the second one where they are equally close.
fn merge(first: Option<Hit>, second: Option<Hit>) -> (r: Option<Hit>)
    ensures
        hit_view(r) == merged(hit_view(first), hit_view(second)),
{
    match (first, second) {
        (None, None) => None,
        (None, Some(y)) => Some(y),
        (Some(x), None) => Some(x),
        (Some(x), Some(y)) => {
            if x.t.lt(&y.t) {
                Some(x)
            } else {
                Some(y)
            }
        },
    }
}

/// Returns the closest hit of the ray between `tmin` and `tmax` that the walk
/// from the node in slot `node_index` finds.
pub fn traverse(
    scene: &Scene,
    bih: &BihState,
    node_index: usize,
    ray: &Ray,
    tmin: Ratio,
    tmax: Ratio,
) -> (r: Option<Hit>)
    requires
        walkable(bih.nodes@, node_index as int, bih.index@.len() as int),
        names_boxes(bih.index@, scene.triaccels@.len() as int),
        scene.triaccels@.len() <= u32::MAX,
        forall|i: int| 0 <= i < scene.triaccels@.len() ==> (#[trigger] scene.triaccels@[i]).wf(),
        ray.in_range(),
    ensures
        hit_view(r) == spec_traverse(
            scene.triaccels@,
            bih.index@,
            bih.nodes@,
            node_index as int,
            *ray,
            tmin@,
            tmax@,
        ),
    decreases bih.nodes@.len() - node_index,
{
    let node = &bih.nodes[node_index];
    if !tmin.lt(&tmax) {
        return None;
    }
    match node {
        Node::Leaf { start, stop } => {
            intersect_ray(scene, bih.index.as_slice(), ray, tmin, tmax, start, stop)
        },
        Node::Node { axis, leftclip, rightclip, left, right } => {
            let dim: usize = *axis as usize;
            let o: i32 = ray.origin.get(dim);
            let d: i32 = ray.normal.get(dim);
            if d >= 0 {
                // going left to right: first left, then right
                if side_of_plane(o, d, &tmin, *leftclip) <= 0 {
                    let far = far_clip_of(o, d, *leftclip, tmax);
                    let left_hit = traverse(scene, bih, *left, ray, tmin, far);
                    if *leftclip <= *rightclip {
                        // a gap: the right child only after a miss in the left one
                        match left_hit {
                            None => {
                                if side_of_plane(o, d, &tmax, *rightclip) >= 0 {
                                    let near = near_clip_of(o, d, *rightclip, tmin);
                                    traverse(scene, bih, *right, ray, near, tmax)
                                } else {
                                    None
                                }
                            },
                            Some(_) => left_hit,
                        }
                    } else if side_of_plane(o, d, &tmax, *rightclip) >= 0 {
                        // an overlap: both children, and the closer hit
                        let near = near_clip_of(o, d, *rightclip, tmin);
                        let right_hit = traverse(scene, bih, *right, ray, near, tmax);
                        merge(left_hit, right_hit)
                    } else {
                        left_hit
                    }
                } else if side_of_plane(o, d, &tmax, *rightclip) >= 0 {
                    let near = near_clip_of(o, d, *rightclip, tmin);
                    traverse(scene, bih, *right, ray, near, tmax)
                } else {
                    None
                }
            } else {
                // going right to left: first right, then left
                if side_of_plane(o, d, &tmin, *rightclip) >= 0 {
                    let far = far_clip_of(o, d, *rightclip, tmax);
                    let right_hit = traverse(scene, bih, *right, ray, tmin, far);
                    if *leftclip <= *rightclip {
                        match right_hit {
                            None => {
                                if side_of_plane(o, d, &tmax, *leftclip) <= 0 {
                                    let near = near_clip_of(o, d, *leftclip, tmin);
                                    traverse(scene, bih, *left, ray, near, tmax)
                                } else {
                                    None
                                }
                            },
                            Some(_) => right_hit,
                        }
                    } else if side_of_plane(o, d, &tmax, *leftclip) <= 0 {
                        let near = near_clip_of(o, d, *leftclip, tmin);
                        let left_hit = traverse(scene, bih, *left, ray, near, tmax);
                        merge(right_hit, left_hit)
                    } else {
                        right_hit
                    }
                } else if side_of_plane(o, d, &tmax, *leftclip) <= 0 {
                    let near = near_clip_of(o, d, *leftclip, tmin);
                    traverse(scene, bih, *left, ray, near, tmax)
                } else {
                    None
                }
            }
        },
    }
}

/// Building twice over the same boxes with the same leaf bound gives the same
/// index array and the same node array, and the walk from the root gives the
/// same answer on both, for every ray and interval.
pub proof fn lemma_rebuild_same_answer(
    first: BihState,
    second: BihState,
    leaf_bound: nat,
    tris: Seq<TriAccel>,
    ray: Ray,
    tmin: Frac,
    tmax: Frac,
)
    requires
        first.boxes@ == second.boxes@,
        first.built_with(leaf_bound),
        second.built_with(leaf_bound),
    ensures
        first.global == second.global,
        first.index@ == second.index@,
        first.nodes@ == second.nodes@,
        spec_traverse(tris, first.index@, first.nodes@, 0, ray, tmin, tmax) == spec_traverse(
            tris,
            second.index@,
            second.nodes@,
            0,
            ray,
            tmin,
            tmax,
        ),
{
}

} // verus!
