//! Why the walk down a hierarchy finds the closest hit.
use crate::aabb::Aabb;
use crate::bih::{identity, is_permutation, BihState, Node};
use crate::construction::holds_hierarchy;
use crate::geometry::lemma_hit_in_box;
use crate::scene::{spec_in_buffer, spec_triangle_aabb, spec_triangle_accel, Scene};
use crate::partition::{lemma_bounds_meaning, names_boxes};
use crate::ratio::{lemma_frac_order, Frac};
use crate::traverse::{
    closer, crossing, decide, enters, far_clip, merged, near_clip, nearest_in, reaches,
    spec_traverse, tested,
};
use crate::tree::{encodes, Tree};
use crate::triaccel::TriAccel;
use crate::types::{HitModel, Ray};
use vstd::prelude::*;

verus! {

/// The position of the ray along an axis at parameter `t`, less the plane
/// `clip`, times the denominator of `t`: its sign tells the side of the plane.
pub open spec fn height(origin: int, dir: int, t: Frac, clip: int) -> int {
    (origin - clip) * t.den + dir * t.num
}

/// The height over a higher plane is lower.
pub proof fn lemma_height_clip(origin: int, dir: int, t: Frac, low: int, high: int)
    requires
        t.wf(),
        low <= high,
    ensures
        height(origin, dir, t, high) <= height(origin, dir, t, low),
        low < high ==> height(origin, dir, t, high) < height(origin, dir, t, low),
{
    let den = t.den;
    assert((origin - high) * den <= (origin - low) * den) by (nonlinear_arith)
        requires
            den > 0,
            low <= high,
    ;
    assert(low < high ==> (origin - high) * den < (origin - low) * den) by (nonlinear_arith)
        requires
            den > 0,
    ;
}

/// Along an axis on which the ray does not go down, the ray is no higher at
/// an earlier parameter.
pub proof fn lemma_height_rising(origin: int, dir: int, early: Frac, late: Frac, clip: int)
    requires
        early.wf(),
        late.wf(),
        early.le(late),
        dir >= 0,
    ensures
        height(origin, dir, late, clip) <= 0 ==> height(origin, dir, early, clip) <= 0,
        height(origin, dir, late, clip) < 0 ==> height(origin, dir, early, clip) < 0,
        height(origin, dir, early, clip) >= 0 ==> height(origin, dir, late, clip) >= 0,
        height(origin, dir, early, clip) > 0 ==> height(origin, dir, late, clip) > 0,
{
    let he = height(origin, dir, early, clip);
    let hl = height(origin, dir, late, clip);
    let (en, ed, ln, ld) = (early.num, early.den, late.num, late.den);
    let g = origin - clip;
    assert(he * ld <= hl * ed) by (nonlinear_arith)
        requires
            he == g * ed + dir * en,
            hl == g * ld + dir * ln,
            en * ld <= ln * ed,
            dir >= 0,
    {
        assert(dir * (en * ld) <= dir * (ln * ed));
        assert(he * ld == g * ed * ld + dir * (en * ld));
        assert(hl * ed == g * ld * ed + dir * (ln * ed));
    }
    lemma_sign_transfer(he, ld, hl, ed);
}

/// Along an axis on which the ray does not go up, the ray is no lower at an
/// earlier parameter.
pub proof fn lemma_height_falling(origin: int, dir: int, early: Frac, late: Frac, clip: int)
    requires
        early.wf(),
        late.wf(),
        early.le(late),
        dir <= 0,
    ensures
        height(origin, dir, late, clip) >= 0 ==> height(origin, dir, early, clip) >= 0,
        height(origin, dir, late, clip) > 0 ==> height(origin, dir, early, clip) > 0,
        height(origin, dir, early, clip) <= 0 ==> height(origin, dir, late, clip) <= 0,
        height(origin, dir, early, clip) < 0 ==> height(origin, dir, late, clip) < 0,
{
    let he = height(origin, dir, early, clip);
    let hl = height(origin, dir, late, clip);
    let (en, ed, ln, ld) = (early.num, early.den, late.num, late.den);
    let g = origin - clip;
    assert(hl * ed <= he * ld) by (nonlinear_arith)
        requires
            he == g * ed + dir * en,
            hl == g * ld + dir * ln,
            en * ld <= ln * ed,
            dir <= 0,
    {
        assert(dir * (ln * ed) <= dir * (en * ld));
        assert(he * ld == g * ed * ld + dir * (en * ld));
        assert(hl * ed == g * ld * ed + dir * (ln * ed));
    }
    lemma_sign_transfer(hl, ed, he, ld);
}

/// From `x * p <= y * q` with positive `p` and `q`: the sign of `y` bounds that of `x`.
pub proof fn lemma_sign_transfer(x: int, p: int, y: int, q: int)
    requires
        p > 0,
        q > 0,
        x * p <= y * q,
    ensures
        y <= 0 ==> x <= 0,
        y < 0 ==> x < 0,
        x >= 0 ==> y >= 0,
        x > 0 ==> y > 0,
{
    assert(y <= 0 ==> x <= 0) by (nonlinear_arith)
        requires
            p > 0,
            q > 0,
            x * p <= y * q,
    ;
    assert(y < 0 ==> x < 0) by (nonlinear_arith)
        requires
            p > 0,
            q > 0,
            x * p <= y * q,
    ;
}

/// Where the ray goes up along an axis, it is below a plane before it crosses
/// it and above after; where it goes down, the other way round.
pub proof fn lemma_crossing(origin: int, dir: int, t: Frac, clip: int)
    requires
        t.wf(),
        dir != 0,
    ensures
        crossing(origin, dir, clip).wf(),
        dir > 0 ==> (t.le(crossing(origin, dir, clip)) <==> height(origin, dir, t, clip) <= 0),
        dir > 0 ==> (crossing(origin, dir, clip).le(t) <==> height(origin, dir, t, clip) >= 0),
        dir > 0 ==> (t.lt(crossing(origin, dir, clip)) <==> height(origin, dir, t, clip) < 0),
        dir > 0 ==> (crossing(origin, dir, clip).lt(t) <==> height(origin, dir, t, clip) > 0),
        dir < 0 ==> (t.le(crossing(origin, dir, clip)) <==> height(origin, dir, t, clip) >= 0),
        dir < 0 ==> (crossing(origin, dir, clip).le(t) <==> height(origin, dir, t, clip) <= 0),
        dir < 0 ==> (t.lt(crossing(origin, dir, clip)) <==> height(origin, dir, t, clip) > 0),
        dir < 0 ==> (crossing(origin, dir, clip).lt(t) <==> height(origin, dir, t, clip) < 0),
{
    let (n, den) = (t.num, t.den);
    let h = height(origin, dir, t, clip);
    if dir > 0 {
        assert(h == n * dir - (clip - origin) * den) by (nonlinear_arith)
            requires
                h == (origin - clip) * den + dir * n,
        ;
    } else {
        assert(h == (origin - clip) * den - n * (-dir)) by (nonlinear_arith)
            requires
                h == (origin - clip) * den + dir * n,
        ;
        assert(-(clip - origin) == origin - clip);
    }
}

/// Whether `h` is the hit of the ray, between `tmin` and `tmax`, on a triangle
/// named at one of the positions `lo..=hi`.
pub open spec fn found_in(
    tris: Seq<TriAccel>,
    index: Seq<usize>,
    ray: Ray,
    tmin: Frac,
    tmax: Frac,
    lo: int,
    hi: int,
    h: HitModel,
) -> bool {
    exists|p: int| lo <= p <= hi && tested(tris, #[trigger] index[p] as int, ray, tmin, tmax) == Some(h)
}

/// The parameter of a hit is a well-formed fraction.
pub proof fn lemma_tested_wf(tris: Seq<TriAccel>, obj: int, ray: Ray, tmin: Frac, tmax: Frac)
    ensures
        tested(tris, obj, ray, tmin, tmax) matches Some(h) ==> h.t.wf() && h.t == tris[obj].hit_t(ray),
{
}

/// A hit within an interval is a hit within every interval around it.
pub proof fn lemma_tested_widen(
    tris: Seq<TriAccel>,
    obj: int,
    ray: Ray,
    tmin: Frac,
    tmax: Frac,
    wmin: Frac,
    wmax: Frac,
)
    requires
        tmin.wf(),
        tmax.wf(),
        wmin.wf(),
        wmax.wf(),
        wmin.le(tmin),
        tmax.le(wmax),
        tested(tris, obj, ray, tmin, tmax) is Some,
    ensures
        tested(tris, obj, ray, wmin, wmax) == tested(tris, obj, ray, tmin, tmax),
{
    let t = tris[obj].hit_t(ray);
    lemma_frac_order(t, wmin, tmin);
    lemma_frac_order(tmax, wmax, t);
    lemma_frac_order(wmax, t, tmax);
}

/// What is found in a range within an interval is found in every range and
/// interval around them.
pub proof fn lemma_found_widen(
    tris: Seq<TriAccel>,
    index: Seq<usize>,
    ray: Ray,
    tmin: Frac,
    tmax: Frac,
    lo: int,
    hi: int,
    h: HitModel,
    wmin: Frac,
    wmax: Frac,
    wlo: int,
    whi: int,
)
    requires
        tmin.wf(),
        tmax.wf(),
        wmin.wf(),
        wmax.wf(),
        wmin.le(tmin),
        tmax.le(wmax),
        wlo <= lo,
        hi <= whi,
        found_in(tris, index, ray, tmin, tmax, lo, hi, h),
    ensures
        found_in(tris, index, ray, wmin, wmax, wlo, whi, h),
{
    let p = choose|p: int|
        lo <= p <= hi && tested(tris, #[trigger] index[p] as int, ray, tmin, tmax) == Some(h);
    lemma_tested_widen(tris, index[p] as int, ray, tmin, tmax, wmin, wmax);
}

/// What testing each triangle of a range in turn returns: nothing where no
/// triangle is hit, else a hit on a triangle of the range that is no farther
/// than any hit on a triangle of the range.
pub proof fn lemma_nearest_in(
    tris: Seq<TriAccel>,
    index: Seq<usize>,
    ray: Ray,
    tmin: Frac,
    tmax: Frac,
    lo: int,
    hi: int,
)
    ensures
        nearest_in(tris, index, ray, tmin, tmax, lo, hi) is None <==> forall|p: int|
            lo <= p < hi ==> !(#[trigger] tris[index[p] as int]).hits(ray, tmin, tmax),
        nearest_in(tris, index, ray, tmin, tmax, lo, hi) matches Some(h) ==> {
            &&& found_in(tris, index, ray, tmin, tmax, lo, hi - 1, h)
            &&& forall|p: int|
                lo <= p < hi && (#[trigger] tris[index[p] as int]).hits(ray, tmin, tmax) ==> h.t.le(
                    tris[index[p] as int].hit_t(ray),
                )
        },
    decreases hi - lo,
{
    if hi > lo {
        lemma_nearest_in(tris, index, ray, tmin, tmax, lo, hi - 1);
        let before = nearest_in(tris, index, ray, tmin, tmax, lo, hi - 1);
        let last = tested(tris, index[hi - 1] as int, ray, tmin, tmax);
        let now = nearest_in(tris, index, ray, tmin, tmax, lo, hi);
        assert(now == closer(before, last));
        match now {
            None => {
                assert(before is None && last is None);
            },
            Some(h) => {
                if now == before {
                    let q = choose|q: int|
                        lo <= q <= hi - 2 && tested(tris, #[trigger] index[q] as int, ray, tmin, tmax)
                            == Some(h);
                    assert(lo <= q <= hi - 1 && tested(tris, index[q] as int, ray, tmin, tmax) == Some(h));
                } else {
                    assert(tested(tris, index[hi - 1] as int, ray, tmin, tmax) == Some(h));
                }
                assert(found_in(tris, index, ray, tmin, tmax, lo, hi - 1, h));
                assert forall|p: int|
                    lo <= p < hi && (#[trigger] tris[index[p] as int]).hits(
                        ray,
                        tmin,
                        tmax,
                    ) implies h.t.le(tris[index[p] as int].hit_t(ray)) by {
                    let tp = tris[index[p] as int].hit_t(ray);
                    if before is Some && last is Some {
                        lemma_frac_order(last->Some_0.t, before->Some_0.t, tp);
                        lemma_frac_order(before->Some_0.t, last->Some_0.t, tp);
                    } else if before is Some {
                        lemma_frac_order(before->Some_0.t, tp, tp);
                    } else {
                        lemma_frac_order(last->Some_0.t, tp, tp);
                    }
                }
            },
        }
    }
}

/// The end of the interval inside the near child is a well-formed fraction,
/// no later than `tmax` and than the crossing of the plane.
pub proof fn lemma_far_clip(origin: int, dir: int, clip: int, tmax: Frac)
    requires
        tmax.wf(),
    ensures
        far_clip(origin, dir, clip, tmax).wf(),
        far_clip(origin, dir, clip, tmax).le(tmax),
        dir != 0 ==> far_clip(origin, dir, clip, tmax).le(crossing(origin, dir, clip)),
{
    let c = crossing(origin, dir, clip);
    if dir != 0 {
        lemma_frac_order(c, tmax, tmax);
    } else {
        lemma_frac_order(tmax, tmax, tmax);
    }
}

/// The start of the interval inside the far child is a well-formed fraction,
/// no earlier than `tmin` and than the crossing of the plane.
pub proof fn lemma_near_clip(origin: int, dir: int, clip: int, tmin: Frac)
    requires
        tmin.wf(),
    ensures
        near_clip(origin, dir, clip, tmin).wf(),
        tmin.le(near_clip(origin, dir, clip, tmin)),
        dir != 0 ==> crossing(origin, dir, clip).le(near_clip(origin, dir, clip, tmin)),
{
    let c = crossing(origin, dir, clip);
    if dir != 0 {
        lemma_frac_order(c, tmin, tmin);
    } else {
        lemma_frac_order(tmin, tmin, tmin);
    }
}

/// The walk reports no hit that is not there: what it returns is the hit of
/// the ray, within the interval, on a triangle that the subtree holds.
pub proof fn lemma_walk_sound(
    tris: Seq<TriAccel>,
    index: Seq<usize>,
    nodes: Seq<Node>,
    t: Tree,
    ray: Ray,
    tmin: Frac,
    tmax: Frac,
)
    requires
        encodes(nodes, t),
        t.partitions(),
        tmin.wf(),
        tmax.wf(),
    ensures
        spec_traverse(tris, index, nodes, t.slot(), ray, tmin, tmax) matches Some(h) ==> found_in(
            tris,
            index,
            ray,
            tmin,
            tmax,
            t.lo(),
            t.hi(),
            h,
        ),
    decreases t,
{
    let out = spec_traverse(tris, index, nodes, t.slot(), ray, tmin, tmax);
    if out is Some {
        let h = out->Some_0;
        lemma_frac_order(tmin, tmax, tmax);
        match t {
            Tree::Leaf { slot, lo, hi } => {
                lemma_nearest_in(tris, index, ray, tmin, tmax, lo, hi + 1);
            },
            Tree::Node { slot, lo, hi, axis, leftclip, rightclip, left, right } => {
                let o = ray.origin.at(axis);
                let d = ray.normal.at(axis);
                let far_l = far_clip(o, d, leftclip, tmax);
                let far_r = far_clip(o, d, rightclip, tmax);
                let near_l = near_clip(o, d, leftclip, tmin);
                let near_r = near_clip(o, d, rightclip, tmin);
                lemma_far_clip(o, d, leftclip, tmax);
                lemma_far_clip(o, d, rightclip, tmax);
                lemma_near_clip(o, d, leftclip, tmin);
                lemma_near_clip(o, d, rightclip, tmin);
                let (l_min, l_max, r_min, r_max) = if d >= 0 {
                    (tmin, far_l, near_r, tmax)
                } else {
                    (near_l, tmax, tmin, far_r)
                };
                let l_hit = spec_traverse(tris, index, nodes, left.slot(), ray, l_min, l_max);
                let r_hit = spec_traverse(tris, index, nodes, right.slot(), ray, r_min, r_max);
                lemma_walk_sound(tris, index, nodes, *left, ray, l_min, l_max);
                lemma_walk_sound(tris, index, nodes, *right, ray, r_min, r_max);
                assert(out == l_hit || out == r_hit);
                if out == l_hit {
                    lemma_found_widen(
                        tris,
                        index,
                        ray,
                        l_min,
                        l_max,
                        left.lo(),
                        left.hi(),
                        h,
                        tmin,
                        tmax,
                        lo,
                        hi,
                    );
                } else {
                    lemma_found_widen(
                        tris,
                        index,
                        ray,
                        r_min,
                        r_max,
                        right.lo(),
                        right.hi(),
                        h,
                        tmin,
                        tmax,
                        lo,
                        hi,
                    );
                }
            },
        }
    }
}

/// How far the ray has passed the plane at parameter `t`, counted in the
/// direction in which it moves along the axis, times the denominator of `t`.
pub open spec fn past(origin: int, dir: int, t: Frac, plane: int) -> int {
    if dir >= 0 {
        height(origin, dir, t, plane)
    } else {
        -height(origin, dir, t, plane)
    }
}

/// The ray never moves back: what it has passed at a parameter it has passed
/// at every later one.
pub proof fn lemma_past_time(origin: int, dir: int, early: Frac, late: Frac, plane: int)
    requires
        early.wf(),
        late.wf(),
        early.le(late),
    ensures
        past(origin, dir, late, plane) <= 0 ==> past(origin, dir, early, plane) <= 0,
        past(origin, dir, late, plane) < 0 ==> past(origin, dir, early, plane) < 0,
        past(origin, dir, early, plane) >= 0 ==> past(origin, dir, late, plane) >= 0,
        past(origin, dir, early, plane) > 0 ==> past(origin, dir, late, plane) > 0,
{
    if dir >= 0 {
        lemma_height_rising(origin, dir, early, late, plane);
    } else {
        lemma_height_falling(origin, dir, early, late, plane);
    }
}

/// A ray that moves along the axis has passed a plane from the crossing on.
pub proof fn lemma_past_crossing(origin: int, dir: int, t: Frac, plane: int)
    requires
        t.wf(),
        dir != 0,
    ensures
        crossing(origin, dir, plane).wf(),
        t.le(crossing(origin, dir, plane)) <==> past(origin, dir, t, plane) <= 0,
        crossing(origin, dir, plane).le(t) <==> past(origin, dir, t, plane) >= 0,
        t.lt(crossing(origin, dir, plane)) <==> past(origin, dir, t, plane) < 0,
        crossing(origin, dir, plane).lt(t) <==> past(origin, dir, t, plane) > 0,
{
    lemma_crossing(origin, dir, t, plane);
}

/// The plane of the child that the ray comes to first, and that of the other.
pub open spec fn planes(dir: int, leftclip: int, rightclip: int) -> (int, int) {
    if dir >= 0 {
        (leftclip, rightclip)
    } else {
        (rightclip, leftclip)
    }
}

/// Where the clip planes leave a gap, the ray passes the plane of the first
/// child before that of the other.
pub proof fn lemma_gap_order(origin: int, dir: int, t: Frac, leftclip: int, rightclip: int)
    requires
        t.wf(),
        leftclip <= rightclip,
    ensures
        past(origin, dir, t, planes(dir, leftclip, rightclip).1) <= past(
            origin,
            dir,
            t,
            planes(dir, leftclip, rightclip).0,
        ),
{
    lemma_height_clip(origin, dir, t, leftclip, rightclip);
}

/// A hit at or before the plane of the first child lies no later than the end
/// of the interval that the walk gives that child, and the walk goes there.
pub proof fn lemma_first_child(origin: int, dir: int, plane: int, tmin: Frac, tmax: Frac, tau: Frac)
    requires
        tmin.wf(),
        tmax.wf(),
        tau.wf(),
        !tau.lt(tmin),
        !tmax.lt(tau),
        past(origin, dir, tau, plane) <= 0,
    ensures
        enters(origin, dir, tmin, plane),
        far_clip(origin, dir, plane, tmax).wf(),
        !far_clip(origin, dir, plane, tmax).lt(tau),
{
    lemma_frac_order(tmin, tau, tmax);
    lemma_frac_order(tau, tmin, tmax);
    lemma_past_time(origin, dir, tmin, tau, plane);
    lemma_far_clip(origin, dir, plane, tmax);
    if dir != 0 {
        let c = crossing(origin, dir, plane);
        lemma_past_crossing(origin, dir, tau, plane);
        lemma_frac_order(tau, c, tmax);
        lemma_frac_order(c, tau, tmax);
    }
}

/// A hit at or past the plane of the second child lies no earlier than the
/// start of the interval that the walk gives that child, and the walk can go
/// there.
pub proof fn lemma_second_child(origin: int, dir: int, plane: int, tmin: Frac, tmax: Frac, tau: Frac)
    requires
        tmin.wf(),
        tmax.wf(),
        tau.wf(),
        !tau.lt(tmin),
        !tmax.lt(tau),
        past(origin, dir, tau, plane) >= 0,
    ensures
        reaches(origin, dir, tmax, plane),
        near_clip(origin, dir, plane, tmin).wf(),
        !tau.lt(near_clip(origin, dir, plane, tmin)),
{
    lemma_frac_order(tmin, tau, tmax);
    lemma_frac_order(tau, tmin, tmax);
    lemma_frac_order(tau, tmax, tmax);
    lemma_past_time(origin, dir, tau, tmax, plane);
    lemma_near_clip(origin, dir, plane, tmin);
    if dir != 0 {
        let c = crossing(origin, dir, plane);
        lemma_past_crossing(origin, dir, tau, plane);
        lemma_frac_order(tau, c, tmin);
        lemma_frac_order(c, tmin, tau);
    }
}

/// Across a gap, a point at or before the plane of the first child is no
/// later on the ray than a point at or past the plane of the second child,
/// unless the ray runs within that plane.
pub proof fn lemma_across_gap(
    origin: int,
    dir: int,
    leftclip: int,
    rightclip: int,
    x: Frac,
    tau: Frac,
)
    requires
        x.wf(),
        tau.wf(),
        leftclip <= rightclip,
        past(origin, dir, x, planes(dir, leftclip, rightclip).0) <= 0,
        past(origin, dir, tau, planes(dir, leftclip, rightclip).1) >= 0,
        dir != 0 || past(origin, dir, tau, planes(dir, leftclip, rightclip).1) != 0,
    ensures
        x.le(tau),
{
    let far_plane = planes(dir, leftclip, rightclip).1;
    lemma_gap_order(origin, dir, x, leftclip, rightclip);
    if dir != 0 {
        let c = crossing(origin, dir, far_plane);
        lemma_past_crossing(origin, dir, x, far_plane);
        lemma_past_crossing(origin, dir, tau, far_plane);
        lemma_frac_order(x, c, tau);
    } else {
        lemma_frac_order(x, tau, tau);
        lemma_frac_order(tau, x, x);
        if tau.le(x) {
            lemma_past_time(origin, dir, tau, x, far_plane);
        }
    }
}

/// The closer of two hits is no farther than either.
pub proof fn lemma_merged(first: Option<HitModel>, second: Option<HitModel>)
    requires
        first matches Some(x) ==> x.t.wf(),
        second matches Some(y) ==> y.t.wf(),
    ensures
        first is Some || second is Some ==> merged(first, second) is Some,
        merged(first, second) == first || merged(first, second) == second,
        first matches Some(x) ==> merged(first, second)->Some_0.t.le(x.t),
        second matches Some(y) ==> merged(first, second)->Some_0.t.le(y.t),
{
    if first is Some && second is Some {
        lemma_frac_order(first->Some_0.t, second->Some_0.t, second->Some_0.t);
        lemma_frac_order(second->Some_0.t, first->Some_0.t, first->Some_0.t);
    } else if first is Some {
        lemma_frac_order(first->Some_0.t, first->Some_0.t, first->Some_0.t);
    } else if second is Some {
        lemma_frac_order(second->Some_0.t, second->Some_0.t, second->Some_0.t);
    }
}

/// Whether the point where the ray meets triangle `i`, if it meets it, lies
/// within box `i` along the axis.
pub open spec fn inside(tris: Seq<TriAccel>, boxes: Seq<Aabb>, ray: Ray, i: int, axis: int) -> bool {
    let t = tris[i].hit_t(ray);
    let o = ray.origin.at(axis);
    let d = ray.normal.at(axis);
    tris[i].struck(ray) ==> height(o, d, t, boxes[i].mins.at(axis)) >= 0 && height(
        o,
        d,
        t,
        boxes[i].maxs.at(axis),
    ) <= 0
}

/// Each triangle lies in its box, as far as the ray can tell: the point where
/// the ray meets a triangle lies within the box of that triangle.
pub open spec fn boxed(tris: Seq<TriAccel>, boxes: Seq<Aabb>, ray: Ray) -> bool {
    forall|i: int, axis: int|
        0 <= i < tris.len() && 0 <= axis < 3 ==> #[trigger] inside(tris, boxes, ray, i, axis)
}

/// The way of the walk to position `p` stays open for a hit at parameter
/// `tau`: the interval handed down at each node from the root to the leaf
/// that holds `p` is not empty. And where the walk would pass over the child
/// that holds `p` after a hit in the other one, across a gap, the ray does
/// not run within the clip plane of that child.
pub open spec fn open_to(t: Tree, ray: Ray, tmin: Frac, tmax: Frac, tau: Frac, p: int) -> bool
    decreases t,
{
    &&& tmin.lt(tmax)
    &&& match t {
        Tree::Leaf { .. } => true,
        Tree::Node { axis, leftclip, rightclip, left, right, .. } => {
            let o = ray.origin.at(axis);
            let d = ray.normal.at(axis);
            let (near_plane, far_plane) = planes(d, leftclip, rightclip);
            let (near, far) = if d >= 0 {
                (*left, *right)
            } else {
                (*right, *left)
            };
            if near.lo() <= p <= near.hi() {
                open_to(near, ray, tmin, far_clip(o, d, near_plane, tmax), tau, p)
            } else {
                &&& !(d == 0 && leftclip <= rightclip && height(o, d, tau, far_plane) == 0)
                &&& open_to(far, ray, near_clip(o, d, far_plane, tmin), tmax, tau, p)
            }
        },
    }
}

/// The hit is on a triangle that the tree holds at a position to which the
/// way of the walk stays open.
pub open spec fn reached(t: Tree, index: Seq<usize>, ray: Ray, tmin: Frac, tmax: Frac, h: HitModel) -> bool {
    exists|p: int|
        t.lo() <= p <= t.hi() && #[trigger] index[p] == h.tri && open_to(t, ray, tmin, tmax, h.t, p)
}

/// Where the ray meets a triangle of the left child it has not passed the
/// left clip plane, and where it meets one of the right child it has come to
/// the right clip plane.
pub proof fn lemma_child_side(
    tris: Seq<TriAccel>,
    boxes: Seq<Aabb>,
    index: Seq<usize>,
    t: Tree,
    ray: Ray,
    q: int,
)
    requires
        t is Node,
        t.partitions(),
        t.clipped(boxes, index),
        0 <= t.lo(),
        t.hi() < index.len(),
        t.lo() <= q <= t.hi(),
        names_boxes(index, boxes.len() as int),
        boxes.len() == tris.len(),
        boxed(tris, boxes, ray),
        tris[index[q] as int].struck(ray),
    ensures
        ({
            let axis = t->Node_axis;
            let o = ray.origin.at(axis);
            let d = ray.normal.at(axis);
            let tau = tris[index[q] as int].hit_t(ray);
            &&& tau.wf()
            &&& q <= t->Node_left.hi() ==> height(o, d, tau, t->Node_leftclip) <= 0
            &&& q >= t->Node_right.lo() ==> height(o, d, tau, t->Node_rightclip) >= 0
            &&& q <= t->Node_left.hi() || q >= t->Node_right.lo()
        }),
{
    let axis = t->Node_axis;
    let left = t->Node_left;
    let right = t->Node_right;
    let o = ray.origin.at(axis);
    let d = ray.normal.at(axis);
    let obj = index[q] as int;
    let tau = tris[obj].hit_t(ray);
    assert(inside(tris, boxes, ray, obj, axis));
    lemma_bounds_meaning(boxes, index, axis, left.lo(), left.hi() + 1);
    lemma_bounds_meaning(boxes, index, axis, right.lo(), right.hi() + 1);
    if q <= left.hi() {
        assert(boxes[index[q] as int].maxs.at(axis) <= t->Node_leftclip);
        lemma_height_clip(o, d, tau, boxes[obj].maxs.at(axis), t->Node_leftclip);
    } else {
        assert(boxes[index[q] as int].mins.at(axis) >= t->Node_rightclip);
        lemma_height_clip(o, d, tau, t->Node_rightclip, boxes[obj].mins.at(axis));
    }
}

/// The walk misses no hit to which its way stays open: where the ray meets
/// the triangle named at position `p` of the subtree within the interval,
/// and no interval handed down towards `p` is empty, the walk returns a hit
/// that is no farther.
pub proof fn lemma_walk_finds(
    tris: Seq<TriAccel>,
    boxes: Seq<Aabb>,
    index: Seq<usize>,
    nodes: Seq<Node>,
    t: Tree,
    ray: Ray,
    tmin: Frac,
    tmax: Frac,
    p: int,
)
    requires
        encodes(nodes, t),
        t.partitions(),
        t.clipped(boxes, index),
        0 <= t.lo(),
        t.hi() < index.len(),
        names_boxes(index, boxes.len() as int),
        boxes.len() == tris.len(),
        boxed(tris, boxes, ray),
        tmin.wf(),
        tmax.wf(),
        t.lo() <= p <= t.hi(),
        tris[index[p] as int].hits(ray, tmin, tmax),
        open_to(t, ray, tmin, tmax, tris[index[p] as int].hit_t(ray), p),
    ensures
        spec_traverse(tris, index, nodes, t.slot(), ray, tmin, tmax) matches Some(h) && h.t.le(
            tris[index[p] as int].hit_t(ray),
        ),
    decreases t,
{
    let out = spec_traverse(tris, index, nodes, t.slot(), ray, tmin, tmax);
    let tau = tris[index[p] as int].hit_t(ray);
    match t {
        Tree::Leaf { slot, lo, hi } => {
            lemma_nearest_in(tris, index, ray, tmin, tmax, lo, hi + 1);
        },
        Tree::Node { slot, lo, hi, axis, leftclip, rightclip, left, right } => {
            let o = ray.origin.at(axis);
            let d = ray.normal.at(axis);
            let (near_plane, far_plane) = planes(d, leftclip, rightclip);
            let (near, far) = if d >= 0 {
                (*left, *right)
            } else {
                (*right, *left)
            };
            let far_end = far_clip(o, d, near_plane, tmax);
            let near_end = near_clip(o, d, far_plane, tmin);
            let first = spec_traverse(tris, index, nodes, near.slot(), ray, tmin, far_end);
            let second = spec_traverse(tris, index, nodes, far.slot(), ray, near_end, tmax);
            let enter = enters(o, d, tmin, near_plane);
            let reach = reaches(o, d, tmax, far_plane);
            assert(out == decide(enter, reach, leftclip <= rightclip, first, second));
            lemma_far_clip(o, d, near_plane, tmax);
            lemma_near_clip(o, d, far_plane, tmin);
            lemma_walk_sound(tris, index, nodes, near, ray, tmin, far_end);
            lemma_walk_sound(tris, index, nodes, far, ray, near_end, tmax);
            lemma_child_side(tris, boxes, index, t, ray, p);
            if first is Some {
                let hf = first->Some_0;
                let q = choose|q: int|
                    near.lo() <= q <= near.hi() && tested(
                        tris,
                        #[trigger] index[q] as int,
                        ray,
                        tmin,
                        far_end,
                    ) == Some(hf);
                lemma_child_side(tris, boxes, index, t, ray, q);
                assert(hf.t.wf());
                assert(past(o, d, hf.t, near_plane) <= 0);
            }
            if second is Some {
                let hs = second->Some_0;
                let q = choose|q: int|
                    far.lo() <= q <= far.hi() && tested(
                        tris,
                        #[trigger] index[q] as int,
                        ray,
                        near_end,
                        tmax,
                    ) == Some(hs);
                lemma_tested_wf(tris, index[q] as int, ray, near_end, tmax);
                assert(hs.t.wf());
            }
            lemma_merged(first, second);
            if near.lo() <= p <= near.hi() {
                assert(past(o, d, tau, near_plane) <= 0);
                lemma_first_child(o, d, near_plane, tmin, tmax, tau);
                lemma_walk_finds(tris, boxes, index, nodes, near, ray, tmin, far_end, p);
                let hf = first->Some_0;
                if out != first {
                    assert(out == merged(first, second));
                    lemma_frac_order(out->Some_0.t, hf.t, tau);
                }
            } else {
                assert(far.lo() <= p <= far.hi());
                assert(past(o, d, tau, far_plane) >= 0);
                lemma_second_child(o, d, far_plane, tmin, tmax, tau);
                lemma_walk_finds(tris, boxes, index, nodes, far, ray, near_end, tmax, p);
                let hs = second->Some_0;
                if out == second {
                } else if enter && leftclip <= rightclip {
                    assert(out == first && first is Some);
                    lemma_across_gap(o, d, leftclip, rightclip, first->Some_0.t, tau);
                } else {
                    assert(out == merged(first, second));
                    lemma_frac_order(out->Some_0.t, hs.t, tau);
                }
            }
        },
    }
}

/// In a well-formed scene each triangle lies in its box, as far as any ray
/// can tell.
pub proof fn lemma_scene_boxed(scene: Scene, ray: Ray)
    requires
        scene.wf(),
    ensures
        boxed(scene.triaccels@, scene.bboxes@, ray),
{
    let tris = scene.triaccels@;
    let boxes = scene.bboxes@;
    assert forall|i: int, axis: int| 0 <= i < tris.len() && 0 <= axis < 3 implies #[trigger] inside(
        tris,
        boxes,
        ray,
        i,
        axis,
    ) by {
        let tri = scene.tbuffer@[i];
        let a = scene.vbuffer@[tri.t0 as int];
        let b = scene.vbuffer@[tri.t1 as int];
        let c = scene.vbuffer@[tri.t2 as int];
        assert(spec_in_buffer(scene.vbuffer@, tri));
        assert(tris[i] == spec_triangle_accel(scene.vbuffer@, tri));
        assert(boxes[i] == spec_triangle_aabb(scene.vbuffer@, tri));
        if tris[i].struck(ray) {
            lemma_hit_in_box(a, b, c, ray, axis);
        }
    }
}

/// The walk down the hierarchy of a scene against the test of every triangle
/// in turn, for an interval that is not empty.
///
/// What the walk returns is the hit of the ray on a triangle of the scene,
/// so it is no closer than the closest hit there is, and where no triangle
/// is hit the walk returns nothing. Where the way of the walk to the triangle
/// of the closest hit stays open, that is where no interval handed down
/// towards it is empty, the walk returns a hit at that very distance.
pub proof fn lemma_walk_is_nearest(
    scene: Scene,
    bih: BihState,
    t: Tree,
    ray: Ray,
    tmin: Frac,
    tmax: Frac,
)
    requires
        scene.wf(),
        bih.boxes@ == scene.bboxes@,
        bih.index@.len() == scene.tbuffer@.len(),
        is_permutation(bih.index@),
        holds_hierarchy(bih.boxes@, bih.index@, bih.nodes@, t),
        tmin.wf(),
        tmax.wf(),
        tmin.lt(tmax),
    ensures
        ({
            let tris = scene.triaccels@;
            let walk = spec_traverse(tris, bih.index@, bih.nodes@, 0, ray, tmin, tmax);
            let every = nearest_in(tris, identity(tris.len()), ray, tmin, tmax, 0, tris.len() as int);
            &&& walk is Some ==> {
                &&& 0 <= walk->Some_0.tri < tris.len()
                &&& tested(tris, walk->Some_0.tri, ray, tmin, tmax) == walk
                &&& every is Some
                &&& every->Some_0.t.le(walk->Some_0.t)
            }
            &&& every is None ==> walk is None
            &&& every is Some && reached(t, bih.index@, ray, tmin, tmax, every->Some_0) ==> {
                &&& walk is Some
                &&& walk->Some_0.t.same(every->Some_0.t)
            }
        }),
{
    let tris = scene.triaccels@;
    let boxes = scene.bboxes@;
    let index = bih.index@;
    let nodes = bih.nodes@;
    let count = tris.len() as int;
    let id = identity(tris.len());
    let walk = spec_traverse(tris, index, nodes, 0, ray, tmin, tmax);
    let every = nearest_in(tris, id, ray, tmin, tmax, 0, count);
    lemma_nearest_in(tris, id, ray, tmin, tmax, 0, count);
    lemma_walk_sound(tris, index, nodes, t, ray, tmin, tmax);
    if count == 0 {
        assert(walk is None);
    } else {
        if walk is Some {
            let w = walk->Some_0;
            let p = choose|p: int|
                0 <= p <= count - 1 && tested(tris, #[trigger] index[p] as int, ray, tmin, tmax) == Some(
                    w,
                );
            let obj = index[p] as int;
            assert(0 <= obj < count);
            assert(id[obj] == obj);
            assert(tris[id[obj] as int].hits(ray, tmin, tmax));
        }
        if every is Some {
            let h = every->Some_0;
            let i = choose|i: int|
                0 <= i <= count - 1 && tested(tris, #[trigger] id[i] as int, ray, tmin, tmax) == Some(h);
            assert(id[i] == i);
            if reached(t, index, ray, tmin, tmax, h) {
                let p = choose|p: int|
                    t.lo() <= p <= t.hi() && #[trigger] index[p] == h.tri && open_to(
                        t,
                        ray,
                        tmin,
                        tmax,
                        h.t,
                        p,
                    );
                lemma_scene_boxed(scene, ray);
                lemma_walk_finds(tris, boxes, index, nodes, t, ray, tmin, tmax, p);
                let w = walk->Some_0;
                lemma_frac_order(w.t, h.t, h.t);
            }
        }
    }
}

} // verus!
