//! The ray-triangle test of Moller and Trumbore, in exact arithmetic.
use crate::ratio::{mul_within, within, Frac, Ratio};
use crate::types::{Hit, HitModel, Ray};
use crate::vec3::Vec3;
use vstd::prelude::*;

verus! {

/// A vector of three integers of any size.
pub ghost struct Vector {
    pub x: int,
    pub y: int,
    pub z: int,
}

/// The vector from `q` to `p`.
pub open spec fn diff(p: Vec3, q: Vec3) -> Vector {
    Vector { x: p.x - q.x, y: p.y - q.y, z: p.z - q.z }
}

/// The vector of a lattice point.
pub open spec fn vector(p: Vec3) -> Vector {
    Vector { x: p.x as int, y: p.y as int, z: p.z as int }
}

/// The cross product.
#[verifier::opaque]
pub open spec fn cross(a: Vector, b: Vector) -> Vector {
    Vector { x: a.y * b.z - a.z * b.y, y: a.z * b.x - a.x * b.z, z: a.x * b.y - a.y * b.x }
}

/// The dot product.
#[verifier::opaque]
pub open spec fn dot(a: Vector, b: Vector) -> int {
    a.x * b.x + a.y * b.y + a.z * b.z
}

/// The determinant of the system that the test solves: zero where the ray is
/// parallel to the plane of the triangle.
pub open spec fn det(ray: Ray, p0: Vec3, p1: Vec3, p2: Vec3) -> int {
    dot(diff(p1, p0), cross(vector(ray.normal), diff(p2, p0)))
}

/// `det` times the first barycentric coordinate of the point hit.
pub open spec fn scaled_u(ray: Ray, p0: Vec3, p1: Vec3, p2: Vec3) -> int {
    dot(diff(ray.origin, p0), cross(vector(ray.normal), diff(p2, p0)))
}

/// `det` times the second barycentric coordinate of the point hit.
pub open spec fn scaled_v(ray: Ray, p0: Vec3, p1: Vec3, p2: Vec3) -> int {
    dot(cross(diff(ray.origin, p0), diff(p1, p0)), vector(ray.normal))
}

/// `det` times the ray parameter of the point hit.
pub open spec fn scaled_t(ray: Ray, p0: Vec3, p1: Vec3, p2: Vec3) -> int {
    dot(cross(diff(ray.origin, p0), diff(p1, p0)), diff(p2, p0))
}

/// Whether the line of the ray meets the triangle: it is not parallel to the
/// plane, and both barycentric coordinates of the point where it meets the
/// plane are at least zero and sum to at most one. The parameter may be negative.
pub open spec fn meets(ray: Ray, p0: Vec3, p1: Vec3, p2: Vec3) -> bool {
    let d = det(ray, p0, p1, p2);
    let u = Frac::signed(scaled_u(ray, p0, p1, p2), d);
    let v = Frac::signed(scaled_v(ray, p0, p1, p2), d);
    &&& d != 0
    &&& 0 <= u.num <= u.den
    &&& 0 <= v.num
    &&& u.num + v.num <= u.den
}

/// The hit with parameter and barycentric coordinates of the point where the
/// line of the ray meets the plane of the triangle, the other fields from `hit`.
pub open spec fn met(ray: Ray, p0: Vec3, p1: Vec3, p2: Vec3, hit: HitModel) -> HitModel {
    let d = det(ray, p0, p1, p2);
    HitModel {
        t: Frac::signed(scaled_t(ray, p0, p1, p2), d),
        u: Frac::signed(scaled_u(ray, p0, p1, p2), d),
        v: Frac::signed(scaled_v(ray, p0, p1, p2), d),
        ..hit
    }
}

/// A vector of three machine integers.
#[derive(Clone, Copy)]
struct Wide {
    x: i128,
    y: i128,
    z: i128,
}

impl Wide {
    spec fn vector(self) -> Vector {
        Vector { x: self.x as int, y: self.y as int, z: self.z as int }
    }

    spec fn all_within(self, bound: int) -> bool {
        within(self.x as int, bound) && within(self.y as int, bound) && within(self.z as int, bound)
    }
}

fn wide(p: &Vec3) -> (r: Wide)
    ensures
        r.vector() == vector(*p),
        p.in_range() ==> r.all_within(0x8_0000),
{
    Wide { x: p.x as i128, y: p.y as i128, z: p.z as i128 }
}

fn wide_diff(p: &Vec3, q: &Vec3) -> (r: Wide)
    ensures
        r.vector() == diff(*p, *q),
        p.in_range() && q.in_range() ==> r.all_within(0x10_0000),
{
    Wide { x: p.x as i128 - q.x as i128, y: p.y as i128 - q.y as i128, z: p.z as i128 - q.z as i128 }
}

fn wide_cross(a: Wide, b: Wide, Ghost(la): Ghost<int>, Ghost(lb): Ghost<int>) -> (r: Wide)
    requires
        a.all_within(la),
        b.all_within(lb),
        0 <= la * lb <= 0x1000_0000_0000_0000_0000_0000_0000,
    ensures
        r.vector() == cross(a.vector(), b.vector()),
        r.all_within(2 * (la * lb)),
{
    proof {
        reveal(cross);
    }
    Wide {
        x: mul_within(a.y, b.z, Ghost(la), Ghost(lb)) - mul_within(a.z, b.y, Ghost(la), Ghost(lb)),
        y: mul_within(a.z, b.x, Ghost(la), Ghost(lb)) - mul_within(a.x, b.z, Ghost(la), Ghost(lb)),
        z: mul_within(a.x, b.y, Ghost(la), Ghost(lb)) - mul_within(a.y, b.x, Ghost(la), Ghost(lb)),
    }
}

fn wide_dot(a: Wide, b: Wide, Ghost(la): Ghost<int>, Ghost(lb): Ghost<int>) -> (r: i128)
    requires
        a.all_within(la),
        b.all_within(lb),
        0 <= la * lb <= 0x1000_0000_0000_0000_0000_0000_0000,
    ensures
        r == dot(a.vector(), b.vector()),
        within(r as int, 3 * (la * lb)),
{
    proof {
        reveal(dot);
    }
    mul_within(a.x, b.x, Ghost(la), Ghost(lb)) + mul_within(a.y, b.y, Ghost(la), Ghost(lb))
        + mul_within(a.z, b.z, Ghost(la), Ghost(lb))
}

/// The fraction `num / den`, written with a positive denominator.
fn signed_ratio(num: i128, den: i128) -> (r: Ratio)
    requires
        den != 0,
        within(num as int, 0x7fff_ffff_ffff_ffff),
        within(den as int, 0x7fff_ffff_ffff_ffff),
    ensures
        r@ == Frac::signed(num as int, den as int),
        r.wf(),
{
    if den > 0 {
        Ratio { num: num as i64, den: den as i64 }
    } else {
        Ratio { num: (-num) as i64, den: (-den) as i64 }
    }
}

/// Tests the line of the ray against the triangle `p0`, `p1`, `p2`. Where
/// they meet, `out` receives the parameter and the barycentric coordinates of
/// the point; else it is left as it was.
pub fn test_intersection(ray: &Ray, p0: Vec3, p1: Vec3, p2: Vec3, out: &mut Hit) -> (r: bool)
    requires
        ray.in_range(),
        p0.in_range(),
        p1.in_range(),
        p2.in_range(),
    ensures
        r == meets(*ray, p0, p1, p2),
        r ==> final(out)@ == met(*ray, p0, p1, p2, old(out)@),
        r ==> final(out).t.wf() && final(out).u.wf() && final(out).v.wf(),
        !r ==> *final(out) == *old(out),
{
    let ghost coord = 0x8_0000int;
    let ghost edge = 0x10_0000int;
    let dir = wide(&ray.normal);
    let edge1 = wide_diff(&p1, &p0);
    let edge2 = wide_diff(&p2, &p0);
    let pvec = wide_cross(dir, edge2, Ghost(coord), Ghost(edge));
    let d: i128 = wide_dot(edge1, pvec, Ghost(edge), Ghost(2 * (coord * edge)));
    if d == 0 {
        false
    } else {
        let tvec = wide_diff(&ray.origin, &p0);
        let un: i128 = wide_dot(tvec, pvec, Ghost(edge), Ghost(2 * (coord * edge)));
        let (ucoord, whole): (i128, i128) = if d > 0 {
            (un, d)
        } else {
            (-un, -d)
        };
        if !(0 <= ucoord && ucoord <= whole) {
            false
        } else {
            let qvec = wide_cross(tvec, edge1, Ghost(edge), Ghost(edge));
            let vn: i128 = wide_dot(qvec, dir, Ghost(2 * (edge * edge)), Ghost(coord));
            let vcoord: i128 = if d > 0 {
                vn
            } else {
                -vn
            };
            if vcoord < 0 || ucoord + vcoord > whole {
                false
            } else {
                let tn: i128 = wide_dot(qvec, edge2, Ghost(2 * (edge * edge)), Ghost(edge));
                out.t = signed_ratio(tn, d);
                out.u = signed_ratio(un, d);
                out.v = signed_ratio(vn, d);
                true
            }
        }
    }
}

/// The same test without early exits: every quantity is computed, then the
/// verdict. Where the ray is not parallel to the plane of the triangle, `out`
/// receives parameter and barycentric coordinates of the point where the line
/// meets the plane, hit or miss; where it is parallel these have no value and
/// `out` is left as it was.
pub fn test_intersection_branchless(ray: &Ray, p0: Vec3, p1: Vec3, p2: Vec3, out: &mut Hit) -> (r: bool)
    requires
        ray.in_range(),
        p0.in_range(),
        p1.in_range(),
        p2.in_range(),
    ensures
        r == meets(*ray, p0, p1, p2),
        det(*ray, p0, p1, p2) != 0 ==> final(out)@ == met(*ray, p0, p1, p2, old(out)@),
        det(*ray, p0, p1, p2) != 0 ==> final(out).t.wf() && final(out).u.wf() && final(out).v.wf(),
        det(*ray, p0, p1, p2) == 0 ==> *final(out) == *old(out),
{
    let ghost coord = 0x8_0000int;
    let ghost edge = 0x10_0000int;
    let dir = wide(&ray.normal);
    let edge1 = wide_diff(&p1, &p0);
    let edge2 = wide_diff(&p2, &p0);
    let pvec = wide_cross(dir, edge2, Ghost(coord), Ghost(edge));
    let d: i128 = wide_dot(edge1, pvec, Ghost(edge), Ghost(2 * (coord * edge)));
    let det_cond: bool = d == 0;
    let tvec = wide_diff(&ray.origin, &p0);
    let un: i128 = wide_dot(tvec, pvec, Ghost(edge), Ghost(2 * (coord * edge)));
    let qvec = wide_cross(tvec, edge1, Ghost(edge), Ghost(edge));
    let vn: i128 = wide_dot(qvec, dir, Ghost(2 * (edge * edge)), Ghost(coord));
    let tn: i128 = wide_dot(qvec, edge2, Ghost(2 * (edge * edge)), Ghost(edge));
    let (ucoord, vcoord, whole): (i128, i128, i128) = if d > 0 {
        (un, vn, d)
    } else {
        (-un, -vn, -d)
    };
    let ucoord_cond: bool = !(0 <= ucoord && ucoord <= whole);
    let vcoord_cond: bool = vcoord < 0 || ucoord + vcoord > whole;
    if !det_cond {
        out.t = signed_ratio(tn, d);
        out.u = signed_ratio(un, d);
        out.v = signed_ratio(vn, d);
    }
    !(det_cond || ucoord_cond || vcoord_cond)
}

} // verus!
