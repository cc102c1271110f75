//! Per-triangle coefficients for a fast ray test in the plane of projection,
//! and the test itself, in exact arithmetic.
use crate::ratio::{mul_within, within, Frac, Ratio};
use crate::types::{Hit, HitModel, Ray};
use crate::vec3::Vec3;
use vstd::prelude::*;

verus! {

/// The axis after `k`, going round.
pub open spec fn next_axis(k: int) -> int {
    (k + 1) % 3
}

/// The axis before `k`, going round.
pub open spec fn prev_axis(k: int) -> int {
    (k + 2) % 3
}

/// `p * x - q * y`.
#[verifier::opaque]
pub open spec fn cross2(p: int, x: int, q: int, y: int) -> int {
    p * x - q * y
}

/// `p * x + q * y + r * z`.
#[verifier::opaque]
pub open spec fn dot3(p: int, x: int, q: int, y: int, r: int, z: int) -> int {
    p * x + q * y + r * z
}

/// The component along `k` of the normal `(b - a) x (c - a)`.
#[verifier::opaque]
pub open spec fn normal_at(a: Vec3, b: Vec3, c: Vec3, k: int) -> int {
    let u = next_axis(k);
    let v = prev_axis(k);
    cross2(b.at(u) - a.at(u), c.at(v) - a.at(v), b.at(v) - a.at(v), c.at(u) - a.at(u))
}

/// The absolute value.
pub open spec fn abs_int(x: int) -> int {
    if x < 0 {
        -x
    } else {
        x
    }
}

/// The axis along which the normal is longest, the lower axis winning a tie.
#[verifier::opaque]
pub open spec fn dominant_axis(a: Vec3, b: Vec3, c: Vec3) -> int {
    let nx = abs_int(normal_at(a, b, c, 0));
    let ny = abs_int(normal_at(a, b, c, 1));
    let nz = abs_int(normal_at(a, b, c, 2));
    if nx >= ny && nx >= nz {
        0
    } else if ny >= nz {
        1
    } else {
        2
    }
}

/// The coefficients of one triangle.
///
/// With `k` the dominant axis of the normal and `u`, `v` the two axes after
/// it, the plane of the triangle is `p[k] + (n_u p[u] + n_v p[v] - n_d) / n_k = 0`
/// and the barycentric coordinates of a point of the plane are
/// `(b_nu p[u] + b_nv p[v] + b_d) / n_k` and `(c_nu p[u] + c_nv p[v] + c_d) / n_k`.
/// Every coefficient is kept as its numerator over the one denominator `n_k`,
/// the component of the normal along `k`.
#[derive(Clone, Copy, Debug, PartialEq, Eq, Structural)]
pub struct TriAccel {
    pub n_k: i64,
    pub n_u: i64,
    pub n_v: i64,
    pub n_d: i64,
    pub k: u32,
    pub b_nu: i64,
    pub b_nv: i64,
    pub b_d: i64,
    pub u: u16,
    pub v: u16,
    pub c_nu: i64,
    pub c_nv: i64,
    pub c_d: i64,
    pub sign: i32,
}

/// The coefficients of the triangle `a`, `b`, `c`.
pub open spec fn spec_precompute(a: Vec3, b: Vec3, c: Vec3) -> TriAccel {
    let k = dominant_axis(a, b, c);
    let u = next_axis(k);
    let v = prev_axis(k);
    let n_k = normal_at(a, b, c, k);
    let n_u = normal_at(a, b, c, u);
    let n_v = normal_at(a, b, c, v);
    let bx = b.at(u) - a.at(u);
    let by = b.at(v) - a.at(v);
    let cx = c.at(u) - a.at(u);
    let cy = c.at(v) - a.at(v);
    TriAccel {
        n_k: n_k as i64,
        n_u: n_u as i64,
        n_v: n_v as i64,
        n_d: dot3(n_k, a.at(k), n_u, a.at(u), n_v, a.at(v)) as i64,
        k: k as u32,
        b_nu: (-by) as i64,
        b_nv: bx as i64,
        b_d: cross2(by, a.at(u), bx, a.at(v)) as i64,
        u: u as u16,
        v: v as u16,
        c_nu: cy as i64,
        c_nv: (-cx) as i64,
        c_d: cross2(cx, a.at(v), cy, a.at(u)) as i64,
        sign: if n_k > 0 {
            1i32
        } else {
            (-1) as i32
        },
    }
}

impl TriAccel {
    /// The axes go round from `k`, and every coefficient is as small as the
    /// coefficients of a triangle within the coordinate limit are.
    pub open spec fn wf(self) -> bool {
        &&& self.k < 3
        &&& self.u == next_axis(self.k as int)
        &&& self.v == prev_axis(self.k as int)
        &&& within(self.n_k as int, 0x200_0000_0000)
        &&& within(self.n_u as int, 0x200_0000_0000)
        &&& within(self.n_v as int, 0x200_0000_0000)
        &&& within(self.n_d as int, 0x3000_0000_0000_0000)
        &&& within(self.b_nu as int, 0x10_0000)
        &&& within(self.b_nv as int, 0x10_0000)
        &&& within(self.c_nu as int, 0x10_0000)
        &&& within(self.c_nv as int, 0x10_0000)
        &&& within(self.b_d as int, 0x100_0000_0000)
        &&& within(self.c_d as int, 0x100_0000_0000)
    }

    /// The denominator of the ray parameter at the plane: the direction
    /// against the normal.
    pub open spec fn facing(self, ray: Ray) -> int {
        self.n_k * ray.normal.at(self.k as int) + self.n_u * ray.normal.at(self.u as int) + self.n_v
            * ray.normal.at(self.v as int)
    }

    /// The numerator of the ray parameter at the plane: the distance of the
    /// origin from the plane, against the normal.
    pub open spec fn offset(self, ray: Ray) -> int {
        self.n_d - self.n_k * ray.origin.at(self.k as int) - self.n_u * ray.origin.at(self.u as int)
            - self.n_v * ray.origin.at(self.v as int)
    }

    /// `facing` times the coordinate along `axis` of the point where the ray
    /// meets the plane.
    pub open spec fn scaled_point(self, ray: Ray, axis: int) -> int {
        ray.origin.at(axis) * self.facing(ray) + self.offset(ray) * ray.normal.at(axis)
    }

    /// `facing * n_k` times the first barycentric coordinate of that point.
    pub open spec fn scaled_lambda(self, ray: Ray) -> int {
        self.scaled_point(ray, self.u as int) * self.b_nu + self.scaled_point(ray, self.v as int)
            * self.b_nv + self.b_d * self.facing(ray)
    }

    /// `facing * n_k` times the second barycentric coordinate of that point.
    pub open spec fn scaled_mu(self, ray: Ray) -> int {
        self.scaled_point(ray, self.u as int) * self.c_nu + self.scaled_point(ray, self.v as int)
            * self.c_nv + self.c_d * self.facing(ray)
    }

    /// Whether the line of the ray meets the triangle: the ray is not parallel
    /// to the plane, and where it meets the plane both barycentric
    /// coordinates are at least zero and their sum is at most one.
    pub open spec fn struck(self, ray: Ray) -> bool {
        let d = self.facing(ray);
        let q = d * self.n_k;
        let lambda = Frac::signed(self.scaled_lambda(ray), q);
        let mu = Frac::signed(self.scaled_mu(ray), q);
        &&& d != 0
        &&& q != 0
        &&& lambda.num >= 0
        &&& mu.num >= 0
        &&& lambda.num + mu.num <= lambda.den
    }

    /// Whether the ray meets the triangle at a parameter between `tmin` and
    /// `tmax`, the two ends counted in.
    pub open spec fn hits(self, ray: Ray, tmin: Frac, tmax: Frac) -> bool {
        &&& self.struck(ray)
        &&& !self.hit_t(ray).lt(tmin)
        &&& !tmax.lt(self.hit_t(ray))
    }

    /// The ray parameter at the plane of the triangle.
    pub open spec fn hit_t(self, ray: Ray) -> Frac {
        Frac::signed(self.offset(ray), self.facing(ray))
    }

    /// The reciprocal of the direction projected on the scaled normal.
    pub open spec fn hit_dot(self, ray: Ray) -> Frac {
        Frac::signed(self.n_k as int, self.facing(ray))
    }
}

impl Default for TriAccel {
    fn default() -> (r: TriAccel)
        ensures
            r == (TriAccel {
                n_k: 0,
                n_u: 0,
                n_v: 0,
                n_d: 0,
                k: 0,
                b_nu: 0,
                b_nv: 0,
                b_d: 0,
                u: 0,
                v: 0,
                c_nu: 0,
                c_nv: 0,
                c_d: 0,
                sign: 0,
            }),
    {
        TriAccel {
            n_k: 0,
            n_u: 0,
            n_v: 0,
            n_d: 0,
            k: 0,
            b_nu: 0,
            b_nv: 0,
            b_d: 0,
            u: 0,
            v: 0,
            c_nu: 0,
            c_nv: 0,
            c_d: 0,
            sign: 0,
        }
    }
}

fn abs_i64(x: i64) -> (r: i64)
    requires
        x > i64::MIN,
    ensures
        r == abs_int(x as int),
{
    if x < 0 {
        -x
    } else {
        x
    }
}

/// The component along `k` of the normal of the triangle.
fn normal_component(a: &Vec3, b: &Vec3, c: &Vec3, k: usize) -> (r: i64)
    requires
        k < 3,
        a.in_range(),
        b.in_range(),
        c.in_range(),
    ensures
        r == normal_at(*a, *b, *c, k as int),
        within(r as int, 0x200_0000_0000),
{
    let u: usize = (k + 1) % 3;
    let v: usize = (k + 2) % 3;
    let bx: i128 = b.get(u) as i128 - a.get(u) as i128;
    let by: i128 = b.get(v) as i128 - a.get(v) as i128;
    let cx: i128 = c.get(u) as i128 - a.get(u) as i128;
    let cy: i128 = c.get(v) as i128 - a.get(v) as i128;
    let p: i128 = mul_within(bx, cy, Ghost(0x10_0000int), Ghost(0x10_0000int));
    let q: i128 = mul_within(by, cx, Ghost(0x10_0000int), Ghost(0x10_0000int));
    proof {
        reveal(cross2);
        reveal(normal_at);
    }
    (p - q) as i64
}

/// The axis along which the normal of the triangle is longest.
fn dominant(a: &Vec3, b: &Vec3, c: &Vec3) -> (k: usize)
    requires
        a.in_range(),
        b.in_range(),
        c.in_range(),
    ensures
        k == dominant_axis(*a, *b, *c),
        k < 3,
{
    let nx: i64 = abs_i64(normal_component(a, b, c, 0));
    let ny: i64 = abs_i64(normal_component(a, b, c, 1));
    let nz: i64 = abs_i64(normal_component(a, b, c, 2));
    proof {
        reveal(dominant_axis);
    }
    if nx >= ny && nx >= nz {
        0
    } else if ny >= nz {
        1
    } else {
        2
    }
}

/// `p * x - q * y`, for two edge components and two coordinates.
fn edge_offset(p: i128, x: i128, q: i128, y: i128) -> (r: i64)
    requires
        within(p as int, 0x10_0000),
        within(q as int, 0x10_0000),
        within(x as int, 0x8_0000),
        within(y as int, 0x8_0000),
    ensures
        r == cross2(p as int, x as int, q as int, y as int),
        within(r as int, 0x100_0000_0000),
{
    let s: i128 = mul_within(p, x, Ghost(0x10_0000int), Ghost(0x8_0000int));
    let t: i128 = mul_within(q, y, Ghost(0x10_0000int), Ghost(0x8_0000int));
    proof {
        reveal(cross2);
    }
    (s - t) as i64
}

/// `n_k * k + n_u * u + n_v * v`, for a normal and a point.
fn plane_offset(n_k: i64, k: i128, n_u: i64, u: i128, n_v: i64, v: i128) -> (r: i64)
    requires
        within(n_k as int, 0x200_0000_0000),
        within(n_u as int, 0x200_0000_0000),
        within(n_v as int, 0x200_0000_0000),
        within(k as int, 0x8_0000),
        within(u as int, 0x8_0000),
        within(v as int, 0x8_0000),
    ensures
        r == dot3(n_k as int, k as int, n_u as int, u as int, n_v as int, v as int),
        within(r as int, 0x3000_0000_0000_0000),
{
    let x: i128 = mul_within(n_k as i128, k, Ghost(0x200_0000_0000int), Ghost(0x8_0000int));
    let y: i128 = mul_within(n_u as i128, u, Ghost(0x200_0000_0000int), Ghost(0x8_0000int));
    let z: i128 = mul_within(n_v as i128, v, Ghost(0x200_0000_0000int), Ghost(0x8_0000int));
    proof {
        reveal(dot3);
    }
    (x + y + z) as i64
}

/// The two axes after `k`, going round.
fn axes_after(k: usize) -> (r: (usize, usize))
    requires
        k < 3,
    ensures
        r.0 == next_axis(k as int),
        r.1 == prev_axis(k as int),
        r.0 < 3,
        r.1 < 3,
{
    if k == 0 {
        (1, 2)
    } else if k == 1 {
        (2, 0)
    } else {
        (0, 1)
    }
}

/// The difference of two coordinates.
fn edge(p: i32, q: i32) -> (r: i128)
    requires
        -0x8_0000 <= p <= 0x8_0000,
        -0x8_0000 <= q <= 0x8_0000,
    ensures
        r == p - q,
        within(r as int, 0x10_0000),
{
    p as i128 - q as i128
}

/// Computes the coefficients of the triangle `a`, `b`, `c`.
pub fn precompute(a: Vec3, b: Vec3, c: Vec3) -> (out: TriAccel)
    requires
        a.in_range(),
        b.in_range(),
        c.in_range(),
    ensures
        out == spec_precompute(a, b, c),
        out.wf(),
{
    let max_dim: usize = dominant(&a, &b, &c);
    let (u, v) = axes_after(max_dim);
    let n_k: i64 = normal_component(&a, &b, &c, max_dim);
    let n_u: i64 = normal_component(&a, &b, &c, u);
    let n_v: i64 = normal_component(&a, &b, &c, v);
    let ak: i32 = a.get(max_dim);
    let ax: i32 = a.get(u);
    let ay: i32 = a.get(v);
    let n_d: i64 = plane_offset(n_k, ak as i128, n_u, ax as i128, n_v, ay as i128);
    let bx: i128 = edge(b.get(u), ax);
    let by: i128 = edge(b.get(v), ay);
    let cx: i128 = edge(c.get(u), ax);
    let cy: i128 = edge(c.get(v), ay);
    let b_d: i64 = edge_offset(by, ax as i128, bx, ay as i128);
    let c_d: i64 = edge_offset(cx, ay as i128, cy, ax as i128);
    let sign: i32 = if n_k > 0 {
        1
    } else {
        -1
    };
    TriAccel {
        n_k,
        n_u,
        n_v,
        n_d,
        k: max_dim as u32,
        b_nu: (-by) as i64,
        b_nv: bx as i64,
        b_d,
        u: u as u16,
        v: v as u16,
        c_nu: cy as i64,
        c_nv: (-cx) as i64,
        c_d,
        sign,
    }
}

/// Tests the ray against the triangle between the parameters `tmin` and
/// `tmax`. On a hit, `hit` receives the parameter and the reciprocal of the
/// projected direction; on a miss it is left as it was.
pub fn triaccel_intersect(tri: &TriAccel, ray: &Ray, tmin: Ratio, tmax: Ratio, hit: &mut Hit) -> (r: bool)
    requires
        tri.wf(),
        ray.in_range(),
    ensures
        r == tri.hits(*ray, tmin@, tmax@),
        r ==> final(hit)@ == (HitModel { t: tri.hit_t(*ray), dot: tri.hit_dot(*ray), ..old(hit)@ }),
        r ==> final(hit).t.wf() && final(hit).dot.wf(),
        !r ==> *final(hit) == *old(hit),
{
    let k: usize = tri.k as usize;
    let u: usize = tri.u as usize;
    let v: usize = tri.v as usize;
    let dk: i128 = ray.normal.get(k) as i128;
    let du: i128 = ray.normal.get(u) as i128;
    let dv: i128 = ray.normal.get(v) as i128;
    let ok: i128 = ray.origin.get(k) as i128;
    let ou: i128 = ray.origin.get(u) as i128;
    let ov: i128 = ray.origin.get(v) as i128;
    let n_k: i128 = tri.n_k as i128;
    let n_u: i128 = tri.n_u as i128;
    let n_v: i128 = tri.n_v as i128;
    let ghost coord = 0x8_0000int;
    let ghost nrm = 0x200_0000_0000int;
    let ghost face = 3 * (nrm * coord);
    let ghost off = 6 * (nrm * coord);
    let ghost point = coord * face + off * coord;
    let ghost edge = 0x10_0000int;
    let d: i128 = mul_within(n_k, dk, Ghost(nrm), Ghost(coord)) + mul_within(
        n_u,
        du,
        Ghost(nrm),
        Ghost(coord),
    ) + mul_within(n_v, dv, Ghost(nrm), Ghost(coord));
    let n: i128 = tri.n_d as i128 - mul_within(n_k, ok, Ghost(nrm), Ghost(coord)) - mul_within(
        n_u,
        ou,
        Ghost(nrm),
        Ghost(coord),
    ) - mul_within(n_v, ov, Ghost(nrm), Ghost(coord));
    assert(d == tri.facing(*ray));
    assert(n == tri.offset(*ray));
    if d == 0 {
        return false;
    }
    let q: i128 = mul_within(d, n_k, Ghost(face), Ghost(nrm));
    if q == 0 {
        return false;
    }
    let t: Ratio = if d > 0 {
        Ratio { num: n as i64, den: d as i64 }
    } else {
        Ratio { num: (-n) as i64, den: (-d) as i64 }
    };
    assert(t@ == tri.hit_t(*ray));
    if t.lt(&tmin) || tmax.lt(&t) {
        return false;
    }
    let hu: i128 = mul_within(ou, d, Ghost(coord), Ghost(face)) + mul_within(
        n,
        du,
        Ghost(off),
        Ghost(coord),
    );
    let hv: i128 = mul_within(ov, d, Ghost(coord), Ghost(face)) + mul_within(
        n,
        dv,
        Ghost(off),
        Ghost(coord),
    );
    assert(hu == tri.scaled_point(*ray, u as int));
    assert(hv == tri.scaled_point(*ray, v as int));
    let l: i128 = mul_within(hu, tri.b_nu as i128, Ghost(point), Ghost(edge)) + mul_within(
        hv,
        tri.b_nv as i128,
        Ghost(point),
        Ghost(edge),
    ) + mul_within(tri.b_d as i128, d, Ghost(0x100_0000_0000int), Ghost(face));
    let m: i128 = mul_within(hu, tri.c_nu as i128, Ghost(point), Ghost(edge)) + mul_within(
        hv,
        tri.c_nv as i128,
        Ghost(point),
        Ghost(edge),
    ) + mul_within(tri.c_d as i128, d, Ghost(0x100_0000_0000int), Ghost(face));
    assert(l == tri.scaled_lambda(*ray));
    assert(m == tri.scaled_mu(*ray));
    let (lambda, mu, whole): (i128, i128, i128) = if q > 0 {
        (l, m, q)
    } else {
        (-l, -m, -q)
    };
    if lambda < 0 {
        return false;
    }
    if mu < 0 {
        return false;
    }
    if lambda + mu > whole {
        return false;
    }
    hit.t = t;
    hit.dot = if d > 0 {
        Ratio { num: n_k as i64, den: d as i64 }
    } else {
        Ratio { num: (-n_k) as i64, den: (-d) as i64 }
    };
    true
}

} // verus!
