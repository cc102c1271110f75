//! Why the point where a ray meets a triangle lies in the box of the triangle.
use crate::nearest::height;
use crate::ratio::{lemma_mul_within, within, Frac};
use crate::triaccel::{
    cross2, dominant_axis, dot3, next_axis, normal_at, prev_axis, spec_precompute,
};
use crate::types::Ray;
use crate::vec3::{max_int, min_int, Vec3};
use vstd::prelude::*;

verus! {

/// For a point `p`, counted from a vertex of a triangle with edges `e1` and
/// `e2`, in the plane of the triangle: the point is the sum of the edges,
/// each times its barycentric coordinate. All is scaled by `nk`, the
/// component along `k` of the normal `e1 x e2`, and `l` and `m` are the
/// scaled coordinates that belong to `e2` and `e1`.
pub proof fn lemma_barycentric(
    e1k: int,
    e1u: int,
    e1v: int,
    e2k: int,
    e2u: int,
    e2v: int,
    pk: int,
    pu: int,
    pv: int,
)
    requires
        (e1u * e2v - e1v * e2u) * pk + (e1v * e2k - e1k * e2v) * pu + (e1k * e2u - e1u * e2k) * pv == 0,
    ensures
        ({
            let nk = e1u * e2v - e1v * e2u;
            let l = e1u * pv - e1v * pu;
            let m = e2v * pu - e2u * pv;
            &&& nk * pu == m * e1u + l * e2u
            &&& nk * pv == m * e1v + l * e2v
            &&& nk * pk == m * e1k + l * e2k
        }),
{
    let nk = e1u * e2v - e1v * e2u;
    let l = e1u * pv - e1v * pu;
    let m = e2v * pu - e2u * pv;
    assert(nk * pu == m * e1u + l * e2u) by (nonlinear_arith)
        requires
            nk == e1u * e2v - e1v * e2u,
            l == e1u * pv - e1v * pu,
            m == e2v * pu - e2u * pv,
    ;
    assert(nk * pv == m * e1v + l * e2v) by (nonlinear_arith)
        requires
            nk == e1u * e2v - e1v * e2u,
            l == e1u * pv - e1v * pu,
            m == e2v * pu - e2u * pv,
    ;
    let nu = e1v * e2k - e1k * e2v;
    let nv = e1k * e2u - e1u * e2k;
    let a1 = e1k * e2v;
    let a2 = e1v * e2k;
    let a3 = e1k * e2u;
    let a4 = e1u * e2k;
    assert(m * e1k == a1 * pu - a3 * pv) by (nonlinear_arith)
        requires
            m == e2v * pu - e2u * pv,
            a1 == e1k * e2v,
            a3 == e1k * e2u,
    ;
    assert(l * e2k == a4 * pv - a2 * pu) by (nonlinear_arith)
        requires
            l == e1u * pv - e1v * pu,
            a4 == e1u * e2k,
            a2 == e1v * e2k,
    ;
    assert(nu * pu == a2 * pu - a1 * pu) by (nonlinear_arith)
        requires
            nu == a2 - a1,
    ;
    assert(nv * pv == a3 * pv - a4 * pv) by (nonlinear_arith)
        requires
            nv == a3 - a4,
    ;
    assert(nk * pk + nu * pu + nv * pv == 0);
    assert(nk * pk == m * e1k + l * e2k);
}

/// The point where a ray meets a plane lies in the plane: with normal `n`,
/// a point `a` of the plane, origin `o` and direction `d`, the point
/// `o + (n.(a - o) / n.d) d`, counted from `a` and scaled by `n.d`, is at
/// right angles to `n`.
pub proof fn lemma_on_plane(
    nk: int,
    nu: int,
    nv: int,
    ak: int,
    au: int,
    av: int,
    ok: int,
    ou: int,
    ov: int,
    dk: int,
    du: int,
    dv: int,
)
    ensures
        ({
            let facing = nk * dk + nu * du + nv * dv;
            let offset = (nk * ak + nu * au + nv * av) - nk * ok - nu * ou - nv * ov;
            let pk = ok * facing + offset * dk - facing * ak;
            let pu = ou * facing + offset * du - facing * au;
            let pv = ov * facing + offset * dv - facing * av;
            nk * pk + nu * pu + nv * pv == 0
        }),
{
    let facing = nk * dk + nu * du + nv * dv;
    let no = nk * ok + nu * ou + nv * ov;
    let na = nk * ak + nu * au + nv * av;
    let offset = na - no;
    let pk = ok * facing + offset * dk - facing * ak;
    let pu = ou * facing + offset * du - facing * au;
    let pv = ov * facing + offset * dv - facing * av;
    assert(nk * pk == (nk * ok) * facing + offset * (nk * dk) - facing * (nk * ak)) by (nonlinear_arith)
        requires
            pk == ok * facing + offset * dk - facing * ak,
    ;
    assert(nu * pu == (nu * ou) * facing + offset * (nu * du) - facing * (nu * au)) by (nonlinear_arith)
        requires
            pu == ou * facing + offset * du - facing * au,
    ;
    assert(nv * pv == (nv * ov) * facing + offset * (nv * dv) - facing * (nv * av)) by (nonlinear_arith)
        requires
            pv == ov * facing + offset * dv - facing * av,
    ;
    let (xk, xu, xv) = (nk * ok, nu * ou, nv * ov);
    let (yk, yu, yv) = (nk * dk, nu * du, nv * dv);
    let (zk, zu, zv) = (nk * ak, nu * au, nv * av);
    assert((xk + xu + xv) * facing == xk * facing + xu * facing + xv * facing) by (nonlinear_arith);
    assert(offset * (yk + yu + yv) == offset * yk + offset * yu + offset * yv) by (nonlinear_arith);
    assert(facing * (zk + zu + zv) == facing * zk + facing * zu + facing * zv) by (nonlinear_arith);
    assert(no * facing + offset * facing - facing * na == 0) by (nonlinear_arith)
        requires
            offset == na - no,
    ;
    assert(nk * pk + nu * pu + nv * pv == no * facing + offset * facing - facing * na);
}

/// A sum of two edges, each times a barycentric coordinate, lies between the
/// least and the largest of nought and the two edges. The coordinates `l / q`
/// and `m / q` are at least nought and sum to at most one.
pub proof fn lemma_convex(e1: int, e2: int, low: int, high: int, l: int, m: int, q: int)
    requires
        low <= 0 <= high,
        low <= e1 <= high,
        low <= e2 <= high,
        q != 0,
        q > 0 ==> l >= 0 && m >= 0 && l + m <= q,
        q < 0 ==> l <= 0 && m <= 0 && l + m >= q,
    ensures
        q > 0 ==> q * low <= m * e1 + l * e2 <= q * high,
        q < 0 ==> q * high <= m * e1 + l * e2 <= q * low,
{
    if q > 0 {
        assert(m * e1 <= m * high && l * e2 <= l * high && (l + m) * high <= q * high)
            by (nonlinear_arith)
            requires
                l >= 0,
                m >= 0,
                l + m <= q,
                e1 <= high,
                e2 <= high,
                0 <= high,
        ;
        assert(m * e1 >= m * low && l * e2 >= l * low && (l + m) * low >= q * low) by (nonlinear_arith)
            requires
                l >= 0,
                m >= 0,
                l + m <= q,
                e1 >= low,
                e2 >= low,
                0 >= low,
        ;
        assert((l + m) * high == m * high + l * high && (l + m) * low == m * low + l * low)
            by (nonlinear_arith);
    } else {
        assert(m * e1 >= m * high && l * e2 >= l * high && (l + m) * high >= q * high)
            by (nonlinear_arith)
            requires
                l <= 0,
                m <= 0,
                l + m >= q,
                e1 <= high,
                e2 <= high,
                0 <= high,
        ;
        assert(m * e1 <= m * low && l * e2 <= l * low && (l + m) * low <= q * low) by (nonlinear_arith)
            requires
                l <= 0,
                m <= 0,
                l + m >= q,
                e1 >= low,
                e2 >= low,
                0 >= low,
        ;
        assert((l + m) * high == m * high + l * high && (l + m) * low == m * low + l * low)
            by (nonlinear_arith);
    }
}

/// From a bound on `nk * w` for a quantity `w` scaled by `facing`: the sign
/// of `w` against `facing`. Here `q` is `facing * nk`.
pub proof fn lemma_unscale(w: int, nk: int, facing: int, q: int, bound: int)
    requires
        q == facing * nk,
        q != 0,
        q > 0 ==> nk * w <= bound * q,
        q < 0 ==> nk * w >= bound * q,
    ensures
        facing > 0 ==> w <= bound * facing,
        facing < 0 ==> w >= bound * facing,
{
    assert(facing != 0 && nk != 0) by (nonlinear_arith)
        requires
            q == facing * nk,
            q != 0,
    ;
    let r = w - bound * facing;
    assert(nk * r == nk * w - bound * q) by (nonlinear_arith)
        requires
            r == w - bound * facing,
            q == facing * nk,
    ;
    // nk * r has the sign opposite to q, or is nought
    assert((facing > 0 ==> r <= 0) && (facing < 0 ==> r >= 0)) by (nonlinear_arith)
        requires
            q == facing * nk,
            q != 0,
            q > 0 ==> nk * r <= 0,
            q < 0 ==> nk * r >= 0,
    ;
}

/// The same for a bound from below.
pub proof fn lemma_unscale_below(w: int, nk: int, facing: int, q: int, bound: int)
    requires
        q == facing * nk,
        q != 0,
        q > 0 ==> nk * w >= bound * q,
        q < 0 ==> nk * w <= bound * q,
    ensures
        facing > 0 ==> w >= bound * facing,
        facing < 0 ==> w <= bound * facing,
{
    assert(facing != 0 && nk != 0) by (nonlinear_arith)
        requires
            q == facing * nk,
            q != 0,
    ;
    let r = w - bound * facing;
    assert(nk * r == nk * w - bound * q) by (nonlinear_arith)
        requires
            r == w - bound * facing,
            q == facing * nk,
    ;
    assert((facing > 0 ==> r >= 0) && (facing < 0 ==> r <= 0)) by (nonlinear_arith)
        requires
            q == facing * nk,
            q != 0,
            q > 0 ==> nk * r >= 0,
            q < 0 ==> nk * r <= 0,
    ;
}

/// The edge from `a` to `b` along `axis`.
pub open spec fn edge(a: Vec3, b: Vec3, axis: int) -> int {
    b.at(axis) - a.at(axis)
}

/// The components of the normal of a triangle within the coordinate limit are
/// the products of its edges, and fit the machine integers with room to spare.
pub proof fn lemma_normal(a: Vec3, b: Vec3, c: Vec3, k: int)
    requires
        a.in_range(),
        b.in_range(),
        c.in_range(),
        0 <= k < 3,
    ensures
        normal_at(a, b, c, k) == edge(a, b, next_axis(k)) * edge(a, c, prev_axis(k)) - edge(
            a,
            b,
            prev_axis(k),
        ) * edge(a, c, next_axis(k)),
        within(normal_at(a, b, c, k), 0x200_0000_0000),
{
    reveal(normal_at);
    reveal(cross2);
    let u = next_axis(k);
    let v = prev_axis(k);
    lemma_mul_within(edge(a, b, u), edge(a, c, v), 0x10_0000, 0x10_0000);
    lemma_mul_within(edge(a, b, v), edge(a, c, u), 0x10_0000, 0x10_0000);
}

/// The coefficients of a triangle within the coordinate limit are what their
/// definitions say, without loss: none of them leaves the machine integers.
pub proof fn lemma_precompute_exact(a: Vec3, b: Vec3, c: Vec3)
    requires
        a.in_range(),
        b.in_range(),
        c.in_range(),
    ensures
        ({
            let t = spec_precompute(a, b, c);
            let k = dominant_axis(a, b, c);
            let u = next_axis(k);
            let v = prev_axis(k);
            &&& 0 <= k < 3
            &&& t.k == k
            &&& t.u == u
            &&& t.v == v
            &&& t.n_k == normal_at(a, b, c, k)
            &&& t.n_u == normal_at(a, b, c, u)
            &&& t.n_v == normal_at(a, b, c, v)
            &&& t.n_d == t.n_k * a.at(k) + t.n_u * a.at(u) + t.n_v * a.at(v)
            &&& t.b_nu == -edge(a, b, v)
            &&& t.b_nv == edge(a, b, u)
            &&& t.b_d == edge(a, b, v) * a.at(u) - edge(a, b, u) * a.at(v)
            &&& t.c_nu == edge(a, c, v)
            &&& t.c_nv == -edge(a, c, u)
            &&& t.c_d == edge(a, c, u) * a.at(v) - edge(a, c, v) * a.at(u)
            &&& t.wf()
        }),
{
    reveal(dominant_axis);
    reveal(cross2);
    reveal(dot3);
    let k = dominant_axis(a, b, c);
    let u = next_axis(k);
    let v = prev_axis(k);
    lemma_normal(a, b, c, k);
    lemma_normal(a, b, c, u);
    lemma_normal(a, b, c, v);
    let (nk, nu, nv) = (normal_at(a, b, c, k), normal_at(a, b, c, u), normal_at(a, b, c, v));
    lemma_mul_within(nk, a.at(k), 0x200_0000_0000, 0x8_0000);
    lemma_mul_within(nu, a.at(u), 0x200_0000_0000, 0x8_0000);
    lemma_mul_within(nv, a.at(v), 0x200_0000_0000, 0x8_0000);
    lemma_mul_within(edge(a, b, v), a.at(u), 0x10_0000, 0x8_0000);
    lemma_mul_within(edge(a, b, u), a.at(v), 0x10_0000, 0x8_0000);
    lemma_mul_within(edge(a, c, u), a.at(v), 0x10_0000, 0x8_0000);
    lemma_mul_within(edge(a, c, v), a.at(u), 0x10_0000, 0x8_0000);
}

/// A barycentric coordinate, as the coefficients of a triangle give it, is
/// the cross product of an edge with the point counted from the first vertex.
pub proof fn lemma_coordinate_form(su: int, sv: int, f: int, au: int, av: int, eu: int, ev: int)
    ensures
        su * (-ev) + sv * eu + (ev * au - eu * av) * f == eu * (sv - f * av) - ev * (su - f * au),
{
    let fav = f * av;
    let fau = f * au;
    assert(eu * (sv - fav) == eu * sv - eu * fav) by (nonlinear_arith);
    assert(ev * (su - fau) == ev * su - ev * fau) by (nonlinear_arith);
    assert(su * (-ev) == -(ev * su)) by (nonlinear_arith);
    assert(sv * eu == eu * sv) by (nonlinear_arith);
    let eva = ev * au;
    let eua = eu * av;
    assert((eva - eua) * f == eva * f - eua * f) by (nonlinear_arith);
    assert(eva * f == ev * fau) by (nonlinear_arith)
        requires
            eva == ev * au,
            fau == f * au,
    ;
    assert(eua * f == eu * fav) by (nonlinear_arith)
        requires
            eua == eu * av,
            fav == f * av,
    ;
}

/// The height of the point where the ray meets the plane, over a plane
/// `bound`, from the point counted from a vertex at `a`.
pub proof fn lemma_height_form(o: int, d: int, offset: int, facing: int, a: int, bound: int)
    ensures
        (o - bound) * facing + d * offset == (o * facing + offset * d - facing * a) - (bound - a)
            * facing,
{
    assert((o - bound) * facing == o * facing - bound * facing) by (nonlinear_arith);
    assert((bound - a) * facing == bound * facing - facing * a) by (nonlinear_arith);
    assert(d * offset == offset * d) by (nonlinear_arith);
}

/// The point where a ray meets a triangle lies, along each axis, between the
/// least and the largest coordinate of the three vertices.
pub proof fn lemma_hit_in_box(a: Vec3, b: Vec3, c: Vec3, ray: Ray, axis: int)
    requires
        a.in_range(),
        b.in_range(),
        c.in_range(),
        0 <= axis < 3,
        spec_precompute(a, b, c).struck(ray),
    ensures
        ({
            let t = spec_precompute(a, b, c);
            let lo = min_int(min_int(a.at(axis), b.at(axis)), c.at(axis));
            let hi = max_int(max_int(a.at(axis), b.at(axis)), c.at(axis));
            &&& height(ray.origin.at(axis), ray.normal.at(axis), t.hit_t(ray), lo) >= 0
            &&& height(ray.origin.at(axis), ray.normal.at(axis), t.hit_t(ray), hi) <= 0
        }),
{
    lemma_precompute_exact(a, b, c);
    let t = spec_precompute(a, b, c);
    let k = dominant_axis(a, b, c);
    let u = next_axis(k);
    let v = prev_axis(k);
    assert(next_axis(u) == v && prev_axis(u) == k && next_axis(v) == k && prev_axis(v) == u);
    lemma_normal(a, b, c, k);
    lemma_normal(a, b, c, u);
    lemma_normal(a, b, c, v);
    let (e1k, e1u, e1v) = (edge(a, b, k), edge(a, b, u), edge(a, b, v));
    let (e2k, e2u, e2v) = (edge(a, c, k), edge(a, c, u), edge(a, c, v));
    let (nk, nu, nv) = (t.n_k as int, t.n_u as int, t.n_v as int);
    let (ak, au, av) = (a.at(k), a.at(u), a.at(v));
    let (ok, ou, ov) = (ray.origin.at(k), ray.origin.at(u), ray.origin.at(v));
    let (dk, du, dv) = (ray.normal.at(k), ray.normal.at(u), ray.normal.at(v));
    let facing = t.facing(ray);
    let offset = t.offset(ray);
    let (sk, su, sv) = (t.scaled_point(ray, k), t.scaled_point(ray, u), t.scaled_point(ray, v));
    let (pk, pu, pv) = (sk - facing * ak, su - facing * au, sv - facing * av);
    lemma_on_plane(nk, nu, nv, ak, au, av, ok, ou, ov, dk, du, dv);
    assert(nk * pk + nu * pu + nv * pv == 0);
    lemma_barycentric(e1k, e1u, e1v, e2k, e2u, e2v, pk, pu, pv);
    let l = e1u * pv - e1v * pu;
    let m = e2v * pu - e2u * pv;
    lemma_coordinate_form(su, sv, facing, au, av, e1u, e1v);
    lemma_coordinate_form(sv, su, facing, av, au, e2v, e2u);
    assert(t.scaled_lambda(ray) == l);
    assert(t.scaled_mu(ray) == m);
    let q = facing * nk;
    let (e1, e2, p, a_ax) = if axis == k {
        (e1k, e2k, pk, ak)
    } else if axis == u {
        (e1u, e2u, pu, au)
    } else {
        (e1v, e2v, pv, av)
    };
    assert(nk * p == m * e1 + l * e2);
    let lo = min_int(min_int(a.at(axis), b.at(axis)), c.at(axis));
    let hi = max_int(max_int(a.at(axis), b.at(axis)), c.at(axis));
    let low = lo - a_ax;
    let high = hi - a_ax;
    lemma_convex(e1, e2, low, high, l, m, q);
    assert(high * q == q * high && low * q == q * low) by (nonlinear_arith);
    lemma_unscale(p, nk, facing, q, high);
    lemma_unscale_below(p, nk, facing, q, low);
    let o = ray.origin.at(axis);
    let d = ray.normal.at(axis);
    lemma_height_form(o, d, offset, facing, a_ax, hi);
    lemma_height_form(o, d, offset, facing, a_ax, lo);
    assert(p == o * facing + offset * d - facing * a_ax);
    let tau = t.hit_t(ray);
    if facing > 0 {
        assert(tau == Frac { num: offset, den: facing });
    } else {
        assert(tau == Frac { num: -offset, den: -facing });
        assert((o - hi) * (-facing) + d * (-offset) == -((o - hi) * facing + d * offset))
            by (nonlinear_arith);
        assert((o - lo) * (-facing) + d * (-offset) == -((o - lo) * facing + d * offset))
            by (nonlinear_arith);
    }
}

} // verus!
