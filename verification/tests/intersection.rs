use render::moller_trumbore::{test_intersection, test_intersection_branchless};
use render::ratio::Ratio;
use render::triaccel::{precompute, triaccel_intersect};
use render::types::{new_hit, new_ray, Hit, Ray};
use render::vec3::Vec3;

const EPS: f32 = 0.0001;

/// Ten thousand lattice units to the unit of length, so that `EPS` is one
/// lattice unit.
fn lattice(x: f32) -> i32 {
    (x * 10000.0).round() as i32
}

fn point(x: f32, y: f32, z: f32) -> Vec3 {
    Vec3::new(lattice(x), lattice(y), lattice(z))
}

fn p0() -> Vec3 {
    point(-1.0, 0.0, 1.0)
}

fn p1() -> Vec3 {
    point(1.0, 0.0, 1.0)
}

fn p2() -> Vec3 {
    point(0.0, 1.5, 1.0)
}

#[test]
fn moller_trumbore_test_hit() {
    let origin: Vec3 = Vec3::zero();
    let normal: Vec3 = point(0.0, 0.0, 1.0);
    let ray: Ray = new_ray(origin, normal);
    let mut hit: Hit = new_hit();
    let res: bool = test_intersection(&ray, p0(), p1(), p2(), &mut hit);
    assert!(res);
    assert!(hit.t.equals(&Ratio::from_int(1)));
}

#[test]
fn moller_trumbore_test_hit_neg() {
    let origin: Vec3 = Vec3::zero();
    let normal: Vec3 = point(0.0, 0.0, -1.0);
    let ray: Ray = new_ray(origin, normal);
    let mut hit: Hit = new_hit();
    let res: bool = test_intersection(&ray, p0(), p1(), p2(), &mut hit);
    assert!(res);
}

#[test]
fn moller_trumbore_test_epsilon() {
    let origin: Vec3 = Vec3::zero();
    // Shoot the ray just above the tip of the triangle; a direction need not
    // have length one.
    let normal: Vec3 = point(0.0, 1.5 + EPS, 1.0);
    let ray: Ray = new_ray(origin, normal);
    let mut hit: Hit = new_hit();
    let res: bool = test_intersection(&ray, p0(), p1(), p2(), &mut hit);
    assert!(!res);
    // Shoot the ray just below the tip of the triangle.
    let normal: Vec3 = point(0.0, 1.5 - EPS, 1.0);
    let ray: Ray = new_ray(origin, normal);
    let res: bool = test_intersection(&ray, p0(), p1(), p2(), &mut hit);
    assert!(res);
}

#[test]
fn moller_trumbore_hits_the_tip_itself() {
    let ray = new_ray(Vec3::zero(), p2());
    let mut hit = new_hit();
    assert!(test_intersection(&ray, p0(), p1(), p2(), &mut hit));
    assert!(hit.t.equals(&Ratio::from_int(1)));
    assert!(hit.u.equals(&Ratio::from_int(0)));
    assert!(hit.v.equals(&Ratio::from_int(1)));
}

#[test]
fn moller_trumbore_reports_parameter_and_barycentric_coordinates() {
    // triangle in the plane z = 4, ray straight up from (1, 1, 0) with speed 2
    let a = Vec3::new(0, 0, 4);
    let b = Vec3::new(4, 0, 4);
    let c = Vec3::new(0, 4, 4);
    let ray = new_ray(Vec3::new(1, 1, 0), Vec3::new(0, 0, 2));
    let mut hit = new_hit();
    assert!(test_intersection(&ray, a, b, c, &mut hit));
    assert!(hit.t.equals(&Ratio::from_int(2)));
    assert!(hit.u.equals(&Ratio::new(1, 4)));
    assert!(hit.v.equals(&Ratio::new(1, 4)));
    assert!(hit.t.den > 0 && hit.u.den > 0 && hit.v.den > 0);
}

#[test]
fn moller_trumbore_misses_a_parallel_ray_and_leaves_the_hit() {
    let ray = new_ray(Vec3::zero(), Vec3::new(1, 0, 0));
    let mut hit = new_hit();
    hit.tri = 7;
    assert!(!test_intersection(&ray, p0(), p1(), p2(), &mut hit));
    assert_eq!(hit.tri, 7);
    assert_eq!((hit.t.num, hit.t.den), (0, 1));
    assert!(!test_intersection_branchless(&ray, p0(), p1(), p2(), &mut hit));
    assert_eq!((hit.t.num, hit.t.den), (0, 1));
}

#[test]
fn branchless_agrees_with_the_branching_test() {
    let rays = [
        new_ray(Vec3::zero(), point(0.0, 0.0, 1.0)),
        new_ray(Vec3::zero(), point(0.0, 0.0, -1.0)),
        new_ray(Vec3::zero(), point(0.0, 1.5 + EPS, 1.0)),
        new_ray(Vec3::zero(), point(0.0, 1.5 - EPS, 1.0)),
        new_ray(Vec3::zero(), point(1.0, 0.0, 1.0)),
        new_ray(Vec3::zero(), point(-1.0 - EPS, 0.0, 1.0)),
        new_ray(point(0.3, 0.2, -4.0), point(0.0, 0.1, 1.0)),
    ];
    for ray in rays.iter() {
        let mut a = new_hit();
        let mut b = new_hit();
        let ra = test_intersection(ray, p0(), p1(), p2(), &mut a);
        let rb = test_intersection_branchless(ray, p0(), p1(), p2(), &mut b);
        assert_eq!(ra, rb);
        if ra {
            assert!(a.t.equals(&b.t) && a.u.equals(&b.u) && a.v.equals(&b.v));
        }
    }
}

#[test]
fn branchless_fills_the_hit_on_a_miss() {
    let ray = new_ray(Vec3::zero(), point(0.0, 1.5 + EPS, 1.0));
    let mut hit = new_hit();
    assert!(!test_intersection_branchless(&ray, p0(), p1(), p2(), &mut hit));
    assert!(hit.t.equals(&Ratio::from_int(1)));
}

fn far() -> Ratio {
    Ratio::from_int(1000000)
}

#[test]
fn triaccel_hits_the_known_triangle_at_one() {
    let tri = precompute(p0(), p1(), p2());
    let ray = new_ray(Vec3::zero(), point(0.0, 0.0, 1.0));
    let mut hit = new_hit();
    assert!(triaccel_intersect(&tri, &ray, Ratio::from_int(0), far(), &mut hit));
    assert!(hit.t.equals(&Ratio::from_int(1)));
    assert!(hit.t.den > 0);
}

#[test]
fn triaccel_grazes_the_tip_as_the_other_test_does() {
    let tri = precompute(p0(), p1(), p2());
    let mut hit = new_hit();
    let above = new_ray(Vec3::zero(), point(0.0, 1.5 + EPS, 1.0));
    assert!(!triaccel_intersect(&tri, &above, Ratio::from_int(0), far(), &mut hit));
    let below = new_ray(Vec3::zero(), point(0.0, 1.5 - EPS, 1.0));
    assert!(triaccel_intersect(&tri, &below, Ratio::from_int(0), far(), &mut hit));
    let tip = new_ray(Vec3::zero(), p2());
    assert!(triaccel_intersect(&tri, &tip, Ratio::from_int(0), far(), &mut hit));
}

#[test]
fn triaccel_respects_the_interval() {
    let tri = precompute(p0(), p1(), p2());
    let ray = new_ray(Vec3::zero(), point(0.0, 0.0, 1.0));
    let mut hit = new_hit();
    // the hit lies at t = 1
    assert!(triaccel_intersect(&tri, &ray, Ratio::from_int(1), Ratio::from_int(1), &mut hit));
    assert!(!triaccel_intersect(&tri, &ray, Ratio::new(3, 2), far(), &mut hit));
    assert!(!triaccel_intersect(&tri, &ray, Ratio::from_int(0), Ratio::new(1, 2), &mut hit));
    // behind the origin
    let back = new_ray(Vec3::zero(), point(0.0, 0.0, -1.0));
    assert!(!triaccel_intersect(&tri, &back, Ratio::from_int(0), far(), &mut hit));
    assert!(triaccel_intersect(&tri, &back, Ratio::from_int(-2), far(), &mut hit));
    assert!(hit.t.equals(&Ratio::from_int(-1)));
}

#[test]
fn triaccel_leaves_the_hit_on_a_miss() {
    let tri = precompute(p0(), p1(), p2());
    let ray = new_ray(Vec3::zero(), point(1.0, 0.0, 0.0));
    let mut hit = new_hit();
    hit.tri = 3;
    hit.t = Ratio::new(5, 7);
    assert!(!triaccel_intersect(&tri, &ray, Ratio::from_int(0), far(), &mut hit));
    assert_eq!((hit.t.num, hit.t.den, hit.tri), (5, 7, 3));
}

#[test]
fn triaccel_never_hits_a_degenerate_triangle() {
    let a = Vec3::new(0, 0, 5);
    let b = Vec3::new(2, 2, 5);
    let c = Vec3::new(4, 4, 5);
    let tri = precompute(a, b, c);
    assert_eq!(tri.n_k, 0);
    let mut hit = new_hit();
    let ray = new_ray(Vec3::new(2, 2, 0), Vec3::new(0, 0, 1));
    assert!(!triaccel_intersect(&tri, &ray, Ratio::from_int(0), far(), &mut hit));
}

#[test]
fn precompute_picks_the_longest_axis_of_the_normal() {
    // normal along -x: (b - a) x (c - a) = (0,0,2) x (0,2,0) = (-4, 0, 0)
    let a = Vec3::new(1, 0, 0);
    let b = Vec3::new(1, 0, 2);
    let c = Vec3::new(1, 2, 0);
    let tri = precompute(a, b, c);
    assert_eq!((tri.k, tri.u, tri.v), (0, 1, 2));
    assert_eq!(tri.n_k, -4);
    assert_eq!(tri.sign, -1);
    assert_eq!((tri.n_u, tri.n_v), (0, 0));
    assert_eq!(tri.n_d, -4);
    // a tie between y and z goes to y
    let a = Vec3::new(0, 0, 0);
    let b = Vec3::new(2, 0, 0);
    let c = Vec3::new(0, 2, 2);
    let tri = precompute(a, b, c);
    // normal = (2,0,0) x (0,2,2) = (0, -4, 4)
    assert_eq!(tri.k, 1);
    assert_eq!((tri.u, tri.v), (2, 0));
    assert_eq!(tri.n_k, -4);
    assert_eq!(tri.sign, -1);
}

#[test]
fn precompute_gives_the_coefficients_of_the_known_triangle() {
    // vertices (-2,0,2), (2,0,2), (0,3,2): normal (0, 0, 12)
    let tri = precompute(Vec3::new(-2, 0, 2), Vec3::new(2, 0, 2), Vec3::new(0, 3, 2));
    assert_eq!((tri.k, tri.u, tri.v), (2, 0, 1));
    assert_eq!((tri.n_k, tri.n_u, tri.n_v, tri.n_d), (12, 0, 0, 24));
    assert_eq!(tri.sign, 1);
    // bx = 4, by = 0, cx = 2, cy = 3, ax = -2, ay = 0
    assert_eq!((tri.b_nu, tri.b_nv, tri.b_d), (0, 4, 0));
    assert_eq!((tri.c_nu, tri.c_nv, tri.c_d), (3, -2, 6));
}
