use render::bih::{BihState, Node};
use render::ratio::Ratio;
use render::scene::{compute_bih, Scene, Triangle};
use render::traverse::{intersect_ray, traverse};
use render::triaccel::triaccel_intersect;
use render::types::{new_hit, new_ray, Hit, Ray};
use render::vec3::Vec3;

struct Lcg(u64);

impl Lcg {
    fn next(&mut self) -> u64 {
        self.0 = self.0.wrapping_mul(6364136223846793005).wrapping_add(1442695040888963407);
        self.0 >> 33
    }

    fn between(&mut self, lo: i32, hi: i32) -> i32 {
        lo + (self.next() % ((hi - lo + 1) as u64)) as i32
    }

    fn point(&mut self, lo: i32, hi: i32) -> Vec3 {
        Vec3::new(self.between(lo, hi), self.between(lo, hi), self.between(lo, hi))
    }
}

/// A scene of `count` triangles, each with three vertices of its own.
fn scene_of(triangles: &[(Vec3, Vec3, Vec3)]) -> Scene {
    let mut scene = Scene::new();
    if triangles.is_empty() {
        return scene;
    }
    let mut vbuffer = Vec::new();
    let mut tbuffer = Vec::new();
    for (i, (a, b, c)) in triangles.iter().enumerate() {
        vbuffer.push(*a);
        vbuffer.push(*b);
        vbuffer.push(*c);
        let base = 3 * i as u32;
        tbuffer.push(Triangle { t0: base, t1: base + 1, t2: base + 2, mat: 0 });
    }
    scene.add_object(&mut vbuffer, &mut tbuffer);
    scene
}

fn random_triangles(rng: &mut Lcg, count: usize) -> Vec<(Vec3, Vec3, Vec3)> {
    let mut out = Vec::new();
    for _ in 0..count {
        let a = rng.point(-200, 200);
        let b = Vec3::new(a.x + rng.between(-40, 40), a.y + rng.between(-40, 40), a.z + rng.between(-40, 40));
        let c = Vec3::new(a.x + rng.between(-40, 40), a.y + rng.between(-40, 40), a.z + rng.between(-40, 40));
        out.push((a, b, c));
    }
    out
}

/// The closest hit among all triangles, each tested in turn.
fn brute_force(scene: &Scene, ray: &Ray, tmin: Ratio, tmax: Ratio) -> Option<Hit> {
    let mut best: Option<Hit> = None;
    for (i, tri) in scene.triaccels.iter().enumerate() {
        let mut hit = new_hit();
        hit.tri = i as u32;
        if triaccel_intersect(tri, ray, tmin, tmax, &mut hit) {
            let closer = match best {
                None => true,
                Some(b) => hit.t.lt(&b.t),
            };
            if closer {
                best = Some(hit);
            }
        }
    }
    best
}

fn same_distance(a: &Option<Hit>, b: &Option<Hit>) -> bool {
    match (a, b) {
        (None, None) => true,
        (Some(x), Some(y)) => x.t.equals(&y.t),
        _ => false,
    }
}

fn zero() -> Ratio {
    Ratio::from_int(0)
}

fn far() -> Ratio {
    Ratio::from_int(100000)
}

#[test]
fn traverse_finds_the_known_triangle() {
    let scene = scene_of(&[(Vec3::new(-10, 0, 10), Vec3::new(10, 0, 10), Vec3::new(0, 15, 10))]);
    let bih = compute_bih(&scene, 5);
    let ray = new_ray(Vec3::zero(), Vec3::new(0, 0, 10));
    let hit = traverse(&scene, &bih, 0, &ray, zero(), far()).unwrap();
    assert!(hit.t.equals(&Ratio::from_int(1)));
    assert_eq!(hit.tri, 0);
    // dot is the reciprocal of the direction along the scaled normal
    assert!(hit.dot.equals(&Ratio::new(1, 10)));
    let away = new_ray(Vec3::zero(), Vec3::new(0, 0, -10));
    assert!(traverse(&scene, &bih, 0, &away, zero(), far()).is_none());
    assert!(traverse(&scene, &bih, 0, &away, Ratio::from_int(-5), far()).is_some());
}

#[test]
fn traverse_returns_the_nearer_of_two_triangles() {
    // two parallel triangles, the second one nearer to the origin
    let scene = scene_of(&[
        (Vec3::new(-10, -10, 50), Vec3::new(10, -10, 50), Vec3::new(0, 10, 50)),
        (Vec3::new(-10, -10, 20), Vec3::new(10, -10, 20), Vec3::new(0, 10, 20)),
    ]);
    let ray = new_ray(Vec3::zero(), Vec3::new(0, 0, 1));
    for leaf_bound in [1usize, 2, 5] {
        let bih = compute_bih(&scene, leaf_bound);
        let hit = traverse(&scene, &bih, 0, &ray, zero(), far()).unwrap();
        assert_eq!(hit.tri, 1);
        assert!(hit.t.equals(&Ratio::from_int(20)));
        // past the first triangle only the far one is left
        let hit = traverse(&scene, &bih, 0, &ray, Ratio::from_int(21), far()).unwrap();
        assert_eq!(hit.tri, 0);
        assert!(hit.t.equals(&Ratio::from_int(50)));
        // from the other side the far one comes first
        let back = new_ray(Vec3::new(0, 0, 100), Vec3::new(0, 0, -1));
        let hit = traverse(&scene, &bih, 0, &back, zero(), far()).unwrap();
        assert_eq!(hit.tri, 0);
        assert!(hit.t.equals(&Ratio::from_int(50)));
    }
}

#[test]
fn traverse_of_an_empty_scene_finds_nothing() {
    let scene = Scene::new();
    let bih = compute_bih(&scene, 5);
    assert_eq!(bih.nodes, vec![Node::Leaf { start: 1, stop: 0 }]);
    let ray = new_ray(Vec3::zero(), Vec3::new(0, 0, 1));
    assert!(traverse(&scene, &bih, 0, &ray, zero(), far()).is_none());
}

#[test]
fn traverse_of_an_empty_interval_finds_nothing() {
    let scene = scene_of(&[(Vec3::new(-10, 0, 10), Vec3::new(10, 0, 10), Vec3::new(0, 15, 10))]);
    let bih = compute_bih(&scene, 5);
    let ray = new_ray(Vec3::zero(), Vec3::new(0, 0, 10));
    assert!(traverse(&scene, &bih, 0, &ray, Ratio::from_int(1), Ratio::from_int(1)).is_none());
    assert!(traverse(&scene, &bih, 0, &ray, Ratio::from_int(2), Ratio::from_int(0)).is_none());
    assert!(traverse(&scene, &bih, 0, &ray, Ratio::new(1, 2), Ratio::new(3, 2)).is_some());
}

#[test]
fn traverse_handles_a_ray_without_direction() {
    let scene = scene_of(&random_triangles(&mut Lcg(3), 40));
    let bih = compute_bih(&scene, 2);
    let ray = new_ray(Vec3::new(1, 2, 3), Vec3::zero());
    assert!(traverse(&scene, &bih, 0, &ray, zero(), far()).is_none());
}

#[test]
fn intersect_ray_takes_the_first_of_equally_close_hits() {
    // the same triangle twice
    let t = (Vec3::new(-10, 0, 10), Vec3::new(10, 0, 10), Vec3::new(0, 15, 10));
    let scene = scene_of(&[t, t]);
    let ray = new_ray(Vec3::zero(), Vec3::new(0, 1, 10));
    let hit = intersect_ray(&scene, &[1, 0], &ray, zero(), far(), &0, &1).unwrap();
    assert_eq!(hit.tri, 1);
    let hit = intersect_ray(&scene, &[0, 1], &ray, zero(), far(), &0, &1).unwrap();
    assert_eq!(hit.tri, 0);
    let hit = intersect_ray(&scene, &[0, 1], &ray, zero(), far(), &1, &1).unwrap();
    assert_eq!(hit.tri, 1);
    assert!(intersect_ray(&scene, &[0, 1], &ray, zero(), far(), &1, &0).is_none());
    assert!(intersect_ray(&scene, &[0, 1], &ray, zero(), far(), &5, &0).is_none());
}

#[test]
fn traverse_agrees_with_testing_every_triangle() {
    let mut rng = Lcg(20240229);
    let mut hits = 0;
    let mut rays = 0;
    for round in 0..40 {
        let count = 1 + (round * 7) % 60;
        let scene = scene_of(&random_triangles(&mut rng, count));
        for leaf_bound in [1usize, 3] {
            let bih = compute_bih(&scene, leaf_bound);
            for _ in 0..40 {
                let origin = rng.point(-300, 300);
                let target = rng.point(-200, 200);
                let normal = Vec3::new(target.x - origin.x, target.y - origin.y, target.z - origin.z);
                let ray = new_ray(origin, normal);
                let found = traverse(&scene, &bih, 0, &ray, zero(), far());
                let wanted = brute_force(&scene, &ray, zero(), far());
                assert!(same_distance(&found, &wanted), "ray {:?}: {:?} but {:?}", ray, found, wanted);
                rays += 1;
                if found.is_some() {
                    hits += 1;
                }
            }
        }
    }
    assert_eq!(rays, 3200);
    assert!(hits > 100);
}

#[test]
fn traverse_agrees_with_testing_every_triangle_in_each_octant() {
    let mut rng = Lcg(99);
    let scene = scene_of(&random_triangles(&mut rng, 120));
    let bih = compute_bih(&scene, 2);
    for sx in [-1, 0, 1] {
        for sy in [-1, 0, 1] {
            for sz in [-1, 0, 1] {
                let mut hits = 0;
                for _ in 0..150 {
                    let normal = Vec3::new(
                        sx * rng.between(1, 30),
                        sy * rng.between(1, 30),
                        sz * rng.between(1, 30),
                    );
                    // start beyond the scene, on the side the ray comes from
                    let origin = Vec3::new(
                        rng.between(-200, 200) - 400 * sx,
                        rng.between(-200, 200) - 400 * sy,
                        rng.between(-200, 200) - 400 * sz,
                    );
                    let ray = new_ray(origin, normal);
                    let found = traverse(&scene, &bih, 0, &ray, zero(), far());
                    let wanted = brute_force(&scene, &ray, zero(), far());
                    assert!(same_distance(&found, &wanted));
                    if found.is_some() {
                        hits += 1;
                    }
                }
                if sx != 0 && sy != 0 && sz != 0 {
                    assert!(hits > 0);
                }
            }
        }
    }
}

#[test]
fn traverse_agrees_within_a_short_interval() {
    let mut rng = Lcg(7);
    let scene = scene_of(&random_triangles(&mut rng, 80));
    let bih = compute_bih(&scene, 1);
    for _ in 0..400 {
        let origin = rng.point(-250, 250);
        let normal = rng.point(-20, 20);
        let ray = new_ray(origin, normal);
        let tmin = Ratio::new(rng.between(0, 30) as i64, 7);
        let tmax = Ratio::new(rng.between(31, 200) as i64, 5);
        let found = traverse(&scene, &bih, 0, &ray, tmin, tmax);
        let wanted = brute_force(&scene, &ray, tmin, tmax);
        assert!(same_distance(&found, &wanted));
        if let Some(hit) = found {
            assert!(tmin.le(&hit.t) && hit.t.le(&tmax));
        }
    }
}

#[test]
fn building_twice_gives_the_same_hits() {
    let mut rng = Lcg(1234);
    let triangles = random_triangles(&mut rng, 70);
    let scene = scene_of(&triangles);
    let again = scene_of(&triangles);
    let first: BihState = compute_bih(&scene, 2);
    let second: BihState = compute_bih(&again, 2);
    assert_eq!(first.nodes, second.nodes);
    assert_eq!(first.index, second.index);
    for _ in 0..300 {
        let ray = new_ray(rng.point(-300, 300), rng.point(-30, 30));
        let a = traverse(&scene, &first, 0, &ray, zero(), far());
        let b = traverse(&again, &second, 0, &ray, zero(), far());
        match (a, b) {
            (None, None) => {}
            (Some(x), Some(y)) => {
                assert_eq!((x.t.num, x.t.den), (y.t.num, y.t.den));
                assert_eq!((x.dot.num, x.dot.den), (y.dot.num, y.dot.den));
                assert_eq!((x.u.num, x.u.den, x.v.num, x.v.den), (y.u.num, y.u.den, y.v.num, y.v.den));
                assert_eq!(x.tri, y.tri);
            }
            _ => panic!("one walk hit, the other did not"),
        }
    }
}

#[test]
fn traverse_from_a_child_sees_the_triangles_of_that_child_only() {
    let scene = scene_of(&[
        (Vec3::new(-100, -10, 50), Vec3::new(-80, -10, 50), Vec3::new(-90, 10, 50)),
        (Vec3::new(80, -10, 50), Vec3::new(100, -10, 50), Vec3::new(90, 10, 50)),
    ]);
    let bih = compute_bih(&scene, 1);
    assert_eq!(bih.nodes.len(), 3);
    let (left, right) = match bih.nodes[0] {
        Node::Node { left, right, axis, leftclip, rightclip } => {
            assert_eq!((axis, leftclip, rightclip), (0, -80, 80));
            (left, right)
        }
        _ => panic!("the root is a leaf"),
    };
    let ray = new_ray(Vec3::new(-90, 0, 0), Vec3::new(0, 0, 1));
    assert!(traverse(&scene, &bih, 0, &ray, zero(), far()).is_some());
    assert!(traverse(&scene, &bih, left, &ray, zero(), far()).is_some());
    assert!(traverse(&scene, &bih, right, &ray, zero(), far()).is_none());
}

#[test]
fn a_hit_at_the_start_of_the_interval_on_a_clip_plane_is_passed_over() {
    // the first triangle lies in the plane x = 0, which is the left clip
    // plane; the ray starts on it, at the very start of the interval
    let scene = scene_of(&[
        (Vec3::new(0, -10, -10), Vec3::new(0, 10, -10), Vec3::new(0, 0, 10)),
        (Vec3::new(100, 50, 50), Vec3::new(120, 50, 50), Vec3::new(100, 60, 50)),
    ]);
    let bih = compute_bih(&scene, 1);
    match bih.nodes[0] {
        Node::Node { axis, leftclip, rightclip, .. } => {
            assert_eq!((axis, leftclip, rightclip), (0, 0, 100));
        }
        _ => panic!("the root is a leaf"),
    }
    let ray = new_ray(Vec3::zero(), Vec3::new(1, 0, 0));
    let every = brute_force(&scene, &ray, zero(), far()).unwrap();
    assert!(every.t.equals(&zero()));
    // the interval left for the first child is empty
    assert!(traverse(&scene, &bih, 0, &ray, zero(), far()).is_none());
    // from a little earlier on the walk finds it
    let found = traverse(&scene, &bih, 0, &ray, Ratio::new(-1, 2), far()).unwrap();
    assert!(found.t.equals(&zero()));
    assert_eq!(found.tri, 0);
}
