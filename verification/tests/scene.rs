use render::aabb::{empty, make};
use render::scene::{compute_bih, triangle_aabb, Scene, Triangle};
use render::triaccel::precompute;
use render::vec3::Vec3;

#[test]
fn triangle_aabb_holds_the_three_vertices() {
    let vertices = [
        Vec3::new(9, 9, 9),
        Vec3::new(-1, 4, 2),
        Vec3::new(3, -2, 2),
        Vec3::new(0, 0, 7),
    ];
    let tri = Triangle { t0: 1, t1: 3, t2: 2, mat: 0 };
    assert_eq!(triangle_aabb(&vertices, &tri), make(Vec3::new(-1, -2, 2), Vec3::new(3, 4, 7)));
}

#[test]
fn a_new_scene_is_empty() {
    let scene = Scene::new();
    assert!(scene.vbuffer.is_empty());
    assert!(scene.tbuffer.is_empty());
    assert!(scene.bboxes.is_empty());
    assert!(scene.triaccels.is_empty());
    assert_eq!(scene.global, empty());
}

#[test]
fn add_object_renumbers_triangles_and_measures_them() {
    let mut scene = Scene::new();
    let mut vertices = vec![Vec3::new(0, 0, 0), Vec3::new(4, 0, 0), Vec3::new(0, 4, 0)];
    let mut triangles = vec![Triangle { t0: 0, t1: 1, t2: 2, mat: 3 }];
    let first = scene.add_object(&mut vertices, &mut triangles);
    assert_eq!((first.tstart, first.tstop), (0, 0));
    assert!(vertices.is_empty());
    assert_eq!(triangles, vec![Triangle { t0: 0, t1: 1, t2: 2, mat: 3 }]);

    let mut vertices = vec![
        Vec3::new(10, 10, 10),
        Vec3::new(12, 10, 10),
        Vec3::new(10, 13, 10),
        Vec3::new(10, 10, 15),
    ];
    let mut triangles = vec![
        Triangle { t0: 0, t1: 1, t2: 2, mat: 0 },
        Triangle { t0: 0, t1: 2, t2: 3, mat: 1 },
    ];
    let second = scene.add_object(&mut vertices, &mut triangles);
    assert_eq!((second.tstart, second.tstop), (1, 2));
    assert_eq!(
        triangles,
        vec![Triangle { t0: 3, t1: 4, t2: 5, mat: 0 }, Triangle { t0: 3, t1: 5, t2: 6, mat: 1 }]
    );
    assert_eq!(scene.vbuffer.len(), 7);
    assert_eq!(scene.vbuffer[6], Vec3::new(10, 10, 15));
    assert_eq!(scene.tbuffer.len(), 3);
    assert_eq!(scene.tbuffer[2], Triangle { t0: 3, t1: 5, t2: 6, mat: 1 });
    assert_eq!(
        scene.bboxes,
        vec![
            make(Vec3::new(0, 0, 0), Vec3::new(4, 4, 0)),
            make(Vec3::new(10, 10, 10), Vec3::new(12, 13, 10)),
            make(Vec3::new(10, 10, 10), Vec3::new(10, 13, 15)),
        ]
    );
    assert_eq!(scene.global, make(Vec3::new(0, 0, 0), Vec3::new(12, 13, 15)));
    assert_eq!(scene.triaccels.len(), 3);
    assert_eq!(
        scene.triaccels[2],
        precompute(Vec3::new(10, 10, 10), Vec3::new(10, 13, 10), Vec3::new(10, 10, 15))
    );
}

#[test]
fn iter_triangles_walks_the_triangles_in_order() {
    let mut scene = Scene::new();
    let mut vertices = vec![
        Vec3::new(0, 0, 0),
        Vec3::new(4, 0, 0),
        Vec3::new(0, 4, 0),
        Vec3::new(0, 0, 4),
    ];
    let mut triangles = vec![
        Triangle { t0: 0, t1: 1, t2: 2, mat: 0 },
        Triangle { t0: 3, t1: 2, t2: 1, mat: 0 },
    ];
    scene.add_object(&mut vertices, &mut triangles);
    let mut walk = scene.iter_triangles();
    assert_eq!(walk.next(), Some((Vec3::new(0, 0, 0), Vec3::new(4, 0, 0), Vec3::new(0, 4, 0))));
    assert_eq!(walk.next(), Some((Vec3::new(0, 0, 4), Vec3::new(0, 4, 0), Vec3::new(4, 0, 0))));
    assert_eq!(walk.next(), None);
    assert_eq!(walk.next(), None);
}

#[test]
fn compute_bih_of_a_scene_uses_its_boxes() {
    let mut scene = Scene::new();
    let mut vertices = vec![
        Vec3::new(0, 0, 0),
        Vec3::new(4, 0, 0),
        Vec3::new(0, 4, 0),
        Vec3::new(100, 0, 0),
        Vec3::new(104, 0, 0),
        Vec3::new(100, 4, 0),
    ];
    let mut triangles =
        vec![Triangle { t0: 3, t1: 4, t2: 5, mat: 0 }, Triangle { t0: 0, t1: 1, t2: 2, mat: 0 }];
    scene.add_object(&mut vertices, &mut triangles);
    let bih = compute_bih(&scene, 1);
    assert_eq!(bih.boxes, scene.bboxes);
    assert_eq!(bih.global, scene.global);
    assert_eq!(bih.index, vec![1, 0]);
    assert_eq!(bih.nodes.len(), 3);
}

#[test]
fn the_scene_checks_itself() {
    let mut scene = Scene::new();
    assert!(scene.is_wf());
    let mut vertices = vec![Vec3::new(0, 0, 0), Vec3::new(4, 0, 0), Vec3::new(0, 4, 0)];
    let mut triangles = vec![Triangle { t0: 0, t1: 1, t2: 2, mat: 0 }];
    scene.add_object(&mut vertices, &mut triangles);
    assert!(scene.is_wf());
    let global = scene.global;
    scene.global = empty();
    assert!(!scene.is_wf());
    scene.global = global;
    scene.vbuffer[1] = Vec3::new(5, 0, 0);
    assert!(!scene.is_wf());
    scene.vbuffer[1] = Vec3::new(4, 0, 0);
    assert!(scene.is_wf());
    scene.tbuffer[0].t2 = 3;
    assert!(!scene.is_wf());
    scene.tbuffer[0].t2 = 2;
    scene.triaccels[0].n_d += 1;
    assert!(!scene.is_wf());
    scene.triaccels[0].n_d -= 1;
    scene.vbuffer.push(Vec3::new(0, 0, 600000));
    assert!(!scene.is_wf());
}
