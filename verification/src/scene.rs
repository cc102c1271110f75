//! The triangles of a scene, with the box and the test coefficients of each.
use crate::aabb::{empty, hull, join, make, spec_empty, Aabb};
use crate::bih::{allocate, is_permutation, BihState, Elt};
use crate::construction::holds_hierarchy;
use crate::triaccel::{precompute, spec_precompute, TriAccel};
use crate::vec3::Vec3;
use vstd::prelude::*;

verus! {

/// A corner of a triangle.
pub type Vertex = Vec3;

/// Three vertices, by their places in the vertex buffer, and a material.
#[derive(Clone, Copy, Debug, PartialEq, Eq, Structural)]
pub struct Triangle {
    pub t0: u32,
    pub t1: u32,
    pub t2: u32,
    pub mat: u32,
}

/// The triangles `tstart..=tstop` of a scene, added together.
#[derive(Clone, Copy, Debug, PartialEq, Eq, Structural)]
pub struct Object {
    pub tstart: usize,
    pub tstop: usize,
}

/// Vertices and triangles, and for each triangle its box and its test
/// coefficients, in the order of the triangles.
pub struct Scene {
    pub vbuffer: Vec<Vertex>,
    pub tbuffer: Vec<Triangle>,
    pub bboxes: Vec<Aabb>,
    pub triaccels: Vec<TriAccel>,
    pub global: Aabb,
}

/// The three vertices of the triangle are in the buffer.
pub open spec fn spec_in_buffer(vertices: Seq<Vertex>, tri: Triangle) -> bool {
    tri.t0 < vertices.len() && tri.t1 < vertices.len() && tri.t2 < vertices.len()
}

/// The smallest box that holds the three vertices of the triangle.
pub open spec fn spec_triangle_aabb(vertices: Seq<Vertex>, tri: Triangle) -> Aabb {
    let p0 = vertices[tri.t0 as int];
    let p1 = vertices[tri.t1 as int];
    let p2 = vertices[tri.t2 as int];
    Aabb { mins: p0.spec_min(p1).spec_min(p2), maxs: p0.spec_max(p1).spec_max(p2) }
}

/// The coefficients of the triangle.
pub open spec fn spec_triangle_accel(vertices: Seq<Vertex>, tri: Triangle) -> TriAccel {
    spec_precompute(vertices[tri.t0 as int], vertices[tri.t1 as int], vertices[tri.t2 as int])
}

/// Walks the triangles of a scene in their order.
pub struct TriangleIterator<'a> {
    pub current: usize,
    pub vbuffer: &'a Vec<Vertex>,
    pub tbuffer: &'a Vec<Triangle>,
}

impl<'a> TriangleIterator<'a> {
    /// The walk has not passed the end, and every triangle has its vertices
    /// in the buffer.
    pub open spec fn wf(&self) -> bool {
        &&& self.current <= self.tbuffer@.len()
        &&& forall|i: int|
            0 <= i < self.tbuffer@.len() ==> spec_in_buffer(self.vbuffer@, #[trigger] self.tbuffer@[i])
    }

    /// The three vertices of the next triangle, or nothing after the last one.
    pub fn next(&mut self) -> (r: Option<(Vertex, Vertex, Vertex)>)
        requires
            old(self).wf(),
        ensures
            final(self).wf(),
            final(self).vbuffer == old(self).vbuffer,
            final(self).tbuffer == old(self).tbuffer,
            old(self).current == old(self).tbuffer@.len() ==> r is None && final(self).current == old(
                self,
            ).current,
            old(self).current < old(self).tbuffer@.len() ==> final(self).current == old(self).current
                + 1 && r == Some(spec_corners(old(self).vbuffer@, old(self).tbuffer@[old(self).current as int])),
    {
        if self.current == self.tbuffer.len() {
            None
        } else {
            let current: usize = self.current;
            let tri = &self.tbuffer[current];
            let v0 = self.vbuffer[tri.t0 as usize];
            let v1 = self.vbuffer[tri.t1 as usize];
            let v2 = self.vbuffer[tri.t2 as usize];
            self.current = current + 1;
            Some((v0, v1, v2))
        }
    }
}

/// The three vertices of the triangle.
pub open spec fn spec_corners(vertices: Seq<Vertex>, tri: Triangle) -> (Vertex, Vertex, Vertex) {
    (vertices[tri.t0 as int], vertices[tri.t1 as int], vertices[tri.t2 as int])
}

/// The triangle with the places of its vertices moved up by `shift`.
pub open spec fn shifted(tri: Triangle, shift: int) -> Triangle {
    Triangle {
        t0: (tri.t0 + shift) as u32,
        t1: (tri.t1 + shift) as u32,
        t2: (tri.t2 + shift) as u32,
        mat: tri.mat,
    }
}

impl Scene {
    /// Every vertex is within the coordinate limit, every triangle has its
    /// vertices in the buffer, box and coefficients of each triangle are those
    /// of its vertices, and `global` is the hull of the boxes.
    pub open spec fn wf(&self) -> bool {
        &&& forall|i: int| 0 <= i < self.vbuffer@.len() ==> (#[trigger] self.vbuffer@[i]).in_range()
        &&& self.tbuffer@.len() <= u32::MAX
        &&& self.bboxes@.len() == self.tbuffer@.len()
        &&& self.triaccels@.len() == self.tbuffer@.len()
        &&& forall|i: int|
            0 <= i < self.tbuffer@.len() ==> spec_in_buffer(self.vbuffer@, #[trigger] self.tbuffer@[i])
        &&& forall|i: int|
            0 <= i < self.tbuffer@.len() ==> (#[trigger] self.bboxes@[i]) == spec_triangle_aabb(
                self.vbuffer@,
                self.tbuffer@[i],
            )
        &&& forall|i: int|
            0 <= i < self.tbuffer@.len() ==> (#[trigger] self.triaccels@[i]) == spec_triangle_accel(
                self.vbuffer@,
                self.tbuffer@[i],
            )
        &&& forall|i: int| 0 <= i < self.triaccels@.len() ==> (#[trigger] self.triaccels@[i]).wf()
        &&& self.global == hull(self.bboxes@)
    }

    /// The scene without triangles.
    pub fn new() -> (r: Scene)
        ensures
            r.wf(),
            r.vbuffer@.len() == 0,
            r.tbuffer@.len() == 0,
            r.global == spec_empty(),
    {
        Scene {
            vbuffer: Vec::new(),
            tbuffer: Vec::new(),
            bboxes: Vec::new(),
            triaccels: Vec::new(),
            global: empty(),
        }
    }

    /// Tests whether the scene is well formed.
    pub fn is_wf(&self) -> (r: bool)
        ensures
            r == self.wf(),
    {
        let count: usize = self.tbuffer.len();
        if count > u32::MAX as usize || self.bboxes.len() != count || self.triaccels.len() != count {
            return false;
        }
        let mut v: usize = 0;
        while v < self.vbuffer.len()
            invariant
                v <= self.vbuffer@.len(),
                forall|i: int| 0 <= i < v ==> (#[trigger] self.vbuffer@[i]).in_range(),
            decreases self.vbuffer@.len() - v,
        {
            if !self.vbuffer[v].is_in_range() {
                return false;
            }
            v += 1;
        }
        let mut global: Aabb = empty();
        let mut i: usize = 0;
        while i < count
            invariant
                i <= count,
                count == self.tbuffer@.len(),
                count == self.bboxes@.len(),
                count == self.triaccels@.len(),
                forall|j: int| 0 <= j < self.vbuffer@.len() ==> (#[trigger] self.vbuffer@[j]).in_range(),
                forall|j: int| 0 <= j < i ==> spec_in_buffer(self.vbuffer@, #[trigger] self.tbuffer@[j]),
                forall|j: int|
                    0 <= j < i ==> (#[trigger] self.bboxes@[j]) == spec_triangle_aabb(
                        self.vbuffer@,
                        self.tbuffer@[j],
                    ),
                forall|j: int|
                    0 <= j < i ==> (#[trigger] self.triaccels@[j]) == spec_triangle_accel(
                        self.vbuffer@,
                        self.tbuffer@[j],
                    ),
                forall|j: int| 0 <= j < i ==> (#[trigger] self.triaccels@[j]).wf(),
                global == hull(self.bboxes@.subrange(0, i as int)),
            decreases count - i,
        {
            let tri = self.tbuffer[i];
            let len: usize = self.vbuffer.len();
            if tri.t0 as usize >= len || tri.t1 as usize >= len || tri.t2 as usize >= len {
                return false;
            }
            let aabb = triangle_aabb(self.vbuffer.as_slice(), &tri);
            if self.bboxes[i] != aabb {
                return false;
            }
            let accel = precompute(
                self.vbuffer[tri.t0 as usize],
                self.vbuffer[tri.t1 as usize],
                self.vbuffer[tri.t2 as usize],
            );
            if self.triaccels[i] != accel {
                return false;
            }
            global = join(&aabb, &global);
            proof {
                assert(self.bboxes@.subrange(0, i + 1).drop_last() =~= self.bboxes@.subrange(
                    0,
                    i as int,
                ));
            }
            i += 1;
        }
        proof {
            assert(self.bboxes@.subrange(0, count as int) =~= self.bboxes@);
        }
        self.global == global
    }

    /// A walk over the triangles, from the first one.
    pub fn iter_triangles(&self) -> (r: TriangleIterator<'_>)
        requires
            self.wf(),
        ensures
            r.wf(),
            r.current == 0,
            r.vbuffer@ == self.vbuffer@,
            r.tbuffer@ == self.tbuffer@,
    {
        TriangleIterator { current: 0, vbuffer: &self.vbuffer, tbuffer: &self.tbuffer }
    }

    /// Adds the triangles of `tbuffer`, whose vertices are those of `vbuffer`,
    /// as one object: the vertices go to the end of the vertex buffer, and each
    /// triangle, renumbered to its vertices there, to the end of the triangle
    /// buffer, with its box and its test coefficients. `vbuffer` is left empty
    /// and `tbuffer` renumbered.
    pub fn add_object(&mut self, vbuffer: &mut Vec<Vertex>, tbuffer: &mut Vec<Triangle>) -> (r: Object)
        requires
            old(self).wf(),
            old(self).tbuffer@.len() + old(tbuffer)@.len() >= 1,
            old(self).tbuffer@.len() + old(tbuffer)@.len() <= u32::MAX,
            old(self).vbuffer@.len() + old(vbuffer)@.len() <= u32::MAX,
            forall|i: int| 0 <= i < old(vbuffer)@.len() ==> (#[trigger] old(vbuffer)@[i]).in_range(),
            forall|i: int|
                0 <= i < old(tbuffer)@.len() ==> spec_in_buffer(old(vbuffer)@, #[trigger] old(tbuffer)@[i]),
        ensures
            final(self).wf(),
            final(self).vbuffer@ == old(self).vbuffer@ + old(vbuffer)@,
            final(vbuffer)@.len() == 0,
            final(tbuffer)@ == renumbered(old(tbuffer)@, old(self).vbuffer@.len() as int),
            final(self).tbuffer@ == old(self).tbuffer@ + final(tbuffer)@,
            r.tstart == old(self).tbuffer@.len(),
            r.tstop == old(self).tbuffer@.len() + old(tbuffer)@.len() - 1,
    {
        let vcount: usize = self.vbuffer.len();
        let ghost fresh = vbuffer@;
        let ghost given = tbuffer@;
        let ghost before = self.tbuffer@;
        self.vbuffer.append(vbuffer);
        let ghost vertices = self.vbuffer@;
        let tstart: usize = self.tbuffer.len();
        let count: usize = tbuffer.len();
        let tstop: usize = tstart + count - 1;
        let mut i: usize = 0;
        while i < count
            invariant
                i <= count,
                count == given.len(),
                tbuffer@.len() == count,
                vcount + fresh.len() <= u32::MAX,
                tstart + count <= u32::MAX,
                tstart == before.len(),
                self.vbuffer@ == vertices,
                vbuffer@.len() == 0,
                self.vbuffer@.len() == vcount + fresh.len(),
                forall|j: int| 0 <= j < given.len() ==> (#[trigger] given[j]).t0 < fresh.len() && given[j].t1
                    < fresh.len() && given[j].t2 < fresh.len(),
                forall|j: int| 0 <= j < i ==> (#[trigger] tbuffer@[j]) == shifted(given[j], vcount as int),
                forall|j: int| i <= j < count ==> (#[trigger] tbuffer@[j]) == given[j],
                self.tbuffer@.len() == tstart + i,
                forall|j: int| 0 <= j < tstart ==> (#[trigger] self.tbuffer@[j]) == before[j],
                forall|k: int|
                    tstart <= k < tstart + i ==> (#[trigger] self.tbuffer@[k]) == tbuffer@[k - tstart],
                self.wf(),
            decreases count - i,
        {
            let t = tbuffer[i];
            let moved = Triangle {
                t0: t.t0 + vcount as u32,
                t1: t.t1 + vcount as u32,
                t2: t.t2 + vcount as u32,
                mat: t.mat,
            };
            tbuffer[i] = moved;
            let aabb = triangle_aabb(self.vbuffer.as_slice(), &moved);
            let p0 = self.vbuffer[moved.t0 as usize];
            let p1 = self.vbuffer[moved.t1 as usize];
            let p2 = self.vbuffer[moved.t2 as usize];
            let ghost boxes_before = self.bboxes@;
            self.tbuffer.push(moved);
            self.global = join(&aabb, &self.global);
            self.bboxes.push(aabb);
            self.triaccels.push(precompute(p0, p1, p2));
            proof {
                assert(self.bboxes@.drop_last() =~= boxes_before);
            }
            i += 1;
        }
        proof {
            assert(tbuffer@ =~= renumbered(given, vcount as int));
            assert(self.tbuffer@ =~= before + tbuffer@);
        }
        Object { tstart, tstop }
    }
}

/// The triangles renumbered to vertices that stand `shift` places further on.
pub open spec fn renumbered(triangles: Seq<Triangle>, shift: int) -> Seq<Triangle> {
    Seq::new(triangles.len(), |i: int| shifted(triangles[i], shift))
}

impl Elt for Triangle {
    type T = Triangle;

    type State = Scene;

    open spec fn measurable(state: &Scene, elt: &Triangle) -> bool {
        spec_in_buffer(state.vbuffer@, *elt)
    }

    open spec fn spec_extents(state: &Scene, elt: &Triangle) -> Aabb {
        spec_triangle_aabb(state.vbuffer@, *elt)
    }

    fn extents(state: &Scene, elt: &Triangle) -> (r: Aabb) {
        triangle_aabb(state.vbuffer.as_slice(), elt)
    }
}

/// Builds the hierarchy over the triangles of the scene.
pub fn compute_bih(scene: &Scene, leaf_bound: usize) -> (r: BihState)
    requires
        scene.wf(),
    ensures
        r.boxes@ == scene.bboxes@,
        r.global == scene.global,
        r.built_with(leaf_bound as nat),
        r.wf(),
        is_permutation(r.index@),
        r.index@.len() == scene.tbuffer@.len(),
        holds_hierarchy(r.boxes@, r.index@, r.nodes@, r.shape(leaf_bound as nat)),
{
    let r = allocate::<Triangle>(scene, scene.tbuffer.as_slice(), leaf_bound);
    proof {
        assert(r.boxes@ =~= scene.bboxes@);
    }
    r
}

/// The smallest box that holds the three vertices of the triangle.
pub fn triangle_aabb(vbuffer: &[Vertex], tri: &Triangle) -> (r: Aabb)
    requires
        spec_in_buffer(vbuffer@, *tri),
    ensures
        r == spec_triangle_aabb(vbuffer@, *tri),
{
    let p0 = vbuffer[tri.t0 as usize];
    let p1 = vbuffer[tri.t1 as usize];
    let p2 = vbuffer[tri.t2 as usize];
    let maxs = p0.max_by_component(p1).max_by_component(p2);
    let mins = p0.min_by_component(p1).min_by_component(p2);
    make(mins, maxs)
}

} // verus!
