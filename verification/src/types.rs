//! Rays and hits.
use crate::ratio::{Frac, Ratio};
use crate::vec3::Vec3;
use vstd::prelude::*;

verus! {

/// What a hit is: the ray parameter `t` of the point hit, the two barycentric
/// coordinates, the reciprocal of the projected direction, and the triangle.
pub ghost struct HitModel {
    pub t: Frac,
    pub u: Frac,
    pub v: Frac,
    pub dot: Frac,
    pub tri: int,
}

/// A point where a ray meets a triangle.
#[derive(Clone, Copy, Debug)]
pub struct Hit {
    pub t: Ratio,
    pub u: Ratio,
    pub v: Ratio,
    pub dot: Ratio,
    pub tri: u32,
}

impl View for Hit {
    type V = HitModel;

    open spec fn view(&self) -> HitModel {
        HitModel { t: self.t@, u: self.u@, v: self.v@, dot: self.dot@, tri: self.tri as int }
    }
}

/// The points `origin + t * normal`; the direction `normal` need not have length one.
#[derive(Clone, Copy, Debug, PartialEq, Eq, Structural)]
pub struct Ray {
    pub origin: Vec3,
    pub normal: Vec3,
}

impl Ray {
    /// Origin and direction are within the coordinate limit.
    pub open spec fn in_range(self) -> bool {
        self.origin.in_range() && self.normal.in_range()
    }
}

/// The zero fraction, `0 / 1`.
pub open spec fn zero_frac() -> Frac {
    Frac { num: 0, den: 1 }
}

/// What a hit reads from the view of an optional hit.
pub open spec fn hit_view(h: Option<Hit>) -> Option<HitModel> {
    match h {
        Some(hit) => Some(hit@),
        None => None,
    }
}

/// A hit with every field zero.
pub fn new_hit() -> (r: Hit)
    ensures
        r@ == (HitModel { t: zero_frac(), u: zero_frac(), v: zero_frac(), dot: zero_frac(), tri: 0 }),
{
    Hit {
        t: Ratio::from_int(0),
        u: Ratio::from_int(0),
        v: Ratio::from_int(0),
        dot: Ratio::from_int(0),
        tri: 0,
    }
}

/// The ray from `origin` along `normal`.
pub fn new_ray(origin: Vec3, normal: Vec3) -> (r: Ray)
    ensures
        r == (Ray { origin, normal }),
{
    Ray { origin, normal }
}

} // verus!
