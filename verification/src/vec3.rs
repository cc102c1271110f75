//! Three-component vectors with integer lattice coordinates.
use vstd::prelude::*;

verus! {

/// A point or displacement on the integer lattice.
#[derive(Clone, Copy, Debug, PartialEq, Eq, Structural)]
pub struct Vec3 {
    pub x: i32,
    pub y: i32,
    pub z: i32,
}

/// The largest magnitude of a coordinate of a vertex, a ray origin or a ray
/// direction: within it, every quantity of an intersection test fits the
/// machine integers.
pub const COORD_LIMIT: i32 = 524288;

/// The smaller of two integers.
pub open spec fn min_int(a: int, b: int) -> int {
    if a <= b {
        a
    } else {
        b
    }
}

/// The larger of two integers.
pub open spec fn max_int(a: int, b: int) -> int {
    if a >= b {
        a
    } else {
        b
    }
}

/// The integer halfway between `a` and `b`, rounded towards minus infinity.
pub open spec fn midpoint_int(a: int, b: int) -> int {
    (a + b) / 2
}

/// The smaller of two coordinates.
pub fn min_i32(a: i32, b: i32) -> (r: i32)
    ensures
        r == min_int(a as int, b as int),
{
    if a <= b {
        a
    } else {
        b
    }
}

/// The larger of two coordinates.
pub fn max_i32(a: i32, b: i32) -> (r: i32)
    ensures
        r == max_int(a as int, b as int),
{
    if a >= b {
        a
    } else {
        b
    }
}

impl Vec3 {
    /// The component along axis `dim`; every axis above 1 reads `z`.
    pub open spec fn at(self, dim: int) -> int {
        if dim == 0 {
            self.x as int
        } else if dim == 1 {
            self.y as int
        } else {
            self.z as int
        }
    }

    /// This vector with the component along `dim` replaced by `value`.
    pub open spec fn put(self, dim: int, value: i32) -> Vec3 {
        if dim == 0 {
            Vec3 { x: value, ..self }
        } else if dim == 1 {
            Vec3 { y: value, ..self }
        } else {
            Vec3 { z: value, ..self }
        }
    }

    /// No coordinate exceeds `COORD_LIMIT` in magnitude.
    pub open spec fn in_range(self) -> bool {
        &&& -COORD_LIMIT <= self.x <= COORD_LIMIT
        &&& -COORD_LIMIT <= self.y <= COORD_LIMIT
        &&& -COORD_LIMIT <= self.z <= COORD_LIMIT
    }

    /// Componentwise minimum.
    pub open spec fn spec_min(self, other: Vec3) -> Vec3 {
        Vec3 {
            x: min_int(self.x as int, other.x as int) as i32,
            y: min_int(self.y as int, other.y as int) as i32,
            z: min_int(self.z as int, other.z as int) as i32,
        }
    }

    /// Componentwise maximum.
    pub open spec fn spec_max(self, other: Vec3) -> Vec3 {
        Vec3 {
            x: max_int(self.x as int, other.x as int) as i32,
            y: max_int(self.y as int, other.y as int) as i32,
            z: max_int(self.z as int, other.z as int) as i32,
        }
    }

    /// The vector with these components.
    pub fn new(x: i32, y: i32, z: i32) -> (r: Vec3)
        ensures
            r == (Vec3 { x, y, z }),
    {
        Vec3 { x, y, z }
    }

    /// The vector whose three components all equal `value`.
    pub fn broadcast(value: i32) -> (r: Vec3)
        ensures
            r == (Vec3 { x: value, y: value, z: value }),
    {
        Vec3 { x: value, y: value, z: value }
    }

    /// The vector whose components are all nought.
    pub fn zero() -> (r: Vec3)
        ensures
            r == (Vec3 { x: 0, y: 0, z: 0 }),
    {
        Vec3 { x: 0, y: 0, z: 0 }
    }

    /// Reads the component along axis `dim`.
    pub fn get(&self, dim: usize) -> (r: i32)
        requires
            dim < 3,
        ensures
            r == self.at(dim as int),
    {
        if dim == 0 {
            self.x
        } else if dim == 1 {
            self.y
        } else {
            self.z
        }
    }

    /// Returns this vector with the component along `dim` replaced.
    pub fn with(&self, dim: usize, value: i32) -> (r: Vec3)
        requires
            dim < 3,
        ensures
            r == self.put(dim as int, value),
            r.at(dim as int) == value,
            forall|d: int| 0 <= d < 3 && d != dim ==> r.at(d) == self.at(d),
    {
        if dim == 0 {
            Vec3 { x: value, y: self.y, z: self.z }
        } else if dim == 1 {
            Vec3 { x: self.x, y: value, z: self.z }
        } else {
            Vec3 { x: self.x, y: self.y, z: value }
        }
    }

    /// Whether no coordinate exceeds `COORD_LIMIT` in magnitude.
    pub fn is_in_range(&self) -> (r: bool)
        ensures
            r == self.in_range(),
    {
        -COORD_LIMIT <= self.x && self.x <= COORD_LIMIT && -COORD_LIMIT <= self.y && self.y
            <= COORD_LIMIT && -COORD_LIMIT <= self.z && self.z <= COORD_LIMIT
    }

    /// The smaller of the two components, along each axis.
    pub fn min_by_component(self, other: Vec3) -> (r: Vec3)
        ensures
            r == self.spec_min(other),
    {
        Vec3 { x: min_i32(self.x, other.x), y: min_i32(self.y, other.y), z: min_i32(self.z, other.z) }
    }

    /// The larger of the two components, along each axis.
    pub fn max_by_component(self, other: Vec3) -> (r: Vec3)
        ensures
            r == self.spec_max(other),
    {
        Vec3 { x: max_i32(self.x, other.x), y: max_i32(self.y, other.y), z: max_i32(self.z, other.z) }
    }
}

} // verus!
