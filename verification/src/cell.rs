//! The boxes that a range is split in: their faces are planes, kept finer
//! than the lattice so that a box can be halved again and again.
use crate::aabb::Aabb;
use crate::vec3::{max_int, midpoint_int, Vec3};
use vstd::prelude::*;

verus! {

/// The number of plane units to one lattice unit: a plane lies at a multiple
/// of `1 / UNIT`. The midpoint of two lattice coordinates, halved up to
/// twenty-nine times more, is a plane.
pub const UNIT: i64 = 1073741824;

/// Three coordinates in plane units.
#[derive(Clone, Copy, Debug, PartialEq, Eq, Structural)]
pub struct Fine3 {
    pub x: i64,
    pub y: i64,
    pub z: i64,
}

/// A box whose faces are planes.
#[derive(Clone, Copy, Debug, PartialEq, Eq, Structural)]
pub struct Cell {
    pub mins: Fine3,
    pub maxs: Fine3,
}

impl Fine3 {
    /// The coordinate along axis `dim`; every axis above 1 reads `z`.
    pub open spec fn at(self, dim: int) -> int {
        if dim == 0 {
            self.x as int
        } else if dim == 1 {
            self.y as int
        } else {
            self.z as int
        }
    }

    /// These coordinates with the one along `dim` replaced by `value`.
    pub open spec fn put(self, dim: int, value: i64) -> Fine3 {
        if dim == 0 {
            Fine3 { x: value, ..self }
        } else if dim == 1 {
            Fine3 { y: value, ..self }
        } else {
            Fine3 { z: value, ..self }
        }
    }

    /// The lattice point in plane units.
    pub open spec fn of(v: Vec3) -> Fine3 {
        Fine3 { x: (v.x * UNIT) as i64, y: (v.y * UNIT) as i64, z: (v.z * UNIT) as i64 }
    }

    /// Reads the coordinate along axis `dim`.
    pub fn get(&self, dim: usize) -> (r: i64)
        requires
            dim < 3,
        ensures
            r == self.at(dim as int),
    {
        if dim == 0 {
            self.x
        } else if dim == 1 {
            self.y
        } else {
            self.z
        }
    }

    /// Returns these coordinates with the one along `dim` replaced.
    pub fn with(&self, dim: usize, value: i64) -> (r: Fine3)
        requires
            dim < 3,
        ensures
            r == self.put(dim as int, value),
    {
        if dim == 0 {
            Fine3 { x: value, y: self.y, z: self.z }
        } else if dim == 1 {
            Fine3 { x: self.x, y: value, z: self.z }
        } else {
            Fine3 { x: self.x, y: self.y, z: value }
        }
    }
}

/// A lattice coordinate in plane units.
pub fn fine(x: i32) -> (r: i64)
    ensures
        r == x * UNIT,
{
    (x as i64) * UNIT
}

/// The plane halfway between two planes: exact where the two are an even
/// number of plane units apart, else half a plane unit below.
pub fn midplane(a: i64, b: i64) -> (r: i64)
    ensures
        r == midpoint_int(a as int, b as int),
{
    let shift: i128 = 0x1_0000_0000_0000_0000;
    let sum: i128 = (a as i128 + b as i128) + shift;
    let half: i128 = sum / 2 - shift / 2;
    half as i64
}

impl Cell {
    /// The box in plane units.
    pub open spec fn of(b: Aabb) -> Cell {
        Cell { mins: Fine3::of(b.mins), maxs: Fine3::of(b.maxs) }
    }

    /// The length of the box along `dim`, nought where the box is inverted.
    pub open spec fn span(self, dim: int) -> int {
        max_int(self.maxs.at(dim) - self.mins.at(dim), 0)
    }

    /// The summed lengths of the box along the three axes.
    pub open spec fn girth(self) -> int {
        self.span(0) + self.span(1) + self.span(2)
    }

    /// The axis along which the box is longest, the lower axis winning a tie.
    pub open spec fn longest(self) -> int {
        if self.span(0) >= self.span(1) {
            if self.span(0) >= self.span(2) {
                0
            } else {
                2
            }
        } else if self.span(1) >= self.span(2) {
            1
        } else {
            2
        }
    }

    /// The plane halfway between the two faces across `dim`.
    pub open spec fn middle(self, dim: int) -> int {
        midpoint_int(self.mins.at(dim), self.maxs.at(dim))
    }

    /// The box with its upper face across `dim` moved to the plane `half`.
    pub open spec fn cut_above(self, dim: int, half: int) -> Cell {
        Cell { mins: self.mins, maxs: self.maxs.put(dim, half as i64) }
    }

    /// The box with its lower face across `dim` moved to the plane `half`.
    pub open spec fn cut_below(self, dim: int, half: int) -> Cell {
        Cell { mins: self.mins.put(dim, half as i64), maxs: self.maxs }
    }

    /// The box in plane units.
    pub fn from_aabb(b: &Aabb) -> (r: Cell)
        ensures
            r == Cell::of(*b),
    {
        Cell {
            mins: Fine3 { x: fine(b.mins.x), y: fine(b.mins.y), z: fine(b.mins.z) },
            maxs: Fine3 { x: fine(b.maxs.x), y: fine(b.maxs.y), z: fine(b.maxs.z) },
        }
    }

    fn length(&self, dim: usize) -> (r: i128)
        requires
            dim < 3,
        ensures
            r == self.span(dim as int),
    {
        let d: i128 = self.maxs.get(dim) as i128 - self.mins.get(dim) as i128;
        if d < 0 {
            0
        } else {
            d
        }
    }

    /// Finds the axis along which the box is longest.
    pub fn longest_axis(&self) -> (r: u8)
        ensures
            r == self.longest(),
            r < 3,
    {
        let x = self.length(0);
        let y = self.length(1);
        let z = self.length(2);
        if x >= y {
            if x >= z {
                0
            } else {
                2
            }
        } else if y >= z {
            1
        } else {
            2
        }
    }
}

} // verus!
