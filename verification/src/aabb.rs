//! Axis-aligned boxes on the integer lattice.
use crate::text::{decimal, decimal_string};
use crate::vec3::{max_int, min_int, Vec3};
use vstd::prelude::*;
use vstd::string::*;

verus! {

/// An axis-aligned box given by its lower and upper corner.
///
/// A box holds points when `mins <= maxs` on every axis; any other pair of
/// corners stands for a box without points.
#[derive(Clone, Copy, Debug, PartialEq, Eq, Structural)]
pub struct Aabb {
    pub mins: Vec3,
    pub maxs: Vec3,
}

/// The side length `hi - lo`, cut off below at zero and above at the largest coordinate.
pub open spec fn side(lo: int, hi: int) -> int {
    min_int(max_int(hi - lo, 0), i32::MAX as int)
}

/// The canonical box without points: joining it with any box gives that box.
pub open spec fn spec_empty() -> Aabb {
    Aabb {
        mins: Vec3 { x: i32::MAX, y: i32::MAX, z: i32::MAX },
        maxs: Vec3 { x: i32::MIN, y: i32::MIN, z: i32::MIN },
    }
}

/// Side lengths of a box; a box without points has side zero on an inverted axis.
pub open spec fn spec_extents(aabb: Aabb) -> Vec3 {
    Vec3 {
        x: side(aabb.mins.x as int, aabb.maxs.x as int) as i32,
        y: side(aabb.mins.y as int, aabb.maxs.y as int) as i32,
        z: side(aabb.mins.z as int, aabb.maxs.z as int) as i32,
    }
}

/// The smallest box that holds both boxes.
pub open spec fn spec_join(lhs: Aabb, rhs: Aabb) -> Aabb {
    Aabb { mins: lhs.mins.spec_min(rhs.mins), maxs: lhs.maxs.spec_max(rhs.maxs) }
}

/// The smallest box that holds the box and the point.
pub open spec fn spec_join_point(aabb: Aabb, point: Vec3) -> Aabb {
    Aabb { mins: aabb.mins.spec_min(point), maxs: aabb.maxs.spec_max(point) }
}

/// Membership in the half-open box: `mins <= point < maxs` on every axis.
pub open spec fn spec_mem(point: Vec3, aabb: Aabb) -> bool {
    &&& aabb.mins.x <= point.x < aabb.maxs.x
    &&& aabb.mins.y <= point.y < aabb.maxs.y
    &&& aabb.mins.z <= point.z < aabb.maxs.z
}

/// Whether the closed box `outer` holds every point of the closed box `inner`.
pub open spec fn encloses(outer: Aabb, inner: Aabb) -> bool {
    &&& outer.mins.x <= inner.mins.x && inner.maxs.x <= outer.maxs.x
    &&& outer.mins.y <= inner.mins.y && inner.maxs.y <= outer.maxs.y
    &&& outer.mins.z <= inner.mins.z && inner.maxs.z <= outer.maxs.z
}

/// The smallest box that holds every box of the sequence.
pub open spec fn hull(boxes: Seq<Aabb>) -> Aabb
    decreases boxes.len(),
{
    if boxes.len() == 0 {
        spec_empty()
    } else {
        spec_join(boxes.last(), hull(boxes.drop_last()))
    }
}

/// The box with these two corners.
pub fn make(mins: Vec3, maxs: Vec3) -> (r: Aabb)
    ensures
        r == (Aabb { mins, maxs }),
{
    Aabb { mins, maxs }
}

/// The canonical box without points.
pub fn empty() -> (r: Aabb)
    ensures
        r == spec_empty(),
{
    Aabb { mins: Vec3::broadcast(i32::MAX), maxs: Vec3::broadcast(i32::MIN) }
}

fn side_of(lo: i32, hi: i32) -> (r: i32)
    ensures
        r == side(lo as int, hi as int),
{
    let d: i64 = hi as i64 - lo as i64;
    if d < 0 {
        0
    } else if d > i32::MAX as i64 {
        i32::MAX
    } else {
        d as i32
    }
}

/// The side lengths of the box, nought along an axis on which it is inverted.
pub fn extents(aabb: &Aabb) -> (r: Vec3)
    ensures
        r == spec_extents(*aabb),
{
    Vec3 {
        x: side_of(aabb.mins.x, aabb.maxs.x),
        y: side_of(aabb.mins.y, aabb.maxs.y),
        z: side_of(aabb.mins.z, aabb.maxs.z),
    }
}

/// The smallest box that holds both boxes.
pub fn join(lhs: &Aabb, rhs: &Aabb) -> (r: Aabb)
    ensures
        r == spec_join(*lhs, *rhs),
{
    Aabb {
        mins: lhs.mins.min_by_component(rhs.mins),
        maxs: lhs.maxs.max_by_component(rhs.maxs),
    }
}

/// The smallest box that holds the box and the point.
pub fn join_point(aabb: &Aabb, point: &Vec3) -> (r: Aabb)
    ensures
        r == spec_join_point(*aabb, *point),
{
    Aabb {
        mins: aabb.mins.min_by_component(*point),
        maxs: aabb.maxs.max_by_component(*point),
    }
}

/// Whether the point lies in the box, the lower faces counted in and the
/// upper faces not.
pub fn mem(point: &Vec3, aabb: &Aabb) -> (r: bool)
    ensures
        r == spec_mem(*point, *aabb),
{
    aabb.mins.x <= point.x && point.x < aabb.maxs.x && aabb.mins.y <= point.y && point.y
        < aabb.maxs.y && aabb.mins.z <= point.z && point.z < aabb.maxs.z
}

/// The box without points is a two-sided identity of `join`.
pub proof fn lemma_join_empty_identity(b: Aabb)
    ensures
        spec_join(spec_empty(), b) == b,
        spec_join(b, spec_empty()) == b,
{
}

/// `join` is commutative, associative and idempotent.
pub proof fn lemma_join_semilattice(a: Aabb, b: Aabb, c: Aabb)
    ensures
        spec_join(a, b) == spec_join(b, a),
        spec_join(spec_join(a, b), c) == spec_join(a, spec_join(b, c)),
        spec_join(a, a) == a,
{
}

/// A join encloses both of its operands, and is enclosed by every box that encloses both.
pub proof fn lemma_join_is_least_upper_bound(a: Aabb, b: Aabb, c: Aabb)
    ensures
        encloses(spec_join(a, b), a),
        encloses(spec_join(a, b), b),
        encloses(c, a) && encloses(c, b) ==> encloses(c, spec_join(a, b)),
{
}

/// The box without points holds no point, and its sides have length zero.
pub proof fn lemma_empty_holds_nothing(p: Vec3)
    ensures
        !spec_mem(p, spec_empty()),
        spec_extents(spec_empty()) == (Vec3 { x: 0, y: 0, z: 0 }),
{
}

/// A vector to be written as text.
pub struct DisplayVec3(pub Vec3);

/// A vector as text: the three components in round brackets, with a comma
/// and a blank between them.
pub open spec fn vec3_text(x: i32, y: i32, z: i32) -> Seq<char> {
    "("@ + decimal(x as int) + ", "@ + decimal(y as int) + ", "@ + decimal(z as int) + ")"@
}

/// A box as text, from the texts of its two corners: each corner by name, in braces.
pub open spec fn aabb_text(mins: Seq<char>, maxs: Seq<char>) -> Seq<char> {
    "{ mins="@ + mins + "; maxs="@ + maxs + "}"@
}

/// Writes a vector.
fn format_vec3(x: i32, y: i32, z: i32) -> (r: String)
    ensures
        r@ == vec3_text(x, y, z),
{
    let mut s = String::from_str("(");
    s.append(decimal_string(x as i64).as_str());
    s.append(", ");
    s.append(decimal_string(y as i64).as_str());
    s.append(", ");
    s.append(decimal_string(z as i64).as_str());
    s.append(")");
    s
}

/// Writes a box, from the texts of its two corners.
fn format_aabb(mins: &String, maxs: &String) -> (r: String)
    ensures
        r@ == aabb_text(mins@, maxs@),
{
    let mut s = String::from_str("{ mins=");
    s.append(mins.as_str());
    s.append("; maxs=");
    s.append(maxs.as_str());
    s.append("}");
    s
}

impl DisplayVec3 {
    /// The vector as text.
    pub fn to_string(&self) -> (r: String)
        ensures
            r@ == vec3_text(self.0.x, self.0.y, self.0.z),
    {
        format_vec3(self.0.x, self.0.y, self.0.z)
    }
}

impl Aabb {
    /// The box as text.
    pub fn to_string(&self) -> (r: String)
        ensures
            r@ == aabb_text(
                vec3_text(self.mins.x, self.mins.y, self.mins.z),
                vec3_text(self.maxs.x, self.maxs.y, self.maxs.z),
            ),
    {
        let mins = DisplayVec3(self.mins).to_string();
        let maxs = DisplayVec3(self.maxs).to_string();
        format_aabb(&mins, &maxs)
    }
}

} // verus!
