//! A bounding interval hierarchy over the triangles of a scene, and exact
//! nearest-hit ray queries against it.
//!
//! All geometry lives on an integer lattice: coordinates are `i32`, and a
//! ray parameter is a fraction of two `i64`. Nothing is rounded, so each
//! function has an exact statement and every hit is the true one.
//!
//! A hierarchy is built by [`bih::allocate`] or [`bih::compute_bih`], which
//! reorder an index array and fill a node array: each leaf holds a range of
//! the index array, each inner node an axis and two clip planes. What they
//! compute is stated in [`construction`]; [`tree`] gives the shape of a
//! hierarchy and what it means for the node array to hold it. The planes
//! about which a range is split lie between lattice points: [`cell`] keeps
//! them in units fine enough to halve a box thirty times without rounding.
//!
//! [`traverse::traverse`] walks a hierarchy for the closest hit of a ray,
//! testing the triangles of the leaves it visits with the coefficients of
//! [`triaccel`]. [`nearest`] proves that the walk reports no hit that is not
//! there, and misses none that lies clear of the clip planes.
pub mod aabb;
pub mod bih;
pub mod cell;
pub mod construction;
pub mod geometry;
pub mod loader;
pub mod moller_trumbore;
pub mod nearest;
pub mod partition;
pub mod ratio;
pub mod scene;
pub mod text;
pub mod traverse;
pub mod tree;
pub mod triaccel;
pub mod types;
pub mod vec3;
