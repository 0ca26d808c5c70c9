//! Walks the unit voxels of an infinite integer grid that a segment passes through,
//! in order, with the face normal through which each one is entered (the 3D DDA of
//! Amanatides and Woo), in exact fixed-point arithmetic.
pub mod laws;
pub mod model;
pub mod traversal;

pub use model::{FixedPoint, Segment, Triple, MAX_SCALE};
pub use traversal::{floor_div, segment_in_range, voxel_traversal_fixed, Traversal};
