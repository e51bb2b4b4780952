//! Exact hypervolume indicator for point sets in an n-dimensional objective
//! space, relative to a reference point.
//!
//! The indicator is the measure of the region dominated by at least one input
//! point and bounded by the reference point. It is computed exactly, by a
//! recursive volume decomposition (a WFG-style slicing method): base cases for
//! zero, one and two points, and for larger sets a sweep over the first axis
//! that sums each point's exclusive volume against the points sorted after it.
//!
//! Coordinates are exact integers, so every volume is an exact integer as
//! well; callers working in fixed-point scale their coordinates up before the
//! call (a volume in dimension `d` then carries the scale factor to the
//! power `d`).

pub mod model;
pub mod sorting;
pub mod hypervolume_core;
pub mod laws;
pub mod bounds;

pub use crate::hypervolume_core::compute;
