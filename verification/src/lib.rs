//! Two independent queries over in-memory data: the `k` points nearest to an
//! origin on the integer plane, and the fixed-length run of a series whose
//! sum is largest.

pub mod error;
pub mod k_nearest_points;
pub mod largest_series;
