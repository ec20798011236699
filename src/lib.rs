//! Geographic polygon-to-mesh pipeline.
//!
//! Real values are held in fixed point: an integer counts millionths (`geometry::UNIT`
//! stands for 1.0), so that remapping, the convexity test, ear clipping and normal
//! estimation are exact integer computations.
//!
//! - `feature`: `Pipe`, the linear remapping of a domain interval onto a range interval.
//! - `geometry`: planar and spatial points, and the convexity test of a boundary turn.
//! - `earclip`: convexity of each boundary vertex, and ear-clipping triangulation.
//! - `meshutil`: per-vertex normals as normalized sums of face normals.
//! - `usmap`: the mesh of one polygon: positions, normals, texture coordinates, indices.
//! - `visuals`: the names of the available visuals.

pub mod earclip;
pub mod feature;
pub mod geometry;
pub mod meshutil;
pub mod usmap;
pub mod visuals;
