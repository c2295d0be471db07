//! The integer core of a Monte Carlo path tracer: bounding boxes over order
//! keys, the bounding volume hierarchy that accelerates nearest-hit queries,
//! the permutation lattice of gradient noise and texel lookup in an RGB raster.
//!
//! Scene coordinates are floating-point values in the renderer. The library
//! never computes with them: a coordinate or a ray distance reaches it as an
//! order key, a `u64` whose integer order is the total order of the value it
//! stands for. Everything the library decides (box unions, ordering primitives
//! along an axis, which candidate hit is nearest) depends on that order alone.

pub mod aabb;
pub mod bvh;
pub mod nearest;
pub mod perlin;
pub mod raster;

pub use aabb::{enclosing_box, Aabb, Corner};
pub use bvh::{BuildError, BvhKind, BvhNode, BvhTree};
pub use nearest::scan_nearest;
pub use perlin::{Perlin, POINT_COUNT};
pub use raster::Raster;
