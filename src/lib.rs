//! Verified core of a Monte Carlo ray tracer: the flattened bounding-volume
//! hierarchy layout and its traversal stack, progressive pass planning, PPM
//! encoding, Perlin lattice hashing, checker parity and mesh index handling.
use vstd::prelude::*;

pub mod bvh;
pub mod camera;
pub mod noise;
pub mod mesh;
pub mod ppm;
pub mod texture;

verus! {

} // verus!
