//! Discrete core of a stochastic ray tracer: bounding boxes, the bounding-volume
//! hierarchy over scene primitives and the search for a ray's nearest hit, the
//! Perlin lattice permutations, the path integrator's decisions and the layout
//! of the rendered pixel buffer.
//!
//! Coordinates are carried as order keys: a `u64` per coordinate whose unsigned
//! order is the order of the real coordinate it stands for. Everything decided
//! here reads coordinates only through their order; distances along a ray are
//! order keys too. The arithmetic on the real values (intersections, slab tests,
//! scattering) is done by the caller, through the tests it hands in.

mod aabb;
mod bvh;
mod integrator;
mod perlin;
mod render;
mod sampling;
mod traverse;

pub use aabb::{surrounding_box, Aabb, Corner};
pub use bvh::{Bvh, BvhError, Node, MAX_SEQUENTIAL};
pub use integrator::{advance, begin, Outcome, PathStep, Shade};
pub use perlin::{gen_perlin_permutation, PerlinLattice, POINT_COUNT};
pub use render::{pixel_order, samples_in_parallel, MAX_SEQUENTIAL_SAMPLES};
pub use traverse::scan_hit;
