//! Verified core of a small path tracer.
//!
//! The renderer's discrete logic lives here and is verified: the
//! bounding-volume hierarchy (arena layout, build, traversal order and the
//! proof that traversal agrees with a linear scan), axis-aligned box unions
//! over order-encoded coordinates, the bounce-budget decisions of the
//! radiance integrator, and the raster layout of the output buffer.
//!
//! Floating-point geometry (ray/sphere intersection, the slab test, material
//! scattering arithmetic, camera sampling) cannot be verified here; callers
//! perform those tests and feed the outcomes in as plain values. Coordinates
//! and hit distances enter as unsigned keys whose ordering agrees with the
//! ordering of the quantities they stand for, so every comparison made here
//! agrees with the geometric one.

pub mod aabb;
pub mod bvh;
pub mod hit;
pub mod raster;
pub mod scene;
pub mod trace;
