//! Geometry core of a hypercube visualizer.
//!
//! The library generates the 2-dimensional facets of an N-dimensional
//! axis-aligned cube, collapses N-dimensional points to 3 dimensions by an
//! iterated perspective divide, intersects mouse rays with the generated
//! facets to find the one being pointed at, and maintains an orbiting
//! camera.  All coordinates are exact rationals, so every geometric
//! predicate in a contract is decided exactly.

pub mod camera;
pub mod cube;
pub mod label;
pub mod laws;
pub mod linalg;
pub mod messages;
pub mod rat;
