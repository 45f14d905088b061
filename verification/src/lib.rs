//! Procedural tree generation and mesh synthesis.
//!
//! The crate builds an abstract branch graph from a seeded random source and a
//! coherent noise field, then synthesizes two triangle meshes from it: a
//! tapered-cylinder trunk mesh and a billboard leaf mesh.  All geometry is
//! carried in fixed-point milli-units (the integer 1000 stands for 1.0) so
//! that every step of the pipeline can be stated and proved exactly.

pub mod branch;
pub mod field;
pub mod mesh;
pub mod num;
pub mod random;
pub mod vec3;

use vstd::prelude::*;

verus! {

/// One thousandth: the fixed-point scale used for all scalar quantities.
pub const SCALE: i64 = 1000;

} // verus!
