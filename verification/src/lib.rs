//! Core of a photon-mapping renderer: a balanced k-d photon index with
//! bounded k-nearest-neighbour queries, the stochastic transport decisions
//! of the photon walk and the ray tracer, and the pixel buffer.
//!
//! All quantities are carried as 64-bit integers in units of `1 / FX_ONE`
//! (a 16-bit binary fixed point), so every formula in a contract is an
//! exact statement about the integers the code computes.

use vstd::prelude::*;

pub mod fixed;
pub mod material;
pub mod photonmap;
pub mod ppm;
pub mod scene;
pub mod vector3;

verus! {

/// One in the 16-bit binary fixed point used throughout the crate.
pub const FX_ONE: i64 = 65536;

} // verus!
