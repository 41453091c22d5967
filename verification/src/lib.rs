//! Computational cores of a raster / LiDAR analysis toolkit.
//!
//! Two tools share the infrastructure in this crate: an elevation
//! percentile filter over a digital elevation model, and a flightline
//! overlap counter over a LiDAR point cloud.  Elevations, coordinates
//! and GPS times enter the library as scaled integers (a fixed-point
//! encoding chosen by the caller), so every rule in here is exact
//! integer arithmetic.

pub mod epf;
pub mod grid;
pub mod index;
pub mod lfo;
pub mod runner;

use vstd::prelude::*;

verus! {

/// Failure kinds surfaced by the computational cores.
///
/// `InvalidInput` covers inputs rejected up front (a point format without
/// GPS time); `OutOfRange` covers writes outside a grid; and
/// `InvariantViolation` covers a bin index outside the declared range,
/// which indicates that the raster's declared minimum or maximum is wrong.
#[derive(Clone, Copy, PartialEq, Eq, Structural, Debug)]
pub enum CoreError {
    InvalidInput,
    OutOfRange,
    InvariantViolation,
}

impl CoreError {
    /// One-line diagnostic for the error.
    pub fn describe(&self) -> (s: &'static str)
    {
        match self {
            CoreError::InvalidInput => "invalid input",
            CoreError::OutOfRange => "write outside the grid",
            CoreError::InvariantViolation => "bin index outside the declared range",
        }
    }
}

} // verus!
