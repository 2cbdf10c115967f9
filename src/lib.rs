//! Voxel lattice engine for molecular volume and surface-area estimates.
//!
//! Lengths are fixed-point integers: one unit is a thousandth of an
//! ångström, and radii given in cell units are thousandths of a cell.
use vstd::prelude::*;

pub mod bits;
pub mod grid;
pub mod utils;
pub mod raster;
pub mod geometry;
pub mod manip;
pub mod surface_area;
pub mod pattern;
pub mod pdb;
pub mod pdb_output;
pub mod mrc_output;

verus! {

/// Fixed-point scale: number of length units in one ångström (and number of
/// radius units in one cell).
pub const SCALE: i64 = 1000;

/// Largest magnitude accepted for a coordinate, radius, probe or cell size.
/// It keeps every squared distance inside 128-bit arithmetic.
pub const LENGTH_LIMIT: i64 = 1_000_000_000_000;

/// Bound on the magnitude of a linear shift between two cells of a ball
/// offset list.
pub const SHIFT_LIMIT: i128 = 30_000_000_000_000_000_000_000_000_000_000;

/// A length within the accepted range.
pub open spec fn length_ok(x: i64) -> bool {
    -LENGTH_LIMIT <= x <= LENGTH_LIMIT
}

} // verus!
