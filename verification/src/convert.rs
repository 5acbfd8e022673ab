//! Conversion of a linear step distance into an angular step.
//!
//! Angles are held in exact fixed-point units: one degree is
//! `UNITS_PER_DEGREE` units.  The scale is chosen so that the flat-earth
//! conversion (a fixed number of meters per degree, independent of latitude)
//! maps a whole number of millimeters to a whole number of units, keeping
//! every position update exact.

use vstd::prelude::*;

verus! {

/// Meters per degree of latitude or longitude under the flat-earth
/// approximation.  Deliberately independent of latitude: longitude degrees
/// do not shrink toward the poles here, and that behaviour is intended.
pub const METERS_PER_DEGREE: i64 = 111_000;

/// Fixed-point angular units per degree.
pub const UNITS_PER_DEGREE: i64 = 111_000_000_000;

/// Millimeters per meter.
pub const MILLIMETERS_PER_METER: i64 = 1_000;

/// Fixed-point angular units per millimeter of linear distance:
/// `UNITS_PER_DEGREE / (METERS_PER_DEGREE * MILLIMETERS_PER_METER)`.
pub const UNITS_PER_MILLIMETER: i64 = 1_000;

/// Nanodegrees per degree.
pub const NANODEGREES_PER_DEGREE: i64 = 1_000_000_000;

/// Fixed-point angular units per nanodegree:
/// `UNITS_PER_DEGREE / NANODEGREES_PER_DEGREE`.
pub const UNITS_PER_NANODEGREE: i64 = 111;

/// Largest accepted step size, in millimeters (1000 km per key press).
pub const MAX_STEP_MILLIMETERS: u64 = 1_000_000_000;

/// The angular step, in fixed-point units, for a linear step of `step_mm`
/// millimeters.
pub open spec fn angular_step_units(step_mm: int) -> int {
    step_mm * UNITS_PER_MILLIMETER
}

/// The conversion is exactly the flat-earth ratio: the angular step times
/// the number of millimeters in a degree equals the linear step times the
/// number of units in a degree.
pub proof fn lemma_angular_step_is_flat_earth_ratio(step_mm: int)
    ensures
        angular_step_units(step_mm) * (METERS_PER_DEGREE * MILLIMETERS_PER_METER) == step_mm
            * UNITS_PER_DEGREE,
{
    assert(step_mm * 1_000 * (111_000 * 1_000) == step_mm * 111_000_000_000)
        by (nonlinear_arith);
}

/// The conversion is linear: doubling the linear step doubles the angular
/// step.
pub proof fn lemma_angular_step_linear(step_mm: int)
    ensures
        angular_step_units(2 * step_mm) == 2 * angular_step_units(step_mm),
{
    assert((2 * step_mm) * 1_000 == 2 * (step_mm * 1_000)) by (nonlinear_arith);
}

/// Converts a linear step in millimeters into an angular step in fixed-point
/// units.
pub fn to_angular_step(step_mm: u64) -> (r: i64)
    requires
        step_mm <= MAX_STEP_MILLIMETERS,
    ensures
        r == angular_step_units(step_mm as int),
{
    (step_mm as i64) * UNITS_PER_MILLIMETER
}

} // verus!
