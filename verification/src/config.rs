//! Configuration and run-wide simulation state.
//!
//! All scalars are fixed-point integers: angles in thousandths of a radian,
//! temperatures in thousandths of a degree, fractions in thousandths of a
//! unit, simulated time in thousandths of a year.

use crate::geometry::{bounded3, Vec3, SCALE};
use vstd::prelude::*;

verus! {

/// Where the shading light stands.
#[derive(Clone, Copy, PartialEq, Eq, Structural, Debug)]
pub enum LightPosition {
    Sun,
    Camera,
    Fixed,
}

/// Which per-cell attribute the renderer paints.
#[derive(Clone, Copy, PartialEq, Eq, Structural, Debug)]
pub enum MapMode {
    Natural,
    Height,
    Temperature,
    Humidity,
    Relief,
    Normals,
}

/// Parameters a planet is generated from.
#[derive(Clone, Copy)]
pub struct GenInfo {
    /// Subdivision depth of the base icosahedron.
    pub iterations: u8,
    /// Seed of the noise fields.
    pub seed: u32,
    /// Number of tectonic plates.
    pub plate_no: u32,
    /// Axial tilt, in thousandths of a radian.
    pub axial_tilt: i64,
    /// Temperature fall per kilometre climbed, in thousandths of a degree.
    pub lapse_rate: i64,
    /// Fraction of insolation retained, in thousandths.
    pub greenhouse_effect: i64,
}

/// Run-wide simulation state, not specific to any cell.
#[derive(Clone, Copy)]
pub struct SimInfo {
    /// Simulated years passing per real second, in thousandths.
    pub years_per_second: i64,
    /// Simulated years between topology passes, in thousandths.
    pub triangulation_interval: i64,
    /// Temperature fall per kilometre climbed, in thousandths of a degree.
    pub lapse_rate: i64,
    /// Fraction of insolation retained, in thousandths.
    pub greenhouse_effect: i64,
    /// Temperature under ideal insolation, in thousandths of a degree.
    pub base_temp: i64,
    /// The planet's rotation axis, on the sphere of radius `SCALE`.
    pub axis: Vec3,
    /// Direction of the sun, on the sphere of radius `SCALE`.
    pub to_sun: Vec3,
}

/// The ranges the climate and tectonics arithmetic is exact over.
pub open spec fn sim_ok(s: SimInfo) -> bool {
    &&& 0 <= s.years_per_second
    &&& 0 <= s.triangulation_interval <= 1000000000
    &&& 0 <= s.lapse_rate <= 1000000
    &&& 0 <= s.greenhouse_effect <= 1000
    &&& 0 <= s.base_temp <= 1000000
    &&& bounded3(s.axis, SCALE as int)
    &&& bounded3(s.to_sun, SCALE as int)
}

} // verus!
