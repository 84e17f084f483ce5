//! Pickup geofencing: coordinates and the inclusive radius test.
//!
//! The library keeps coordinates as fixed-point microdegrees and distances
//! as whole metres. Great-circle (haversine) distance is floating-point
//! trigonometry and is computed by the caller; the decision taken on the
//! measured distance is made, and verified, here.

use vstd::prelude::*;

verus! {

/// Largest representable latitude, in microdegrees (90 degrees).
pub const MAX_LAT_MICRODEG: i64 = 90_000_000;

/// Largest representable longitude, in microdegrees (180 degrees).
pub const MAX_LNG_MICRODEG: i64 = 180_000_000;

/// A point on Earth, in microdegrees (degrees times one million).
#[derive(Clone, Copy, PartialEq, Eq, Structural, Debug)]
pub struct GeoPoint {
    pub lat_microdeg: i64,
    pub lng_microdeg: i64,
}

impl GeoPoint {
    /// A coordinate is valid when latitude lies in [-90, 90] degrees and
    /// longitude in [-180, 180] degrees.
    pub open spec fn spec_valid(self) -> bool {
        &&& -MAX_LAT_MICRODEG <= self.lat_microdeg <= MAX_LAT_MICRODEG
        &&& -MAX_LNG_MICRODEG <= self.lng_microdeg <= MAX_LNG_MICRODEG
    }

    /// Runtime check matching `spec_valid` exactly.
    pub fn is_valid(&self) -> (r: bool)
        ensures
            r == self.spec_valid(),
    {
        -MAX_LAT_MICRODEG <= self.lat_microdeg && self.lat_microdeg <= MAX_LAT_MICRODEG
            && -MAX_LNG_MICRODEG <= self.lng_microdeg
            && self.lng_microdeg <= MAX_LNG_MICRODEG
    }
}

/// Whether a pickup point whose distance from a city's center measures
/// `distance_m` metres lies inside the allowed zone of `max_radius_m` metres.
/// The boundary is inclusive: a point at exactly the configured radius is
/// admitted, one metre beyond it is not.
pub fn is_within_radius(distance_m: u64, max_radius_m: u64) -> (r: bool)
    ensures
        r == (distance_m <= max_radius_m),
{
    distance_m <= max_radius_m
}

} // verus!
