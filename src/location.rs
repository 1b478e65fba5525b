//! A coordinate in fixed-point degrees.

use crate::GeohashError;
use vstd::prelude::*;

verus! {

/// Fixed-point units in one degree: coordinates carry 32 fractional bits.
pub const UNITS_PER_DEGREE: i64 = 4294967296;

/// Smallest longitude: -180 degrees.
pub const LONGITUDE_MIN: i64 = -180 * UNITS_PER_DEGREE;

/// Largest longitude: 180 degrees.
pub const LONGITUDE_MAX: i64 = 180 * UNITS_PER_DEGREE;

/// Smallest latitude: -90 degrees.
pub const LATITUDE_MIN: i64 = -90 * UNITS_PER_DEGREE;

/// Largest latitude: 90 degrees.
pub const LATITUDE_MAX: i64 = 90 * UNITS_PER_DEGREE;

/// A longitude and latitude pair, each in units of `2^-32` degree.
#[derive(Clone, Copy, Debug, PartialEq, Eq, Structural)]
pub struct Location {
    pub longitude: i64,
    pub latitude: i64,
}

impl Location {
    /// The longitude lies in [-180, 180] degrees.
    pub open spec fn longitude_valid(self) -> bool {
        LONGITUDE_MIN <= self.longitude <= LONGITUDE_MAX
    }

    /// The latitude lies in [-90, 90] degrees.
    pub open spec fn latitude_valid(self) -> bool {
        LATITUDE_MIN <= self.latitude <= LATITUDE_MAX
    }

    /// Both coordinates lie in their ranges.
    pub open spec fn valid(self) -> bool {
        self.longitude_valid() && self.latitude_valid()
    }

    /// Checks both coordinates against their ranges, longitude first.
    pub fn validate_range(&self) -> (r: Result<(), GeohashError>)
        ensures
            r == (if !self.longitude_valid() {
                Err(GeohashError::LongitudeOutOfRange)
            } else if !self.latitude_valid() {
                Err(GeohashError::LatitudeOutOfRange)
            } else {
                Ok(())
            }),
    {
        if self.longitude < LONGITUDE_MIN || self.longitude > LONGITUDE_MAX {
            return Err(GeohashError::LongitudeOutOfRange);
        }
        if self.latitude < LATITUDE_MIN || self.latitude > LATITUDE_MAX {
            return Err(GeohashError::LatitudeOutOfRange);
        }
        Ok(())
    }
}

} // verus!
