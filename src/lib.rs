//! Geohash cells: encoding of coordinates into interleaved latitude and
//! longitude bits, the base-32 text form, neighbours of a cell, and a
//! traversal of all cells that overlap a bounding box.

pub mod base32;
pub mod bounding_box;
pub mod geohash_bits;
pub mod geohash_iterator;
pub mod interleave;
pub mod location;

pub use self::bounding_box::BoundingBox;
pub use self::geohash_bits::{GeohashBits, Precision};
pub use self::geohash_iterator::GeohashIterator;
pub use self::interleave::{deinterleave_bits, interleave_bits};
pub use self::location::Location;

use vstd::prelude::*;

verus! {

/// The four directions in which a cell has a neighbour.
#[derive(Clone, Copy, Debug, PartialEq, Eq, Structural)]
pub enum Neighbor {
    West,
    East,
    South,
    North,
}

/// Why an input was refused.
#[derive(Clone, Copy, Debug, PartialEq, Eq, Structural)]
pub enum GeohashError {
    /// A longitude outside [-180, 180] degrees.
    LongitudeOutOfRange,
    /// A latitude outside [-90, 90] degrees.
    LatitudeOutOfRange,
    /// A precision of less than 1 or more than 32 bits per axis.
    PrecisionOutOfRange,
    /// A character outside the base-32 alphabet.
    InvalidCharacter,
}

} // verus!
