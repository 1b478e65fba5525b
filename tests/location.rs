use geohash::location::UNITS_PER_DEGREE;
use geohash::{GeohashError, Location};

#[test]
#[should_panic]
fn test_validate_range() {
    Location { longitude: 181 * UNITS_PER_DEGREE, latitude: 0 }.validate_range().unwrap();
}

#[test]
fn validate_range_accepts_the_edges() {
    let d = UNITS_PER_DEGREE;
    assert_eq!(Location { longitude: 180 * d, latitude: 90 * d }.validate_range(), Ok(()));
    assert_eq!(Location { longitude: -180 * d, latitude: -90 * d }.validate_range(), Ok(()));
    assert_eq!(
        Location { longitude: 0, latitude: 90 * d + 1 }.validate_range(),
        Err(GeohashError::LatitudeOutOfRange)
    );
    assert_eq!(
        Location { longitude: -180 * d - 1, latitude: 0 }.validate_range(),
        Err(GeohashError::LongitudeOutOfRange)
    );
}
