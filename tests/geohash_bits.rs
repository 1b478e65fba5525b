use geohash::location::UNITS_PER_DEGREE;
use geohash::{GeohashBits, GeohashError, Location, Neighbor, Precision};

fn deg(x: f64) -> i64 {
    (x * UNITS_PER_DEGREE as f64).round() as i64
}

fn degrees(units: i64) -> f64 {
    units as f64 / UNITS_PER_DEGREE as f64
}

fn assert_close(a: f64, b: f64, eps: f64) {
    assert!((a - b).abs() <= eps, "{} is not within {} of {}", a, eps, b);
}

fn london() -> Location {
    Location { longitude: deg(-0.1), latitude: deg(51.5) }
}

#[test]
fn test_even_string_encoding() {
    let bits = GeohashBits::from_location(&london(), Precision::Characters(12)).unwrap();
    assert_eq!(bits.hash(), "gcpuvxr1jzfd");
}

#[test]
fn test_odd_string_encoding() {
    let bits = GeohashBits::from_location(&london(), Precision::Characters(11)).unwrap();
    assert_eq!(bits.hash(), "gcpuvxr1jzf");
}

#[test]
#[should_panic]
fn test_encoding_too_long() {
    let _ = GeohashBits::from_location(&london(), Precision::Characters(13)).unwrap();
}

#[test]
#[should_panic]
fn test_invalid_angle() {
    let _ = GeohashBits::from_location(
        &Location { longitude: deg(-200.0), latitude: deg(51.5) },
        Precision::Characters(11),
    )
    .unwrap();
}

#[test]
fn test_even_string_decoding() {
    let bits = GeohashBits::from_hash("u10hfr2c4pv6").unwrap();
    assert_eq!(bits.bits(), 0xd041075c4b25766);
    assert_close(degrees(bits.bounding_box().center().longitude), 0.0999999605119228, 1.0e-13);
    assert_close(degrees(bits.bounding_box().center().latitude), 51.500000031665, 1.0e-13);
}

#[test]
fn test_odd_string_decoding() {
    let bits = GeohashBits::from_hash("u10hfr2c4pv").unwrap();
    assert_eq!(bits.bits(), 0xd041075c4b2576);
    assert_close(degrees(bits.bounding_box().center().longitude), 0.100000128149986, 1.0e-13);
    assert_close(degrees(bits.bounding_box().center().latitude), 51.5000002831221, 1.0e-13);
}

#[test]
fn test_even_binary_encoding() {
    // 26 bits per axis make 52 bits, enough for 10 whole characters only
    let bits = GeohashBits::from_location(&london(), Precision::Bits(26)).unwrap();
    assert_eq!(bits.hash(), "gcpuvxr1jz");
    assert_close(degrees(bits.bounding_box().center().longitude), -0.10000079870223999, 1.0e-13);
    assert_close(degrees(bits.bounding_box().center().latitude), 51.4999996125698, 1.0e-13);
}

#[test]
fn test_odd_binary_encoding() {
    let bits = GeohashBits::from_location(&london(), Precision::Bits(25)).unwrap();
    assert_eq!(bits.hash(), "gcpuvxr1jz");
    assert_close(degrees(bits.bounding_box().center().longitude), -0.0999981164932251, 1.0e-13);
    assert_close(degrees(bits.bounding_box().center().latitude), 51.4999982714653, 1.0e-13);
}

#[test]
fn decoding_rejects_characters_outside_the_alphabet() {
    assert_eq!(GeohashBits::from_hash("u10a"), Err(GeohashError::InvalidCharacter));
    assert_eq!(GeohashBits::from_hash("ilo"), Err(GeohashError::InvalidCharacter));
}

#[test]
fn decoding_rejects_empty_and_overlong_strings() {
    assert_eq!(GeohashBits::from_hash(""), Err(GeohashError::PrecisionOutOfRange));
    assert_eq!(GeohashBits::from_hash("u10hfr2c4pv6u"), Err(GeohashError::PrecisionOutOfRange));
}

#[test]
fn encoding_reports_each_range_error() {
    let bad_latitude = Location { longitude: 0, latitude: deg(90.5) };
    assert_eq!(
        GeohashBits::from_location(&bad_latitude, Precision::Bits(10)),
        Err(GeohashError::LatitudeOutOfRange)
    );
    let bad_longitude = Location { longitude: deg(180.5), latitude: deg(90.5) };
    assert_eq!(
        GeohashBits::from_location(&bad_longitude, Precision::Bits(10)),
        Err(GeohashError::LongitudeOutOfRange)
    );
    assert_eq!(
        GeohashBits::from_location(&london(), Precision::Bits(0)),
        Err(GeohashError::PrecisionOutOfRange)
    );
    assert_eq!(
        GeohashBits::from_location(&london(), Precision::Bits(33)),
        Err(GeohashError::PrecisionOutOfRange)
    );
}

#[test]
fn encoding_the_far_corner_stays_in_the_last_cell() {
    let corner = Location { longitude: deg(180.0), latitude: deg(90.0) };
    let bits = GeohashBits::from_location(&corner, Precision::Bits(3)).unwrap();
    assert_eq!(bits.bits(), 0b111111);
    let bits = GeohashBits::from_location(&corner, Precision::Bits(32)).unwrap();
    assert_eq!(bits.bits(), u64::MAX);
}

#[test]
fn decoded_rectangle_holds_the_location() {
    let location = london();
    for p in 1..=32u8 {
        let bbox = GeohashBits::from_location(&location, Precision::Bits(p)).unwrap().bounding_box();
        assert!(bbox.min().longitude <= location.longitude && location.longitude <= bbox.max().longitude);
        assert!(bbox.min().latitude <= location.latitude && location.latitude <= bbox.max().latitude);
    }
    let coarse = GeohashBits::from_location(&location, Precision::Bits(4)).unwrap().bounding_box();
    let fine = GeohashBits::from_location(&location, Precision::Bits(5)).unwrap().bounding_box();
    assert!(fine.max().longitude - fine.min().longitude < coarse.max().longitude - coarse.min().longitude);
    assert!(fine.max().latitude - fine.min().latitude < coarse.max().latitude - coarse.min().latitude);
}

#[test]
fn one_bit_cells_split_the_world_in_four() {
    // "s" (11000) lies north-east of the origin
    let bbox = GeohashBits::from_hash("s").unwrap().bounding_box();
    assert!(bbox.min().longitude >= 0);
    assert!(bbox.min().latitude >= 0);
    let cell = GeohashBits::from_location(&Location { longitude: deg(10.0), latitude: deg(-10.0) }, Precision::Bits(1)).unwrap();
    assert_eq!(cell.bits(), 0b10);
    let bbox = cell.bounding_box();
    assert_eq!(bbox.min().longitude, 0);
    assert_eq!(bbox.max().longitude, deg(180.0));
    assert_eq!(bbox.min().latitude, deg(-90.0));
    assert_eq!(bbox.max().latitude, 0);
}

#[test]
fn neighbors_step_and_wrap() {
    let cell = GeohashBits::from_hash("u10hfr2c").unwrap();
    assert_eq!(cell.neighbor(&Neighbor::East).hash(), "u10hfr31");
    assert_eq!(cell.neighbor(&Neighbor::North).hash(), "u10hfr2f");
    // at two bits per axis the east edge wraps to the west edge
    let edge = GeohashBits::from_location(&Location { longitude: deg(170.0), latitude: 0 }, Precision::Bits(2)).unwrap();
    let wrapped = edge.neighbor(&Neighbor::East);
    assert_eq!(wrapped.bounding_box().min().longitude, deg(-180.0));
    let south_pole = GeohashBits::from_location(&Location { longitude: 0, latitude: deg(-90.0) }, Precision::Bits(32)).unwrap();
    let top = south_pole.neighbor(&Neighbor::South);
    assert_eq!(top.bounding_box().max().latitude, deg(90.0));
    let north_pole = GeohashBits::from_location(&Location { longitude: 0, latitude: deg(90.0) }, Precision::Bits(32)).unwrap();
    assert_eq!(north_pole.neighbor(&Neighbor::North).bounding_box().min().latitude, deg(-90.0));
}

#[test]
fn neighbors_undo_each_other() {
    for hash in ["u10hfr2c4pv6", "u10hfr2c4pv", "0", "z", "zzzzzzzzzzzz", "000000000000"] {
        let cell = GeohashBits::from_hash(hash).unwrap();
        assert_eq!(cell.neighbor(&Neighbor::East).neighbor(&Neighbor::West), cell);
        assert_eq!(cell.neighbor(&Neighbor::West).neighbor(&Neighbor::East), cell);
        assert_eq!(cell.neighbor(&Neighbor::North).neighbor(&Neighbor::South), cell);
        assert_eq!(cell.neighbor(&Neighbor::South).neighbor(&Neighbor::North), cell);
    }
    for p in 1..=32u8 {
        let cell = GeohashBits::from_location(&london(), Precision::Bits(p)).unwrap();
        assert_eq!(cell.neighbor(&Neighbor::North).neighbor(&Neighbor::South), cell);
        assert_eq!(cell.neighbor(&Neighbor::East).neighbor(&Neighbor::West), cell);
    }
}

#[test]
fn odd_character_cells_move_north_on_their_own_rows() {
    let cell = GeohashBits::from_hash("u10hfr2c4pv").unwrap();
    let north = cell.neighbor(&Neighbor::North);
    assert_eq!(north.bits() & 1, 0);
    let bbox = cell.bounding_box();
    let nbox = north.bounding_box();
    assert_eq!(nbox.min().latitude, bbox.max().latitude);
    assert_eq!(nbox.min().longitude, bbox.min().longitude);
}

#[test]
fn bits_stay_within_twice_the_precision() {
    for p in 1..=31u8 {
        let corner = Location { longitude: deg(180.0), latitude: deg(90.0) };
        let cell = GeohashBits::from_location(&corner, Precision::Bits(p)).unwrap();
        assert!(cell.bits() < 1u64 << (2 * p as u32));
        assert!(cell.neighbor(&Neighbor::North).bits() < 1u64 << (2 * p as u32));
        assert!(cell.neighbor(&Neighbor::East).bits() < 1u64 << (2 * p as u32));
    }
}

#[test]
fn hash_round_trips_through_decoding() {
    for hash in ["u", "u1", "gcpuvxr1jzfd", "gcpuvxr1jzf", "0123456789bc", "defghjkmnpqr", "stuvwxyz"] {
        assert_eq!(GeohashBits::from_hash(hash).unwrap().hash(), hash);
    }
}

#[test]
fn precision_conversions() {
    assert_eq!(Precision::Bits(26).binary_precision(), 26);
    assert_eq!(Precision::Bits(26).character_precision(), 10);
    assert_eq!(Precision::Bits(25).character_precision(), 10);
    assert_eq!(Precision::Bits(32).character_precision(), 12);
    assert_eq!(Precision::Characters(12).binary_precision(), 30);
    assert_eq!(Precision::Characters(11).binary_precision(), 28);
    assert_eq!(Precision::Characters(1).binary_precision(), 3);
    assert_eq!(Precision::Characters(11).character_precision(), 11);
    assert!(Precision::Characters(11).is_odd_characters());
    assert!(!Precision::Characters(12).is_odd_characters());
    assert!(!Precision::Bits(25).is_odd_characters());
    assert_eq!(Precision::Bits(20).max_binary_value(), 1 << 20);
    assert_eq!(Precision::Characters(2).max_binary_value(), 32);
}

#[test]
fn finer_cells_nest_in_coarser_ones() {
    let location = london();
    for p in 1..32u8 {
        let a = GeohashBits::from_location(&location, Precision::Bits(p)).unwrap().bounding_box();
        let b = GeohashBits::from_location(&location, Precision::Bits(p + 1)).unwrap().bounding_box();
        assert!(a.min().longitude <= b.min().longitude && b.max().longitude <= a.max().longitude);
        assert!(a.min().latitude <= b.min().latitude && b.max().latitude <= a.max().latitude);
        assert_eq!(2 * (b.max().longitude - b.min().longitude), a.max().longitude - a.min().longitude);
        assert_eq!(2 * (b.max().latitude - b.min().latitude), a.max().latitude - a.min().latitude);
    }
}

#[test]
fn odd_length_strings_leave_the_lowest_bit_clear() {
    for hash in ["z", "zzz", "u10hfr2c4pv", "zzzzzzzzzzz"] {
        let cell = GeohashBits::from_hash(hash).unwrap();
        assert_eq!(cell.bits() & 1, 0);
        let bp = Precision::Characters(hash.len() as u8).binary_precision();
        assert!((cell.bits() as u128) < 1u128 << (2 * bp as u32));
    }
}
