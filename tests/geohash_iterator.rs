use geohash::location::UNITS_PER_DEGREE;
use geohash::{deinterleave_bits, interleave_bits, BoundingBox, GeohashBits, GeohashIterator, Location};

fn deg(x: f64) -> i64 {
    (x * UNITS_PER_DEGREE as f64).round() as i64
}

#[test]
fn test_iterator() {
    let bounds = BoundingBox::enclosing(vec![
        Location { longitude: deg(0.09991), latitude: deg(51.49996) },
        Location { longitude: deg(0.10059), latitude: deg(51.50028) },
    ])
    .unwrap();
    let mut iterator = GeohashIterator::new(bounds, 20);
    assert_eq!(iterator.next().unwrap().hash(), "u10hfr2c");
    assert_eq!(iterator.next().unwrap().hash(), "u10hfr31");
    assert_eq!(iterator.next().unwrap().hash(), "u10hfr2f");
    assert_eq!(iterator.next().unwrap().hash(), "u10hfr34");
    assert!(iterator.next().is_none());
    assert!(iterator.next().is_none());
}

#[test]
fn iterator_covers_a_cell_and_its_touching_edges() {
    // a 3-character cell (lon 8 bits, lat 7 bits) at 10 bits per axis:
    // 4 x 8 cells inside, plus the column to the east and the row to the
    // north that touch its edges
    let bounds = GeohashBits::from_hash("dp3").unwrap().bounding_box();
    let mut iterator = GeohashIterator::new(bounds, 10);
    let mut n = 0;
    while let Some(cell) = iterator.next() {
        assert!(bounds.intersects(&cell.bounding_box()));
        n += 1;
        assert!(n <= 1000);
    }
    assert_eq!(n, 5 * 9);
}

#[test]
fn iterator_yields_each_overlapping_cell_once() {
    let bounds = BoundingBox::enclosing(vec![
        Location { longitude: deg(10.3), latitude: deg(20.7) },
        Location { longitude: deg(31.1), latitude: deg(25.2) },
    ])
    .unwrap();
    let p = 6u8;
    let mut seen: Vec<u64> = Vec::new();
    let mut iterator = GeohashIterator::new(bounds, p);
    while let Some(cell) = iterator.next() {
        assert!(!seen.contains(&cell.bits()));
        seen.push(cell.bits());
        assert!(seen.len() <= 4096);
    }
    let mut expected = 0;
    for lat in 0..64u32 {
        for lon in 0..64u32 {
            let bits = interleave_bits(lat, lon);
            let cell_box = cell_box(bits, p);
            if bounds.intersects(&cell_box) {
                expected += 1;
                assert!(seen.contains(&bits));
            }
        }
    }
    assert_eq!(expected, seen.len());
}

fn cell_box(bits: u64, p: u8) -> BoundingBox {
    let (lat, lon) = deinterleave_bits(bits);
    let lon_w = 45i64 << (35 - p);
    let lat_w = 45i64 << (34 - p);
    let min = Location {
        longitude: -180 * UNITS_PER_DEGREE + lon as i64 * lon_w,
        latitude: -90 * UNITS_PER_DEGREE + lat as i64 * lat_w,
    };
    let max = Location {
        longitude: -180 * UNITS_PER_DEGREE + (lon as i64 + 1) * lon_w,
        latitude: -90 * UNITS_PER_DEGREE + (lat as i64 + 1) * lat_w,
    };
    BoundingBox::enclosing(vec![min, max]).unwrap()
}
