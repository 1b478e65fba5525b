use geohash::location::UNITS_PER_DEGREE;
use geohash::{BoundingBox, Location};

fn deg(x: f64) -> i64 {
    (x * UNITS_PER_DEGREE as f64).round() as i64
}

fn assert_close(a: i64, b: f64, eps: f64) {
    let a = a as f64 / UNITS_PER_DEGREE as f64;
    assert!((a - b).abs() <= eps, "{} is not within {} of {}", a, eps, b);
}

fn bbox() -> BoundingBox {
    BoundingBox::enclosing(vec![
        Location { latitude: deg(1.0), longitude: deg(3.0) },
        Location { latitude: deg(2.0), longitude: deg(2.0) },
    ])
    .unwrap()
}

#[test]
fn test_bounding_box_initialization() {
    let bbox = bbox();
    assert_close(bbox.min().latitude, 1.0, 1e-5);
    assert_close(bbox.min().longitude, 2.0, 1e-5);
    assert_close(bbox.max().latitude, 2.0, 1e-5);
    assert_close(bbox.max().longitude, 3.0, 1e-5);
}

#[test]
fn test_center() {
    let center = bbox().center();
    assert_close(center.latitude, 1.5, 1e-5);
    assert_close(center.longitude, 2.5, 1e-5);
}

#[test]
fn test_intersecting() {
    let other = BoundingBox::enclosing(vec![
        Location { latitude: deg(1.5), longitude: deg(2.5) },
        Location { latitude: deg(2.5), longitude: deg(3.5) },
    ])
    .unwrap();
    assert_eq!(other.intersects(&bbox()), true);
}

#[test]
fn test_non_intersecting() {
    let other = BoundingBox::enclosing(vec![
        Location { latitude: deg(2.1), longitude: deg(3.1) },
        Location { latitude: deg(3.0), longitude: deg(4.0) },
    ])
    .unwrap();
    assert_eq!(other.intersects(&bbox()), false);
}

#[test]
fn enclosing_nothing_is_none() {
    assert!(BoundingBox::enclosing(vec![]).is_none());
}

#[test]
fn touching_boxes_intersect() {
    let other = BoundingBox::enclosing(vec![
        Location { latitude: deg(2.0), longitude: deg(3.0) },
        Location { latitude: deg(4.0), longitude: deg(4.0) },
    ])
    .unwrap();
    assert!(other.intersects(&bbox()));
    assert!(bbox().intersects(&other));
}

#[test]
fn encompass_widens_only_where_needed() {
    let mut b = BoundingBox::at(&Location { latitude: 0, longitude: 0 });
    b.encompass(&Location { latitude: 5, longitude: -3 });
    b.encompass(&Location { latitude: 2, longitude: 1 });
    assert_eq!(*b.min(), Location { latitude: 0, longitude: -3 });
    assert_eq!(*b.max(), Location { latitude: 5, longitude: 1 });
}
