use maps_core::MapsError;
use maps_core::geo::{
    Bounds, BoundingBox, Coordinate, bearing, destination, distance, normalize_latitude,
    normalize_longitude,
};

fn coord(lat: i64, lon: i64) -> Coordinate {
    Coordinate::new(lat, lon).unwrap()
}

#[test]
fn coordinate_rejects_out_of_range() {
    assert_eq!(Coordinate::new(90_000_001, 0), Err(MapsError::OutOfRange));
    assert_eq!(Coordinate::new(-90_000_001, 0), Err(MapsError::OutOfRange));
    assert_eq!(Coordinate::new(0, 180_000_001), Err(MapsError::OutOfRange));
    assert_eq!(Coordinate::new(0, -180_000_001), Err(MapsError::OutOfRange));
    assert!(Coordinate::new(90_000_000, -180_000_000).is_ok());
}

#[test]
fn distance_symmetric_and_zero_on_self() {
    let a = coord(12_345_678, -98_765_432);
    let b = coord(-4_444_444, 55_555_555);
    assert_eq!(distance(&a, &b), distance(&b, &a));
    assert_eq!(distance(&a, &a), 0);
    assert_eq!(distance(&b, &b), 0);
}

#[test]
fn distance_one_degree_meridian() {
    // one degree of arc is 111.319 km
    let a = coord(0, 0);
    let b = coord(1_000_000, 0);
    assert_eq!(distance(&a, &b), 111_319_000);
}

#[test]
fn distance_folds_at_the_antimeridian() {
    // the two encodings of one antimeridian point coincide
    let a = coord(0, -180_000_000);
    let b = coord(0, 180_000_000);
    assert_eq!(distance(&a, &b), 0);
    // a short hop across the date line is short, not a full turn
    let c = coord(0, -179_999_000);
    let d = coord(0, 179_999_000);
    let hop = distance(&c, &d);
    assert!(hop > 0);
    assert_eq!(hop, distance(&coord(0, 0), &coord(0, 2000)));
}

#[test]
fn distance_never_exceeds_antipodal_maximum() {
    let a = coord(90_000_000, -180_000_000);
    let b = coord(-90_000_000, 180_000_000);
    assert!(distance(&a, &b) <= 20_015_086_796);
    let c = coord(-90_000_000, -180_000_000);
    let d = coord(90_000_000, 180_000_000);
    assert!(distance(&c, &d) <= 20_015_086_796);
}

#[test]
fn bearing_crosses_the_antimeridian_the_short_way() {
    // just west of the date line, heading to just east of it: due east
    let a = coord(0, 179_999_000);
    let b = coord(0, -179_999_000);
    assert_eq!(bearing(&a, &b), 90_000);
    // and the other way around: due west
    assert_eq!(bearing(&b, &a), 270_000);
}

#[test]
fn distance_positive_for_distinct_points() {
    let a = coord(0, 0);
    let b = coord(1, 0);
    assert!(distance(&a, &b) > 0);
}

#[test]
fn bearing_cardinal_directions() {
    let o = coord(0, 0);
    assert_eq!(bearing(&o, &coord(1_000_000, 0)), 0); // north
    assert_eq!(bearing(&o, &coord(0, 1_000_000)), 90_000); // east
    assert_eq!(bearing(&o, &coord(-1_000_000, 0)), 180_000); // south
    assert_eq!(bearing(&o, &coord(0, -1_000_000)), 270_000); // west
    assert_eq!(bearing(&o, &o), 0);
}

#[test]
fn destination_due_east() {
    // 111319 mm east at the equator is exactly 1000 microdegrees
    let o = coord(0, 0);
    let d = destination(&o, 90_000, 111_319);
    assert_eq!(d.lat_micro, 0);
    assert_eq!(d.lon_micro, 1000);
}

#[test]
fn destination_stays_valid_at_pole() {
    let o = coord(89_999_999, 0);
    let d = destination(&o, 0, 100_000_000_000_000);
    assert!(d.lat_micro <= 90_000_000);
    assert!(d.lon_micro.abs() <= 180_000_000);
}

#[test]
fn normalize_longitude_wraps() {
    assert_eq!(normalize_longitude(190_000_000), -170_000_000);
    assert_eq!(normalize_longitude(-190_000_000), 170_000_000);
    assert_eq!(normalize_longitude(360_000_000), 0);
    assert_eq!(normalize_longitude(179_000_000), 179_000_000);
}

#[test]
fn normalize_latitude_clamps() {
    assert_eq!(normalize_latitude(95_000_000), 90_000_000);
    assert_eq!(normalize_latitude(-95_000_000), -90_000_000);
    assert_eq!(normalize_latitude(12), 12);
}

#[test]
fn bounds_contains_and_center() {
    let b = Bounds::new(coord(10_000_000, 10_000_000), coord(-10_000_000, -10_000_000));
    assert!(b.contains(&coord(0, 0)));
    assert!(b.contains(&coord(10_000_000, 10_000_000)));
    assert!(!b.contains(&coord(10_000_001, 0)));
    let c = b.center();
    assert_eq!(c.lat_micro, 0);
    assert_eq!(c.lon_micro, 0);
}

#[test]
fn bounding_box_validates_and_expands() {
    assert_eq!(
        BoundingBox::new(0, 10, 10, 0).err(),
        Some(MapsError::OutOfRange)
    );
    let mut b = BoundingBox::new(10, -10, 10, -10).unwrap();
    b.expand(&coord(20, 15));
    assert_eq!(b.north, 20);
    assert_eq!(b.east, 15);
    assert_eq!(b.south, -10);
    assert_eq!(b.west, -10);
}
