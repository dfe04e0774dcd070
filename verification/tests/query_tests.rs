use lofi::point::GpsPoint;
use lofi::query::{invoke_crayon, QueryError};
use lofi::store::Gps;

fn sample(ts: i64, lat: i64, lon: i64) -> GpsPoint {
    GpsPoint::new_partial(ts, lat, lon)
}

#[test]
fn exact_match_returns_stored_point_unchanged() {
    let mut g = Gps::empty();
    let p = GpsPoint::new_full(100, 51_050_000, 13_740_000, 120_000_000, 5_000_000, 8_000_000, 270_000_000, 3_500_000);
    g.insert(100, p);
    g.insert(200, sample(200, 52_000_000, 14_000_000));
    assert_eq!(g.query_interpolated(100, None), Ok(p));
    assert_eq!(g.lookup_exact(100), Some(p));
    assert_eq!(g.lookup_exact(150), None);
}

#[test]
fn midpoint_interpolates_linearly() {
    let mut g = Gps::empty();
    g.insert(0, sample(0, 1_000_000, 2_000_000));
    g.insert(10, sample(10, 3_000_000, 6_000_000));
    let r = g.query_interpolated(5, None).unwrap();
    assert_eq!(r.timestamp, 5);
    assert_eq!(r.lat, 2_000_000);
    assert_eq!(r.lon, 4_000_000);
    // strictly between the endpoints
    assert!(1_000_000 < r.lat && r.lat < 3_000_000);
    assert!(2_000_000 < r.lon && r.lon < 6_000_000);
}

#[test]
fn quarter_fraction_interpolates_linearly() {
    let mut g = Gps::empty();
    g.insert(0, sample(0, 0, 0));
    g.insert(100, sample(100, 4_000_000, -8_000_000));
    let r = g.query_interpolated(25, None).unwrap();
    assert_eq!(r.lat, 1_000_000);
    assert_eq!(r.lon, -2_000_000);
}

#[test]
fn bearing_wraps_across_north() {
    // 350 degrees blended halfway toward 10 degrees is due north, not
    // the 180-degree average.
    let mut g = Gps::empty();
    let mut a = sample(0, 0, 0);
    a.bearing = Some(350_000_000);
    let mut b = sample(2, 0, 0);
    b.bearing = Some(10_000_000);
    g.insert(0, a);
    g.insert(2, b);
    let r = g.query_interpolated(1, None).unwrap();
    assert_eq!(r.bearing, Some(0));
}

#[test]
fn bearing_blends_without_wrap() {
    let mut g = Gps::empty();
    let mut a = sample(0, 0, 0);
    a.bearing = Some(40_000_000);
    let mut b = sample(2, 0, 0);
    b.bearing = Some(60_000_000);
    g.insert(0, a);
    g.insert(2, b);
    let r = g.query_interpolated(1, None).unwrap();
    assert_eq!(r.bearing, Some(50_000_000));
}

#[test]
fn negative_bearing_is_normalized_before_blending() {
    // -10 degrees reads as 350 degrees; halfway toward 10 degrees is
    // due north.
    let mut g = Gps::empty();
    let mut a = sample(0, 0, 0);
    a.bearing = Some(-10_000_000);
    let mut b = sample(2, 0, 0);
    b.bearing = Some(10_000_000);
    g.insert(0, a);
    g.insert(2, b);
    let r = g.query_interpolated(1, None).unwrap();
    assert_eq!(r.bearing, Some(0));
}

#[test]
fn opposite_bearings_blend_halfway() {
    // 0 and 180 degrees are half a turn apart either way; the blend
    // stays on one consistent quarter.
    let mut g = Gps::empty();
    let mut a = sample(0, 0, 0);
    a.bearing = Some(0);
    let mut b = sample(2, 0, 0);
    b.bearing = Some(180_000_000);
    g.insert(0, a);
    g.insert(2, b);
    let r = g.query_interpolated(1, None).unwrap();
    assert_eq!(r.bearing, Some(90_000_000));
}

#[test]
fn absent_optional_fields_stay_absent() {
    let mut g = Gps::empty();
    let mut a = sample(0, 0, 0);
    a.accuracy = Some(5_000_000);
    a.elevation = Some(100_000_000);
    let mut b = sample(10, 1_000_000, 1_000_000);
    b.elevation = Some(200_000_000);
    // b.accuracy stays absent, so the estimate's accuracy is absent.
    g.insert(0, a);
    g.insert(10, b);
    let r = g.query_interpolated(5, None).unwrap();
    assert_eq!(r.accuracy, None);
    assert_eq!(r.elevation, Some(150_000_000));
    assert_eq!(r.speed, None);
    assert_eq!(r.bearing, None);
}

#[test]
fn empty_store_refuses_every_timestamp() {
    let g = Gps::empty();
    assert_eq!(g.query_interpolated(0, None), Err(QueryError::EmptyStore));
    assert_eq!(g.query_interpolated(i64::MIN, None), Err(QueryError::EmptyStore));
    assert_eq!(g.query_interpolated(i64::MAX, Some(10)), Err(QueryError::EmptyStore));
}

#[test]
fn out_of_range_refuses_extrapolation() {
    let mut g = Gps::empty();
    g.insert(10, sample(10, 1, 1));
    g.insert(20, sample(20, 2, 2));
    assert_eq!(g.query_interpolated(9, None), Err(QueryError::OutOfRange));
    assert_eq!(g.query_interpolated(21, None), Err(QueryError::OutOfRange));
    assert_eq!(g.query_interpolated(10, None), Ok(sample(10, 1, 1)));
    assert_eq!(g.query_interpolated(20, None), Ok(sample(20, 2, 2)));
}

#[test]
fn wide_gap_refuses_but_narrow_gap_interpolates() {
    let mut g = Gps::empty();
    g.insert(0, sample(0, 0, 0));
    g.insert(100, sample(100, 1_000_000, 1_000_000));
    assert_eq!(g.query_interpolated(50, Some(99)), Err(QueryError::GapTooLarge));
    // the gap bound is inclusive
    let r = g.query_interpolated(50, Some(100)).unwrap();
    assert_eq!(r.lat, 500_000);
    let r = g.query_interpolated(50, None).unwrap();
    assert_eq!(r.lon, 500_000);
}

#[test]
fn crayon_lookup_answers_each_timestamp() {
    let mut g = Gps::empty();
    g.insert(0, sample(0, 0, 0));
    g.insert(10, sample(10, 2_000_000, 0));
    let queries = vec![0, 5, 11];
    let answers = invoke_crayon(&g, &queries, None);
    assert_eq!(answers.len(), 3);
    assert_eq!(answers[0], Ok(sample(0, 0, 0)));
    let mid = answers[1].clone().unwrap();
    assert_eq!(mid.lat, 1_000_000);
    assert_eq!(answers[2], Err(QueryError::OutOfRange));
}
