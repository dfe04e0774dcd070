use lofi::point::GpsPoint;
use lofi::store::{merge, Gps};

fn sample(ts: i64, lat: i64, lon: i64) -> GpsPoint {
    GpsPoint::new_partial(ts, lat, lon)
}

#[test]
fn empty_store_has_no_points() {
    let g = Gps::empty();
    assert_eq!(g.len(), 0);
    assert!(g.get(&0).is_none());
    assert!(g.iter().is_empty());
}

#[test]
fn insert_reports_absence_then_presence() {
    let mut g = Gps::empty();
    let first = sample(100, 51_050_000, 13_740_000);
    let prev = g.insert(100, first);
    assert!(prev.is_none());
    assert_eq!(g.len(), 1);

    // Second insert at the same timestamp: the caller is told what was
    // overwritten, and a subsequent exact lookup sees the new values.
    let second = sample(100, 51_060_000, 13_750_000);
    let prev = g.insert(100, second);
    assert_eq!(prev, Some(first));
    assert_eq!(g.len(), 1);
    assert_eq!(g.get(&100), Some(&second));
}

#[test]
fn get_misses_unknown_timestamp() {
    let mut g = Gps::empty();
    g.insert(5, sample(5, 1, 2));
    assert!(g.get(&4).is_none());
    assert!(g.get(&6).is_none());
    assert_eq!(g.get(&5), Some(&sample(5, 1, 2)));
}

#[test]
fn iter_yields_ascending_timestamps() {
    let mut g = Gps::empty();
    g.insert(30, sample(30, 3, 3));
    g.insert(10, sample(10, 1, 1));
    g.insert(20, sample(20, 2, 2));
    let pairs = g.iter();
    let keys: Vec<i64> = pairs.iter().map(|kv| kv.0).collect();
    assert_eq!(keys, vec![10, 20, 30]);
    assert_eq!(pairs[0].1, sample(10, 1, 1));
    assert_eq!(pairs[2].1, sample(30, 3, 3));
}

#[test]
fn merge_prefers_the_merged_in_store() {
    let mut a = Gps::empty();
    a.insert(1, sample(1, 10, 10));
    a.insert(2, sample(2, 20, 20));
    let mut b = Gps::empty();
    b.insert(2, sample(2, 99, 99));
    b.insert(3, sample(3, 30, 30));
    merge(&mut a, &b);
    assert_eq!(a.len(), 3);
    assert_eq!(a.get(&1), Some(&sample(1, 10, 10)));
    assert_eq!(a.get(&2), Some(&sample(2, 99, 99)));
    assert_eq!(a.get(&3), Some(&sample(3, 30, 30)));
}

#[test]
fn full_and_partial_construction() {
    let full = GpsPoint::new_full(7, 1, 2, 3, 4, 5, 6, 8);
    assert_eq!(full.timestamp, 7);
    assert_eq!(full.elevation, Some(3));
    assert_eq!(full.accuracy, Some(4));
    assert_eq!(full.vertical_accuracy, Some(5));
    assert_eq!(full.bearing, Some(6));
    assert_eq!(full.speed, Some(8));

    let partial = GpsPoint::new_partial(7, 1, 2);
    assert_eq!(partial.elevation, None);
    assert_eq!(partial.accuracy, None);
    assert_eq!(partial.vertical_accuracy, None);
    assert_eq!(partial.bearing, None);
    assert_eq!(partial.speed, None);
}
