use lofi::adapters::{FormatError, GpxRecord, LegacyRecord};
use lofi::store::Gps;

fn legacy(ts: i64, lat: i64, lon: i64) -> LegacyRecord {
    LegacyRecord {
        time: ts,
        latitude: lat,
        longitude: lon,
        altitude: 120_000_000,
        accuracy: 5_000_000,
        vertical_accuracy: 8_000_000,
        bearing: 270_000_000,
        speed: 3_500_000,
    }
}

fn gpx(lat: i64, lon: i64, time: Option<&str>) -> GpxRecord {
    GpxRecord {
        lat,
        lon,
        elevation: None,
        time: time.map(|t| t.as_bytes().to_vec()),
        pdop: None,
        vdop: None,
        speed: None,
    }
}

#[test]
fn legacy_records_become_fully_present_points() {
    let mut g = Gps::empty();
    g.insert_from_legacy(&vec![legacy(100, 51_050_000, 13_740_000)]);
    let p = *g.get(&100).unwrap();
    assert_eq!(p.timestamp, 100);
    assert_eq!(p.lat, 51_050_000);
    assert_eq!(p.lon, 13_740_000);
    assert_eq!(p.elevation, Some(120_000_000));
    assert_eq!(p.accuracy, Some(5_000_000));
    assert_eq!(p.vertical_accuracy, Some(8_000_000));
    assert_eq!(p.bearing, Some(270_000_000));
    assert_eq!(p.speed, Some(3_500_000));
}

#[test]
fn legacy_batch_yields_one_entry_per_record() {
    let mut g = Gps::empty();
    let records = vec![
        legacy(3, 30, 30),
        legacy(1, 10, 10),
        legacy(2, 20, 20),
    ];
    g.insert_from_legacy(&records);
    assert_eq!(g.len(), 3);
    assert_eq!(g.get(&1).unwrap().lat, 10);
    assert_eq!(g.get(&2).unwrap().lat, 20);
    assert_eq!(g.get(&3).unwrap().lat, 30);
}

#[test]
fn legacy_duplicate_timestamps_collapse_to_the_later_record() {
    let mut g = Gps::empty();
    let records = vec![legacy(5, 111, 111), legacy(6, 222, 222), legacy(5, 333, 333)];
    g.insert_from_legacy(&records);
    assert_eq!(g.len(), 2);
    assert_eq!(g.get(&5).unwrap().lat, 333);
}

#[test]
fn gpx_time_converts_to_unix_seconds() {
    let mut g = Gps::empty();
    let r = g.insert_from_gpx(&vec![gpx(51_000_000, 13_000_000, Some("1970-01-02T00:00:00Z"))]);
    assert_eq!(r, Ok(()));
    assert_eq!(g.len(), 1);
    let p = *g.get(&86_400).unwrap();
    assert_eq!(p.lat, 51_000_000);
    assert_eq!(p.lon, 13_000_000);
    assert_eq!(p.bearing, None);
}

#[test]
fn gpx_known_calendar_date_converts_exactly() {
    let mut g = Gps::empty();
    let r = g.insert_from_gpx(&vec![gpx(1, 2, Some("2023-05-01T10:15:30Z"))]);
    assert_eq!(r, Ok(()));
    assert!(g.get(&1_682_936_130).is_some());
}

#[test]
fn gpx_fractional_seconds_truncate() {
    let mut g = Gps::empty();
    let r = g.insert_from_gpx(&vec![gpx(1, 2, Some("1970-01-01T00:01:00.500000000Z"))]);
    assert_eq!(r, Ok(()));
    assert!(g.get(&60).is_some());
}

#[test]
fn gpx_optional_fields_map_to_their_slots() {
    let mut g = Gps::empty();
    let mut rec = gpx(1, 2, Some("1970-01-01T00:00:10Z"));
    rec.elevation = Some(95_000_000);
    rec.pdop = Some(1_200_000);
    rec.vdop = Some(2_500_000);
    rec.speed = Some(4_000_000);
    g.insert_from_gpx(&vec![rec]).unwrap();
    let p = *g.get(&10).unwrap();
    assert_eq!(p.elevation, Some(95_000_000));
    assert_eq!(p.accuracy, Some(1_200_000));
    assert_eq!(p.vertical_accuracy, Some(2_500_000));
    assert_eq!(p.bearing, None);
    assert_eq!(p.speed, Some(4_000_000));
}

#[test]
fn gpx_point_without_time_is_skipped() {
    let mut g = Gps::empty();
    let records = vec![
        gpx(1, 1, Some("1970-01-01T00:00:01Z")),
        gpx(2, 2, None),
        gpx(3, 3, Some("1970-01-01T00:00:03Z")),
    ];
    assert_eq!(g.insert_from_gpx(&records), Ok(()));
    assert_eq!(g.len(), 2);
    assert!(g.get(&1).is_some());
    assert!(g.get(&3).is_some());
}

#[test]
fn gpx_malformed_time_rejects_the_whole_batch() {
    let mut g = Gps::empty();
    g.insert_from_gpx(&vec![gpx(1, 1, Some("1970-01-01T00:00:01Z"))]).unwrap();
    let records = vec![
        gpx(2, 2, Some("1970-01-01T00:00:02Z")),
        gpx(3, 3, Some("not-a-timestamp")),
    ];
    assert_eq!(g.insert_from_gpx(&records), Err(FormatError::BadTimestamp));
    // the failed batch left the store untouched
    assert_eq!(g.len(), 1);
    assert!(g.get(&2).is_none());
}

#[test]
fn gpx_duplicate_timestamp_overwrites() {
    let mut g = Gps::empty();
    let records = vec![
        gpx(111, 111, Some("1970-01-01T00:00:05Z")),
        gpx(222, 222, Some("1970-01-01T00:00:05Z")),
    ];
    g.insert_from_gpx(&records).unwrap();
    assert_eq!(g.len(), 1);
    assert_eq!(g.get(&5).unwrap().lat, 222);
}
