//! The canonical trackpoint: one GPS sample as every adapter must
//! deliver it.

use vstd::prelude::*;

verus! {

/// One GPS sample.
///
/// `timestamp` is Unix seconds and acts as the unique key within a
/// store. `lat` and `lon` are WGS84 degrees in micro-degrees (degrees
/// times one million). The remaining fields are optional micro-unit
/// quantities (meters, degrees, meters per second); `None` means the
/// source did not record the value, which is distinct from zero and
/// must survive interpolation.
#[derive(Clone, Copy, Debug, PartialEq, Eq, Structural)]
pub struct GpsPoint {
    pub timestamp: i64,
    pub lat: i64,
    pub lon: i64,
    pub elevation: Option<i64>,
    pub accuracy: Option<i64>,
    pub vertical_accuracy: Option<i64>,
    pub bearing: Option<i64>,
    pub speed: Option<i64>,
}

impl GpsPoint {
    /// Builds a sample from a full field set: every optional quantity
    /// is marked present.
    pub fn new_full(
        timestamp: i64,
        lat: i64,
        lon: i64,
        elevation: i64,
        accuracy: i64,
        vertical_accuracy: i64,
        bearing: i64,
        speed: i64,
    ) -> (r: GpsPoint)
        ensures
            r == (GpsPoint {
                timestamp,
                lat,
                lon,
                elevation: Some(elevation),
                accuracy: Some(accuracy),
                vertical_accuracy: Some(vertical_accuracy),
                bearing: Some(bearing),
                speed: Some(speed),
            }),
    {
        GpsPoint {
            timestamp,
            lat,
            lon,
            elevation: Some(elevation),
            accuracy: Some(accuracy),
            vertical_accuracy: Some(vertical_accuracy),
            bearing: Some(bearing),
            speed: Some(speed),
        }
    }

    /// Builds a sample from a partial field set: every optional
    /// quantity defaults to absent.
    pub fn new_partial(timestamp: i64, lat: i64, lon: i64) -> (r: GpsPoint)
        ensures
            r == (GpsPoint {
                timestamp,
                lat,
                lon,
                elevation: None,
                accuracy: None,
                vertical_accuracy: None,
                bearing: None,
                speed: None,
            }),
    {
        GpsPoint {
            timestamp,
            lat,
            lon,
            elevation: None,
            accuracy: None,
            vertical_accuracy: None,
            bearing: None,
            speed: None,
        }
    }
}

} // verus!
