//! Format adapters: each turns one source format's records into
//! canonical trackpoints and inserts them into a store.
//!
//! The legacy flat JSON location log carries every field, so each of
//! its records yields a point with all optional fields present. A GPX
//! trackpoint carries coordinates plus whatever else the recorder
//! wrote: elevation, the dilution-of-precision pair and speed map to
//! the matching optional fields, a bearing is never available, and the
//! timestamp is the point's recorded ISO-8601 UTC time truncated to
//! whole seconds and converted to Unix seconds. A trackpoint with no
//! recorded time is skipped; one whose recorded time does not parse is
//! fatal for the whole batch.
//!
//! Callers deliver records as plain fixed-point values (micro-units)
//! and byte strings; file reading and decoding sit outside this crate.

use vstd::prelude::*;
use crate::point::GpsPoint;
use crate::store::{inserted, Gps};

verus! {

/// The byte `'.'`, which opens the fractional-seconds part of a
/// timestamp.
pub const DOT_BYTE: u8 = 46;

/// The byte `'Z'`, the UTC suffix of a timestamp.
pub const Z_BYTE: u8 = 90;

/// Why a batch of source records was rejected.
#[derive(Clone, Copy, Debug, PartialEq, Eq, Structural)]
pub enum FormatError {
    /// A trackpoint's recorded time failed to parse as an ISO-8601
    /// UTC timestamp.
    BadTimestamp,
}

/// One record of the legacy flat JSON location log. Every field is
/// required in that format, so none is optional here; fractional
/// quantities are fixed-point micro-units.
#[derive(Clone, Copy, Debug, PartialEq, Eq, Structural)]
pub struct LegacyRecord {
    pub time: i64,
    pub latitude: i64,
    pub longitude: i64,
    pub altitude: i64,
    pub accuracy: i64,
    pub vertical_accuracy: i64,
    pub bearing: i64,
    pub speed: i64,
}

/// One trackpoint as read from a GPX track segment: coordinates in
/// micro-degrees, optional micro-unit quantities, and the recorded
/// time as the bytes of its ISO-8601 text, if any.
#[derive(Clone, Debug, PartialEq, Eq)]
pub struct GpxRecord {
    pub lat: i64,
    pub lon: i64,
    pub elevation: Option<i64>,
    pub time: Option<Vec<u8>>,
    pub pdop: Option<i64>,
    pub vdop: Option<i64>,
    pub speed: Option<i64>,
}

/// The canonical point a legacy record denotes: keyed by its `time`,
/// with every optional field marked present.
pub open spec fn legacy_point(r: LegacyRecord) -> GpsPoint {
    GpsPoint {
        timestamp: r.time,
        lat: r.latitude,
        lon: r.longitude,
        elevation: Some(r.altitude),
        accuracy: Some(r.accuracy),
        vertical_accuracy: Some(r.vertical_accuracy),
        bearing: Some(r.bearing),
        speed: Some(r.speed),
    }
}

/// The canonical points a legacy batch denotes, in input order.
pub open spec fn legacy_points(rs: Seq<LegacyRecord>) -> Seq<GpsPoint> {
    Seq::new(rs.len(), |i: int| legacy_point(rs[i]))
}

/// The Unix seconds that chrono derives from the bytes of an
/// ISO-8601 UTC timestamp of whole seconds, or `None` where the bytes
/// do not parse in that format.
pub uninterp spec fn iso_utc_seconds(s: Seq<u8>) -> Option<i64>;

/// Relies on chrono's `NaiveDateTime::parse_from_str` with the fixed
/// format `%Y-%m-%dT%H:%M:%SZ`, and on `DateTime::timestamp`, for the
/// conversion of an ISO-8601 UTC timestamp to Unix seconds. With the
/// format and zone fixed, the result is a function of the bytes
/// alone.
#[verifier::external_body]
fn parse_iso_utc(s: &Vec<u8>) -> (r: Option<i64>)
    ensures
        r == iso_utc_seconds(s@),
{
    match std::str::from_utf8(s) {
        Ok(text) => match chrono::NaiveDateTime::parse_from_str(text, "%Y-%m-%dT%H:%M:%SZ") {
            Ok(dt) => Some(dt.and_utc().timestamp()),
            Err(_) => None,
        },
        Err(_) => None,
    }
}

/// The position of the first `'.'` in `s` at or after `i`, or
/// `s.len()` when there is none.
pub open spec fn dot_index(s: Seq<u8>, i: int) -> int
    decreases s.len() - i,
{
    if i < 0 || i >= s.len() {
        s.len() as int
    } else if s[i] == DOT_BYTE {
        i
    } else {
        dot_index(s, i + 1)
    }
}

/// A recorded time truncated to whole seconds: everything from the
/// first `'.'` on is dropped and the UTC suffix restored; bytes
/// without a fractional part pass through unchanged.
pub open spec fn normalize_time(s: Seq<u8>) -> Seq<u8> {
    if dot_index(s, 0) == s.len() {
        s
    } else {
        s.take(dot_index(s, 0)).push(Z_BYTE)
    }
}

/// `dot_index` finds the first `'.'` at or after `i`.
proof fn lemma_dot_index(s: Seq<u8>, i: int)
    requires
        0 <= i <= s.len(),
    ensures
        i <= dot_index(s, i) <= s.len(),
        dot_index(s, i) < s.len() ==> s[dot_index(s, i)] == DOT_BYTE,
        forall|j: int| i <= j < dot_index(s, i) ==> s[j] != DOT_BYTE,
    decreases s.len() - i,
{
    if i == s.len() {
    } else if s[i] == DOT_BYTE {
    } else {
        lemma_dot_index(s, i + 1);
    }
}

/// Truncates a recorded time to whole seconds.
fn truncate_subseconds(t: &Vec<u8>) -> (r: Vec<u8>)
    ensures
        r@ == normalize_time(t@),
{
    let n = t.len();
    let mut out: Vec<u8> = Vec::new();
    let mut i: usize = 0;
    while i < n && t[i] != DOT_BYTE
        invariant
            i <= n,
            n == t@.len(),
            out@ == t@.take(i as int),
            forall|j: int| 0 <= j < i ==> t@[j] != DOT_BYTE,
        decreases n - i,
    {
        out.push(t[i]);
        i = i + 1;
    }
    proof {
        lemma_dot_index(t@, 0);
        let d = dot_index(t@, 0);
        if d < i {
            assert(t@[d] == DOT_BYTE);
            assert(false);
        }
        if i < n {
            assert(t@[i as int] == DOT_BYTE);
            if d > i {
                assert(t@[i as int] != DOT_BYTE);
            }
            assert(d == i);
        } else {
            assert(d == n);
            assert(t@.take(n as int) =~= t@);
        }
    }
    if i < n {
        out.push(Z_BYTE);
    }
    out
}

/// Whether one GPX record is acceptable: either it has no recorded
/// time (and is skipped) or its recorded time parses.
pub open spec fn gpx_record_ok(r: GpxRecord) -> bool {
    match r.time {
        Some(t) => iso_utc_seconds(normalize_time(t@)) is Some,
        None => true,
    }
}

/// Whether a whole GPX batch is acceptable.
pub open spec fn gpx_ok(rs: Seq<GpxRecord>) -> bool {
    forall|i: int| 0 <= i < rs.len() ==> gpx_record_ok(#[trigger] rs[i])
}

/// The canonical point a GPX record denotes, once its timestamp is
/// known: a bearing is never available from GPX, the
/// dilution-of-precision pair maps to the accuracy fields.
pub open spec fn gpx_point(r: GpxRecord, ts: i64) -> GpsPoint {
    GpsPoint {
        timestamp: ts,
        lat: r.lat,
        lon: r.lon,
        elevation: r.elevation,
        accuracy: r.pdop,
        vertical_accuracy: r.vdop,
        bearing: None,
        speed: r.speed,
    }
}

/// The canonical points a GPX batch denotes, in input order, skipping
/// records with no recorded time.
pub open spec fn gpx_points(rs: Seq<GpxRecord>) -> Seq<GpsPoint>
    decreases rs.len(),
{
    if rs.len() == 0 {
        Seq::empty()
    } else {
        let rest = gpx_points(rs.drop_last());
        match rs.last().time {
            Some(t) => match iso_utc_seconds(normalize_time(t@)) {
                Some(ts) => rest.push(gpx_point(rs.last(), ts)),
                None => rest,
            },
            None => rest,
        }
    }
}

impl Gps {
    /// Ingests a batch of legacy-JSON records: one point per record,
    /// keyed by its `time`, inserted in input order so a duplicated
    /// timestamp resolves to the later record (last-write-wins).
    pub fn insert_from_legacy(&mut self, records: &Vec<LegacyRecord>)
        requires
            old(self).wf(),
        ensures
            final(self).wf(),
            final(self)@ == inserted(old(self)@, legacy_points(records@)),
    {
        let ghost m0 = self@;
        let mut i: usize = 0;
        while i < records.len()
            invariant
                i <= records@.len(),
                self.wf(),
                self@ == inserted(m0, legacy_points(records@).take(i as int)),
            decreases records@.len() - i,
        {
            let r = records[i];
            let p = GpsPoint {
                timestamp: r.time,
                lat: r.latitude,
                lon: r.longitude,
                elevation: Some(r.altitude),
                accuracy: Some(r.accuracy),
                vertical_accuracy: Some(r.vertical_accuracy),
                bearing: Some(r.bearing),
                speed: Some(r.speed),
            };
            self.insert(r.time, p);
            proof {
                let ps = legacy_points(records@);
                assert(ps.take(i + 1).drop_last() =~= ps.take(i as int));
                assert(ps.take(i + 1).last() == ps[i as int]);
                assert(p == legacy_point(records@[i as int]));
            }
            i = i + 1;
        }
        proof {
            assert(legacy_points(records@).take(records@.len() as int) =~= legacy_points(
                records@,
            ));
        }
    }

    /// Ingests a batch of GPX trackpoints. A record with no recorded
    /// time is skipped and the rest of the batch still processed; a
    /// record whose recorded time does not parse is fatal for the
    /// whole batch, which then leaves the store untouched.
    pub fn insert_from_gpx(&mut self, records: &Vec<GpxRecord>) -> (r: Result<(), FormatError>)
        requires
            old(self).wf(),
        ensures
            final(self).wf(),
            r is Ok <==> gpx_ok(records@),
            r is Ok ==> final(self)@ == inserted(old(self)@, gpx_points(records@)),
            r is Err ==> final(self)@ == old(self)@ && r == Err::<(), FormatError>(
                FormatError::BadTimestamp,
            ),
    {
        let n = records.len();
        let mut i: usize = 0;
        while i < n
            invariant
                i <= n,
                n == records@.len(),
                self.wf(),
                self@ == old(self)@,
                self == old(self),
                forall|j: int| 0 <= j < i ==> gpx_record_ok(#[trigger] records@[j]),
            decreases n - i,
        {
            match &records[i].time {
                Some(t) => {
                    let norm = truncate_subseconds(t);
                    match parse_iso_utc(&norm) {
                        Some(_) => {},
                        None => {
                            return Err(FormatError::BadTimestamp);
                        },
                    }
                },
                None => {},
            }
            i = i + 1;
        }
        let ghost m0 = self@;
        let mut k: usize = 0;
        while k < n
            invariant
                k <= n,
                n == records@.len(),
                gpx_ok(records@),
                self.wf(),
                self@ == inserted(m0, gpx_points(records@.take(k as int))),
            decreases n - k,
        {
            let ghost prefix = gpx_points(records@.take(k as int));
            proof {
                assert(records@.take(k + 1).drop_last() =~= records@.take(k as int));
                assert(records@.take(k + 1).last() == records@[k as int]);
            }
            match &records[k].time {
                Some(t) => {
                    let norm = truncate_subseconds(t);
                    match parse_iso_utc(&norm) {
                        Some(ts) => {
                            let rec = &records[k];
                            let p = GpsPoint {
                                timestamp: ts,
                                lat: rec.lat,
                                lon: rec.lon,
                                elevation: rec.elevation,
                                accuracy: rec.pdop,
                                vertical_accuracy: rec.vdop,
                                bearing: None,
                                speed: rec.speed,
                            };
                            self.insert(ts, p);
                            proof {
                                let ps = gpx_points(records@.take(k + 1));
                                assert(ps == prefix.push(p));
                                assert(prefix.push(p).drop_last() =~= prefix);
                                assert(inserted(m0, ps) == inserted(m0, prefix).insert(ts, p));
                            }
                        },
                        None => {
                            proof {
                                assert(gpx_record_ok(records@[k as int]));
                                assert(false);
                            }
                            return Err(FormatError::BadTimestamp);
                        },
                    }
                },
                None => {
                    proof {
                        assert(gpx_points(records@.take(k + 1)) == prefix);
                    }
                },
            }
            k = k + 1;
        }
        proof {
            assert(records@.take(n as int) =~= records@);
        }
        Ok(())
    }
}

} // verus!
