//! The temporal query engine: the best-estimate trackpoint at an
//! arbitrary timestamp.
//!
//! An exact hit returns the stored point unchanged. Between two stored
//! samples the engine interpolates linearly over the fixed-point
//! micro-units; a bearing is an angular quantity and is blended along
//! the shortest path around the circle. An optional field is
//! interpolated only when both bracketing samples carry it — an
//! estimate never fabricates a value the inputs could not support.
//! Outside the recorded range the engine refuses to extrapolate.

use vstd::prelude::*;
use vstd::arithmetic::div_mod::{
    lemma_div_is_ordered, lemma_div_multiples_vanish, lemma_div_pos_is_pos,
    lemma_fundamental_div_mod, lemma_mod_bound, lemma_mod_multiples_vanish, lemma_small_mod,
};
use vstd::arithmetic::mul::{lemma_mul_inequality, lemma_mul_upper_bound};
use crate::point::GpsPoint;
use crate::store::{
    at_ts, has_ts, lemma_at_ts, lemma_sorted_distinct, sorted_strict, Gps,
};

verus! {

/// One full turn, in micro-degrees.
pub const DEG360: i64 = 360000000;

/// Half a turn, in micro-degrees.
pub const DEG180: i64 = 180000000;

/// Why a temporal query returned no estimate.
#[derive(Clone, Copy, Debug, PartialEq, Eq, Structural)]
pub enum QueryError {
    /// The store holds no points at all.
    EmptyStore,
    /// The timestamp falls before the earliest or after the latest
    /// stored sample, and extrapolation is disallowed.
    OutOfRange,
    /// Bracketing samples exist but lie further apart than the
    /// caller's maximum interpolation gap.
    GapTooLarge,
    /// The bracketing samples carry equal timestamps. Key uniqueness
    /// makes this impossible, but the division is guarded all the
    /// same.
    DivisionUndefined,
}

/// Linear interpolation between `v0` and `v1` at integer fraction
/// `dt / span`, rounded toward `v0`.
pub open spec fn lerp(v0: int, v1: int, dt: int, span: int) -> int {
    if v1 >= v0 {
        v0 + (v1 - v0) * dt / span
    } else {
        v0 - (v0 - v1) * dt / span
    }
}

/// An angle folded into `[0, DEG360)`.
pub open spec fn norm_circle(b: int) -> int {
    b % (DEG360 as int)
}

/// Bearing interpolation along the shortest angular path, so a blend
/// across due north wraps through 0 rather than swinging half the
/// circle.
pub open spec fn bearing_lerp(b0: int, b1: int, dt: int, span: int) -> int {
    let n0 = norm_circle(b0);
    let n1 = norm_circle(b1);
    let d = n1 - n0;
    let d2 = if d > DEG180 as int {
        d - DEG360 as int
    } else if d < -(DEG180 as int) {
        d + DEG360 as int
    } else {
        d
    };
    norm_circle(lerp(n0, n0 + d2, dt, span))
}

/// Interpolation of one optional field: present only when both inputs
/// are present.
pub open spec fn opt_lerp(a: Option<i64>, b: Option<i64>, dt: int, span: int) -> Option<i64> {
    match (a, b) {
        (Some(x), Some(y)) => Some(lerp(x as int, y as int, dt, span) as i64),
        _ => None,
    }
}

/// Interpolation of an optional bearing, along the shortest angular
/// path.
pub open spec fn opt_bearing_lerp(a: Option<i64>, b: Option<i64>, dt: int, span: int) -> Option<
    i64,
> {
    match (a, b) {
        (Some(x), Some(y)) => Some(bearing_lerp(x as int, y as int, dt, span) as i64),
        _ => None,
    }
}

/// The estimate between bracketing samples `a` and `b` at time `t`:
/// latitude and longitude blend linearly, each optional field only
/// when both samples carry it, and the bearing along the shortest
/// angular path.
pub open spec fn interp_point(a: GpsPoint, b: GpsPoint, t: i64) -> GpsPoint {
    let dt = t - a.timestamp;
    let span = b.timestamp - a.timestamp;
    GpsPoint {
        timestamp: t,
        lat: lerp(a.lat as int, b.lat as int, dt, span) as i64,
        lon: lerp(a.lon as int, b.lon as int, dt, span) as i64,
        elevation: opt_lerp(a.elevation, b.elevation, dt, span),
        accuracy: opt_lerp(a.accuracy, b.accuracy, dt, span),
        vertical_accuracy: opt_lerp(a.vertical_accuracy, b.vertical_accuracy, dt, span),
        bearing: opt_bearing_lerp(a.bearing, b.bearing, dt, span),
        speed: opt_lerp(a.speed, b.speed, dt, span),
    }
}

/// The greatest index whose point's timestamp is at most `t`, or -1
/// when every stored timestamp exceeds `t`.
pub open spec fn below_idx(s: Seq<GpsPoint>, t: i64) -> int
    decreases s.len(),
{
    if s.len() == 0 {
        -1
    } else if s.last().timestamp <= t {
        s.len() - 1
    } else {
        below_idx(s.drop_last(), t)
    }
}

/// Whether the distance between two bracketing samples exceeds the
/// caller's maximum interpolation gap (`None` puts no bound on it).
pub open spec fn gap_exceeded(a: GpsPoint, b: GpsPoint, max_gap: Option<i64>) -> bool {
    match max_gap {
        Some(g) => b.timestamp - a.timestamp > g,
        None => false,
    }
}

/// What a temporal query answers on a store with backing sequence
/// `s`: the stored point on an exact hit; a refusal on an empty store,
/// outside the recorded range, or across a gap wider than `max_gap`;
/// the interpolated estimate otherwise.
pub open spec fn query_spec(s: Seq<GpsPoint>, t: i64, max_gap: Option<i64>) -> Result<
    GpsPoint,
    QueryError,
> {
    if s.len() == 0 {
        Err(QueryError::EmptyStore)
    } else if has_ts(s, t) {
        Ok(at_ts(s, t))
    } else if t < s[0].timestamp || t > s[s.len() - 1].timestamp {
        Err(QueryError::OutOfRange)
    } else {
        let i = below_idx(s, t);
        let a = s[i];
        let b = s[i + 1];
        if gap_exceeded(a, b, max_gap) {
            Err(QueryError::GapTooLarge)
        } else if a.timestamp == b.timestamp {
            Err(QueryError::DivisionUndefined)
        } else {
            Ok(interp_point(a, b, t))
        }
    }
}

/// In a sorted sequence, `below_idx` is the greatest index at or below
/// `t`.
pub proof fn lemma_below_idx(s: Seq<GpsPoint>, t: i64)
    requires
        sorted_strict(s),
    ensures
        -1 <= below_idx(s, t) < s.len(),
        forall|j: int| 0 <= j < s.len() && s[j].timestamp <= t ==> j <= below_idx(s, t),
        below_idx(s, t) >= 0 ==> s[below_idx(s, t)].timestamp <= t,
        below_idx(s, t) < s.len() - 1 ==> s[below_idx(s, t) + 1].timestamp > t,
    decreases s.len(),
{
    if s.len() == 0 {
    } else if s.last().timestamp <= t {
    } else {
        let s0 = s.drop_last();
        assert(sorted_strict(s0));
        lemma_below_idx(s0, t);
        assert forall|j: int| 0 <= j < s.len() && s[j].timestamp <= t implies j <= below_idx(
            s,
            t,
        ) by {
            if j < s.len() - 1 {
                assert(s0[j] == s[j]);
            }
        }
    }
}

/// Linear interpolation never leaves the interval its endpoints
/// span.
pub proof fn lemma_lerp_between(v0: int, v1: int, dt: int, span: int)
    requires
        0 < span,
        0 <= dt <= span,
    ensures
        v0 <= v1 ==> v0 <= lerp(v0, v1, dt, span) <= v1,
        v1 <= v0 ==> v1 <= lerp(v0, v1, dt, span) <= v0,
{
    if v1 >= v0 {
        let diff = v1 - v0;
        assert(diff * dt >= 0) by (nonlinear_arith)
            requires
                diff >= 0,
                dt >= 0,
        ;
        lemma_div_pos_is_pos(diff * dt, span);
        lemma_mul_inequality(dt, span, diff);
        lemma_div_is_ordered(diff * dt, diff * span, span);
        lemma_div_multiples_vanish(diff, span);
    } else {
        let diff = v0 - v1;
        assert(diff * dt >= 0) by (nonlinear_arith)
            requires
                diff >= 0,
                dt >= 0,
        ;
        lemma_div_pos_is_pos(diff * dt, span);
        lemma_mul_inequality(dt, span, diff);
        lemma_div_is_ordered(diff * dt, diff * span, span);
        lemma_div_multiples_vanish(diff, span);
    }
}

/// Between two bracketing samples the interpolated latitude and
/// longitude lie between the samples' values, and the interpolation
/// fraction lies strictly between zero and one: as integers,
/// `0 < t - a.timestamp < b.timestamp - a.timestamp`.
pub proof fn lemma_interpolation_between(a: GpsPoint, b: GpsPoint, t: i64)
    requires
        a.timestamp < t < b.timestamp,
    ensures
        0 < t - a.timestamp < b.timestamp - a.timestamp,
        a.lat <= b.lat ==> a.lat <= interp_point(a, b, t).lat <= b.lat,
        b.lat <= a.lat ==> b.lat <= interp_point(a, b, t).lat <= a.lat,
        a.lon <= b.lon ==> a.lon <= interp_point(a, b, t).lon <= b.lon,
        b.lon <= a.lon ==> b.lon <= interp_point(a, b, t).lon <= a.lon,
{
    let dt = t - a.timestamp;
    let span = b.timestamp - a.timestamp;
    lemma_lerp_between(a.lat as int, b.lat as int, dt, span);
    lemma_lerp_between(a.lon as int, b.lon as int, dt, span);
}

/// An estimate never fabricates an optional value the inputs could
/// not support: each optional field of the interpolated point is
/// present exactly when both bracketing samples carry it.
pub proof fn lemma_absence_propagation(a: GpsPoint, b: GpsPoint, t: i64)
    ensures
        interp_point(a, b, t).elevation is Some <==> (a.elevation is Some
            && b.elevation is Some),
        interp_point(a, b, t).accuracy is Some <==> (a.accuracy is Some && b.accuracy is Some),
        interp_point(a, b, t).vertical_accuracy is Some <==> (a.vertical_accuracy is Some
            && b.vertical_accuracy is Some),
        interp_point(a, b, t).bearing is Some <==> (a.bearing is Some && b.bearing is Some),
        interp_point(a, b, t).speed is Some <==> (a.speed is Some && b.speed is Some),
{
}

/// The interpolated value is the exact rational interpolation rounded
/// toward the earlier endpoint: the result differs from the exact
/// value `v0 + (v1 - v0) * dt / span` by less than one fixed-point
/// unit, stated here without division over the cleared denominator.
pub proof fn lemma_lerp_rounds_exact(v0: int, v1: int, dt: int, span: int)
    requires
        0 < span,
        0 <= dt <= span,
    ensures
        v1 >= v0 ==> span * (lerp(v0, v1, dt, span) - v0) <= (v1 - v0) * dt < span * (lerp(
            v0,
            v1,
            dt,
            span,
        ) - v0) + span,
        v1 < v0 ==> span * (v0 - lerp(v0, v1, dt, span)) <= (v0 - v1) * dt < span * (v0 - lerp(
            v0,
            v1,
            dt,
            span,
        )) + span,
{
    if v1 >= v0 {
        let num = (v1 - v0) * dt;
        lemma_fundamental_div_mod(num, span);
        lemma_mod_bound(num, span);
        assert(span * (lerp(v0, v1, dt, span) - v0) == span * (num / span)) by (nonlinear_arith)
            requires
                lerp(v0, v1, dt, span) - v0 == num / span,
        ;
    } else {
        let num = (v0 - v1) * dt;
        lemma_fundamental_div_mod(num, span);
        lemma_mod_bound(num, span);
        assert(span * (v0 - lerp(v0, v1, dt, span)) == span * (num / span)) by (nonlinear_arith)
            requires
                v0 - lerp(v0, v1, dt, span) == num / span,
        ;
    }
}

/// Every folded angle lies in `[0, DEG360)`.
pub proof fn lemma_norm_circle_range()
    ensures
        forall|v: int| 0 <= #[trigger] norm_circle(v) < DEG360 as int,
{
    assert forall|v: int| 0 <= #[trigger] norm_circle(v) < DEG360 as int by {
        lemma_mod_bound(v, DEG360 as int);
    }
}

/// An interpolated bearing, when present, is an angle already folded
/// into `[0, DEG360)`.
pub proof fn lemma_bearing_in_range(a: GpsPoint, b: GpsPoint, t: i64)
    ensures
        interp_point(a, b, t).bearing matches Some(x) ==> 0 <= x < DEG360,
{
    lemma_norm_circle_range();
}

/// Fixed-point linear interpolation, with the arithmetic carried out
/// in 128 bits so no intermediate product can overflow.
fn lerp_exec(v0: i64, v1: i64, dt: u64, span: u64) -> (r: i64)
    requires
        0 < span,
        dt <= span,
    ensures
        r as int == lerp(v0 as int, v1 as int, dt as int, span as int),
        v0 <= v1 ==> v0 <= r <= v1,
        v1 <= v0 ==> v1 <= r <= v0,
{
    if v1 >= v0 {
        let diff: u128 = (v1 as i128 - v0 as i128) as u128;
        proof {
            lemma_mul_upper_bound(diff as int, u64::MAX as int, dt as int, u64::MAX as int);
        }
        let num: u128 = diff * (dt as u128);
        let q: u128 = num / (span as u128);
        proof {
            lemma_div_pos_is_pos(num as int, span as int);
            lemma_mul_inequality(dt as int, span as int, diff as int);
            lemma_div_is_ordered(diff as int * dt as int, diff as int * span as int, span as int);
            lemma_div_multiples_vanish(diff as int, span as int);
            assert(q <= diff);
        }
        (v0 as i128 + q as i128) as i64
    } else {
        let diff: u128 = (v0 as i128 - v1 as i128) as u128;
        proof {
            lemma_mul_upper_bound(diff as int, u64::MAX as int, dt as int, u64::MAX as int);
        }
        let num: u128 = diff * (dt as u128);
        let q: u128 = num / (span as u128);
        proof {
            lemma_div_pos_is_pos(num as int, span as int);
            lemma_mul_inequality(dt as int, span as int, diff as int);
            lemma_div_is_ordered(diff as int * dt as int, diff as int * span as int, span as int);
            lemma_div_multiples_vanish(diff as int, span as int);
            assert(q <= diff);
        }
        (v0 as i128 - q as i128) as i64
    }
}

/// A negated remainder folded back into `[0, m)`.
proof fn lemma_mod_negation(a: int, m: int)
    requires
        0 <= a,
        0 < m,
    ensures
        (-a) % m == (if a % m == 0 {
            0int
        } else {
            m - (a % m)
        }),
{
    let q = a / m;
    let r = a % m;
    lemma_fundamental_div_mod(a, m);
    lemma_mod_bound(a, m);
    if r == 0 {
        assert(m * (-q) == -(m * q)) by (nonlinear_arith);
        assert(-a == m * (-q) + 0);
        lemma_mod_multiples_vanish(-q, 0, m);
        lemma_small_mod(0, m as nat);
    } else {
        assert(m * (-q - 1) == -(m * q) - m) by (nonlinear_arith);
        assert(-a == m * (-q - 1) + (m - r));
        lemma_mod_multiples_vanish(-q - 1, m - r, m);
        lemma_small_mod((m - r) as nat, m as nat);
    }
}

/// Folds an angle into `[0, DEG360)`.
fn norm_circle_exec(b: i64) -> (r: i64)
    ensures
        r as int == norm_circle(b as int),
        0 <= r < DEG360,
{
    proof {
        lemma_mod_bound(b as int, DEG360 as int);
    }
    if b >= 0 {
        ((b as u64) % (DEG360 as u64)) as i64
    } else {
        let a: u128 = (-(b as i128)) as u128;
        let m: u128 = a % (DEG360 as u128);
        proof {
            lemma_mod_negation(a as int, DEG360 as int);
        }
        if m == 0 {
            0
        } else {
            (DEG360 as u128 - m) as i64
        }
    }
}

/// Shortest-path bearing interpolation over fixed-point
/// micro-degrees.
fn bearing_lerp_exec(b0: i64, b1: i64, dt: u64, span: u64) -> (r: i64)
    requires
        0 < span,
        dt <= span,
    ensures
        r as int == bearing_lerp(b0 as int, b1 as int, dt as int, span as int),
        0 <= r < DEG360,
{
    let n0 = norm_circle_exec(b0);
    let n1 = norm_circle_exec(b1);
    let d = n1 - n0;
    let d2 = if d > DEG180 {
        d - DEG360
    } else if d < -DEG180 {
        d + DEG360
    } else {
        d
    };
    let target = n0 + d2;
    let l = lerp_exec(n0, target, dt, span);
    proof {
        if l < 0 {
            lemma_mod_multiples_vanish(1, l as int, DEG360 as int);
            lemma_small_mod((l + DEG360) as nat, DEG360 as nat);
        } else if l >= DEG360 {
            lemma_mod_multiples_vanish(1, l as int - DEG360 as int, DEG360 as int);
            lemma_small_mod((l - DEG360) as nat, DEG360 as nat);
        } else {
            lemma_small_mod(l as nat, DEG360 as nat);
        }
    }
    if l < 0 {
        l + DEG360
    } else if l >= DEG360 {
        l - DEG360
    } else {
        l
    }
}

/// Builds the interpolated estimate between bracketing samples.
fn interp_exec(a: &GpsPoint, b: &GpsPoint, t: i64) -> (r: GpsPoint)
    requires
        a.timestamp < b.timestamp,
        a.timestamp <= t <= b.timestamp,
    ensures
        r == interp_point(*a, *b, t),
{
    let dt: u64 = (t as i128 - a.timestamp as i128) as u64;
    let span: u64 = (b.timestamp as i128 - a.timestamp as i128) as u64;
    let lat = lerp_exec(a.lat, b.lat, dt, span);
    let lon = lerp_exec(a.lon, b.lon, dt, span);
    let elevation = match (a.elevation, b.elevation) {
        (Some(x), Some(y)) => Some(lerp_exec(x, y, dt, span)),
        _ => None,
    };
    let accuracy = match (a.accuracy, b.accuracy) {
        (Some(x), Some(y)) => Some(lerp_exec(x, y, dt, span)),
        _ => None,
    };
    let vertical_accuracy = match (a.vertical_accuracy, b.vertical_accuracy) {
        (Some(x), Some(y)) => Some(lerp_exec(x, y, dt, span)),
        _ => None,
    };
    let bearing = match (a.bearing, b.bearing) {
        (Some(x), Some(y)) => Some(bearing_lerp_exec(x, y, dt, span)),
        _ => None,
    };
    let speed = match (a.speed, b.speed) {
        (Some(x), Some(y)) => Some(lerp_exec(x, y, dt, span)),
        _ => None,
    };
    GpsPoint { timestamp: t, lat, lon, elevation, accuracy, vertical_accuracy, bearing, speed }
}

impl Gps {
    /// The stored point whose timestamp equals `t`, if any.
    pub fn lookup_exact(&self, t: i64) -> (r: Option<GpsPoint>)
        requires
            self.wf(),
        ensures
            r == (if self@.dom().contains(t) {
                Some(self@[t])
            } else {
                None::<GpsPoint>
            }),
    {
        match self.get(&t) {
            Some(p) => Some(*p),
            None => None,
        }
    }

    /// The best-estimate point at time `t`.
    ///
    /// An exact hit returns the stored point unchanged; between two
    /// stored samples the interpolated estimate is returned, unless
    /// the samples lie further apart than `max_gap`; before the first
    /// or after the last sample the query refuses to extrapolate. The
    /// answer is a pure function of the store's contents, `t` and
    /// `max_gap`, so equal stores answer equal queries alike.
    pub fn query_interpolated(&self, t: i64, max_gap: Option<i64>) -> (r: Result<
        GpsPoint,
        QueryError,
    >)
        requires
            self.wf(),
        ensures
            r == query_spec(self.seq(), t, max_gap),
            (self.seq().len() == 0) <==> (r == Err::<GpsPoint, QueryError>(
                QueryError::EmptyStore,
            )),
            self@.dom().contains(t) ==> r == Ok::<GpsPoint, QueryError>(self@[t]),
            r != Err::<GpsPoint, QueryError>(QueryError::DivisionUndefined),
            (self.seq().len() > 0 && !self@.dom().contains(t) && (t < self.seq()[0].timestamp || t
                > self.seq()[self.seq().len() - 1].timestamp)) <==> (r == Err::<
                GpsPoint,
                QueryError,
            >(QueryError::OutOfRange)),
    {
        let ghost s = self.seq();
        proof {
            lemma_sorted_distinct(s);
        }
        let pts = self.points_ref();
        let n = pts.len();
        if n == 0 {
            return Err(QueryError::EmptyStore);
        }
        let idx = crate::store::lower_bound(pts, t);
        if idx < n && pts[idx].timestamp == t {
            proof {
                lemma_at_ts(s, t, idx as int);
            }
            return Ok(pts[idx]);
        }
        proof {
            assert forall|x: int| 0 <= x < s.len() && s[x].timestamp == t implies false by {
                if x < idx {
                    assert(s[x].timestamp < t);
                } else {
                    assert(s[x].timestamp >= t);
                }
            }
            assert(!has_ts(s, t));
        }
        if idx == 0 {
            assert(s[0].timestamp > t);
            return Err(QueryError::OutOfRange);
        }
        if idx == n {
            assert(s[n - 1].timestamp < t);
            return Err(QueryError::OutOfRange);
        }
        let a = pts[idx - 1];
        let b = pts[idx];
        proof {
            lemma_below_idx(s, t);
            let bi = below_idx(s, t);
            assert(s[idx - 1].timestamp <= t);
            assert(idx - 1 <= bi);
            if bi >= idx {
                assert(s[bi].timestamp >= t);
                assert(s[bi].timestamp <= t);
                assert(s[bi].timestamp == t);
                assert(false);
            }
            assert(bi == idx - 1);
            assert(a.timestamp < t);
            assert(b.timestamp > t);
        }
        match max_gap {
            Some(g) => {
                if (b.timestamp as i128) - (a.timestamp as i128) > (g as i128) {
                    return Err(QueryError::GapTooLarge);
                }
            },
            None => {},
        }
        if a.timestamp == b.timestamp {
            // unreachable: timestamps are unique keys, so the
            // bracketing samples differ; the division is guarded all
            // the same.
            return Err(QueryError::DivisionUndefined);
        }
        Ok(interp_exec(&a, &b, t))
    }
}

/// Looks up the best-estimate position for each timestamp of a
/// telegram series in turn: the position primitive the line-drawing
/// correlator consumes.
pub fn invoke_crayon(gps: &Gps, timestamps: &Vec<i64>, max_gap: Option<i64>) -> (r: Vec<
    Result<GpsPoint, QueryError>,
>)
    requires
        gps.wf(),
    ensures
        r@.len() == timestamps@.len(),
        forall|i: int|
            0 <= i < r@.len() ==> r@[i] == query_spec(gps.seq(), timestamps@[i], max_gap),
{
    let mut r: Vec<Result<GpsPoint, QueryError>> = Vec::new();
    let mut i: usize = 0;
    while i < timestamps.len()
        invariant
            gps.wf(),
            i <= timestamps@.len(),
            r@.len() == i,
            forall|j: int|
                0 <= j < i ==> r@[j] == query_spec(gps.seq(), timestamps@[j], max_gap),
        decreases timestamps@.len() - i,
    {
        let q = gps.query_interpolated(timestamps[i], max_gap);
        r.push(q);
        i = i + 1;
    }
    r
}

} // verus!
