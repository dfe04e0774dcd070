//! The track store: an ordered, timestamp-keyed collection of
//! canonical trackpoints with last-write-wins deduplication.
//!
//! Internally the points sit in a vector kept strictly sorted by
//! timestamp, so the temporal queries can find bracketing samples by
//! binary search. Abstractly the store is a map from timestamp to
//! point, and every contract speaks of that map.

use vstd::prelude::*;
use vstd::map::*;
use crate::point::GpsPoint;

verus! {

/// Strictly increasing timestamps: the well-formedness of a store's
/// backing sequence. It gives both the sort order the queries need and
/// the uniqueness of timestamps as keys.
pub open spec fn sorted_strict(s: Seq<GpsPoint>) -> bool {
    forall|i: int, j: int|
        0 <= i < j < s.len() ==> s[i].timestamp < s[j].timestamp
}

/// Some stored point carries timestamp `t`.
pub open spec fn has_ts(s: Seq<GpsPoint>, t: i64) -> bool {
    exists|i: int| 0 <= i < s.len() && s[i].timestamp == t
}

/// The stored point carrying timestamp `t` (meaningful when
/// `has_ts(s, t)` holds and timestamps are unique).
pub open spec fn at_ts(s: Seq<GpsPoint>, t: i64) -> GpsPoint {
    s[choose|i: int| 0 <= i < s.len() && s[i].timestamp == t]
}

/// The mapping from timestamp to stored point that a backing sequence
/// represents.
pub open spec fn map_of(s: Seq<GpsPoint>) -> Map<i64, GpsPoint> {
    Map::new(|t: i64| has_ts(s, t), |t: i64| at_ts(s, t))
}

/// The map after inserting every point of `s` into `m` in order, each
/// keyed by its own timestamp; a later point with an equal timestamp
/// overwrites an earlier one (last-write-wins).
pub open spec fn inserted(m: Map<i64, GpsPoint>, s: Seq<GpsPoint>) -> Map<i64, GpsPoint>
    decreases s.len(),
{
    if s.len() == 0 {
        m
    } else {
        inserted(m, s.drop_last()).insert(s.last().timestamp, s.last())
    }
}

/// The set of timestamps occurring in `s`, built point by point (and
/// therefore finite).
pub open spec fn ts_set(s: Seq<GpsPoint>) -> Set<i64>
    decreases s.len(),
{
    if s.len() == 0 {
        Set::empty()
    } else {
        ts_set(s.drop_last()).insert(s.last().timestamp)
    }
}

/// Pairwise distinct timestamps.
pub open spec fn distinct_ts(s: Seq<GpsPoint>) -> bool {
    forall|i: int, j: int|
        0 <= i < j < s.len() ==> s[i].timestamp != s[j].timestamp
}

/// Strict sorting makes timestamps unique keys.
pub proof fn lemma_sorted_distinct(s: Seq<GpsPoint>)
    requires
        sorted_strict(s),
    ensures
        distinct_ts(s),
{
}

/// In a sequence with unique timestamps, any index whose point carries
/// timestamp `t` is the one `at_ts` denotes.
pub proof fn lemma_at_ts(s: Seq<GpsPoint>, t: i64, i: int)
    requires
        distinct_ts(s),
        0 <= i < s.len(),
        s[i].timestamp == t,
    ensures
        has_ts(s, t),
        at_ts(s, t) == s[i],
{
    assert(has_ts(s, t));
    let j = choose|j: int| 0 <= j < s.len() && s[j].timestamp == t;
    assert(s[j].timestamp == t);
    if i != j {
        assert(s[i].timestamp != s[j].timestamp);
    }
}

/// The sorted position for timestamp `t` in `s`: the first index
/// whose point's timestamp is at least `t` (meaningful when `s` is
/// sorted).
pub open spec fn insert_pos(s: Seq<GpsPoint>, t: i64) -> int
    decreases s.len(),
{
    if s.len() == 0 {
        0
    } else if s.last().timestamp < t {
        s.len() as int
    } else {
        insert_pos(s.drop_last(), t)
    }
}

/// In a sorted sequence, `insert_pos` is the first index at or above
/// `t`.
pub proof fn lemma_insert_pos(s: Seq<GpsPoint>, t: i64)
    requires
        sorted_strict(s),
    ensures
        0 <= insert_pos(s, t) <= s.len(),
        forall|j: int| 0 <= j < insert_pos(s, t) ==> s[j].timestamp < t,
        forall|j: int| insert_pos(s, t) <= j < s.len() ==> s[j].timestamp >= t,
    decreases s.len(),
{
    if s.len() == 0 {
    } else if s.last().timestamp < t {
        assert forall|j: int| 0 <= j < s.len() implies s[j].timestamp < t by {
            if j < s.len() - 1 {
                assert(s[j].timestamp < s[s.len() - 1].timestamp);
            }
        }
    } else {
        let dl = s.drop_last();
        assert(sorted_strict(dl));
        lemma_insert_pos(dl, t);
        assert forall|j: int| 0 <= j < insert_pos(s, t) implies s[j].timestamp < t by {
            assert(s[j] == dl[j]);
        }
        assert forall|j: int| insert_pos(s, t) <= j < s.len() implies s[j].timestamp >= t by {
            if j < s.len() - 1 {
                assert(s[j] == dl[j]);
            }
        }
    }
}

/// A sequence's timestamp set contains exactly the timestamps some
/// point of the sequence carries.
pub proof fn lemma_ts_set_has(s: Seq<GpsPoint>)
    ensures
        forall|t: i64| #[trigger] ts_set(s).contains(t) <==> has_ts(s, t),
    decreases s.len(),
{
    if s.len() == 0 {
    } else {
        let dl = s.drop_last();
        lemma_ts_set_has(dl);
        assert forall|t: i64| #[trigger] ts_set(s).contains(t) <==> has_ts(s, t) by {
            if ts_set(s).contains(t) {
                if t == s.last().timestamp {
                    assert(s[s.len() - 1].timestamp == t);
                    assert(has_ts(s, t));
                } else {
                    assert(ts_set(dl).contains(t));
                    assert(has_ts(dl, t));
                    let i = choose|i: int| 0 <= i < dl.len() && dl[i].timestamp == t;
                    assert(s[i] == dl[i]);
                    assert(has_ts(s, t));
                }
            }
            if has_ts(s, t) {
                let i = choose|i: int| 0 <= i < s.len() && s[i].timestamp == t;
                if i == s.len() - 1 {
                    assert(ts_set(s).contains(t));
                } else {
                    assert(dl[i] == s[i]);
                    assert(has_ts(dl, t));
                    assert(ts_set(dl).contains(t));
                    assert(ts_set(s).contains(t));
                }
            }
        }
    }
}

/// A sequence's timestamp set is finite.
pub proof fn lemma_ts_set_finite(s: Seq<GpsPoint>)
    ensures
        ts_set(s).finite(),
    decreases s.len(),
{
    broadcast use vstd::set::axiom_set_empty_finite;

    if s.len() == 0 {
    } else {
        lemma_ts_set_finite(s.drop_last());
        vstd::set::axiom_set_insert_finite(ts_set(s.drop_last()), s.last().timestamp);
    }
}

/// The entries after a batch insert: the keys already present
/// together with every inserted timestamp — duplicates collapse
/// because a timestamp is a single key.
pub proof fn lemma_inserted_dom(m: Map<i64, GpsPoint>, s: Seq<GpsPoint>)
    ensures
        inserted(m, s).dom() == m.dom().union(ts_set(s)),
    decreases s.len(),
{
    if s.len() == 0 {
        assert(m.dom().union(ts_set(s)) =~= m.dom());
    } else {
        lemma_inserted_dom(m, s.drop_last());
        assert(inserted(m, s).dom() =~= m.dom().union(ts_set(s)));
    }
}

/// With pairwise distinct timestamps, the timestamp set has exactly
/// one member per point.
pub proof fn lemma_distinct_count(s: Seq<GpsPoint>)
    requires
        distinct_ts(s),
    ensures
        ts_set(s).finite(),
        ts_set(s).len() == s.len(),
    decreases s.len(),
{
    broadcast use vstd::set::axiom_set_empty_len;

    lemma_ts_set_finite(s);
    if s.len() == 0 {
    } else {
        let dl = s.drop_last();
        assert(distinct_ts(dl)) by {
            assert forall|i: int, j: int|
                0 <= i < j < dl.len() implies dl[i].timestamp != dl[j].timestamp by {
                assert(dl[i] == s[i]);
                assert(dl[j] == s[j]);
            }
        }
        lemma_distinct_count(dl);
        lemma_ts_set_has(dl);
        assert(!ts_set(dl).contains(s.last().timestamp)) by {
            if has_ts(dl, s.last().timestamp) {
                let i = choose|i: int|
                    0 <= i < dl.len() && dl[i].timestamp == s.last().timestamp;
                assert(s[i] == dl[i]);
                assert(s[i].timestamp != s[s.len() - 1].timestamp);
            }
        }
        vstd::set::axiom_set_insert_len(ts_set(dl), s.last().timestamp);
    }
}

/// The pointwise reading of a batch insert whose points carry
/// pairwise distinct timestamps: an inserted timestamp maps to its
/// point, and every other key keeps its old value.
pub proof fn lemma_inserted_value(m: Map<i64, GpsPoint>, s: Seq<GpsPoint>, t: i64)
    requires
        distinct_ts(s),
    ensures
        inserted(m, s).dom().contains(t) <==> (m.dom().contains(t) || has_ts(s, t)),
        has_ts(s, t) ==> inserted(m, s)[t] == at_ts(s, t),
        !has_ts(s, t) && m.dom().contains(t) ==> inserted(m, s)[t] == m[t],
    decreases s.len(),
{
    if s.len() == 0 {
    } else {
        let dl = s.drop_last();
        assert(distinct_ts(dl)) by {
            assert forall|i: int, j: int|
                0 <= i < j < dl.len() implies dl[i].timestamp != dl[j].timestamp by {
                assert(dl[i] == s[i]);
                assert(dl[j] == s[j]);
            }
        }
        lemma_inserted_value(m, dl, t);
        if t == s.last().timestamp {
            assert(s[s.len() - 1].timestamp == t);
            lemma_at_ts(s, t, s.len() - 1);
        } else {
            if has_ts(s, t) {
                let i = choose|i: int| 0 <= i < s.len() && s[i].timestamp == t;
                assert(i != s.len() - 1);
                assert(dl[i] == s[i]);
                assert(has_ts(dl, t));
                lemma_at_ts(s, t, i);
                lemma_at_ts(dl, t, i);
            }
            if has_ts(dl, t) {
                let i = choose|i: int| 0 <= i < dl.len() && dl[i].timestamp == t;
                assert(s[i] == dl[i]);
                assert(has_ts(s, t));
            }
        }
    }
}

/// Ingesting a batch of points into an empty store yields exactly one
/// entry per distinct timestamp in the batch; in particular a batch of
/// pairwise distinct timestamps yields exactly as many entries as
/// points.
pub proof fn lemma_ingest_count(s: Seq<GpsPoint>)
    requires
        distinct_ts(s),
    ensures
        inserted(Map::<i64, GpsPoint>::empty(), s).dom().finite(),
        inserted(Map::<i64, GpsPoint>::empty(), s).dom().len() == s.len(),
{
    lemma_inserted_dom(Map::<i64, GpsPoint>::empty(), s);
    lemma_distinct_count(s);
    assert(Map::<i64, GpsPoint>::empty().dom().union(ts_set(s)) =~= ts_set(s));
}

/// The unified GPS store: one point per timestamp, populated by any
/// number of adapter passes, read back through the temporal queries.
#[derive(Clone, Debug)]
pub struct Gps {
    points: Vec<GpsPoint>,
}

impl View for Gps {
    type V = Map<i64, GpsPoint>;

    open spec fn view(&self) -> Map<i64, GpsPoint> {
        map_of(self.seq())
    }
}

impl Gps {
    /// The backing sequence of points, in ascending timestamp order.
    pub closed spec fn seq(self) -> Seq<GpsPoint> {
        self.points@
    }

    /// The store's invariant: points sorted by strictly increasing
    /// timestamp, so each timestamp is a unique key.
    pub open spec fn wf(self) -> bool {
        sorted_strict(self.seq())
    }

    /// Read access to the sorted backing vector.
    pub fn points_ref(&self) -> (r: &Vec<GpsPoint>)
        ensures
            r@ == self.seq(),
    {
        &self.points
    }

    /// A store with no points.
    pub fn empty() -> (r: Gps)
        ensures
            r.wf(),
            r.seq() == Seq::<GpsPoint>::empty(),
            r@ == Map::<i64, GpsPoint>::empty(),
    {
        let r = Gps { points: Vec::new() };
        proof {
            assert_maps_equal!(r@, Map::<i64, GpsPoint>::empty(), t => {});
        }
        r
    }

    /// How many points the store holds.
    pub fn len(&self) -> (r: usize)
        ensures
            r == self.seq().len(),
    {
        self.points.len()
    }

    /// Stores `v` under timestamp `k`, overwriting and returning any
    /// point previously stored there (last-write-wins); the caller is
    /// told whether a prior value existed. A point is keyed by its own
    /// timestamp, so `k` must equal `v.timestamp`.
    pub fn insert(&mut self, k: i64, v: GpsPoint) -> (prev: Option<GpsPoint>)
        requires
            old(self).wf(),
            v.timestamp == k,
        ensures
            final(self).wf(),
            final(self)@ == old(self)@.insert(k, v),
            prev == (if old(self)@.dom().contains(k) {
                Some(old(self)@[k])
            } else {
                None::<GpsPoint>
            }),
            final(self).seq().len() == old(self).seq().len() + (if old(self)@.dom().contains(k) {
                0int
            } else {
                1int
            }),
            final(self).seq() == (if old(self)@.dom().contains(k) {
                old(self).seq().update(insert_pos(old(self).seq(), k), v)
            } else {
                old(self).seq().insert(insert_pos(old(self).seq(), k), v)
            }),
    {
        let ghost s0 = self.points@;
        let idx = lower_bound(&self.points, k);
        proof {
            lemma_insert_pos(s0, k);
            let ip = insert_pos(s0, k);
            if idx < ip {
                assert(s0[idx as int].timestamp < k);
                assert(s0[idx as int].timestamp >= k);
            }
            if idx > ip {
                assert(s0[ip].timestamp < k);
                assert(s0[ip].timestamp >= k);
            }
            assert(idx == ip);
        }
        if idx < self.points.len() && self.points[idx].timestamp == k {
            let prev = self.points[idx];
            self.points.set(idx, v);
            proof {
                lemma_at_ts(s0, k, idx as int);
                assert forall|x: int| 0 <= x < self.points@.len() implies self.points@[x].timestamp
                    == s0[x].timestamp by {}
                assert(sorted_strict(self.points@));
                assert_maps_equal!(map_of(self.points@), map_of(s0).insert(k, v), t => {
                    if t == k {
                        lemma_at_ts(self.points@, k, idx as int);
                    } else {
                        if has_ts(s0, t) {
                            let j = choose|j: int| 0 <= j < s0.len() && s0[j].timestamp == t;
                            lemma_at_ts(s0, t, j);
                            lemma_at_ts(self.points@, t, j);
                        }
                        if has_ts(self.points@, t) {
                            let j = choose|j: int|
                                0 <= j < self.points@.len() && self.points@[j].timestamp == t;
                            lemma_at_ts(self.points@, t, j);
                            lemma_at_ts(s0, t, j);
                        }
                    }
                });
            }
            Some(prev)
        } else {
            self.points.insert(idx, v);
            proof {
                let s1 = self.points@;
                assert forall|x: int| 0 <= x < s0.len() && s0[x].timestamp == k implies false by {
                    if x < idx {
                        assert(s0[x].timestamp < k);
                    } else {
                        assert(s0[x].timestamp >= k);
                        assert(s0[x].timestamp != k);
                    }
                }
                assert(!has_ts(s0, k));
                assert forall|i: int, j: int| 0 <= i < j < s1.len() implies s1[i].timestamp
                    < s1[j].timestamp by {
                    if j < idx {
                    } else if i >= idx + 1 {
                        assert(s1[i] == s0[i - 1]);
                        assert(s1[j] == s0[j - 1]);
                    } else if i < idx && j == idx {
                        assert(s1[i] == s0[i]);
                        assert(s0[i].timestamp < k);
                    } else if i == idx {
                        assert(s1[j] == s0[j - 1]);
                        assert(s0[j - 1].timestamp >= k);
                        assert(s0[j - 1].timestamp != k);
                    } else {
                        assert(s1[i] == s0[i]);
                        assert(s1[j] == s0[j - 1]);
                        assert(s0[i].timestamp < k);
                        assert(s0[j - 1].timestamp >= k);
                        assert(s0[j - 1].timestamp != k);
                    }
                }
                assert(sorted_strict(s1));
                assert_maps_equal!(map_of(s1), map_of(s0).insert(k, v), t => {
                    if t == k {
                        lemma_at_ts(s1, k, idx as int);
                    } else {
                        if has_ts(s0, t) {
                            let j = choose|j: int| 0 <= j < s0.len() && s0[j].timestamp == t;
                            lemma_at_ts(s0, t, j);
                            if j < idx {
                                lemma_at_ts(s1, t, j);
                            } else {
                                assert(s1[j + 1] == s0[j]);
                                lemma_at_ts(s1, t, j + 1);
                            }
                        }
                        if has_ts(s1, t) {
                            let j = choose|j: int| 0 <= j < s1.len() && s1[j].timestamp == t;
                            assert(j != idx);
                            if j < idx {
                                lemma_at_ts(s1, t, j);
                                lemma_at_ts(s0, t, j);
                            } else {
                                assert(s1[j] == s0[j - 1]);
                                lemma_at_ts(s1, t, j);
                                lemma_at_ts(s0, t, j - 1);
                            }
                        }
                    }
                });
            }
            None
        }
    }

    /// The point stored under timestamp `k`, if any.
    pub fn get(&self, k: &i64) -> (r: Option<&GpsPoint>)
        requires
            self.wf(),
        ensures
            r == (if self@.dom().contains(*k) {
                Some(&self@[*k])
            } else {
                None::<&GpsPoint>
            }),
    {
        let idx = lower_bound(&self.points, *k);
        if idx < self.points.len() && self.points[idx].timestamp == *k {
            proof {
                lemma_at_ts(self.points@, *k, idx as int);
            }
            Some(&self.points[idx])
        } else {
            proof {
                assert forall|x: int|
                    0 <= x < self.points@.len() && self.points@[x].timestamp == *k implies false by {
                    if x < idx {
                        assert(self.points@[x].timestamp < *k);
                    } else {
                        assert(self.points@[x].timestamp >= *k);
                        assert(self.points@[x].timestamp != *k);
                    }
                }
                assert(!has_ts(self.points@, *k));
            }
            None
        }
    }

    /// The stored `(timestamp, point)` pairs in ascending timestamp
    /// order, as copies.
    pub fn iter(&self) -> (r: Vec<(i64, GpsPoint)>)
        ensures
            r@.len() == self.seq().len(),
            forall|i: int|
                0 <= i < r@.len() ==> r@[i] == (self.seq()[i].timestamp, self.seq()[i]),
    {
        let mut r: Vec<(i64, GpsPoint)> = Vec::new();
        let mut i: usize = 0;
        while i < self.points.len()
            invariant
                i <= self.points.len(),
                r@.len() == i,
                forall|j: int|
                    0 <= j < i ==> r@[j] == (self.points@[j].timestamp, self.points@[j]),
            decreases self.points.len() - i,
        {
            let p = self.points[i];
            r.push((p.timestamp, p));
            i = i + 1;
        }
        r
    }
}

/// A well-formed store holds exactly one entry per point: what
/// `len()` counts is the number of keys in the abstract map.
pub proof fn lemma_entry_count(g: Gps)
    requires
        g.wf(),
    ensures
        g@.dom().finite(),
        g@.dom().len() == g.seq().len(),
{
    lemma_sorted_distinct(g.seq());
    lemma_distinct_count(g.seq());
    lemma_ts_set_has(g.seq());
    assert(g@.dom() =~= ts_set(g.seq()));
}

/// Inserts every point of `src` into `dst`, in `src`'s timestamp
/// order; where both stores hold a timestamp, `src`'s point wins.
pub fn merge(dst: &mut Gps, src: &Gps)
    requires
        old(dst).wf(),
        src.wf(),
    ensures
        final(dst).wf(),
        final(dst)@ == inserted(old(dst)@, src.seq()),
{
    let ghost m0 = dst@;
    let pts = src.points_ref();
    let mut i: usize = 0;
    while i < pts.len()
        invariant
            i <= pts.len(),
            pts@ == src.seq(),
            dst.wf(),
            dst@ == inserted(m0, src.seq().take(i as int)),
        decreases pts.len() - i,
    {
        let p = pts[i];
        dst.insert(p.timestamp, p);
        proof {
            assert(src.seq().take(i + 1).drop_last() =~= src.seq().take(i as int));
            assert(src.seq().take(i + 1).last() == src.seq()[i as int]);
        }
        i = i + 1;
    }
    proof {
        assert(src.seq().take(src.seq().len() as int) =~= src.seq());
    }
}

/// First index whose point's timestamp is at least `k` (equals
/// `pts.len()` when every timestamp is below `k`).
pub(crate) fn lower_bound(pts: &Vec<GpsPoint>, k: i64) -> (r: usize)
    requires
        sorted_strict(pts@),
    ensures
        r <= pts@.len(),
        forall|j: int| 0 <= j < r ==> pts@[j].timestamp < k,
        forall|j: int| r <= j < pts@.len() ==> pts@[j].timestamp >= k,
{
    let mut lo: usize = 0;
    let mut hi: usize = pts.len();
    while lo < hi
        invariant
            lo <= hi <= pts@.len(),
            sorted_strict(pts@),
            forall|j: int| 0 <= j < lo ==> pts@[j].timestamp < k,
            forall|j: int| hi <= j < pts@.len() ==> pts@[j].timestamp >= k,
        decreases hi - lo,
    {
        let mid = lo + (hi - lo) / 2;
        if pts[mid].timestamp < k {
            lo = mid + 1;
        } else {
            hi = mid;
        }
    }
    lo
}

} // verus!
