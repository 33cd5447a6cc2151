//! The mathematical model of a set of points and of the operations on it.
//!
//! A segment and a collection both denote a map from point id to
//! [`PointState`]; every contract of the engine is stated over such maps.

use vstd::prelude::*;
use crate::filter::{filter_holds, Filter};
use crate::metric::{score_of, vector_ok, Distance, Score};
use crate::payload::FieldModel;
use crate::ranking::{covers, ranked, ScoredPoint};

verus! {

/// What is recorded for one point id.
pub struct PointState {
    /// Version of the last operation applied to the point.
    pub version: u64,
    /// `false` once the point is deleted; its record is then a tombstone.
    pub live: bool,
    pub vector: Seq<i8>,
    pub payload: Seq<FieldModel>,
}

/// The points of a segment or collection, tombstones included.
pub type Points = Map<u64, PointState>;

/// How one point of an update was dealt with.
#[derive(Clone, Copy, Debug, PartialEq, Eq, Structural)]
pub enum UpdateStatus {
    /// The operation took effect.
    Applied,
    /// The point already carries this version or a later one; nothing changed.
    Stale,
    /// There is no live point with that id to delete.
    Missing,
    /// The owning segment does not accept writes; nothing changed.
    Refused,
}

/// The point `id` is stored and not deleted.
pub open spec fn is_live(m: Points, id: u64) -> bool {
    m.contains_key(id) && m[id].live
}

/// An upsert of `id` at `version` takes effect: the id is new, or its
/// recorded version is older.
pub open spec fn upsert_applies(m: Points, version: u64, id: u64) -> bool {
    !m.contains_key(id) || m[id].version < version
}

/// The points after an upsert.
pub open spec fn apply_upsert(
    m: Points,
    version: u64,
    id: u64,
    vector: Seq<i8>,
    payload: Seq<FieldModel>,
) -> Points {
    if upsert_applies(m, version, id) {
        m.insert(id, PointState { version, live: true, vector, payload })
    } else {
        m
    }
}

/// The status an upsert reports.
pub open spec fn upsert_status(m: Points, version: u64, id: u64) -> UpdateStatus {
    if upsert_applies(m, version, id) {
        UpdateStatus::Applied
    } else {
        UpdateStatus::Stale
    }
}

/// A delete of `id` at `version` changes the record: the id is known and
/// its recorded version is older.
pub open spec fn delete_applies(m: Points, version: u64, id: u64) -> bool {
    m.contains_key(id) && m[id].version < version
}

/// The points after a delete: the record becomes a tombstone that carries
/// the delete's version.
pub open spec fn apply_delete(m: Points, version: u64, id: u64) -> Points {
    if delete_applies(m, version, id) {
        m.insert(
            id,
            PointState { version, live: false, vector: m[id].vector, payload: m[id].payload },
        )
    } else {
        m
    }
}

/// The status a delete reports.
pub open spec fn delete_status(m: Points, version: u64, id: u64) -> UpdateStatus {
    if !m.contains_key(id) {
        UpdateStatus::Missing
    } else if m[id].version >= version {
        UpdateStatus::Stale
    } else if m[id].live {
        UpdateStatus::Applied
    } else {
        UpdateStatus::Missing
    }
}

/// A query may report `id`: the point is live, satisfies the filter, and is
/// not excluded.
pub open spec fn admits(m: Points, filter: Filter, excluded: Seq<u64>, id: u64) -> bool {
    &&& is_live(m, id)
    &&& filter_holds(filter, m[id].payload)
    &&& !excluded.contains(id)
}

/// The point `id` with its score against `query`.
pub open spec fn scored(m: Points, metric: Distance, query: Seq<i8>, id: u64) -> ScoredPoint {
    ScoredPoint { id, score: score_of(metric, m[id].vector, query) }
}

/// Every entry of `r` is a point the query may report, with its exact
/// score, and `r` is in ranking order.
pub open spec fn sound(
    r: Seq<ScoredPoint>,
    m: Points,
    metric: Distance,
    query: Seq<i8>,
    filter: Filter,
    excluded: Seq<u64>,
) -> bool {
    &&& ranked(r)
    &&& forall|i: int|
        0 <= i < r.len() ==> admits(m, filter, excluded, (#[trigger] r[i]).id) && r[i] == scored(
            m,
            metric,
            query,
            r[i].id,
        )
}

/// Every point the query may report is listed in `r`, or `r` holds `k`
/// entries that all come before it.
pub open spec fn complete(
    r: Seq<ScoredPoint>,
    k: int,
    m: Points,
    metric: Distance,
    query: Seq<i8>,
    filter: Filter,
    excluded: Seq<u64>,
) -> bool {
    forall|id: u64| #[trigger]
        admits(m, filter, excluded, id) ==> covers(r, k, scored(m, metric, query, id))
}

/// `r` is exactly the `k` best points the query may report.
pub open spec fn is_top_k(
    r: Seq<ScoredPoint>,
    k: int,
    m: Points,
    metric: Distance,
    query: Seq<i8>,
    filter: Filter,
    excluded: Seq<u64>,
) -> bool {
    &&& r.len() <= k
    &&& sound(r, m, metric, query, filter, excluded)
    &&& complete(r, k, m, metric, query, filter, excluded)
}

/// `r` is exactly the `k` best of the points that the query may report
/// and that lie within `reach`, the ids that the search has scored.
pub open spec fn tops(
    r: Seq<ScoredPoint>,
    k: int,
    m: Points,
    metric: Distance,
    query: Seq<i8>,
    filter: Filter,
    excluded: Seq<u64>,
    reach: Set<u64>,
) -> bool {
    &&& r.len() <= k
    &&& sound(r, m, metric, query, filter, excluded)
    &&& forall|i: int| 0 <= i < r.len() ==> reach.contains((#[trigger] r[i]).id)
    &&& forall|id: u64|
        reach.contains(id) && #[trigger] admits(m, filter, excluded, id) ==> covers(
            r,
            k,
            scored(m, metric, query, id),
        )
}

/// A page that starts after `cursor` may list `id`: the point is live,
/// satisfies the filter, and lies strictly after the cursor.
pub open spec fn in_page(m: Points, filter: Filter, cursor: Option<u64>, id: u64) -> bool {
    &&& is_live(m, id)
    &&& filter_holds(filter, m[id].payload)
    &&& cursor matches Some(c) ==> c < id
}

/// The entry that stands for `id` in a ranking by id alone: all such
/// entries share one score, so the smaller id comes first.
pub open spec fn slot(id: u64) -> ScoredPoint {
    ScoredPoint { id, score: Score { num: 0, den: 1 } }
}

/// Every entry of `s` is the [`slot`] of its id.
pub open spec fn all_slots(s: Seq<ScoredPoint>) -> bool {
    forall|i: int| 0 <= i < s.len() ==> (#[trigger] s[i]) == slot(s[i].id)
}

/// A delete by filter at `version` turns `id` into a tombstone: the point
/// is live, satisfies the filter, has an older version, and its segment
/// accepts writes.
pub open spec fn swept(m: Points, refused: Set<u64>, version: u64, filter: Filter, id: u64) -> bool {
    &&& is_live(m, id)
    &&& filter_holds(filter, m[id].payload)
    &&& m[id].version < version
    &&& !refused.contains(id)
}

/// The points after a delete by filter.
pub open spec fn apply_sweep(m: Points, refused: Set<u64>, version: u64, filter: Filter) -> Points {
    Map::new(
        |id: u64| m.contains_key(id),
        |id: u64|
            if swept(m, refused, version, filter, id) {
                PointState { version, live: false, vector: m[id].vector, payload: m[id].payload }
            } else {
                m[id]
            },
    )
}

/// What a point handed to an upsert denotes.
pub struct PointModel {
    pub id: u64,
    pub vector: Seq<i8>,
    pub payload: Seq<FieldModel>,
}

/// Every vector of the batch is one the collection accepts.
pub open spec fn batch_ok(metric: Distance, dim: usize, points: Seq<PointModel>) -> bool {
    forall|i: int| 0 <= i < points.len() ==> vector_ok(metric, dim, (#[trigger] points[i]).vector)
}

/// The points after the first `n` points of a batch were upserted in
/// order, at one version. Ids in `refused` belong to segments that accept
/// no writes.
pub open spec fn upserted(
    m: Points,
    refused: Set<u64>,
    version: u64,
    points: Seq<PointModel>,
    n: int,
) -> Points
    decreases n,
{
    if n <= 0 {
        m
    } else {
        let prev = upserted(m, refused, version, points, n - 1);
        let p = points[n - 1];
        if refused.contains(p.id) {
            prev
        } else {
            apply_upsert(prev, version, p.id, p.vector, p.payload)
        }
    }
}

/// The acknowledgement for point `i` of a batch.
pub open spec fn upsert_ack(
    m: Points,
    refused: Set<u64>,
    version: u64,
    points: Seq<PointModel>,
    i: int,
) -> UpdateStatus {
    if refused.contains(points[i].id) {
        UpdateStatus::Refused
    } else {
        upsert_status(upserted(m, refused, version, points, i), version, points[i].id)
    }
}

/// The points after the first `n` ids of a list were deleted in order, at
/// one version.
pub open spec fn deleted(m: Points, refused: Set<u64>, version: u64, ids: Seq<u64>, n: int) -> Points
    decreases n,
{
    if n <= 0 {
        m
    } else {
        let prev = deleted(m, refused, version, ids, n - 1);
        if refused.contains(ids[n - 1]) {
            prev
        } else {
            apply_delete(prev, version, ids[n - 1])
        }
    }
}

/// The acknowledgement for id `i` of a delete.
pub open spec fn delete_ack(m: Points, refused: Set<u64>, version: u64, ids: Seq<u64>, i: int) -> UpdateStatus {
    if refused.contains(ids[i]) {
        UpdateStatus::Refused
    } else {
        delete_status(deleted(m, refused, version, ids, i), version, ids[i])
    }
}

/// The live ids among the first `n` of `ids`, in the order given.
pub open spec fn found(m: Points, ids: Seq<u64>, n: int) -> Seq<u64>
    decreases n,
{
    if n <= 0 {
        Seq::empty()
    } else if is_live(m, ids[n - 1]) {
        found(m, ids, n - 1).push(ids[n - 1])
    } else {
        found(m, ids, n - 1)
    }
}

/// The live points of `m`, without its tombstones.
pub open spec fn purged(m: Points) -> Points {
    Map::new(|id: u64| is_live(m, id), |id: u64| m[id])
}

} // verus!
