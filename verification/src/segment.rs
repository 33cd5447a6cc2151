//! A segment: the physical storage unit of a collection.
//!
//! A segment keeps its points in offset-addressed storage, maps each id to
//! its offset, logs every mutation before applying it, and answers local
//! top-k searches, by exact scan or through its proximity graph.

use std::collections::HashMap;
use vstd::prelude::*;
use vstd::std_specs::hash::*;
use crate::filter::{anchor_from, anchorable, filter_holds, Condition, Filter};
use crate::index::{eligible, paired, tops_visited, unmarked, VectorIndex};
use crate::payload::Value;
use crate::postings::{carries, PayloadIndex};
use crate::metric::{vector_ok, Distance, MAX_DIM};
use crate::metric::Score;
use crate::error::EngineError;
use crate::metric::check_vector;
use crate::model::{
    admits, all_slots, apply_delete, apply_sweep, apply_upsert, complete, delete_applies,
    delete_status, in_page, is_live, purged, scored, slot, sound, swept, tops, upsert_status,
    PointState, Points, UpdateStatus,
};
use crate::payload::FieldModel;
use crate::payload::Payload;
use crate::ranking::{all_wf, covers, extends, offer, ranked, ScoredPoint};
use crate::storage::PointStore;

verus! {

/// One logged mutation, with all that is needed to apply it again.
#[derive(Debug)]
pub enum WalEntry {
    Upsert { version: u64, id: u64, vector: Vec<i8>, payload: Payload },
    Delete { version: u64, id: u64 },
}

/// The points after applying one logged mutation.
pub open spec fn apply_entry(m: Points, e: WalEntry) -> Points {
    match e {
        WalEntry::Upsert { version, id, vector, payload } => apply_upsert(
            m,
            version,
            id,
            vector@,
            payload@,
        ),
        WalEntry::Delete { version, id } => apply_delete(m, version, id),
    }
}

/// The entry records an upsert of these values.
pub open spec fn records_upsert(
    e: WalEntry,
    version: u64,
    id: u64,
    vector: Seq<i8>,
    payload: Seq<FieldModel>,
) -> bool {
    e matches WalEntry::Upsert { version: v, id: i, vector: w, payload: p } && v == version && i
        == id && w@ == vector && p@ == payload
}

/// What a delete by filter at `version` adds to the log while it passes
/// the first `n` offsets: a delete for each point it turns into a
/// tombstone, in the order of the offsets.
pub open spec fn sweep_log(ids: Seq<u64>, m: Points, version: u64, filter: Filter, n: int) -> Seq<
    WalEntry,
>
    decreases n,
{
    if n <= 0 {
        Seq::empty()
    } else {
        let rest = sweep_log(ids, m, version, filter, n - 1);
        if swept(m, Set::<u64>::empty(), version, filter, ids[n - 1]) {
            rest.push(WalEntry::Delete { version, id: ids[n - 1] })
        } else {
            rest
        }
    }
}

/// The points that result from applying a log, in order, to `m`.
pub open spec fn replay_onto(m: Points, log: Seq<WalEntry>) -> Points
    decreases log.len(),
{
    if log.len() == 0 {
        m
    } else {
        apply_entry(replay_onto(m, log.drop_last()), log.last())
    }
}

/// The points that result from applying a log, in order, to nothing.
pub open spec fn replayed(log: Seq<WalEntry>) -> Points {
    replay_onto(Map::empty(), log)
}

/// A log entry can be applied to a segment of this shape: a vector it
/// carries is one the segment accepts.
pub open spec fn entry_ok(config: SegmentConfig, e: WalEntry) -> bool {
    match e {
        WalEntry::Upsert { version, id, vector, payload } => vector_ok(
            config.metric,
            config.dim,
            vector@,
        ),
        WalEntry::Delete { version, id } => true,
    }
}

/// Every entry of the log can be applied.
pub open spec fn log_ok(config: SegmentConfig, log: Seq<WalEntry>) -> bool {
    forall|i: int| 0 <= i < log.len() ==> entry_ok(config, #[trigger] log[i])
}

/// The count of tombstones among the first `n` marks depends on those
/// marks alone.
pub proof fn lemma_dead_prefix(a: Seq<bool>, b: Seq<bool>, n: int)
    requires
        0 <= n <= a.len(),
        n <= b.len(),
        forall|o: int| 0 <= o < n ==> a[o] == b[o],
    ensures
        dead_upto(a, n) == dead_upto(b, n),
    decreases n,
{
    if n > 0 {
        lemma_dead_prefix(a, b, n - 1);
    }
}

/// Where no tombstone is counted, no mark is set.
pub proof fn lemma_none_dead(tombstones: Seq<bool>, n: int)
    requires
        0 <= n <= tombstones.len(),
        dead_upto(tombstones, n) == 0,
    ensures
        forall|o: int| 0 <= o < n ==> !tombstones[o],
    decreases n,
{
    if n > 0 {
        lemma_none_dead(tombstones, n - 1);
    }
}

/// The id a log entry is about.
pub open spec fn entry_id(e: WalEntry) -> u64 {
    match e {
        WalEntry::Upsert { version, id, vector, payload } => id,
        WalEntry::Delete { version, id } => id,
    }
}

/// The segment that the routing table `route` gives the id `id` to.
pub open spec fn routed_to(route: Seq<usize>, id: u64) -> int {
    route[(id as int) % (route.len() as int)] as int
}

/// Every entry of the log is about an id that the routing table gives to
/// segment `s`.
pub open spec fn routed(log: Seq<WalEntry>, s: int, route: Seq<usize>) -> bool {
    forall|i: int| 0 <= i < log.len() ==> routed_to(route, entry_id(#[trigger] log[i])) == s
}

/// Replaying a log adds no ids but those its entries are about.
pub proof fn lemma_replay_keys(m: Points, log: Seq<WalEntry>, id: u64)
    requires
        replay_onto(m, log).contains_key(id),
    ensures
        m.contains_key(id) || exists|i: int| 0 <= i < log.len() && entry_id(#[trigger] log[i]) == id,
    decreases log.len(),
{
    if log.len() > 0 {
        let rest = log.drop_last();
        if replay_onto(m, rest).contains_key(id) {
            lemma_replay_keys(m, rest, id);
            if !m.contains_key(id) {
                let i = choose|i: int| 0 <= i < rest.len() && entry_id(#[trigger] rest[i]) == id;
                assert(entry_id(log[i]) == id);
            }
        } else {
            assert(entry_id(log[log.len() - 1]) == id);
        }
    }
}

/// Decides [`routed`].
pub fn is_routed(log: &Vec<WalEntry>, s: usize, route: &Vec<usize>) -> (r: bool)
    requires
        route@.len() > 0,
    ensures
        r == routed(log@, s as int, route@),
{
    let len: usize = route.len();
    let n: u64 = len as u64;
    let mut i: usize = 0;
    while i < log.len()
        invariant
            i <= log@.len(),
            len == route@.len(),
            n == len,
            n > 0,
            forall|j: int| 0 <= j < i ==> routed_to(route@, entry_id(#[trigger] log@[j])) == s,
        decreases log@.len() - i,
    {
        let id: u64 = match &log[i] {
            WalEntry::Upsert { id, .. } => *id,
            WalEntry::Delete { id, .. } => *id,
        };
        if route[(id % n) as usize] != s {
            assert(routed_to(route@, entry_id(log@[i as int])) != s);
            return false;
        }
        i = i + 1;
    }
    true
}

/// Number of tombstones among the first `n` marks.
pub open spec fn dead_upto(tombstones: Seq<bool>, n: int) -> nat
    decreases n,
{
    if n <= 0 {
        0
    } else {
        dead_upto(tombstones, n - 1) + if tombstones[n - 1] {
            1nat
        } else {
            0nat
        }
    }
}

/// A stored point as handed out to callers.
#[derive(Clone, Debug, PartialEq, Eq)]
pub struct Record {
    pub id: u64,
    pub version: u64,
    pub vector: Vec<i8>,
    pub payload: Payload,
}

impl Record {
    /// The record shows the live point `id` of `m`.
    pub open spec fn shows(&self, m: Points, id: u64) -> bool {
        &&& is_live(m, id)
        &&& self.id == id
        &&& self.version == m[id].version
        &&& self.vector@ == m[id].vector
        &&& self.payload@ == m[id].payload
    }
}

/// The shape of a segment.
#[derive(Clone, Copy, Debug, PartialEq, Eq, Structural)]
pub struct SegmentConfig {
    /// Length of every vector.
    pub dim: usize,
    pub metric: Distance,
    /// Most neighbours of a node on one layer of the graph.
    pub max_degree: usize,
    /// Nodes a search may expand while a point is being linked in.
    pub build_budget: usize,
    /// Up to this many stored points, or candidates that the payload index
    /// lists for a filter, searches scan instead of using the graph.
    pub exact_threshold: usize,
}

/// The physical storage unit: points, id map, graph and log.
pub struct Segment {
    pub config: SegmentConfig,
    pub store: PointStore,
    pub offsets: HashMap<u64, usize>,
    pub index: VectorIndex,
    pub postings: PayloadIndex,
    pub wal: Vec<WalEntry>,
    pub failed: bool,
}

impl View for Segment {
    type V = Points;

    open spec fn view(&self) -> Points {
        Map::new(
            |id: u64| self.offsets@.contains_key(id),
            |id: u64| self.state_at(self.offsets@[id] as int),
        )
    }
}

impl Segment {
    /// What is recorded at offset `o`.
    pub open spec fn state_at(&self, o: int) -> PointState {
        PointState {
            version: self.store.versions@[o],
            live: !self.index.tombstones@[o],
            vector: self.store.vectors@[o]@,
            payload: self.store.payloads@[o]@,
        }
    }

    /// Storage and graph are in order and cover the same offsets, the id
    /// map is the inverse of the id column, every stored vector is one the
    /// metric accepts, and the points are what replaying the log gives. The
    /// payload index lists every point under each integer its payload
    /// holds. The log holds only entries that can be applied again, each
    /// about an id the segment has a record for.
    pub open spec fn wf(&self) -> bool {
        &&& self.store.wf()
        &&& self.index.wf()
        &&& self.store.dim == self.config.dim
        &&& self.index.links@.len() == self.store.ids@.len()
        &&& forall|id: u64| #[trigger]
            self.offsets@.contains_key(id) ==> self.offsets@[id] < self.store.ids@.len()
                && self.store.ids@[self.offsets@[id] as int] == id
        &&& forall|o: int|
            0 <= o < self.store.ids@.len() ==> self.offsets@.contains_key(
                #[trigger] self.store.ids@[o],
            ) && self.offsets@[self.store.ids@[o]] == o
        &&& forall|o: int|
            0 <= o < self.store.ids@.len() ==> vector_ok(
                self.config.metric,
                self.config.dim,
                (#[trigger] self.store.vectors@[o])@,
            )
        &&& self.postings.wf()
        &&& forall|o: int, key: Seq<char>, v: i64|
            0 <= o < self.store.ids@.len() && #[trigger] carries(self.store.payloads@[o]@, key, v)
                ==> self.postings.listed(key, v, o as usize)
        &&& self@ == replayed(self.wal@)
        &&& log_ok(self.config, self.wal@)
        &&& forall|i: int|
            0 <= i < self.wal@.len() ==> self@.contains_key(entry_id(#[trigger] self.wal@[i]))
    }

    /// The point at offset `o` is the model's point of that id.
    pub proof fn lemma_at(&self, o: int)
        requires
            self.wf(),
            0 <= o < self.store.ids@.len(),
        ensures
            self@.contains_key(self.store.ids@[o]),
            self@[self.store.ids@[o]] == self.state_at(o),
    {
    }

    /// Every stored vector is one the segment's metric accepts.
    pub proof fn lemma_stored_vector(&self, id: u64)
        requires
            self.wf(),
            self@.contains_key(id),
        ensures
            vector_ok(self.config.metric, self.config.dim, self@[id].vector),
    {
        let o = self.offsets@[id] as int;
        assert(vector_ok(self.config.metric, self.config.dim, self.store.vectors@[o]@));
    }

    /// An empty segment of the given shape.
    pub fn new(config: SegmentConfig) -> (r: Segment)
        requires
            config.dim <= MAX_DIM,
        ensures
            r.wf(),
            r.config == config,
            r@ == Map::<u64, PointState>::empty(),
            !r.failed,
            r.wal@.len() == 0,
            r.store.ids@.len() == 0,
            r.dead() == 0,
    {
        let r = Segment {
            config,
            store: PointStore::new(config.dim),
            offsets: HashMap::new(),
            index: VectorIndex::new(config.max_degree),
            postings: PayloadIndex::new(),
            wal: Vec::new(),
            failed: false,
        };
        assert(r@ =~= Map::<u64, PointState>::empty());
        r
    }

    /// Number of stored records, tombstones included.
    pub fn size(&self) -> (r: usize)
        ensures
            r == self.store.ids@.len(),
    {
        self.store.size()
    }

    /// The offset of `id`, if the segment holds a record for it.
    pub fn offset_of(&self, id: u64) -> (r: Option<usize>)
        requires
            self.wf(),
        ensures
            match r {
                Some(o) => self.offsets@.contains_key(id) && self.offsets@[id] == o,
                None => !self.offsets@.contains_key(id),
            },
    {
        broadcast use group_hash_axioms;

        match self.offsets.get(&id) {
            Some(o) => Some(*o),
            None => None,
        }
    }

    /// Tells whether the segment holds a record for `id`, live or not.
    pub fn knows(&self, id: u64) -> (r: bool)
        requires
            self.wf(),
        ensures
            r == self@.contains_key(id),
    {
        self.offset_of(id).is_some()
    }

    /// Logs and applies an upsert of one point.
    ///
    /// A new id is stored at the next offset and linked into the graph; a
    /// known id with an older version is overwritten in place and revived
    /// if it was deleted. An upsert that is not newer than the record
    /// changes nothing, nor does any upsert once the segment has failed.
    pub fn upsert(&mut self, version: u64, id: u64, vector: Vec<i8>, payload: Payload) -> (status:
        UpdateStatus)
        requires
            old(self).wf(),
            vector_ok(old(self).config.metric, old(self).config.dim, vector@),
        ensures
            final(self).wf(),
            final(self).config == old(self).config,
            final(self).failed == old(self).failed,
            old(self).failed ==> status == UpdateStatus::Refused && final(self)@ == old(self)@,
            !old(self).failed ==> status == upsert_status(old(self)@, version, id) && final(self)@
                == apply_upsert(old(self)@, version, id, vector@, payload@),
            if !old(self).failed && !old(self)@.contains_key(id) {
                &&& final(self).store.ids@ == old(self).store.ids@.push(id)
                &&& final(self).index.tombstones@ == old(self).index.tombstones@.push(false)
            } else {
                final(self).store.ids@ == old(self).store.ids@
            },
            if status == UpdateStatus::Applied {
                &&& final(self).wal@.len() == old(self).wal@.len() + 1
                &&& final(self).wal@.drop_last() == old(self).wal@
                &&& records_upsert(final(self).wal@.last(), version, id, vector@, payload@)
            } else {
                final(self).wal@ == old(self).wal@
            },
    {
        if self.failed {
            return UpdateStatus::Refused;
        }
        let ghost before = self@;
        let ghost log = self.wal@;
        let ghost vector_model = vector@;
        let ghost payload_model = payload@;
        match self.offset_of(id) {
            Some(o) => {
                if version <= self.store.versions[o] {
                    return UpdateStatus::Stale;
                }
                let entry = WalEntry::Upsert {
                    version,
                    id,
                    vector: vector.clone(),
                    payload: payload.duplicate(),
                };
                assert(entry->Upsert_vector@ =~= vector_model);
                self.wal.push(entry);
                self.postings.index_payload(&payload, o);
                self.store.overwrite(o, version, vector, payload);
                self.index.restore(o);
            },
            None => {
                let o: usize = self.store.size();
                let entry = WalEntry::Upsert {
                    version,
                    id,
                    vector: vector.clone(),
                    payload: payload.duplicate(),
                };
                assert(entry->Upsert_vector@ =~= vector_model);
                self.wal.push(entry);
                self.postings.index_payload(&payload, o);
                self.store.append(id, version, vector, payload);
                broadcast use group_hash_axioms;

                self.offsets.insert(id, o);
                self.index.insert(&self.store, self.config.metric, self.config.build_budget);
            },
        }
        proof {
            assert(self@ =~= apply_upsert(before, version, id, vector_model, payload_model));
            assert(self.wal@.drop_last() =~= log);
        }
        UpdateStatus::Applied
    }

    /// Logs and applies a delete of one point: the record becomes a
    /// tombstone carrying the delete's version. The graph keeps the node.
    pub fn delete(&mut self, version: u64, id: u64) -> (status: UpdateStatus)
        requires
            old(self).wf(),
        ensures
            final(self).wf(),
            final(self).config == old(self).config,
            final(self).failed == old(self).failed,
            old(self).failed ==> status == UpdateStatus::Refused && final(self)@ == old(self)@,
            !old(self).failed ==> status == delete_status(old(self)@, version, id) && final(self)@
                == apply_delete(old(self)@, version, id),
            final(self).wal@ == if !old(self).failed && delete_applies(old(self)@, version, id) {
                old(self).wal@.push(WalEntry::Delete { version, id })
            } else {
                old(self).wal@
            },
            final(self).store.ids@ == old(self).store.ids@,
    {
        if self.failed {
            return UpdateStatus::Refused;
        }
        let ghost before = self@;
        let ghost log = self.wal@;
        match self.offset_of(id) {
            None => UpdateStatus::Missing,
            Some(o) => {
                if version <= self.store.versions[o] {
                    return UpdateStatus::Stale;
                }
                let was_live = !self.index.is_deleted(o);
                self.wal.push(WalEntry::Delete { version, id });
                self.store.stamp(o, version);
                self.index.delete(o);
                proof {
                    assert(self@ =~= apply_delete(before, version, id));
                    assert(self.wal@.drop_last() =~= log);
                }
                if was_live {
                    UpdateStatus::Applied
                } else {
                    UpdateStatus::Missing
                }
            },
        }
    }

    /// Looks up the live point `id`.
    pub fn get(&self, id: u64) -> (r: Option<Record>)
        requires
            self.wf(),
        ensures
            match r {
                Some(record) => record.shows(self@, id),
                None => !is_live(self@, id),
            },
    {
        match self.offset_of(id) {
            None => None,
            Some(o) => {
                if self.index.is_deleted(o) {
                    None
                } else {
                    let vector = self.store.vectors[o].clone();
                    assert(vector@ =~= self.store.vectors@[o as int]@);
                    Some(
                        Record {
                            id,
                            version: self.store.versions[o],
                            vector,
                            payload: self.store.payloads[o].duplicate(),
                        },
                    )
                }
            },
        }
    }

    /// What may be reported of offsets is what may be reported of ids.
    pub proof fn lemma_eligible(
        &self,
        metric: Distance,
        query: Seq<i8>,
        filter: &Filter,
        excluded: Seq<u64>,
        o: int,
    )
        requires
            self.wf(),
            0 <= o < self.store.ids@.len(),
        ensures
            eligible(&self.store, self.index.tombstones@, Some(filter), excluded, o) == admits(
                self@,
                *filter,
                excluded,
                self.store.ids@[o],
            ),
            self.store.scored_at(metric, query, o) == scored(self@, metric, query, self.store.ids@[o]),
    {
        self.lemma_at(o);
    }

    /// The `k` best points among those the query may report, found by
    /// scoring every stored point.
    pub fn scan(&self, query: &Vec<i8>, filter: &Filter, excluded: &Vec<u64>, k: usize) -> (r: Vec<
        ScoredPoint,
    >)
        requires
            self.wf(),
            query@.len() == self.config.dim,
        ensures
            r@.len() <= k,
            all_wf(r@),
            sound(r@, self@, self.config.metric, query@, *filter, excluded@),
            complete(r@, k as int, self@, self.config.metric, query@, *filter, excluded@),
    {
        let metric = self.config.metric;
        let n: usize = self.store.size();
        let mut best: Vec<ScoredPoint> = Vec::new();
        let ghost mut hits: Seq<int> = Seq::empty();
        let mut o: usize = 0;
        while o < n
            invariant
                self.wf(),
                query@.len() == self.config.dim,
                metric == self.config.metric,
                n == self.store.ids@.len(),
                o <= n,
                best@.len() <= k,
                ranked(best@),
                all_wf(best@),
                hits.len() == best@.len(),
                forall|i: int|
                    0 <= i < best@.len() ==> {
                        &&& 0 <= (#[trigger] hits[i]) < o
                        &&& eligible(
                            &self.store,
                            self.index.tombstones@,
                            Some(filter),
                            excluded@,
                            hits[i],
                        )
                        &&& best@[i] == self.store.scored_at(metric, query@, hits[i])
                    },
                forall|p: int|
                    0 <= p < o && eligible(
                        &self.store,
                        self.index.tombstones@,
                        Some(filter),
                        excluded@,
                        p,
                    ) ==> covers(best@, k as int, #[trigger] self.store.scored_at(metric, query@, p)),
            decreases n - o,
        {
            if self.index.is_eligible(&self.store, Some(filter), excluded, o) {
                let point = self.store.score_at(metric, query, o);
                let ghost best0 = best@;
                let ghost hits0 = hits;
                assert forall|i: int| 0 <= i < best0.len() implies (#[trigger] best0[i]).id
                    != point.id by {
                    assert(hits0[i] != o);
                }
                offer(&mut best, k, point);
                proof {
                    hits = Seq::new(
                        best@.len(),
                        |i: int|
                            if best@[i] == point {
                                o as int
                            } else {
                                hits0[choose|w: int| 0 <= w < best0.len() && best0[w] == best@[i]]
                            },
                    );
                    assert forall|p: int|
                        0 <= p < o && eligible(
                            &self.store,
                            self.index.tombstones@,
                            Some(filter),
                            excluded@,
                            p,
                        ) implies covers(
                        best@,
                        k as int,
                        #[trigger] self.store.scored_at(metric, query@, p),
                    ) by {
                        assert(self.store.vectors@[p]@.len() == self.store.dim);
                        crate::metric::lemma_score_wf(metric, self.store.vectors@[p]@, query@);
                        crate::ranking::lemma_covers_persists(
                            best0,
                            best@,
                            k as int,
                            self.store.scored_at(metric, query@, p),
                        );
                    }
                }
            }
            o = o + 1;
        }
        proof {
            assert forall|i: int| 0 <= i < best@.len() implies admits(
                self@,
                *filter,
                excluded@,
                (#[trigger] best@[i]).id,
            ) && best@[i] == scored(self@, metric, query@, best@[i].id) by {
                self.lemma_eligible(metric, query@, filter, excluded@, hits[i]);
            }
            assert forall|id: u64| #[trigger]
                admits(self@, *filter, excluded@, id) implies covers(
                best@,
                k as int,
                scored(self@, metric, query@, id),
            ) by {
                let p = self.offsets@[id] as int;
                self.lemma_eligible(metric, query@, filter, excluded@, p);
            }
        }
        best
    }

    /// The value that the first indexable `must` condition of `filter` asks
    /// for has no more candidates in the payload index than the segment's
    /// threshold.
    pub open spec fn selective(&self, filter: Filter) -> bool {
        anchor_from(filter.must@, 0) matches Some(i) && self.postings.posting(
            filter.must@[i]->Match_key@,
            filter.must@[i]->Match_value->Integer_0,
        ).len() <= self.config.exact_threshold
    }

    /// A search scores every point the query may report: `exact` is asked
    /// for, or the segment is no larger than its threshold, or the filter
    /// is selective.
    pub open spec fn scans(&self, filter: Filter, exact: bool) -> bool {
        exact || self.store.ids@.len() <= self.config.exact_threshold || self.selective(filter)
    }

    /// The ids of the points that a search scores: all that the segment
    /// has a record for where the search scans, and otherwise those of the
    /// nodes that the graph search scores within `budget`.
    pub open spec fn examined(&self, query: Seq<i8>, filter: Filter, exact: bool, budget: usize) -> Set<
        u64,
    > {
        if self.scans(filter, exact) {
            self@.dom()
        } else {
            Set::new(
                |id: u64|
                    self@.contains_key(id) && self.index.scored_by(
                        &self.store,
                        self.config.metric,
                        query,
                        budget,
                    )[self.offsets@[id] as int],
            )
        }
    }

    /// Decides [`Segment::scans`].
    pub fn will_scan(&self, filter: &Filter, exact: bool) -> (r: bool)
        requires
            self.wf(),
        ensures
            r == self.scans(*filter, exact),
    {
        if exact || self.store.size() <= self.config.exact_threshold {
            return true;
        }
        match filter.anchor() {
            None => false,
            Some(i) => {
                match &filter.must[i] {
                    Condition::Match { key, value } => {
                        match value {
                            Value::Integer(v) => {
                                match self.postings.postings(key, *v) {
                                    Some(list) => list.len() <= self.config.exact_threshold,
                                    None => true,
                                }
                            },
                            _ => false,
                        }
                    },
                    _ => false,
                }
            },
        }
    }

    /// The `k` best points among those the query may report, found by
    /// scoring the candidates in `list`, which must hold the offset of
    /// every such point.
    pub fn scan_listed(
        &self,
        query: &Vec<i8>,
        filter: &Filter,
        excluded: &Vec<u64>,
        k: usize,
        list: &Vec<usize>,
    ) -> (r: Vec<ScoredPoint>)
        requires
            self.wf(),
            query@.len() == self.config.dim,
            forall|o: int|
                0 <= o < self.store.ids@.len() && #[trigger] eligible(
                    &self.store,
                    self.index.tombstones@,
                    Some(filter),
                    excluded@,
                    o,
                ) ==> list@.contains(o as usize),
        ensures
            r@.len() <= k,
            all_wf(r@),
            sound(r@, self@, self.config.metric, query@, *filter, excluded@),
            complete(r@, k as int, self@, self.config.metric, query@, *filter, excluded@),
    {
        let metric = self.config.metric;
        let n: usize = self.store.size();
        let mut seen: Vec<bool> = unmarked(n);
        let mut best: Vec<ScoredPoint> = Vec::new();
        let ghost mut hits: Seq<int> = Seq::empty();
        let mut i: usize = 0;
        while i < list.len()
            invariant
                self.wf(),
                query@.len() == self.config.dim,
                metric == self.config.metric,
                n == self.store.ids@.len(),
                i <= list@.len(),
                seen@.len() == n,
                best@.len() <= k,
                ranked(best@),
                all_wf(best@),
                hits.len() == best@.len(),
                forall|a: int| 0 <= a < i && (#[trigger] list@[a]) < n ==> seen@[list@[a] as int],
                forall|j: int|
                    0 <= j < best@.len() ==> {
                        &&& 0 <= (#[trigger] hits[j]) < n
                        &&& seen@[hits[j]]
                        &&& eligible(
                            &self.store,
                            self.index.tombstones@,
                            Some(filter),
                            excluded@,
                            hits[j],
                        )
                        &&& best@[j] == self.store.scored_at(metric, query@, hits[j])
                    },
                tops_visited(
                    &self.store,
                    self.index.tombstones@,
                    metric,
                    query@,
                    Some(filter),
                    excluded@,
                    seen@,
                    best@,
                    k as int,
                ),
            decreases list@.len() - i,
        {
            let o: usize = list[i];
            if o < n && !seen[o] {
                let ghost seen0 = seen@;
                let ghost best0 = best@;
                let ghost hits0 = hits;
                if self.index.is_eligible(&self.store, Some(filter), excluded, o) {
                    let point = self.store.score_at(metric, query, o);
                    assert forall|j: int| 0 <= j < best0.len() implies (#[trigger] best0[j]).id
                        != point.id by {
                        assert(hits0[j] != o);
                    }
                    offer(&mut best, k, point);
                    proof {
                        hits = Seq::new(
                            best@.len(),
                            |j: int|
                                if best@[j] == point {
                                    o as int
                                } else {
                                    hits0[choose|w: int| 0 <= w < best0.len() && best0[w] == best@[j]]
                                },
                        );
                        assert forall|p: int|
                            0 <= p < n && #[trigger] seen0[p] && eligible(
                                &self.store,
                                self.index.tombstones@,
                                Some(filter),
                                excluded@,
                                p,
                            ) implies covers(best@, k as int, self.store.scored_at(metric, query@, p)) by {
                            assert(self.store.vectors@[p]@.len() == self.store.dim);
                            crate::metric::lemma_score_wf(metric, self.store.vectors@[p]@, query@);
                            crate::ranking::lemma_covers_persists(
                                best0,
                                best@,
                                k as int,
                                self.store.scored_at(metric, query@, p),
                            );
                        }
                    }
                }
                seen[o] = true;
                proof {
                    assert forall|p: int|
                        0 <= p < n && #[trigger] seen@[p] && eligible(
                            &self.store,
                            self.index.tombstones@,
                            Some(filter),
                            excluded@,
                            p,
                        ) implies covers(best@, k as int, self.store.scored_at(metric, query@, p)) by {
                        if p != o {
                            assert(seen0[p]);
                        }
                    }
                }
            }
            i = i + 1;
        }
        proof {
            assert forall|j: int| 0 <= j < best@.len() implies admits(
                self@,
                *filter,
                excluded@,
                (#[trigger] best@[j]).id,
            ) && best@[j] == scored(self@, metric, query@, best@[j].id) by {
                self.lemma_eligible(metric, query@, filter, excluded@, hits[j]);
            }
            assert forall|id: u64| #[trigger]
                admits(self@, *filter, excluded@, id) implies covers(
                best@,
                k as int,
                scored(self@, metric, query@, id),
            ) by {
                let p = self.offsets@[id] as int;
                self.lemma_eligible(metric, query@, filter, excluded@, p);
                assert(eligible(&self.store, self.index.tombstones@, Some(filter), excluded@, p));
                let a = choose|a: int| 0 <= a < list@.len() && list@[a] == p as usize;
                assert(seen@[list@[a] as int]);
            }
        }
        best
    }

    /// Every point that satisfies `filter` is listed by the payload index
    /// under the integer that the `must` condition at `i` asks for.
    pub proof fn lemma_anchored(&self, filter: &Filter, excluded: Seq<u64>, i: int, o: int)
        requires
            self.wf(),
            0 <= i < filter.must@.len(),
            anchorable(filter.must@[i]),
            0 <= o < self.store.ids@.len(),
            eligible(&self.store, self.index.tombstones@, Some(filter), excluded, o),
        ensures
            self.postings.posting(
                filter.must@[i]->Match_key@,
                filter.must@[i]->Match_value->Integer_0,
            ).contains(o as usize),
    {
        let payload = self.store.payloads@[o]@;
        assert(crate::filter::condition_holds(filter.must@[i], payload));
        assert(carries(
            payload,
            filter.must@[i]->Match_key@,
            filter.must@[i]->Match_value->Integer_0,
        ));
    }

    /// The local top-k of a query. The points the query may report are all
    /// scored where `exact` is asked for, where the segment is no larger
    /// than its threshold, and where the filter is selective: where its
    /// first `must` condition that asks for an integer has no more
    /// candidates in the payload index than the threshold. Otherwise the
    /// graph is searched within `budget`.
    ///
    /// Either way the result is exactly the `k` best of the points that the
    /// query may report among those the search has scored, and a segment
    /// with records has some scored.
    pub fn search(
        &self,
        query: &Vec<i8>,
        filter: &Filter,
        excluded: &Vec<u64>,
        k: usize,
        exact: bool,
        budget: usize,
    ) -> (r: Vec<ScoredPoint>)
        requires
            self.wf(),
            query@.len() == self.config.dim,
        ensures
            r@.len() <= k,
            all_wf(r@),
            sound(r@, self@, self.config.metric, query@, *filter, excluded@),
            self.scans(*filter, exact) ==> complete(
                r@,
                k as int,
                self@,
                self.config.metric,
                query@,
                *filter,
                excluded@,
            ),
            tops(
                r@,
                k as int,
                self@,
                self.config.metric,
                query@,
                *filter,
                excluded@,
                self.examined(query@, *filter, exact, budget),
            ),
            self.store.ids@.len() > 0 ==> exists|id: u64|
                self.examined(query@, *filter, exact, budget).contains(id),
    {
        proof {
            if self.store.ids@.len() > 0 {
                self.lemma_at(0);
            }
        }
        if exact || self.store.size() <= self.config.exact_threshold {
            return self.scan(query, filter, excluded, k);
        }
        match filter.anchor() {
            None => {},
            Some(i) => {
                match &filter.must[i] {
                    Condition::Match { key, value } => {
                        match value {
                            Value::Integer(v) => {
                                let empty: Vec<usize> = Vec::new();
                                let list: &Vec<usize> = match self.postings.postings(key, *v) {
                                    Some(list) => list,
                                    None => &empty,
                                };
                                if list.len() <= self.config.exact_threshold {
                                    proof {
                                        assert forall|o: int|
                                            0 <= o < self.store.ids@.len() && #[trigger] eligible(
                                                &self.store,
                                                self.index.tombstones@,
                                                Some(filter),
                                                excluded@,
                                                o,
                                            ) implies list@.contains(o as usize) by {
                                            self.lemma_anchored(filter, excluded@, i as int, o);
                                        }
                                    }
                                    return self.scan_listed(query, filter, excluded, k, list);
                                }
                            },
                            _ => {},
                        }
                    },
                    _ => {},
                }
            },
        }
        let found = self.index.search(
            &self.store,
            self.config.metric,
            query,
            budget,
            k,
            filter,
            excluded,
        );
        let ghost hits = found.offsets@;
        let ghost seen = found.visited@;
        let best = found.points;
        proof {
            let reach = self.examined(query@, *filter, exact, budget);
            assert(!self.scans(*filter, exact));
            assert forall|i: int| 0 <= i < best@.len() implies reach.contains(
                (#[trigger] best@[i]).id,
            ) by {
                assert(hits[i] < self.store.ids@.len());
                self.lemma_at(hits[i] as int);
            }
            assert forall|id: u64|
                reach.contains(id) && #[trigger] admits(
                    self@,
                    *filter,
                    excluded@,
                    id,
                ) implies covers(best@, k as int, scored(self@, self.config.metric, query@, id)) by {
                let p = self.offsets@[id] as int;
                self.lemma_eligible(self.config.metric, query@, filter, excluded@, p);
                assert(seen[p]);
            }
            let w = choose|w: int| 0 <= w < seen.len() && seen[w];
            self.lemma_at(w);
            assert(reach.contains(self.store.ids@[w]));
        }
        proof {
            assert forall|i: int| 0 <= i < best@.len() implies admits(
                self@,
                *filter,
                excluded@,
                (#[trigger] best@[i]).id,
            ) && best@[i] == scored(self@, self.config.metric, query@, best@[i].id) by {
                assert(hits[i] < self.store.ids@.len());
                self.lemma_eligible(self.config.metric, query@, filter, excluded@, hits[i] as int);
            }
        }
        best
    }

    /// Tells whether the point at offset `o` belongs on a page that starts
    /// after `cursor`.
    pub fn on_page(&self, filter: &Filter, cursor: Option<u64>, o: usize) -> (r: bool)
        requires
            self.wf(),
            o < self.store.ids@.len(),
        ensures
            r == in_page(self@, *filter, cursor, self.store.ids@[o as int]),
    {
        proof {
            self.lemma_at(o as int);
        }
        let after = match cursor {
            Some(c) => c < self.store.ids[o],
            None => true,
        };
        after && !self.index.is_deleted(o) && filter.matches(&self.store.payloads[o])
    }

    /// Offers every point of this segment that belongs on the page after
    /// `cursor` to `page`, a ranking by id of at most `limit` entries that
    /// so far holds ids of other segments only.
    pub fn fill_page(
        &self,
        filter: &Filter,
        cursor: Option<u64>,
        limit: usize,
        page: &mut Vec<ScoredPoint>,
    )
        requires
            self.wf(),
            ranked(old(page)@),
            all_slots(old(page)@),
            old(page)@.len() <= limit,
            forall|i: int| 0 <= i < old(page)@.len() ==> !self@.contains_key((#[trigger] old(page)@[i]).id),
        ensures
            extends(old(page)@, final(page)@, limit as int),
            all_slots(final(page)@),
            forall|i: int|
                0 <= i < final(page)@.len() ==> old(page)@.contains(#[trigger] final(page)@[i])
                    || in_page(self@, *filter, cursor, final(page)@[i].id),
            forall|id: u64| #[trigger]
                in_page(self@, *filter, cursor, id) ==> covers(final(page)@, limit as int, slot(id)),
    {
        let ghost page0 = page@;
        let n: usize = self.store.size();
        let mut o: usize = 0;
        assert(all_wf(page0)) by {
            assert forall|i: int| 0 <= i < page0.len() implies (#[trigger] page0[i]).score.wf() by {
                assert(page0[i] == slot(page0[i].id));
            }
        }
        assert forall|i: int| 0 <= i < page0.len() implies covers(
            page0,
            limit as int,
            #[trigger] page0[i],
        ) by {
            assert(page0.contains(page0[i]));
        }
        while o < n
            invariant
                self.wf(),
                n == self.store.ids@.len(),
                o <= n,
                all_wf(page0),
                all_wf(page@),
                extends(page0, page@, limit as int),
                all_slots(page@),
                forall|i: int| 0 <= i < page0.len() ==> !self@.contains_key((#[trigger] page0[i]).id),
                forall|i: int|
                    0 <= i < page@.len() ==> page0.contains(#[trigger] page@[i]) || (in_page(
                        self@,
                        *filter,
                        cursor,
                        page@[i].id,
                    ) && self.offsets@[page@[i].id] < o),
                forall|p: int|
                    0 <= p < o && in_page(self@, *filter, cursor, self.store.ids@[p]) ==> covers(
                        page@,
                        limit as int,
                        slot(#[trigger] self.store.ids@[p]),
                    ),
            decreases n - o,
        {
            if self.on_page(filter, cursor, o) {
                let id: u64 = self.store.ids[o];
                let entry = ScoredPoint { id, score: Score { num: 0, den: 1 } };
                let ghost mid = page@;
                proof {
                    self.lemma_at(o as int);
                    assert forall|i: int| 0 <= i < mid.len() implies (#[trigger] mid[i]).id != id by {
                        if page0.contains(mid[i]) {
                            let w = choose|w: int| 0 <= w < page0.len() && page0[w] == mid[i];
                            assert(!self@.contains_key(page0[w].id));
                        }
                    }
                }
                offer(page, limit, entry);
                proof {
                    crate::ranking::lemma_extends_transitive(page0, mid, page@, limit as int);
                    assert forall|p: int|
                        0 <= p < o && in_page(self@, *filter, cursor, self.store.ids@[p]) implies covers(
                        page@,
                        limit as int,
                        slot(#[trigger] self.store.ids@[p]),
                    ) by {
                        crate::ranking::lemma_covers_persists(
                            mid,
                            page@,
                            limit as int,
                            slot(self.store.ids@[p]),
                        );
                    }
                    assert forall|i: int| 0 <= i < page@.len() implies (#[trigger] page@[i]) == slot(
                        page@[i].id,
                    ) by {
                        if page@[i] != entry {
                            let w = choose|w: int| 0 <= w < mid.len() && mid[w] == page@[i];
                            assert(mid[w] == slot(mid[w].id));
                        }
                    }
                    assert forall|i: int| 0 <= i < page@.len() implies page0.contains(
                        #[trigger] page@[i],
                    ) || (in_page(self@, *filter, cursor, page@[i].id) && self.offsets@[page@[i].id]
                        < o + 1) by {
                        if page@[i] != entry {
                            let w = choose|w: int| 0 <= w < mid.len() && mid[w] == page@[i];
                            assert(page0.contains(mid[w]) || self.offsets@[mid[w].id] < o);
                        }
                    }
                }
            }
            o = o + 1;
        }
        proof {
            assert forall|id: u64| #[trigger] in_page(self@, *filter, cursor, id) implies covers(
                page@,
                limit as int,
                slot(id),
            ) by {
                let p = self.offsets@[id] as int;
                assert(self.store.ids@[p] == id);
            }
        }
    }

    /// Tells whether some point of this segment belongs on the page after
    /// `cursor`.
    pub fn has_beyond(&self, filter: &Filter, cursor: u64) -> (r: bool)
        requires
            self.wf(),
        ensures
            r == exists|id: u64| in_page(self@, *filter, Some(cursor), id),
    {
        let n: usize = self.store.size();
        let mut o: usize = 0;
        while o < n
            invariant
                self.wf(),
                n == self.store.ids@.len(),
                o <= n,
                forall|p: int|
                    0 <= p < o ==> !in_page(
                        self@,
                        *filter,
                        Some(cursor),
                        #[trigger] self.store.ids@[p],
                    ),
            decreases n - o,
        {
            if self.on_page(filter, Some(cursor), o) {
                return true;
            }
            o = o + 1;
        }
        proof {
            assert forall|id: u64| !in_page(self@, *filter, Some(cursor), id) by {
                if self@.contains_key(id) {
                    let p = self.offsets@[id] as int;
                    assert(self.store.ids@[p] == id);
                }
            }
        }
        false
    }

    /// Logs and applies the delete, at `version`, of every live point that
    /// satisfies `filter` and has an older version.
    pub fn sweep(&mut self, version: u64, filter: &Filter)
        requires
            old(self).wf(),
        ensures
            final(self).wf(),
            final(self).config == old(self).config,
            final(self).failed == old(self).failed,
            old(self).failed ==> final(self)@ == old(self)@,
            !old(self).failed ==> final(self)@ == apply_sweep(
                old(self)@,
                Set::<u64>::empty(),
                version,
                *filter,
            ),
            final(self).wal@ == if old(self).failed {
                old(self).wal@
            } else {
                old(self).wal@ + sweep_log(
                    old(self).store.ids@,
                    old(self)@,
                    version,
                    *filter,
                    old(self).store.ids@.len() as int,
                )
            },
            final(self).store.ids@ == old(self).store.ids@,
    {
        if self.failed {
            return ;
        }
        let ghost before = self@;
        let ghost log0 = self.wal@;
        let ghost ids = self.store.ids@;
        assert(self.wal@ =~= log0 + sweep_log(ids, before, version, *filter, 0));
        let ghost nobody = Set::<u64>::empty();
        let n: usize = self.store.size();
        let mut o: usize = 0;
        while o < n
            invariant
                self.wf(),
                self.config == old(self).config,
                self.failed == old(self).failed,
                n == self.store.ids@.len(),
                o <= n,
                self.offsets@ == old(self).offsets@,
                self.store.ids@ == old(self).store.ids@,
                before == old(self)@,
                ids == old(self).store.ids@,
                log0 == old(self).wal@,
                self.wal@ == log0 + sweep_log(ids, before, version, *filter, o as int),
                nobody == Set::<u64>::empty(),
                forall|id: u64| #[trigger]
                    before.contains_key(id) ==> self@[id] == if self.offsets@[id] < o {
                        apply_sweep(before, nobody, version, *filter)[id]
                    } else {
                        before[id]
                    },
            decreases n - o,
        {
            let id: u64 = self.store.ids[o];
            proof {
                self.lemma_at(o as int);
            }
            if !self.index.is_deleted(o) && self.store.versions[o] < version && filter.matches(
                &self.store.payloads[o],
            ) {
                let ghost mid = self@;
                let ghost log = self.wal@;
                self.wal.push(WalEntry::Delete { version, id });
                self.store.stamp(o, version);
                self.index.delete(o);
                proof {
                    assert(self@ =~= apply_delete(mid, version, id));
                    assert(self.wal@.drop_last() =~= log);
                    assert(swept(before, nobody, version, *filter, ids[o as int]));
                    assert(self.wal@ =~= log0 + sweep_log(ids, before, version, *filter, o + 1));
                }
            } else {
                assert(!swept(before, nobody, version, *filter, ids[o as int]));
            }
            o = o + 1;
        }
        proof {
            assert(self@ =~= apply_sweep(before, nobody, version, *filter));
        }
    }

    /// Number of tombstones among the stored records.
    pub open spec fn dead(&self) -> nat {
        dead_upto(self.index.tombstones@, self.index.tombstones@.len() as int)
    }

    /// The segment is worth compacting: it accepts writes, holds a
    /// tombstone, and is small, with no more than `small` records, or heavy
    /// with tombstones, at least `percent` in a hundred of its records.
    pub open spec fn due(&self, percent: usize, small: usize) -> bool {
        &&& !self.failed
        &&& self.dead() > 0
        &&& self.store.ids@.len() <= small || self.dead() * 100 >= percent * self.store.ids@.len()
    }

    /// Counts the tombstones.
    pub fn count_dead(&self) -> (r: usize)
        requires
            self.wf(),
        ensures
            r == self.dead(),
    {
        let n: usize = self.index.size();
        let mut count: usize = 0;
        let mut o: usize = 0;
        while o < n
            invariant
                self.wf(),
                n == self.index.tombstones@.len(),
                o <= n,
                count <= o,
                count == dead_upto(self.index.tombstones@, o as int),
            decreases n - o,
        {
            if self.index.is_deleted(o) {
                count = count + 1;
            }
            o = o + 1;
        }
        count
    }

    /// Decides [`Segment::due`].
    pub fn is_due(&self, percent: usize, small: usize) -> (r: bool)
        requires
            self.wf(),
        ensures
            r == self.due(percent, small),
    {
        if self.failed {
            return false;
        }
        let dead: usize = self.count_dead();
        let size: usize = self.store.size();
        assert(dead as int * 100 <= 0xffff_ffff_ffff_ffff * 100);
        assert(percent as int * size as int <= 0xffff_ffff_ffff_ffff * 0xffff_ffff_ffff_ffff)
            by (nonlinear_arith)
            requires
                0 <= percent <= 0xffff_ffff_ffff_ffff,
                0 <= size <= 0xffff_ffff_ffff_ffff,
        ;
        dead > 0 && (size <= small || (dead as u128) * 100 >= (percent as u128) * (size as u128))
    }

    /// A fresh segment of the same shape that holds the live points of
    /// this one, with their versions, and no tombstones. Its graph is built
    /// anew.
    pub fn compacted(&self) -> (r: Segment)
        requires
            self.wf(),
        ensures
            r.wf(),
            r.config == self.config,
            !r.failed,
            r@ == purged(self@),
            r.dead() == 0,
            r.store.ids@.len() + self.dead() == self.store.ids@.len(),
    {
        assert(self.config.dim <= MAX_DIM);
        let mut fresh = Segment::new(self.config);
        let n: usize = self.store.size();
        let mut o: usize = 0;
        while o < n
            invariant
                self.wf(),
                n == self.store.ids@.len(),
                o <= n,
                fresh.wf(),
                fresh.config == self.config,
                !fresh.failed,
                fresh@ == Map::new(
                    |id: u64| is_live(self@, id) && self.offsets@[id] < o,
                    |id: u64| self@[id],
                ),
                fresh.dead() == 0,
                fresh.store.ids@.len() + dead_upto(self.index.tombstones@, o as int) == o,
            decreases n - o,
        {
            proof {
                self.lemma_at(o as int);
            }
            if !self.index.is_deleted(o) {
                let ghost before = fresh@;
                let ghost marks = fresh.index.tombstones@;
                let id: u64 = self.store.ids[o];
                let vector = self.store.vectors[o].clone();
                assert(vector@ =~= self.store.vectors@[o as int]@);
                let payload = self.store.payloads[o].duplicate();
                fresh.upsert(self.store.versions[o], id, vector, payload);
                assert(fresh@ =~= Map::new(
                    |id: u64| is_live(self@, id) && self.offsets@[id] < o + 1,
                    |id: u64| self@[id],
                ));
                proof {
                    lemma_dead_prefix(marks, fresh.index.tombstones@, marks.len() as int);
                }
            } else {
                assert(fresh@ =~= Map::new(
                    |id: u64| is_live(self@, id) && self.offsets@[id] < o + 1,
                    |id: u64| self@[id],
                ));
            }
            o = o + 1;
        }
        assert(fresh@ =~= purged(self@));
        fresh
    }

    /// A segment without tombstones holds live points only.
    pub proof fn lemma_all_live(&self)
        requires
            self.wf(),
            self.dead() == 0,
        ensures
            purged(self@) == self@,
    {
        lemma_none_dead(self.index.tombstones@, self.index.tombstones@.len() as int);
        assert(purged(self@) =~= self@);
    }

    /// Takes over the live points of `other`, a segment of the same shape
    /// that shares no id with this one, with their versions.
    pub fn absorb(&mut self, other: &Segment)
        requires
            old(self).wf(),
            other.wf(),
            other.config == old(self).config,
            !old(self).failed,
            forall|id: u64| old(self)@.contains_key(id) ==> !other@.contains_key(id),
        ensures
            final(self).wf(),
            final(self).config == old(self).config,
            !final(self).failed,
            final(self)@ == old(self)@.union_prefer_right(purged(other@)),
    {
        let ghost before = self@;
        let n: usize = other.store.size();
        let mut o: usize = 0;
        assert(self@ =~= before.union_prefer_right(
            Map::new(
                |id: u64| is_live(other@, id) && other.offsets@[id] < 0,
                |id: u64| other@[id],
            ),
        ));
        while o < n
            invariant
                other.wf(),
                n == other.store.ids@.len(),
                o <= n,
                self.wf(),
                self.config == other.config,
                self.config == old(self).config,
                !self.failed,
                before == old(self)@,
                forall|id: u64| before.contains_key(id) ==> !other@.contains_key(id),
                self@ == before.union_prefer_right(
                    Map::new(
                        |id: u64| is_live(other@, id) && other.offsets@[id] < o,
                        |id: u64| other@[id],
                    ),
                ),
            decreases n - o,
        {
            proof {
                other.lemma_at(o as int);
            }
            if !other.index.is_deleted(o) {
                let id: u64 = other.store.ids[o];
                let vector = other.store.vectors[o].clone();
                assert(vector@ =~= other.store.vectors@[o as int]@);
                let payload = other.store.payloads[o].duplicate();
                self.upsert(other.store.versions[o], id, vector, payload);
            }
            assert(self@ =~= before.union_prefer_right(
                Map::new(
                    |id: u64| is_live(other@, id) && other.offsets@[id] < o + 1,
                    |id: u64| other@[id],
                ),
            ));
            o = o + 1;
        }
        assert(self@ =~= before.union_prefer_right(purged(other@)));
    }

    /// Applies a log to the segment, as after a restart: the entries take
    /// effect in order, each as the mutation it records.
    ///
    /// Nothing is applied where the segment has failed or where an entry
    /// carries a vector the segment does not accept.
    pub fn replay(&mut self, log: &Vec<WalEntry>) -> (r: Result<(), EngineError>)
        requires
            old(self).wf(),
        ensures
            final(self).wf(),
            final(self).config == old(self).config,
            final(self).failed == old(self).failed,
            match r {
                Ok(_) => !old(self).failed && log_ok(old(self).config, log@) && final(self)@
                    == replay_onto(old(self)@, log@),
                Err(e) => final(self)@ == old(self)@ && if old(self).failed {
                    e == EngineError::SegmentFailed
                } else {
                    e == EngineError::Corrupted && !log_ok(old(self).config, log@)
                },
            },
    {
        if self.failed {
            return Err(EngineError::SegmentFailed);
        }
        let mut i: usize = 0;
        while i < log.len()
            invariant
                i <= log@.len(),
                *self == *old(self),
                self.wf(),
                !self.failed,
                forall|j: int| 0 <= j < i ==> entry_ok(self.config, #[trigger] log@[j]),
            decreases log@.len() - i,
        {
            match &log[i] {
                WalEntry::Upsert { version, id, vector, payload } => {
                    if !check_vector(self.config.metric, self.config.dim, vector) {
                        assert(!entry_ok(self.config, log@[i as int]));
                        return Err(EngineError::Corrupted);
                    }
                },
                WalEntry::Delete { .. } => {},
            }
            i = i + 1;
        }
        let mut i: usize = 0;
        while i < log.len()
            invariant
                i <= log@.len(),
                self.wf(),
                self.config == old(self).config,
                !self.failed,
                !old(self).failed,
                log_ok(self.config, log@),
                self@ == replay_onto(old(self)@, log@.subrange(0, i as int)),
            decreases log@.len() - i,
        {
            assert(entry_ok(self.config, log@[i as int]));
            assert(log@.subrange(0, i + 1).drop_last() =~= log@.subrange(0, i as int));
            match &log[i] {
                WalEntry::Upsert { version, id, vector, payload } => {
                    let copy = vector.clone();
                    assert(copy@ =~= vector@);
                    self.upsert(*version, *id, copy, payload.duplicate());
                },
                WalEntry::Delete { version, id } => {
                    self.delete(*version, *id);
                },
            }
            i = i + 1;
        }
        assert(log@.subrange(0, log@.len() as int) =~= log@);
        Ok(())
    }

    /// Records that the log could not be written: from now on the segment
    /// accepts no mutation.
    pub fn mark_failed(&mut self)
        requires
            old(self).wf(),
        ensures
            final(self).wf(),
            final(self).failed,
            final(self).config == old(self).config,
            final(self)@ == old(self)@,
    {
        self.failed = true;
        assert(self@ =~= old(self)@);
    }

    /// Lets the segment accept mutations again, once its log is repaired.
    pub fn recover(&mut self)
        requires
            old(self).wf(),
        ensures
            final(self).wf(),
            !final(self).failed,
            final(self).config == old(self).config,
            final(self)@ == old(self)@,
    {
        self.failed = false;
        assert(self@ =~= old(self)@);
    }
}

} // verus!
