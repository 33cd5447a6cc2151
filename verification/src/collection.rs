//! A collection: the logical unit a client addresses.
//!
//! A collection owns a fixed number of segments and routes every point to
//! the segment that its id selects. Mutations go to the owning segment;
//! queries go to all segments and their answers are merged.

use vstd::prelude::*;
use crate::error::EngineError;
use crate::filter::{filter_ok, Filter};
use crate::metric::{check_vector, Distance, MAX_DIM};
use crate::model::{
    apply_sweep, batch_ok, delete_ack, deleted, found, is_live, upsert_ack, upserted, PointModel,
    Points, UpdateStatus,
};
use crate::payload::Payload;
use crate::segment::{
    entry_id, is_routed, lemma_replay_keys, log_ok, replayed, routed, routed_to, Record, Segment,
    SegmentConfig, WalEntry,
};

verus! {

/// A point as handed to an upsert.
#[derive(Clone, Debug, PartialEq, Eq)]
pub struct Point {
    pub id: u64,
    pub vector: Vec<i8>,
    pub payload: Payload,
}

impl View for Point {
    type V = PointModel;

    open spec fn view(&self) -> PointModel {
        PointModel { id: self.id, vector: self.vector@, payload: self.payload@ }
    }
}

/// What the points of a batch denote.
pub open spec fn models(points: Seq<Point>) -> Seq<PointModel> {
    points.map_values(|p: Point| p@)
}

/// The shape of a collection, fixed when it is created.
#[derive(Clone, Copy, Debug, PartialEq, Eq, Structural)]
pub struct CollectionConfig {
    /// Length of every vector, from 1 to `MAX_DIM`.
    pub dim: usize,
    pub metric: Distance,
    /// Number of segments, at least 1.
    pub segments: usize,
    /// Most neighbours of a node on one layer of a segment's graph.
    pub max_degree: usize,
    /// Nodes a search may expand while a point is being linked in.
    pub build_budget: usize,
    /// Segments with up to this many records are searched by exact scan.
    pub exact_threshold: usize,
    /// A segment is compacted once this share of its records, in percent,
    /// are tombstones.
    pub compact_percent: usize,
    /// A segment with up to this many records is compacted as soon as it
    /// holds a tombstone.
    pub small_segment: usize,
}

impl CollectionConfig {
    /// The collection has dimensions and segments.
    pub open spec fn valid(&self) -> bool {
        &&& 1 <= self.dim <= MAX_DIM
        &&& 1 <= self.segments
    }

    /// The shape of each segment of such a collection.
    pub open spec fn segment_config(&self) -> SegmentConfig {
        SegmentConfig {
            dim: self.dim,
            metric: self.metric,
            max_degree: self.max_degree,
            build_budget: self.build_budget,
            exact_threshold: self.exact_threshold,
        }
    }

    /// Decides [`CollectionConfig::valid`].
    pub fn check(&self) -> (r: bool)
        ensures
            r == self.valid(),
    {
        1 <= self.dim && self.dim <= MAX_DIM && 1 <= self.segments
    }

    /// Computes [`CollectionConfig::segment_config`].
    pub fn for_segment(&self) -> (r: SegmentConfig)
        ensures
            r == self.segment_config(),
    {
        SegmentConfig {
            dim: self.dim,
            metric: self.metric,
            max_degree: self.max_degree,
            build_budget: self.build_budget,
            exact_threshold: self.exact_threshold,
        }
    }
}

/// A named set of points of one dimensionality, held in segments.
pub struct Collection {
    pub config: CollectionConfig,
    pub segments: Vec<Segment>,
    /// The routing table: an id belongs to the segment at the position
    /// that the id's remainder by the table's length selects.
    pub route: Vec<usize>,
}

/// The routing table has one entry for each of `n` segments, and each
/// entry names one of them.
pub open spec fn route_ok(route: Seq<usize>, n: int) -> bool {
    &&& route.len() == n
    &&& forall|r: int| 0 <= r < route.len() ==> (#[trigger] route[r]) < n
}

/// The routing table that gives each remainder its own segment.
pub open spec fn straight(n: nat) -> Seq<usize> {
    Seq::new(n, |r: int| r as usize)
}

impl View for Collection {
    type V = Points;

    open spec fn view(&self) -> Points {
        Map::new(
            |id: u64| self.segments@[self.home(id)]@.contains_key(id),
            |id: u64| self.segments@[self.home(id)]@[id],
        )
    }
}

impl Collection {
    /// The segment that owns `id`: the one the routing table gives it to.
    /// It stays the same until an optimization pass moves the points of
    /// one segment into another.
    pub open spec fn home(&self, id: u64) -> int {
        routed_to(self.route@, id)
    }

    /// The ids whose segment accepts no writes.
    pub open spec fn refused(&self) -> Set<u64> {
        Set::new(|id: u64| self.segments@[self.home(id)].failed)
    }

    /// The configuration is valid, the routing table names segments, every
    /// segment is in order and of the collection's shape, and every point
    /// lies in the segment that owns its id, so that no id is held twice.
    pub open spec fn wf(&self) -> bool {
        &&& self.config.valid()
        &&& self.segments@.len() == self.config.segments
        &&& route_ok(self.route@, self.config.segments as int)
        &&& forall|s: int|
            0 <= s < self.segments@.len() ==> (#[trigger] self.segments@[s]).wf()
                && self.segments@[s].config == self.config.segment_config()
        &&& forall|s: int, id: u64|
            0 <= s < self.segments@.len() && #[trigger] self.segments@[s]@.contains_key(id)
                ==> self.home(id) == s
    }

    /// What a segment holds is what the collection holds.
    pub proof fn lemma_segment_view(&self, s: int, id: u64)
        requires
            self.wf(),
            0 <= s < self.segments@.len(),
            self.segments@[s]@.contains_key(id),
        ensures
            self.home(id) == s,
            self@.contains_key(id),
            self@[id] == self.segments@[s]@[id],
    {
    }

    /// Every stored vector is one the collection's metric accepts.
    pub proof fn lemma_stored_vector(&self, id: u64)
        requires
            self.wf(),
            self@.contains_key(id),
        ensures
            crate::metric::vector_ok(self.config.metric, self.config.dim, self@[id].vector),
    {
        self.segments@[self.home(id)].lemma_stored_vector(id);
    }

    /// An empty collection of the given shape.
    pub fn new(config: CollectionConfig) -> (r: Result<Collection, EngineError>)
        ensures
            match r {
                Ok(c) => config.valid() && c.wf() && c.config == config && c@ == Map::<
                    u64,
                    crate::model::PointState,
                >::empty() && c.refused() == Set::<u64>::empty() && c.route@ == straight(
                    config.segments as nat,
                ),
                Err(e) => !config.valid() && e == EngineError::BadRequest,
            },
    {
        if !config.check() {
            return Err(EngineError::BadRequest);
        }
        let mut segments: Vec<Segment> = Vec::new();
        let mut route: Vec<usize> = Vec::new();
        let mut s: usize = 0;
        while s < config.segments
            invariant
                config.valid(),
                s <= config.segments,
                segments@.len() == s,
                route@.len() == s,
                forall|r: int| 0 <= r < s ==> route@[r] == r,
                forall|t: int|
                    0 <= t < s ==> {
                        &&& (#[trigger] segments@[t]).wf()
                        &&& segments@[t].config == config.segment_config()
                        &&& segments@[t]@ == Map::<u64, crate::model::PointState>::empty()
                        &&& !segments@[t].failed
                    },
            decreases config.segments - s,
        {
            segments.push(Segment::new(config.for_segment()));
            route.push(s);
            s = s + 1;
        }
        let c = Collection { config, segments, route };
        assert(c.route@ =~= straight(config.segments as nat));
        assert(c@ =~= Map::<u64, crate::model::PointState>::empty());
        assert(c.refused() =~= Set::<u64>::empty());
        Ok(c)
    }

    /// The logs, one for each segment, can be replayed into a collection of
    /// this shape and routing: shape and routing table are valid, and each
    /// log holds only what its segment accepts and owns.
    pub open spec fn restorable(
        config: CollectionConfig,
        route: Seq<usize>,
        logs: Seq<Vec<WalEntry>>,
    ) -> bool {
        &&& config.valid()
        &&& route_ok(route, config.segments as int)
        &&& logs.len() == config.segments
        &&& forall|s: int|
            0 <= s < logs.len() ==> log_ok(config.segment_config(), (#[trigger] logs[s])@) && routed(
                logs[s]@,
                s,
                route,
            )
    }

    /// Rebuilds a collection from the logs of its segments, as after a
    /// restart: each segment holds what replaying its log gives.
    pub fn restore(config: CollectionConfig, route: &Vec<usize>, logs: &Vec<Vec<WalEntry>>) -> (r:
        Result<Collection, EngineError>)
        ensures
            match r {
                Ok(c) => {
                    &&& Self::restorable(config, route@, logs@)
                    &&& c.wf()
                    &&& c.config == config
                    &&& c.route@ == route@
                    &&& c.refused() == Set::<u64>::empty()
                    &&& forall|s: int|
                        0 <= s < logs@.len() ==> (#[trigger] c.segments@[s])@ == replayed(logs@[s]@)
                },
                Err(e) => !Self::restorable(config, route@, logs@) && e == if config.valid() {
                    EngineError::Corrupted
                } else {
                    EngineError::BadRequest
                },
            },
    {
        if !config.check() {
            return Err(EngineError::BadRequest);
        }
        if logs.len() != config.segments || route.len() != config.segments {
            return Err(EngineError::Corrupted);
        }
        let n: usize = config.segments;
        let mut table: Vec<usize> = Vec::new();
        let mut r: usize = 0;
        while r < n
            invariant
                n == config.segments,
                route@.len() == n,
                r <= n,
                config.valid(),
                table@ == route@.subrange(0, r as int),
                forall|q: int| 0 <= q < r ==> (#[trigger] route@[q]) < n,
            decreases n - r,
        {
            if route[r] >= n {
                assert(!route_ok(route@, n as int)) by {
                    assert(route@[r as int] >= n);
                }
                return Err(EngineError::Corrupted);
            }
            table.push(route[r]);
            r = r + 1;
        }
        assert(table@ =~= route@);
        let mut segments: Vec<Segment> = Vec::new();
        let mut s: usize = 0;
        while s < n
            invariant
                config.valid(),
                n == config.segments,
                logs@.len() == n,
                route_ok(route@, n as int),
                table@ == route@,
                s <= n,
                segments@.len() == s,
                forall|t: int|
                    0 <= t < s ==> {
                        &&& (#[trigger] segments@[t]).wf()
                        &&& segments@[t].config == config.segment_config()
                        &&& segments@[t]@ == replayed(logs@[t]@)
                        &&& !segments@[t].failed
                        &&& log_ok(config.segment_config(), logs@[t]@)
                        &&& routed(logs@[t]@, t, route@)
                    },
            decreases n - s,
        {
            if !is_routed(&logs[s], s, route) {
                return Err(EngineError::Corrupted);
            }
            let mut segment = Segment::new(config.for_segment());
            match segment.replay(&logs[s]) {
                Ok(_) => {},
                Err(_) => {
                    return Err(EngineError::Corrupted);
                },
            }
            segments.push(segment);
            s = s + 1;
        }
        let c = Collection { config, segments, route: table };
        proof {
            assert forall|t: int, id: u64|
                0 <= t < c.segments@.len() && #[trigger] c.segments@[t]@.contains_key(
                    id,
                ) implies c.home(id) == t by {
                lemma_replay_keys(Map::empty(), logs@[t]@, id);
                let i = choose|i: int|
                    0 <= i < logs@[t]@.len() && entry_id(#[trigger] logs@[t]@[i]) == id;
                assert(routed_to(route@, entry_id(logs@[t]@[i])) == t);
            }
            assert(c.refused() =~= Set::<u64>::empty());
            assert forall|t: int| 0 <= t < logs@.len() implies log_ok(
                config.segment_config(),
                (#[trigger] logs@[t])@,
            ) && routed(logs@[t]@, t, route@) by {
                assert(c.segments@[t].wf());
            }
        }
        Ok(c)
    }

    /// Computes the segment that owns `id`.
    pub fn home_of(&self, id: u64) -> (r: usize)
        requires
            self.wf(),
        ensures
            r == self.home(id),
            r < self.segments@.len(),
    {
        let n: u64 = self.route.len() as u64;
        self.route[(id % n) as usize]
    }

    /// Upserts a batch of points at one version.
    ///
    /// Every vector is validated first, and a batch with an invalid one is
    /// rejected whole, before anything changes. Otherwise each point goes
    /// to its segment in the order given: a new id is inserted, a known id
    /// with an older version is overwritten (and revived if it was
    /// deleted), and any other point is acknowledged as stale.
    pub fn upsert_points(&mut self, version: u64, points: &Vec<Point>) -> (r: Result<
        Vec<UpdateStatus>,
        EngineError,
    >)
        requires
            old(self).wf(),
        ensures
            final(self).wf(),
            final(self).config == old(self).config,
            final(self).route@ == old(self).route@,
            final(self).refused() == old(self).refused(),
            match r {
                Err(e) => {
                    &&& e == EngineError::BadVector
                    &&& !batch_ok(old(self).config.metric, old(self).config.dim, models(points@))
                    &&& final(self)@ == old(self)@
                },
                Ok(acks) => {
                    &&& batch_ok(old(self).config.metric, old(self).config.dim, models(points@))
                    &&& acks@.len() == points@.len()
                    &&& final(self)@ == upserted(
                        old(self)@,
                        old(self).refused(),
                        version,
                        models(points@),
                        points@.len() as int,
                    )
                    &&& forall|i: int|
                        0 <= i < acks@.len() ==> (#[trigger] acks@[i]) == upsert_ack(
                            old(self)@,
                            old(self).refused(),
                            version,
                            models(points@),
                            i,
                        )
                },
            },
    {
        let ghost before = self@;
        let ghost refused = self.refused();
        let ghost batch = models(points@);
        let mut i: usize = 0;
        while i < points.len()
            invariant
                i <= points@.len(),
                batch == models(points@),
                *self == *old(self),
                self.wf(),
                forall|j: int|
                    0 <= j < i ==> vector_ok_at(self.config.metric, self.config.dim, batch, j),
            decreases points@.len() - i,
        {
            if !check_vector(self.config.metric, self.config.dim, &points[i].vector) {
                assert(!vector_ok_at(self.config.metric, self.config.dim, batch, i as int));
                return Err(EngineError::BadVector);
            }
            i = i + 1;
        }
        assert forall|j: int| 0 <= j < batch.len() implies crate::metric::vector_ok(
            self.config.metric,
            self.config.dim,
            (#[trigger] batch[j]).vector,
        ) by {
            assert(vector_ok_at(self.config.metric, self.config.dim, batch, j));
        }
        let mut acks: Vec<UpdateStatus> = Vec::new();
        let mut i: usize = 0;
        while i < points.len()
            invariant
                i <= points@.len(),
                batch == models(points@),
                batch_ok(self.config.metric, self.config.dim, batch),
                self.wf(),
                self.config == old(self).config,
                self.route@ == old(self).route@,
                self.refused() == refused,
                self@ == upserted(before, refused, version, batch, i as int),
                acks@.len() == i,
                forall|j: int|
                    0 <= j < i ==> (#[trigger] acks@[j]) == upsert_ack(
                        before,
                        refused,
                        version,
                        batch,
                        j,
                    ),
            decreases points@.len() - i,
        {
            let p = &points[i];
            let s: usize = self.home_of(p.id);
            let ghost cur = self@;
            let ghost segs = self.segments@;
            assert(batch[i as int] == p@);
            let vector = p.vector.clone();
            assert(vector@ =~= p.vector@);
            let payload = p.payload.duplicate();
            let status = self.segments[s].upsert(version, p.id, vector, payload);
            proof {
                assert(self.segments@.len() == segs.len());
                assert forall|t: int| 0 <= t < segs.len() && t != s implies self.segments@[t]
                    == segs[t] by {}
                assert(self.refused() =~= refused);
                if refused.contains(p.id) {
                    assert(self@ =~= cur);
                } else {
                    assert(self@ =~= crate::model::apply_upsert(
                        cur,
                        version,
                        p.id,
                        p.vector@,
                        p.payload@,
                    ));
                }
            }
            acks.push(status);
            i = i + 1;
        }
        Ok(acks)
    }

    /// Upserts one point, or says why not: the vector is not one the
    /// collection accepts, the owning segment accepts no writes, or the
    /// point is recorded with this version or a later one. Nothing changes
    /// then.
    pub fn upsert_point(&mut self, version: u64, point: &Point) -> (r: Result<(), EngineError>)
        requires
            old(self).wf(),
        ensures
            final(self).wf(),
            final(self).config == old(self).config,
            final(self).route@ == old(self).route@,
            final(self).refused() == old(self).refused(),
            match r {
                Ok(_) => {
                    &&& crate::metric::vector_ok(
                        old(self).config.metric,
                        old(self).config.dim,
                        point.vector@,
                    )
                    &&& !old(self).refused().contains(point.id)
                    &&& crate::model::upsert_applies(old(self)@, version, point.id)
                    &&& final(self)@ == crate::model::apply_upsert(
                        old(self)@,
                        version,
                        point.id,
                        point.vector@,
                        point.payload@,
                    )
                },
                Err(e) => {
                    &&& final(self)@ == old(self)@
                    &&& e == if !crate::metric::vector_ok(
                        old(self).config.metric,
                        old(self).config.dim,
                        point.vector@,
                    ) {
                        EngineError::BadVector
                    } else if old(self).refused().contains(point.id) {
                        EngineError::SegmentFailed
                    } else {
                        EngineError::StaleVersion
                    }
                    &&& e == EngineError::StaleVersion ==> !crate::model::upsert_applies(
                        old(self)@,
                        version,
                        point.id,
                    )
                },
            },
    {
        if !check_vector(self.config.metric, self.config.dim, &point.vector) {
            return Err(EngineError::BadVector);
        }
        let ghost before = self@;
        let ghost refused = self.refused();
        let ghost segs = self.segments@;
        let s: usize = self.home_of(point.id);
        let vector = point.vector.clone();
        assert(vector@ =~= point.vector@);
        let status = self.segments[s].upsert(version, point.id, vector, point.payload.duplicate());
        proof {
            assert forall|t: int| 0 <= t < segs.len() && t != s implies self.segments@[t] == segs[t] by {}
            assert(self.refused() =~= refused);
            if refused.contains(point.id) {
                assert(self@ =~= before);
            } else {
                assert(self@ =~= crate::model::apply_upsert(
                    before,
                    version,
                    point.id,
                    point.vector@,
                    point.payload@,
                ));
            }
        }
        match status {
            UpdateStatus::Applied => Ok(()),
            UpdateStatus::Refused => Err(EngineError::SegmentFailed),
            _ => Err(EngineError::StaleVersion),
        }
    }

    /// Deletes one point, or says why not: the owning segment accepts no
    /// writes, no record has that id or the record is a tombstone already,
    /// or the record carries this version or a later one. A tombstone with
    /// an older version takes the delete's version even so.
    pub fn delete_point(&mut self, version: u64, id: u64) -> (r: Result<(), EngineError>)
        requires
            old(self).wf(),
        ensures
            final(self).wf(),
            final(self).config == old(self).config,
            final(self).route@ == old(self).route@,
            final(self).refused() == old(self).refused(),
            final(self)@ == if old(self).refused().contains(id) {
                old(self)@
            } else {
                crate::model::apply_delete(old(self)@, version, id)
            },
            match r {
                Ok(_) => !old(self).refused().contains(id) && crate::model::delete_status(
                    old(self)@,
                    version,
                    id,
                ) == UpdateStatus::Applied,
                Err(e) => e == if old(self).refused().contains(id) {
                    EngineError::SegmentFailed
                } else if crate::model::delete_status(old(self)@, version, id) == UpdateStatus::Stale {
                    EngineError::StaleVersion
                } else {
                    EngineError::UnknownPoint
                } && (e == EngineError::UnknownPoint ==> crate::model::delete_status(
                    old(self)@,
                    version,
                    id,
                ) == UpdateStatus::Missing),
            },
    {
        let ghost before = self@;
        let ghost refused = self.refused();
        let ghost segs = self.segments@;
        let s: usize = self.home_of(id);
        let status = self.segments[s].delete(version, id);
        proof {
            assert forall|t: int| 0 <= t < segs.len() && t != s implies self.segments@[t] == segs[t] by {}
            assert(self.refused() =~= refused);
            if refused.contains(id) {
                assert(self@ =~= before);
            } else {
                assert(self@ =~= crate::model::apply_delete(before, version, id));
            }
        }
        match status {
            UpdateStatus::Applied => Ok(()),
            UpdateStatus::Refused => Err(EngineError::SegmentFailed),
            UpdateStatus::Stale => Err(EngineError::StaleVersion),
            UpdateStatus::Missing => Err(EngineError::UnknownPoint),
        }
    }

    /// The logs of the segments, in the order of the segments.
    pub open spec fn logs(&self) -> Seq<Vec<WalEntry>> {
        self.segments@.map_values(|s: Segment| s.wal)
    }

    /// Deletes the points with the given ids at one version: each live
    /// point with an older version becomes a tombstone.
    pub fn delete_points(&mut self, version: u64, ids: &Vec<u64>) -> (acks: Vec<UpdateStatus>)
        requires
            old(self).wf(),
        ensures
            final(self).wf(),
            final(self).config == old(self).config,
            final(self).route@ == old(self).route@,
            final(self).refused() == old(self).refused(),
            acks@.len() == ids@.len(),
            final(self)@ == deleted(
                old(self)@,
                old(self).refused(),
                version,
                ids@,
                ids@.len() as int,
            ),
            forall|i: int|
                0 <= i < acks@.len() ==> (#[trigger] acks@[i]) == delete_ack(
                    old(self)@,
                    old(self).refused(),
                    version,
                    ids@,
                    i,
                ),
    {
        let ghost before = self@;
        let ghost refused = self.refused();
        let mut acks: Vec<UpdateStatus> = Vec::new();
        let mut i: usize = 0;
        while i < ids.len()
            invariant
                i <= ids@.len(),
                self.wf(),
                self.config == old(self).config,
                self.route@ == old(self).route@,
                self.refused() == refused,
                self@ == deleted(before, refused, version, ids@, i as int),
                acks@.len() == i,
                forall|j: int|
                    0 <= j < i ==> (#[trigger] acks@[j]) == delete_ack(
                        before,
                        refused,
                        version,
                        ids@,
                        j,
                    ),
            decreases ids@.len() - i,
        {
            let id: u64 = ids[i];
            let s: usize = self.home_of(id);
            let ghost cur = self@;
            let ghost segs = self.segments@;
            let status = self.segments[s].delete(version, id);
            proof {
                assert(self.segments@.len() == segs.len());
                assert forall|t: int| 0 <= t < segs.len() && t != s implies self.segments@[t]
                    == segs[t] by {}
                assert(self.refused() =~= refused);
                if refused.contains(id) {
                    assert(self@ =~= cur);
                } else {
                    assert(self@ =~= crate::model::apply_delete(cur, version, id));
                }
            }
            acks.push(status);
            i = i + 1;
        }
        acks
    }

    /// Deletes, at one version, every live point that satisfies `filter`
    /// and has an older version. A malformed filter is rejected.
    pub fn delete_by_filter(&mut self, version: u64, filter: &Filter) -> (r: Result<(), EngineError>)
        requires
            old(self).wf(),
        ensures
            final(self).wf(),
            final(self).config == old(self).config,
            final(self).route@ == old(self).route@,
            final(self).refused() == old(self).refused(),
            match r {
                Err(e) => e == EngineError::BadFilter && !filter_ok(*filter) && final(self)@ == old(
                    self,
                )@,
                Ok(_) => filter_ok(*filter) && final(self)@ == apply_sweep(
                    old(self)@,
                    old(self).refused(),
                    version,
                    *filter,
                ),
            },
    {
        if !filter.validate() {
            return Err(EngineError::BadFilter);
        }
        let ghost before = self@;
        let ghost refused = self.refused();
        let ghost segs = self.segments@;
        let n: usize = self.segments.len();
        let mut s: usize = 0;
        while s < n
            invariant
                s <= n,
                n == segs.len(),
                self.segments@.len() == n,
                old(self).wf(),
                segs == old(self).segments@,
                self.wf(),
                self.config == old(self).config,
                self.route@ == old(self).route@,
                forall|t: int| s <= t < n ==> (#[trigger] self.segments@[t]) == segs[t],
                forall|t: int|
                    0 <= t < n ==> (#[trigger] self.segments@[t]).failed == segs[t].failed,
                forall|t: int|
                    0 <= t < s ==> (#[trigger] self.segments@[t])@ == if segs[t].failed {
                        segs[t]@
                    } else {
                        apply_sweep(segs[t]@, Set::<u64>::empty(), version, *filter)
                    },
            decreases n - s,
        {
            let ghost mid = self.segments@;
            self.segments[s].sweep(version, filter);
            proof {
                assert forall|t: int| 0 <= t < n && t != s implies self.segments@[t] == mid[t] by {}
                assert forall|t: int, id: u64|
                    0 <= t < self.segments@.len() && #[trigger] self.segments@[t]@.contains_key(
                        id,
                    ) implies self.home(id) == t by {
                    assert(mid[t]@.contains_key(id));
                }
            }
            s = s + 1;
        }
        proof {
            assert(self.refused() =~= refused);
            assert(self@ =~= apply_sweep(before, refused, version, *filter));
        }
        Ok(())
    }

    /// The points after an optimization pass: the tombstones of the
    /// segments that were due are gone, everything else is as it was.
    pub open spec fn optimized(&self) -> Points {
        Map::new(
            |id: u64|
                self@.contains_key(id) && (self@[id].live || !self.segments@[self.home(id)].due(
                    self.config.compact_percent,
                    self.config.small_segment,
                )),
            |id: u64| self@[id],
        )
    }

    /// Compaction: every segment that is due, being small or heavy with
    /// tombstones, is rebuilt off to the side as a segment without
    /// tombstones, which then takes the old segment's place. Returns the
    /// number of segments that were replaced.
    ///
    /// No live point changes, and no segment that accepts no writes is
    /// touched.
    pub fn compact_due(&mut self) -> (replaced: usize)
        requires
            old(self).wf(),
        ensures
            final(self).wf(),
            final(self).config == old(self).config,
            final(self).route@ == old(self).route@,
            final(self).refused() == old(self).refused(),
            final(self)@ == old(self).optimized(),
            Self::compaction_of(*old(self), *final(self)),
            replaced == due_among(
                old(self).segments@,
                old(self).config.compact_percent,
                old(self).config.small_segment,
                old(self).segments@.len() as int,
            ),
    {
        let ghost segs = self.segments@;
        let ghost refused = self.refused();
        let percent: usize = self.config.compact_percent;
        let small: usize = self.config.small_segment;
        let n: usize = self.segments.len();
        let mut replaced: usize = 0;
        let mut s: usize = 0;
        while s < n
            invariant
                s <= n,
                n == segs.len(),
                self.segments@.len() == n,
                old(self).wf(),
                segs == old(self).segments@,
                percent == old(self).config.compact_percent,
                small == old(self).config.small_segment,
                self.wf(),
                self.config == old(self).config,
                self.route@ == old(self).route@,
                replaced <= s,
                replaced == due_among(segs, percent, small, s as int),
                forall|t: int| s <= t < n ==> (#[trigger] self.segments@[t]) == segs[t],
                forall|t: int|
                    0 <= t < n ==> (#[trigger] self.segments@[t]).failed == segs[t].failed,
                forall|t: int|
                    0 <= t < s ==> (#[trigger] self.segments@[t])@ == if segs[t].due(percent, small) {
                        crate::model::purged(segs[t]@)
                    } else {
                        segs[t]@
                    },
            decreases n - s,
        {
            if self.segments[s].is_due(percent, small) {
                let ghost mid = self.segments@;
                let fresh = self.segments[s].compacted();
                self.segments[s] = fresh;
                replaced = replaced + 1;
                proof {
                    assert forall|t: int, id: u64|
                        0 <= t < self.segments@.len() && #[trigger] self.segments@[t]@.contains_key(
                            id,
                        ) implies self.home(id) == t by {
                        assert(mid[t]@.contains_key(id));
                    }
                }
            }
            s = s + 1;
        }
        proof {
            assert(self.refused() =~= refused);
            assert(self@ =~= old(self).optimized());
        }
        replaced
    }

    /// What compaction makes of a collection: each segment that was due
    /// holds its live points only, and nothing else has changed.
    pub open spec fn compaction_of(before: Collection, after: Collection) -> bool {
        &&& after.config == before.config
        &&& after.route@ == before.route@
        &&& after.segments@.len() == before.segments@.len()
        &&& forall|s: int|
            0 <= s < before.segments@.len() ==> (#[trigger] after.segments@[s]).failed
                == before.segments@[s].failed && after.segments@[s]@ == if before.segments@[s].due(
                before.config.compact_percent,
                before.config.small_segment,
            ) {
                crate::model::purged(before.segments@[s]@)
            } else {
                before.segments@[s]@
            }
    }

    /// The two segments that a merge would join: the first two that are
    /// worth merging.
    pub open spec fn merge_pair(&self) -> Option<(int, int)> {
        match mergeable_from(self.segments@, self.config.small_segment, 0) {
            None => None,
            Some(a) => match mergeable_from(self.segments@, self.config.small_segment, a + 1) {
                None => None,
                Some(b) => Some((a, b)),
            },
        }
    }

    /// What a merge makes of a collection: where two segments are worth
    /// merging, the first holds the points of both, the second is empty,
    /// and the routing table gives the first all that it gave the second.
    pub open spec fn merge_of(before: Collection, after: Collection, merged: bool) -> bool {
        &&& after.config == before.config
        &&& match before.merge_pair() {
            None => !merged && after.route@ == before.route@ && after.segments@ == before.segments@,
            Some(pair) => {
                &&& merged
                &&& after.route@ == rerouted(before.route@, pair.0, pair.1)
                &&& after.segments@.len() == before.segments@.len()
                &&& after.segments@[pair.0]@ == before.segments@[pair.0]@.union_prefer_right(
                    before.segments@[pair.1]@,
                )
                &&& after.segments@[pair.1]@ == Map::<u64, crate::model::PointState>::empty()
                &&& forall|s: int|
                    0 <= s < before.segments@.len() && s != pair.0 && s != pair.1 ==> (
                    #[trigger] after.segments@[s]) == before.segments@[s]
            },
        }
    }

    /// The first segment at or after `from` that is worth merging.
    pub fn find_mergeable(&self, from: usize) -> (r: Option<usize>)
        requires
            self.wf(),
            from <= self.segments@.len(),
        ensures
            match r {
                Some(s) => mergeable_from(self.segments@, self.config.small_segment, from as int)
                    == Some(s as int) && from <= s < self.segments@.len() && mergeable(
                    self.segments@[s as int],
                    self.config.small_segment,
                ),
                None => mergeable_from(self.segments@, self.config.small_segment, from as int)
                    is None,
            },
    {
        let small: usize = self.config.small_segment;
        let mut s: usize = from;
        while s < self.segments.len()
            invariant
                self.wf(),
                small == self.config.small_segment,
                from <= s <= self.segments@.len(),
                mergeable_from(self.segments@, small, from as int) == mergeable_from(
                    self.segments@,
                    small,
                    s as int,
                ),
            decreases self.segments@.len() - s,
        {
            let segment = &self.segments[s];
            let size: usize = segment.size();
            if !segment.failed && 0 < size && size <= small && segment.count_dead() == 0 {
                return Some(s);
            }
            s = s + 1;
        }
        None
    }

    /// Merge: where at least two segments are small, free of tombstones
    /// and open to writes, the first two of them are joined. A segment
    /// holding the points of both is built off to the side and takes the
    /// place of the first, the second is left empty, and the routing table
    /// hands the first all ids that the second owned. Tells whether a
    /// merge took place.
    ///
    /// No point changes.
    pub fn merge_small(&mut self) -> (merged: bool)
        requires
            old(self).wf(),
        ensures
            final(self).wf(),
            final(self).config == old(self).config,
            final(self).refused() == old(self).refused(),
            final(self)@ == old(self)@,
            Self::merge_of(*old(self), *final(self), merged),
    {
        let a: usize = match self.find_mergeable(0) {
            Some(a) => a,
            None => {
                return false;
            },
        };
        let b: usize = match self.find_mergeable(a + 1) {
            Some(b) => b,
            None => {
                return false;
            },
        };
        let ghost before = *self;
        let ghost segs = self.segments@;
        let ghost route0 = self.route@;
        proof {
            segs[a as int].lemma_all_live();
            segs[b as int].lemma_all_live();
            assert forall|id: u64| crate::model::purged(segs[a as int]@).contains_key(
                id,
            ) implies !segs[b as int]@.contains_key(id) by {
                if segs[b as int]@.contains_key(id) {
                    before.lemma_segment_view(a as int, id);
                    before.lemma_segment_view(b as int, id);
                }
            }
        }
        let mut joined = self.segments[a].compacted();
        joined.absorb(&self.segments[b]);
        self.segments[a] = joined;
        let fresh = Segment::new(self.config.for_segment());
        self.segments[b] = fresh;
        let ghost segs1 = self.segments@;
        let n: usize = self.route.len();
        let mut r: usize = 0;
        while r < n
            invariant
                r <= n,
                n == route0.len(),
                self.route@.len() == n,
                self.config == before.config,
                self.segments@ == segs1,
                forall|q: int|
                    0 <= q < r ==> self.route@[q] == if route0[q] == b {
                        a
                    } else {
                        route0[q]
                    },
                forall|q: int| r <= q < n ==> self.route@[q] == route0[q],
            decreases n - r,
        {
            if self.route[r] == b {
                self.route[r] = a;
            }
            r = r + 1;
        }
        proof {
            assert(self.route@ =~= rerouted(route0, a as int, b as int));
            let len = n as int;
            assert forall|id: u64| self.home(id) == if before.home(id) == b {
                a as int
            } else {
                before.home(id)
            } by {
                let q = (id as int) % len;
                assert(0 <= q < len);
            }
            assert forall|t: int, id: u64|
                0 <= t < self.segments@.len() && #[trigger] self.segments@[t]@.contains_key(
                    id,
                ) implies self.home(id) == t by {
                if t == a {
                    if segs[a as int]@.contains_key(id) {
                        before.lemma_segment_view(a as int, id);
                    } else {
                        before.lemma_segment_view(b as int, id);
                    }
                } else if t != b {
                    before.lemma_segment_view(t, id);
                }
            }
            assert forall|t: int| 0 <= t < self.segments@.len() implies (
            #[trigger] self.segments@[t]).wf() && self.segments@[t].config
                == self.config.segment_config() by {
                if t != a && t != b {
                    assert(self.segments@[t] == segs[t]);
                }
            }
            assert forall|id: u64| #[trigger]
                self@.contains_key(id) == before@.contains_key(id) && (self@.contains_key(id)
                    ==> self@[id] == before@[id]) by {
                let h = before.home(id);
                let q = (id as int) % len;
                assert(0 <= q < len);
                assert(0 <= h < len);
                if segs[a as int]@.contains_key(id) {
                    before.lemma_segment_view(a as int, id);
                }
                if segs[b as int]@.contains_key(id) {
                    before.lemma_segment_view(b as int, id);
                }
                if h != a && h != b {
                    assert(self.segments@[h] == segs[h]);
                }
            }
            assert(self@ =~= before@);
            assert forall|id: u64|
                self.refused().contains(id) == before.refused().contains(id) by {
                let h = before.home(id);
                let q = (id as int) % len;
                assert(0 <= q < len);
                if h != a && h != b {
                    assert(self.segments@[h] == segs[h]);
                }
            }
            assert(self.refused() =~= before.refused());
        }
        true
    }

    /// One pass of segment optimization: compaction of the segments that
    /// are due, then a merge of two small segments if there are two. The
    /// new segments are built off to the side and put in place once they
    /// are complete.
    ///
    /// No live point changes; the tombstones of the compacted segments
    /// are gone.
    pub fn optimize(&mut self) -> (r: Optimization)
        requires
            old(self).wf(),
        ensures
            final(self).wf(),
            final(self).config == old(self).config,
            final(self).refused() == old(self).refused(),
            final(self)@ == old(self).optimized(),
            r.compacted == due_among(
                old(self).segments@,
                old(self).config.compact_percent,
                old(self).config.small_segment,
                old(self).segments@.len() as int,
            ),
            exists|mid: Collection| #[trigger]
                Self::compaction_of(*old(self), mid) && mid.wf() && Self::merge_of(
                    mid,
                    *final(self),
                    r.merged,
                ),
    {
        let compacted: usize = self.compact_due();
        let ghost mid = *self;
        let merged: bool = self.merge_small();
        assert(Self::compaction_of(*old(self), mid) && mid.wf() && Self::merge_of(mid, *self, merged));
        Optimization { compacted, merged }
    }

    /// Looks up one live point by id.
    pub fn get_point(&self, id: u64) -> (r: Result<Record, EngineError>)
        requires
            self.wf(),
        ensures
            match r {
                Ok(record) => record.shows(self@, id),
                Err(e) => e == EngineError::UnknownPoint && !is_live(self@, id),
            },
    {
        let s: usize = self.home_of(id);
        match self.segments[s].get(id) {
            Some(record) => Ok(record),
            None => Err(EngineError::UnknownPoint),
        }
    }

    /// Looks up points by id: the live ones among `ids`, in the order
    /// given; ids without a live point are left out.
    pub fn retrieve(&self, ids: &Vec<u64>) -> (r: Vec<Record>)
        requires
            self.wf(),
        ensures
            r@.len() == found(self@, ids@, ids@.len() as int).len(),
            forall|j: int|
                0 <= j < r@.len() ==> (#[trigger] r@[j]).shows(
                    self@,
                    found(self@, ids@, ids@.len() as int)[j],
                ),
    {
        let mut out: Vec<Record> = Vec::new();
        let mut i: usize = 0;
        while i < ids.len()
            invariant
                i <= ids@.len(),
                self.wf(),
                out@.len() == found(self@, ids@, i as int).len(),
                forall|j: int|
                    0 <= j < out@.len() ==> (#[trigger] out@[j]).shows(
                        self@,
                        found(self@, ids@, i as int)[j],
                    ),
            decreases ids@.len() - i,
        {
            match self.get_point(ids[i]) {
                Ok(record) => {
                    out.push(record);
                },
                Err(_) => {},
            }
            i = i + 1;
        }
        out
    }
}

/// What one pass of optimization did.
#[derive(Clone, Copy, Debug, PartialEq, Eq, Structural)]
pub struct Optimization {
    /// Number of segments that were compacted.
    pub compacted: usize,
    /// Whether two segments were merged.
    pub merged: bool,
}

/// The segment is worth merging with another: it accepts writes, has no
/// tombstones, and holds some records but no more than `small`.
pub open spec fn mergeable(segment: Segment, small: usize) -> bool {
    &&& !segment.failed
    &&& segment.dead() == 0
    &&& 0 < segment.store.ids@.len() <= small
}

/// The first segment at or after `from` that is worth merging.
pub open spec fn mergeable_from(segments: Seq<Segment>, small: usize, from: int) -> Option<int>
    decreases segments.len() - from,
{
    if from < 0 || from >= segments.len() {
        None
    } else if mergeable(segments[from], small) {
        Some(from)
    } else {
        mergeable_from(segments, small, from + 1)
    }
}

/// The routing table that gives segment `a` all that `route` gave to
/// segment `b`.
pub open spec fn rerouted(route: Seq<usize>, a: int, b: int) -> Seq<usize> {
    Seq::new(
        route.len(),
        |r: int|
            if route[r] == b {
                a as usize
            } else {
                route[r]
            },
    )
}

/// How many of the first `n` segments are due for compaction.
pub open spec fn due_among(segments: Seq<Segment>, percent: usize, small: usize, n: int) -> nat
    decreases n,
{
    if n <= 0 {
        0
    } else {
        due_among(segments, percent, small, n - 1) + if segments[n - 1].due(percent, small) {
            1nat
        } else {
            0nat
        }
    }
}

/// The vector of point `j` of a batch is one the collection accepts.
pub open spec fn vector_ok_at(metric: Distance, dim: usize, batch: Seq<PointModel>, j: int) -> bool {
    crate::metric::vector_ok(metric, dim, batch[j].vector)
}

} // verus!
