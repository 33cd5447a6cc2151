//! Flat, offset-addressed storage of a segment's points.

use vstd::prelude::*;
use crate::metric::{score, score_of, Distance, MAX_DIM};
use crate::payload::Payload;
use crate::ranking::ScoredPoint;

verus! {

/// The ids, versions, vectors and payloads of a segment, each addressed by
/// the point's internal offset.
pub struct PointStore {
    pub dim: usize,
    pub ids: Vec<u64>,
    pub versions: Vec<u64>,
    pub vectors: Vec<Vec<i8>>,
    pub payloads: Vec<Payload>,
}

/// No id occurs at two offsets.
pub open spec fn distinct_ids(ids: Seq<u64>) -> bool {
    forall|a: int, b: int| 0 <= a < ids.len() && 0 <= b < ids.len() && a != b ==> ids[a] != ids[b]
}

impl PointStore {
    /// The four columns have one length, every vector has the store's
    /// dimensionality, and no id occurs twice.
    pub open spec fn wf(&self) -> bool {
        &&& self.dim <= MAX_DIM
        &&& self.versions.len() == self.ids.len()
        &&& self.vectors.len() == self.ids.len()
        &&& self.payloads.len() == self.ids.len()
        &&& forall|o: int| 0 <= o < self.vectors.len() ==> (#[trigger] self.vectors@[o]).len() == self.dim
        &&& distinct_ids(self.ids@)
    }

    /// The point at offset `o`, scored against `query`.
    pub open spec fn scored_at(&self, metric: Distance, query: Seq<i8>, o: int) -> ScoredPoint {
        ScoredPoint { id: self.ids@[o], score: score_of(metric, self.vectors@[o]@, query) }
    }

    /// An empty store for vectors of `dim` components.
    pub fn new(dim: usize) -> (r: PointStore)
        requires
            dim <= MAX_DIM,
        ensures
            r.wf(),
            r.dim == dim,
            r.ids@.len() == 0,
    {
        PointStore {
            dim,
            ids: Vec::new(),
            versions: Vec::new(),
            vectors: Vec::new(),
            payloads: Vec::new(),
        }
    }

    /// Number of offsets in use.
    pub fn size(&self) -> (r: usize)
        ensures
            r == self.ids@.len(),
    {
        self.ids.len()
    }

    /// Scores the point at offset `o` against `query`.
    pub fn score_at(&self, metric: Distance, query: &Vec<i8>, o: usize) -> (r: ScoredPoint)
        requires
            self.wf(),
            o < self.ids@.len(),
            query@.len() == self.dim,
        ensures
            r == self.scored_at(metric, query@, o as int),
            r.score.wf(),
    {
        assert(self.vectors@[o as int].len() == self.dim);
        ScoredPoint { id: self.ids[o], score: score(metric, &self.vectors[o], query) }
    }

    /// Stores a new point at the next free offset.
    pub fn append(&mut self, id: u64, version: u64, vector: Vec<i8>, payload: Payload)
        requires
            old(self).wf(),
            vector@.len() == old(self).dim,
            forall|o: int| 0 <= o < old(self).ids@.len() ==> old(self).ids@[o] != id,
        ensures
            final(self).wf(),
            final(self).dim == old(self).dim,
            final(self).ids@ == old(self).ids@.push(id),
            final(self).versions@ == old(self).versions@.push(version),
            final(self).vectors@ == old(self).vectors@.push(vector),
            final(self).payloads@ == old(self).payloads@.push(payload),
    {
        self.ids.push(id);
        self.versions.push(version);
        self.vectors.push(vector);
        self.payloads.push(payload);
    }

    /// Replaces what is stored at offset `o`, keeping its id.
    pub fn overwrite(&mut self, o: usize, version: u64, vector: Vec<i8>, payload: Payload)
        requires
            old(self).wf(),
            o < old(self).ids@.len(),
            vector@.len() == old(self).dim,
        ensures
            final(self).wf(),
            final(self).dim == old(self).dim,
            final(self).ids@ == old(self).ids@,
            final(self).versions@ == old(self).versions@.update(o as int, version),
            final(self).vectors@ == old(self).vectors@.update(o as int, vector),
            final(self).payloads@ == old(self).payloads@.update(o as int, payload),
    {
        self.versions[o] = version;
        self.vectors[o] = vector;
        self.payloads[o] = payload;
    }

    /// Records a new version at offset `o`.
    pub fn stamp(&mut self, o: usize, version: u64)
        requires
            old(self).wf(),
            o < old(self).ids@.len(),
        ensures
            final(self).wf(),
            final(self).dim == old(self).dim,
            final(self).ids@ == old(self).ids@,
            final(self).versions@ == old(self).versions@.update(o as int, version),
            final(self).vectors@ == old(self).vectors@,
            final(self).payloads@ == old(self).payloads@,
    {
        self.versions[o] = version;
    }
}

} // verus!
