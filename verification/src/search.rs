//! Nearest-neighbour search over a collection: every segment gives its
//! local top-k, and the local rankings are merged into the global one.

use vstd::prelude::*;
use crate::collection::Collection;
use crate::error::EngineError;
use crate::filter::{filter_ok, Filter};
use crate::metric::{check_vector, lemma_score_wf, vector_ok, Distance};
use crate::model::{admits, complete, scored, sound, tops, Points};
use crate::ranking::{
    all_wf, covers, lemma_outranks_asymmetric, merge, ranked, unique_ids, ScoredPoint,
};

verus! {

/// How a search is to be carried out.
#[derive(Clone, Copy, Debug, PartialEq, Eq, Structural)]
pub struct SearchParams {
    /// Score every point instead of walking the graph.
    pub exact: bool,
    /// Nodes a graph search may expand in each segment.
    pub budget: usize,
}

/// A sound ranking lists no id twice.
pub proof fn lemma_sound_unique(
    r: Seq<ScoredPoint>,
    m: Points,
    metric: Distance,
    query: Seq<i8>,
    filter: Filter,
    excluded: Seq<u64>,
)
    requires
        sound(r, m, metric, query, filter, excluded),
    ensures
        unique_ids(r),
{
    assert forall|i: int, j: int| 0 <= i < j < r.len() implies (#[trigger] r[i]).id != (
    #[trigger] r[j]).id by {
        lemma_outranks_asymmetric(r[i], r[j]);
    }
}

impl Collection {
    /// A search with these parameters scores, in every segment, every
    /// point the query may report.
    pub open spec fn exhaustive(&self, filter: Filter, params: SearchParams) -> bool {
        forall|s: int|
            0 <= s < self.segments@.len() ==> (#[trigger] self.segments@[s]).scans(
                filter,
                params.exact,
            )
    }

    /// The ids of the points that a search with these parameters scores:
    /// in each segment, those that the segment's search scores.
    pub open spec fn examined(&self, query: Seq<i8>, filter: Filter, params: SearchParams) -> Set<u64> {
        Set::new(
            |id: u64|
                self.segments@[self.home(id)].examined(
                    query,
                    filter,
                    params.exact,
                    params.budget,
                ).contains(id),
        )
    }

    /// Decides [`Collection::exhaustive`]: tells whether a search with
    /// these parameters is complete.
    pub fn is_exhaustive(&self, filter: &Filter, params: &SearchParams) -> (r: bool)
        requires
            self.wf(),
        ensures
            r == self.exhaustive(*filter, *params),
    {
        let mut s: usize = 0;
        while s < self.segments.len()
            invariant
                self.wf(),
                s <= self.segments@.len(),
                forall|t: int| 0 <= t < s ==> (#[trigger] self.segments@[t]).scans(*filter, params.exact),
            decreases self.segments@.len() - s,
        {
            if !self.segments[s].will_scan(filter, params.exact) {
                return false;
            }
            s = s + 1;
        }
        true
    }

    /// Ranks the points that the query may report: each segment is
    /// searched for its local top-k, and the local rankings are merged.
    ///
    /// The result is exactly the top `k` of the points that the query may
    /// report among those the segments have scored. Where the search is
    /// exhaustive, as it is in exact mode, all points are scored, so that
    /// the result is the top `k` of the whole collection.
    pub fn gather(
        &self,
        query: &Vec<i8>,
        filter: &Filter,
        excluded: &Vec<u64>,
        k: usize,
        params: &SearchParams,
    ) -> (r: Vec<ScoredPoint>)
        requires
            self.wf(),
            query@.len() == self.config.dim,
        ensures
            r@.len() <= k,
            all_wf(r@),
            sound(r@, self@, self.config.metric, query@, *filter, excluded@),
            params.exact || self.exhaustive(*filter, *params) ==> complete(
                r@,
                k as int,
                self@,
                self.config.metric,
                query@,
                *filter,
                excluded@,
            ),
            tops(
                r@,
                k as int,
                self@,
                self.config.metric,
                query@,
                *filter,
                excluded@,
                self.examined(query@, *filter, *params),
            ),
    {
        let ghost metric = self.config.metric;
        let ghost reach = self.examined(query@, *filter, *params);
        let mut global: Vec<ScoredPoint> = Vec::new();
        let n: usize = self.segments.len();
        let mut s: usize = 0;
        while s < n
            invariant
                self.wf(),
                n == self.segments@.len(),
                s <= n,
                metric == self.config.metric,
                query@.len() == self.config.dim,
                global@.len() <= k,
                ranked(global@),
                all_wf(global@),
                forall|i: int|
                    0 <= i < global@.len() ==> {
                        &&& admits(self@, *filter, excluded@, (#[trigger] global@[i]).id)
                        &&& global@[i] == scored(self@, metric, query@, global@[i].id)
                        &&& self.home(global@[i].id) < s
                        &&& reach.contains(global@[i].id)
                    },
                reach == self.examined(query@, *filter, *params),
                forall|id: u64|
                    self.home(id) < s && reach.contains(id) && #[trigger] admits(
                        self@,
                        *filter,
                        excluded@,
                        id,
                    ) ==> covers(global@, k as int, scored(self@, metric, query@, id)),
            decreases n - s,
        {
            let local = self.segments[s].search(
                query,
                filter,
                excluded,
                k,
                params.exact,
                params.budget,
            );
            let ghost g = global@;
            let ghost seg = self.segments@[s as int];
            proof {
                lemma_sound_unique(local@, seg@, metric, query@, *filter, excluded@);
                assert forall|i: int, j: int|
                    0 <= i < g.len() && 0 <= j < local@.len() implies (#[trigger] g[i]).id != (
                #[trigger] local@[j]).id by {
                    self.lemma_segment_view(s as int, local@[j].id);
                }
            }
            merge(&mut global, &local, k);
            proof {
                let h = global@;
                assert forall|i: int| 0 <= i < h.len() implies {
                    &&& admits(self@, *filter, excluded@, (#[trigger] h[i]).id)
                    &&& h[i] == scored(self@, metric, query@, h[i].id)
                    &&& self.home(h[i].id) < s + 1
                    &&& reach.contains(h[i].id)
                } by {
                    if g.contains(h[i]) {
                        let w = choose|w: int| 0 <= w < g.len() && g[w] == h[i];
                        assert(self.home(g[w].id) < s);
                    } else {
                        let w = choose|w: int| 0 <= w < local@.len() && local@[w] == h[i];
                        self.lemma_segment_view(s as int, local@[w].id);
                    }
                }
                {
                    assert forall|id: u64|
                        self.home(id) < s + 1 && reach.contains(id) && #[trigger] admits(
                            self@,
                            *filter,
                            excluded@,
                            id,
                        ) implies covers(h, k as int, scored(self@, metric, query@, id)) by {
                        let p = scored(self@, metric, query@, id);
                        self.lemma_stored_vector(id);
                        lemma_score_wf(metric, self@[id].vector, query@);
                        if self.home(id) < s {
                            assert(covers(g, k as int, p));
                        } else {
                            assert(admits(seg@, *filter, excluded@, id));
                            assert(scored(seg@, metric, query@, id) == p);
                            assert(covers(local@, k as int, p));
                        }
                    }
                }
            }
            s = s + 1;
        }
        proof {
            if params.exact || self.exhaustive(*filter, *params) {
                assert forall|id: u64| #[trigger] admits(self@, *filter, excluded@, id) implies covers(
                    global@,
                    k as int,
                    scored(self@, metric, query@, id),
                ) by {
                    let t = self.home(id);
                    assert(self.segments@[t].scans(*filter, params.exact));
                    assert(reach.contains(id));
                }
            }
        }
        global
    }

    /// Searches the collection for the `top_k` points most similar to
    /// `query` among the live points that satisfy `filter`.
    ///
    /// The result is in ranking order: higher scores first, ties by
    /// ascending id. Each entry is a live point that satisfies the filter,
    /// with its exact score. In exact mode, and wherever every segment is
    /// small or the filter selective enough to score all such points, the
    /// result is the `top_k` best of them; otherwise it holds what the graph
    /// searches found.
    pub fn search(&self, query: &Vec<i8>, filter: &Filter, top_k: usize, params: &SearchParams) -> (r:
        Result<Vec<ScoredPoint>, EngineError>)
        requires
            self.wf(),
        ensures
            match r {
                Err(e) => if !vector_ok(self.config.metric, self.config.dim, query@) {
                    e == EngineError::BadVector
                } else {
                    e == EngineError::BadFilter && !filter_ok(*filter)
                },
                Ok(list) => {
                    &&& vector_ok(self.config.metric, self.config.dim, query@)
                    &&& filter_ok(*filter)
                    &&& list@.len() <= top_k
                    &&& sound(
                        list@,
                        self@,
                        self.config.metric,
                        query@,
                        *filter,
                        Seq::<u64>::empty(),
                    )
                    &&& params.exact || self.exhaustive(*filter, *params) ==> complete(
                        list@,
                        top_k as int,
                        self@,
                        self.config.metric,
                        query@,
                        *filter,
                        Seq::<u64>::empty(),
                    )
                    &&& tops(
                        list@,
                        top_k as int,
                        self@,
                        self.config.metric,
                        query@,
                        *filter,
                        Seq::<u64>::empty(),
                        self.examined(query@, *filter, *params),
                    )
                },
            },
    {
        if !check_vector(self.config.metric, self.config.dim, query) {
            return Err(EngineError::BadVector);
        }
        if !filter.validate() {
            return Err(EngineError::BadFilter);
        }
        let nobody: Vec<u64> = Vec::new();
        assert(nobody@ =~= Seq::<u64>::empty());
        Ok(self.gather(query, filter, &nobody, top_k, params))
    }
}

} // verus!
