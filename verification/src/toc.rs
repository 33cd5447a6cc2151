//! The registry of collections: name to collection, and the dispatch of
//! operations onto the collection a name stands for.

use vstd::prelude::*;
use crate::collection::{models, Collection, CollectionConfig, Optimization, Point};
use crate::error::EngineError;
use crate::filter::{filter_ok, Filter};
use crate::metric::vector_ok;
use crate::model::{
    apply_sweep, batch_ok, complete, delete_ack, deleted, found, is_live, sound, tops, upsert_ack,
    upserted, PointState, UpdateStatus,
};
use crate::ranking::ScoredPoint;
use crate::recommend::{recommendation, Example};
use crate::scroll::{is_page, record_ids, Page};
use crate::search::SearchParams;
use crate::segment::Record;

verus! {

/// A registered collection with its name.
pub struct Entry {
    pub name: String,
    pub collection: Collection,
}

/// The registry: every collection under its unique name.
pub struct TableOfContent {
    pub entries: Vec<Entry>,
}

/// An operation on one collection.
pub enum Operation {
    Upsert { version: u64, points: Vec<Point> },
    Delete { version: u64, ids: Vec<u64> },
    DeleteByFilter { version: u64, filter: Filter },
    Get { id: u64 },
    Retrieve { ids: Vec<u64> },
    Scroll { filter: Filter, cursor: Option<u64>, limit: usize },
    Search { query: Vec<i8>, filter: Filter, top_k: usize, params: SearchParams },
    Recommend {
        positive: Vec<Example>,
        negative: Vec<Example>,
        filter: Filter,
        top_k: usize,
        params: SearchParams,
    },
    Optimize,
}

/// What an operation gave.
#[derive(Debug)]
pub enum Outcome {
    /// One acknowledgement for each point of an upsert or delete.
    Acknowledged(Vec<UpdateStatus>),
    /// A delete by filter was carried out.
    Swept,
    Found(Record),
    Records(Vec<Record>),
    Page(Page),
    Ranking(Vec<ScoredPoint>),
    /// What an optimization pass did.
    Optimized(Optimization),
}

/// The operation `op`, carried out on `before`, left `after` and gave `r`:
/// for each operation, what the collection's own method guarantees.
pub open spec fn performed(
    before: Collection,
    after: Collection,
    op: Operation,
    r: Result<Outcome, EngineError>,
) -> bool {
    let m = before@;
    let metric = before.config.metric;
    let dim = before.config.dim;
    match op {
        Operation::Upsert { version, points } => {
            let batch = models(points@);
            if batch_ok(metric, dim, batch) {
                &&& r matches Ok(Outcome::Acknowledged(acks))
                &&& after@ == upserted(m, before.refused(), version, batch, batch.len() as int)
                &&& acks@.len() == batch.len()
                &&& forall|i: int|
                    0 <= i < acks@.len() ==> (#[trigger] acks@[i]) == upsert_ack(
                        m,
                        before.refused(),
                        version,
                        batch,
                        i,
                    )
            } else {
                r == Err::<Outcome, EngineError>(EngineError::BadVector) && after@ == m
            }
        },
        Operation::Delete { version, ids } => {
            &&& r matches Ok(Outcome::Acknowledged(acks))
            &&& after@ == deleted(m, before.refused(), version, ids@, ids@.len() as int)
            &&& acks@.len() == ids@.len()
            &&& forall|i: int|
                0 <= i < acks@.len() ==> (#[trigger] acks@[i]) == delete_ack(
                    m,
                    before.refused(),
                    version,
                    ids@,
                    i,
                )
        },
        Operation::DeleteByFilter { version, filter } => {
            if filter_ok(filter) {
                r matches Ok(Outcome::Swept) && after@ == apply_sweep(
                    m,
                    before.refused(),
                    version,
                    filter,
                )
            } else {
                r == Err::<Outcome, EngineError>(EngineError::BadFilter) && after@ == m
            }
        },
        Operation::Get { id } => {
            &&& after@ == m
            &&& if is_live(m, id) {
                r matches Ok(Outcome::Found(record)) && record.shows(m, id)
            } else {
                r == Err::<Outcome, EngineError>(EngineError::UnknownPoint)
            }
        },
        Operation::Retrieve { ids } => {
            &&& after@ == m
            &&& r matches Ok(Outcome::Records(records))
            &&& records@.len() == found(m, ids@, ids@.len() as int).len()
            &&& forall|j: int|
                0 <= j < records@.len() ==> (#[trigger] records@[j]).shows(
                    m,
                    found(m, ids@, ids@.len() as int)[j],
                )
        },
        Operation::Scroll { filter, cursor, limit } => {
            &&& after@ == m
            &&& if limit == 0 {
                r == Err::<Outcome, EngineError>(EngineError::BadRequest)
            } else if !filter_ok(filter) {
                r == Err::<Outcome, EngineError>(EngineError::BadFilter)
            } else {
                &&& r matches Ok(Outcome::Page(page))
                &&& is_page(m, filter, cursor, limit as int, record_ids(page.points@), page.next)
                &&& forall|i: int|
                    0 <= i < page.points@.len() ==> (#[trigger] page.points@[i]).shows(
                        m,
                        page.points@[i].id,
                    )
            }
        },
        Operation::Search { query, filter, top_k, params } => {
            &&& after@ == m
            &&& if !vector_ok(metric, dim, query@) {
                r == Err::<Outcome, EngineError>(EngineError::BadVector)
            } else if !filter_ok(filter) {
                r == Err::<Outcome, EngineError>(EngineError::BadFilter)
            } else {
                &&& r matches Ok(Outcome::Ranking(list))
                &&& list@.len() <= top_k
                &&& sound(list@, m, metric, query@, filter, Seq::<u64>::empty())
                &&& params.exact || before.exhaustive(filter, params) ==> complete(
                    list@,
                    top_k as int,
                    m,
                    metric,
                    query@,
                    filter,
                    Seq::<u64>::empty(),
                )
                &&& tops(
                    list@,
                    top_k as int,
                    m,
                    metric,
                    query@,
                    filter,
                    Seq::<u64>::empty(),
                    before.examined(query@, filter, params),
                )
            }
        },
        Operation::Recommend { positive, negative, filter, top_k, params } => {
            &&& after@ == m
            &&& match recommendation(m, metric, dim, positive@, negative@, filter) {
                Err(e) => r == Err::<Outcome, EngineError>(e),
                Ok(plan) => {
                    &&& r matches Ok(Outcome::Ranking(list))
                    &&& list@.len() <= top_k
                    &&& sound(list@, m, metric, plan.0, filter, plan.1)
                    &&& params.exact || before.exhaustive(filter, params) ==> complete(
                        list@,
                        top_k as int,
                        m,
                        metric,
                        plan.0,
                        filter,
                        plan.1,
                    )
                    &&& tops(
                        list@,
                        top_k as int,
                        m,
                        metric,
                        plan.0,
                        filter,
                        plan.1,
                        before.examined(plan.0, filter, params),
                    )
                },
            }
        },
        Operation::Optimize => {
            &&& r matches Ok(Outcome::Optimized(done))
            &&& after@ == before.optimized()
            &&& done.compacted == crate::collection::due_among(
                before.segments@,
                before.config.compact_percent,
                before.config.small_segment,
                before.segments@.len() as int,
            )
        },
    }
}

impl View for TableOfContent {
    type V = Map<Seq<char>, Collection>;

    open spec fn view(&self) -> Map<Seq<char>, Collection> {
        Map::new(
            |name: Seq<char>| self.has(name),
            |name: Seq<char>| self.entries@[self.slot_of(name)].collection,
        )
    }
}

impl TableOfContent {
    /// A collection is registered under `name`.
    pub open spec fn has(&self, name: Seq<char>) -> bool {
        exists|i: int| 0 <= i < self.entries@.len() && (#[trigger] self.entries@[i]).name@ == name
    }

    /// The position of the collection registered under `name`.
    pub open spec fn slot_of(&self, name: Seq<char>) -> int {
        choose|i: int| 0 <= i < self.entries@.len() && (#[trigger] self.entries@[i]).name@ == name
    }

    /// The names in the order of registration.
    pub open spec fn names(&self) -> Seq<Seq<char>> {
        self.entries@.map_values(|e: Entry| e.name@)
    }

    /// Every collection is in order and no name is registered twice.
    pub open spec fn wf(&self) -> bool {
        &&& forall|i: int| 0 <= i < self.entries@.len() ==> (#[trigger] self.entries@[i]).collection.wf()
        &&& forall|i: int, j: int|
            0 <= i < j < self.entries@.len() ==> (#[trigger] self.entries@[i]).name@ != (
            #[trigger] self.entries@[j]).name@
    }

    /// The entry at position `i` is the one its name stands for.
    pub proof fn lemma_slot(&self, i: int)
        requires
            self.wf(),
            0 <= i < self.entries@.len(),
        ensures
            self.has(self.entries@[i].name@),
            self.slot_of(self.entries@[i].name@) == i,
            self@.contains_key(self.entries@[i].name@),
            self@[self.entries@[i].name@] == self.entries@[i].collection,
    {
        let name = self.entries@[i].name@;
        let j = self.slot_of(name);
        if j < i {
            assert(self.entries@[j].name@ != self.entries@[i].name@);
        } else if i < j {
            assert(self.entries@[i].name@ != self.entries@[j].name@);
        }
    }

    /// A registry without collections.
    pub fn new() -> (r: TableOfContent)
        ensures
            r.wf(),
            r@ == Map::<Seq<char>, Collection>::empty(),
    {
        let r = TableOfContent { entries: Vec::new() };
        assert(r@ =~= Map::<Seq<char>, Collection>::empty());
        r
    }

    /// The position of the collection registered under `name`, if any.
    pub fn find(&self, name: &String) -> (r: Option<usize>)
        requires
            self.wf(),
        ensures
            match r {
                Some(i) => i < self.entries@.len() && self.has(name@) && self.slot_of(name@) == i,
                None => !self.has(name@),
            },
    {
        let mut i: usize = 0;
        while i < self.entries.len()
            invariant
                self.wf(),
                i <= self.entries@.len(),
                forall|j: int| 0 <= j < i ==> (#[trigger] self.entries@[j]).name@ != name@,
            decreases self.entries@.len() - i,
        {
            if self.entries[i].name == *name {
                proof {
                    self.lemma_slot(i as int);
                }
                return Some(i);
            }
            i = i + 1;
        }
        None
    }

    /// Registers `collection` under `name`, unless the name is taken.
    pub fn register(&mut self, name: String, collection: Collection) -> (r: Result<(), EngineError>)
        requires
            old(self).wf(),
            collection.wf(),
        ensures
            final(self).wf(),
            match r {
                Ok(_) => !old(self)@.contains_key(name@) && final(self)@ == old(self)@.insert(
                    name@,
                    collection,
                ) && final(self).names() == old(self).names().push(name@),
                Err(e) => e == EngineError::DuplicateCollection && old(self)@.contains_key(name@)
                    && *final(self) == *old(self),
            },
    {
        match self.find(&name) {
            Some(_) => Err(EngineError::DuplicateCollection),
            None => {
                let ghost before = *self;
                let ghost key = name@;
                self.entries.push(Entry { name, collection });
                proof {
                    let n = before.entries@.len() as int;
                    assert forall|i: int, j: int| 0 <= i < j < self.entries@.len() implies (
                    #[trigger] self.entries@[i]).name@ != (#[trigger] self.entries@[j]).name@ by {
                        if j == n {
                            assert(before.entries@[i].name@ != key);
                        }
                    }
                    assert forall|k: Seq<char>| #[trigger]
                        self@.contains_key(k) == before@.insert(key, collection).contains_key(k) by {
                        if before.has(k) {
                            let i = before.slot_of(k);
                            assert(self.entries@[i].name@ == k);
                        }
                        if k == key {
                            assert(self.entries@[n].name@ == k);
                        }
                    }
                    assert forall|k: Seq<char>| #[trigger] self@.contains_key(k) implies self@[k]
                        == before@.insert(key, collection)[k] by {
                        let i = self.slot_of(k);
                        self.lemma_slot(i);
                        if i < n {
                            before.lemma_slot(i);
                        }
                    }
                    assert(self@ =~= before@.insert(key, collection));
                    assert(self.names() =~= before.names().push(key));
                }
                Ok(())
            },
        }
    }

    /// Creates an empty collection of the given shape under `name`.
    ///
    /// Fails where the name is taken, and otherwise where the shape is not
    /// valid; nothing changes then.
    pub fn create_collection(&mut self, name: String, config: CollectionConfig) -> (r: Result<
        (),
        EngineError,
    >)
        requires
            old(self).wf(),
        ensures
            final(self).wf(),
            match r {
                Ok(_) => {
                    &&& !old(self)@.contains_key(name@)
                    &&& config.valid()
                    &&& final(self)@.dom() == old(self)@.dom().insert(name@)
                    &&& forall|k: Seq<char>|
                        old(self)@.contains_key(k) ==> #[trigger] final(self)@[k] == old(self)@[k]
                    &&& final(self)@[name@].config == config
                    &&& final(self)@[name@]@ == Map::<u64, PointState>::empty()
                    &&& final(self)@[name@].refused() == Set::<u64>::empty()
                    &&& final(self).names() == old(self).names().push(name@)
                },
                Err(e) => *final(self) == *old(self) && if old(self)@.contains_key(name@) {
                    e == EngineError::DuplicateCollection
                } else {
                    e == EngineError::BadRequest && !config.valid()
                },
            },
    {
        if self.find(&name).is_some() {
            return Err(EngineError::DuplicateCollection);
        }
        match Collection::new(config) {
            Err(e) => Err(e),
            Ok(collection) => self.register(name, collection),
        }
    }

    /// The collection registered under `name`.
    pub fn get_collection(&self, name: &String) -> (r: Result<&Collection, EngineError>)
        requires
            self.wf(),
        ensures
            match r {
                Ok(c) => self@.contains_key(name@) && *c == self@[name@] && c.wf(),
                Err(e) => e == EngineError::UnknownCollection && !self@.contains_key(name@),
            },
    {
        match self.find(name) {
            Some(i) => Ok(&self.entries[i].collection),
            None => Err(EngineError::UnknownCollection),
        }
    }

    /// Takes the collection registered under `name` out of the registry and
    /// hands it back.
    pub fn delete_collection(&mut self, name: &String) -> (r: Result<Collection, EngineError>)
        requires
            old(self).wf(),
        ensures
            final(self).wf(),
            match r {
                Ok(c) => old(self)@.contains_key(name@) && c == old(self)@[name@] && final(self)@
                    == old(self)@.remove(name@),
                Err(e) => e == EngineError::UnknownCollection && !old(self)@.contains_key(name@)
                    && *final(self) == *old(self),
            },
    {
        match self.find(name) {
            None => Err(EngineError::UnknownCollection),
            Some(i) => {
                let ghost before = *self;
                let entry = self.entries.remove(i);
                proof {
                    assert forall|a: int| 0 <= a < self.entries@.len() implies (
                    #[trigger] self.entries@[a]) == before.entries@[if a < i {
                        a
                    } else {
                        a + 1
                    }] by {}
                    assert forall|a: int, b: int| 0 <= a < b < self.entries@.len() implies (
                    #[trigger] self.entries@[a]).name@ != (#[trigger] self.entries@[b]).name@ by {
                        let a0 = if a < i { a } else { a + 1 };
                        let b0 = if b < i { b } else { b + 1 };
                        assert(before.entries@[a0].name@ != before.entries@[b0].name@);
                    }
                    assert forall|k: Seq<char>| #[trigger]
                        self@.contains_key(k) == before@.remove(name@).contains_key(k) by {
                        if self.has(k) {
                            let a = self.slot_of(k);
                            let a0 = if a < i { a } else { a + 1 };
                            before.lemma_slot(a0);
                            before.lemma_slot(i as int);
                        }
                        if before.has(k) && k != name@ {
                            let b = before.slot_of(k);
                            let b1 = if b < i { b } else { b - 1 };
                            assert(self.entries@[b1].name@ == k);
                        }
                    }
                    assert forall|k: Seq<char>| #[trigger] self@.contains_key(k) implies self@[k]
                        == before@.remove(name@)[k] by {
                        let a = self.slot_of(k);
                        self.lemma_slot(a);
                        let a0 = if a < i { a } else { a + 1 };
                        before.lemma_slot(a0);
                    }
                    assert(self@ =~= before@.remove(name@));
                }
                Ok(entry.collection)
            },
        }
    }

    /// The names of all registered collections, in the order of
    /// registration.
    pub fn all_collections(&self) -> (r: Vec<String>)
        requires
            self.wf(),
        ensures
            r@.map_values(|s: String| s@) == self.names(),
            forall|name: Seq<char>|
                self@.contains_key(name) <==> #[trigger] self.names().contains(name),
    {
        let mut out: Vec<String> = Vec::new();
        let mut i: usize = 0;
        while i < self.entries.len()
            invariant
                i <= self.entries@.len(),
                out@.len() == i,
                forall|j: int| 0 <= j < i ==> (#[trigger] out@[j])@ == self.entries@[j].name@,
            decreases self.entries@.len() - i,
        {
            out.push(self.entries[i].name.clone());
            i = i + 1;
        }
        proof {
            assert(out@.map_values(|s: String| s@) =~= self.names());
            assert forall|name: Seq<char>| self@.contains_key(name) <==> #[trigger] self.names().contains(
                name,
            ) by {
                if self.has(name) {
                    let j = self.slot_of(name);
                    assert(self.names()[j] == name);
                }
                if self.names().contains(name) {
                    let j = choose|j: int| 0 <= j < self.names().len() && self.names()[j] == name;
                    assert(self.entries@[j].name@ == name);
                }
            }
        }
        out
    }

    /// Resolves `name` and carries out `op` on the collection it stands
    /// for. No other collection is touched.
    pub fn dispatch(&mut self, name: &String, op: Operation) -> (r: Result<Outcome, EngineError>)
        requires
            old(self).wf(),
        ensures
            final(self).wf(),
            final(self).names() == old(self).names(),
            if old(self)@.contains_key(name@) {
                &&& final(self)@.contains_key(name@)
                &&& final(self)@[name@].config == old(self)@[name@].config
                &&& final(self)@[name@].refused() == old(self)@[name@].refused()
                &&& performed(old(self)@[name@], final(self)@[name@], op, r)
                &&& forall|k: Seq<char>|
                    k != name@ && old(self)@.contains_key(k) ==> #[trigger] final(self)@[k] == old(
                        self,
                    )@[k]
            } else {
                r == Err::<Outcome, EngineError>(EngineError::UnknownCollection) && *final(self)
                    == *old(self)
            },
    {
        let i: usize = match self.find(name) {
            Some(i) => i,
            None => {
                return Err(EngineError::UnknownCollection);
            },
        };
        let ghost before = *self;
        proof {
            before.lemma_slot(i as int);
        }
        let r = match op {
            Operation::Upsert { version, points } => {
                match self.entries[i].collection.upsert_points(version, &points) {
                    Ok(acks) => Ok(Outcome::Acknowledged(acks)),
                    Err(e) => Err(e),
                }
            },
            Operation::Delete { version, ids } => {
                Ok(Outcome::Acknowledged(self.entries[i].collection.delete_points(version, &ids)))
            },
            Operation::DeleteByFilter { version, filter } => {
                match self.entries[i].collection.delete_by_filter(version, &filter) {
                    Ok(_) => Ok(Outcome::Swept),
                    Err(e) => Err(e),
                }
            },
            Operation::Get { id } => {
                match self.entries[i].collection.get_point(id) {
                    Ok(record) => Ok(Outcome::Found(record)),
                    Err(e) => Err(e),
                }
            },
            Operation::Retrieve { ids } => {
                Ok(Outcome::Records(self.entries[i].collection.retrieve(&ids)))
            },
            Operation::Scroll { filter, cursor, limit } => {
                match self.entries[i].collection.scroll(&filter, cursor, limit) {
                    Ok(page) => Ok(Outcome::Page(page)),
                    Err(e) => Err(e),
                }
            },
            Operation::Search { query, filter, top_k, params } => {
                match self.entries[i].collection.search(&query, &filter, top_k, &params) {
                    Ok(list) => Ok(Outcome::Ranking(list)),
                    Err(e) => Err(e),
                }
            },
            Operation::Recommend { positive, negative, filter, top_k, params } => {
                match self.entries[i].collection.recommend(
                    &positive,
                    &negative,
                    &filter,
                    top_k,
                    &params,
                ) {
                    Ok(list) => Ok(Outcome::Ranking(list)),
                    Err(e) => Err(e),
                }
            },
            Operation::Optimize => {
                Ok(Outcome::Optimized(self.entries[i].collection.optimize()))
            },
        };
        proof {
            assert(self.entries@.len() == before.entries@.len());
            assert forall|j: int| 0 <= j < self.entries@.len() implies (
            #[trigger] self.entries@[j]).name@ == before.entries@[j].name@ && (j != i
                ==> self.entries@[j] == before.entries@[j]) by {}
            assert(self.names() =~= before.names());
            self.lemma_slot(i as int);
            assert forall|k: Seq<char>| k != name@ && before@.contains_key(k) implies #[trigger] self@[k]
                == before@[k] by {
                let j = before.slot_of(k);
                before.lemma_slot(j);
                self.lemma_slot(j);
            }
        }
        r
    }
}

} // verus!
