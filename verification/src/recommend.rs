//! Recommendation: a search whose query is built from example points.

use vstd::prelude::*;
use crate::collection::Collection;
use crate::error::EngineError;
use crate::filter::{filter_ok, Filter};
use crate::metric::{check_vector, vector_ok, Distance};
use crate::model::{complete, is_live, sound, tops, Points};
use crate::ranking::ScoredPoint;
use crate::search::SearchParams;

verus! {

/// An example for a recommendation: a stored point, or a vector.
#[derive(Clone, Debug, PartialEq, Eq)]
pub enum Example {
    Id(u64),
    Vector(Vec<i8>),
}

/// What a list of vectors denotes.
pub open spec fn views(vs: Seq<Vec<i8>>) -> Seq<Seq<i8>> {
    vs.map_values(|v: Vec<i8>| v@)
}

/// The vector an example stands for: that of the live point it names, or
/// the vector it carries, if the collection accepts it.
pub open spec fn resolve(m: Points, metric: Distance, dim: usize, e: Example) -> Result<
    Seq<i8>,
    EngineError,
> {
    match e {
        Example::Id(id) => if is_live(m, id) {
            Ok(m[id].vector)
        } else {
            Err(EngineError::UnknownPoint)
        },
        Example::Vector(v) => if vector_ok(metric, dim, v@) {
            Ok(v@)
        } else {
            Err(EngineError::BadVector)
        },
    }
}

/// The vectors of the first `n` examples, or the error of the first
/// example that stands for none.
pub open spec fn resolved(m: Points, metric: Distance, dim: usize, examples: Seq<Example>, n: int) -> Result<
    Seq<Seq<i8>>,
    EngineError,
>
    decreases n,
{
    if n <= 0 {
        Ok(Seq::empty())
    } else {
        match resolved(m, metric, dim, examples, n - 1) {
            Err(e) => Err(e),
            Ok(vs) => match resolve(m, metric, dim, examples[n - 1]) {
                Err(e) => Err(e),
                Ok(v) => Ok(vs.push(v)),
            },
        }
    }
}

/// The ids named by the first `n` examples.
pub open spec fn reference_ids(examples: Seq<Example>, n: int) -> Seq<u64>
    decreases n,
{
    if n <= 0 {
        Seq::empty()
    } else {
        match examples[n - 1] {
            Example::Id(id) => reference_ids(examples, n - 1).push(id),
            Example::Vector(_) => reference_ids(examples, n - 1),
        }
    }
}

/// Sum of component `c` over the first `n` vectors.
pub open spec fn column_sum(vs: Seq<Seq<i8>>, c: int, n: int) -> int
    decreases n,
{
    if n <= 0 {
        0
    } else {
        column_sum(vs, c, n - 1) + vs[n - 1][c]
    }
}

/// The quotient of `a` by a positive `b`, rounded toward zero.
pub open spec fn toward_zero(a: int, b: int) -> int {
    if a >= 0 {
        a / b
    } else {
        -((-a) / b)
    }
}

/// The mean of component `c` over all vectors, rounded toward zero.
pub open spec fn mean(vs: Seq<Seq<i8>>, c: int) -> int {
    toward_zero(column_sum(vs, c, vs.len() as int), vs.len() as int)
}

/// `x` brought into the range of a component.
pub open spec fn clamp(x: int) -> int {
    if x < -128 {
        -128
    } else if x > 127 {
        127
    } else {
        x
    }
}

/// Component `c` of the query built from the examples: the mean of the
/// positive examples, moved away from the mean of the negative ones by
/// their difference.
pub open spec fn target_component(pos: Seq<Seq<i8>>, neg: Seq<Seq<i8>>, c: int) -> int {
    if neg.len() == 0 {
        clamp(mean(pos, c))
    } else {
        clamp(2 * mean(pos, c) - mean(neg, c))
    }
}

/// The query built from the examples.
pub open spec fn target(pos: Seq<Seq<i8>>, neg: Seq<Seq<i8>>, dim: nat) -> Seq<i8> {
    Seq::new(dim, |c: int| target_component(pos, neg, c) as i8)
}

/// What a recommendation searches for: the query vector and the ids to
/// leave out, or the error of the request.
pub open spec fn recommendation(
    m: Points,
    metric: Distance,
    dim: usize,
    positive: Seq<Example>,
    negative: Seq<Example>,
    filter: Filter,
) -> Result<(Seq<i8>, Seq<u64>), EngineError> {
    if positive.len() == 0 {
        Err(EngineError::BadRequest)
    } else if !filter_ok(filter) {
        Err(EngineError::BadFilter)
    } else {
        match resolved(m, metric, dim, positive, positive.len() as int) {
            Err(e) => Err(e),
            Ok(pos) => match resolved(m, metric, dim, negative, negative.len() as int) {
                Err(e) => Err(e),
                Ok(neg) => {
                    let q = target(pos, neg, dim as nat);
                    if vector_ok(metric, dim, q) {
                        Ok(
                            (
                                q,
                                reference_ids(positive, positive.len() as int) + reference_ids(
                                    negative,
                                    negative.len() as int,
                                ),
                            ),
                        )
                    } else {
                        Err(EngineError::BadVector)
                    }
                },
            },
        }
    }
}

/// Once the examples up to some position stand for no list of vectors,
/// neither does any longer run of them, and the error stays the same.
pub proof fn lemma_resolved_error(
    m: Points,
    metric: Distance,
    dim: usize,
    examples: Seq<Example>,
    i: int,
    n: int,
)
    requires
        0 <= i <= n,
        resolved(m, metric, dim, examples, i) is Err,
    ensures
        resolved(m, metric, dim, examples, n) == resolved(m, metric, dim, examples, i),
    decreases n - i,
{
    if i < n {
        lemma_resolved_error(m, metric, dim, examples, i, n - 1);
    }
}

/// A column sum of `n` components lies between `-128 * n` and `127 * n`.
pub proof fn lemma_column_sum_bound(vs: Seq<Seq<i8>>, c: int, n: int)
    requires
        0 <= n <= vs.len(),
    ensures
        -128 * n <= column_sum(vs, c, n) <= 127 * n,
    decreases n,
{
    if n > 0 {
        lemma_column_sum_bound(vs, c, n - 1);
    }
}

/// The mean of components is a component.
pub proof fn lemma_mean_bound(vs: Seq<Seq<i8>>, c: int)
    requires
        vs.len() > 0,
    ensures
        -128 <= mean(vs, c) <= 127,
{
    let n = vs.len() as int;
    let sum = column_sum(vs, c, n);
    lemma_column_sum_bound(vs, c, n);
    if sum >= 0 {
        vstd::arithmetic::div_mod::lemma_div_is_ordered(sum, n * 127, n);
        vstd::arithmetic::div_mod::lemma_div_multiples_vanish(127, n);
        vstd::arithmetic::div_mod::lemma_div_is_ordered(0, sum, n);
        vstd::arithmetic::div_mod::lemma_div_basics(n);
    } else {
        vstd::arithmetic::div_mod::lemma_div_is_ordered(-sum, n * 128, n);
        vstd::arithmetic::div_mod::lemma_div_multiples_vanish(128, n);
        vstd::arithmetic::div_mod::lemma_div_is_ordered(0, -sum, n);
        vstd::arithmetic::div_mod::lemma_div_basics(n);
    }
}

/// The mean of one vector is that vector.
pub proof fn lemma_mean_of_one(v: Seq<i8>, c: int)
    ensures
        mean(seq![v], c) == v[c],
{
    let vs = seq![v];
    assert(column_sum(vs, c, 1) == column_sum(vs, c, 0) + vs[0][c]);
    vstd::arithmetic::div_mod::lemma_div_basics(v[c] as int);
    vstd::arithmetic::div_mod::lemma_div_basics(-(v[c] as int));
}

/// The ids that a list of examples names.
pub fn references(examples: &Vec<Example>, out: &mut Vec<u64>)
    ensures
        final(out)@ == old(out)@ + reference_ids(examples@, examples@.len() as int),
{
    let mut i: usize = 0;
    while i < examples.len()
        invariant
            i <= examples@.len(),
            out@ == old(out)@ + reference_ids(examples@, i as int),
        decreases examples@.len() - i,
    {
        match &examples[i] {
            Example::Id(id) => {
                out.push(*id);
            },
            Example::Vector(_) => {},
        }
        i = i + 1;
    }
}

/// Computes the mean of component `c`, rounded toward zero.
pub fn mean_of(vs: &Vec<Vec<i8>>, c: usize) -> (r: i64)
    requires
        vs@.len() > 0,
        forall|i: int| 0 <= i < vs@.len() ==> c < (#[trigger] vs@[i])@.len(),
    ensures
        r == mean(views(vs@), c as int),
        -128 <= r <= 127,
{
    let ghost ms = views(vs@);
    let mut sum: i128 = 0;
    let mut i: usize = 0;
    while i < vs.len()
        invariant
            i <= vs@.len(),
            ms == views(vs@),
            forall|j: int| 0 <= j < vs@.len() ==> c < (#[trigger] vs@[j])@.len(),
            sum == column_sum(ms, c as int, i as int),
            -128 * i <= sum <= 127 * i,
        decreases vs@.len() - i,
    {
        assert(ms[i as int] == vs@[i as int]@);
        sum = sum + vs[i][c] as i128;
        i = i + 1;
    }
    proof {
        lemma_mean_bound(ms, c as int);
    }
    let n: u128 = vs.len() as u128;
    if sum >= 0 {
        let q: u128 = (sum as u128) / n;
        q as i64
    } else {
        let q: u128 = ((-sum) as u128) / n;
        -(q as i64)
    }
}

/// Builds the query for the given positive and negative vectors.
pub fn synthesize(pos: &Vec<Vec<i8>>, neg: &Vec<Vec<i8>>, dim: usize) -> (r: Vec<i8>)
    requires
        pos@.len() > 0,
        forall|i: int| 0 <= i < pos@.len() ==> (#[trigger] pos@[i])@.len() == dim,
        forall|i: int| 0 <= i < neg@.len() ==> (#[trigger] neg@[i])@.len() == dim,
    ensures
        r@ == target(views(pos@), views(neg@), dim as nat),
{
    let mut out: Vec<i8> = Vec::new();
    let mut c: usize = 0;
    while c < dim
        invariant
            c <= dim,
            pos@.len() > 0,
            forall|i: int| 0 <= i < pos@.len() ==> (#[trigger] pos@[i])@.len() == dim,
            forall|i: int| 0 <= i < neg@.len() ==> (#[trigger] neg@[i])@.len() == dim,
            out@.len() == c,
            forall|j: int|
                0 <= j < c ==> out@[j] == target_component(views(pos@), views(neg@), j) as i8,
        decreases dim - c,
    {
        let p: i64 = mean_of(pos, c);
        let x: i64 = if neg.len() == 0 {
            p
        } else {
            2 * p - mean_of(neg, c)
        };
        let y: i64 = if x < -128 {
            -128
        } else if x > 127 {
            127
        } else {
            x
        };
        assert(views(neg@).len() == neg@.len());
        out.push(y as i8);
        c = c + 1;
    }
    assert(out@ =~= target(views(pos@), views(neg@), dim as nat));
    out
}

impl Collection {
    /// The vectors that a list of examples stands for.
    pub fn resolve_all(&self, examples: &Vec<Example>) -> (r: Result<Vec<Vec<i8>>, EngineError>)
        requires
            self.wf(),
        ensures
            match r {
                Ok(vs) => {
                    &&& resolved(
                        self@,
                        self.config.metric,
                        self.config.dim,
                        examples@,
                        examples@.len() as int,
                    ) == Ok::<Seq<Seq<i8>>, EngineError>(views(vs@))
                    &&& vs@.len() == examples@.len()
                    &&& forall|i: int|
                        0 <= i < vs@.len() ==> (#[trigger] vs@[i])@.len() == self.config.dim
                },
                Err(e) => resolved(
                    self@,
                    self.config.metric,
                    self.config.dim,
                    examples@,
                    examples@.len() as int,
                ) == Err::<Seq<Seq<i8>>, EngineError>(e),
            },
    {
        let mut out: Vec<Vec<i8>> = Vec::new();
        let mut i: usize = 0;
        assert(views(out@) =~= Seq::<Seq<i8>>::empty());
        while i < examples.len()
            invariant
                self.wf(),
                i <= examples@.len(),
                out@.len() == i,
                resolved(self@, self.config.metric, self.config.dim, examples@, i as int) == Ok::<
                    Seq<Seq<i8>>,
                    EngineError,
                >(views(out@)),
                forall|j: int| 0 <= j < out@.len() ==> (#[trigger] out@[j])@.len() == self.config.dim,
            decreases examples@.len() - i,
        {
            let ghost before = out@;
            match &examples[i] {
                Example::Id(id) => {
                    match self.get_point(*id) {
                        Ok(record) => {
                            proof {
                                self.lemma_stored_vector(*id);
                            }
                            out.push(record.vector);
                        },
                        Err(_) => {
                            proof {
                                lemma_resolved_error(
                                    self@,
                                    self.config.metric,
                                    self.config.dim,
                                    examples@,
                                    i + 1,
                                    examples@.len() as int,
                                );
                            }
                            return Err(EngineError::UnknownPoint);
                        },
                    }
                },
                Example::Vector(v) => {
                    if !check_vector(self.config.metric, self.config.dim, v) {
                        proof {
                            lemma_resolved_error(
                                self@,
                                self.config.metric,
                                self.config.dim,
                                examples@,
                                i + 1,
                                examples@.len() as int,
                            );
                        }
                        return Err(EngineError::BadVector);
                    }
                    let copy = v.clone();
                    assert(copy@ =~= v@);
                    out.push(copy);
                },
            }
            assert(views(out@) =~= views(before).push(out@[i as int]@));
            i = i + 1;
        }
        Ok(out)
    }

    /// Recommends the `top_k` points most similar to a query built from
    /// examples: the mean of the positive ones, moved away from the mean of
    /// the negative ones. The points that the examples name are never
    /// reported.
    ///
    /// At least one positive example is needed, the filter must be well
    /// formed, every example must name a live point or carry a vector the
    /// collection accepts, and so must the query that results; the first of
    /// these that fails, in this order and in the order of the examples,
    /// positive before negative, gives the error.
    pub fn recommend(
        &self,
        positive: &Vec<Example>,
        negative: &Vec<Example>,
        filter: &Filter,
        top_k: usize,
        params: &SearchParams,
    ) -> (r: Result<Vec<ScoredPoint>, EngineError>)
        requires
            self.wf(),
        ensures
            match r {
                Err(e) => recommendation(
                    self@,
                    self.config.metric,
                    self.config.dim,
                    positive@,
                    negative@,
                    *filter,
                ) == Err::<(Seq<i8>, Seq<u64>), EngineError>(e),
                Ok(list) => {
                    &&& recommendation(
                        self@,
                        self.config.metric,
                        self.config.dim,
                        positive@,
                        negative@,
                        *filter,
                    ) matches Ok(plan)
                    &&& list@.len() <= top_k
                    &&& sound(list@, self@, self.config.metric, plan.0, *filter, plan.1)
                    &&& params.exact || self.exhaustive(*filter, *params) ==> complete(
                        list@,
                        top_k as int,
                        self@,
                        self.config.metric,
                        plan.0,
                        *filter,
                        plan.1,
                    )
                    &&& tops(
                        list@,
                        top_k as int,
                        self@,
                        self.config.metric,
                        plan.0,
                        *filter,
                        plan.1,
                        self.examined(plan.0, *filter, *params),
                    )
                },
            },
    {
        if positive.len() == 0 {
            return Err(EngineError::BadRequest);
        }
        if !filter.validate() {
            return Err(EngineError::BadFilter);
        }
        let pos = match self.resolve_all(positive) {
            Ok(vs) => vs,
            Err(e) => {
                return Err(e);
            },
        };
        let neg = match self.resolve_all(negative) {
            Ok(vs) => vs,
            Err(e) => {
                return Err(e);
            },
        };
        let query = synthesize(&pos, &neg, self.config.dim);
        if !check_vector(self.config.metric, self.config.dim, &query) {
            return Err(EngineError::BadVector);
        }
        let mut excluded: Vec<u64> = Vec::new();
        references(positive, &mut excluded);
        references(negative, &mut excluded);
        Ok(self.gather(&query, filter, &excluded, top_k, params))
    }
}

} // verus!
