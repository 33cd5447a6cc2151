//! Laws that relate the operations of the engine to one another.
//!
//! Each law is stated over the model of [`crate::model`], in the terms the
//! operations' own contracts use, so that it holds of every collection.

use vstd::prelude::*;
use crate::collection::Collection;
use crate::filter::{filter_holds, filter_ok, Filter};
use crate::metric::{
    dist_sq, dist_sq_upto, dot, dot_upto, lemma_dist_sq_bound, lemma_dot_bound, lemma_norm_sq_nonneg,
    lemma_product_bound, lemma_score_wf, norm_sq, score_lt, score_of, score_same, signed_square,
    Distance, Score, MAX_DIM,
};
use crate::model::{
    admits, apply_delete, apply_upsert, delete_ack, deleted, in_page, is_live, is_top_k, scored,
    sound, tops, upsert_ack, upsert_applies, upserted, PointModel, PointState, Points,
    UpdateStatus,
};
use crate::payload::FieldModel;
use crate::ranking::{
    lacks_id, lemma_outranks_asymmetric, lemma_outranks_total, outranks, ScoredPoint,
};
use crate::recommend::{
    lemma_mean_of_one, recommendation, reference_ids, resolved, target, Example,
};
use crate::scroll::{ascending, is_page};
use crate::segment::{entry_id, log_ok, replayed, routed};

verus! {

/// A point that an upsert has applied keeps the state it was given while
/// the rest of the batch is applied.
pub proof fn lemma_upsert_sticks(
    m: Points,
    refused: Set<u64>,
    version: u64,
    batch: Seq<PointModel>,
    i: int,
    n: int,
)
    requires
        0 <= i < n <= batch.len(),
        upsert_ack(m, refused, version, batch, i) == UpdateStatus::Applied,
    ensures
        upserted(m, refused, version, batch, n).contains_key(batch[i].id),
        upserted(m, refused, version, batch, n)[batch[i].id] == (PointState {
            version,
            live: true,
            vector: batch[i].vector,
            payload: batch[i].payload,
        }),
    decreases n,
{
    if n > i + 1 {
        lemma_upsert_sticks(m, refused, version, batch, i, n - 1);
    }
}

/// Upsert, then retrieve: a point that an upsert acknowledged as applied is
/// live afterwards, with exactly the vector and the payload that were
/// handed in, whatever else the batch held.
pub proof fn law_upsert_then_retrieve(
    m: Points,
    refused: Set<u64>,
    version: u64,
    batch: Seq<PointModel>,
    i: int,
)
    requires
        0 <= i < batch.len(),
        upsert_ack(m, refused, version, batch, i) == UpdateStatus::Applied,
    ensures
        ({
            let after = upserted(m, refused, version, batch, batch.len() as int);
            &&& is_live(after, batch[i].id)
            &&& after[batch[i].id].version == version
            &&& after[batch[i].id].vector == batch[i].vector
            &&& after[batch[i].id].payload == batch[i].payload
        }),
{
    lemma_upsert_sticks(m, refused, version, batch, i, batch.len() as int);
}

/// An id that is not live stays so while further ids are deleted.
pub proof fn lemma_delete_sticks(
    m: Points,
    refused: Set<u64>,
    version: u64,
    ids: Seq<u64>,
    id: u64,
    i: int,
    n: int,
)
    requires
        0 <= i <= n <= ids.len(),
        !is_live(deleted(m, refused, version, ids, i), id),
    ensures
        !is_live(deleted(m, refused, version, ids, n), id),
    decreases n,
{
    if n > i {
        lemma_delete_sticks(m, refused, version, ids, id, i, n - 1);
    }
}

/// Delete, then look: an id whose delete was acknowledged as applied, or as
/// missing, is not live afterwards. A lookup of it finds nothing, no search
/// or recommendation ranks it, and no page lists it.
pub proof fn law_deleted_is_gone(
    m: Points,
    refused: Set<u64>,
    version: u64,
    ids: Seq<u64>,
    i: int,
    ranking: Seq<ScoredPoint>,
    metric: Distance,
    query: Seq<i8>,
    filter: Filter,
    excluded: Seq<u64>,
    page: Seq<u64>,
    cursor: Option<u64>,
    limit: int,
    next: Option<u64>,
)
    requires
        0 <= i < ids.len(),
        delete_ack(m, refused, version, ids, i) == UpdateStatus::Applied || delete_ack(
            m,
            refused,
            version,
            ids,
            i,
        ) == UpdateStatus::Missing,
        sound(
            ranking,
            deleted(m, refused, version, ids, ids.len() as int),
            metric,
            query,
            filter,
            excluded,
        ),
        is_page(
            deleted(m, refused, version, ids, ids.len() as int),
            filter,
            cursor,
            limit,
            page,
            next,
        ),
    ensures
        !is_live(deleted(m, refused, version, ids, ids.len() as int), ids[i]),
        lacks_id(ranking, ids[i]),
        !page.contains(ids[i]),
{
    let after = deleted(m, refused, version, ids, ids.len() as int);
    assert(!is_live(deleted(m, refused, version, ids, i + 1), ids[i]));
    lemma_delete_sticks(m, refused, version, ids, ids[i], i + 1, ids.len() as int);
    assert forall|j: int| 0 <= j < ranking.len() implies (#[trigger] ranking[j]).id != ids[i] by {
        assert(admits(after, filter, excluded, ranking[j].id));
    }
    if page.contains(ids[i]) {
        let j = choose|j: int| 0 <= j < page.len() && page[j] == ids[i];
        assert(in_page(after, filter, cursor, page[j]));
    }
}

/// Two upserts of one id, whichever arrives first, leave the point in the
/// state of the one with the higher version, provided that version is newer
/// than what was recorded before.
pub proof fn law_later_version_wins(
    m: Points,
    id: u64,
    v1: u64,
    vector1: Seq<i8>,
    payload1: Seq<FieldModel>,
    v2: u64,
    vector2: Seq<i8>,
    payload2: Seq<FieldModel>,
)
    requires
        v1 < v2,
        upsert_applies(m, v2, id),
    ensures
        apply_upsert(apply_upsert(m, v1, id, vector1, payload1), v2, id, vector2, payload2)
            == apply_upsert(apply_upsert(m, v2, id, vector2, payload2), v1, id, vector1, payload1),
        apply_upsert(apply_upsert(m, v1, id, vector1, payload1), v2, id, vector2, payload2)[id] == (
        PointState { version: v2, live: true, vector: vector2, payload: payload2 }),
{
    assert(apply_upsert(apply_upsert(m, v1, id, vector1, payload1), v2, id, vector2, payload2)
        =~= apply_upsert(apply_upsert(m, v2, id, vector2, payload2), v1, id, vector1, payload1));
}

/// Two upserts of different ids, whichever arrives first, give the same
/// points, and neither undoes the other.
pub proof fn law_disjoint_upserts_commute(
    m: Points,
    id1: u64,
    v1: u64,
    vector1: Seq<i8>,
    payload1: Seq<FieldModel>,
    id2: u64,
    v2: u64,
    vector2: Seq<i8>,
    payload2: Seq<FieldModel>,
)
    requires
        id1 != id2,
    ensures
        apply_upsert(apply_upsert(m, v1, id1, vector1, payload1), v2, id2, vector2, payload2)
            == apply_upsert(apply_upsert(m, v2, id2, vector2, payload2), v1, id1, vector1, payload1),
        ({
            let after = apply_upsert(
                apply_upsert(m, v1, id1, vector1, payload1),
                v2,
                id2,
                vector2,
                payload2,
            );
            &&& upsert_applies(m, v1, id1) ==> after[id1] == (PointState {
                version: v1,
                live: true,
                vector: vector1,
                payload: payload1,
            })
            &&& upsert_applies(m, v2, id2) ==> after[id2] == (PointState {
                version: v2,
                live: true,
                vector: vector2,
                payload: payload2,
            })
        }),
{
    assert(apply_upsert(apply_upsert(m, v1, id1, vector1, payload1), v2, id2, vector2, payload2)
        =~= apply_upsert(apply_upsert(m, v2, id2, vector2, payload2), v1, id1, vector1, payload1));
}

/// Two top-k rankings for one query agree at position `i`.
pub proof fn lemma_top_k_agree(
    r1: Seq<ScoredPoint>,
    r2: Seq<ScoredPoint>,
    k: int,
    m: Points,
    metric: Distance,
    query: Seq<i8>,
    filter: Filter,
    excluded: Seq<u64>,
    i: int,
)
    requires
        is_top_k(r1, k, m, metric, query, filter, excluded),
        is_top_k(r2, k, m, metric, query, filter, excluded),
        0 <= i < r1.len(),
        i < r2.len(),
    ensures
        r1[i] == r2[i],
    decreases i,
{
    assert forall|j: int| 0 <= j < i implies r1[j] == r2[j] by {
        lemma_top_k_agree(r1, r2, k, m, metric, query, filter, excluded, j);
    }
    let a = r1[i];
    let b = r2[i];
    if a != b {
        assert(admits(m, filter, excluded, a.id) && a == scored(m, metric, query, a.id));
        assert(admits(m, filter, excluded, b.id) && b == scored(m, metric, query, b.id));
        lemma_outranks_total(a, b);
        lemma_outranks_asymmetric(a, b);
        if outranks(a, b) {
            lemma_misplaced(r1, r2, k, i, a);
        } else {
            lemma_misplaced(r2, r1, k, i, b);
        }
    }
}

/// A point that stands at position `i` of one ranking and comes before
/// what another ranking, equal to the first up to there, has at `i`, is
/// not accounted for by that other ranking.
pub proof fn lemma_misplaced(
    r1: Seq<ScoredPoint>,
    r2: Seq<ScoredPoint>,
    k: int,
    i: int,
    a: ScoredPoint,
)
    requires
        crate::ranking::ranked(r1),
        crate::ranking::ranked(r2),
        0 <= i < r1.len(),
        i < r2.len(),
        a == r1[i],
        outranks(a, r2[i]),
        forall|j: int| 0 <= j < i ==> r1[j] == r2[j],
    ensures
        !crate::ranking::covers(r2, k, a),
{
    lemma_outranks_asymmetric(a, r2[i]);
    if r2.contains(a) {
        let j = choose|j: int| 0 <= j < r2.len() && r2[j] == a;
        if j < i {
            assert(outranks(r1[j], r1[i]));
            lemma_outranks_asymmetric(a, a);
        } else if j > i {
            assert(outranks(r2[i], r2[j]));
        }
    }
}

/// The top-k ranking of a query is unique: two rankings that are both
/// sound and complete for it are the same ranking.
pub proof fn law_top_k_unique(
    r1: Seq<ScoredPoint>,
    r2: Seq<ScoredPoint>,
    k: int,
    m: Points,
    metric: Distance,
    query: Seq<i8>,
    filter: Filter,
    excluded: Seq<u64>,
)
    requires
        is_top_k(r1, k, m, metric, query, filter, excluded),
        is_top_k(r2, k, m, metric, query, filter, excluded),
    ensures
        r1 == r2,
{
    assert forall|i: int| 0 <= i < r1.len() && i < r2.len() implies r1[i] == r2[i] by {
        lemma_top_k_agree(r1, r2, k, m, metric, query, filter, excluded, i);
    }
    if r1.len() > r2.len() {
        lemma_longer(r1, r2, k, m, metric, query, filter, excluded);
    } else if r2.len() > r1.len() {
        lemma_longer(r2, r1, k, m, metric, query, filter, excluded);
    }
    assert(r1 =~= r2);
}

/// Of two top-k rankings that agree where both have an entry, neither is
/// longer than the other.
pub proof fn lemma_longer(
    long: Seq<ScoredPoint>,
    short: Seq<ScoredPoint>,
    k: int,
    m: Points,
    metric: Distance,
    query: Seq<i8>,
    filter: Filter,
    excluded: Seq<u64>,
)
    requires
        is_top_k(long, k, m, metric, query, filter, excluded),
        is_top_k(short, k, m, metric, query, filter, excluded),
        forall|i: int| 0 <= i < long.len() && i < short.len() ==> long[i] == short[i],
    ensures
        long.len() <= short.len(),
{
    if long.len() > short.len() {
        let n = short.len() as int;
        let a = long[n];
        assert(admits(m, filter, excluded, a.id) && a == scored(m, metric, query, a.id));
        assert(crate::ranking::covers(short, k, a));
        if short.contains(a) {
            let j = choose|j: int| 0 <= j < short.len() && short[j] == a;
            assert(outranks(long[j], long[n]));
            lemma_outranks_asymmetric(a, a);
        }
    }
}

/// A recommendation from one stored point and no negative example searches
/// for that point's own vector and leaves out that point alone: its
/// ranking is the one a search for the vector gives once the point itself
/// is excluded.
pub proof fn law_recommend_like_search(c: Collection, p: u64, filter: Filter)
    requires
        c.wf(),
        is_live(c@, p),
        filter_ok(filter),
    ensures
        recommendation(
            c@,
            c.config.metric,
            c.config.dim,
            seq![Example::Id(p)],
            Seq::<Example>::empty(),
            filter,
        ) == Ok::<(Seq<i8>, Seq<u64>), crate::error::EngineError>((c@[p].vector, seq![p])),
{
    let m = c@;
    let metric = c.config.metric;
    let dim = c.config.dim;
    let v = m[p].vector;
    let positive = seq![Example::Id(p)];
    let negative = Seq::<Example>::empty();
    c.lemma_stored_vector(p);
    assert(resolved(m, metric, dim, positive, 0) == Ok::<Seq<Seq<i8>>, crate::error::EngineError>(
        Seq::empty(),
    ));
    assert(Seq::<Seq<i8>>::empty().push(v) =~= seq![v]);
    assert(resolved(m, metric, dim, positive, 1) == Ok::<Seq<Seq<i8>>, crate::error::EngineError>(
        seq![v],
    ));
    assert(resolved(m, metric, dim, negative, 0) == Ok::<Seq<Seq<i8>>, crate::error::EngineError>(
        Seq::empty(),
    ));
    let q = target(seq![v], Seq::<Seq<i8>>::empty(), dim as nat);
    assert forall|j: int| 0 <= j < dim implies q[j] == v[j] by {
        lemma_mean_of_one(v, j);
    }
    assert(q =~= v);
    assert(reference_ids(positive, 0) == Seq::<u64>::empty());
    assert(reference_ids(positive, 1) =~= seq![p]);
    assert(reference_ids(positive, 1) + reference_ids(negative, 0) =~= seq![p]);
}

/// The step of the Cauchy-Schwarz induction: one more component on each
/// side keeps the squared dot product within the product of the norms.
pub proof fn lemma_cauchy_schwarz_step(aa: int, qq: int, d: int, x: int, y: int)
    requires
        aa >= 0,
        qq >= 0,
        d * d <= aa * qq,
    ensures
        (d + x * y) * (d + x * y) <= (aa + x * x) * (qq + y * y),
{
    let u = aa * (y * y);
    let v = qq * (x * x);
    let w = 2 * d * (x * y);
    let t = (x * x) * (y * y);
    assert(t >= 0) by (nonlinear_arith)
        requires
            t == (x * x) * (y * y),
    ;
    assert(w * w == 4 * ((d * d) * t)) by (nonlinear_arith)
        requires
            w == 2 * d * (x * y),
            t == (x * x) * (y * y),
    ;
    assert((d * d) * t <= (aa * qq) * t) by (nonlinear_arith)
        requires
            d * d <= aa * qq,
            t >= 0,
    ;
    assert(4 * (u * v) == 4 * ((aa * qq) * t)) by (nonlinear_arith)
        requires
            u == aa * (y * y),
            v == qq * (x * x),
            t == (x * x) * (y * y),
    ;
    assert((u + v) * (u + v) >= 4 * (u * v)) by (nonlinear_arith);
    assert(u >= 0 && v >= 0) by (nonlinear_arith)
        requires
            u == aa * (y * y),
            v == qq * (x * x),
            aa >= 0,
            qq >= 0,
    ;
    assert(w <= u + v) by (nonlinear_arith)
        requires
            w * w <= (u + v) * (u + v),
            u + v >= 0,
    ;
    assert((d + x * y) * (d + x * y) == d * d + w + t) by (nonlinear_arith)
        requires
            w == 2 * d * (x * y),
            t == (x * x) * (y * y),
    ;
    assert((aa + x * x) * (qq + y * y) == aa * qq + u + v + t) by (nonlinear_arith)
        requires
            u == aa * (y * y),
            v == qq * (x * x),
            t == (x * x) * (y * y),
    ;
}

/// Cauchy-Schwarz: the squared dot product of two vectors is at most the
/// product of their squared norms.
pub proof fn lemma_cauchy_schwarz(a: Seq<i8>, q: Seq<i8>, n: int)
    requires
        0 <= n <= a.len(),
        n <= q.len(),
    ensures
        dot_upto(a, q, n) * dot_upto(a, q, n) <= dot_upto(a, a, n) * dot_upto(q, q, n),
    decreases n,
{
    if n > 0 {
        lemma_cauchy_schwarz(a, q, n - 1);
        lemma_norm_sq_nonneg(a, n - 1);
        lemma_norm_sq_nonneg(q, n - 1);
        lemma_cauchy_schwarz_step(
            dot_upto(a, a, n - 1),
            dot_upto(q, q, n - 1),
            dot_upto(a, q, n - 1),
            a[n - 1] as int,
            q[n - 1] as int,
        );
    }
}

/// Under the Euclidean and the cosine metric no vector is more similar to
/// `p` than `p` itself. The score of `p` against itself is zero under the
/// Euclidean metric and one under the cosine.
pub proof fn law_self_similarity_is_maximal(metric: Distance, p: Seq<i8>, a: Seq<i8>)
    requires
        metric != Distance::Dot,
        a.len() == p.len(),
        p.len() <= MAX_DIM,
        metric == Distance::Cosine ==> norm_sq(p) > 0,
    ensures
        !score_lt(score_of(metric, p, p), score_of(metric, a, p)),
        metric == Distance::Euclid ==> score_of(metric, p, p) == (Score { num: 0, den: 1 }),
        metric == Distance::Cosine ==> score_of(metric, p, p).num == score_of(metric, p, p).den,
{
    let n = p.len() as int;
    lemma_score_wf(metric, p, p);
    lemma_score_wf(metric, a, p);
    lemma_dot_bound(a, p, n);
    lemma_dot_bound(a, a, n);
    lemma_dot_bound(p, p, n);
    lemma_dist_sq_bound(a, p, n);
    lemma_dist_sq_bound(p, p, n);
    lemma_norm_sq_nonneg(a, n);
    lemma_norm_sq_nonneg(p, n);
    let own = score_of(metric, p, p);
    let other = score_of(metric, a, p);
    if metric == Distance::Euclid {
        lemma_dist_sq_self(p, n);
        assert(own.num == 0 && own.den == 1);
        assert(other.num == -dist_sq(a, p) && other.den == 1);
    } else {
        let np = norm_sq(p);
        let na = norm_sq(a);
        let d = dot(a, p);
        lemma_cauchy_schwarz(a, p, n);
        lemma_product_bound(d, d, 0x4000_0000, 0x4000_0000);
        lemma_product_bound(na, np, 0x4000_0000, 0x4000_0000);
        lemma_product_bound(np, np, 0x4000_0000, 0x4000_0000);
        assert(np * np > 0) by (nonlinear_arith)
            requires
                np > 0,
        ;
        assert(signed_square(np) == np * np);
        assert(d * d >= 0) by (nonlinear_arith);
        assert(own.num == np * np && own.den == np * np);
        if na > 0 {
            assert(na * np > 0) by (nonlinear_arith)
                requires
                    na > 0,
                    np > 0,
            ;
            assert(other.num == signed_square(d) && other.den == na * np);
            assert(signed_square(d) * (np * np) <= (np * np) * (na * np)) by (nonlinear_arith)
                requires
                    signed_square(d) <= d * d,
                    d * d <= na * np,
                    np * np > 0,
            ;
        } else {
            assert(other.num == 0 && other.den == 1);
            assert((np * np) * 1 >= 0 * (np * np)) by (nonlinear_arith)
                requires
                    np * np > 0,
            ;
        }
    }
}

/// A vector is at distance zero from itself.
pub proof fn lemma_dist_sq_self(p: Seq<i8>, n: int)
    requires
        0 <= n <= p.len(),
    ensures
        dist_sq_upto(p, p, n) == 0,
    decreases n,
{
    if n > 0 {
        lemma_dist_sq_self(p, n - 1);
    }
}

/// Search for a stored point's own vector, in exact mode, under the
/// Euclidean or the cosine metric: the top result carries the point's own
/// score, which no point exceeds, and is the point itself unless a point
/// with a smaller id scores the same.
pub proof fn law_search_finds_self(
    c: Collection,
    p: u64,
    filter: Filter,
    ranking: Seq<ScoredPoint>,
    k: int,
)
    requires
        c.wf(),
        c.config.metric != Distance::Dot,
        k >= 1,
        admits(c@, filter, Seq::<u64>::empty(), p),
        is_top_k(ranking, k, c@, c.config.metric, c@[p].vector, filter, Seq::<u64>::empty()),
    ensures
        ranking.len() >= 1,
        score_same(ranking[0].score, score_of(c.config.metric, c@[p].vector, c@[p].vector)),
        ranking[0].id <= p,
        (forall|id: u64|
            id < p && #[trigger] admits(c@, filter, Seq::<u64>::empty(), id) ==> !score_same(
                score_of(c.config.metric, c@[id].vector, c@[p].vector),
                score_of(c.config.metric, c@[p].vector, c@[p].vector),
            )) ==> ranking[0].id == p,
{
    let m = c@;
    let metric = c.config.metric;
    let v = m[p].vector;
    let own = scored(m, metric, v, p);
    let nobody = Seq::<u64>::empty();
    assert(crate::ranking::covers(ranking, k, own));
    if ranking.contains(own) {
        let j = choose|j: int| 0 <= j < ranking.len() && ranking[j] == own;
        if j > 0 {
            assert(outranks(ranking[0], ranking[j]));
        }
    }
    let top = ranking[0];
    assert(top == own || outranks(top, own));
    assert(admits(m, filter, nobody, top.id) && top == scored(m, metric, v, top.id));
    c.lemma_stored_vector(p);
    c.lemma_stored_vector(top.id);
    law_self_similarity_is_maximal(metric, v, m[top.id].vector);
}

/// The first `n` pages of a scroll, one after the other.
pub open spec fn joined(pages: Seq<Seq<u64>>, n: int) -> Seq<u64>
    decreases n,
{
    if n <= 0 {
        Seq::empty()
    } else {
        joined(pages, n - 1) + pages[n - 1]
    }
}

/// `pages` is a complete scroll: the first page was asked for without a
/// cursor, each further page with the cursor its predecessor returned, and
/// the last page returned none.
pub open spec fn scrolled(
    m: Points,
    filter: Filter,
    limit: int,
    pages: Seq<Seq<u64>>,
    cursors: Seq<Option<u64>>,
) -> bool {
    &&& pages.len() >= 1
    &&& cursors.len() == pages.len() + 1
    &&& cursors[0] is None
    &&& cursors[pages.len() as int] is None
    &&& forall|i: int| 0 < i < pages.len() ==> (#[trigger] cursors[i]) is Some
    &&& forall|i: int|
        0 <= i < pages.len() ==> is_page(m, filter, cursors[i], limit, #[trigger] pages[i], cursors[i + 1])
}

/// `id` is due on one of the pages up to the cursor `upto`.
pub open spec fn due_by(m: Points, filter: Filter, upto: Option<u64>, id: u64) -> bool {
    &&& in_page(m, filter, None, id)
    &&& upto matches Some(c) ==> id <= c
}

/// What the first `n` pages of a complete scroll hold: in ascending order,
/// exactly the points due up to the cursor that page `n` returned.
pub proof fn lemma_scroll_prefix(
    m: Points,
    filter: Filter,
    limit: int,
    pages: Seq<Seq<u64>>,
    cursors: Seq<Option<u64>>,
    n: int,
)
    requires
        limit >= 1,
        scrolled(m, filter, limit, pages, cursors),
        1 <= n <= pages.len(),
    ensures
        ascending(joined(pages, n)),
        forall|id: u64|
            joined(pages, n).contains(id) <==> #[trigger] due_by(m, filter, cursors[n], id),
        cursors[n] matches Some(c) ==> joined(pages, n).len() > 0 && joined(pages, n).last() == c,
    decreases n,
{
    let page = pages[n - 1];
    let from = cursors[n - 1];
    let next = cursors[n];
    let acc = joined(pages, n - 1);
    let all = joined(pages, n);
    assert(is_page(m, filter, from, limit, page, next));
    assert forall|j: int| 0 <= j < page.len() implies (next matches Some(c) ==> #[trigger] page[j]
        <= c) by {
        if next is Some && j < limit - 1 {
            assert(page[j] < page[limit - 1]);
        }
    }
    if n == 1 {
        assert(acc =~= Seq::<u64>::empty());
        assert(all =~= page);
        assert forall|id: u64| all.contains(id) <==> #[trigger] due_by(m, filter, next, id) by {
            if all.contains(id) {
                let j = choose|j: int| 0 <= j < page.len() && page[j] == id;
                assert(in_page(m, filter, from, page[j]));
            }
            if due_by(m, filter, next, id) {
                assert(in_page(m, filter, from, id));
            }
        }
    } else {
        lemma_scroll_prefix(m, filter, limit, pages, cursors, n - 1);
        let c = from->Some_0;
        assert forall|j: int| 0 <= j < acc.len() implies acc[j] <= c by {
            assert(acc.contains(acc[j]));
            assert(due_by(m, filter, from, acc[j]));
        }
        assert forall|j: int| 0 <= j < page.len() implies c < page[j] by {
            assert(in_page(m, filter, from, page[j]));
        }
        assert forall|i: int, j: int| 0 <= i < j < all.len() implies all[i] < all[j] by {
            if j < acc.len() {
                assert(all[i] == acc[i] && all[j] == acc[j]);
            } else if i >= acc.len() {
                assert(all[i] == page[i - acc.len()] && all[j] == page[j - acc.len()]);
            } else {
                assert(all[i] == acc[i] && all[j] == page[j - acc.len()]);
            }
        }
        assert forall|id: u64| all.contains(id) <==> #[trigger] due_by(m, filter, next, id) by {
            if all.contains(id) {
                let j = choose|j: int| 0 <= j < all.len() && all[j] == id;
                if j < acc.len() {
                    assert(acc.contains(acc[j]));
                    assert(due_by(m, filter, from, acc[j]));
                    if next is Some {
                        assert(c < page[limit - 1]);
                    }
                } else {
                    assert(in_page(m, filter, from, page[j - acc.len()]));
                }
            }
            if due_by(m, filter, next, id) {
                if id <= c {
                    assert(due_by(m, filter, from, id));
                    let j = choose|j: int| 0 <= j < acc.len() && acc[j] == id;
                    assert(all[j] == id);
                } else {
                    assert(in_page(m, filter, from, id));
                    let j = choose|j: int| 0 <= j < page.len() && page[j] == id;
                    assert(all[acc.len() + j] == id);
                }
            }
        }
        if next is Some {
            assert(all[all.len() - 1] == page[page.len() - 1]);
        }
    }
}

/// Scrolling a collection that does not change, page after page with each
/// returned cursor until none is returned, yields every live point that
/// satisfies the filter exactly once, in ascending order of id.
pub proof fn law_scroll_visits_all(
    m: Points,
    filter: Filter,
    limit: int,
    pages: Seq<Seq<u64>>,
    cursors: Seq<Option<u64>>,
)
    requires
        limit >= 1,
        scrolled(m, filter, limit, pages, cursors),
    ensures
        ascending(joined(pages, pages.len() as int)),
        forall|id: u64| #[trigger]
            joined(pages, pages.len() as int).contains(id) <==> is_live(m, id) && filter_holds(
                filter,
                m[id].payload,
            ),
{
    lemma_scroll_prefix(m, filter, limit, pages, cursors, pages.len() as int);
    let all = joined(pages, pages.len() as int);
    assert forall|id: u64| #[trigger]
        all.contains(id) <==> is_live(m, id) && filter_holds(filter, m[id].payload) by {
        assert(all.contains(id) <==> due_by(m, filter, cursors[pages.len() as int], id));
    }
}

/// Restart: the logs of a collection can always be replayed into a
/// collection of the same shape, and replaying them gives every segment
/// the points it holds.
pub proof fn law_logs_restore(c: Collection)
    requires
        c.wf(),
    ensures
        Collection::restorable(c.config, c.route@, c.logs()),
        forall|s: int|
            0 <= s < c.segments@.len() ==> replayed((#[trigger] c.logs()[s])@) == c.segments@[s]@,
{
    let logs = c.logs();
    assert forall|s: int| 0 <= s < logs.len() implies log_ok(
        c.config.segment_config(),
        (#[trigger] logs[s])@,
    ) && routed(logs[s]@, s, c.route@) by {
        let segment = c.segments@[s];
        assert(segment.wf());
        assert forall|i: int| 0 <= i < logs[s]@.len() implies crate::segment::routed_to(
            c.route@,
            entry_id(#[trigger] logs[s]@[i]),
        ) == s by {
            c.lemma_segment_view(s, entry_id(segment.wal@[i]));
        }
    }
    assert forall|s: int| 0 <= s < c.segments@.len() implies replayed((#[trigger] c.logs()[s])@)
        == c.segments@[s]@ by {
        assert(c.segments@[s].wf());
    }
}

/// The position of the entry for `p` in `r`.
pub open spec fn position_of(r: Seq<ScoredPoint>, p: u64) -> int {
    choose|j: int| 0 <= j < r.len() && (#[trigger] r[j]).id == p
}

/// `r` without its entry for `p`, if it has one.
pub open spec fn without(r: Seq<ScoredPoint>, p: u64) -> Seq<ScoredPoint> {
    if lacks_id(r, p) {
        r
    } else {
        r.remove(position_of(r, p))
    }
}

/// The first `k` entries of `r`, or all of `r` if it has fewer.
pub open spec fn leading(r: Seq<ScoredPoint>, k: int) -> Seq<ScoredPoint> {
    if r.len() <= k {
        r
    } else {
        r.subrange(0, k)
    }
}

/// Removing the point `p` from the top `k + 1` of a query and keeping the
/// first `k` of what is left gives the top `k` of the query among the
/// points other than `p`.
pub proof fn lemma_top_k_without(
    searched: Seq<ScoredPoint>,
    k: int,
    m: Points,
    metric: Distance,
    query: Seq<i8>,
    filter: Filter,
    p: u64,
)
    requires
        k >= 0,
        is_top_k(searched, k + 1, m, metric, query, filter, Seq::<u64>::empty()),
    ensures
        is_top_k(leading(without(searched, p), k), k, m, metric, query, filter, seq![p]),
{
    let nobody = Seq::<u64>::empty();
    let only = seq![p];
    let s = searched;
    let r = leading(without(s, p), k);
    assert forall|id: u64| id != p implies !only.contains(id) by {
        if only.contains(id) {
            let w = choose|w: int| 0 <= w < only.len() && only[w] == id;
        }
    }
    assert(only[0] == p);
    assert(only.contains(p));
    crate::search::lemma_sound_unique(s, m, metric, query, filter, nobody);
    if lacks_id(s, p) {
        assert forall|i: int| 0 <= i < r.len() implies admits(m, filter, only, (#[trigger] r[i]).id)
            && r[i] == scored(m, metric, query, r[i].id) by {
            assert(r[i] == s[i]);
            assert(admits(m, filter, nobody, s[i].id));
        }
        assert forall|id: u64| #[trigger] admits(m, filter, only, id) implies crate::ranking::covers(
            r,
            k,
            scored(m, metric, query, id),
        ) by {
            let x = scored(m, metric, query, id);
            assert(admits(m, filter, nobody, id));
            assert(crate::ranking::covers(s, k + 1, x));
            if s.contains(x) {
                let i = choose|i: int| 0 <= i < s.len() && s[i] == x;
                if i < r.len() {
                    assert(r[i] == x);
                } else {
                    assert forall|j: int| 0 <= j < r.len() implies outranks(#[trigger] r[j], x) by {
                        assert(r[j] == s[j]);
                        assert(outranks(s[j], s[i]));
                    }
                }
            } else {
                assert forall|j: int| 0 <= j < r.len() implies outranks(#[trigger] r[j], x) by {
                    assert(r[j] == s[j]);
                }
            }
        }
    } else {
        let at = position_of(s, p);
        let w = s.remove(at);
        assert(r == w);
        assert forall|i: int| 0 <= i < w.len() implies #[trigger] w[i] == s[if i < at {
            i
        } else {
            i + 1
        }] by {}
        assert forall|i: int, j: int| 0 <= i < j < w.len() implies outranks(
            #[trigger] w[i],
            #[trigger] w[j],
        ) by {
            let i0 = if i < at { i } else { i + 1 };
            let j0 = if j < at { j } else { j + 1 };
            assert(outranks(s[i0], s[j0]));
        }
        assert forall|i: int| 0 <= i < w.len() implies admits(m, filter, only, (#[trigger] w[i]).id)
            && w[i] == scored(m, metric, query, w[i].id) by {
            let i0 = if i < at { i } else { i + 1 };
            assert(admits(m, filter, nobody, s[i0].id));
            if i0 < at {
                assert(s[i0].id != s[at].id);
            } else {
                assert(s[at].id != s[i0].id);
            }
        }
        assert forall|id: u64| #[trigger] admits(m, filter, only, id) implies crate::ranking::covers(
            w,
            k,
            scored(m, metric, query, id),
        ) by {
            let x = scored(m, metric, query, id);
            assert(admits(m, filter, nobody, id));
            assert(crate::ranking::covers(s, k + 1, x));
            assert(id != p);
            if s.contains(x) {
                let i = choose|i: int| 0 <= i < s.len() && s[i] == x;
                let i1 = if i < at { i } else { i - 1 };
                assert(w[i1] == x);
            } else {
                assert forall|j: int| 0 <= j < w.len() implies outranks(#[trigger] w[j], x) by {
                    let j0 = if j < at { j } else { j + 1 };
                    assert(outranks(s[j0], x));
                }
            }
        }
    }
}

/// Recommendation against search: where a search for the vector of the
/// stored point `p` gives the ranking `searched` of up to `k + 1` points,
/// a recommendation of up to `k` points from `p` alone, without negative
/// examples, gives that ranking with `p` itself taken out (both in exact
/// mode, with one filter).
pub proof fn law_recommend_is_search_without(
    c: Collection,
    p: u64,
    filter: Filter,
    k: int,
    searched: Seq<ScoredPoint>,
    recommended: Seq<ScoredPoint>,
)
    requires
        c.wf(),
        k >= 0,
        is_live(c@, p),
        filter_ok(filter),
        is_top_k(searched, k + 1, c@, c.config.metric, c@[p].vector, filter, Seq::<u64>::empty()),
        recommendation(
            c@,
            c.config.metric,
            c.config.dim,
            seq![Example::Id(p)],
            Seq::<Example>::empty(),
            filter,
        ) matches Ok(plan) && is_top_k(recommended, k, c@, c.config.metric, plan.0, filter, plan.1),
    ensures
        recommended == leading(without(searched, p), k),
{
    law_recommend_like_search(c, p, filter);
    lemma_top_k_without(searched, k, c@, c.config.metric, c@[p].vector, filter, p);
    law_top_k_unique(
        recommended,
        leading(without(searched, p), k),
        k,
        c@,
        c.config.metric,
        c@[p].vector,
        filter,
        seq![p],
    );
}

/// Optimization is invisible to queries: a pass changes no live point, so
/// a ranking is the top `k` of a query, and a page is the page after a
/// cursor, before the pass exactly if it is after it.
pub proof fn law_optimization_is_invisible(
    c: Collection,
    ranking: Seq<ScoredPoint>,
    k: int,
    query: Seq<i8>,
    filter: Filter,
    excluded: Seq<u64>,
    page: Seq<u64>,
    cursor: Option<u64>,
    limit: int,
    next: Option<u64>,
)
    requires
        c.wf(),
    ensures
        forall|id: u64| is_live(c@, id) <==> #[trigger] is_live(c.optimized(), id),
        forall|id: u64| is_live(c@, id) ==> #[trigger] c.optimized()[id] == c@[id],
        is_top_k(ranking, k, c@, c.config.metric, query, filter, excluded) <==> is_top_k(
            ranking,
            k,
            c.optimized(),
            c.config.metric,
            query,
            filter,
            excluded,
        ),
        is_page(c@, filter, cursor, limit, page, next) <==> is_page(
            c.optimized(),
            filter,
            cursor,
            limit,
            page,
            next,
        ),
{
    let m = c@;
    let o = c.optimized();
    let metric = c.config.metric;
    assert forall|id: u64| #![auto] admits(m, filter, excluded, id) <==> admits(o, filter, excluded, id) by {}
    assert forall|id: u64| #![auto]
        admits(m, filter, excluded, id) ==> scored(m, metric, query, id) == scored(
            o,
            metric,
            query,
            id,
        ) by {}
    assert forall|id: u64, from: Option<u64>| #![auto]
        in_page(m, filter, from, id) <==> in_page(o, filter, from, id) by {}
    if is_top_k(ranking, k, m, metric, query, filter, excluded) {
        assert forall|i: int| 0 <= i < ranking.len() implies admits(
            o,
            filter,
            excluded,
            (#[trigger] ranking[i]).id,
        ) && ranking[i] == scored(o, metric, query, ranking[i].id) by {
            assert(admits(m, filter, excluded, ranking[i].id));
        }
        assert forall|id: u64| #[trigger] admits(o, filter, excluded, id) implies crate::ranking::covers(
            ranking,
            k,
            scored(o, metric, query, id),
        ) by {
            assert(admits(m, filter, excluded, id));
        }
    }
    if is_top_k(ranking, k, o, metric, query, filter, excluded) {
        assert forall|i: int| 0 <= i < ranking.len() implies admits(
            m,
            filter,
            excluded,
            (#[trigger] ranking[i]).id,
        ) && ranking[i] == scored(m, metric, query, ranking[i].id) by {
            assert(admits(o, filter, excluded, ranking[i].id));
        }
        assert forall|id: u64| #[trigger] admits(m, filter, excluded, id) implies crate::ranking::covers(
            ranking,
            k,
            scored(m, metric, query, id),
        ) by {
            assert(admits(o, filter, excluded, id));
        }
    }
    if is_page(m, filter, cursor, limit, page, next) {
        lemma_page_moves(m, o, filter, cursor, limit, page, next);
    }
    if is_page(o, filter, cursor, limit, page, next) {
        lemma_page_moves(o, m, filter, cursor, limit, page, next);
    }
}

/// A page of one set of points is a page of any other that has the same
/// points due on every page.
pub proof fn lemma_page_moves(
    m: Points,
    o: Points,
    filter: Filter,
    cursor: Option<u64>,
    limit: int,
    page: Seq<u64>,
    next: Option<u64>,
)
    requires
        is_page(m, filter, cursor, limit, page, next),
        forall|id: u64, from: Option<u64>| #![auto]
            in_page(m, filter, from, id) <==> in_page(o, filter, from, id),
    ensures
        is_page(o, filter, cursor, limit, page, next),
{
    assert forall|i: int| 0 <= i < page.len() implies in_page(o, filter, cursor, #[trigger] page[i]) by {
        assert(in_page(m, filter, cursor, page[i]));
    }
    assert forall|id: u64| #[trigger] in_page(o, filter, cursor, id) implies page.contains(id) || (
    page.len() == limit && page[limit - 1] < id) by {
        assert(in_page(m, filter, cursor, id));
    }
    match next {
        Some(c) => {
            let id = choose|id: u64| in_page(m, filter, Some(c), id);
            assert(in_page(o, filter, Some(c), id));
        },
        None => {
            assert forall|id: u64| #[trigger] in_page(o, filter, cursor, id) implies page.contains(
                id,
            ) by {
                assert(in_page(m, filter, cursor, id));
            }
        },
    }
}

/// Search for a stored point's own vector in any mode, under the Euclidean
/// or the cosine metric: where the search has scored the point, the
/// ranking accounts for it and its top result carries the point's own
/// score, which no point exceeds. Which points a graph search scores
/// depends on the graph and on the budget; those it reports carry their
/// exact scores.
pub proof fn law_search_finds_scored_self(
    c: Collection,
    p: u64,
    filter: Filter,
    ranking: Seq<ScoredPoint>,
    k: int,
    reach: Set<u64>,
)
    requires
        c.wf(),
        c.config.metric != Distance::Dot,
        k >= 1,
        admits(c@, filter, Seq::<u64>::empty(), p),
        reach.contains(p),
        tops(ranking, k, c@, c.config.metric, c@[p].vector, filter, Seq::<u64>::empty(), reach),
    ensures
        crate::ranking::covers(ranking, k, scored(c@, c.config.metric, c@[p].vector, p)),
        ranking.len() >= 1,
        score_same(ranking[0].score, score_of(c.config.metric, c@[p].vector, c@[p].vector)),
        ranking[0].id <= p,
{
    let m = c@;
    let metric = c.config.metric;
    let v = m[p].vector;
    let own = scored(m, metric, v, p);
    let nobody = Seq::<u64>::empty();
    assert(crate::ranking::covers(ranking, k, own));
    if ranking.contains(own) {
        let j = choose|j: int| 0 <= j < ranking.len() && ranking[j] == own;
        if j > 0 {
            assert(outranks(ranking[0], ranking[j]));
        }
    }
    let top = ranking[0];
    assert(top == own || outranks(top, own));
    assert(admits(m, filter, nobody, top.id) && top == scored(m, metric, v, top.id));
    c.lemma_stored_vector(p);
    c.lemma_stored_vector(top.id);
    law_self_similarity_is_maximal(metric, v, m[top.id].vector);
}

} // verus!
