//! The ranking order on scored points and the bounded best-first buffer that
//! every top-k selection in the engine is built on.

use vstd::prelude::*;
use crate::metric::{score_lt, score_same, Score};

verus! {

/// A point id with its score against some query.
#[derive(Clone, Copy, Debug, PartialEq, Eq, Structural)]
pub struct ScoredPoint {
    pub id: u64,
    pub score: Score,
}

/// `a` comes before `b` in a ranking: a higher score, or the same score and
/// a smaller id.
pub open spec fn outranks(a: ScoredPoint, b: ScoredPoint) -> bool {
    score_lt(b.score, a.score) || (score_same(a.score, b.score) && a.id < b.id)
}

/// Every score in `s` is well formed.
pub open spec fn all_wf(s: Seq<ScoredPoint>) -> bool {
    forall|i: int| 0 <= i < s.len() ==> (#[trigger] s[i]).score.wf()
}

/// `s` is in ranking order, best first, without ties.
pub open spec fn ranked(s: Seq<ScoredPoint>) -> bool {
    forall|i: int, j: int| 0 <= i < j < s.len() ==> outranks(#[trigger] s[i], #[trigger] s[j])
}

/// No entry of `s` carries the id `id`.
pub open spec fn lacks_id(s: Seq<ScoredPoint>, id: u64) -> bool {
    forall|i: int| 0 <= i < s.len() ==> (#[trigger] s[i]).id != id
}

/// `r` holds `k` entries and each of them comes before `p`.
pub open spec fn beaten(r: Seq<ScoredPoint>, k: int, p: ScoredPoint) -> bool {
    &&& r.len() == k
    &&& forall|i: int| 0 <= i < r.len() ==> outranks(#[trigger] r[i], p)
}

/// `p` is accounted for by the bounded ranking `r`: it is listed, or `r` is
/// full of better entries.
pub open spec fn covers(r: Seq<ScoredPoint>, k: int, p: ScoredPoint) -> bool {
    r.contains(p) || beaten(r, k, p)
}

/// `s` with `x` put at position `p`, cut back to at most `k` entries.
pub open spec fn placed<T>(s: Seq<T>, k: int, p: int, x: T) -> Seq<T> {
    if s.len() < k {
        s.insert(p, x)
    } else {
        s.insert(p, x).subrange(0, k)
    }
}

/// The ranking order is transitive.
pub proof fn lemma_outranks_transitive(a: ScoredPoint, b: ScoredPoint, c: ScoredPoint)
    requires
        a.score.wf(),
        b.score.wf(),
        c.score.wf(),
        outranks(a, b),
        outranks(b, c),
    ensures
        outranks(a, c),
{
    let (an, ad) = (a.score.num as int, a.score.den as int);
    let (bn, bd) = (b.score.num as int, b.score.den as int);
    let (cn, cd) = (c.score.num as int, c.score.den as int);
    let x = an * bd - bn * ad;
    let y = bn * cd - cn * bd;
    let z = an * cd - cn * ad;
    assert(z * bd == x * cd + y * ad) by (nonlinear_arith)
        requires
            x == an * bd - bn * ad,
            y == bn * cd - cn * bd,
            z == an * cd - cn * ad,
    ;
    assert(z >= 0 && (z == 0 ==> x == 0 && y == 0)) by (nonlinear_arith)
        requires
            z * bd == x * cd + y * ad,
            x >= 0,
            y >= 0,
            ad > 0,
            bd > 0,
            cd > 0,
    ;
}

/// Two points with different ids are always ordered one way or the other.
pub proof fn lemma_outranks_total(a: ScoredPoint, b: ScoredPoint)
    requires
        a.id != b.id,
    ensures
        outranks(a, b) || outranks(b, a),
{
}

/// No two points outrank each other, and none outranks itself.
pub proof fn lemma_outranks_asymmetric(a: ScoredPoint, b: ScoredPoint)
    ensures
        !(outranks(a, b) && outranks(b, a)),
{
}

/// What [`offer`] guarantees of a buffer `fin` that grew out of `old`: it
/// is ranked and within capacity, it accounts for all that `old` held, and
/// no position has become worse.
pub open spec fn extends(old: Seq<ScoredPoint>, fin: Seq<ScoredPoint>, k: int) -> bool {
    &&& ranked(fin)
    &&& old.len() <= fin.len() <= k
    &&& forall|i: int| 0 <= i < old.len() ==> covers(fin, k, #[trigger] old[i])
    &&& forall|i: int|
        0 <= i < old.len() ==> (#[trigger] fin[i]) == old[i] || outranks(fin[i], old[i])
}

/// A point that a buffer accounted for is still accounted for after the
/// buffer has been extended.
pub proof fn lemma_covers_persists(old: Seq<ScoredPoint>, fin: Seq<ScoredPoint>, k: int, p: ScoredPoint)
    requires
        extends(old, fin, k),
        all_wf(old),
        all_wf(fin),
        p.score.wf(),
        covers(old, k, p),
    ensures
        covers(fin, k, p),
{
    if old.contains(p) {
        let i = choose|i: int| 0 <= i < old.len() && old[i] == p;
        assert(covers(fin, k, old[i]));
    } else {
        assert forall|i: int| 0 <= i < fin.len() implies outranks(#[trigger] fin[i], p) by {
            assert(outranks(old[i], p));
            if fin[i] != old[i] {
                lemma_outranks_transitive(fin[i], old[i], p);
            }
        }
    }
}

/// Extending a buffer twice extends it.
pub proof fn lemma_extends_transitive(
    a: Seq<ScoredPoint>,
    b: Seq<ScoredPoint>,
    c: Seq<ScoredPoint>,
    k: int,
)
    requires
        extends(a, b, k),
        extends(b, c, k),
        all_wf(a),
        all_wf(b),
        all_wf(c),
    ensures
        extends(a, c, k),
{
    assert forall|i: int| 0 <= i < a.len() implies covers(c, k, #[trigger] a[i]) by {
        lemma_covers_persists(b, c, k, a[i]);
    }
    assert forall|i: int| 0 <= i < a.len() implies (#[trigger] c[i]) == a[i] || outranks(
        c[i],
        a[i],
    ) by {
        if c[i] != b[i] && b[i] != a[i] {
            lemma_outranks_transitive(c[i], b[i], a[i]);
        }
    }
}

/// Decides the ranking order.
pub fn comes_before(a: &ScoredPoint, b: &ScoredPoint) -> (r: bool)
    requires
        a.score.wf(),
        b.score.wf(),
    ensures
        r == outranks(*a, *b),
{
    proof {
        crate::metric::lemma_product_bound(
            a.score.num as int,
            b.score.den as int,
            crate::metric::SCORE_LIMIT as int,
            crate::metric::SCORE_LIMIT as int,
        );
        crate::metric::lemma_product_bound(
            b.score.num as int,
            a.score.den as int,
            crate::metric::SCORE_LIMIT as int,
            crate::metric::SCORE_LIMIT as int,
        );
    }
    let l: i128 = a.score.num * b.score.den;
    let r: i128 = b.score.num * a.score.den;
    l > r || (l == r && a.id < b.id)
}

/// Offers `x` to the bounded ranking `buf` of capacity `k`: `x` is placed at
/// its rank, and the last entry leaves if the buffer would overflow.
///
/// Afterwards the buffer is again ranked, it accounts for `x` and for all it
/// held before, it holds nothing else, and no position has become worse.
/// The result is the position `x` was placed at, if it was placed.
pub fn offer(buf: &mut Vec<ScoredPoint>, k: usize, x: ScoredPoint) -> (at: Option<usize>)
    requires
        ranked(old(buf)@),
        all_wf(old(buf)@),
        old(buf).len() <= k,
        x.score.wf(),
        lacks_id(old(buf)@, x.id),
    ensures
        match at {
            Some(p) => p <= old(buf).len() && p < k && final(buf)@ == placed(old(buf)@, k as int, p as int, x),
            None => final(buf)@ == old(buf)@ && old(buf).len() == k,
        },
        extends(old(buf)@, final(buf)@, k as int),
        ranked(final(buf)@),
        all_wf(final(buf)@),
        final(buf).len() <= k,
        final(buf).len() >= old(buf).len(),
        old(buf).len() < k ==> final(buf).len() == old(buf).len() + 1,
        covers(final(buf)@, k as int, x),
        forall|i: int| 0 <= i < old(buf).len() ==> covers(final(buf)@, k as int, #[trigger] old(buf)@[i]),
        forall|i: int|
            0 <= i < final(buf).len() ==> (#[trigger] final(buf)@[i]) == x || old(buf)@.contains(
                final(buf)@[i],
            ),
        forall|i: int|
            0 <= i < old(buf).len() ==> (#[trigger] final(buf)@[i]) == old(buf)@[i] || outranks(
                final(buf)@[i],
                old(buf)@[i],
            ),
{
    let ghost before = buf@;
    let n: usize = buf.len();
    let mut p: usize = 0;
    while p < n && comes_before(&buf[p], &x)
        invariant
            p <= n,
            n == buf.len(),
            buf@ == before,
            all_wf(before),
            x.score.wf(),
            forall|i: int| 0 <= i < p ==> outranks(#[trigger] before[i], x),
        decreases n - p,
    {
        p = p + 1;
    }
    proof {
        if p < n {
            lemma_outranks_total(x, before[p as int]);
            assert forall|i: int| p <= i < n implies outranks(x, #[trigger] before[i]) by {
                if i > p {
                    lemma_outranks_transitive(x, before[p as int], before[i]);
                }
            }
        }
    }
    if p >= k {
        proof {
            assert(n == k);
            assert(beaten(before, k as int, x));
            assert forall|i: int| 0 <= i < n implies covers(before, k as int, #[trigger] before[i]) by {
                assert(before.contains(before[i]));
            }
        }
        return None;
    }
    buf.insert(p, x);
    let ghost mid = buf@;
    proof {
        assert(mid == before.insert(p as int, x));
        assert forall|i: int, j: int| 0 <= i < j < mid.len() implies outranks(
            #[trigger] mid[i],
            #[trigger] mid[j],
        ) by {
            if i < p && j > p {
                assert(mid[i] == before[i] && mid[j] == before[j - 1]);
            }
        }
        assert(mid[p as int] == x);
        assert forall|i: int| 0 <= i < n implies mid.contains(#[trigger] before[i]) by {
            if i < p {
                assert(mid[i] == before[i]);
            } else {
                assert(mid[i + 1] == before[i]);
            }
        }
    }
    if buf.len() > k {
        let gone = buf.pop();
        proof {
            let fin = buf@;
            assert(fin == mid.subrange(0, k as int));
            assert(n == k);
            assert(p < k);
            assert forall|q: ScoredPoint| mid.contains(q) && all_wf(mid) implies covers(
                fin,
                k as int,
                q,
            ) by {
                let idx = choose|idx: int| 0 <= idx < mid.len() && mid[idx] == q;
                if idx < k {
                    assert(fin[idx] == q);
                } else {
                    assert forall|i: int| 0 <= i < fin.len() implies outranks(#[trigger] fin[i], q) by {
                        assert(fin[i] == mid[i]);
                    }
                }
            }
            assert(mid.contains(x));
            assert forall|i: int| 0 <= i < fin.len() implies (#[trigger] fin[i]) == x
                || before.contains(fin[i]) by {
                assert(fin[i] == mid[i]);
                if i < p {
                    assert(before[i] == fin[i]);
                } else if i > p {
                    assert(before[i - 1] == fin[i]);
                }
            }
            assert forall|i: int| 0 <= i < n implies (#[trigger] fin[i]) == before[i] || outranks(
                fin[i],
                before[i],
            ) by {
                assert(fin[i] == mid[i]);
                if i > p {
                    assert(mid[i] == before[i - 1]);
                }
            }
        }
    } else {
        proof {
            assert forall|i: int| 0 <= i < mid.len() implies (#[trigger] mid[i]) == x
                || before.contains(mid[i]) by {
                if i < p {
                    assert(before[i] == mid[i]);
                } else if i > p {
                    assert(before[i - 1] == mid[i]);
                }
            }
            assert forall|i: int| 0 <= i < n implies (#[trigger] mid[i]) == before[i] || outranks(
                mid[i],
                before[i],
            ) by {
                if i > p {
                    assert(mid[i] == before[i - 1]);
                }
            }
        }
    }
    Some(p)
}

/// No id occurs twice in `s`.
pub open spec fn unique_ids(s: Seq<ScoredPoint>) -> bool {
    forall|i: int, j: int| 0 <= i < j < s.len() ==> (#[trigger] s[i]).id != (#[trigger] s[j]).id
}

/// `x` is one of the first `n` entries of `s`.
pub open spec fn among(s: Seq<ScoredPoint>, n: int, x: ScoredPoint) -> bool {
    exists|w: int| 0 <= w < n && #[trigger] s[w] == x
}

/// Merges the ranking `local` into the bounded ranking `global`, which
/// shares no id with it.
///
/// Whatever either ranking accounted for before, as capacity-`k` rankings,
/// the merged one accounts for: it is the top `k` of both.
pub fn merge(global: &mut Vec<ScoredPoint>, local: &Vec<ScoredPoint>, k: usize)
    requires
        ranked(old(global)@),
        all_wf(old(global)@),
        old(global)@.len() <= k,
        ranked(local@),
        all_wf(local@),
        local@.len() <= k,
        unique_ids(local@),
        forall|i: int, j: int|
            0 <= i < old(global)@.len() && 0 <= j < local@.len() ==> (#[trigger] old(global)@[i]).id
                != (#[trigger] local@[j]).id,
    ensures
        extends(old(global)@, final(global)@, k as int),
        all_wf(final(global)@),
        forall|i: int|
            0 <= i < final(global)@.len() ==> old(global)@.contains(#[trigger] final(global)@[i])
                || local@.contains(final(global)@[i]),
        forall|p: ScoredPoint|
            p.score.wf() && (covers(old(global)@, k as int, p) || covers(local@, k as int, p))
                ==> #[trigger] covers(final(global)@, k as int, p),
{
    let ghost g0 = global@;
    proof {
        assert forall|i: int| 0 <= i < g0.len() implies covers(g0, k as int, #[trigger] g0[i]) by {
            assert(g0.contains(g0[i]));
        }
    }
    let mut j: usize = 0;
    while j < local.len()
        invariant
            j <= local@.len(),
            local@.len() <= k,
            ranked(local@),
            all_wf(local@),
            unique_ids(local@),
            all_wf(g0),
            forall|i: int, w: int|
                0 <= i < g0.len() && 0 <= w < local@.len() ==> (#[trigger] g0[i]).id != (
                #[trigger] local@[w]).id,
            extends(g0, global@, k as int),
            all_wf(global@),
            j <= global@.len(),
            forall|i: int|
                0 <= i < j ==> (#[trigger] global@[i]) == local@[i] || outranks(
                    global@[i],
                    local@[i],
                ),
            forall|i: int| 0 <= i < j ==> covers(global@, k as int, #[trigger] local@[i]),
            forall|i: int|
                0 <= i < global@.len() ==> g0.contains(#[trigger] global@[i]) || among(
                    local@,
                    j as int,
                    global@[i],
                ),
        decreases local@.len() - j,
    {
        let x = local[j];
        let ghost g = global@;
        proof {
            assert forall|i: int| 0 <= i < j implies outranks(#[trigger] g[i], x) by {
                assert(outranks(local@[i], local@[j as int]));
                if g[i] != local@[i] {
                    lemma_outranks_transitive(g[i], local@[i], x);
                }
            }
            assert forall|i: int| 0 <= i < g.len() implies (#[trigger] g[i]).id != x.id by {
                if g0.contains(g[i]) {
                    let w = choose|w: int| 0 <= w < g0.len() && g0[w] == g[i];
                    assert(g0[w].id != local@[j as int].id);
                } else {
                    let w = choose|w: int| 0 <= w < j && #[trigger] local@[w] == g[i];
                    assert(local@[w].id != local@[j as int].id);
                }
            }
        }
        let at = offer(global, k, x);
        proof {
            let h = global@;
            lemma_extends_transitive(g0, g, h, k as int);
            match at {
                Some(p) => {
                    if p < j {
                        assert(h[p as int] == x);
                        assert(h[p + 1] == g[p as int]);
                        assert(outranks(h[p as int], h[p + 1]));
                        lemma_outranks_asymmetric(x, g[p as int]);
                        assert(false);
                    }
                    assert(h[p as int] == x);
                    if p > j {
                        assert(h[j as int] == g[j as int]);
                        assert(outranks(h[j as int], h[p as int]));
                    }
                },
                None => {
                    assert(!h.contains(x)) by {
                        if h.contains(x) {
                            let w = choose|w: int| 0 <= w < h.len() && h[w] == x;
                            assert(g[w].id != x.id);
                        }
                    }
                    assert(outranks(h[j as int], x));
                },
            }
            assert forall|i: int| 0 <= i < j + 1 implies (#[trigger] h[i]) == local@[i] || outranks(
                h[i],
                local@[i],
            ) by {
                if i < j {
                    if h[i] != g[i] && g[i] != local@[i] {
                        lemma_outranks_transitive(h[i], g[i], local@[i]);
                    }
                }
            }
            assert forall|i: int| 0 <= i < j + 1 implies covers(h, k as int, #[trigger] local@[i]) by {
                if i < j {
                    lemma_covers_persists(g, h, k as int, local@[i]);
                }
            }
            assert forall|i: int| 0 <= i < h.len() implies g0.contains(#[trigger] h[i]) || among(
                local@,
                j + 1,
                h[i],
            ) by {
                if h[i] == x {
                    assert(local@[j as int] == x);
                } else {
                    let w = choose|w: int| 0 <= w < g.len() && g[w] == h[i];
                    if !g0.contains(g[w]) {
                        let v = choose|v: int| 0 <= v < j && #[trigger] local@[v] == g[w];
                        assert(0 <= v < j + 1 && local@[v] == h[i]);
                    }
                }
            }
        }
        j = j + 1;
    }
    proof {
        let h = global@;
        assert forall|p: ScoredPoint|
            p.score.wf() && (covers(g0, k as int, p) || covers(local@, k as int, p))
                implies #[trigger] covers(h, k as int, p) by {
            if covers(g0, k as int, p) {
                lemma_covers_persists(g0, h, k as int, p);
            } else if local@.contains(p) {
                let i = choose|i: int| 0 <= i < local@.len() && local@[i] == p;
                assert(covers(h, k as int, local@[i]));
            } else {
                assert forall|i: int| 0 <= i < h.len() implies outranks(#[trigger] h[i], p) by {
                    assert(outranks(local@[i], p));
                    if h[i] != local@[i] {
                        lemma_outranks_transitive(h[i], local@[i], p);
                    }
                }
            }
        }
        assert forall|i: int| 0 <= i < h.len() implies g0.contains(#[trigger] h[i])
            || local@.contains(h[i]) by {
            if !g0.contains(h[i]) {
                let w = choose|w: int| 0 <= w < local@.len() && #[trigger] local@[w] == h[i];
                assert(local@[w] == h[i]);
            }
        }
    }
}

} // verus!
