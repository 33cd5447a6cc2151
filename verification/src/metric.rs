//! Distance metrics over fixed-point vectors and the exact scores they give.

use vstd::prelude::*;

verus! {

/// Largest dimensionality a collection may have.
pub const MAX_DIM: usize = 65536;

/// Largest magnitude of a score's numerator and denominator.
pub const SCORE_LIMIT: i128 = 0x1000_0000_0000_0000;

/// The similarity function of a collection, fixed when it is created.
#[derive(Clone, Copy, Debug, PartialEq, Eq, Structural)]
pub enum Distance {
    Cosine,
    Dot,
    Euclid,
}

/// An exact similarity score `num / den`; a higher score is more similar.
///
/// * `Dot`: the dot product.
/// * `Euclid`: the negated squared distance.
/// * `Cosine`: the cosine squared, carrying the cosine's sign.
#[derive(Clone, Copy, Debug, PartialEq, Eq, Structural)]
pub struct Score {
    pub num: i128,
    pub den: i128,
}

impl Score {
    /// The denominator is positive and both parts are small enough to
    /// cross-multiply without overflow.
    pub open spec fn wf(self) -> bool {
        &&& 0 < self.den <= SCORE_LIMIT
        &&& -SCORE_LIMIT <= self.num <= SCORE_LIMIT
    }
}

/// Sum of `a[i] * b[i]` over `i < n`.
pub open spec fn dot_upto(a: Seq<i8>, b: Seq<i8>, n: int) -> int
    decreases n,
{
    if n <= 0 {
        0
    } else {
        dot_upto(a, b, n - 1) + a[n - 1] * b[n - 1]
    }
}

/// Dot product of two vectors of equal length.
pub open spec fn dot(a: Seq<i8>, b: Seq<i8>) -> int {
    dot_upto(a, b, a.len() as int)
}

/// Squared Euclidean norm.
pub open spec fn norm_sq(a: Seq<i8>) -> int {
    dot(a, a)
}

/// Sum of `(a[i] - b[i])^2` over `i < n`.
pub open spec fn dist_sq_upto(a: Seq<i8>, b: Seq<i8>, n: int) -> int
    decreases n,
{
    if n <= 0 {
        0
    } else {
        dist_sq_upto(a, b, n - 1) + (a[n - 1] - b[n - 1]) * (a[n - 1] - b[n - 1])
    }
}

/// Squared Euclidean distance of two vectors of equal length.
pub open spec fn dist_sq(a: Seq<i8>, b: Seq<i8>) -> int {
    dist_sq_upto(a, b, a.len() as int)
}

/// `d * d` carrying the sign of `d`.
pub open spec fn signed_square(d: int) -> int {
    if d >= 0 {
        d * d
    } else {
        -(d * d)
    }
}

/// The score of stored vector `a` against query `q` under `metric`.
pub open spec fn score_of(metric: Distance, a: Seq<i8>, q: Seq<i8>) -> Score {
    match metric {
        Distance::Dot => Score { num: dot(a, q) as i128, den: 1 },
        Distance::Euclid => Score { num: (-dist_sq(a, q)) as i128, den: 1 },
        Distance::Cosine => if norm_sq(a) == 0 || norm_sq(q) == 0 {
            Score { num: 0, den: 1 }
        } else {
            Score {
                num: signed_square(dot(a, q)) as i128,
                den: (norm_sq(a) * norm_sq(q)) as i128,
            }
        },
    }
}

/// A vector a collection of this shape accepts: the right length, and not
/// the zero vector where the metric is the cosine.
pub open spec fn vector_ok(metric: Distance, dim: usize, v: Seq<i8>) -> bool {
    &&& v.len() == dim
    &&& metric == Distance::Cosine ==> norm_sq(v) > 0
}

/// `a` is strictly less similar than `b`.
pub open spec fn score_lt(a: Score, b: Score) -> bool {
    a.num * b.den < b.num * a.den
}

/// `a` and `b` denote the same rational.
pub open spec fn score_same(a: Score, b: Score) -> bool {
    a.num * b.den == b.num * a.den
}

pub proof fn lemma_product_bound(x: int, y: int, bx: int, by: int)
    requires
        -bx <= x <= bx,
        -by <= y <= by,
    ensures
        -(bx * by) <= x * y <= bx * by,
{
    assert(-(bx * by) <= x * y <= bx * by) by (nonlinear_arith)
        requires
            -bx <= x <= bx,
            -by <= y <= by,
    ;
}

pub proof fn lemma_dot_bound(a: Seq<i8>, b: Seq<i8>, n: int)
    requires
        0 <= n <= a.len(),
        n <= b.len(),
    ensures
        -(n * 16384) <= dot_upto(a, b, n) <= n * 16384,
    decreases n,
{
    if n > 0 {
        lemma_dot_bound(a, b, n - 1);
        lemma_product_bound(a[n - 1] as int, b[n - 1] as int, 128, 128);
    }
}

pub proof fn lemma_dist_sq_bound(a: Seq<i8>, b: Seq<i8>, n: int)
    requires
        0 <= n <= a.len(),
        n <= b.len(),
    ensures
        0 <= dist_sq_upto(a, b, n) <= n * 65536,
    decreases n,
{
    if n > 0 {
        lemma_dist_sq_bound(a, b, n - 1);
        let d = a[n - 1] - b[n - 1];
        lemma_product_bound(d, d, 256, 256);
        assert(d * d >= 0) by (nonlinear_arith);
    }
}

/// A squared norm is never negative, and is zero only for the zero vector.
pub proof fn lemma_norm_sq_nonneg(a: Seq<i8>, n: int)
    requires
        0 <= n <= a.len(),
    ensures
        dot_upto(a, a, n) >= 0,
        dot_upto(a, a, n) == 0 <==> (forall|i: int| 0 <= i < n ==> a[i] == 0),
    decreases n,
{
    if n > 0 {
        lemma_norm_sq_nonneg(a, n - 1);
        let x = a[n - 1] as int;
        assert(x * x >= 0 && (x * x == 0 <==> x == 0)) by (nonlinear_arith);
    }
}

/// Every score of two vectors of one length within `MAX_DIM` is well formed.
pub proof fn lemma_score_wf(metric: Distance, a: Seq<i8>, q: Seq<i8>)
    requires
        a.len() == q.len(),
        a.len() <= MAX_DIM,
    ensures
        score_of(metric, a, q).wf(),
{
    let n = a.len() as int;
    lemma_dot_bound(a, q, n);
    lemma_dot_bound(a, a, n);
    lemma_dot_bound(q, q, n);
    lemma_dist_sq_bound(a, q, n);
    lemma_norm_sq_nonneg(a, n);
    lemma_norm_sq_nonneg(q, n);
    let d = dot(a, q);
    let na = norm_sq(a);
    let nq = norm_sq(q);
    lemma_product_bound(d, d, 0x4000_0000, 0x4000_0000);
    lemma_product_bound(na, nq, 0x4000_0000, 0x4000_0000);
    assert(d * d >= 0) by (nonlinear_arith);
    if na > 0 && nq > 0 {
        assert(na * nq > 0) by (nonlinear_arith)
            requires
                na > 0,
                nq > 0,
        ;
    }
}

/// Computes the dot product of two vectors of equal length.
pub fn dot_product(a: &Vec<i8>, b: &Vec<i8>) -> (r: i64)
    requires
        a.len() == b.len(),
        a.len() <= MAX_DIM,
    ensures
        r == dot(a@, b@),
        -0x4000_0000 <= r <= 0x4000_0000,
{
    let n: usize = a.len();
    let mut acc: i64 = 0;
    let mut i: usize = 0;
    while i < n
        invariant
            i <= n,
            n == a.len(),
            n == b.len(),
            n <= MAX_DIM,
            acc == dot_upto(a@, b@, i as int),
        decreases n - i,
    {
        proof {
            lemma_dot_bound(a@, b@, i as int);
            lemma_product_bound(a[i as int] as int, b[i as int] as int, 128, 128);
        }
        let x: i64 = a[i] as i64;
        let y: i64 = b[i] as i64;
        acc = acc + x * y;
        i = i + 1;
    }
    proof {
        lemma_dot_bound(a@, b@, n as int);
    }
    acc
}

/// Computes the squared Euclidean distance of two vectors of equal length.
pub fn distance_squared(a: &Vec<i8>, b: &Vec<i8>) -> (r: i64)
    requires
        a.len() == b.len(),
        a.len() <= MAX_DIM,
    ensures
        r == dist_sq(a@, b@),
        0 <= r <= 0x1_0000_0000,
{
    let n: usize = a.len();
    let mut acc: i64 = 0;
    let mut i: usize = 0;
    while i < n
        invariant
            i <= n,
            n == a.len(),
            n == b.len(),
            n <= MAX_DIM,
            acc == dist_sq_upto(a@, b@, i as int),
        decreases n - i,
    {
        proof {
            lemma_dist_sq_bound(a@, b@, i as int);
            lemma_product_bound(a[i as int] - b[i as int], a[i as int] - b[i as int], 256, 256);
        }
        let d: i64 = a[i] as i64 - b[i] as i64;
        acc = acc + d * d;
        i = i + 1;
    }
    proof {
        lemma_dist_sq_bound(a@, b@, n as int);
    }
    acc
}

/// Tells whether every component of `v` is zero.
pub fn is_zero_vector(v: &Vec<i8>) -> (r: bool)
    ensures
        r <==> norm_sq(v@) == 0,
{
    let n: usize = v.len();
    let mut i: usize = 0;
    while i < n
        invariant
            i <= n,
            n == v.len(),
            forall|j: int| 0 <= j < i ==> v@[j] == 0,
        decreases n - i,
    {
        if v[i] != 0 {
            proof {
                lemma_norm_sq_nonneg(v@, n as int);
            }
            return false;
        }
        i = i + 1;
    }
    proof {
        lemma_norm_sq_nonneg(v@, n as int);
    }
    true
}

/// Tells whether a collection of this shape accepts `v`.
pub fn check_vector(metric: Distance, dim: usize, v: &Vec<i8>) -> (r: bool)
    ensures
        r == vector_ok(metric, dim, v@),
{
    if v.len() != dim {
        return false;
    }
    match metric {
        Distance::Cosine => {
            let zero = is_zero_vector(v);
            proof {
                lemma_norm_sq_nonneg(v@, v@.len() as int);
            }
            !zero
        },
        _ => true,
    }
}

/// Scores stored vector `a` against query `q`.
pub fn score(metric: Distance, a: &Vec<i8>, q: &Vec<i8>) -> (r: Score)
    requires
        a.len() == q.len(),
        a.len() <= MAX_DIM,
    ensures
        r == score_of(metric, a@, q@),
        r.wf(),
{
    match metric {
        Distance::Dot => {
            let d: i64 = dot_product(a, q);
            Score { num: d as i128, den: 1 }
        },
        Distance::Euclid => {
            let d: i64 = distance_squared(a, q);
            Score { num: -(d as i128), den: 1 }
        },
        Distance::Cosine => {
            let na: i64 = dot_product(a, a);
            let nq: i64 = dot_product(q, q);
            proof {
                lemma_norm_sq_nonneg(a@, a@.len() as int);
                lemma_norm_sq_nonneg(q@, q@.len() as int);
            }
            if na == 0 || nq == 0 {
                Score { num: 0, den: 1 }
            } else {
                let d: i64 = dot_product(a, q);
                proof {
                    lemma_product_bound(d as int, d as int, 0x4000_0000, 0x4000_0000);
                    lemma_product_bound(na as int, nq as int, 0x4000_0000, 0x4000_0000);
                    assert(na * nq > 0) by (nonlinear_arith)
                        requires
                            na > 0,
                            nq > 0,
                    ;
                    assert(d * d >= 0) by (nonlinear_arith);
                }
                let sq: i128 = (d as i128) * (d as i128);
                let num: i128 = if d >= 0 {
                    sq
                } else {
                    -sq
                };
                Score { num, den: (na as i128) * (nq as i128) }
            }
        },
    }
}

} // verus!
