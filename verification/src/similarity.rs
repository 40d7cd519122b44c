//! Distance metrics and exact integer scoring.
//!
//! Vector components are signed 16-bit fixed-point numbers.  All scores are
//! computed exactly in integer arithmetic:
//!
//! * `Cosine` — the cosine similarity scaled by [`SCORE_SCALE`] and rounded
//!   toward zero, so a score of `999_794` means a cosine of `0.999794`.
//!   Cosine similarity is invariant under the caller's fixed-point scale.
//!   If either vector is the zero vector the cosine is undefined and the
//!   score is the documented sentinel `0`.  Higher is closer.
//! * `Euclidean` — the squared Euclidean distance (exact; taking the square
//!   root would not change the ordering).  Lower is closer.
//! * `DotProduct` — the raw dot product of the fixed-point components.
//!   Higher is closer.
//!
//! Stored vectors are never rescaled at insert time, under any metric: the
//! per-collection choice here is to keep records exactly as given and to
//! compute the query's squared norm once per query instead (the cacheable
//! per-query attribute, [`get_cache_attr`]).

use vstd::prelude::*;

use crate::MAX_DIMENSION;

verus! {

/// The distance metric a collection scores its candidates with.
#[derive(Clone, Copy, Debug, PartialEq, Eq, Structural)]
pub enum Distance {
    Cosine,
    Euclidean,
    DotProduct,
}

/// Cosine scores are reported in units of one millionth:
/// `score == floor(|cosine| * SCORE_SCALE) * sign(cosine)`.
pub const SCORE_SCALE: i64 = 1_000_000;

/// Whether a smaller score means a closer candidate under `metric`.
pub open spec fn lower_is_better(metric: Distance) -> bool {
    metric is Euclidean
}

/// Dot product of the first `n` components of `a` and `b`.
pub open spec fn dot_prefix(a: Seq<i16>, b: Seq<i16>, n: int) -> int
    decreases n,
{
    if n <= 0 {
        0
    } else {
        dot_prefix(a, b, n - 1) + a[n - 1] * b[n - 1]
    }
}

/// Dot product of two equal-length vectors.
pub open spec fn dot_s(a: Seq<i16>, b: Seq<i16>) -> int {
    dot_prefix(a, b, a.len() as int)
}

/// Squared Euclidean norm of a vector.
pub open spec fn norm_sq_s(a: Seq<i16>) -> int {
    dot_s(a, a)
}

/// Sum of squared component differences over the first `n` components.
pub open spec fn sq_euclid_prefix(a: Seq<i16>, b: Seq<i16>, n: int) -> int
    decreases n,
{
    if n <= 0 {
        0
    } else {
        sq_euclid_prefix(a, b, n - 1) + (a[n - 1] - b[n - 1]) * (a[n - 1] - b[n - 1])
    }
}

/// Squared Euclidean distance of two equal-length vectors.
pub open spec fn sq_euclid_s(a: Seq<i16>, b: Seq<i16>) -> int {
    sq_euclid_prefix(a, b, a.len() as int)
}

/// `r` is the integer square root of `n`.
pub open spec fn is_isqrt(n: int, r: int) -> bool {
    0 <= r && r * r <= n && n < (r + 1) * (r + 1)
}

/// The integer square root of `n` (meaningful for `n >= 0`,
/// see [`lemma_isqrt_exists`]).
pub open spec fn isqrt_s(n: int) -> int {
    choose|r: int| is_isqrt(n, r)
}

/// Every non-negative integer has an integer square root.
pub proof fn lemma_isqrt_exists(n: int)
    requires
        0 <= n,
    ensures
        is_isqrt(n, isqrt_s(n)),
    decreases n,
{
    if n == 0 {
        assert(is_isqrt(0, 0));
    } else {
        lemma_isqrt_exists(n - 1);
        let r = isqrt_s(n - 1);
        if (r + 1) * (r + 1) <= n {
            assert(n == (r + 1) * (r + 1)) by {
                assert(n - 1 < (r + 1) * (r + 1));
            }
            assert((r + 1) * (r + 1) < (r + 2) * (r + 2)) by (nonlinear_arith)
                requires
                    0 <= r,
            ;
            assert(is_isqrt(n, r + 1));
        } else {
            assert(is_isqrt(n, r));
        }
    }
}

/// The integer square root is unique.
pub proof fn lemma_isqrt_unique(n: int, r1: int, r2: int)
    requires
        is_isqrt(n, r1),
        is_isqrt(n, r2),
    ensures
        r1 == r2,
{
    assert(r1 == r2) by (nonlinear_arith)
        requires
            0 <= r1 && r1 * r1 <= n && n < (r1 + 1) * (r1 + 1),
            0 <= r2 && r2 * r2 <= n && n < (r2 + 1) * (r2 + 1),
    ;
}

/// Magnitude bound on partial dot products: each term is a product of two
/// 16-bit values, so it is at most `2^30` in magnitude.
pub proof fn lemma_dot_prefix_bound(a: Seq<i16>, b: Seq<i16>, n: int)
    requires
        0 <= n,
        n <= a.len(),
        n <= b.len(),
    ensures
        -(n * 0x4000_0000) <= dot_prefix(a, b, n),
        dot_prefix(a, b, n) <= n * 0x4000_0000,
    decreases n,
{
    if n > 0 {
        lemma_dot_prefix_bound(a, b, n - 1);
        let x = a[n - 1] as int;
        let y = b[n - 1] as int;
        assert(-0x4000_0000 <= x * y && x * y <= 0x4000_0000) by (nonlinear_arith)
            requires
                -0x8000 <= x <= 0x7fff,
                -0x8000 <= y <= 0x7fff,
        ;
        assert((n - 1) * 0x4000_0000 + 0x4000_0000 == n * 0x4000_0000) by (nonlinear_arith);
    }
}

/// Partial squared norms are non-negative.
pub proof fn lemma_norm_prefix_nonneg(a: Seq<i16>, n: int)
    requires
        0 <= n,
        n <= a.len(),
    ensures
        0 <= dot_prefix(a, a, n),
    decreases n,
{
    if n > 0 {
        lemma_norm_prefix_nonneg(a, n - 1);
        let x = a[n - 1] as int;
        assert(0 <= x * x) by (nonlinear_arith);
    }
}

/// The exact cosine score: the cosine similarity scaled by [`SCORE_SCALE`]
/// and rounded toward zero, or `0` when either vector is the zero vector.
pub open spec fn cosine_score_s(a: Seq<i16>, b: Seq<i16>) -> int {
    let d = dot_s(a, b);
    let p = norm_sq_s(a) * norm_sq_s(b);
    if p == 0 {
        0
    } else {
        let q = (d * SCORE_SCALE) * (d * SCORE_SCALE) / p;
        if d >= 0 {
            isqrt_s(q)
        } else {
            -isqrt_s(q)
        }
    }
}

/// The score of candidate `a` against `b` under `metric`.
pub open spec fn score_s(metric: Distance, a: Seq<i16>, b: Seq<i16>) -> int {
    match metric {
        Distance::Cosine => cosine_score_s(a, b),
        Distance::Euclidean => sq_euclid_s(a, b),
        Distance::DotProduct => dot_s(a, b),
    }
}

/// The per-query attribute that can be computed once and reused across all
/// candidates of one query: the query's squared norm under `Cosine`, nothing
/// under the other metrics.
pub open spec fn cache_attr_s(metric: Distance, q: Seq<i16>) -> int {
    match metric {
        Distance::Cosine => norm_sq_s(q),
        _ => 0,
    }
}

/// Exact dot product of two equal-length fixed-point vectors.
pub fn dot(a: &Vec<i16>, b: &Vec<i16>) -> (r: i64)
    requires
        a@.len() == b@.len(),
        a@.len() <= MAX_DIMENSION,
    ensures
        r as int == dot_s(a@, b@),
        -(a@.len() * 0x4000_0000) <= r as int <= a@.len() * 0x4000_0000,
{
    let n: usize = a.len();
    let mut sum: i64 = 0;
    let mut i: usize = 0;
    while i < n
        invariant
            n == a@.len() == b@.len(),
            n <= MAX_DIMENSION,
            0 <= i <= n,
            sum as int == dot_prefix(a@, b@, i as int),
            -((i as int) * 0x4000_0000) <= sum as int <= (i as int) * 0x4000_0000,
        decreases n - i,
    {
        let x: i64 = a[i] as i64;
        let y: i64 = b[i] as i64;
        proof {
            assert(-0x4000_0000 <= (x as int) * (y as int) <= 0x4000_0000) by (nonlinear_arith)
                requires
                    -0x8000 <= x as int <= 0x7fff,
                    -0x8000 <= y as int <= 0x7fff,
            ;
            assert((i as int) * 0x4000_0000 + 0x4000_0000 == (i + 1) * 0x4000_0000)
                by (nonlinear_arith);
            assert((i as int) * 0x4000_0000 <= 8192 * 0x4000_0000) by (nonlinear_arith)
                requires
                    0 <= i as int <= 8192,
            ;
        }
        sum = sum + x * y;
        i = i + 1;
    }
    proof {
        lemma_dot_prefix_bound(a@, b@, n as int);
    }
    sum
}

/// Exact squared Euclidean distance of two equal-length fixed-point vectors.
pub fn sq_euclid(a: &Vec<i16>, b: &Vec<i16>) -> (r: i64)
    requires
        a@.len() == b@.len(),
        a@.len() <= MAX_DIMENSION,
    ensures
        r as int == sq_euclid_s(a@, b@),
{
    let n: usize = a.len();
    let mut sum: i64 = 0;
    let mut i: usize = 0;
    while i < n
        invariant
            n == a@.len() == b@.len(),
            n <= MAX_DIMENSION,
            0 <= i <= n,
            sum as int == sq_euclid_prefix(a@, b@, i as int),
            0 <= sum as int <= (i as int) * 0x1_0000_0000,
        decreases n - i,
    {
        let d: i64 = a[i] as i64 - b[i] as i64;
        proof {
            assert(0 <= (d as int) * (d as int) <= 0x1_0000_0000) by (nonlinear_arith)
                requires
                    -0x10000 < (d as int) < 0x10000,
            ;
            assert((i as int) * 0x1_0000_0000 + 0x1_0000_0000 == (i + 1) * 0x1_0000_0000)
                by (nonlinear_arith);
            assert((i as int) * 0x1_0000_0000 <= 8192 * 0x1_0000_0000) by (nonlinear_arith)
                requires
                    0 <= i as int <= 8192,
            ;
        }
        sum = sum + d * d;
        i = i + 1;
    }
    sum
}

/// Integer square root by binary search.
pub fn isqrt(n: u128) -> (r: u64)
    ensures
        is_isqrt(n as int, r as int),
{
    let mut lo: u128 = 0;
    let mut hi: u128 = 0x1_0000_0000_0000_0000;
    proof {
        assert((0x1_0000_0000_0000_0000 as int) * (0x1_0000_0000_0000_0000 as int) > n as int)
            by (nonlinear_arith)
            requires
                (n as int) < 0x1_0000_0000_0000_0000_0000_0000_0000_0000,
        ;
    }
    while lo + 1 < hi
        invariant
            0 <= lo < hi <= 0x1_0000_0000_0000_0000,
            (lo as int) * (lo as int) <= n as int,
            (n as int) < (hi as int) * (hi as int),
        decreases hi - lo,
    {
        let mid: u128 = lo + (hi - lo) / 2;
        proof {
            assert((mid as int) * (mid as int) < 0x1_0000_0000_0000_0000_0000_0000_0000_0000)
                by (nonlinear_arith)
                requires
                    0 <= (mid as int) < 0x1_0000_0000_0000_0000,
            ;
        }
        if mid * mid <= n {
            lo = mid;
        } else {
            hi = mid;
        }
    }
    proof {
        assert(hi == lo + 1);
    }
    lo as u64
}

/// Exact score of candidate `a` against `b` under `metric`.
pub fn score(metric: Distance, a: &Vec<i16>, b: &Vec<i16>) -> (r: i64)
    requires
        a@.len() == b@.len(),
        a@.len() <= MAX_DIMENSION,
    ensures
        r as int == score_s(metric, a@, b@),
{
    match metric {
        Distance::Cosine => {
            let na: i64 = dot(a, a);
            let nb: i64 = dot(b, b);
            cosine_from_norms(a, b, na, nb)
        },
        Distance::Euclidean => sq_euclid(a, b),
        Distance::DotProduct => dot(a, b),
    }
}

/// The per-query cacheable attribute for `q` under `metric`
/// (see [`cache_attr_s`]).
pub fn get_cache_attr(metric: Distance, q: &Vec<i16>) -> (r: i64)
    requires
        q@.len() <= MAX_DIMENSION,
    ensures
        r as int == cache_attr_s(metric, q@),
{
    match metric {
        Distance::Cosine => dot(q, q),
        Distance::Euclidean => 0,
        Distance::DotProduct => 0,
    }
}

/// Exact score of candidate `a` against query `b`, reusing the per-query
/// attribute `cache` (see [`get_cache_attr`]) so that the query's norm is not
/// recomputed for every candidate.
pub fn score_with_cache(metric: Distance, a: &Vec<i16>, b: &Vec<i16>, cache: i64) -> (r: i64)
    requires
        a@.len() == b@.len(),
        a@.len() <= MAX_DIMENSION,
        cache as int == cache_attr_s(metric, b@),
    ensures
        r as int == score_s(metric, a@, b@),
{
    match metric {
        Distance::Cosine => {
            let na: i64 = dot(a, a);
            cosine_from_norms(a, b, na, cache)
        },
        Distance::Euclidean => sq_euclid(a, b),
        Distance::DotProduct => dot(a, b),
    }
}

/// Cosine scoring given the two squared norms.
fn cosine_from_norms(a: &Vec<i16>, b: &Vec<i16>, na: i64, nb: i64) -> (r: i64)
    requires
        a@.len() == b@.len(),
        a@.len() <= MAX_DIMENSION,
        na as int == norm_sq_s(a@),
        nb as int == norm_sq_s(b@),
    ensures
        r as int == cosine_score_s(a@, b@),
{
    let d: i64 = dot(a, b);
    proof {
        lemma_norm_prefix_nonneg(a@, a@.len() as int);
        lemma_norm_prefix_nonneg(b@, b@.len() as int);
    }
    proof {
        assert(-0x4000_0000_0000_0000_0000_0000_0000_0000 <= (na as int) * (nb as int)
            <= 0x4000_0000_0000_0000_0000_0000_0000_0000) by (nonlinear_arith)
            requires
                -0x8000_0000_0000_0000 <= (na as int) <= 0x7fff_ffff_ffff_ffff,
                -0x8000_0000_0000_0000 <= (nb as int) <= 0x7fff_ffff_ffff_ffff,
        ;
    }
    let p: i128 = (na as i128) * (nb as i128);
    proof {
        assert((na as int) * (nb as int) >= 0) by (nonlinear_arith)
            requires
                na as int >= 0,
                nb as int >= 0,
        ;
    }
    if p == 0 {
        return 0;
    }
    let dabs: i64 = if d >= 0 {
        d
    } else {
        proof {
            assert((a@.len() as int) * 0x4000_0000 <= 8192 * 0x4000_0000) by (nonlinear_arith)
                requires
                    0 <= a@.len() as int <= 8192,
            ;
        }
        -d
    };
    proof {
        assert((a@.len() as int) * 0x4000_0000 <= 8192 * 0x4000_0000) by (nonlinear_arith)
            requires
                0 <= a@.len() as int <= 8192,
        ;
    }
    let x: u128 = (dabs as u128) * 1_000_000;
    proof {
        assert(x as int == (dabs as int) * 1_000_000);
        assert(x as int <= 8_796_093_022_208_000_000) by (nonlinear_arith)
            requires
                0 <= dabs as int <= 8192 * 0x4000_0000,
                x as int == (dabs as int) * 1_000_000,
        ;
        assert((x as int) * (x as int) < 0x1_0000_0000_0000_0000_0000_0000_0000_0000)
            by (nonlinear_arith)
            requires
                0 <= x as int <= 8_796_093_022_208_000_000,
        ;
    }
    let q: u128 = (x * x) / (p as u128);
    proof {
        // q is the spec quotient: x * x equals (d * SCALE)^2.
        assert((x as int) * (x as int) == ((d as int) * 1_000_000) * ((d as int) * 1_000_000))
            by (nonlinear_arith)
            requires
                dabs as int == (if d as int >= 0 { d as int } else { -(d as int) }),
                x as int == (dabs as int) * 1_000_000,
        ;
        // q is at most x * x, so its root fits in an i64.
        vstd::arithmetic::div_mod::lemma_fundamental_div_mod((x as int) * (x as int), p as int);
        assert(q as int <= (x as int) * (x as int)) by (nonlinear_arith)
            requires
                1 <= p as int,
                0 <= q as int,
                0 <= (x as int) * (x as int) - (p as int) * (q as int),
        ;
    }
    let r0: u64 = isqrt(q);
    proof {
        lemma_isqrt_exists(q as int);
        lemma_isqrt_unique(q as int, isqrt_s(q as int), r0 as int);
        assert(r0 as int <= x as int) by (nonlinear_arith)
            requires
                0 <= r0 as int,
                0 <= x as int,
                (r0 as int) * (r0 as int) <= q as int,
                q as int <= (x as int) * (x as int),
        ;
    }
    let r1: i64 = r0 as i64;
    if d >= 0 {
        r1
    } else {
        -r1
    }
}

/// A candidate's score together with its position in the candidate list.
#[derive(Clone, Copy, Debug, PartialEq, Eq, Structural)]
pub struct ScoreIndex {
    pub score: i64,
    pub index: usize,
}

/// The strict total order in which candidates are ranked: better score
/// first, ties broken by the earlier position in the candidate list.
pub open spec fn si_precedes(lb: bool, x: ScoreIndex, y: ScoreIndex) -> bool {
    if x.score == y.score {
        x.index < y.index
    } else if lb {
        x.score < y.score
    } else {
        x.score > y.score
    }
}

/// The candidate at position `j` of the score list.
pub open spec fn si_of(scores: Seq<i64>, j: int) -> ScoreIndex {
    ScoreIndex { score: scores[j], index: j as usize }
}

/// Whether candidate position `j` occurs in the selection `r`.
pub open spec fn selected(r: Seq<ScoreIndex>, j: int) -> bool {
    exists|i: int| 0 <= i < r.len() && (#[trigger] r[i]).index == j
}

/// `r` is the top-`k` selection from `scores`: it has exactly
/// `min(k, n)` entries, every entry is a genuine candidate, entries come
/// best-first in the strict ranking order, and every candidate left out is
/// ranked behind every entry.  These four clauses determine `r` uniquely
/// (see [`lemma_topk_unique`]).
pub open spec fn topk_post(scores: Seq<i64>, k: int, lb: bool, r: Seq<ScoreIndex>) -> bool {
    &&& r.len() == vstd::math::min(k, scores.len() as int)
    &&& (forall|i: int|
        0 <= i < r.len() ==> (#[trigger] r[i]).index < scores.len() && r[i].score == scores[r[
            i].index as int])
    &&& (forall|i: int, j: int| 0 <= i < j < r.len() ==> si_precedes(lb, #[trigger] r[i], #[trigger] r[j]))
    &&& (forall|i: int, j: int|
        0 <= i < r.len() && 0 <= j < scores.len() && !selected(r, j) ==> si_precedes(
            lb,
            #[trigger] r[i],
            #[trigger] si_of(scores, j),
        ))
}

/// The top-`k` selection from `scores` (total as a spec function; its
/// defining property is established by the verified selector).
pub open spec fn top_k_s(scores: Seq<i64>, k: int, lb: bool) -> Seq<ScoreIndex> {
    choose|r: Seq<ScoreIndex>| topk_post(scores, k, lb, r)
}

/// The ranking order is a strict total order: transitive, asymmetric, and
/// any two distinct candidates are ordered.
pub proof fn lemma_si_strict_total(lb: bool, x: ScoreIndex, y: ScoreIndex, z: ScoreIndex)
    ensures
        si_precedes(lb, x, y) && si_precedes(lb, y, z) ==> si_precedes(lb, x, z),
        si_precedes(lb, x, y) ==> !si_precedes(lb, y, x),
        x == y || si_precedes(lb, x, y) || si_precedes(lb, y, x),
{
}

/// Two selections that both satisfy the top-`k` contract agree on their
/// first `p` entries.
proof fn lemma_topk_unique_upto(
    scores: Seq<i64>,
    k: int,
    lb: bool,
    r1: Seq<ScoreIndex>,
    r2: Seq<ScoreIndex>,
    p: int,
)
    requires
        topk_post(scores, k, lb, r1),
        topk_post(scores, k, lb, r2),
        0 <= p <= r1.len(),
    ensures
        forall|q: int| 0 <= q < p ==> r1[q] == r2[q],
    decreases p,
{
    if p > 0 {
        lemma_topk_unique_upto(scores, k, lb, r1, r2, p - 1);
        let a = r1[p - 1];
        let b = r2[p - 1];
        lemma_topk_one_sided(scores, k, lb, r1, r2, p);
        lemma_topk_one_sided(scores, k, lb, r2, r1, p);
        lemma_si_strict_total(lb, a, b, b);
        assert(a == b);
    }
}

/// Helper for [`lemma_topk_unique_upto`]: with equal prefixes below `p - 1`,
/// the entry of `r1` at `p - 1` cannot strictly precede the entry of `r2`.
proof fn lemma_topk_one_sided(
    scores: Seq<i64>,
    k: int,
    lb: bool,
    r1: Seq<ScoreIndex>,
    r2: Seq<ScoreIndex>,
    p: int,
)
    requires
        topk_post(scores, k, lb, r1),
        topk_post(scores, k, lb, r2),
        0 < p <= r1.len(),
        forall|q: int| 0 <= q < p - 1 ==> r1[q] == r2[q],
    ensures
        !si_precedes(lb, r1[p - 1], r2[p - 1]),
{
    if si_precedes(lb, r1[p - 1], r2[p - 1]) {
        let a = r1[p - 1];
        let j = a.index as int;
        assert(si_of(scores, j) == a);
        if selected(r2, j) {
            let q = choose|q: int| 0 <= q < r2.len() && (#[trigger] r2[q]).index == j;
            assert(r2[q] == a);
            if q < p - 1 {
                // Then a already occurs earlier in r1, contradicting strict order.
                assert(r1[q] == a);
                assert(si_precedes(lb, r1[q], r1[p - 1]));
                lemma_si_strict_total(lb, a, a, a);
            } else if q == p - 1 {
                lemma_si_strict_total(lb, a, r2[p - 1], a);
            } else {
                assert(si_precedes(lb, r2[p - 1], r2[q]));
                lemma_si_strict_total(lb, a, r2[p - 1], r2[q]);
                lemma_si_strict_total(lb, a, a, a);
            }
        } else {
            // r2 leaves candidate j out, so every entry of r2 precedes it,
            // in particular the one that a precedes.
            assert(si_precedes(lb, r2[p - 1], si_of(scores, j)));
            lemma_si_strict_total(lb, a, r2[p - 1], a);
        }
        assert(false);
    }
}

/// The four clauses of [`topk_post`] pin the selection down uniquely.
pub proof fn lemma_topk_unique(
    scores: Seq<i64>,
    k: int,
    lb: bool,
    r1: Seq<ScoreIndex>,
    r2: Seq<ScoreIndex>,
)
    requires
        topk_post(scores, k, lb, r1),
        topk_post(scores, k, lb, r2),
    ensures
        r1 == r2,
{
    lemma_topk_unique_upto(scores, k, lb, r1, r2, r1.len() as int);
    assert(r1 =~= r2);
}

/// Ranking comparison of two concrete candidates.
fn si_before(lb: bool, x: &ScoreIndex, y: &ScoreIndex) -> (r: bool)
    ensures
        r == si_precedes(lb, *x, *y),
{
    if x.score == y.score {
        x.index < y.index
    } else if lb {
        x.score < y.score
    } else {
        x.score > y.score
    }
}

/// Bounded top-`k` selection.
///
/// Scans the candidates once, keeping a ranked buffer of at most `k`
/// entries; a candidate is admitted only while the buffer is short or when
/// it beats the buffer's current worst entry.  The candidate list is never
/// sorted as a whole.  Works for every `k` (including `0` and `k` larger
/// than the candidate count) and for an empty candidate list.
pub fn top_k(scores: &Vec<i64>, k: usize, lower_better: bool) -> (r: Vec<ScoreIndex>)
    ensures
        topk_post(scores@, k as int, lower_better, r@),
        r@ == top_k_s(scores@, k as int, lower_better),
{
    let lb = lower_better;
    let n: usize = scores.len();
    let mut buf: Vec<ScoreIndex> = Vec::new();
    let mut j: usize = 0;
    while j < n
        invariant
            n == scores@.len(),
            0 <= j <= n,
            buf@.len() == vstd::math::min(k as int, j as int),
            forall|i: int|
                0 <= i < buf@.len() ==> (#[trigger] buf@[i]).index < j && buf@[i].score
                    == scores@[buf@[i].index as int],
            forall|i: int, q: int|
                0 <= i < q < buf@.len() ==> si_precedes(lb, #[trigger] buf@[i], #[trigger] buf@[q]),
            forall|i: int, jj: int|
                0 <= i < buf@.len() && 0 <= jj < j && !selected(buf@, jj) ==> si_precedes(
                    lb,
                    #[trigger] buf@[i],
                    #[trigger] si_of(scores@, jj),
                ),
            buf@.len() < k ==> forall|jj: int| 0 <= jj < j ==> selected(buf@, jj),
        decreases n - j,
    {
        let cand = ScoreIndex { score: scores[j], index: j };
        let ghost old_buf = buf@;
        if buf.len() < k {
            let p = ranked_position(lb, &buf, &cand);
            buf.insert(p, cand);
            proof {
                lemma_after_insert(scores@, lb, old_buf, buf@, cand, p as int, j as int);
                assert forall|jj: int| 0 <= jj < j + 1 && buf@.len() < k implies selected(
                    buf@,
                    jj,
                ) by {
                    if jj == j {
                        assert(buf@[p as int].index == jj);
                    } else {
                        assert(selected(old_buf, jj));
                        let i0 = choose|i0: int|
                            0 <= i0 < old_buf.len() && (#[trigger] old_buf[i0]).index == jj;
                        if i0 < p {
                            assert(buf@[i0].index == jj);
                        } else {
                            assert(buf@[i0 + 1].index == jj);
                        }
                    }
                }
            }
        } else if k > 0 && si_before(lb, &cand, &buf[k - 1]) {
            let ghost worst = old_buf[k - 1];
            let p = ranked_position(lb, &buf, &cand);
            proof {
                // The scan stops no later than the worst entry.
                assert(si_precedes(lb, cand, old_buf[k - 1]));
            }
            buf.insert(p, cand);
            buf.pop();
            proof {
                lemma_after_insert_pop(scores@, lb, old_buf, buf@, cand, p as int, j as int, k as int);
            }
        } else {
            proof {
                if k > 0 {
                    let last = old_buf[k as int - 1];
                    lemma_si_strict_total(lb, cand, last, last);
                    assert(si_precedes(lb, last, cand));
                    assert forall|i: int| 0 <= i < buf@.len() implies si_precedes(
                        lb,
                        buf@[i],
                        si_of(scores@, j as int),
                    ) by {
                        lemma_si_strict_total(lb, buf@[i], last, cand);
                        assert(si_of(scores@, j as int) == cand);
                    }
                    assert(!selected(buf@, j as int));
                }
            }
        }
        j = j + 1;
    }
    proof {
        assert(topk_post(scores@, k as int, lb, buf@));
        assert(exists|rr: Seq<ScoreIndex>| topk_post(scores@, k as int, lb, rr)) by {
            assert(topk_post(scores@, k as int, lb, buf@));
        }
        lemma_topk_unique(scores@, k as int, lb, buf@, top_k_s(scores@, k as int, lb));
    }
    buf
}

/// Position before which `cand` belongs in the ranked buffer: the first
/// entry that `cand` precedes.
fn ranked_position(lb: bool, buf: &Vec<ScoreIndex>, cand: &ScoreIndex) -> (p: usize)
    ensures
        0 <= p <= buf@.len(),
        forall|q: int| 0 <= q < p ==> !si_precedes(lb, *cand, #[trigger] buf@[q]),
        p < buf@.len() ==> si_precedes(lb, *cand, buf@[p as int]),
{
    let mut p: usize = 0;
    while p < buf.len()
        invariant
            0 <= p <= buf@.len(),
            forall|q: int| 0 <= q < p ==> !si_precedes(lb, *cand, #[trigger] buf@[q]),
        decreases buf@.len() - p,
    {
        if si_before(lb, cand, &buf[p]) {
            return p;
        }
        p = p + 1;
    }
    p
}

/// After inserting a fresh candidate at its ranked position, the buffer
/// invariants still hold.
proof fn lemma_after_insert(
    scores: Seq<i64>,
    lb: bool,
    old_buf: Seq<ScoreIndex>,
    new_buf: Seq<ScoreIndex>,
    cand: ScoreIndex,
    p: int,
    j: int,
)
    requires
        0 <= j < scores.len(),
        j <= usize::MAX,
        cand == si_of(scores, j),
        forall|i: int|
            0 <= i < old_buf.len() ==> (#[trigger] old_buf[i]).index < j && old_buf[i].score
                == scores[old_buf[i].index as int],
        forall|i: int, q: int|
            0 <= i < q < old_buf.len() ==> si_precedes(lb, #[trigger] old_buf[i], #[trigger] old_buf[q]),
        0 <= p <= old_buf.len(),
        forall|q: int| 0 <= q < p ==> !si_precedes(lb, cand, #[trigger] old_buf[q]),
        p < old_buf.len() ==> si_precedes(lb, cand, old_buf[p]),
        new_buf == old_buf.insert(p, cand),
    ensures
        new_buf.len() == old_buf.len() + 1,
        forall|i: int|
            0 <= i < new_buf.len() ==> (#[trigger] new_buf[i]).index < j + 1 && new_buf[i].score
                == scores[new_buf[i].index as int],
        forall|i: int, q: int|
            0 <= i < q < new_buf.len() ==> si_precedes(lb, #[trigger] new_buf[i], #[trigger] new_buf[q]),
        forall|i: int| 0 <= i < old_buf.len() ==> selected(new_buf, (#[trigger] old_buf[i]).index as int),
        selected(new_buf, j),
        forall|jj: int| selected(old_buf, jj) ==> selected(new_buf, jj),
{
    assert forall|q: int| 0 <= q < p implies si_precedes(lb, old_buf[q], cand) by {
        assert(old_buf[q].index < j && cand.index == j);
        lemma_si_strict_total(lb, old_buf[q], cand, cand);
    }
    assert forall|i: int|
        0 <= i < new_buf.len() implies (#[trigger] new_buf[i]).index < j + 1 && new_buf[i].score
        == scores[new_buf[i].index as int] by {
        if i < p {
            assert(new_buf[i] == old_buf[i]);
        } else if i == p {
            assert(new_buf[i] == cand);
        } else {
            assert(new_buf[i] == old_buf[i - 1]);
        }
    }
    assert forall|i: int, q: int| 0 <= i < q < new_buf.len() implies si_precedes(
        lb,
        new_buf[i],
        new_buf[q],
    ) by {
        if i < p && q < p {
        } else if i < p && q == p {
            assert(new_buf[i] == old_buf[i] && new_buf[q] == cand);
        } else if i < p && q > p {
            assert(new_buf[i] == old_buf[i] && new_buf[q] == old_buf[q - 1]);
        } else if i == p && q > p {
            assert(new_buf[i] == cand && new_buf[q] == old_buf[q - 1]);
            if q - 1 == p {
            } else {
                lemma_si_strict_total(lb, cand, old_buf[p], old_buf[q - 1]);
            }
        } else {
            assert(new_buf[i] == old_buf[i - 1] && new_buf[q] == old_buf[q - 1]);
        }
    }
    assert(new_buf[p] == cand);
    assert forall|i: int| 0 <= i < old_buf.len() implies selected(
        new_buf,
        (#[trigger] old_buf[i]).index as int,
    ) by {
        if i < p {
            assert(new_buf[i] == old_buf[i]);
        } else {
            assert(new_buf[i + 1] == old_buf[i]);
        }
    }
    assert forall|jj: int| selected(old_buf, jj) implies selected(new_buf, jj) by {
        let i0 = choose|i0: int| 0 <= i0 < old_buf.len() && (#[trigger] old_buf[i0]).index == jj;
        if i0 < p {
            assert(new_buf[i0].index == jj);
        } else {
            assert(new_buf[i0 + 1].index == jj);
        }
    }
}

/// After inserting a winning candidate into a full buffer and dropping the
/// buffer's old worst entry, the buffer invariants still hold.
proof fn lemma_after_insert_pop(
    scores: Seq<i64>,
    lb: bool,
    old_buf: Seq<ScoreIndex>,
    new_buf: Seq<ScoreIndex>,
    cand: ScoreIndex,
    p: int,
    j: int,
    k: int,
)
    requires
        0 <= j < scores.len(),
        j <= usize::MAX,
        0 < k,
        old_buf.len() == k,
        cand == si_of(scores, j),
        si_precedes(lb, cand, old_buf[k - 1]),
        forall|i: int|
            0 <= i < old_buf.len() ==> (#[trigger] old_buf[i]).index < j && old_buf[i].score
                == scores[old_buf[i].index as int],
        forall|i: int, q: int|
            0 <= i < q < old_buf.len() ==> si_precedes(lb, #[trigger] old_buf[i], #[trigger] old_buf[q]),
        forall|i: int, jj: int|
            0 <= i < old_buf.len() && 0 <= jj < j && !selected(old_buf, jj) ==> si_precedes(
                lb,
                #[trigger] old_buf[i],
                #[trigger] si_of(scores, jj),
            ),
        0 <= p <= old_buf.len(),
        forall|q: int| 0 <= q < p ==> !si_precedes(lb, cand, #[trigger] old_buf[q]),
        p < old_buf.len() ==> si_precedes(lb, cand, old_buf[p]),
        new_buf == old_buf.insert(p, cand).drop_last(),
    ensures
        new_buf.len() == k,
        forall|i: int|
            0 <= i < new_buf.len() ==> (#[trigger] new_buf[i]).index < j + 1 && new_buf[i].score
                == scores[new_buf[i].index as int],
        forall|i: int, q: int|
            0 <= i < q < new_buf.len() ==> si_precedes(lb, #[trigger] new_buf[i], #[trigger] new_buf[q]),
        forall|i: int, jj: int|
            0 <= i < new_buf.len() && 0 <= jj < j + 1 && !selected(new_buf, jj) ==> si_precedes(
                lb,
                #[trigger] new_buf[i],
                #[trigger] si_of(scores, jj),
            ),
{
    let mid = old_buf.insert(p, cand);
    lemma_after_insert(scores, lb, old_buf, mid, cand, p, j);
    let worst = old_buf[k - 1];
    assert(p < k);
    assert(mid[k as int] == old_buf[k - 1]);
    assert(new_buf =~= mid.take(k));
    // Entries of the shrunk buffer all precede the dropped worst entry.
    assert forall|i: int| 0 <= i < new_buf.len() implies si_precedes(lb, new_buf[i], worst) by {
        assert(new_buf[i] == mid[i]);
        assert(si_precedes(lb, mid[i], mid[k as int]));
    }
    assert forall|i: int, jj: int|
        0 <= i < new_buf.len() && 0 <= jj < j + 1 && !selected(new_buf, jj) implies si_precedes(
        lb,
        new_buf[i],
        si_of(scores, jj),
    ) by {
        assert(new_buf[i] == mid[i]);
        if jj == worst.index as int {
            assert(si_of(scores, jj) == worst);
        } else if jj == j {
            // cand is in the kept prefix: its slot is p < k.
            assert(new_buf[p] == cand);
            assert((new_buf[p]).index == jj);
            assert(selected(new_buf, jj));
            assert(false);
        } else if selected(old_buf, jj) {
            // jj sat in the old buffer; if its entry was dropped it is the
            // worst entry, handled above, otherwise it is still selected.
            let i0 = choose|i0: int|
                0 <= i0 < old_buf.len() && (#[trigger] old_buf[i0]).index == jj;
            assert(old_buf[i0] == si_of(scores, jj));
            if i0 == k - 1 {
                assert(jj == worst.index as int);
                assert(false);
            } else {
                if i0 < p {
                    assert(mid[i0] == old_buf[i0]);
                    assert(new_buf[i0].index == jj);
                } else {
                    assert(mid[i0 + 1] == old_buf[i0]);
                    assert(i0 + 1 < k);
                    assert(new_buf[i0 + 1].index == jj);
                }
                assert(selected(new_buf, jj));
                assert(false);
            }
        } else {
            // jj was already left out before: the old entries precede it and
            // cand precedes the old worst entry, which precedes it.
            if i == p {
                assert(new_buf[i] == cand);
                assert(si_precedes(lb, worst, si_of(scores, jj)));
                lemma_si_strict_total(lb, cand, worst, si_of(scores, jj));
            } else if i < p {
                assert(new_buf[i] == old_buf[i]);
            } else {
                assert(new_buf[i] == old_buf[i - 1]);
            }
        }
    }
}

} // verus!
