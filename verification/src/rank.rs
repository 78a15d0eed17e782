use vstd::prelude::*;
use crate::math::{dist_sq, dot, lemma_dist_sq_bounds, lemma_dot_bounds, lemma_norm_sq_bounds,
    norm_sq, norm_sq_exec, dot_product, euclidean_distance_sq};
use crate::vector::{DistanceMetric, PGVector, DIM_MAX};

verus! {

/// The sign-preserving square: monotone in the sign and magnitude of `n`,
/// so `ssq(n1)·d2 > ssq(n2)·d1` compares `n1/√d1` with `n2/√d2` exactly
/// whenever `d1, d2 > 0`.
pub open spec fn ssq(n: int) -> int {
    if n >= 0 {
        n * n
    } else {
        -(n * n)
    }
}

/// The numerator of a vector's ranking score against query `q`; a greater
/// score is a better match.
///
/// Euclidean: the negated squared distance. Cosine: the sign-preserving
/// square of the dot product, or zero when either norm is zero (the
/// documented degenerate-similarity policy).
pub open spec fn score_num(metric: DistanceMetric, q: Seq<i16>, v: Seq<i16>) -> int {
    match metric {
        DistanceMetric::Euclidean => -dist_sq(q, v),
        DistanceMetric::Cosine => if norm_sq(v) == 0 || norm_sq(q) == 0 {
            0
        } else {
            ssq(dot(v, q))
        },
    }
}

/// The (positive) denominator of a vector's ranking score against `q`.
pub open spec fn score_den(metric: DistanceMetric, q: Seq<i16>, v: Seq<i16>) -> int {
    match metric {
        DistanceMetric::Euclidean => 1,
        DistanceMetric::Cosine => if norm_sq(v) == 0 || norm_sq(q) == 0 {
            1
        } else {
            norm_sq(v)
        },
    }
}

/// `a` ranks strictly better than `b` against query `q`: its exact score
/// ratio is greater, compared by cross-multiplication.
pub open spec fn better(metric: DistanceMetric, q: Seq<i16>, a: Seq<i16>, b: Seq<i16>) -> bool {
    score_num(metric, q, a) * score_den(metric, q, b) > score_num(metric, q, b) * score_den(
        metric,
        q,
        a,
    )
}

/// `a` and `b` rank exactly the same against query `q`.
pub open spec fn tied(metric: DistanceMetric, q: Seq<i16>, a: Seq<i16>, b: Seq<i16>) -> bool {
    score_num(metric, q, a) * score_den(metric, q, b) == score_num(metric, q, b) * score_den(
        metric,
        q,
        a,
    )
}

/// Score denominators are strictly positive.
pub proof fn lemma_score_den_pos(metric: DistanceMetric, q: Seq<i16>, v: Seq<i16>)
    ensures
        score_den(metric, q, v) > 0,
{
    lemma_norm_sq_bounds(v);
}

/// Transitivity of the exact ratio order `n/d`, weak form.
pub proof fn lemma_ratio_trans(n1: int, d1: int, n2: int, d2: int, n3: int, d3: int)
    requires
        d1 > 0,
        d2 > 0,
        d3 > 0,
        n1 * d2 >= n2 * d1,
        n2 * d3 >= n3 * d2,
    ensures
        n1 * d3 >= n3 * d1,
{
    assert(n1 * d2 * d3 >= n2 * d1 * d3) by (nonlinear_arith)
        requires
            d3 > 0,
            n1 * d2 >= n2 * d1,
    ;
    assert(n2 * d3 * d1 >= n3 * d2 * d1) by (nonlinear_arith)
        requires
            d1 > 0,
            n2 * d3 >= n3 * d2,
    ;
    assert(n1 * d3 * d2 >= n3 * d1 * d2) by (nonlinear_arith)
        requires
            n1 * d2 * d3 >= n2 * d1 * d3,
            n2 * d3 * d1 >= n3 * d2 * d1,
    ;
    assert(n1 * d3 >= n3 * d1) by (nonlinear_arith)
        requires
            d2 > 0,
            n1 * d3 * d2 >= n3 * d1 * d2,
    ;
}

/// Transitivity of the exact ratio order, strict when the first step is.
pub proof fn lemma_ratio_trans_strict_first(n1: int, d1: int, n2: int, d2: int, n3: int, d3: int)
    requires
        d1 > 0,
        d2 > 0,
        d3 > 0,
        n1 * d2 > n2 * d1,
        n2 * d3 >= n3 * d2,
    ensures
        n1 * d3 > n3 * d1,
{
    assert(n1 * d2 * d3 > n2 * d1 * d3) by (nonlinear_arith)
        requires
            d3 > 0,
            n1 * d2 > n2 * d1,
    ;
    assert(n2 * d3 * d1 >= n3 * d2 * d1) by (nonlinear_arith)
        requires
            d1 > 0,
            n2 * d3 >= n3 * d2,
    ;
    assert(n1 * d3 * d2 > n3 * d1 * d2) by (nonlinear_arith)
        requires
            n1 * d2 * d3 > n2 * d1 * d3,
            n2 * d3 * d1 >= n3 * d2 * d1,
    ;
    assert(n1 * d3 > n3 * d1) by (nonlinear_arith)
        requires
            d2 > 0,
            n1 * d3 * d2 > n3 * d1 * d2,
    ;
}

/// Transitivity of the exact ratio order, strict when the second step is.
pub proof fn lemma_ratio_trans_strict_second(n1: int, d1: int, n2: int, d2: int, n3: int, d3: int)
    requires
        d1 > 0,
        d2 > 0,
        d3 > 0,
        n1 * d2 >= n2 * d1,
        n2 * d3 > n3 * d2,
    ensures
        n1 * d3 > n3 * d1,
{
    assert(n1 * d2 * d3 >= n2 * d1 * d3) by (nonlinear_arith)
        requires
            d3 > 0,
            n1 * d2 >= n2 * d1,
    ;
    assert(n2 * d3 * d1 > n3 * d2 * d1) by (nonlinear_arith)
        requires
            d1 > 0,
            n2 * d3 > n3 * d2,
    ;
    assert(n1 * d3 * d2 > n3 * d1 * d2) by (nonlinear_arith)
        requires
            n1 * d2 * d3 >= n2 * d1 * d3,
            n2 * d3 * d1 > n3 * d2 * d1,
    ;
    assert(n1 * d3 > n3 * d1) by (nonlinear_arith)
        requires
            d2 > 0,
            n1 * d3 * d2 > n3 * d1 * d2,
    ;
}

/// Strictly-better is transitive.
pub proof fn lemma_better_trans(
    metric: DistanceMetric,
    q: Seq<i16>,
    a: Seq<i16>,
    b: Seq<i16>,
    c: Seq<i16>,
)
    requires
        better(metric, q, a, b),
        better(metric, q, b, c),
    ensures
        better(metric, q, a, c),
{
    lemma_score_den_pos(metric, q, a);
    lemma_score_den_pos(metric, q, b);
    lemma_score_den_pos(metric, q, c);
    lemma_ratio_trans_strict_first(
        score_num(metric, q, a),
        score_den(metric, q, a),
        score_num(metric, q, b),
        score_den(metric, q, b),
        score_num(metric, q, c),
        score_den(metric, q, c),
    );
}

/// Strictly-better composes with a tie on either side.
pub proof fn lemma_better_tied_trans(
    metric: DistanceMetric,
    q: Seq<i16>,
    a: Seq<i16>,
    b: Seq<i16>,
    c: Seq<i16>,
)
    requires
        tied(metric, q, a, b) && better(metric, q, b, c) || better(metric, q, a, b) && tied(
            metric,
            q,
            b,
            c,
        ),
    ensures
        better(metric, q, a, c),
{
    lemma_score_den_pos(metric, q, a);
    lemma_score_den_pos(metric, q, b);
    lemma_score_den_pos(metric, q, c);
    if tied(metric, q, a, b) && better(metric, q, b, c) {
        lemma_ratio_trans_strict_second(
            score_num(metric, q, a),
            score_den(metric, q, a),
            score_num(metric, q, b),
            score_den(metric, q, b),
            score_num(metric, q, c),
            score_den(metric, q, c),
        );
    } else {
        lemma_ratio_trans_strict_first(
            score_num(metric, q, a),
            score_den(metric, q, a),
            score_num(metric, q, b),
            score_den(metric, q, b),
            score_num(metric, q, c),
            score_den(metric, q, c),
        );
    }
}

/// Ties are transitive.
pub proof fn lemma_tied_trans(
    metric: DistanceMetric,
    q: Seq<i16>,
    a: Seq<i16>,
    b: Seq<i16>,
    c: Seq<i16>,
)
    requires
        tied(metric, q, a, b),
        tied(metric, q, b, c),
    ensures
        tied(metric, q, a, c),
{
    lemma_score_den_pos(metric, q, a);
    lemma_score_den_pos(metric, q, b);
    lemma_score_den_pos(metric, q, c);
    lemma_ratio_trans(
        score_num(metric, q, a),
        score_den(metric, q, a),
        score_num(metric, q, b),
        score_den(metric, q, b),
        score_num(metric, q, c),
        score_den(metric, q, c),
    );
    lemma_ratio_trans(
        score_num(metric, q, c),
        score_den(metric, q, c),
        score_num(metric, q, b),
        score_den(metric, q, b),
        score_num(metric, q, a),
        score_den(metric, q, a),
    );
}

/// The cross-multiplied score products of `a` and `b` against query `q`:
/// `r.0 > r.1` exactly when `a` ranks strictly better, `r.0 == r.1` exactly
/// when they tie.
pub fn score_products(metric: DistanceMetric, q: &PGVector, a: &PGVector, b: &PGVector) -> (r: (
    i128,
    i128,
))
    requires
        a@.len() == q@.len(),
        b@.len() == q@.len(),
        q@.len() <= DIM_MAX,
    ensures
        r.0 as int == score_num(metric, q@, a@) * score_den(metric, q@, b@),
        r.1 as int == score_num(metric, q@, b@) * score_den(metric, q@, a@),
{
    match metric {
        DistanceMetric::Euclidean => {
            proof {
                lemma_dist_sq_bounds(q@, a@);
                lemma_dist_sq_bounds(q@, b@);
            }
            let da = match euclidean_distance_sq(q, a) {
                Ok(d) => d,
                Err(_) => 0,
            };
            let db = match euclidean_distance_sq(q, b) {
                Ok(d) => d,
                Err(_) => 0,
            };
            (-(da as i128), -(db as i128))
        },
        DistanceMetric::Cosine => {
            proof {
                lemma_norm_sq_bounds(q@);
                lemma_norm_sq_bounds(a@);
                lemma_norm_sq_bounds(b@);
                lemma_dot_bounds(a@, q@);
                lemma_dot_bounds(b@, q@);
            }
            let nq = norm_sq_exec(q);
            let na = norm_sq_exec(a);
            let nb = norm_sq_exec(b);
            let (num_a, den_a) = if na == 0 || nq == 0 {
                (0i128, 1i128)
            } else {
                let d = dot_product(a, q);
                (ssq_exec(d), na)
            };
            let (num_b, den_b) = if nb == 0 || nq == 0 {
                (0i128, 1i128)
            } else {
                let d = dot_product(b, q);
                (ssq_exec(d), nb)
            };
            proof {
                assert(num_a * den_b <= 0x4000_0000_0000_0000_0000_0000_0000_0000 && num_a * den_b
                    >= -0x4000_0000_0000_0000_0000_0000_0000_0000) by (nonlinear_arith)
                    requires
                        -0x10_0000_0000_0000_0000_0000 <= num_a
                            <= 0x10_0000_0000_0000_0000_0000,
                        0 < den_b <= 0x400_0000_0000,
                ;
                assert(num_b * den_a <= 0x4000_0000_0000_0000_0000_0000_0000_0000 && num_b * den_a
                    >= -0x4000_0000_0000_0000_0000_0000_0000_0000) by (nonlinear_arith)
                    requires
                        -0x10_0000_0000_0000_0000_0000 <= num_b
                            <= 0x10_0000_0000_0000_0000_0000,
                        0 < den_a <= 0x400_0000_0000,
                ;
            }
            (num_a * den_b, num_b * den_a)
        },
    }
}

/// The sign-preserving square, computed exactly.
fn ssq_exec(n: i128) -> (r: i128)
    requires
        -0x400_0000_0000 <= n <= 0x400_0000_0000,
    ensures
        r as int == ssq(n as int),
        -0x10_0000_0000_0000_0000_0000 <= r <= 0x10_0000_0000_0000_0000_0000,
{
    proof {
        assert(0 <= n * n <= 0x10_0000_0000_0000_0000_0000) by (nonlinear_arith)
            requires
                -0x400_0000_0000 <= n <= 0x400_0000_0000,
        ;
    }
    if n >= 0 {
        n * n
    } else {
        -(n * n)
    }
}

/// Whether `a` ranks strictly better than `b` against query `q`.
pub fn better_exec(metric: DistanceMetric, q: &PGVector, a: &PGVector, b: &PGVector) -> (r: bool)
    requires
        a@.len() == q@.len(),
        b@.len() == q@.len(),
        q@.len() <= DIM_MAX,
    ensures
        r == better(metric, q@, a@, b@),
{
    let (pa, pb) = score_products(metric, q, a, b);
    pa > pb
}

} // verus!
