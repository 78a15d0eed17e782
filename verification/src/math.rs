use vstd::prelude::*;
use crate::errors::VectorError;
use crate::vector::PGVector;

verus! {

/// Σ (a[i] − b[i])²: the squared Euclidean distance, exact over `int`.
pub open spec fn dist_sq(a: Seq<i16>, b: Seq<i16>) -> int
    decreases a.len(),
{
    if a.len() == 0 {
        0
    } else {
        dist_sq(a.drop_last(), b.drop_last()) + (a.last() - b.last()) * (a.last() - b.last())
    }
}

/// Σ a[i]·b[i]: the dot product, exact over `int`.
pub open spec fn dot(a: Seq<i16>, b: Seq<i16>) -> int
    decreases a.len(),
{
    if a.len() == 0 {
        0
    } else {
        dot(a.drop_last(), b.drop_last()) + a.last() * b.last()
    }
}

/// Σ a[i]²: the squared norm of a vector.
pub open spec fn norm_sq(a: Seq<i16>) -> int {
    dot(a, a)
}

/// The squared distance is nonnegative and at most `len · 2³²`.
pub proof fn lemma_dist_sq_bounds(a: Seq<i16>, b: Seq<i16>)
    ensures
        0 <= dist_sq(a, b) <= a.len() * 0x1_0000_0000,
    decreases a.len(),
{
    if a.len() > 0 {
        lemma_dist_sq_bounds(a.drop_last(), b.drop_last());
        let x = a.last() - b.last();
        assert(-0xffff <= x <= 0xffff);
        assert(0 <= x * x <= 0x1_0000_0000) by (nonlinear_arith)
            requires
                -0xffff <= x <= 0xffff,
        ;
    }
}

/// The dot product has magnitude at most `len · 2³⁰`.
pub proof fn lemma_dot_bounds(a: Seq<i16>, b: Seq<i16>)
    ensures
        -(a.len() * 0x4000_0000) <= dot(a, b) <= a.len() * 0x4000_0000,
    decreases a.len(),
{
    if a.len() > 0 {
        lemma_dot_bounds(a.drop_last(), b.drop_last());
        let x = a.last() as int;
        let y = b.last() as int;
        assert(-0x4000_0000 <= x * y <= 0x4000_0000) by (nonlinear_arith)
            requires
                -0x8000 <= x <= 0x7fff,
                -0x8000 <= y <= 0x7fff,
        ;
    }
}

/// The squared norm is nonnegative and at most `len · 2³⁰`.
pub proof fn lemma_norm_sq_bounds(a: Seq<i16>)
    ensures
        0 <= norm_sq(a) <= a.len() * 0x4000_0000,
    decreases a.len(),
{
    if a.len() > 0 {
        lemma_norm_sq_bounds(a.drop_last());
        let x = a.last() as int;
        assert(0 <= x * x <= 0x4000_0000) by (nonlinear_arith)
            requires
                -0x8000 <= x <= 0x7fff,
        ;
    }
}

/// The Euclidean distance is symmetric in its operands.
pub proof fn lemma_euclidean_symmetry(a: Seq<i16>, b: Seq<i16>)
    requires
        a.len() == b.len(),
    ensures
        dist_sq(a, b) == dist_sq(b, a),
    decreases a.len(),
{
    if a.len() > 0 {
        lemma_euclidean_symmetry(a.drop_last(), b.drop_last());
        let x = a.last() as int;
        let y = b.last() as int;
        assert((x - y) * (x - y) == (y - x) * (y - x)) by (nonlinear_arith);
    }
}

/// The Euclidean distance of equal-length vectors is zero exactly when they
/// agree element by element.
pub proof fn lemma_euclidean_zero_iff_equal(a: Seq<i16>, b: Seq<i16>)
    requires
        a.len() == b.len(),
    ensures
        dist_sq(a, b) == 0 <==> a =~= b,
    decreases a.len(),
{
    if a.len() > 0 {
        lemma_euclidean_zero_iff_equal(a.drop_last(), b.drop_last());
        lemma_dist_sq_bounds(a.drop_last(), b.drop_last());
        let x = a.last() - b.last();
        assert(x * x == 0 <==> x == 0) by (nonlinear_arith);
        assert(0 <= x * x) by (nonlinear_arith);
        if a =~= b {
            assert(a.drop_last() =~= b.drop_last());
            assert(a.last() == b.last());
        }
        if dist_sq(a, b) == 0 {
            assert(a.drop_last() =~= b.drop_last());
            assert forall|i: int| 0 <= i < a.len() implies a[i] == b[i] by {
                if i < a.len() - 1 {
                    assert(a.drop_last()[i] == b.drop_last()[i]);
                }
            }
        }
    }
}

/// A vector with any nonzero component has a positive squared norm.
pub proof fn lemma_norm_sq_pos_of_nonzero(a: Seq<i16>)
    requires
        exists|i: int| 0 <= i < a.len() && a[i] != 0,
    ensures
        norm_sq(a) > 0,
    decreases a.len(),
{
    lemma_norm_sq_bounds(a.drop_last());
    let i = choose|i: int| 0 <= i < a.len() && a[i] != 0;
    let x = a.last() as int;
    assert(x * x >= 0) by (nonlinear_arith);
    if a.last() != 0 {
        assert(x * x > 0) by (nonlinear_arith)
            requires
                x != 0,
        ;
    } else {
        assert(i < a.len() - 1);
        assert(a.drop_last()[i] != 0);
        lemma_norm_sq_pos_of_nonzero(a.drop_last());
    }
}

/// The cosine similarity of a nonzero vector with itself is exactly one:
/// its numerator `dot(a, a)` is positive and its square equals the product
/// of the squared norms, so `dot(a, a) / (‖a‖·‖a‖) == 1`.
pub proof fn lemma_cosine_self_similarity(a: Seq<i16>)
    requires
        exists|i: int| 0 <= i < a.len() && a[i] != 0,
    ensures
        dot(a, a) == norm_sq(a),
        norm_sq(a) > 0,
        dot(a, a) * dot(a, a) == norm_sq(a) * norm_sq(a),
{
    lemma_norm_sq_pos_of_nonzero(a);
}

/// The squared Euclidean distance between two vectors, or
/// `DimensionMismatch` exactly when their lengths differ.
///
/// The square root that turns this into the metric distance is monotone, so
/// every ranking the engine performs compares these squares directly.
pub fn euclidean_distance_sq(v1: &PGVector, v2: &PGVector) -> (r: Result<u128, VectorError>)
    ensures
        match r {
            Ok(d) => v1@.len() == v2@.len() && d as int == dist_sq(v1@, v2@),
            Err(e) => v1@.len() != v2@.len() && e == VectorError::DimensionMismatch,
        },
{
    if v1.dims.len() != v2.dims.len() {
        return Err(VectorError::DimensionMismatch);
    }
    let n = v1.dims.len();
    let mut acc: u128 = 0;
    let mut i: usize = 0;
    while i < n
        invariant
            i <= n,
            n == v1@.len() == v2@.len(),
            acc as int == dist_sq(v1@.subrange(0, i as int), v2@.subrange(0, i as int)),
            acc as int <= (i as int) * 0x1_0000_0000,
        decreases n - i,
    {
        let xa = v1.dims[i] as i64;
        let xb = v2.dims[i] as i64;
        let d = xa - xb;
        proof {
            assert(0 <= d * d <= 0x1_0000_0000) by (nonlinear_arith)
                requires
                    -0xffff <= d <= 0xffff,
            ;
        }
        let sq = d * d;
        acc = acc + (sq as u128);
        i = i + 1;
        proof {
            let p1 = v1@.subrange(0, i as int);
            let p2 = v2@.subrange(0, i as int);
            assert(p1.drop_last() =~= v1@.subrange(0, i as int - 1));
            assert(p2.drop_last() =~= v2@.subrange(0, i as int - 1));
            assert(p1.last() == v1@[i as int - 1]);
            assert(p2.last() == v2@[i as int - 1]);
        }
    }
    proof {
        assert(v1@.subrange(0, n as int) =~= v1@);
        assert(v2@.subrange(0, n as int) =~= v2@);
    }
    Ok(acc)
}

/// The exact dot product of two equal-length vectors.
pub fn dot_product(v1: &PGVector, v2: &PGVector) -> (r: i128)
    requires
        v1@.len() == v2@.len(),
    ensures
        r as int == dot(v1@, v2@),
{
    let n = v1.dims.len();
    let mut acc: i128 = 0;
    let mut i: usize = 0;
    while i < n
        invariant
            i <= n,
            n == v1@.len() == v2@.len(),
            acc as int == dot(v1@.subrange(0, i as int), v2@.subrange(0, i as int)),
            -((i as int) * 0x4000_0000) <= acc as int <= (i as int) * 0x4000_0000,
        decreases n - i,
    {
        let xa = v1.dims[i] as i64;
        let xb = v2.dims[i] as i64;
        proof {
            assert(-0x4000_0000 <= xa * xb <= 0x4000_0000) by (nonlinear_arith)
                requires
                    -0x8000 <= xa <= 0x7fff,
                    -0x8000 <= xb <= 0x7fff,
            ;
        }
        let t = xa * xb;
        acc = acc + (t as i128);
        i = i + 1;
        proof {
            let p1 = v1@.subrange(0, i as int);
            let p2 = v2@.subrange(0, i as int);
            assert(p1.drop_last() =~= v1@.subrange(0, i as int - 1));
            assert(p2.drop_last() =~= v2@.subrange(0, i as int - 1));
        }
    }
    proof {
        assert(v1@.subrange(0, n as int) =~= v1@);
        assert(v2@.subrange(0, n as int) =~= v2@);
    }
    acc
}

/// The exact squared norm of a vector.
pub fn norm_sq_exec(v: &PGVector) -> (r: i128)
    ensures
        r as int == norm_sq(v@),
        r >= 0,
{
    let r = dot_product(v, v);
    proof {
        lemma_norm_sq_bounds(v@);
    }
    r
}

/// The exact integer parts of a cosine similarity: the dot product and the
/// two squared norms, so that `dot / (√n1 · √n2)` is the similarity itself.
///
/// Fails with `DimensionMismatch` exactly when the lengths differ, and with
/// `DegenerateVector` exactly when the lengths agree and either operand has
/// norm zero: a zero denominator is rejected, never divided through.
pub fn vector_cosine_parts(v1: &PGVector, v2: &PGVector) -> (r: Result<
    (i128, i128, i128),
    VectorError,
>)
    ensures
        match r {
            Ok(p) => {
                &&& v1@.len() == v2@.len()
                &&& norm_sq(v1@) > 0
                &&& norm_sq(v2@) > 0
                &&& p.0 as int == dot(v1@, v2@)
                &&& p.1 as int == norm_sq(v1@)
                &&& p.2 as int == norm_sq(v2@)
            },
            Err(e) => {
                if v1@.len() != v2@.len() {
                    e == VectorError::DimensionMismatch
                } else {
                    e == VectorError::DegenerateVector && (norm_sq(v1@) == 0 || norm_sq(v2@)
                        == 0)
                }
            },
        },
{
    if v1.dims.len() != v2.dims.len() {
        return Err(VectorError::DimensionMismatch);
    }
    let n1 = norm_sq_exec(v1);
    let n2 = norm_sq_exec(v2);
    if n1 == 0 || n2 == 0 {
        return Err(VectorError::DegenerateVector);
    }
    let d = dot_product(v1, v2);
    Ok((d, n1, n2))
}

} // verus!
