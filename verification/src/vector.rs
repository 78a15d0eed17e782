use vstd::prelude::*;

verus! {

/// Largest dimension the ranking comparators accept.
///
/// With components bounded by `i16` and at most `4096` of them, every
/// cross-multiplied cosine comparison fits in an `i128` exactly.
pub const DIM_MAX: usize = 4096;

/// Largest corpus the quantizer accepts: componentwise sums of this many
/// `i16` values stay well inside an `i64`.
pub const CORPUS_MAX: usize = 0x1000_0000;

/// The ranking rule of an index: ascending Euclidean distance, or
/// descending cosine similarity.
#[derive(Clone, Copy, Debug, PartialEq, Eq, Structural)]
pub enum DistanceMetric {
    Euclidean,
    Cosine,
}

/// A fixed-dimension vector of fixed-point components.
///
/// A component is a scaled 32-bit value narrowed to `i16` so that every
/// distance and similarity the engine computes is exact integer arithmetic.
pub struct PGVector {
    pub dims: Vec<i16>,
}

impl View for PGVector {
    type V = Seq<i16>;

    open spec fn view(&self) -> Seq<i16> {
        self.dims@
    }
}

/// Builds a vector from its components; validates nothing.
pub fn create_vector(elements: Vec<i16>) -> (v: PGVector)
    ensures
        v@ == elements@,
{
    PGVector { dims: elements }
}

/// Copies a vector component by component.
pub fn copy_vector(v: &PGVector) -> (r: PGVector)
    ensures
        r@ == v@,
{
    let n = v.dims.len();
    let mut dims: Vec<i16> = Vec::new();
    let mut i: usize = 0;
    while i < n
        invariant
            i <= n,
            n == v.dims.len(),
            dims@ == v.dims@.subrange(0, i as int),
        decreases n - i,
    {
        dims.push(v.dims[i]);
        i = i + 1;
        proof {
            assert(dims@ == v.dims@.subrange(0, i as int));
        }
    }
    proof {
        assert(v.dims@.subrange(0, n as int) == v.dims@);
    }
    PGVector { dims }
}

} // verus!
