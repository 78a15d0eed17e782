use vstd::prelude::*;
use crate::errors::VectorError;

use crate::rank::{better, better_exec};
use crate::vector::{copy_vector, DistanceMetric, PGVector, CORPUS_MAX, DIM_MAX};

verus! {

/// The component sequences of a sequence of vectors.
pub open spec fn views_of(vs: Seq<PGVector>) -> Seq<Seq<i16>> {
    vs.map_values(|v: PGVector| v@)
}

/// Every vector in `vs` has dimension `d`.
pub open spec fn uniform_dim(vs: Seq<Seq<i16>>, d: int) -> bool {
    forall|i: int| 0 <= i < vs.len() ==> (#[trigger] vs[i]).len() == d
}

/// The index of the centroid nearest to `v` under `metric`, ties broken by
/// the lowest index.
pub open spec fn nearest(metric: DistanceMetric, cents: Seq<Seq<i16>>, v: Seq<i16>) -> int
    decreases cents.len(),
{
    if cents.len() <= 1 {
        0
    } else {
        let b = nearest(metric, cents.drop_last(), v);
        if better(metric, v, cents.last(), cents[b]) {
            cents.len() - 1
        } else {
            b
        }
    }
}

/// The nearest-centroid index is always in range.
pub proof fn lemma_nearest_range(metric: DistanceMetric, cents: Seq<Seq<i16>>, v: Seq<i16>)
    requires
        cents.len() >= 1,
    ensures
        0 <= nearest(metric, cents, v) < cents.len(),
    decreases cents.len(),
{
    if cents.len() > 1 {
        lemma_nearest_range(metric, cents.drop_last(), v);
    }
}

/// The index of the vector farthest from `cent` (the worst-ranked against
/// it), ties broken by the lowest index; the reseeding target for an empty
/// cluster.
pub open spec fn farthest(metric: DistanceMetric, vs: Seq<Seq<i16>>, cent: Seq<i16>) -> int
    decreases vs.len(),
{
    if vs.len() <= 1 {
        0
    } else {
        let w = farthest(metric, vs.drop_last(), cent);
        if better(metric, cent, vs[w], vs.last()) {
            vs.len() - 1
        } else {
            w
        }
    }
}

/// The farthest-vector index is always in range.
pub proof fn lemma_farthest_range(metric: DistanceMetric, vs: Seq<Seq<i16>>, cent: Seq<i16>)
    requires
        vs.len() >= 1,
    ensures
        0 <= farthest(metric, vs, cent) < vs.len(),
    decreases vs.len(),
{
    if vs.len() > 1 {
        lemma_farthest_range(metric, vs.drop_last(), cent);
    }
}

/// The cluster index of every corpus vector under centroids `cents`.
pub open spec fn assignment(metric: DistanceMetric, cents: Seq<Seq<i16>>, vs: Seq<Seq<i16>>) -> Seq<
    int,
> {
    vs.map_values(|v: Seq<i16>| nearest(metric, cents, v))
}

/// How many of `vs` are assigned to cluster `c`.
pub open spec fn cluster_count(
    metric: DistanceMetric,
    cents: Seq<Seq<i16>>,
    vs: Seq<Seq<i16>>,
    c: int,
) -> int
    decreases vs.len(),
{
    if vs.len() == 0 {
        0
    } else {
        cluster_count(metric, cents, vs.drop_last(), c) + if nearest(metric, cents, vs.last())
            == c {
            1int
        } else {
            0int
        }
    }
}

/// The sum of component `t` over the members of cluster `c`.
pub open spec fn comp_sum(
    metric: DistanceMetric,
    cents: Seq<Seq<i16>>,
    vs: Seq<Seq<i16>>,
    c: int,
    t: int,
) -> int
    decreases vs.len(),
{
    if vs.len() == 0 {
        0
    } else {
        comp_sum(metric, cents, vs.drop_last(), c, t) + if nearest(metric, cents, vs.last())
            == c {
            vs.last()[t] as int
        } else {
            0
        }
    }
}

/// The cluster count is between zero and the corpus size, and the component
/// sum of a cluster is bounded by its member count.
pub proof fn lemma_cluster_bounds(
    metric: DistanceMetric,
    cents: Seq<Seq<i16>>,
    vs: Seq<Seq<i16>>,
    c: int,
    t: int,
    d: int,
)
    requires
        uniform_dim(vs, d),
        0 <= t < d,
    ensures
        0 <= cluster_count(metric, cents, vs, c) <= vs.len(),
        -(cluster_count(metric, cents, vs, c) * 0x8000) <= comp_sum(metric, cents, vs, c, t)
            <= cluster_count(metric, cents, vs, c) * 0x7fff,
    decreases vs.len(),
{
    if vs.len() > 0 {
        assert(uniform_dim(vs.drop_last(), d));
        lemma_cluster_bounds(metric, cents, vs.drop_last(), c, t, d);
        assert(vs.last().len() == d);
    }
}

/// Division rounding toward zero, the mean-update rule.
pub open spec fn div_trunc(a: int, b: int) -> int {
    if a >= 0 {
        a / b
    } else {
        -((-a) / b)
    }
}

/// The updated centroid of cluster `c`: the componentwise mean of its
/// members when it has any, else the corpus vector farthest from the
/// cluster's current centroid (the empty-cluster reseeding policy).
pub open spec fn updated_centroid(
    metric: DistanceMetric,
    cents: Seq<Seq<i16>>,
    vs: Seq<Seq<i16>>,
    c: int,
    d: nat,
) -> Seq<i16> {
    let cnt = cluster_count(metric, cents, vs, c);
    if cnt == 0 {
        vs[farthest(metric, vs, cents[c])]
    } else {
        Seq::new(d, |t: int| div_trunc(comp_sum(metric, cents, vs, c, t), cnt) as i16)
    }
}

/// One Lloyd iteration: every centroid is replaced by its cluster's mean,
/// or reseeded when its cluster is empty.
pub open spec fn step(
    metric: DistanceMetric,
    cents: Seq<Seq<i16>>,
    vs: Seq<Seq<i16>>,
    d: nat,
) -> Seq<Seq<i16>> {
    Seq::new(cents.len(), |c: int| updated_centroid(metric, cents, vs, c, d))
}

/// Lloyd iterations from `cents`, at most `iters` of them, stopping early
/// when an iteration leaves every vector's assignment unchanged.
pub open spec fn iterate(
    metric: DistanceMetric,
    cents: Seq<Seq<i16>>,
    vs: Seq<Seq<i16>>,
    d: nat,
    iters: nat,
) -> Seq<Seq<i16>>
    decreases iters,
{
    if iters == 0 {
        cents
    } else {
        let next = step(metric, cents, vs, d);
        if assignment(metric, next, vs) == assignment(metric, cents, vs) {
            next
        } else {
            iterate(metric, next, vs, d, (iters - 1) as nat)
        }
    }
}

/// How many iterations `iterate` performs before returning.
pub open spec fn steps_needed(
    metric: DistanceMetric,
    cents: Seq<Seq<i16>>,
    vs: Seq<Seq<i16>>,
    d: nat,
    iters: nat,
) -> nat
    decreases iters,
{
    if iters == 0 {
        0
    } else {
        let next = step(metric, cents, vs, d);
        if assignment(metric, next, vs) == assignment(metric, cents, vs) {
            1
        } else {
            1 + steps_needed(metric, next, vs, d, (iters - 1) as nat)
        }
    }
}

/// The seeded initial centroids: `k` corpus vectors starting at offset
/// `seed mod n`, consecutive modulo `n`, so distinct whenever `k <= n`.
pub open spec fn init_centroids(vs: Seq<Seq<i16>>, k: nat, seed: u64) -> Seq<Seq<i16>> {
    Seq::new(k, |j: int| vs[(((seed as int) % (vs.len() as int)) + j) % (vs.len() as int)])
}

/// What `Quantizer::fit` returns on a corpus of at least `k` vectors of
/// dimension `d`: the seeded initial centroids refined by at most
/// `max_iterations` Lloyd iterations.
pub open spec fn fit_spec(
    vs: Seq<Seq<i16>>,
    k: nat,
    metric: DistanceMetric,
    max_iterations: nat,
    seed: u64,
    d: nat,
) -> Seq<Seq<i16>> {
    iterate(metric, init_centroids(vs, k, seed), vs, d, max_iterations)
}

/// The index of the centroid nearest to `v`, computed by one pass.
pub fn nearest_exec(metric: DistanceMetric, cents: &Vec<PGVector>, v: &PGVector) -> (r: usize)
    requires
        cents@.len() >= 1,
        uniform_dim(views_of(cents@), v@.len() as int),
        v@.len() <= DIM_MAX,
    ensures
        r as int == nearest(metric, views_of(cents@), v@),
        r < cents@.len(),
{
    let k = cents.len();
    let mut best: usize = 0;
    let mut j: usize = 1;
    while j < k
        invariant
            1 <= j <= k,
            k == cents@.len(),
            uniform_dim(views_of(cents@), v@.len() as int),
            v@.len() <= DIM_MAX,
            best < j,
            best as int == nearest(metric, views_of(cents@).subrange(0, j as int), v@),
        decreases k - j,
    {
        proof {
            assert(views_of(cents@)[best as int].len() == v@.len());
            assert(views_of(cents@)[j as int].len() == v@.len());
        }
        if better_exec(metric, v, &cents[j], &cents[best]) {
            best = j;
        }
        j = j + 1;
        proof {
            let pre = views_of(cents@).subrange(0, j as int);
            assert(pre.drop_last() =~= views_of(cents@).subrange(0, j as int - 1));
            assert(pre.last() == views_of(cents@)[j as int - 1]);
            lemma_nearest_range(metric, pre.drop_last(), v@);
            assert(pre.drop_last()[nearest(metric, pre.drop_last(), v@)] == views_of(
                cents@,
            ).subrange(0, j as int - 1)[nearest(metric, pre.drop_last(), v@)]);
        }
    }
    proof {
        assert(views_of(cents@).subrange(0, k as int) =~= views_of(cents@));
    }
    best
}

/// The index of the vector farthest from `cent`, computed by one pass.
pub fn farthest_exec(metric: DistanceMetric, vs: &Vec<PGVector>, cent: &PGVector) -> (r: usize)
    requires
        vs@.len() >= 1,
        uniform_dim(views_of(vs@), cent@.len() as int),
        cent@.len() <= DIM_MAX,
    ensures
        r as int == farthest(metric, views_of(vs@), cent@),
        r < vs@.len(),
{
    let n = vs.len();
    let mut worst: usize = 0;
    let mut j: usize = 1;
    while j < n
        invariant
            1 <= j <= n,
            n == vs@.len(),
            uniform_dim(views_of(vs@), cent@.len() as int),
            cent@.len() <= DIM_MAX,
            worst < j,
            worst as int == farthest(metric, views_of(vs@).subrange(0, j as int), cent@),
        decreases n - j,
    {
        proof {
            assert(views_of(vs@)[worst as int].len() == cent@.len());
            assert(views_of(vs@)[j as int].len() == cent@.len());
        }
        if better_exec(metric, cent, &vs[worst], &vs[j]) {
            worst = j;
        }
        j = j + 1;
        proof {
            let pre = views_of(vs@).subrange(0, j as int);
            assert(pre.drop_last() =~= views_of(vs@).subrange(0, j as int - 1));
            assert(pre.last() == views_of(vs@)[j as int - 1]);
            lemma_farthest_range(metric, pre.drop_last(), cent@);
            assert(pre[farthest(metric, pre.drop_last(), cent@)] == views_of(vs@).subrange(
                0,
                j as int - 1,
            )[farthest(metric, pre.drop_last(), cent@)]);
        }
    }
    proof {
        assert(views_of(vs@).subrange(0, n as int) =~= views_of(vs@));
    }
    worst
}

/// The assignment of every corpus vector to its nearest centroid.
pub fn assign_all(metric: DistanceMetric, cents: &Vec<PGVector>, vectors: &Vec<PGVector>, d: usize) -> (r:
    Vec<usize>)
    requires
        cents@.len() >= 1,
        uniform_dim(views_of(cents@), d as int),
        uniform_dim(views_of(vectors@), d as int),
        d <= DIM_MAX,
    ensures
        asg_matches(r@, metric, views_of(cents@), views_of(vectors@)),
        forall|i: int| 0 <= i < r@.len() ==> (#[trigger] r@[i]) < cents@.len(),
{
    let n = vectors.len();
    let mut asg: Vec<usize> = Vec::new();
    let mut i: usize = 0;
    while i < n
        invariant
            i <= n,
            n == vectors@.len(),
            cents@.len() >= 1,
            uniform_dim(views_of(cents@), d as int),
            uniform_dim(views_of(vectors@), d as int),
            d <= DIM_MAX,
            asg@.len() == i,
            forall|j: int| 0 <= j < i ==> (#[trigger] asg@[j]) as int == nearest(
                metric,
                views_of(cents@),
                views_of(vectors@)[j],
            ),
            forall|j: int| 0 <= j < i ==> (#[trigger] asg@[j]) < cents@.len(),
        decreases n - i,
    {
        proof {
            assert(views_of(vectors@)[i as int] == vectors@[i as int]@);
            assert(views_of(vectors@)[i as int].len() == d);
        }
        let c = nearest_exec(metric, cents, &vectors[i]);
        asg.push(c);
        i = i + 1;
    }
    asg
}

/// `asg` records, entry by entry, the nearest centroid of every vector.
pub open spec fn asg_matches(
    asg: Seq<usize>,
    metric: DistanceMetric,
    cents: Seq<Seq<i16>>,
    vs: Seq<Seq<i16>>,
) -> bool {
    &&& asg.len() == vs.len()
    &&& forall|j: int|
        0 <= j < vs.len() ==> (#[trigger] asg[j]) as int == nearest(metric, cents, vs[j])
}

/// How many entries of `asg` name cluster `c`.
fn count_members(
    metric: DistanceMetric,
    cents: &Vec<PGVector>,
    vectors: &Vec<PGVector>,
    asg: &Vec<usize>,
    c: usize,
) -> (r: usize)
    requires
        asg_matches(asg@, metric, views_of(cents@), views_of(vectors@)),
    ensures
        r as int == cluster_count(metric, views_of(cents@), views_of(vectors@), c as int),
{
    let n = asg.len();
    let mut cnt: usize = 0;
    let mut i: usize = 0;
    while i < n
        invariant
            i <= n,
            n == asg@.len(),
            asg_matches(asg@, metric, views_of(cents@), views_of(vectors@)),
            cnt <= i,
            cnt as int == cluster_count(
                metric,
                views_of(cents@),
                views_of(vectors@).subrange(0, i as int),
                c as int,
            ),
        decreases n - i,
    {
        proof {
            let pre = views_of(vectors@).subrange(0, i as int + 1);
            assert(pre.drop_last() =~= views_of(vectors@).subrange(0, i as int));
            assert(pre.last() == views_of(vectors@)[i as int]);
            lemma_cluster_count_nonneg(
                metric,
                views_of(cents@),
                views_of(vectors@).subrange(0, i as int),
                c as int,
            );
        }
        if asg[i] == c {
            cnt = cnt + 1;
        }
        i = i + 1;
    }
    proof {
        assert(views_of(vectors@).subrange(0, n as int) =~= views_of(vectors@));
    }
    cnt
}

/// A cluster's member count is between zero and the corpus size.
pub proof fn lemma_cluster_count_nonneg(
    metric: DistanceMetric,
    cents: Seq<Seq<i16>>,
    vs: Seq<Seq<i16>>,
    c: int,
)
    ensures
        0 <= cluster_count(metric, cents, vs, c) <= vs.len(),
    decreases vs.len(),
{
    if vs.len() > 0 {
        lemma_cluster_count_nonneg(metric, cents, vs.drop_last(), c);
    }
}

/// The componentwise mean of the members of a nonempty cluster, each
/// component divided by the count rounding toward zero.
fn mean_centroid(
    metric: DistanceMetric,
    cents: &Vec<PGVector>,
    vectors: &Vec<PGVector>,
    asg: &Vec<usize>,
    c: usize,
    cnt: usize,
    d: usize,
) -> (r: PGVector)
    requires
        asg_matches(asg@, metric, views_of(cents@), views_of(vectors@)),
        uniform_dim(views_of(vectors@), d as int),
        vectors@.len() <= CORPUS_MAX,
        cnt as int == cluster_count(metric, views_of(cents@), views_of(vectors@), c as int),
        cnt > 0,
    ensures
        r@ == Seq::new(
            d as nat,
            |t: int|
                div_trunc(
                    comp_sum(metric, views_of(cents@), views_of(vectors@), c as int, t),
                    cnt as int,
                ) as i16,
        ),
{
    let n = vectors.len();
    let mut row: Vec<i16> = Vec::new();
    let mut t: usize = 0;
    while t < d
        invariant
            t <= d,
            n == vectors@.len(),
            n <= CORPUS_MAX,
            asg_matches(asg@, metric, views_of(cents@), views_of(vectors@)),
            uniform_dim(views_of(vectors@), d as int),
            cnt as int == cluster_count(metric, views_of(cents@), views_of(vectors@), c as int),
            cnt > 0,
            row@.len() == t,
            forall|u: int|
                0 <= u < t ==> (#[trigger] row@[u]) == div_trunc(
                    comp_sum(metric, views_of(cents@), views_of(vectors@), c as int, u),
                    cnt as int,
                ) as i16,
        decreases d - t,
    {
        let mut s: i64 = 0;
        let mut i: usize = 0;
        while i < n
            invariant
                i <= n,
                n == vectors@.len(),
                n <= CORPUS_MAX,
                t < d,
                asg_matches(asg@, metric, views_of(cents@), views_of(vectors@)),
                uniform_dim(views_of(vectors@), d as int),
                s as int == comp_sum(
                    metric,
                    views_of(cents@),
                    views_of(vectors@).subrange(0, i as int),
                    c as int,
                    t as int,
                ),
                -(i as int) * 0x8000 <= s as int <= (i as int) * 0x8000,
            decreases n - i,
        {
            proof {
                let pre = views_of(vectors@).subrange(0, i as int + 1);
                assert(pre.drop_last() =~= views_of(vectors@).subrange(0, i as int));
                assert(pre.last() == views_of(vectors@)[i as int]);
                assert(views_of(vectors@)[i as int] == vectors@[i as int]@);
            }
            if asg[i] == c {
                s = s + (vectors[i].dims[t] as i64);
            }
            i = i + 1;
        }
        proof {
            assert(views_of(vectors@).subrange(0, n as int) =~= views_of(vectors@));
            lemma_cluster_bounds(
                metric,
                views_of(cents@),
                views_of(vectors@),
                c as int,
                t as int,
                d as int,
            );
        }
        let m = div_toward_zero(s, cnt);
        row.push(m);
        t = t + 1;
    }
    proof {
        assert(row@ =~= Seq::new(
            d as nat,
            |u: int|
                div_trunc(
                    comp_sum(metric, views_of(cents@), views_of(vectors@), c as int, u),
                    cnt as int,
                ) as i16,
        ));
    }
    PGVector { dims: row }
}

/// `s / cnt` rounding toward zero, for a componentwise sum of at most
/// `cnt` fixed-point components.
fn div_toward_zero(s: i64, cnt: usize) -> (r: i16)
    requires
        0 < cnt <= CORPUS_MAX,
        -(cnt as int) * 0x8000 <= s as int <= (cnt as int) * 0x7fff,
    ensures
        r as int == div_trunc(s as int, cnt as int),
{
    if s >= 0 {
        let q = (s as u64) / (cnt as u64);
        proof {
            assert(s as int / cnt as int <= 0x7fff) by (nonlinear_arith)
                requires
                    cnt as int > 0,
                    s as int <= (cnt as int) * 0x7fff,
                    s >= 0,
            ;
            assert(s as int / cnt as int >= 0) by (nonlinear_arith)
                requires
                    cnt as int > 0,
                    s >= 0,
            ;
        }
        q as i16
    } else {
        let mag = (-s) as u64;
        let q = mag / (cnt as u64);
        proof {
            assert(mag as int / cnt as int <= 0x8000) by (nonlinear_arith)
                requires
                    cnt as int > 0,
                    mag as int <= (cnt as int) * 0x8000,
            ;
            assert(mag as int / cnt as int >= 0) by (nonlinear_arith)
                requires
                    cnt as int > 0,
                    mag as int >= 0,
            ;
        }
        let qi = -(q as i64);
        qi as i16
    }
}

/// One executable Lloyd iteration: the updated centroids, and whether any
/// vector's assignment changed from the given centroids to the updated ones.
fn step_exec(
    metric: DistanceMetric,
    cents: &Vec<PGVector>,
    vectors: &Vec<PGVector>,
    d: usize,
) -> (r: (Vec<PGVector>, bool))
    requires
        cents@.len() >= 1,
        vectors@.len() >= 1,
        uniform_dim(views_of(cents@), d as int),
        uniform_dim(views_of(vectors@), d as int),
        d <= DIM_MAX,
        vectors@.len() <= CORPUS_MAX,
    ensures
        views_of(r.0@) == step(metric, views_of(cents@), views_of(vectors@), d as nat),
        r.0@.len() == cents@.len(),
        uniform_dim(views_of(r.0@), d as int),
        r.1 == (assignment(metric, views_of(r.0@), views_of(vectors@)) != assignment(
            metric,
            views_of(cents@),
            views_of(vectors@),
        )),
{
    let k = cents.len();
    let n = vectors.len();
    let asg = assign_all(metric, cents, vectors, d);
    let mut new_cents: Vec<PGVector> = Vec::new();
    let mut c: usize = 0;
    while c < k
        invariant
            c <= k,
            k == cents@.len(),
            n == vectors@.len(),
            1 <= n <= CORPUS_MAX,
            k >= 1,
            d <= DIM_MAX,
            uniform_dim(views_of(cents@), d as int),
            uniform_dim(views_of(vectors@), d as int),
            asg_matches(asg@, metric, views_of(cents@), views_of(vectors@)),
            new_cents@.len() == c,
            forall|j: int|
                0 <= j < c ==> (#[trigger] new_cents@[j])@ == updated_centroid(
                    metric,
                    views_of(cents@),
                    views_of(vectors@),
                    j,
                    d as nat,
                ),
            forall|j: int| 0 <= j < c ==> (#[trigger] new_cents@[j])@.len() == d,
        decreases k - c,
    {
        let cnt = count_members(metric, cents, vectors, &asg, c);
        if cnt == 0 {
            proof {
                assert(views_of(cents@)[c as int] == cents@[c as int]@);
            }
            let f = farthest_exec(metric, vectors, &cents[c]);
            proof {
                assert(views_of(vectors@)[f as int] == vectors@[f as int]@);
            }
            let nc = copy_vector(&vectors[f]);
            new_cents.push(nc);
        } else {
            let nc = mean_centroid(metric, cents, vectors, &asg, c, cnt, d);
            new_cents.push(nc);
        }
        c = c + 1;
    }
    proof {
        assert(views_of(new_cents@) =~= step(
            metric,
            views_of(cents@),
            views_of(vectors@),
            d as nat,
        ));
    }
    let asg2 = assign_all(metric, &new_cents, vectors, d);
    let mut changed = false;
    let mut i: usize = 0;
    while i < n
        invariant
            i <= n,
            n == vectors@.len(),
            asg@.len() == n,
            asg2@.len() == n,
            asg_matches(asg@, metric, views_of(cents@), views_of(vectors@)),
            asg_matches(asg2@, metric, views_of(new_cents@), views_of(vectors@)),
            changed == exists|j: int| 0 <= j < i && asg@[j] != asg2@[j],
        decreases n - i,
    {
        if asg[i] != asg2[i] {
            changed = true;
        }
        i = i + 1;
    }
    proof {
        let a_old = assignment(metric, views_of(cents@), views_of(vectors@));
        let a_new = assignment(metric, views_of(new_cents@), views_of(vectors@));
        if changed {
            let j = choose|j: int| 0 <= j < n && asg@[j] != asg2@[j];
            assert(a_old[j] != a_new[j]);
        } else {
            assert forall|j: int| 0 <= j < n implies a_old[j] == a_new[j] by {
                assert(asg@[j] == asg2@[j]);
            }
            assert(a_old =~= a_new);
        }
    }
    (new_cents, changed)
}

/// At least one iteration is counted whenever any may run.
proof fn lemma_steps_needed_pos(
    metric: DistanceMetric,
    cents: Seq<Seq<i16>>,
    vs: Seq<Seq<i16>>,
    d: nat,
    iters: nat,
)
    requires
        iters >= 1,
    ensures
        steps_needed(metric, cents, vs, d, iters) >= 1,
{
}

/// Lloyd's k-means over a corpus of equal-dimension vectors, with a
/// cooperative cancellation budget checked between iterations.
///
/// Returns exactly `fit_spec` of the inputs on success. Fails with
/// `InvalidK` exactly when `k == 0`, with `InsufficientData` exactly when
/// the corpus holds fewer than `k` vectors, and with `BuildCancelled`
/// exactly when a budget of `b` completed iterations is given and the run
/// needs more than `b`; a cancelled run publishes nothing.
pub fn fit_cancellable(
    vectors: &Vec<PGVector>,
    k: usize,
    metric: DistanceMetric,
    max_iterations: usize,
    seed: u64,
    cancel_after: Option<usize>,
) -> (r: Result<Vec<PGVector>, VectorError>)
    requires
        vectors@.len() >= 1 ==> uniform_dim(views_of(vectors@), vectors@[0]@.len() as int),
        vectors@.len() >= 1 ==> vectors@[0]@.len() <= DIM_MAX,
        vectors@.len() <= CORPUS_MAX,
    ensures
        ({
            let vsv = views_of(vectors@);
            let d = if vectors@.len() >= 1 {
                vectors@[0]@.len() as nat
            } else {
                0
            };
            match r {
                Ok(c) => {
                    &&& k >= 1
                    &&& vectors@.len() >= k
                    &&& views_of(c@) == fit_spec(
                        vsv,
                        k as nat,
                        metric,
                        max_iterations as nat,
                        seed,
                        d,
                    )
                    &&& c@.len() == k
                    &&& uniform_dim(views_of(c@), d as int)
                    &&& (cancel_after matches Some(b) ==> steps_needed(
                        metric,
                        init_centroids(vsv, k as nat, seed),
                        vsv,
                        d,
                        max_iterations as nat,
                    ) <= b)
                },
                Err(e) => {
                    if k == 0 {
                        e == VectorError::InvalidK
                    } else if vectors@.len() < k {
                        e == VectorError::InsufficientData
                    } else {
                        &&& e == VectorError::BuildCancelled
                        &&& cancel_after matches Some(b) && steps_needed(
                            metric,
                            init_centroids(vsv, k as nat, seed),
                            vsv,
                            d,
                            max_iterations as nat,
                        ) > b
                    }
                },
            }
        }),
{
    if k == 0 {
        return Err(VectorError::InvalidK);
    }
    if vectors.len() < k {
        return Err(VectorError::InsufficientData);
    }
    let n = vectors.len();
    let d = vectors[0].dims.len();
    let ghost vsv = views_of(vectors@);
    let ghost initial = init_centroids(vsv, k as nat, seed);

    let s0 = (seed % (n as u64)) as usize;
    let mut cents: Vec<PGVector> = Vec::new();
    let mut j: usize = 0;
    while j < k
        invariant
            j <= k,
            1 <= k <= n,
            n == vectors@.len(),
            n <= CORPUS_MAX,
            s0 < n,
            s0 as int == (seed as int) % (n as int),
            uniform_dim(vsv, d as int),
            vsv == views_of(vectors@),
            cents@.len() == j,
            forall|i: int|
                0 <= i < j ==> (#[trigger] cents@[i])@ == init_centroids(vsv, k as nat, seed)[i],
        decreases k - j,
    {
        proof {
            assert((s0 + j) as int % (n as int) < n as int) by (nonlinear_arith)
                requires
                    n as int > 0,
                    s0 + j >= 0,
            ;
        }
        let idx = (s0 + j) % n;
        proof {
            assert(views_of(vectors@)[idx as int] == vectors@[idx as int]@);
        }
        let nc = copy_vector(&vectors[idx]);
        cents.push(nc);
        j = j + 1;
    }
    proof {
        assert(views_of(cents@) =~= initial);
        assert(uniform_dim(views_of(cents@), d as int)) by {
            assert forall|i: int| 0 <= i < k implies (#[trigger] views_of(cents@)[i]).len()
                == d by {
                assert(views_of(cents@)[i] == cents@[i]@);
            }
        }
    }

    let mut converged = false;
    let mut i: usize = 0;
    while !converged && i < max_iterations
        invariant
            i <= max_iterations,
            1 <= k <= n,
            n == vectors@.len(),
            n <= CORPUS_MAX,
            d <= DIM_MAX,
            d as int == vectors@[0]@.len(),
            vsv == views_of(vectors@),
            initial == init_centroids(vsv, k as nat, seed),
            uniform_dim(vsv, d as int),
            cents@.len() == k,
            uniform_dim(views_of(cents@), d as int),
            !converged ==> iterate(
                metric,
                views_of(cents@),
                vsv,
                d as nat,
                (max_iterations - i) as nat,
            ) == fit_spec(vsv, k as nat, metric, max_iterations as nat, seed, d as nat),
            !converged ==> steps_needed(metric, initial, vsv, d as nat, max_iterations as nat) == i
                + steps_needed(metric, views_of(cents@), vsv, d as nat, (max_iterations - i) as nat),
            converged ==> views_of(cents@) == fit_spec(
                vsv,
                k as nat,
                metric,
                max_iterations as nat,
                seed,
                d as nat,
            ),
            converged ==> steps_needed(metric, initial, vsv, d as nat, max_iterations as nat) == i,
            cancel_after matches Some(b) ==> i <= b,
        decreases max_iterations - i,
    {
        match cancel_after {
            Some(b) => {
                if i >= b {
                    proof {
                        lemma_steps_needed_pos(
                            metric,
                            views_of(cents@),
                            vsv,
                            d as nat,
                            (max_iterations - i) as nat,
                        );
                    }
                    return Err(VectorError::BuildCancelled);
                }
            },
            None => {},
        }
        let (next, changed) = step_exec(metric, &cents, vectors, d);
        cents = next;
        i = i + 1;
        if !changed {
            converged = true;
        }
    }
    proof {
        if !converged {
            assert(i == max_iterations);
            assert(iterate(metric, views_of(cents@), vsv, d as nat, 0) == views_of(cents@));
        }
        match cancel_after {
            Some(b) => {
                assert(steps_needed(metric, initial, vsv, d as nat, max_iterations as nat) <= b);
            },
            None => {},
        }
    }
    Ok(cents)
}

/// Lloyd's k-means: the public quantizer entry point.
///
/// Deterministic by construction: the result is a function (`fit_spec`) of
/// the corpus, `k`, the metric, the iteration cap and the seed alone, so
/// repeated runs on identical inputs return bit-identical centroids.
pub fn fit(
    vectors: &Vec<PGVector>,
    k: usize,
    metric: DistanceMetric,
    max_iterations: usize,
    seed: u64,
) -> (r: Result<Vec<PGVector>, VectorError>)
    requires
        vectors@.len() >= 1 ==> uniform_dim(views_of(vectors@), vectors@[0]@.len() as int),
        vectors@.len() >= 1 ==> vectors@[0]@.len() <= DIM_MAX,
        vectors@.len() <= CORPUS_MAX,
    ensures
        ({
            let vsv = views_of(vectors@);
            let d = if vectors@.len() >= 1 {
                vectors@[0]@.len() as nat
            } else {
                0
            };
            match r {
                Ok(c) => {
                    &&& k >= 1
                    &&& vectors@.len() >= k
                    &&& views_of(c@) == fit_spec(
                        vsv,
                        k as nat,
                        metric,
                        max_iterations as nat,
                        seed,
                        d,
                    )
                    &&& c@.len() == k
                    &&& uniform_dim(views_of(c@), d as int)
                },
                Err(e) => {
                    if k == 0 {
                        e == VectorError::InvalidK
                    } else {
                        e == VectorError::InsufficientData && vectors@.len() < k
                    }
                },
            }
        }),
{
    fit_cancellable(vectors, k, metric, max_iterations, seed, None)
}

} // verus!
