use vstd::prelude::*;
use crate::errors::VectorError;
use crate::quantizer::{assign_all, asg_matches, fit_cancellable, fit_spec, init_centroids, nearest,
    steps_needed, uniform_dim, views_of};
use crate::vector::{copy_vector, DistanceMetric, PGVector, CORPUS_MAX, DIM_MAX};

verus! {

/// The `(id, components)` pairs of a corpus.
pub open spec fn entry_views(es: Seq<(i32, PGVector)>) -> Seq<(i32, Seq<i16>)> {
    es.map_values(|e: (i32, PGVector)| (e.0, e.1@))
}

/// The vector components of a corpus, ids dropped.
pub open spec fn corpus_vectors(es: Seq<(i32, Seq<i16>)>) -> Seq<Seq<i16>> {
    es.map_values(|e: (i32, Seq<i16>)| e.1)
}

/// The ids of a corpus, in corpus order.
pub open spec fn ids_of(es: Seq<(i32, Seq<i16>)>) -> Seq<i32> {
    es.map_values(|e: (i32, Seq<i16>)| e.0)
}

/// No id occurs twice: each vector belongs to exactly one row.
pub open spec fn unique_ids(es: Seq<(i32, Seq<i16>)>) -> bool {
    forall|i: int, j: int| 0 <= i < j < es.len() ==> es[i].0 != es[j].0
}

/// Every corpus vector has dimension `d`.
pub open spec fn entries_dim(es: Seq<(i32, Seq<i16>)>, d: int) -> bool {
    forall|i: int| 0 <= i < es.len() ==> (#[trigger] es[i]).1.len() == d
}

/// The postings list of cluster `c`: the ids of the entries whose nearest
/// centroid is `c`, in corpus order.
pub open spec fn posting_spec(
    metric: DistanceMetric,
    cents: Seq<Seq<i16>>,
    es: Seq<(i32, Seq<i16>)>,
    c: int,
) -> Seq<i32>
    decreases es.len(),
{
    if es.len() == 0 {
        Seq::empty()
    } else {
        let rest = posting_spec(metric, cents, es.drop_last(), c);
        if nearest(metric, cents, es.last().1) == c {
            rest.push(es.last().0)
        } else {
            rest
        }
    }
}

/// One immutable index snapshot: the coarse quantizer's centroids (the
/// position of a centroid is its `cluster_id`), the per-cluster postings
/// lists, and the retained `(id, vector)` corpus the searcher ranks with.
///
/// A snapshot is produced whole by one build and never mutated afterwards;
/// replacing it is a single store update.
pub struct InvertedIndex {
    pub dimension: usize,
    pub metric: DistanceMetric,
    pub centroids: Vec<PGVector>,
    pub postings: Vec<Vec<i32>>,
    pub entries: Vec<(i32, PGVector)>,
}

impl InvertedIndex {
    /// The centroid component sequences.
    pub open spec fn cent_views(self) -> Seq<Seq<i16>> {
        views_of(self.centroids@)
    }

    /// The `(id, components)` pairs of the retained corpus.
    pub open spec fn evs(self) -> Seq<(i32, Seq<i16>)> {
        entry_views(self.entries@)
    }

    /// Internal consistency of a snapshot: at least one cluster, one
    /// postings list per cluster holding exactly the ids assigned to it,
    /// uniform dimensions, and unique ids.
    pub open spec fn wf(self) -> bool {
        &&& 1 <= self.centroids@.len() <= CORPUS_MAX
        &&& self.postings@.len() == self.centroids@.len()
        &&& self.dimension <= DIM_MAX
        &&& 1 <= self.entries@.len() <= CORPUS_MAX
        &&& uniform_dim(self.cent_views(), self.dimension as int)
        &&& entries_dim(self.evs(), self.dimension as int)
        &&& unique_ids(self.evs())
        &&& forall|c: int|
            0 <= c < self.postings@.len() ==> (#[trigger] self.postings@[c])@ == posting_spec(
                self.metric,
                self.cent_views(),
                self.evs(),
                c,
            )
    }
}

/// The id of the first corpus entry whose vector does not have dimension
/// `d`, if any: the offender an index build reports.
pub fn first_dimension_offender(corpus: &Vec<(i32, PGVector)>, d: usize) -> (r: Option<i32>)
    ensures
        match r {
            Some(id) => exists|i: int|
                0 <= i < corpus@.len() && (#[trigger] entry_views(corpus@)[i]).1.len() != d
                    && entry_views(corpus@)[i].0 == id,
            None => entries_dim(entry_views(corpus@), d as int),
        },
{
    let n = corpus.len();
    let mut i: usize = 0;
    while i < n
        invariant
            i <= n,
            n == corpus@.len(),
            forall|j: int| 0 <= j < i ==> (#[trigger] entry_views(corpus@)[j]).1.len() == d,
        decreases n - i,
    {
        if corpus[i].1.dims.len() != d {
            proof {
                assert(entry_views(corpus@)[i as int].1.len() != d);
            }
            return Some(corpus[i].0);
        }
        i = i + 1;
    }
    None
}

/// Builds one index snapshot from a corpus of `(id, vector)` rows: runs the
/// quantizer, assigns every entry to its nearest centroid, and assembles
/// the postings.
///
/// Fails with `EmptyCorpus` exactly when the corpus is empty; with
/// `DimensionMismatch` exactly when some entry's dimension differs from
/// `dimension`; then with the quantizer's own errors (`InvalidK`,
/// `InsufficientData`, `BuildCancelled`) under exactly the quantizer's
/// conditions. A failed build returns nothing: no partial snapshot exists.
pub fn build_index(
    corpus: Vec<(i32, PGVector)>,
    dimension: usize,
    metric: DistanceMetric,
    k: usize,
    max_iterations: usize,
    seed: u64,
    cancel_after: Option<usize>,
) -> (r: Result<InvertedIndex, VectorError>)
    requires
        corpus@.len() <= CORPUS_MAX,
        dimension <= DIM_MAX,
        unique_ids(entry_views(corpus@)),
    ensures
        ({
            let evs = entry_views(corpus@);
            let vsv = corpus_vectors(evs);
            match r {
                Ok(idx) => {
                    &&& corpus@.len() >= 1
                    &&& entries_dim(evs, dimension as int)
                    &&& 1 <= k <= corpus@.len()
                    &&& idx.wf()
                    &&& idx.dimension == dimension
                    &&& idx.metric == metric
                    &&& idx.evs() == evs
                    &&& idx.centroids@.len() == k
                    &&& idx.cent_views() == fit_spec(
                        vsv,
                        k as nat,
                        metric,
                        max_iterations as nat,
                        seed,
                        dimension as nat,
                    )
                    &&& (cancel_after matches Some(b) ==> steps_needed(
                        metric,
                        init_centroids(vsv, k as nat, seed),
                        vsv,
                        dimension as nat,
                        max_iterations as nat,
                    ) <= b)
                },
                Err(e) => {
                    if corpus@.len() == 0 {
                        e == VectorError::EmptyCorpus
                    } else if !entries_dim(evs, dimension as int) {
                        e == VectorError::DimensionMismatch
                    } else if k == 0 {
                        e == VectorError::InvalidK
                    } else if corpus@.len() < k {
                        e == VectorError::InsufficientData
                    } else {
                        &&& e == VectorError::BuildCancelled
                        &&& cancel_after matches Some(b) && steps_needed(
                            metric,
                            init_centroids(vsv, k as nat, seed),
                            vsv,
                            dimension as nat,
                            max_iterations as nat,
                        ) > b
                    }
                },
            }
        }),
{
    let n = corpus.len();
    if n == 0 {
        return Err(VectorError::EmptyCorpus);
    }
    match first_dimension_offender(&corpus, dimension) {
        Some(_) => {
            return Err(VectorError::DimensionMismatch);
        },
        None => {},
    }
    let ghost evs = entry_views(corpus@);
    let ghost vsv = corpus_vectors(evs);

    let mut vectors: Vec<PGVector> = Vec::new();
    let mut i: usize = 0;
    while i < n
        invariant
            i <= n,
            n == corpus@.len(),
            evs == entry_views(corpus@),
            vsv == corpus_vectors(evs),
            vectors@.len() == i,
            forall|j: int| 0 <= j < i ==> (#[trigger] vectors@[j])@ == vsv[j],
        decreases n - i,
    {
        proof {
            assert(vsv[i as int] == corpus@[i as int].1@);
        }
        let v = copy_vector(&corpus[i].1);
        vectors.push(v);
        i = i + 1;
    }
    proof {
        assert(views_of(vectors@) =~= vsv);
        assert(vectors@[0]@.len() == dimension);
        assert(uniform_dim(views_of(vectors@), dimension as int)) by {
            assert forall|j: int| 0 <= j < n implies (#[trigger] views_of(vectors@)[j]).len()
                == dimension by {
                assert(views_of(vectors@)[j] == vectors@[j]@);
                assert(evs[j].1.len() == dimension);
            }
        }
    }
    let cents = match fit_cancellable(&vectors, k, metric, max_iterations, seed, cancel_after) {
        Ok(c) => c,
        Err(e) => {
            return Err(e);
        },
    };

    let asg = assign_all(metric, &cents, &vectors, dimension);
    let kk = cents.len();
    let mut postings: Vec<Vec<i32>> = Vec::new();
    let mut c: usize = 0;
    while c < kk
        invariant
            c <= kk,
            kk == cents@.len(),
            n == corpus@.len(),
            n == vectors@.len(),
            evs == entry_views(corpus@),
            vsv == corpus_vectors(evs),
            views_of(vectors@) == vsv,
            asg_matches(asg@, metric, views_of(cents@), views_of(vectors@)),
            postings@.len() == c,
            forall|cc: int|
                0 <= cc < c ==> (#[trigger] postings@[cc])@ == posting_spec(
                    metric,
                    views_of(cents@),
                    evs,
                    cc,
                ),
        decreases kk - c,
    {
        let mut p: Vec<i32> = Vec::new();
        let mut i: usize = 0;
        while i < n
            invariant
                i <= n,
                c < kk,
                kk == cents@.len(),
                n == corpus@.len(),
                n == vectors@.len(),
                evs == entry_views(corpus@),
                vsv == corpus_vectors(evs),
                views_of(vectors@) == vsv,
                asg_matches(asg@, metric, views_of(cents@), views_of(vectors@)),
                p@ == posting_spec(metric, views_of(cents@), evs.subrange(0, i as int), c as int),
            decreases n - i,
        {
            proof {
                let pre = evs.subrange(0, i as int + 1);
                assert(pre.drop_last() =~= evs.subrange(0, i as int));
                assert(pre.last() == evs[i as int]);
                assert(evs[i as int].1 == vsv[i as int]);
                assert(views_of(vectors@)[i as int] == vsv[i as int]);
                assert(evs[i as int].0 == corpus@[i as int].0);
            }
            if asg[i] == c {
                p.push(corpus[i].0);
            }
            i = i + 1;
        }
        proof {
            assert(evs.subrange(0, n as int) =~= evs);
        }
        postings.push(p);
        c = c + 1;
    }

    let idx = InvertedIndex { dimension, metric, centroids: cents, postings, entries: corpus };
    proof {
        assert(idx.evs() =~= evs);
        assert(entries_dim(idx.evs(), dimension as int));
    }
    Ok(idx)
}

/// The published snapshots, one per key: the only mutable state of the
/// engine. A build replaces a key's snapshot in one store update and never
/// exposes a partial result.
pub struct IndexStore {
    pub entries: Vec<(u64, InvertedIndex)>,
}

/// Some snapshot is published under `key`.
pub open spec fn store_has(s: Seq<(u64, InvertedIndex)>, key: u64) -> bool {
    exists|i: int| 0 <= i < s.len() && s[i].0 == key
}

/// The snapshot published under `key`.
pub open spec fn store_at(s: Seq<(u64, InvertedIndex)>, key: u64) -> InvertedIndex {
    s[choose|i: int| 0 <= i < s.len() && s[i].0 == key].1
}

impl IndexStore {
    /// Keys are unique, and every published snapshot is well-formed.
    pub open spec fn wf(self) -> bool {
        &&& forall|i: int, j: int|
            0 <= i < j < self.entries@.len() ==> self.entries@[i].0 != self.entries@[j].0
        &&& forall|i: int| 0 <= i < self.entries@.len() ==> (#[trigger] self.entries@[i]).1.wf()
    }

    /// An empty store.
    pub fn new() -> (r: IndexStore)
        ensures
            r.wf(),
            r.entries@.len() == 0,
    {
        IndexStore { entries: Vec::new() }
    }

    /// A reference to the snapshot currently published under `key`, if any.
    pub fn current(&self, key: u64) -> (r: Option<&InvertedIndex>)
        requires
            self.wf(),
        ensures
            match r {
                Some(idx) => store_has(self.entries@, key) && *idx == store_at(
                    self.entries@,
                    key,
                ),
                None => !store_has(self.entries@, key),
            },
    {
        let n = self.entries.len();
        let mut i: usize = 0;
        while i < n
            invariant
                i <= n,
                n == self.entries@.len(),
                self.wf(),
                forall|j: int| 0 <= j < i ==> self.entries@[j].0 != key,
            decreases n - i,
        {
            if self.entries[i].0 == key {
                proof {
                    lemma_store_at_witness(self.entries@, key, i as int);
                }
                return Some(&self.entries[i].1);
            }
            i = i + 1;
        }
        None
    }
}

impl IndexStore {
    /// Replaces (or adds) the snapshot published under `key` in one store
    /// update; every other key's snapshot is untouched.
    fn publish(&mut self, key: u64, idx: InvertedIndex)
        requires
            old(self).wf(),
            idx.wf(),
        ensures
            final(self).wf(),
            store_has(final(self).entries@, key),
            store_at(final(self).entries@, key) == idx,
            forall|k2: u64|
                k2 != key ==> (store_has(final(self).entries@, k2) <==> store_has(
                    old(self).entries@,
                    k2,
                )),
            forall|k2: u64|
                k2 != key && store_has(old(self).entries@, k2) ==> store_at(
                    final(self).entries@,
                    k2,
                ) == store_at(old(self).entries@, k2),
    {
        let ghost s = self.entries@;
        let n = self.entries.len();
        let mut i: usize = 0;
        let mut pos: usize = n;
        while i < n
            invariant
                i <= n,
                pos <= n,
                n == self.entries@.len(),
                self.entries@ == s,
                pos == n ==> forall|j: int| 0 <= j < i ==> s[j].0 != key,
                pos < n ==> s[pos as int].0 == key,
            decreases n - i,
        {
            if pos == n && self.entries[i].0 == key {
                pos = i;
            }
            i = i + 1;
        }
        if pos < n {
            let ghost ii = pos as int;
            self.entries.remove(pos);
            let ghost s1 = self.entries@;
            proof {
                s.remove_ensures(ii);
                assert forall|j: int| 0 <= j < s1.len() implies (#[trigger] s1[j]).0 != key by {
                    if j < ii {
                        assert(s1[j] == s[j]);
                    } else {
                        assert(s1[j] == s[j + 1]);
                    }
                }
            }
            self.entries.push((key, idx));
            proof {
                let s2 = self.entries@;
                assert forall|a: int, b: int| 0 <= a < b < s2.len() implies s2[a].0 != s2[b].0 by {
                    if b < s2.len() - 1 {
                        let a0 = if a < ii { a } else { a + 1 };
                        let b0 = if b < ii { b } else { b + 1 };
                        assert(s2[a] == s[a0] && s2[b] == s[b0]);
                    } else {
                        if a < ii {
                            assert(s2[a] == s[a]);
                        } else {
                            assert(s2[a] == s[a + 1]);
                        }
                    }
                }
                assert forall|j: int| 0 <= j < s2.len() implies (#[trigger] s2[j]).1.wf() by {
                    if j < s2.len() - 1 {
                        if j < ii {
                            assert(s2[j] == s[j]);
                        } else {
                            assert(s2[j] == s[j + 1]);
                        }
                    }
                }
                lemma_store_at_witness(s2, key, s2.len() - 1);
                assert forall|k2: u64| k2 != key implies (store_has(s2, k2) <==> store_has(
                    s,
                    k2,
                )) by {
                    if store_has(s2, k2) {
                        let j = choose|j: int| 0 <= j < s2.len() && s2[j].0 == k2;
                        if j < ii {
                            assert(s[j].0 == k2);
                        } else {
                            assert(s[j + 1].0 == k2);
                        }
                    }
                    if store_has(s, k2) {
                        let j = choose|j: int| 0 <= j < s.len() && s[j].0 == k2;
                        if j < ii {
                            assert(s2[j].0 == k2);
                        } else {
                            assert(j > ii);
                            assert(s2[j - 1] == s[j]);
                        }
                    }
                }
                assert forall|k2: u64| k2 != key && store_has(s, k2) implies store_at(s2, k2)
                    == store_at(s, k2) by {
                    let j = choose|j: int| 0 <= j < s.len() && s[j].0 == k2;
                    lemma_store_at_witness(s, k2, j);
                    if j < ii {
                        lemma_store_at_witness(s2, k2, j);
                    } else {
                        assert(j > ii);
                        assert(s2[j - 1] == s[j]);
                        lemma_store_at_witness(s2, k2, j - 1);
                    }
                }
            }
        } else {
            self.entries.push((key, idx));
            proof {
                let s2 = self.entries@;
                assert forall|a: int, b: int| 0 <= a < b < s2.len() implies s2[a].0 != s2[b].0 by {
                    if b == s2.len() - 1 {
                        assert(s[a].0 != key);
                    }
                }
                lemma_store_at_witness(s2, key, s2.len() - 1);
                assert forall|k2: u64| k2 != key implies (store_has(s2, k2) <==> store_has(
                    s,
                    k2,
                )) by {
                    if store_has(s2, k2) {
                        let j = choose|j: int| 0 <= j < s2.len() && s2[j].0 == k2;
                        assert(j < s2.len() - 1);
                        assert(s[j].0 == k2);
                    }
                    if store_has(s, k2) {
                        let j = choose|j: int| 0 <= j < s.len() && s[j].0 == k2;
                        assert(s2[j].0 == k2);
                    }
                }
                assert forall|k2: u64| k2 != key && store_has(s, k2) implies store_at(s2, k2)
                    == store_at(s, k2) by {
                    let j = choose|j: int| 0 <= j < s.len() && s[j].0 == k2;
                    lemma_store_at_witness(s, k2, j);
                    lemma_store_at_witness(s2, k2, j);
                }
            }
        }
    }

    /// Builds an index over `corpus` and publishes it under `key`,
    /// replacing any prior snapshot for that key.
    ///
    /// On any error — empty corpus, dimension mismatch, bad `k`, too little
    /// data, or cooperative cancellation — the store is left exactly as it
    /// was: the previously published snapshot, if any, stays current.
    pub fn index_create(
        &mut self,
        key: u64,
        corpus: Vec<(i32, PGVector)>,
        dimension: usize,
        metric: DistanceMetric,
        k: usize,
        max_iterations: usize,
        seed: u64,
        cancel_after: Option<usize>,
    ) -> (r: Result<(), VectorError>)
        requires
            old(self).wf(),
            corpus@.len() <= CORPUS_MAX,
            dimension <= DIM_MAX,
            unique_ids(entry_views(corpus@)),
        ensures
            final(self).wf(),
            ({
                let evs = entry_views(corpus@);
                let vsv = corpus_vectors(evs);
                match r {
                    Ok(()) => {
                        &&& corpus@.len() >= 1
                        &&& entries_dim(evs, dimension as int)
                        &&& 1 <= k <= corpus@.len()
                        &&& store_has(final(self).entries@, key)
                        &&& store_at(final(self).entries@, key).wf()
                        &&& store_at(final(self).entries@, key).dimension == dimension
                        &&& store_at(final(self).entries@, key).metric == metric
                        &&& store_at(final(self).entries@, key).evs() == evs
                        &&& store_at(final(self).entries@, key).centroids@.len() == k
                        &&& store_at(final(self).entries@, key).cent_views() == fit_spec(
                            vsv,
                            k as nat,
                            metric,
                            max_iterations as nat,
                            seed,
                            dimension as nat,
                        )
                        &&& forall|k2: u64|
                            k2 != key ==> (store_has(final(self).entries@, k2) <==> store_has(
                                old(self).entries@,
                                k2,
                            ))
                        &&& forall|k2: u64|
                            k2 != key && store_has(old(self).entries@, k2) ==> store_at(
                                final(self).entries@,
                                k2,
                            ) == store_at(old(self).entries@, k2)
                    },
                    Err(e) => {
                        &&& *final(self) == *old(self)
                        &&& if corpus@.len() == 0 {
                            e == VectorError::EmptyCorpus
                        } else if !entries_dim(evs, dimension as int) {
                            e == VectorError::DimensionMismatch
                        } else if k == 0 {
                            e == VectorError::InvalidK
                        } else if corpus@.len() < k {
                            e == VectorError::InsufficientData
                        } else {
                            &&& e == VectorError::BuildCancelled
                            &&& cancel_after matches Some(b) && steps_needed(
                                metric,
                                init_centroids(vsv, k as nat, seed),
                                vsv,
                                dimension as nat,
                                max_iterations as nat,
                            ) > b
                        }
                    },
                }
            }),
    {
        match build_index(corpus, dimension, metric, k, max_iterations, seed, cancel_after) {
            Ok(idx) => {
                self.publish(key, idx);
                Ok(())
            },
            Err(e) => Err(e),
        }
    }
}

/// With unique keys, any entry holding `key` is the published one.
proof fn lemma_store_at_witness(s: Seq<(u64, InvertedIndex)>, key: u64, i: int)
    requires
        0 <= i < s.len(),
        s[i].0 == key,
        forall|a: int, b: int| 0 <= a < b < s.len() ==> s[a].0 != s[b].0,
    ensures
        store_has(s, key),
        store_at(s, key) == s[i].1,
{
    let j = choose|j: int| 0 <= j < s.len() && s[j].0 == key;
    if i < j {
        assert(s[i].0 != s[j].0);
    }
    if j < i {
        assert(s[j].0 != s[i].0);
    }
}

} // verus!
