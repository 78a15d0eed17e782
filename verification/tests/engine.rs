use ivfflat::errors::VectorError;
use ivfflat::index::{build_index, first_dimension_offender, IndexStore};
use ivfflat::math::{euclidean_distance_sq, vector_cosine_parts};
use ivfflat::quantizer::fit;
use ivfflat::search::{exhaustive_search, search};
use ivfflat::vector::{create_vector, DistanceMetric, PGVector};

fn v(xs: &[i16]) -> PGVector {
    create_vector(xs.to_vec())
}

fn sample_corpus() -> Vec<(i32, PGVector)> {
    vec![
        (1, v(&[0, 0])),
        (2, v(&[100, 100])),
        (3, v(&[100, 110])),
        (4, v(&[0, 10])),
    ]
}

#[test]
fn euclidean_distance_is_symmetric() {
    let a = v(&[1, -2, 3]);
    let b = v(&[4, 0, -5]);
    let d_ab = euclidean_distance_sq(&a, &b).unwrap();
    let d_ba = euclidean_distance_sq(&b, &a).unwrap();
    assert_eq!(d_ab, d_ba);
    assert_eq!(d_ab, 9 + 4 + 64);
}

#[test]
fn euclidean_distance_zero_iff_equal() {
    let a = v(&[7, -8, 9]);
    let b = v(&[7, -8, 9]);
    let c = v(&[7, -8, 10]);
    assert_eq!(euclidean_distance_sq(&a, &b).unwrap(), 0);
    assert!(euclidean_distance_sq(&a, &c).unwrap() > 0);
}

#[test]
fn distance_functions_reject_mismatched_lengths() {
    let a = v(&[1, 2]);
    let b = v(&[1, 2, 3]);
    assert_eq!(
        euclidean_distance_sq(&a, &b),
        Err(VectorError::DimensionMismatch)
    );
    assert_eq!(
        vector_cosine_parts(&a, &b),
        Err(VectorError::DimensionMismatch)
    );
}

#[test]
fn cosine_similarity_of_self_is_one() {
    let a = v(&[3, 4, -12]);
    let (dot, n1, n2) = vector_cosine_parts(&a, &a).unwrap();
    // dot / (sqrt(n1) * sqrt(n2)) == 1 exactly when dot^2 == n1 * n2 and dot > 0
    assert!(dot > 0);
    assert_eq!(dot * dot, n1 * n2);
    let sim = dot as f64 / ((n1 as f64).sqrt() * (n2 as f64).sqrt());
    assert!((sim - 1.0).abs() < 1e-9);
}

#[test]
fn cosine_similarity_rejects_zero_vectors() {
    let a = v(&[0, 0, 0]);
    let b = v(&[1, 2, 3]);
    assert_eq!(
        vector_cosine_parts(&a, &b),
        Err(VectorError::DegenerateVector)
    );
    assert_eq!(
        vector_cosine_parts(&b, &a),
        Err(VectorError::DegenerateVector)
    );
}

#[test]
fn fit_is_deterministic() {
    let vectors = vec![v(&[0, 0]), v(&[100, 100]), v(&[100, 110]), v(&[0, 10])];
    let c1 = fit(&vectors, 2, DistanceMetric::Euclidean, 10, 42).unwrap();
    let c2 = fit(&vectors, 2, DistanceMetric::Euclidean, 10, 42).unwrap();
    assert_eq!(c1.len(), 2);
    assert_eq!(c1.len(), c2.len());
    for (a, b) in c1.iter().zip(c2.iter()) {
        assert_eq!(a.dims, b.dims);
    }
}

#[test]
fn fit_rejects_small_corpus() {
    let vectors = vec![v(&[1, 2])];
    assert!(matches!(
        fit(&vectors, 2, DistanceMetric::Euclidean, 5, 0),
        Err(VectorError::InsufficientData)
    ));
}

#[test]
fn fit_rejects_zero_k() {
    let vectors = vec![v(&[1, 2]), v(&[3, 4])];
    assert!(matches!(
        fit(&vectors, 0, DistanceMetric::Euclidean, 5, 0),
        Err(VectorError::InvalidK)
    ));
}

#[test]
fn build_clusters_the_sample_corpus() {
    let idx = build_index(
        sample_corpus(),
        2,
        DistanceMetric::Euclidean,
        2,
        10,
        0,
        None,
    )
    .unwrap();
    assert_eq!(idx.centroids.len(), 2);
    assert_eq!(idx.postings.len(), 2);
    let mut groups: Vec<Vec<i32>> = idx.postings.clone();
    for g in groups.iter_mut() {
        g.sort();
    }
    assert!(groups.contains(&vec![1, 4]));
    assert!(groups.contains(&vec![2, 3]));
}

#[test]
fn end_to_end_two_cluster_search() {
    // corpus {1:[0,0], 2:[10,10], 3:[10,11], 4:[0,1]} scaled by ten, k = 2,
    // query [0, 0.5] scaled to [0, 5]: ids 1 and 4 tie at squared distance
    // 25; the tie breaks to the lower id, deterministically.
    let idx = build_index(
        sample_corpus(),
        2,
        DistanceMetric::Euclidean,
        2,
        10,
        0,
        None,
    )
    .unwrap();
    let q = v(&[0, 5]);
    let ids = search(&idx, &q, 1, 1).unwrap();
    assert_eq!(ids, vec![1]);
}

#[test]
fn full_probe_equals_exhaustive_scan() {
    let idx = build_index(
        sample_corpus(),
        2,
        DistanceMetric::Euclidean,
        2,
        10,
        7,
        None,
    )
    .unwrap();
    for q in [v(&[0, 5]), v(&[100, 104]), v(&[-50, 30])] {
        for top_k in 0..5 {
            let approx = search(&idx, &q, top_k, 2).unwrap();
            let exact = exhaustive_search(&idx, &q, top_k).unwrap();
            assert_eq!(approx, exact);
        }
    }
}

#[test]
fn recall_is_monotonic_in_probe() {
    let idx = build_index(
        sample_corpus(),
        2,
        DistanceMetric::Euclidean,
        2,
        10,
        0,
        None,
    )
    .unwrap();
    let q = v(&[0, 5]);
    let top_k = 2;
    let truth = exhaustive_search(&idx, &q, top_k).unwrap();
    let mut prev_found = 0;
    for probe in 1..=2 {
        let got = search(&idx, &q, top_k, probe).unwrap();
        let found = got.iter().filter(|id| truth.contains(id)).count();
        assert!(found >= prev_found);
        prev_found = found;
    }
    assert_eq!(prev_found, top_k);
}

#[test]
fn cosine_metric_search_ranks_by_angle() {
    let corpus = vec![
        (1, v(&[10, 0])),
        (2, v(&[0, 10])),
        (3, v(&[7, 7])),
        (4, v(&[-10, 0])),
    ];
    let idx = build_index(corpus, 2, DistanceMetric::Cosine, 2, 10, 0, None).unwrap();
    let q = v(&[1, 0]);
    let exact = exhaustive_search(&idx, &q, 4).unwrap();
    // best alignment first: id 1 (same direction), then id 3, then id 2
    // (orthogonal), then id 4 (opposite)
    assert_eq!(exact, vec![1, 3, 2, 4]);
    let approx = search(&idx, &q, 4, 2).unwrap();
    assert_eq!(approx, exact);
}

#[test]
fn search_rejects_mismatched_query() {
    let idx = build_index(
        sample_corpus(),
        2,
        DistanceMetric::Euclidean,
        2,
        10,
        0,
        None,
    )
    .unwrap();
    let q = v(&[0, 5, 9]);
    assert_eq!(search(&idx, &q, 1, 1), Err(VectorError::DimensionMismatch));
    assert_eq!(
        exhaustive_search(&idx, &q, 1),
        Err(VectorError::DimensionMismatch)
    );
}

#[test]
fn build_reports_the_offending_dimension() {
    let corpus = vec![(1, v(&[0, 0])), (2, v(&[1, 2, 3])), (3, v(&[5, 5]))];
    assert_eq!(first_dimension_offender(&corpus, 2), Some(2));
    let err = build_index(corpus, 2, DistanceMetric::Euclidean, 2, 10, 0, None);
    assert!(matches!(err, Err(VectorError::DimensionMismatch)));
}

#[test]
fn empty_corpus_publishes_nothing() {
    let mut store = IndexStore::new();
    let r = store.index_create(9, Vec::new(), 2, DistanceMetric::Euclidean, 2, 10, 0, None);
    assert!(matches!(r, Err(VectorError::EmptyCorpus)));
    assert!(store.current(9).is_none());
    assert_eq!(store.index_search(9, &v(&[0, 0]), 3, 1), Ok(vec![]));
}

#[test]
fn cancelled_build_keeps_previous_snapshot() {
    let mut store = IndexStore::new();
    store
        .index_create(
            5,
            sample_corpus(),
            2,
            DistanceMetric::Euclidean,
            2,
            10,
            0,
            None,
        )
        .unwrap();
    let q = v(&[0, 5]);
    let before = store.index_search(5, &q, 2, 2).unwrap();

    // a rebuild cancelled before its first iteration publishes nothing
    let bigger = vec![
        (1, v(&[0, 0])),
        (2, v(&[100, 100])),
        (3, v(&[100, 110])),
        (4, v(&[0, 10])),
        (5, v(&[-40, -40])),
    ];
    let r = store.index_create(
        5,
        bigger,
        2,
        DistanceMetric::Euclidean,
        2,
        10,
        0,
        Some(0),
    );
    assert!(matches!(r, Err(VectorError::BuildCancelled)));

    let after = store.index_search(5, &q, 2, 2).unwrap();
    assert_eq!(before, after);
    assert_eq!(store.current(5).unwrap().entries.len(), 4);
}

#[test]
fn publish_replaces_only_its_own_key() {
    let mut store = IndexStore::new();
    store
        .index_create(
            1,
            sample_corpus(),
            2,
            DistanceMetric::Euclidean,
            2,
            10,
            0,
            None,
        )
        .unwrap();
    store
        .index_create(
            2,
            vec![(7, v(&[1, 1])), (8, v(&[-1, -1]))],
            2,
            DistanceMetric::Euclidean,
            2,
            10,
            0,
            None,
        )
        .unwrap();
    assert_eq!(store.current(1).unwrap().entries.len(), 4);
    assert_eq!(store.current(2).unwrap().entries.len(), 2);
    // rebuilding key 1 with a smaller corpus leaves key 2 untouched
    store
        .index_create(
            1,
            vec![(1, v(&[0, 0])), (4, v(&[0, 10]))],
            2,
            DistanceMetric::Euclidean,
            2,
            10,
            0,
            None,
        )
        .unwrap();
    assert_eq!(store.current(1).unwrap().entries.len(), 2);
    assert_eq!(store.current(2).unwrap().entries.len(), 2);
}

#[test]
fn search_never_pads_with_sentinels() {
    let idx = build_index(
        sample_corpus(),
        2,
        DistanceMetric::Euclidean,
        2,
        10,
        0,
        None,
    )
    .unwrap();
    let q = v(&[0, 5]);
    // top_k exceeds the candidate count of one probed cluster
    let ids = search(&idx, &q, 10, 1).unwrap();
    assert_eq!(ids.len(), 2);
    let all = search(&idx, &q, 10, 2).unwrap();
    assert_eq!(all.len(), 4);
}
