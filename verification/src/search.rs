use vstd::prelude::*;
use vstd::relations::{sorted_by, total_ordering};
use vstd::seq_lib::lemma_sorted_unique;
use crate::errors::VectorError;
use crate::index::{entries_dim, entry_views, ids_of, posting_spec, store_at, store_has,
    InvertedIndex, IndexStore};
use crate::quantizer::{nearest, uniform_dim, views_of};
use crate::rank::{better, lemma_better_tied_trans, lemma_better_trans, lemma_score_den_pos,
    lemma_tied_trans, tied, better_exec};
use crate::vector::{DistanceMetric, PGVector, DIM_MAX};

verus! {

/// The vector stored under `id`, or the empty sequence when `id` is absent.
pub open spec fn vec_of(es: Seq<(i32, Seq<i16>)>, id: i32) -> Seq<i16>
    decreases es.len(),
{
    if es.len() == 0 {
        Seq::empty()
    } else if es[0].0 == id {
        es[0].1
    } else {
        vec_of(es.drop_first(), id)
    }
}

/// Some entry carries `id`.
pub open spec fn has_id(es: Seq<(i32, Seq<i16>)>, id: i32) -> bool {
    exists|i: int| 0 <= i < es.len() && es[i].0 == id
}

/// The vector looked up for a present id is one of the stored vectors.
pub proof fn lemma_vec_of_is_entry(es: Seq<(i32, Seq<i16>)>, id: i32)
    requires
        has_id(es, id),
    ensures
        exists|i: int| 0 <= i < es.len() && es[i].0 == id && es[i].1 == vec_of(es, id),
    decreases es.len(),
{
    if es[0].0 != id {
        let w = choose|i: int| 0 <= i < es.len() && es[i].0 == id;
        assert(es.drop_first()[w - 1].0 == id);
        lemma_vec_of_is_entry(es.drop_first(), id);
        let j = choose|i: int|
            0 <= i < es.drop_first().len() && es.drop_first()[i].0 == id && es.drop_first()[i].1
                == vec_of(es.drop_first(), id);
        assert(es[j + 1].0 == id && es[j + 1].1 == vec_of(es, id));
    }
}

/// Candidate `a` is ranked before candidate `b`: strictly better against
/// `q`, or tied with the smaller id. A total order on ids.
pub open spec fn cand_before(es: Seq<(i32, Seq<i16>)>, metric: DistanceMetric, q: Seq<i16>, a: i32, b: i32) -> bool {
    better(metric, q, vec_of(es, a), vec_of(es, b)) || (!better(
        metric,
        q,
        vec_of(es, b),
        vec_of(es, a),
    ) && a <= b)
}

/// The candidate order as a sortable relation.
pub open spec fn cand_leq_fn(es: Seq<(i32, Seq<i16>)>, metric: DistanceMetric, q: Seq<i16>) -> spec_fn(
    i32,
    i32,
) -> bool {
    |a: i32, b: i32| cand_before(es, metric, q, a, b)
}

/// Cluster `a` is ranked before cluster `b` against `q`: strictly better
/// centroid, or tied with the smaller cluster id. A total order on indices.
pub open spec fn cluster_before(
    cents: Seq<Seq<i16>>,
    metric: DistanceMetric,
    q: Seq<i16>,
    a: usize,
    b: usize,
) -> bool {
    better(metric, q, cents[a as int], cents[b as int]) || (!better(
        metric,
        q,
        cents[b as int],
        cents[a as int],
    ) && a <= b)
}

/// The cluster order as a sortable relation.
pub open spec fn cluster_leq_fn(cents: Seq<Seq<i16>>, metric: DistanceMetric, q: Seq<i16>) -> spec_fn(
    usize,
    usize,
) -> bool {
    |a: usize, b: usize| cluster_before(cents, metric, q, a, b)
}

/// The candidate order is a total order: ranking candidates is
/// deterministic whatever their scores.
pub proof fn lemma_cand_order_total(es: Seq<(i32, Seq<i16>)>, metric: DistanceMetric, q: Seq<i16>)
    ensures
        total_ordering(cand_leq_fn(es, metric, q)),
{
    let leq = cand_leq_fn(es, metric, q);
    assert forall|a: i32, b: i32, c: i32| #[trigger] leq(a, b) && #[trigger] leq(b, c) implies leq(
        a,
        c,
    ) by {
        let va = vec_of(es, a);
        let vb = vec_of(es, b);
        let vc = vec_of(es, c);
        lemma_score_den_pos(metric, q, va);
        lemma_score_den_pos(metric, q, vb);
        lemma_score_den_pos(metric, q, vc);
        if better(metric, q, va, vb) {
            if better(metric, q, vb, vc) {
                lemma_better_trans(metric, q, va, vb, vc);
            } else if tied(metric, q, vb, vc) {
                lemma_better_tied_trans(metric, q, va, vb, vc);
            }
        } else {
            assert(tied(metric, q, va, vb) && a <= b);
            if better(metric, q, vb, vc) {
                lemma_better_tied_trans(metric, q, va, vb, vc);
            } else if tied(metric, q, vb, vc) {
                lemma_tied_trans(metric, q, va, vb, vc);
            }
        }
    }
    assert(total_ordering(leq));
}

/// The cluster order is a total order.
pub proof fn lemma_cluster_order_total(cents: Seq<Seq<i16>>, metric: DistanceMetric, q: Seq<i16>)
    ensures
        total_ordering(cluster_leq_fn(cents, metric, q)),
{
    let leq = cluster_leq_fn(cents, metric, q);
    assert forall|a: usize, b: usize, c: usize| #[trigger] leq(a, b) && #[trigger] leq(b, c)
        implies leq(a, c) by {
        let va = cents[a as int];
        let vb = cents[b as int];
        let vc = cents[c as int];
        lemma_score_den_pos(metric, q, va);
        lemma_score_den_pos(metric, q, vb);
        lemma_score_den_pos(metric, q, vc);
        if better(metric, q, va, vb) {
            if better(metric, q, vb, vc) {
                lemma_better_trans(metric, q, va, vb, vc);
            } else if tied(metric, q, vb, vc) {
                lemma_better_tied_trans(metric, q, va, vb, vc);
            }
        } else {
            assert(tied(metric, q, va, vb) && a <= b);
            if better(metric, q, vb, vc) {
                lemma_better_tied_trans(metric, q, va, vb, vc);
            } else if tied(metric, q, vb, vc) {
                lemma_tied_trans(metric, q, va, vb, vc);
            }
        }
    }
    assert(total_ordering(leq));
}

/// Inserting an element anywhere adds exactly it to a sequence's multiset.
proof fn lemma_insert_multiset<A>(s: Seq<A>, i: int, a: A)
    requires
        0 <= i <= s.len(),
    ensures
        s.insert(i, a).to_multiset() == s.to_multiset().insert(a),
{
    broadcast use vstd::seq_lib::group_to_multiset_ensures;

    let s1 = s.subrange(0, i);
    let s2 = s.subrange(i, s.len() as int);
    assert(s =~= s1 + s2);
    vstd::seq_lib::lemma_multiset_commutative(s1, s2);
    vstd::seq_lib::lemma_multiset_commutative(s1.push(a), s2);
    assert(s1.push(a).to_multiset() =~= s1.to_multiset().insert(a));
    assert(s.insert(i, a).to_multiset() =~= s.to_multiset().insert(a));
}

/// The stored vector of `id`, found by one scan.
fn find_vector<'a>(entries: &'a Vec<(i32, PGVector)>, id: i32) -> (r: Option<&'a PGVector>)
    ensures
        match r {
            Some(v) => has_id(entry_views(entries@), id) && v@ == vec_of(
                entry_views(entries@),
                id,
            ),
            None => !has_id(entry_views(entries@), id),
        },
{
    let ghost es = entry_views(entries@);
    let n = entries.len();
    let mut i: usize = 0;
    proof {
        assert(es.skip(0) =~= es);
    }
    while i < n
        invariant
            i <= n,
            n == entries@.len(),
            es == entry_views(entries@),
            vec_of(es.skip(i as int), id) == vec_of(es, id),
            has_id(es, id) ==> has_id(es.skip(i as int), id),
            forall|j: int| 0 <= j < i ==> es[j].0 != id,
        decreases n - i,
    {
        proof {
            let rest = es.skip(i as int);
            assert(rest[0] == es[i as int]);
            assert(rest.drop_first() =~= es.skip(i as int + 1));
        }
        if entries[i].0 == id {
            return Some(&entries[i].1);
        }
        i = i + 1;
        proof {
            if has_id(es, id) {
                let w = choose|j: int| 0 <= j < es.len() && es[j].0 == id;
                assert(es.skip(i as int)[w - i] == es[w]);
            }
        }
    }
    proof {
        if has_id(es, id) {
            let w = choose|j: int| 0 <= j < es.len() && es[j].0 == id;
            assert(es[w].0 != id);
        }
    }
    None
}

/// Whether candidate `a` is ranked before candidate `b`.
fn cand_before_exec(
    metric: DistanceMetric,
    q: &PGVector,
    entries: &Vec<(i32, PGVector)>,
    a: i32,
    b: i32,
) -> (r: bool)
    requires
        entries_dim(entry_views(entries@), q@.len() as int),
        q@.len() <= DIM_MAX,
        has_id(entry_views(entries@), a),
        has_id(entry_views(entries@), b),
    ensures
        r == cand_before(entry_views(entries@), metric, q@, a, b),
{
    let ghost es = entry_views(entries@);
    let va = match find_vector(entries, a) {
        Some(v) => v,
        None => unreached(),
    };
    let vb = match find_vector(entries, b) {
        Some(v) => v,
        None => unreached(),
    };
    proof {
        lemma_vec_of_is_entry(es, a);
        lemma_vec_of_is_entry(es, b);
    }
    let fwd = better_exec(metric, q, va, vb);
    if fwd {
        true
    } else {
        let bwd = better_exec(metric, q, vb, va);
        !bwd && a <= b
    }
}

/// Whether cluster `a` is ranked before cluster `b`.
fn cluster_before_exec(
    metric: DistanceMetric,
    q: &PGVector,
    cents: &Vec<PGVector>,
    a: usize,
    b: usize,
) -> (r: bool)
    requires
        uniform_dim(views_of(cents@), q@.len() as int),
        q@.len() <= DIM_MAX,
        a < cents@.len(),
        b < cents@.len(),
    ensures
        r == cluster_before(views_of(cents@), metric, q@, a, b),
{
    proof {
        assert(views_of(cents@)[a as int] == cents@[a as int]@);
        assert(views_of(cents@)[b as int] == cents@[b as int]@);
    }
    let fwd = better_exec(metric, q, &cents[a], &cents[b]);
    if fwd {
        true
    } else {
        let bwd = better_exec(metric, q, &cents[b], &cents[a]);
        !bwd && a <= b
    }
}

/// Sorts candidate ids into ranking order (insertion sort).
fn sort_candidates(
    metric: DistanceMetric,
    q: &PGVector,
    entries: &Vec<(i32, PGVector)>,
    items: &Vec<i32>,
) -> (r: Vec<i32>)
    requires
        entries_dim(entry_views(entries@), q@.len() as int),
        q@.len() <= DIM_MAX,
        forall|i: int|
            0 <= i < items@.len() ==> has_id(entry_views(entries@), #[trigger] items@[i]),
    ensures
        r@ == items@.sort_by(cand_leq_fn(entry_views(entries@), metric, q@)),
{
    let ghost es = entry_views(entries@);
    let ghost leq = cand_leq_fn(es, metric, q@);
    proof {
        lemma_cand_order_total(es, metric, q@);
    }
    let n = items.len();
    let mut out: Vec<i32> = Vec::new();
    let mut idx: usize = 0;
    proof {
        assert(items@.subrange(0, 0) =~= out@);
    }
    while idx < n
        invariant
            idx <= n,
            n == items@.len(),
            es == entry_views(entries@),
            leq == cand_leq_fn(es, metric, q@),
            total_ordering(leq),
            entries_dim(es, q@.len() as int),
            q@.len() <= DIM_MAX,
            forall|i: int| 0 <= i < items@.len() ==> has_id(es, #[trigger] items@[i]),
            forall|i: int| 0 <= i < out@.len() ==> has_id(es, #[trigger] out@[i]),
            sorted_by(out@, leq),
            out@.to_multiset() == items@.subrange(0, idx as int).to_multiset(),
        decreases n - idx,
    {
        let x = items[idx];
        let mut pos: usize = out.len();
        let mut moving = true;
        while moving && pos > 0
            invariant
                pos <= out@.len(),
                es == entry_views(entries@),
                leq == cand_leq_fn(es, metric, q@),
                entries_dim(es, q@.len() as int),
                q@.len() <= DIM_MAX,
                has_id(es, x),
                forall|i: int| 0 <= i < out@.len() ==> has_id(es, #[trigger] out@[i]),
                forall|j: int| pos <= j < out@.len() ==> !leq(#[trigger] out@[j], x),
                !moving ==> pos > 0 && leq(out@[pos - 1], x),
            decreases pos + if moving {
                1int
            } else {
                0int
            },
        {
            if cand_before_exec(metric, q, entries, out[pos - 1], x) {
                moving = false;
            } else {
                pos = pos - 1;
            }
        }
        proof {
            assert forall|j: int| 0 <= j < pos implies leq(#[trigger] out@[j], x) by {
                if j < pos - 1 {
                    assert(leq(out@[j], out@[pos - 1]));
                }
            }
            assert forall|j: int| pos <= j < out@.len() implies leq(x, #[trigger] out@[j]) by {
                assert(!leq(out@[j], x));
            }
            let newout = out@.insert(pos as int, x);
            out@.insert_ensures(pos as int, x);
            assert forall|a: int, b: int| 0 <= a < b < newout.len() implies leq(
                #[trigger] newout[a],
                #[trigger] newout[b],
            ) by {
                if b < pos {
                    assert(newout[a] == out@[a] && newout[b] == out@[b]);
                } else if a > pos {
                    assert(newout[a] == out@[a - 1] && newout[b] == out@[b - 1]);
                } else if a == pos {
                    assert(newout[a] == x && newout[b] == out@[b - 1]);
                } else if b == pos {
                    assert(newout[a] == out@[a] && newout[b] == x);
                } else {
                    assert(a < pos && b > pos);
                    assert(newout[a] == out@[a] && newout[b] == out@[b - 1]);
                    assert(leq(out@[a], x) && leq(x, out@[b - 1]));
                }
            }
            lemma_insert_multiset(out@, pos as int, x);
            let pre = items@.subrange(0, idx as int + 1);
            assert(pre.drop_last() =~= items@.subrange(0, idx as int));
            broadcast use vstd::seq_lib::group_to_multiset_ensures;

            assert(pre =~= items@.subrange(0, idx as int).push(x));
        }
        out.insert(pos, x);
        idx = idx + 1;
    }
    proof {
        assert(items@.subrange(0, n as int) =~= items@);
        items@.lemma_sort_by_ensures(leq);
        lemma_sorted_unique(out@, items@.sort_by(leq), leq);
        assert(out@ =~= items@.sort_by(leq));
    }
    out
}

/// Sorts cluster indices into ranking order (insertion sort).
fn sort_clusters(
    metric: DistanceMetric,
    q: &PGVector,
    cents: &Vec<PGVector>,
    items: &Vec<usize>,
) -> (r: Vec<usize>)
    requires
        uniform_dim(views_of(cents@), q@.len() as int),
        q@.len() <= DIM_MAX,
        forall|i: int| 0 <= i < items@.len() ==> (#[trigger] items@[i]) < cents@.len(),
    ensures
        r@ == items@.sort_by(cluster_leq_fn(views_of(cents@), metric, q@)),
        r@.len() == items@.len(),
        forall|i: int| 0 <= i < r@.len() ==> (#[trigger] r@[i]) < cents@.len(),
{
    let ghost cvs = views_of(cents@);
    let ghost leq = cluster_leq_fn(cvs, metric, q@);
    proof {
        lemma_cluster_order_total(cvs, metric, q@);
    }
    let n = items.len();
    let mut out: Vec<usize> = Vec::new();
    let mut idx: usize = 0;
    proof {
        assert(items@.subrange(0, 0) =~= out@);
    }
    while idx < n
        invariant
            idx <= n,
            n == items@.len(),
            cvs == views_of(cents@),
            leq == cluster_leq_fn(cvs, metric, q@),
            total_ordering(leq),
            uniform_dim(cvs, q@.len() as int),
            q@.len() <= DIM_MAX,
            forall|i: int| 0 <= i < items@.len() ==> (#[trigger] items@[i]) < cents@.len(),
            forall|i: int| 0 <= i < out@.len() ==> (#[trigger] out@[i]) < cents@.len(),
            sorted_by(out@, leq),
            out@.to_multiset() == items@.subrange(0, idx as int).to_multiset(),
        decreases n - idx,
    {
        let x = items[idx];
        let mut pos: usize = out.len();
        let mut moving = true;
        while moving && pos > 0
            invariant
                pos <= out@.len(),
                cvs == views_of(cents@),
                leq == cluster_leq_fn(cvs, metric, q@),
                uniform_dim(cvs, q@.len() as int),
                q@.len() <= DIM_MAX,
                x < cents@.len(),
                forall|i: int| 0 <= i < out@.len() ==> (#[trigger] out@[i]) < cents@.len(),
                forall|j: int| pos <= j < out@.len() ==> !leq(#[trigger] out@[j], x),
                !moving ==> pos > 0 && leq(out@[pos - 1], x),
            decreases pos + if moving {
                1int
            } else {
                0int
            },
        {
            if cluster_before_exec(metric, q, cents, out[pos - 1], x) {
                moving = false;
            } else {
                pos = pos - 1;
            }
        }
        proof {
            assert forall|j: int| 0 <= j < pos implies leq(#[trigger] out@[j], x) by {
                if j < pos - 1 {
                    assert(leq(out@[j], out@[pos - 1]));
                }
            }
            assert forall|j: int| pos <= j < out@.len() implies leq(x, #[trigger] out@[j]) by {
                assert(!leq(out@[j], x));
            }
            let newout = out@.insert(pos as int, x);
            out@.insert_ensures(pos as int, x);
            assert forall|a: int, b: int| 0 <= a < b < newout.len() implies leq(
                #[trigger] newout[a],
                #[trigger] newout[b],
            ) by {
                if b < pos {
                    assert(newout[a] == out@[a] && newout[b] == out@[b]);
                } else if a > pos {
                    assert(newout[a] == out@[a - 1] && newout[b] == out@[b - 1]);
                } else if a == pos {
                    assert(newout[a] == x && newout[b] == out@[b - 1]);
                } else if b == pos {
                    assert(newout[a] == out@[a] && newout[b] == x);
                } else {
                    assert(a < pos && b > pos);
                    assert(newout[a] == out@[a] && newout[b] == out@[b - 1]);
                    assert(leq(out@[a], x) && leq(x, out@[b - 1]));
                }
            }
            lemma_insert_multiset(out@, pos as int, x);
            let pre = items@.subrange(0, idx as int + 1);
            assert(pre.drop_last() =~= items@.subrange(0, idx as int));
            broadcast use vstd::seq_lib::group_to_multiset_ensures;

            assert(pre =~= items@.subrange(0, idx as int).push(x));
        }
        out.insert(pos, x);
        idx = idx + 1;
    }
    proof {
        assert(items@.subrange(0, n as int) =~= items@);
        items@.lemma_sort_by_ensures(leq);
        lemma_sorted_unique(out@, items@.sort_by(leq), leq);
        assert(out@ =~= items@.sort_by(leq));
        broadcast use vstd::seq_lib::group_to_multiset_ensures;

        assert(out@.to_multiset().len() == out@.len());
        assert(items@.to_multiset().len() == items@.len());
    }
    out
}

/// `probe` clamped to `[1, k]`.
pub open spec fn clamp_probe(probe: int, k: int) -> int {
    if probe < 1 {
        1
    } else if probe > k {
        k
    } else {
        probe
    }
}

/// The cluster ids `0 .. k`, in id order.
pub open spec fn cluster_ids(k: nat) -> Seq<usize> {
    Seq::new(k, |i: int| i as usize)
}

/// Every cluster id, ranked best-first against `q`.
pub open spec fn cluster_order(cents: Seq<Seq<i16>>, metric: DistanceMetric, q: Seq<i16>) -> Seq<
    usize,
> {
    cluster_ids(cents.len()).sort_by(cluster_leq_fn(cents, metric, q))
}

/// The candidate ids gathered from the postings of the selected clusters,
/// in selection-major order.
pub open spec fn gathered_ids(
    metric: DistanceMetric,
    cents: Seq<Seq<i16>>,
    es: Seq<(i32, Seq<i16>)>,
    sel: Seq<usize>,
) -> Seq<i32>
    decreases sel.len(),
{
    if sel.len() == 0 {
        Seq::empty()
    } else {
        gathered_ids(metric, cents, es, sel.drop_last()) + posting_spec(
            metric,
            cents,
            es,
            sel.last() as int,
        )
    }
}

/// The first `top_k` of a ranking, or all of it when it is shorter.
pub open spec fn take_top(s: Seq<i32>, top_k: int) -> Seq<i32> {
    if top_k < s.len() {
        s.take(top_k)
    } else {
        s
    }
}

/// What `search` returns on a well-formed snapshot and a matching query:
/// the candidates of the `probe` best clusters, ranked exactly, the best
/// `top_k` of them.
pub open spec fn search_spec(idx: InvertedIndex, q: Seq<i16>, top_k: int, probe: int) -> Seq<i32> {
    let sel = cluster_order(idx.cent_views(), idx.metric, q).take(
        clamp_probe(probe, idx.centroids@.len() as int),
    );
    let cands = gathered_ids(idx.metric, idx.cent_views(), idx.evs(), sel);
    take_top(cands.sort_by(cand_leq_fn(idx.evs(), idx.metric, q)), top_k)
}

/// What an exhaustive scan returns: every stored id, ranked exactly, the
/// best `top_k` of them.
pub open spec fn exhaustive_spec(idx: InvertedIndex, q: Seq<i16>, top_k: int) -> Seq<i32> {
    take_top(ids_of(idx.evs()).sort_by(cand_leq_fn(idx.evs(), idx.metric, q)), top_k)
}

/// Every id in a postings list is a stored id.
proof fn lemma_posting_has_id(
    metric: DistanceMetric,
    cents: Seq<Seq<i16>>,
    es: Seq<(i32, Seq<i16>)>,
    c: int,
)
    ensures
        forall|i: int|
            0 <= i < posting_spec(metric, cents, es, c).len() ==> has_id(
                es,
                #[trigger] posting_spec(metric, cents, es, c)[i],
            ),
    decreases es.len(),
{
    if es.len() > 0 {
        lemma_posting_has_id(metric, cents, es.drop_last(), c);
        let p = posting_spec(metric, cents, es, c);
        assert forall|i: int| 0 <= i < p.len() implies has_id(es, #[trigger] p[i]) by {
            let rest = posting_spec(metric, cents, es.drop_last(), c);
            if i < rest.len() {
                assert(has_id(es.drop_last(), rest[i]));
                let w = choose|j: int|
                    0 <= j < es.drop_last().len() && es.drop_last()[j].0 == rest[i];
                assert(es[w].0 == rest[i]);
            } else {
                assert(p[i] == es.last().0);
                assert(es[es.len() - 1].0 == p[i]);
            }
        }
    }
}

/// Every gathered candidate is a stored id.
proof fn lemma_gathered_has_id(
    metric: DistanceMetric,
    cents: Seq<Seq<i16>>,
    es: Seq<(i32, Seq<i16>)>,
    sel: Seq<usize>,
)
    ensures
        forall|i: int|
            0 <= i < gathered_ids(metric, cents, es, sel).len() ==> has_id(
                es,
                #[trigger] gathered_ids(metric, cents, es, sel)[i],
            ),
    decreases sel.len(),
{
    if sel.len() > 0 {
        lemma_gathered_has_id(metric, cents, es, sel.drop_last());
        lemma_posting_has_id(metric, cents, es, sel.last() as int);
        let g = gathered_ids(metric, cents, es, sel);
        let rest = gathered_ids(metric, cents, es, sel.drop_last());
        let p = posting_spec(metric, cents, es, sel.last() as int);
        assert forall|i: int| 0 <= i < g.len() implies has_id(es, #[trigger] g[i]) by {
            if i < rest.len() {
                assert(g[i] == rest[i]);
            } else {
                assert(g[i] == p[i - rest.len()]);
            }
        }
    }
}

/// The selection holds cluster `c`.
pub open spec fn sel_contains(sel: Seq<usize>, c: int) -> bool {
    exists|t: int| 0 <= t < sel.len() && sel[t] as int == c
}

/// The ids of the entries whose cluster is selected, in corpus order.
pub open spec fn covered_ids(
    metric: DistanceMetric,
    cents: Seq<Seq<i16>>,
    es: Seq<(i32, Seq<i16>)>,
    sel: Seq<usize>,
) -> Seq<i32>
    decreases es.len(),
{
    if es.len() == 0 {
        Seq::empty()
    } else {
        let rest = covered_ids(metric, cents, es.drop_last(), sel);
        if sel_contains(sel, nearest(metric, cents, es.last().1)) {
            rest.push(es.last().0)
        } else {
            rest
        }
    }
}

/// An empty selection covers nothing.
proof fn lemma_covered_empty(metric: DistanceMetric, cents: Seq<Seq<i16>>, es: Seq<(i32, Seq<i16>)>)
    ensures
        covered_ids(metric, cents, es, Seq::empty()) == Seq::<i32>::empty(),
    decreases es.len(),
{
    if es.len() > 0 {
        lemma_covered_empty(metric, cents, es.drop_last());
    }
}

/// Selecting one more cluster covers, in addition, exactly that cluster's
/// postings list.
proof fn lemma_covered_push(
    metric: DistanceMetric,
    cents: Seq<Seq<i16>>,
    es: Seq<(i32, Seq<i16>)>,
    sel: Seq<usize>,
    c: usize,
)
    requires
        !sel_contains(sel, c as int),
    ensures
        covered_ids(metric, cents, es, sel.push(c)).to_multiset() == covered_ids(
            metric,
            cents,
            es,
            sel,
        ).to_multiset().add(posting_spec(metric, cents, es, c as int).to_multiset()),
    decreases es.len(),
{
    broadcast use vstd::seq_lib::group_to_multiset_ensures;

    if es.len() == 0 {
        assert(covered_ids(metric, cents, es, sel.push(c)).to_multiset() =~= covered_ids(
            metric,
            cents,
            es,
            sel,
        ).to_multiset().add(posting_spec(metric, cents, es, c as int).to_multiset()));
    } else {
        lemma_covered_push(metric, cents, es.drop_last(), sel, c);
        let c0 = nearest(metric, cents, es.last().1);
        let id = es.last().0;
        let rest_old = covered_ids(metric, cents, es.drop_last(), sel);
        let rest_new = covered_ids(metric, cents, es.drop_last(), sel.push(c));
        let p_old = posting_spec(metric, cents, es.drop_last(), c as int);
        assert(sel_contains(sel.push(c), c0) <==> (sel_contains(sel, c0) || c0 == c as int)) by {
            if sel_contains(sel.push(c), c0) {
                let t = choose|t: int|
                    0 <= t < sel.push(c).len() && sel.push(c)[t] as int == c0;
                if t < sel.len() {
                    assert(sel[t] as int == c0);
                }
            }
            if sel_contains(sel, c0) {
                let t = choose|t: int| 0 <= t < sel.len() && sel[t] as int == c0;
                assert(sel.push(c)[t] as int == c0);
            }
            if c0 == c as int {
                assert(sel.push(c)[sel.len() as int] as int == c0);
            }
        }
        if sel_contains(sel, c0) {
            assert(c0 != c as int);
            assert(covered_ids(metric, cents, es, sel.push(c)) == rest_new.push(id));
            assert(covered_ids(metric, cents, es, sel) == rest_old.push(id));
            assert(posting_spec(metric, cents, es, c as int) == p_old);
            assert(rest_new.push(id).to_multiset() =~= rest_old.push(id).to_multiset().add(
                p_old.to_multiset(),
            ));
        } else if c0 == c as int {
            assert(covered_ids(metric, cents, es, sel.push(c)) == rest_new.push(id));
            assert(covered_ids(metric, cents, es, sel) == rest_old);
            assert(posting_spec(metric, cents, es, c as int) == p_old.push(id));
            assert(rest_new.push(id).to_multiset() =~= rest_old.to_multiset().add(
                p_old.push(id).to_multiset(),
            ));
        } else {
            assert(covered_ids(metric, cents, es, sel.push(c)) == rest_new);
            assert(covered_ids(metric, cents, es, sel) == rest_old);
            assert(posting_spec(metric, cents, es, c as int) == p_old);
        }
    }
}

/// Gathering the postings of distinct clusters yields, as a multiset,
/// exactly the ids of the entries assigned to those clusters.
proof fn lemma_gathered_covered(
    metric: DistanceMetric,
    cents: Seq<Seq<i16>>,
    es: Seq<(i32, Seq<i16>)>,
    sel: Seq<usize>,
)
    requires
        sel.no_duplicates(),
    ensures
        gathered_ids(metric, cents, es, sel).to_multiset() == covered_ids(
            metric,
            cents,
            es,
            sel,
        ).to_multiset(),
    decreases sel.len(),
{
    broadcast use vstd::seq_lib::group_to_multiset_ensures;

    if sel.len() == 0 {
        lemma_covered_empty(metric, cents, es);
        assert(sel =~= Seq::<usize>::empty());
        assert(covered_ids(metric, cents, es, sel) == Seq::<i32>::empty());
        assert(gathered_ids(metric, cents, es, sel) == Seq::<i32>::empty());
    } else {
        let dl = sel.drop_last();
        let c = sel.last();
        assert(dl.no_duplicates());
        lemma_gathered_covered(metric, cents, es, dl);
        assert(!sel_contains(dl, c as int)) by {
            if sel_contains(dl, c as int) {
                let t = choose|t: int| 0 <= t < dl.len() && dl[t] as int == c as int;
                assert(sel[t] == sel[sel.len() - 1]);
            }
        }
        lemma_covered_push(metric, cents, es, dl, c);
        assert(dl.push(c) =~= sel);
        assert(covered_ids(metric, cents, es, dl.push(c)) == covered_ids(metric, cents, es, sel));
        let g = gathered_ids(metric, cents, es, dl);
        let p = posting_spec(metric, cents, es, c as int);
        vstd::seq_lib::lemma_multiset_commutative(g, p);
        assert(gathered_ids(metric, cents, es, sel) == g + p);
        assert((g + p).to_multiset() == g.to_multiset().add(p.to_multiset()));
        assert(g.to_multiset().add(p.to_multiset()) == covered_ids(
            metric,
            cents,
            es,
            dl,
        ).to_multiset().add(p.to_multiset()));
    }
}

/// A selection holding every cluster covers every stored id.
proof fn lemma_covered_all(
    metric: DistanceMetric,
    cents: Seq<Seq<i16>>,
    es: Seq<(i32, Seq<i16>)>,
    sel: Seq<usize>,
)
    requires
        cents.len() >= 1,
        forall|c: int| 0 <= c < cents.len() ==> sel_contains(sel, c),
    ensures
        covered_ids(metric, cents, es, sel) == ids_of(es),
    decreases es.len(),
{
    if es.len() == 0 {
        assert(covered_ids(metric, cents, es, sel) =~= ids_of(es));
    } else {
        lemma_covered_all(metric, cents, es.drop_last(), sel);
        crate::quantizer::lemma_nearest_range(metric, cents, es.last().1);
        assert(sel_contains(sel, nearest(metric, cents, es.last().1)));
        assert(ids_of(es) =~= ids_of(es.drop_last()).push(es.last().0));
    }
}

/// With `probe == k` the probe-based search returns exactly the ordered
/// ids of the exhaustive exact scan: every cluster is selected, so every
/// stored id is a candidate, and both rankings sort the same ids by the
/// same total order.
pub proof fn lemma_full_probe_is_exhaustive(idx: InvertedIndex, q: Seq<i16>, top_k: int)
    requires
        idx.wf(),
    ensures
        search_spec(idx, q, top_k, idx.centroids@.len() as int) == exhaustive_spec(idx, q, top_k),
{
    broadcast use vstd::seq_lib::group_to_multiset_ensures;

    let k = idx.centroids@.len() as int;
    let cvs = idx.cent_views();
    let es = idx.evs();
    let metric = idx.metric;
    let leqc = cluster_leq_fn(cvs, metric, q);
    let base = cluster_ids(k as nat);
    let order = cluster_order(cvs, metric, q);
    lemma_cluster_order_total(cvs, metric, q);
    base.lemma_sort_by_ensures(leqc);
    assert(order.to_multiset().len() == base.to_multiset().len());
    assert(order.len() == k);
    assert(clamp_probe(k, k) == k);
    let sel = order.take(k);
    assert(sel =~= order);
    assert(base.no_duplicates()) by {
        assert forall|i: int, j: int|
            0 <= i < base.len() && 0 <= j < base.len() && i != j implies base[i] != base[j] by {
            assert(base[i] as int == i && base[j] as int == j);
        }
    }
    base.lemma_multiset_has_no_duplicates();
    assert forall|x: usize| order.to_multiset().contains(x) implies order.to_multiset().count(x)
        == 1 by {
        assert(base.to_multiset().contains(x));
    }
    order.lemma_multiset_has_no_duplicates_conv();
    assert forall|c: int| 0 <= c < k implies sel_contains(order, c) by {
        assert(base[c] == c as usize);
        assert(base.to_multiset().count(c as usize) > 0);
        assert(order.to_multiset().count(c as usize) > 0);
        assert(order.contains(c as usize));
        let t = choose|t: int| 0 <= t < order.len() && order[t] == c as usize;
        assert(order[t] as int == c);
    }
    lemma_gathered_covered(metric, cvs, es, order);
    lemma_covered_all(metric, cvs, es, order);
    let cands = gathered_ids(metric, cvs, es, order);
    assert(cands.to_multiset() == ids_of(es).to_multiset());
    let leq = cand_leq_fn(es, metric, q);
    lemma_cand_order_total(es, metric, q);
    cands.lemma_sort_by_ensures(leq);
    ids_of(es).lemma_sort_by_ensures(leq);
    lemma_sorted_unique(cands.sort_by(leq), ids_of(es).sort_by(leq), leq);
    assert(cands.sort_by(leq) =~= ids_of(es).sort_by(leq));
}

/// The ranked cluster order repeats no cluster.
proof fn lemma_order_no_dup(cvs: Seq<Seq<i16>>, metric: DistanceMetric, q: Seq<i16>)
    requires
        cvs.len() <= 0x1000_0000,
    ensures
        cluster_order(cvs, metric, q).len() == cvs.len(),
        cluster_order(cvs, metric, q).no_duplicates(),
{
    broadcast use vstd::seq_lib::group_to_multiset_ensures;

    let leqc = cluster_leq_fn(cvs, metric, q);
    let base = cluster_ids(cvs.len());
    let order = cluster_order(cvs, metric, q);
    lemma_cluster_order_total(cvs, metric, q);
    base.lemma_sort_by_ensures(leqc);
    assert(order.to_multiset().len() == base.to_multiset().len());
    assert(base.no_duplicates()) by {
        assert forall|i: int, j: int|
            0 <= i < base.len() && 0 <= j < base.len() && i != j implies base[i] != base[j] by {
            assert(base[i] as int == i && base[j] as int == j);
        }
    }
    base.lemma_multiset_has_no_duplicates();
    assert forall|x: usize| order.to_multiset().contains(x) implies order.to_multiset().count(x)
        == 1 by {
        assert(base.to_multiset().contains(x));
    }
    order.lemma_multiset_has_no_duplicates_conv();
}

/// The ids covered by any selection repeat no id and are all stored ids.
proof fn lemma_covered_unique(
    metric: DistanceMetric,
    cents: Seq<Seq<i16>>,
    es: Seq<(i32, Seq<i16>)>,
    sel: Seq<usize>,
)
    requires
        crate::index::unique_ids(es),
    ensures
        covered_ids(metric, cents, es, sel).no_duplicates(),
        forall|i: int|
            0 <= i < covered_ids(metric, cents, es, sel).len() ==> has_id(
                es,
                #[trigger] covered_ids(metric, cents, es, sel)[i],
            ),
    decreases es.len(),
{
    if es.len() > 0 {
        assert(crate::index::unique_ids(es.drop_last()));
        lemma_covered_unique(metric, cents, es.drop_last(), sel);
        let rest = covered_ids(metric, cents, es.drop_last(), sel);
        let cv = covered_ids(metric, cents, es, sel);
        assert forall|i: int| #![trigger rest[i]] 0 <= i < rest.len() implies exists|j: int|
            0 <= j < es.len() - 1 && (#[trigger] es[j]).0 == rest[i] by {
            assert(has_id(es.drop_last(), rest[i]));
            let j = choose|j: int|
                0 <= j < es.drop_last().len() && es.drop_last()[j].0 == rest[i];
            assert(es[j].0 == rest[i]);
        }
        if sel_contains(sel, nearest(metric, cents, es.last().1)) {
            let id = es.last().0;
            assert forall|i: int| 0 <= i < rest.len() implies rest[i] != id by {
                let j = choose|j: int| 0 <= j < es.len() - 1 && es[j].0 == rest[i];
                assert(es[j].0 != es[es.len() - 1].0);
            }
            assert(cv == rest.push(id));
            assert(es[es.len() - 1].0 == id);
        }
        assert forall|i: int| 0 <= i < cv.len() implies has_id(es, #[trigger] cv[i]) by {
            if i < rest.len() {
                assert(has_id(es.drop_last(), rest[i]));
                let j = choose|j: int|
                    0 <= j < es.drop_last().len() && es.drop_last()[j].0 == rest[i];
                assert(es[j].0 == cv[i]);
            } else {
                assert(es[es.len() - 1].0 == cv[i]);
            }
        }
    }
}

/// Every candidate gathered at a smaller probe is gathered at a larger one.
proof fn lemma_gathered_prefix(
    metric: DistanceMetric,
    cents: Seq<Seq<i16>>,
    es: Seq<(i32, Seq<i16>)>,
    s: Seq<usize>,
    c1: int,
    c2: int,
)
    requires
        0 <= c1 <= c2 <= s.len(),
    ensures
        forall|x: i32|
            gathered_ids(metric, cents, es, s.take(c1)).contains(x) ==> gathered_ids(
                metric,
                cents,
                es,
                s.take(c2),
            ).contains(x),
    decreases c2 - c1,
{
    if c2 > c1 {
        lemma_gathered_prefix(metric, cents, es, s, c1, c2 - 1);
        let g1 = gathered_ids(metric, cents, es, s.take(c2 - 1));
        let g2 = gathered_ids(metric, cents, es, s.take(c2));
        assert(s.take(c2).drop_last() =~= s.take(c2 - 1));
        assert forall|x: i32| g1.contains(x) implies g2.contains(x) by {
            let i = choose|i: int| 0 <= i < g1.len() && g1[i] == x;
            assert(g2[i] == x);
        }
    }
}

/// A true top-`top_k` id found among any candidate subset of the corpus is
/// returned by ranking that subset: fewer than `top_k` candidates can rank
/// before it.
proof fn lemma_in_top(
    es: Seq<(i32, Seq<i16>)>,
    metric: DistanceMetric,
    q: Seq<i16>,
    cands: Seq<i32>,
    all: Seq<i32>,
    top_k: int,
    x: i32,
)
    requires
        0 <= top_k,
        cands.no_duplicates(),
        all.no_duplicates(),
        forall|y: i32| cands.contains(y) ==> all.contains(y),
        take_top(all.sort_by(cand_leq_fn(es, metric, q)), top_k).contains(x),
        cands.contains(x),
    ensures
        take_top(cands.sort_by(cand_leq_fn(es, metric, q)), top_k).contains(x),
{
    broadcast use vstd::seq_lib::group_to_multiset_ensures;
    broadcast use vstd::seq_lib::seq_to_set_is_finite;
    broadcast use vstd::set::group_set_axioms;

    let leq = cand_leq_fn(es, metric, q);
    lemma_cand_order_total(es, metric, q);
    all.lemma_sort_by_ensures(leq);
    cands.lemma_sort_by_ensures(leq);
    let sa = all.sort_by(leq);
    let sc = cands.sort_by(leq);
    all.lemma_multiset_has_no_duplicates();
    assert forall|y: i32| sa.to_multiset().contains(y) implies sa.to_multiset().count(y) == 1 by {
        assert(all.to_multiset().contains(y));
    }
    sa.lemma_multiset_has_no_duplicates_conv();
    cands.lemma_multiset_has_no_duplicates();
    assert forall|y: i32| sc.to_multiset().contains(y) implies sc.to_multiset().count(y) == 1 by {
        assert(cands.to_multiset().contains(y));
    }
    sc.lemma_multiset_has_no_duplicates_conv();
    assert(sc.contains(x)) by {
        assert(cands.to_multiset().contains(x));
        assert(sc.to_multiset().contains(x));
    }
    let j = choose|j: int| 0 <= j < sc.len() && sc[j] == x;
    if top_k >= sc.len() {
        assert(take_top(sc, top_k) == sc);
    } else {
        // the ranked subset is no longer than the ranked corpus
        cands.unique_seq_to_set();
        all.unique_seq_to_set();
        assert(cands.to_set().subset_of(all.to_set()));
        vstd::set_lib::lemma_len_subset(cands.to_set(), all.to_set());
        assert(sc.len() == cands.len()) by {
            assert(sc.to_multiset().len() == sc.len());
            assert(cands.to_multiset().len() == cands.len());
        }
        assert(sa.len() == all.len()) by {
            assert(sa.to_multiset().len() == sa.len());
            assert(all.to_multiset().len() == all.len());
        }
        assert(top_k < sa.len());
        assert(take_top(sa, top_k) == sa.take(top_k));
        let i = choose|i: int| 0 <= i < sa.take(top_k).len() && sa.take(top_k)[i] == x;
        assert(sa.take(top_k).len() == top_k);
        assert(sa[i] == x);
        assert(i < top_k);
        // every id ranked before x among the candidates is ranked before it
        // in the corpus, and those positions are distinct
        assert forall|y: i32| sc.take(j).to_set().contains(y) implies sa.take(
            i,
        ).to_set().contains(y) by {
            let a = choose|a: int| 0 <= a < j && sc.take(j)[a] == y;
            assert(sc[a] == y);
            assert(leq(y, x));
            assert(y != x);
            assert(cands.contains(y)) by {
                assert(sc.to_multiset().contains(y));
                assert(cands.to_multiset().contains(y));
            }
            assert(all.contains(y));
            assert(sa.contains(y)) by {
                assert(all.to_multiset().contains(y));
                assert(sa.to_multiset().contains(y));
            }
            let b = choose|b: int| 0 <= b < sa.len() && sa[b] == y;
            if b > i {
                assert(leq(sa[i], sa[b]));
                assert(leq(x, y));
                assert(x == y);
            }
            assert(b < i);
            assert(sa.take(i)[b] == y);
        }
        assert(sc.take(j).no_duplicates());
        assert(sa.take(i).no_duplicates());
        sc.take(j).unique_seq_to_set();
        sa.take(i).unique_seq_to_set();
        vstd::set_lib::lemma_len_subset(sc.take(j).to_set(), sa.take(i).to_set());
        assert(j <= i);
        assert(take_top(sc, top_k)[j] == x);
    }
}

/// Monotonic recall: raising the probe never loses a true neighbor. Any id
/// of the exhaustive top-`top_k` that `search` returns at probe `p` is
/// still returned at probe `p + 1`; the count of true neighbors found can
/// only grow with the probe.
pub proof fn lemma_probe_monotonic_recall(
    idx: InvertedIndex,
    q: Seq<i16>,
    top_k: int,
    probe: int,
    x: i32,
)
    requires
        idx.wf(),
        0 <= top_k,
        exhaustive_spec(idx, q, top_k).contains(x),
        search_spec(idx, q, top_k, probe).contains(x),
    ensures
        search_spec(idx, q, top_k, probe + 1).contains(x),
{
    broadcast use vstd::seq_lib::group_to_multiset_ensures;

    let cvs = idx.cent_views();
    let es = idx.evs();
    let metric = idx.metric;
    let k = idx.centroids@.len() as int;
    let leq = cand_leq_fn(es, metric, q);
    lemma_cand_order_total(es, metric, q);
    lemma_order_no_dup(cvs, metric, q);
    let order = cluster_order(cvs, metric, q);
    let c1 = clamp_probe(probe, k);
    let c2 = clamp_probe(probe + 1, k);
    let sel1 = order.take(c1);
    let sel2 = order.take(c2);
    let cands1 = gathered_ids(metric, cvs, es, sel1);
    let cands2 = gathered_ids(metric, cvs, es, sel2);
    // x is among the candidates at probe + 1
    cands1.lemma_sort_by_ensures(leq);
    let s1 = cands1.sort_by(leq);
    let res1 = search_spec(idx, q, top_k, probe);
    assert(res1 == take_top(s1, top_k));
    assert(cands1.contains(x)) by {
        if top_k < s1.len() {
            assert(res1 == s1.take(top_k));
            let i = choose|i: int| 0 <= i < res1.len() && res1[i] == x;
            assert(res1.len() == top_k);
            assert(s1[i] == x);
        }
        assert(s1.contains(x));
        assert(s1.to_multiset().contains(x));
        assert(cands1.to_multiset().contains(x));
    }
    lemma_gathered_prefix(metric, cvs, es, order, c1, c2);
    assert(cands2.contains(x));
    // the candidates at probe + 1 are distinct stored ids
    assert(sel2.no_duplicates());
    lemma_gathered_covered(metric, cvs, es, sel2);
    lemma_covered_unique(metric, cvs, es, sel2);
    let cov = covered_ids(metric, cvs, es, sel2);
    cov.lemma_multiset_has_no_duplicates();
    assert forall|y: i32| cands2.to_multiset().contains(y) implies cands2.to_multiset().count(y)
        == 1 by {
        assert(cov.to_multiset().contains(y));
    }
    cands2.lemma_multiset_has_no_duplicates_conv();
    let all = ids_of(es);
    assert(all.no_duplicates()) by {
        assert forall|i: int, j: int|
            0 <= i < all.len() && 0 <= j < all.len() && i != j implies all[i] != all[j] by {
            assert(all[i] == es[i].0 && all[j] == es[j].0);
        }
    }
    lemma_gathered_has_id(metric, cvs, es, sel2);
    assert forall|y: i32| cands2.contains(y) implies all.contains(y) by {
        let i = choose|i: int| 0 <= i < cands2.len() && cands2[i] == y;
        assert(has_id(es, y));
        let j = choose|j: int| 0 <= j < es.len() && es[j].0 == y;
        assert(all[j] == y);
    }
    lemma_in_top(es, metric, q, cands2, all, top_k, x);
}

/// A search ranking repeats no id: every stored id belongs to exactly one
/// cluster, so the union of the selected clusters' postings is already
/// duplicate-free.
pub proof fn lemma_search_no_duplicates(idx: InvertedIndex, q: Seq<i16>, top_k: int, probe: int)
    requires
        idx.wf(),
        0 <= top_k,
    ensures
        search_spec(idx, q, top_k, probe).no_duplicates(),
{
    broadcast use vstd::seq_lib::group_to_multiset_ensures;

    let cvs = idx.cent_views();
    let es = idx.evs();
    let metric = idx.metric;
    let k = idx.centroids@.len() as int;
    let leq = cand_leq_fn(es, metric, q);
    lemma_order_no_dup(cvs, metric, q);
    let order = cluster_order(cvs, metric, q);
    let sel = order.take(clamp_probe(probe, k));
    assert(sel.no_duplicates());
    let cands = gathered_ids(metric, cvs, es, sel);
    lemma_gathered_covered(metric, cvs, es, sel);
    lemma_covered_unique(metric, cvs, es, sel);
    let cov = covered_ids(metric, cvs, es, sel);
    cov.lemma_multiset_has_no_duplicates();
    assert forall|y: i32| cands.to_multiset().contains(y) implies cands.to_multiset().count(y)
        == 1 by {
        assert(cov.to_multiset().contains(y));
    }
    cands.lemma_multiset_has_no_duplicates_conv();
    lemma_cand_order_total(es, metric, q);
    cands.lemma_sort_by_ensures(leq);
    let ranked = cands.sort_by(leq);
    cands.lemma_multiset_has_no_duplicates();
    assert forall|y: i32| ranked.to_multiset().contains(y) implies ranked.to_multiset().count(y)
        == 1 by {
        assert(cands.to_multiset().contains(y));
    }
    ranked.lemma_multiset_has_no_duplicates_conv();
    let res = take_top(ranked, top_k);
    if top_k < ranked.len() {
        assert(res.len() == top_k);
        assert forall|a: int, b: int|
            0 <= a < res.len() && 0 <= b < res.len() && a != b implies res[a] != res[b] by {
            assert(ranked[a] != ranked[b]);
            assert(res[a] == ranked[a] && res[b] == ranked[b]);
        }
    }
}

/// Monotonic recall, counted: the number of true top-`top_k` neighbors
/// that `search` finds never decreases when the probe grows by one.
pub proof fn lemma_probe_monotonic_recall_count(
    idx: InvertedIndex,
    q: Seq<i16>,
    top_k: int,
    probe: int,
)
    requires
        idx.wf(),
        0 <= top_k,
    ensures
        exhaustive_spec(idx, q, top_k).to_set().intersect(
            search_spec(idx, q, top_k, probe).to_set(),
        ).len() <= exhaustive_spec(idx, q, top_k).to_set().intersect(
            search_spec(idx, q, top_k, probe + 1).to_set(),
        ).len(),
{
    broadcast use vstd::seq_lib::seq_to_set_is_finite;
    broadcast use vstd::set::group_set_axioms;

    let truth = exhaustive_spec(idx, q, top_k).to_set();
    let found1 = truth.intersect(search_spec(idx, q, top_k, probe).to_set());
    let found2 = truth.intersect(search_spec(idx, q, top_k, probe + 1).to_set());
    assert forall|x: i32| found1.contains(x) implies found2.contains(x) by {
        lemma_probe_monotonic_recall(idx, q, top_k, probe, x);
    }
    assert(found2.subset_of(truth));
    vstd::set_lib::lemma_len_subset(found2, truth);
    vstd::set_lib::lemma_len_subset(found1, found2);
}

/// Probe-based approximate nearest-neighbor search over one snapshot.
///
/// Fails with `DimensionMismatch` exactly when the query's dimension
/// differs from the index's; otherwise returns exactly `search_spec`: the
/// ids of the `probe` (clamped to `[1, k]`) nearest clusters' members,
/// ranked by exact distance or similarity with ties broken by the lower
/// id, truncated to the best `top_k` — fewer when there are fewer
/// candidates, and never padded.
pub fn search(idx: &InvertedIndex, query: &PGVector, top_k: usize, probe: usize) -> (r: Result<
    Vec<i32>,
    VectorError,
>)
    requires
        idx.wf(),
    ensures
        match r {
            Ok(ids) => query@.len() == idx.dimension && ids@ == search_spec(
                *idx,
                query@,
                top_k as int,
                probe as int,
            ),
            Err(e) => e == VectorError::DimensionMismatch && query@.len() != idx.dimension,
        },
{
    if query.dims.len() != idx.dimension {
        return Err(VectorError::DimensionMismatch);
    }
    let k = idx.centroids.len();
    let mut base: Vec<usize> = Vec::new();
    let mut i: usize = 0;
    while i < k
        invariant
            i <= k,
            base@.len() == i,
            forall|j: int| 0 <= j < i ==> (#[trigger] base@[j]) == j as usize,
        decreases k - i,
    {
        base.push(i);
        i = i + 1;
    }
    proof {
        assert(base@ =~= cluster_ids(k as nat));
    }
    let order = sort_clusters(idx.metric, query, &idx.centroids, &base);
    let probe_c = if probe < 1 {
        1
    } else if probe > k {
        k
    } else {
        probe
    };
    proof {
        assert(probe_c as int == clamp_probe(probe as int, k as int));
        assert(order@.len() == k);
    }

    let mut cands: Vec<i32> = Vec::new();
    let mut t: usize = 0;
    proof {
        assert(order@.take(0) =~= Seq::<usize>::empty());
    }
    while t < probe_c
        invariant
            t <= probe_c,
            probe_c <= k,
            k == idx.centroids@.len(),
            idx.wf(),
            query@.len() == idx.dimension,
            order@.len() == k,
            forall|j: int| 0 <= j < k ==> (#[trigger] order@[j]) < k,
            cands@ == gathered_ids(
                idx.metric,
                idx.cent_views(),
                idx.evs(),
                order@.take(t as int),
            ),
        decreases probe_c - t,
    {
        let c = order[t];
        let ghost prevc = cands@;
        let m = idx.postings[c].len();
        let mut j: usize = 0;
        while j < m
            invariant
                j <= m,
                c < k,
                k == idx.centroids@.len(),
                idx.wf(),
                m == idx.postings@[c as int]@.len(),
                cands@ == prevc + idx.postings@[c as int]@.subrange(0, j as int),
            decreases m - j,
        {
            let id = idx.postings[c][j];
            cands.push(id);
            j = j + 1;
            proof {
                assert(cands@ =~= prevc + idx.postings@[c as int]@.subrange(0, j as int));
            }
        }
        t = t + 1;
        proof {
            let selpre = order@.take(t as int);
            assert(selpre.drop_last() =~= order@.take(t as int - 1));
            assert(selpre.last() == order@[t as int - 1]);
            assert(idx.postings@[c as int]@.subrange(0, m as int) =~= idx.postings@[c as int]@);
            assert(idx.postings@[c as int]@ == posting_spec(
                idx.metric,
                idx.cent_views(),
                idx.evs(),
                c as int,
            ));
        }
    }
    proof {
        lemma_gathered_has_id(idx.metric, idx.cent_views(), idx.evs(), order@.take(probe_c as int));
    }
    let ranked = sort_candidates(idx.metric, query, &idx.entries, &cands);
    let m = if top_k < ranked.len() {
        top_k
    } else {
        ranked.len()
    };
    let mut out: Vec<i32> = Vec::new();
    let mut t2: usize = 0;
    while t2 < m
        invariant
            t2 <= m,
            m <= ranked@.len(),
            out@ == ranked@.subrange(0, t2 as int),
        decreases m - t2,
    {
        out.push(ranked[t2]);
        t2 = t2 + 1;
        proof {
            assert(out@ =~= ranked@.subrange(0, t2 as int));
        }
    }
    proof {
        assert(out@ =~= take_top(ranked@, top_k as int));
    }
    Ok(out)
}

/// An exhaustive, exact scan: every stored id ranked against the query by
/// the index's metric, the best `top_k` returned. The ground truth that
/// probe-based search approximates.
pub fn exhaustive_search(idx: &InvertedIndex, query: &PGVector, top_k: usize) -> (r: Result<
    Vec<i32>,
    VectorError,
>)
    requires
        idx.wf(),
    ensures
        match r {
            Ok(ids) => query@.len() == idx.dimension && ids@ == exhaustive_spec(
                *idx,
                query@,
                top_k as int,
            ),
            Err(e) => e == VectorError::DimensionMismatch && query@.len() != idx.dimension,
        },
{
    if query.dims.len() != idx.dimension {
        return Err(VectorError::DimensionMismatch);
    }
    let n = idx.entries.len();
    let mut all_ids: Vec<i32> = Vec::new();
    let mut i: usize = 0;
    while i < n
        invariant
            i <= n,
            n == idx.entries@.len(),
            idx.wf(),
            all_ids@.len() == i,
            forall|j: int| 0 <= j < i ==> (#[trigger] all_ids@[j]) == ids_of(idx.evs())[j],
        decreases n - i,
    {
        let id = idx.entries[i].0;
        proof {
            assert(ids_of(idx.evs())[i as int] == idx.entries@[i as int].0);
        }
        all_ids.push(id);
        i = i + 1;
    }
    proof {
        assert(all_ids@ =~= ids_of(idx.evs()));
        assert forall|j: int| 0 <= j < all_ids@.len() implies has_id(
            idx.evs(),
            #[trigger] all_ids@[j],
        ) by {
            assert(idx.evs()[j].0 == all_ids@[j]);
        }
    }
    let ranked = sort_candidates(idx.metric, query, &idx.entries, &all_ids);
    let m = if top_k < ranked.len() {
        top_k
    } else {
        ranked.len()
    };
    let mut out: Vec<i32> = Vec::new();
    let mut t2: usize = 0;
    while t2 < m
        invariant
            t2 <= m,
            m <= ranked@.len(),
            out@ == ranked@.subrange(0, t2 as int),
        decreases m - t2,
    {
        out.push(ranked[t2]);
        t2 = t2 + 1;
        proof {
            assert(out@ =~= ranked@.subrange(0, t2 as int));
        }
    }
    proof {
        assert(out@ =~= take_top(ranked@, top_k as int));
    }
    Ok(out)
}

impl IndexStore {
    /// Searches the snapshot currently published under `key`; an empty
    /// ranking when no snapshot is published there.
    pub fn index_search(&self, key: u64, query: &PGVector, top_k: usize, probe: usize) -> (r:
        Result<Vec<i32>, VectorError>)
        requires
            self.wf(),
        ensures
            match r {
                Ok(ids) => {
                    if store_has(self.entries@, key) {
                        &&& query@.len() == store_at(self.entries@, key).dimension
                        &&& ids@ == search_spec(
                            store_at(self.entries@, key),
                            query@,
                            top_k as int,
                            probe as int,
                        )
                    } else {
                        ids@ == Seq::<i32>::empty()
                    }
                },
                Err(e) => {
                    &&& e == VectorError::DimensionMismatch
                    &&& store_has(self.entries@, key)
                    &&& query@.len() != store_at(self.entries@, key).dimension
                },
            },
    {
        match self.current(key) {
            Some(idx) => search(idx, query, top_k, probe),
            None => Ok(Vec::new()),
        }
    }
}

} // verus!
