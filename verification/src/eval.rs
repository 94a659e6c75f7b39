//! Measuring answers: the exact ones to compare with, and how many of them an
//! index found.

use std::collections::HashSet;
use vstd::prelude::*;
use crate::dataset::vectors_view;
use crate::distance::Metric;
use crate::numerics::{distance, functional, model, Model, Numerics};
use crate::rank::{first_k, keep_smallest, lemma_kept, lemma_smallest, smallest, sorted};
use crate::types::{SearchResult, VectorId};

verus! {

/// The distance of every vector from a query; a vector's id is its place.
pub open spec fn distances(g: Model, base: Seq<Seq<u32>>, query: Seq<u32>, metric: Metric) -> Seq<
    SearchResult,
> {
    Seq::new(
        base.len(),
        |i: int| SearchResult {
            id: VectorId(i as u64),
            distance: (g.distance)(metric, query, base[i]),
        },
    )
}

pub open spec fn ids(s: Seq<SearchResult>) -> Seq<VectorId> {
    Seq::new(s.len(), |i: int| s[i].id)
}

/// The `k` vectors nearest to a query, by a scan of all of them. Under cosine
/// the vectors and the query are to be normalized already.
pub fn exact_top_k<N: Numerics>(
    num: &N,
    base: &Vec<Vec<u32>>,
    query: &[u32],
    k: usize,
    metric: Metric,
) -> (out: Vec<SearchResult>)
    requires
        functional(num),
    ensures
        out@ == smallest(
            distances(model(num), vectors_view(base@), query@, metric),
            k as nat,
        ),
        exactly_nearest(model(num), vectors_view(base@), query@, k as nat, metric, out@),
{
    proof {
        let count = base.len();
        exact_answer_leaves_out_nothing_nearer(
            model(num),
            vectors_view(base@),
            query@,
            k as nat,
            metric,
        );
    }
    let ghost all = distances(model(num), vectors_view(base@), query@, metric);
    let mut out: Vec<SearchResult> = Vec::new();
    let mut i: usize = 0;
    proof {
        assert(all.take(0) =~= Seq::empty());
        lemma_smallest(all.take(0), k as nat);
    }
    while i < base.len()
        invariant
            functional(num),
            all == distances(model(num), vectors_view(base@), query@, metric),
            i <= base@.len(),
            out@ == smallest(all.take(i as int), k as nat),
            sorted(out@),
        decreases base@.len() - i,
    {
        let d: u32 = distance(num, metric, query, base[i].as_slice());
        let found = SearchResult::new(VectorId(i as u64), d);
        proof {
            lemma_kept(all.take(i as int), found, k as nat);
            assert(all.take(i as int).push(found) =~= all.take(i + 1));
        }
        keep_smallest(&mut out, found, k);
        i = i + 1;
    }
    assert(all.take(i as int) =~= all);
    out
}

/// The ids that are the right answer to each query.
pub fn ground_truth<N: Numerics>(
    num: &N,
    base: &Vec<Vec<u32>>,
    queries: &Vec<Vec<u32>>,
    k: usize,
    metric: Metric,
) -> (out: Vec<Vec<VectorId>>)
    requires
        functional(num),
    ensures
        out@.len() == queries@.len(),
        forall|i: int|
            0 <= i < out@.len() ==> (#[trigger] out@[i])@ == ids(
                smallest(
                    distances(model(num), vectors_view(base@), queries@[i]@, metric),
                    k as nat,
                ),
            ),
{
    let mut out: Vec<Vec<VectorId>> = Vec::with_capacity(queries.len());
    let mut i: usize = 0;
    while i < queries.len()
        invariant
            functional(num),
            i <= queries@.len(),
            out@.len() == i,
            forall|j: int|
                0 <= j < i ==> (#[trigger] out@[j])@ == ids(
                    smallest(
                        distances(model(num), vectors_view(base@), queries@[j]@, metric),
                        k as nat,
                    ),
                ),
        decreases queries@.len() - i,
    {
        let found: Vec<SearchResult> = exact_top_k(num, base, queries[i].as_slice(), k, metric);
        out.push(ids_of(&found));
        i = i + 1;
    }
    out
}

/// The ids of some results.
pub fn ids_of(results: &Vec<SearchResult>) -> (out: Vec<VectorId>)
    ensures
        out@ == ids(results@),
{
    let mut out: Vec<VectorId> = Vec::with_capacity(results.len());
    let mut i: usize = 0;
    while i < results.len()
        invariant
            i <= results@.len(),
            out@ =~= ids(results@).take(i as int),
        decreases results@.len() - i,
    {
        out.push(results[i].id);
        i = i + 1;
    }
    assert(ids(results@).take(i as int) =~= ids(results@));
    out
}

/// How many of the ids are among the wanted ones.
pub open spec fn hits(found: Seq<VectorId>, wanted: Seq<VectorId>) -> nat
    decreases found.len(),
{
    if found.len() == 0 {
        0
    } else {
        hits(found.drop_last(), wanted) + (if wanted.contains(found.last()) {
            1nat
        } else {
            0nat
        })
    }
}

/// The answer to one query scored against the truth: how much of it was found,
/// of how much there was to find. With nothing to find, any answer is right.
pub open spec fn score(found: Seq<VectorId>, truth: Seq<VectorId>, k: nat) -> (nat, nat) {
    let wanted = first_k(truth, k);
    if wanted.len() == 0 {
        (1, 1)
    } else {
        (hits(first_k(found, k), wanted), wanted.len())
    }
}

/// Scores the answer to one query: recall at `k` is the first number divided by
/// the second.
pub fn recall_score(found: &Vec<VectorId>, truth: &Vec<VectorId>, k: usize) -> (r: (usize, usize))
    ensures
        (r.0 as nat, r.1 as nat) == score(found@, truth@, k as nat),
        r.1 > 0,
        k > 0 && truth@.len() > 0 ==> r.1 == (if truth@.len() < k {
            truth@.len()
        } else {
            k as nat
        }) && r.0 == hit_places(found@, truth@, k as nat).len(),
{
    proof {
        score_is_hits_out_of_what_there_is_to_find(found@, truth@, k as nat);
    }
    broadcast use vstd::std_specs::hash::group_hash_axioms;

    let wanted: usize = if truth.len() < k { truth.len() } else { k };
    if wanted == 0 {
        return (1, 1);
    }
    let ghost want = first_k(truth@, k as nat);
    assert(want =~= truth@.take(wanted as int));
    let mut set: HashSet<u64> = HashSet::new();
    let mut i: usize = 0;
    while i < wanted
        invariant
            i <= wanted <= truth@.len(),
            forall|x: u64| #[trigger]
                set@.contains(x) <==> truth@.take(i as int).contains(VectorId(x)),
        decreases wanted - i,
    {
        broadcast use vstd::std_specs::hash::group_hash_axioms;

        set.insert(truth[i].0);
        proof {
            let t = truth@.take(i as int);
            let u = truth@.take(i + 1);
            assert(u =~= t.push(truth@[i as int]));
            assert forall|x: u64| #[trigger] set@.contains(x) <==> u.contains(VectorId(x)) by {
                if t.contains(VectorId(x)) {
                    let j = choose|j: int| 0 <= j < t.len() && t[j] == VectorId(x);
                    assert(u[j] == VectorId(x));
                }
                if x == truth@[i as int].0 {
                    assert(u[i as int] == VectorId(x));
                }
                if u.contains(VectorId(x)) && x != truth@[i as int].0 {
                    let j = choose|j: int| 0 <= j < u.len() && u[j] == VectorId(x);
                    assert(t[j] == VectorId(x));
                }
            }
        }
        i = i + 1;
    }
    let looked: usize = if found.len() < k { found.len() } else { k };
    let ghost look = first_k(found@, k as nat);
    assert(look =~= found@.take(looked as int));
    let mut n: usize = 0;
    let mut j: usize = 0;
    assert(found@.take(0) =~= Seq::empty());
    while j < looked
        invariant
            j <= looked <= found@.len(),
            n == hits(found@.take(j as int), want),
            n <= j,
            forall|x: u64| #[trigger] set@.contains(x) <==> want.contains(VectorId(x)),
        decreases looked - j,
    {
        broadcast use vstd::std_specs::hash::group_hash_axioms;

        let ghost t = found@.take(j + 1);
        proof {
            assert(t.drop_last() =~= found@.take(j as int));
            assert(t.last() == found@[j as int]);
        }
        if set.contains(&found[j].0) {
            n = n + 1;
        }
        j = j + 1;
    }
    (n, wanted)
}

/// The truth itself is a perfect answer, on a small index too: where there are
/// fewer vectors than asked for, finding all of them is enough.
pub proof fn right_answer_scores_one(truth: Seq<VectorId>, k: nat)
    ensures
        score(truth, truth, k).0 == score(truth, truth, k).1,
{
    let wanted = first_k(truth, k);
    lemma_all_hit(wanted, wanted);
}

proof fn lemma_all_hit(found: Seq<VectorId>, wanted: Seq<VectorId>)
    requires
        forall|i: int| 0 <= i < found.len() ==> wanted.contains(#[trigger] found[i]),
    ensures
        hits(found, wanted) == found.len(),
    decreases found.len(),
{
    if found.len() > 0 {
        let t = found.drop_last();
        assert forall|i: int| 0 <= i < t.len() implies wanted.contains(#[trigger] t[i]) by {
            assert(t[i] == found[i]);
        }
        assert(wanted.contains(found[found.len() - 1]));
        lemma_all_hit(t, wanted);
    }
}

/// The ids that were found, of those that were wanted.
pub open spec fn found_of(found: Seq<VectorId>, wanted: Seq<VectorId>) -> Set<VectorId> {
    found.to_set().intersect(wanted.to_set())
}

/// No answer that names every id once scores more than one.
pub proof fn score_is_at_most_one(found: Seq<VectorId>, truth: Seq<VectorId>, k: nat)
    requires
        found.no_duplicates(),
    ensures
        score(found, truth, k).0 <= score(found, truth, k).1,
{
    let wanted = first_k(truth, k);
    let look = first_k(found, k);
    assert(look.no_duplicates());
    lemma_hits_set(look, wanted);
    vstd::seq_lib::seq_to_set_is_finite(wanted);
    vstd::seq_lib::seq_to_set_is_finite(look);
    vstd::set_lib::lemma_len_subset(found_of(look, wanted), wanted.to_set());
    wanted.lemma_cardinality_of_set();
}

proof fn lemma_hits_set(found: Seq<VectorId>, wanted: Seq<VectorId>)
    requires
        found.no_duplicates(),
    ensures
        found_of(found, wanted).finite(),
        hits(found, wanted) == found_of(found, wanted).len(),
    decreases found.len(),
{
    vstd::seq_lib::seq_to_set_is_finite(wanted);
    vstd::seq_lib::seq_to_set_is_finite(found);
    if found.len() == 0 {
        assert(found_of(found, wanted) =~= Set::empty());
    } else {
        let t = found.drop_last();
        let x = found.last();
        lemma_hits_set(t, wanted);
        assert(found =~= t.push(x));
        assert(!t.contains(x)) by {
            if t.contains(x) {
                let i = choose|i: int| 0 <= i < t.len() && t[i] == x;
                assert(found[i] == found[found.len() - 1]);
            }
        }
        assert forall|y: VectorId| found.to_set().contains(y) <==> t.to_set().contains(y) || y
            == x by {
            if t.contains(y) {
                let i = choose|i: int| 0 <= i < t.len() && t[i] == y;
                assert(found[i] == y);
            }
            if y == x {
                assert(found[found.len() - 1] == y);
            }
        }
        if wanted.contains(x) {
            assert(found_of(found, wanted) =~= found_of(t, wanted).insert(x));
        } else {
            assert(found_of(found, wanted) =~= found_of(t, wanted));
        }
    }
}

/// The places among the first `k` found that hold one of the first `k` true ids.
pub open spec fn hit_places(found: Seq<VectorId>, truth: Seq<VectorId>, k: nat) -> Set<int> {
    Set::new(
        |i: int|
            0 <= i < found.len() && i < k && exists|j: int|
                0 <= j < truth.len() && j < k && #[trigger] truth[j] == found[i],
    )
}

proof fn lemma_hit_places(found: Seq<VectorId>, truth: Seq<VectorId>, k: nat, n: int)
    requires
        0 <= n <= found.len(),
        n <= k,
    ensures
        hit_places(found.take(n), truth, k).finite(),
        hit_places(found.take(n), truth, k).len() == hits(found.take(n), first_k(truth, k)),
    decreases n,
{
    let look = found.take(n);
    let wanted = first_k(truth, k);
    let places = hit_places(look, truth, k);
    if n == 0 {
        assert(places =~= Set::empty());
    } else {
        lemma_hit_places(found, truth, k, n - 1);
        let rest = hit_places(found.take(n - 1), truth, k);
        assert(look.drop_last() =~= found.take(n - 1));
        let last = found[n - 1];
        assert(wanted.contains(last) <==> exists|j: int|
            0 <= j < truth.len() && j < k && #[trigger] truth[j] == last) by {
            if wanted.contains(last) {
                let j = choose|j: int| 0 <= j < wanted.len() && wanted[j] == last;
                assert(truth[j] == last);
            }
            if exists|j: int| 0 <= j < truth.len() && j < k && #[trigger] truth[j] == last {
                let j = choose|j: int| 0 <= j < truth.len() && j < k && #[trigger] truth[j] == last;
                assert(wanted[j] == last);
            }
        }
        if wanted.contains(last) {
            assert(places =~= rest.insert(n - 1));
        } else {
            assert(places =~= rest);
        }
    }
}

/// A score sets what was found against what there was to find: of the first `k`
/// ids found those that are among the first `k` true ones, out of `k` or of as
/// many as are true, however few were found. With nothing to find it is one.
pub proof fn score_is_hits_out_of_what_there_is_to_find(
    found: Seq<VectorId>,
    truth: Seq<VectorId>,
    k: nat,
)
    ensures
        k == 0 || truth.len() == 0 ==> score(found, truth, k) == (1nat, 1nat),
        k > 0 && truth.len() > 0 ==> score(found, truth, k).1 == (if truth.len() < k {
            truth.len()
        } else {
            k
        }),
        k > 0 && truth.len() > 0 ==> hit_places(found, truth, k).finite() && score(
            found,
            truth,
            k,
        ).0 == hit_places(found, truth, k).len(),
{
    let n = if found.len() < k {
        found.len() as int
    } else {
        k as int
    };
    lemma_hit_places(found, truth, k, n);
    assert(first_k(found, k) =~= found.take(n));
    assert(hit_places(found.take(n), truth, k) =~= hit_places(found, truth, k));
}

/// Where no id is named twice, a score is one exactly where every one of the first
/// `k` true ids is among the first `k` found.
pub proof fn perfect_score_means_that_nothing_is_missing(
    found: Seq<VectorId>,
    truth: Seq<VectorId>,
    k: nat,
)
    requires
        found.no_duplicates(),
        truth.no_duplicates(),
    ensures
        score(found, truth, k).0 == score(found, truth, k).1 <==> forall|j: int|
            0 <= j < truth.len() && j < k ==> exists|i: int|
                0 <= i < found.len() && i < k && found[i] == #[trigger] truth[j],
{
    let wanted = first_k(truth, k);
    let look = first_k(found, k);
    assert(look.no_duplicates());
    assert(wanted.no_duplicates());
    lemma_hits_set(look, wanted);
    vstd::seq_lib::seq_to_set_is_finite(wanted);
    wanted.unique_seq_to_set();
    let got = found_of(look, wanted);
    vstd::set_lib::lemma_len_subset(got, wanted.to_set());
    if got.len() == wanted.len() {
        vstd::set_lib::lemma_subset_equality(got, wanted.to_set());
        assert forall|j: int| 0 <= j < truth.len() && j < k implies exists|i: int|
            0 <= i < found.len() && i < k && found[i] == #[trigger] truth[j] by {
            assert(wanted[j] == truth[j]);
            assert(wanted.to_set().contains(truth[j]));
            assert(got.contains(truth[j]));
            let i = choose|i: int| 0 <= i < look.len() && look[i] == truth[j];
            assert(found[i] == truth[j]);
        }
    }
    if forall|j: int|
        0 <= j < truth.len() && j < k ==> exists|i: int|
            0 <= i < found.len() && i < k && found[i] == #[trigger] truth[j] {
        assert forall|x: VectorId| wanted.to_set().contains(x) implies got.contains(x) by {
            let j = choose|j: int| 0 <= j < wanted.len() && wanted[j] == x;
            assert(truth[j] == x);
            let i = choose|i: int| 0 <= i < found.len() && i < k && found[i] == truth[j];
            assert(look[i] == x);
        }
        assert(got =~= wanted.to_set());
    }
}

/// The answer is exact: `k` vectors or all there are, each once, in ascending order
/// of distance and then of place, each with its own distance; and a vector that is
/// left out is nearer than none of them.
pub open spec fn exactly_nearest(
    g: Model,
    base: Seq<Seq<u32>>,
    query: Seq<u32>,
    k: nat,
    metric: Metric,
    out: Seq<SearchResult>,
) -> bool {
    &&& out.len() == (if base.len() < k {
        base.len()
    } else {
        k
    })
    &&& forall|i: int, j: int|
        0 <= i < j < out.len() ==> (#[trigger] out[i]).distance < (#[trigger] out[j]).distance || (
        out[i].distance == out[j].distance && out[i].id.0 < out[j].id.0)
    &&& forall|i: int|
        0 <= i < out.len() ==> (#[trigger] out[i]).id.0 < base.len() && out[i].distance == (
        g.distance)(metric, query, base[out[i].id.0 as int])
    &&& forall|p: int, i: int|
        #![trigger base[p], out[i]]
        0 <= p < base.len() && 0 <= i < out.len() ==> ids(out).contains(VectorId(p as u64))
            || out[i].distance <= (g.distance)(metric, query, base[p])
}

/// A scan of all vectors leaves out nothing nearer.
pub proof fn exact_answer_leaves_out_nothing_nearer(
    g: Model,
    base: Seq<Seq<u32>>,
    query: Seq<u32>,
    k: nat,
    metric: Metric,
)
    requires
        base.len() <= u64::MAX,
    ensures
        exactly_nearest(
            g,
            base,
            query,
            k,
            metric,
            smallest(distances(g, base, query, metric), k),
        ),
{
    let all = distances(g, base, query, metric);
    let out = smallest(all, k);
    let r = crate::rank::ranked(all);
    lemma_smallest(all, k);
    crate::rank::lemma_ranked(all);
    assert(all.no_duplicates()) by {
        assert forall|i: int, j: int|
            0 <= i < all.len() && 0 <= j < all.len() && i != j implies all[i] != all[j] by {
            assert(all[i].id == VectorId(i as u64) && all[j].id == VectorId(j as u64));
        }
    }
    crate::hnsw_laws::lemma_ranked_distinct(all);
    assert forall|i: int| 0 <= i < out.len() implies (#[trigger] out[i]).id.0 < base.len()
        && out[i].distance == (g.distance)(metric, query, base[out[i].id.0 as int]) by {
        assert(out.contains(out[i]));
        assert(all.contains(out[i]));
        let p = choose|p: int| 0 <= p < all.len() && all[p] == out[i];
        assert(all[p].id == VectorId(p as u64));
    }
    assert forall|i: int, j: int| 0 <= i < j < out.len() implies (#[trigger] out[i]).distance < (
    #[trigger] out[j]).distance || (out[i].distance == out[j].distance && out[i].id.0
        < out[j].id.0) by {
        assert(out[i] == r[i] && out[j] == r[j]);
        assert(r[i] != r[j]);
        assert(crate::rank::Ranked::key(out[i]) <= crate::rank::Ranked::key(out[j]));
    }
    assert forall|p: int, i: int|
        #![trigger base[p], out[i]]
        0 <= p < base.len() && 0 <= i < out.len() implies ids(out).contains(VectorId(p as u64))
        || out[i].distance <= (g.distance)(metric, query, base[p]) by {
        assert(all.contains(all[p]));
        if out.contains(all[p]) {
            let j = choose|j: int| 0 <= j < out.len() && out[j] == all[p];
            assert(ids(out)[j] == VectorId(p as u64));
        } else {
            assert(crate::rank::Ranked::key(out[i]) <= crate::rank::Ranked::key(
                out[out.len() - 1],
            ));
        }
    }
}

/// A share of the ids below `n`: `m` of them, evenly spread.
pub fn spread_ids(n: usize, m: usize) -> (out: Vec<u64>)
    requires
        0 < m <= n,
    ensures
        out@ == Seq::new(m as nat, |i: int| (i * (n / m)) as u64),
{
    let step: usize = n / m;
    let ghost all = Seq::new(m as nat, |i: int| (i * (n / m)) as u64);
    let mut out: Vec<u64> = Vec::with_capacity(m);
    let mut i: usize = 0;
    let mut next: usize = 0;
    proof {
        assert(m * (n / m) <= n) by (nonlinear_arith)
            requires
                m > 0,
        ;
    }
    while i < m
        invariant
            i <= m,
            step == n / m,
            m > 0,
            m * step <= n,
            next == i * step,
            all == Seq::new(m as nat, |j: int| (j * (n / m)) as u64),
            out@ =~= all.take(i as int),
        decreases m - i,
    {
        out.push(next as u64);
        proof {
            assert((i + 1) * step == i * step + step) by (nonlinear_arith);
            assert((i + 1) * step <= m * step) by (nonlinear_arith)
                requires
                    i + 1 <= m,
                    step >= 0,
            ;
        }
        next = next + step;
        i = i + 1;
    }
    assert(all.take(i as int) =~= all);
    out
}

/// The places of some vectors, nearest to a centre first.
pub fn by_distance<N: Numerics>(
    num: &N,
    vectors: &Vec<Vec<u32>>,
    center: &[u32],
    metric: Metric,
) -> (out: Vec<VectorId>)
    requires
        functional(num),
    ensures
        out@ == ids(
            smallest(
                distances(model(num), vectors_view(vectors@), center@, metric),
                vectors@.len(),
            ),
        ),
{
    let found: Vec<SearchResult> = exact_top_k(num, vectors, center, vectors.len(), metric);
    ids_of(&found)
}

} // verus!
