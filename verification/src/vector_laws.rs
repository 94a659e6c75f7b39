//! What becomes of a vector when the graph around it is built anew.
//!
//! Under cosine a vector is normalized again whenever it is inserted into
//! another graph; under the other metrics it stays as it is.

use vstd::prelude::*;
use crate::bruteforce::Brute;
use crate::distance::Metric;
use crate::hnsw::{lemma_inserted_ids, lemma_marked, Hnsw, HnswParams};
use crate::numerics::{prepared, Model};
use crate::segmented::{lemma_newest_part, lemma_newest_queued, parts_live, queue_live, Part, Store};
use crate::segmented_build::{
    grown, lemma_queued_at, live_nodes, merged_graph, part_at, replaces, sealed_graph, stands_for,
    surviving, Pair,
};
use crate::segmented_laws::{finished_merge_keeps_every_record, finished_seal_keeps_every_record};
use crate::types::VectorId;

verus! {

pub type Entries = Seq<(VectorId, Seq<u32>)>;

/// No id occurs twice.
pub open spec fn apart(es: Entries) -> bool {
    forall|i: int, j: int|
        0 <= i < j < es.len() ==> (#[trigger] es[i]).0 != (#[trigger] es[j]).0
}

/// The id occurs with the vector.
pub open spec fn listed(es: Entries, x: VectorId, v: Seq<u32>) -> bool {
    exists|i: int| 0 <= i < es.len() && #[trigger] es[i] == (x, v)
}

/// A graph that grew from nothing holds its entries in order, each with its
/// prepared vector.
pub proof fn lemma_grown_slots(start: Hnsw, g: Model, es: Entries, n: int)
    requires
        start.ids.len() == 0,
        start.deleted.len() == 0,
        start.vectors.len() == 0,
        apart(es),
        0 <= n <= es.len(),
    ensures
        ({
            let h = grown(start, g, es, n);
            &&& h.ids.len() == n
            &&& h.deleted.len() == n
            &&& h.vectors.len() == n
            &&& h.metric == start.metric
            &&& forall|i: int|
                0 <= i < n ==> (#[trigger] h.ids[i]) == es[i].0 && !h.deleted[i] && h.vectors[i]
                    == prepared(g, start.metric, es[i].1)
        }),
    decreases n,
{
    if n > 0 {
        lemma_grown_slots(start, g, es, n - 1);
        let before = grown(start, g, es, n - 1);
        let (id, v) = es[n - 1];
        if before.contains(id) {
            let s = choose|s: int|
                0 <= s < before.ids.len() && (#[trigger] before.ids[s]) == id && !before.deleted[s];
            assert(es[s].0 == id);
        }
        lemma_inserted_ids(before, g, id, v);
    }
}

/// What is listed can be looked up in the graph that grew from it.
proof fn lemma_grown_vector(start: Hnsw, g: Model, es: Entries, x: VectorId, v: Seq<u32>)
    requires
        start.ids.len() == 0,
        start.deleted.len() == 0,
        start.vectors.len() == 0,
        apart(es),
        listed(es, x, v),
    ensures
        grown(start, g, es, es.len() as int).contains(x),
        grown(start, g, es, es.len() as int).vectors[grown(start, g, es, es.len() as int).slot(x)]
            == prepared(g, start.metric, v),
{
    let h = grown(start, g, es, es.len() as int);
    lemma_grown_slots(start, g, es, es.len() as int);
    let i = choose|i: int| 0 <= i < es.len() && #[trigger] es[i] == (x, v);
    assert(es[i] == (x, v));
    assert(h.ids[i] == es[i].0);
    assert(h.ids[i] == x && !h.deleted[i]);
    let s = h.slot(x);
    assert(h.ids[s] == x);
    assert(es[s].0 == x);
    if s < i {
        assert(es[s].0 != es[i].0);
    }
    if i < s {
        assert(es[i].0 != es[s].0);
    }
}

/// A segment that is built from a buffer holds the buffer's vectors.
pub proof fn built_segment_keeps_every_vector(
    g: Model,
    params: HnswParams,
    data: Brute,
    x: VectorId,
)
    requires
        data.valid(),
        data.contains(x),
    ensures
        ({
            let h = sealed_graph(g, params, data);
            &&& h.contains(x)
            &&& h.vectors[h.slot(x)] == prepared(g, data.metric, data.vectors[data.slot(x)])
        }),
{
    let es = data.entries();
    let s = data.slot(x);
    let w = choose|w: int| 0 <= w < data.ids.len() && data.ids[w] == x;
    assert(data.ids[w] == x);
    assert(data.ids[s] == x);
    assert(es[s] == (x, data.vectors[s]));
    let p = HnswParams { seed: params.seed.wrapping_add(data.ids.len() as u64), ..params };
    lemma_grown_vector(Hnsw::empty(data.dim, data.metric, p), g, es, x, data.vectors[s]);
}

/// The live entries of a graph are its live slots, each id once.
pub proof fn lemma_live(h: Hnsw, n: int)
    requires
        h.valid(),
        0 <= n <= h.ids.len(),
    ensures
        apart(h.live(n)),
        forall|i: int|
            0 <= i < h.live(n).len() ==> exists|s: int|
                0 <= s < n && !h.deleted[s] && #[trigger] h.live(n)[i] == (
                    #[trigger] h.ids[s],
                    h.vectors[s],
                ),
        forall|s: int|
            0 <= s < n && !h.deleted[s] ==> listed(h.live(n), #[trigger] h.ids[s], h.vectors[s]),
    decreases n,
{
    if n > 0 {
        lemma_live(h, n - 1);
        let t = h.live(n - 1);
        let l = h.live(n);
        if !h.deleted[n - 1] {
            assert(l[t.len() as int] == (h.ids[n - 1], h.vectors[n - 1]));
            assert forall|i: int, j: int| 0 <= i < j < l.len() implies (#[trigger] l[i]).0 != (
            #[trigger] l[j]).0 by {
                assert(l[i] == t[i]);
                let s = choose|s: int|
                    0 <= s < n - 1 && !h.deleted[s] && t[i] == (#[trigger] h.ids[s], h.vectors[s]);
                if j < t.len() {
                    assert(l[j] == t[j]);
                } else {
                    assert(h.ids[s] != h.ids[n - 1]);
                }
            }
            assert forall|i: int| 0 <= i < l.len() implies exists|s: int|
                0 <= s < n && !h.deleted[s] && #[trigger] l[i] == (
                    #[trigger] h.ids[s],
                    h.vectors[s],
                ) by {
                if i < t.len() {
                    assert(l[i] == t[i]);
                    let s = choose|s: int|
                        0 <= s < n - 1 && !h.deleted[s] && t[i] == (
                            #[trigger] h.ids[s],
                            h.vectors[s],
                        );
                    assert(l[i] == (h.ids[s], h.vectors[s]));
                } else {
                    assert(l[i] == (h.ids[n - 1], h.vectors[n - 1]));
                }
            }
        }
        assert forall|s: int| 0 <= s < n && !h.deleted[s] implies listed(
            l,
            #[trigger] h.ids[s],
            h.vectors[s],
        ) by {
            if s < n - 1 {
                let i = choose|i: int|
                    0 <= i < t.len() && #[trigger] t[i] == (h.ids[s], h.vectors[s]);
                assert(l[i] == t[i]);
            } else {
                assert(l[t.len() as int] == (h.ids[s], h.vectors[s]));
            }
        }
    }
}

proof fn lemma_survivors(es: Entries, dead: Seq<VectorId>)
    requires
        apart(es),
    ensures
        apart(surviving(es, dead)),
        forall|i: int|
            0 <= i < surviving(es, dead).len() ==> !dead.contains(
                (#[trigger] surviving(es, dead)[i]).0,
            ) && listed(es, surviving(es, dead)[i].0, surviving(es, dead)[i].1),
        forall|x: VectorId, v: Seq<u32>| #[trigger]
            listed(es, x, v) && !dead.contains(x) ==> listed(surviving(es, dead), x, v),
    decreases es.len(),
{
    if es.len() > 0 {
        let t = es.drop_last();
        let last = es.last();
        assert forall|i: int, j: int| 0 <= i < j < t.len() implies (#[trigger] t[i]).0 != (
        #[trigger] t[j]).0 by {
            assert(t[i] == es[i] && t[j] == es[j]);
        }
        lemma_survivors(t, dead);
        let u = surviving(t, dead);
        let s = surviving(es, dead);
        assert forall|i: int| 0 <= i < s.len() implies !dead.contains((#[trigger] s[i]).0)
            && listed(es, s[i].0, s[i].1) by {
            if i < u.len() {
                assert(s[i] == u[i]);
                let k = choose|k: int| 0 <= k < t.len() && #[trigger] t[k] == (u[i].0, u[i].1);
                assert(es[k] == (s[i].0, s[i].1));
            } else {
                assert(es[es.len() - 1] == (s[i].0, s[i].1));
            }
        }
        assert forall|i: int, j: int| 0 <= i < j < s.len() implies (#[trigger] s[i]).0 != (
        #[trigger] s[j]).0 by {
            assert(s[i] == u[i]);
            if j < u.len() {
                assert(s[j] == u[j]);
            } else {
                let k = choose|k: int| 0 <= k < t.len() && #[trigger] t[k] == (u[i].0, u[i].1);
                assert(es[k] == t[k]);
                assert(es[k].0 != es[es.len() - 1].0);
            }
        }
        assert forall|x: VectorId, v: Seq<u32>| #[trigger]
            listed(es, x, v) && !dead.contains(x) implies listed(s, x, v) by {
            let k = choose|k: int| 0 <= k < es.len() && #[trigger] es[k] == (x, v);
            if k < t.len() {
                assert(t[k] == (x, v));
                assert(listed(t, x, v));
                let i = choose|i: int| 0 <= i < u.len() && #[trigger] u[i] == (x, v);
                assert(s[i] == (x, v));
            } else {
                assert(s[u.len() as int] == (x, v));
            }
        }
    }
}

/// What a graph holds live, and not dead, is listed for a merge.
pub proof fn lemma_offered(h: Hnsw, dead: Seq<VectorId>)
    requires
        h.valid(),
    ensures
        ({
            let es = surviving(h.live(h.ids.len() as int), dead);
            &&& apart(es)
            &&& forall|i: int|
                0 <= i < es.len() ==> h.contains((#[trigger] es[i]).0) && !dead.contains(es[i].0)
            &&& forall|x: VectorId|
                #[trigger] h.contains(x) && !dead.contains(x) ==> listed(es, x, h.vectors[h.slot(x)])
        }),
{
    let n = h.ids.len() as int;
    let all = h.live(n);
    let es = surviving(all, dead);
    lemma_live(h, n);
    lemma_survivors(all, dead);
    assert forall|i: int| 0 <= i < es.len() implies h.contains((#[trigger] es[i]).0)
        && !dead.contains(es[i].0) by {
        assert(listed(all, es[i].0, es[i].1));
        let k = choose|k: int| 0 <= k < all.len() && #[trigger] all[k] == (es[i].0, es[i].1);
        let s = choose|s: int|
            0 <= s < n && !h.deleted[s] && all[k] == (#[trigger] h.ids[s], h.vectors[s]);
        assert(h.ids[s] == es[i].0 && !h.deleted[s]);
    }
    assert forall|x: VectorId| #[trigger] h.contains(x) && !dead.contains(x) implies listed(
        es,
        x,
        h.vectors[h.slot(x)],
    ) by {
        let w = choose|w: int|
            0 <= w < h.ids.len() && (#[trigger] h.ids[w]) == x && !h.deleted[w];
        let s = h.slot(x);
        assert(h.ids[s] == x && !h.deleted[s]);
        assert(listed(all, h.ids[s], h.vectors[s]));
    }
}

/// A merged segment holds the vectors of what lived in its sources.
pub proof fn merged_segment_keeps_every_vector(
    g: Model,
    params: HnswParams,
    pair: Pair,
    x: VectorId,
)
    requires
        pair.fits(),
        pair.apart(),
    ensures
        ({
            let h = merged_graph(g, params, pair);
            &&& pair.a.contains(x) && !pair.a_dead.contains(x) ==> h.contains(x)
                && h.vectors[h.slot(x)] == prepared(
                g,
                pair.metric,
                pair.a.vectors[pair.a.slot(x)],
            )
            &&& pair.b.contains(x) && !pair.b_dead.contains(x) ==> h.contains(x)
                && h.vectors[h.slot(x)] == prepared(
                g,
                pair.metric,
                pair.b.vectors[pair.b.slot(x)],
            )
        }),
{
    let p = surviving(pair.a.live(pair.a.ids.len() as int), pair.a_dead);
    let q = surviving(pair.b.live(pair.b.ids.len() as int), pair.b_dead);
    let es = pair.entries();
    lemma_offered(pair.a, pair.a_dead);
    lemma_offered(pair.b, pair.b_dead);
    assert(es == p + q);
    assert forall|i: int, j: int| 0 <= i < j < es.len() implies (#[trigger] es[i]).0 != (
    #[trigger] es[j]).0 by {
        if j < p.len() {
            assert(es[i] == p[i] && es[j] == p[j]);
        } else if i < p.len() {
            assert(es[i] == p[i] && es[j] == q[j - p.len()]);
            assert(pair.a.contains(p[i].0) && pair.b.contains(q[j - p.len()].0));
        } else {
            assert(es[i] == q[i - p.len()] && es[j] == q[j - p.len()]);
        }
    }
    let total = (live_nodes(pair.a) + live_nodes(pair.b)) as u64;
    let ps = HnswParams { seed: params.seed.wrapping_add(total).wrapping_add(1), ..params };
    let start = Hnsw::empty(pair.dim, pair.metric, ps);
    if pair.a.contains(x) && !pair.a_dead.contains(x) {
        let v = pair.a.vectors[pair.a.slot(x)];
        let i = choose|i: int| 0 <= i < p.len() && #[trigger] p[i] == (x, v);
        assert(es[i] == (x, v));
        lemma_grown_vector(start, g, es, x, v);
    }
    if pair.b.contains(x) && !pair.b_dead.contains(x) {
        let v = pair.b.vectors[pair.b.slot(x)];
        let i = choose|i: int| 0 <= i < q.len() && #[trigger] q[i] == (x, v);
        assert(es[p.len() + i] == (x, v));
        lemma_grown_vector(start, g, es, x, v);
    }
}

/// A vector after a graph has been built anew: the same, or normalized once more.
pub open spec fn kept(
    g: Model,
    metric: Metric,
    before: Option<Seq<u32>>,
    after: Option<Seq<u32>>,
) -> bool {
    match (before, after) {
        (None, None) => true,
        (Some(v), Some(w)) => w == v || w == prepared(g, metric, v),
        _ => false,
    }
}

proof fn lemma_in_queue(s: Store, i: int, x: VectorId)
    requires
        s.coherent(),
        0 <= i < s.sealing.len(),
        s.sealing[i].live(x),
    ensures
        s.vector(x) == Some(s.sealing[i].data.vectors[s.sealing[i].data.slot(x)]),
{
    lemma_newest_queued(s.sealing, x);
    assert(queue_live(s.sealing, x));
}

proof fn lemma_in_part(s: Store, i: int, x: VectorId)
    requires
        s.coherent(),
        0 <= i < s.segments.len(),
        s.segments[i].live(x),
    ensures
        s.vector(x) == Some(s.segments[i].index.vectors[s.segments[i].index.slot(x)]),
{
    lemma_newest_queued(s.sealing, x);
    lemma_newest_part(s.segments, x);
    assert(parts_live(s.segments, x));
}

proof fn lemma_nowhere(s: Store, x: VectorId)
    ensures
        s.live(x) <==> s.vector(x) is Some,
{
    lemma_newest_queued(s.sealing, x);
    lemma_newest_part(s.segments, x);
}

/// Putting a built segment in place of its buffer keeps every vector. Under
/// cosine those of the buffer are normalized once more.
pub proof fn finished_seal_keeps_every_vector(s: Store, g: Model, i: int, x: VectorId)
    requires
        s.valid(),
        s.coherent(),
        0 <= i < s.sealing.len(),
        stands_for(sealed_graph(g, s.params, s.sealing[i].data), s.sealing[i].data),
    ensures
        ({
            let built = sealed_graph(g, s.params, s.sealing[i].data);
            let t = s.seal_finished(s.sealing[i].tag, built);
            &&& kept(g, s.metric, s.vector(x), t.vector(x))
            &&& s.metric != Metric::Cosine ==> t.vector(x) == s.vector(x)
        }),
{
    let q = s.sealing[i];
    let built = sealed_graph(g, s.params, q.data);
    let t = s.seal_finished(q.tag, built);
    lemma_queued_at(s, i);
    assert forall|j: int|
        0 <= j < s.sealing.len() && (#[trigger] s.sealing[j]).tag == q.tag implies stands_for(
        built,
        s.sealing[j].data,
    ) by {
        lemma_queued_at(s, j);
    }
    finished_seal_keeps_every_record(s, q.tag, built, x);
    lemma_nowhere(s, x);
    lemma_nowhere(t, x);
    assert(s.queued_fits(q));
    let last = s.segments.len() as int;
    if s.buffer.contains(x) {
    } else if q.live(x) {
        lemma_in_queue(s, i, x);
        built_segment_keeps_every_vector(g, s.params, q.data, x);
        assert(t.segments[last].live(x));
        lemma_in_part(t, last, x);
    } else if queue_live(s.sealing, x) {
        let j = choose|j: int| 0 <= j < s.sealing.len() && (#[trigger] s.sealing[j]).live(x);
        lemma_in_queue(s, j, x);
        let k = if j < i {
            j
        } else {
            j - 1
        };
        assert(t.sealing[k] == s.sealing[j]);
        lemma_in_queue(t, k, x);
    } else if parts_live(s.segments, x) {
        let j = choose|j: int| 0 <= j < s.segments.len() && (#[trigger] s.segments[j]).live(x);
        lemma_in_part(s, j, x);
        assert(t.segments[j] == s.segments[j]);
        lemma_in_part(t, j, x);
    }
}

/// Putting a merged segment in place of its sources keeps every vector. Under
/// cosine those of the sources are normalized once more.
pub proof fn finished_merge_keeps_every_vector(s: Store, g: Model, pair: Pair, x: VectorId)
    requires
        s.valid(),
        s.coherent(),
        pair.fits(),
        pair.apart(),
        s.awaits(pair),
        replaces(merged_graph(g, s.params, pair), pair),
    ensures
        ({
            let t = s.merge_finished(pair, merged_graph(g, s.params, pair));
            &&& kept(g, s.metric, s.vector(x), t.vector(x))
            &&& s.metric != Metric::Cosine ==> t.vector(x) == s.vector(x)
        }),
{
    let merged = merged_graph(g, s.params, pair);
    let t = s.merge_finished(pair, merged);
    finished_merge_keeps_every_record(s, pair, merged, x);
    lemma_nowhere(s, x);
    lemma_nowhere(t, x);
    match (part_at(s.segments, pair.a_tag), part_at(s.segments, pair.b_tag)) {
        (Some(a), Some(b)) => {
            lemma_newest_queued(s.sealing, x);
            if !s.buffer.contains(x) && !queue_live(s.sealing, x) && parts_live(s.segments, x) {
                let j = choose|j: int|
                    0 <= j < s.segments.len() && (#[trigger] s.segments[j]).live(x);
                lemma_merged_part(s, g, pair, merged, a, b, j, x);
            }
        },
        _ => {},
    }
}

/// The segments other than two.
spec fn without(s: Seq<Part>, a: int, b: int) -> Seq<Part> {
    if a < b {
        s.remove(b).remove(a)
    } else {
        s.remove(a).remove(b)
    }
}

proof fn lemma_without(s: Seq<Part>, a: int, b: int, j: int) -> (k: int)
    requires
        0 <= a < s.len(),
        0 <= b < s.len(),
        a != b,
        0 <= j < s.len(),
        j != a,
        j != b,
    ensures
        0 <= k < without(s, a, b).len(),
        without(s, a, b)[k] == s[j],
{
    let lo = if a < b {
        a
    } else {
        b
    };
    let hi = if a < b {
        b
    } else {
        a
    };
    if j < lo {
        j
    } else if j < hi {
        j - 1
    } else {
        j - 2
    }
}

proof fn lemma_from(s: Seq<Part>, a: int, b: int, k: int) -> (j: int)
    requires
        0 <= a < s.len(),
        0 <= b < s.len(),
        a != b,
        0 <= k < without(s, a, b).len(),
    ensures
        0 <= j < s.len(),
        j != a,
        j != b,
        without(s, a, b)[k] == s[j],
{
    let lo = if a < b {
        a
    } else {
        b
    };
    let hi = if a < b {
        b
    } else {
        a
    };
    if k < lo {
        k
    } else if k + 1 < hi {
        k + 1
    } else {
        k + 2
    }
}

/// Where a record of a segment is after a merge, and with which vector.
proof fn lemma_merged_part(
    s: Store,
    g: Model,
    pair: Pair,
    merged: Hnsw,
    a: int,
    b: int,
    j: int,
    x: VectorId,
)
    requires
        s.valid(),
        s.coherent(),
        pair.fits(),
        pair.apart(),
        s.awaits(pair),
        merged == merged_graph(g, s.params, pair),
        part_at(s.segments, pair.a_tag) == Some(a),
        part_at(s.segments, pair.b_tag) == Some(b),
        s.merge_finished(pair, merged).coherent(),
        s.merge_finished(pair, merged).live(x),
        !s.buffer.contains(x),
        !queue_live(s.sealing, x),
        0 <= j < s.segments.len(),
        s.segments[j].live(x),
    ensures
        kept(g, s.metric, s.vector(x), s.merge_finished(pair, merged).vector(x)),
        s.metric != Metric::Cosine ==> s.merge_finished(pair, merged).vector(x) == s.vector(x),
{
    let t = s.merge_finished(pair, merged);
    let rest = without(s.segments, a, b);
    let last = rest.len() as int;
    assert(s.segments[a].tag == pair.a_tag && s.segments[b].tag == pair.b_tag);
    assert(s.part_fits(s.segments[a]) && s.part_fits(s.segments[b]));
    assert(s.segments[a].index == pair.a && s.segments[b].index == pair.b);
    assert(t.segments.drop_last() =~= rest);
    lemma_in_part(s, j, x);
    if j != a && j != b {
        let k = lemma_without(s.segments, a, b, j);
        assert(t.segments[k] == rest[k]);
        lemma_in_part(t, k, x);
    } else {
        if pair.a_dead.contains(x) && j == a {
            assert(s.segments[a].dead.contains(x));
        }
        if pair.b_dead.contains(x) && j == b {
            assert(s.segments[b].dead.contains(x));
        }
        merged_segment_keeps_every_vector(g, s.params, pair, x);
        assert(parts_live(t.segments, x));
        let i = choose|i: int| 0 <= i < t.segments.len() && (#[trigger] t.segments[i]).live(x);
        if i < last {
            let k = lemma_from(s.segments, a, b, i);
            assert(t.segments[i] == rest[i]);
            assert(s.segments[k].live(x) && s.segments[j].live(x));
        }
        lemma_in_part(t, last, x);
    }
}

proof fn lemma_grown_prefix(start: Hnsw, g: Model, a: Entries, b: Entries, n: int)
    requires
        n <= a.len(),
        n <= b.len(),
        forall|i: int| 0 <= i < n ==> (#[trigger] a[i]) == b[i],
    ensures
        grown(start, g, a, n) == grown(start, g, b, n),
    decreases n,
{
    if n > 0 {
        lemma_grown_prefix(start, g, a, b, n - 1);
        assert(a[n - 1] == b[n - 1]);
    }
}

/// Compaction grows a graph from the live entries.
pub proof fn lemma_rebuilt_grows(h: Hnsw, g: Model, n: int)
    requires
        h.valid(),
        0 <= n <= h.ids.len(),
    ensures
        h.rebuilt(g, n) == grown(
            Hnsw::empty(h.dim, h.metric, h.params),
            g,
            h.live(n),
            h.live(n).len() as int,
        ),
    decreases n,
{
    let start = Hnsw::empty(h.dim, h.metric, h.params);
    if n > 0 {
        lemma_rebuilt_grows(h, g, n - 1);
        lemma_live(h, n);
        lemma_live(h, n - 1);
        let t = h.live(n - 1);
        let l = h.live(n);
        let k = t.len() as int;
        if !h.deleted[n - 1] {
            assert(l == t.push((h.ids[n - 1], h.vectors[n - 1])));
            lemma_grown_prefix(start, g, t, l, k);
            lemma_grown_slots(start, g, l, k);
            let before = grown(start, g, l, k);
            if before.contains(l[k].0) {
                let s = choose|s: int|
                    0 <= s < before.ids.len() && (#[trigger] before.ids[s]) == l[k].0
                        && !before.deleted[s];
                assert(l[s].0 == l[k].0);
            }
        }
    }
}

/// Compaction keeps the vectors of the live ids. Under cosine they are
/// normalized once more.
pub proof fn compaction_keeps_every_vector(h: Hnsw, g: Model, x: VectorId)
    requires
        h.valid(),
        h.contains(x),
    ensures
        ({
            let c = h.compacted(g);
            &&& c.contains(x)
            &&& c.vectors[c.slot(x)] == prepared(g, h.metric, h.vectors[h.slot(x)])
        }),
{
    let n = h.ids.len() as int;
    lemma_live(h, n);
    lemma_rebuilt_grows(h, g, n);
    let s = h.slot(x);
    assert(h.ids[s] == x && !h.deleted[s]);
    assert(listed(h.live(n), h.ids[s], h.vectors[s]));
    lemma_grown_vector(Hnsw::empty(h.dim, h.metric, h.params), g, h.live(n), x, h.vectors[s]);
}

/// Neither an insertion nor a deletion touches the vectors of the other ids;
/// only where a deletion compacts the index are they normalized once more under
/// cosine.
pub proof fn other_vectors_stay(h: Hnsw, g: Model, id: VectorId, v: Seq<u32>, x: VectorId)
    requires
        h.valid(),
        h.contains(x),
        x != id,
        h.ids.len() <= usize::MAX,
    ensures
        !h.contains(id) ==> h.inserted(g, id, v).vectors[h.inserted(g, id, v).slot(x)]
            == h.vectors[h.slot(x)],
        h.contains(id) ==> {
            let w = h.deleted(g, id).vectors[h.deleted(g, id).slot(x)];
            &&& w == h.vectors[h.slot(x)] || w == prepared(g, h.metric, h.vectors[h.slot(x)])
            &&& h.metric != Metric::Cosine ==> w == h.vectors[h.slot(x)]
        },
{
    let s = h.slot(x);
    assert(h.ids[s] == x && !h.deleted[s]);
    if !h.contains(id) {
        let t = h.inserted(g, id, v);
        lemma_inserted_ids(h, g, id, v);
        assert(t.ids[s] == x && !t.deleted[s]);
        let u = t.slot(x);
        assert(t.ids[u] == x && !t.deleted[u]);
        if u < h.ids.len() {
            assert(h.ids[u] == x && !h.deleted[u]);
        }
    } else {
        let m = h.marked(id);
        lemma_marked(h, id);
        let d = h.slot(id);
        assert(h.ids[d] == id && !h.deleted[d]);
        assert(m.ids[s] == x && !m.deleted[s]);
        let u = m.slot(x);
        assert(m.ids[u] == x && !m.deleted[u]);
        assert(h.ids[u] == x && !h.deleted[u]);
        assert(u == s);
        compaction_keeps_every_vector(m, g, x);
    }
}

/// A vector is kept and compared as it was given, under every metric but cosine,
/// where it is normalized. Under cosine two queries that normalize alike are
/// answered alike.
pub proof fn vectors_are_taken_as_given(
    s: Store,
    g: Model,
    id: VectorId,
    v: Seq<u32>,
    a: Seq<u32>,
    b: Seq<u32>,
)
    requires
        s.buffer.valid(),
        s.buffer.metric == s.metric,
        s.coherent(),
        !s.live(id),
        if s.metric == Metric::Cosine {
            (g.normalized)(a) == (g.normalized)(b)
        } else {
            a == b
        },
    ensures
        s.inserted(g, id, v).vector(id) == Some(
            if s.metric == Metric::Cosine {
                (g.normalized)(v)
            } else {
                v
            },
        ),
        forall|k: nat| s.buffer.found(g, a, k) == #[trigger] s.buffer.found(g, b, k),
{
    crate::segmented_laws::insertion_adds_one_record(s, g, id, v, id);
}

} // verus!
