//! What the HNSW index guarantees across its operations.

use vstd::prelude::*;
use crate::graph::{
    count_set, explored, grounded, lemma_count_set, linked, on_level, woven, Cand, Links, Quest,
};
use crate::graph_laws::{
    fresh_below, layer_search_is_sound, lemma_descended, lemma_woven, lemma_woven_limits,
    list_limit, unmentioned, within_limits,
};
use crate::hnsw::{
    lemma_highest, lemma_inserted_ids, lemma_marked, lemma_rebuilt, lives_below, Hnsw, HnswParams,
};
use crate::numerics::{prepared, Model};
use crate::rank::{lemma_ranked, ranked, smallest};
use crate::types::{SearchResult, VectorId};

verus! {

/// Greedy descent ends at a node of the index.
pub proof fn lemma_base_entry(h: Hnsw, g: Model, query: Seq<u32>)
    requires
        h.valid(),
        h.entry is Some,
    ensures
        on_level(h.links, h.base_entry(g, query), 0),
{
    let e = h.entry->0;
    assert(h.links[e as int].len() > 0);
    lemma_descended(h.links, h.from_query(g, query), e, h.links[e as int].len() - 1, 1);
}

/// Results come in ascending order of distance, each id once, all of them live
/// and with the distance of their own vector from the query.
pub open spec fn truthful(h: Hnsw, g: Model, query: Seq<u32>, out: Seq<SearchResult>) -> bool {
    &&& forall|i: int, j: int|
        0 <= i <= j < out.len() ==> (#[trigger] out[i]).distance <= (#[trigger] out[j]).distance
    &&& forall|i: int, j: int|
        0 <= i < j < out.len() ==> (#[trigger] out[i]).id != (#[trigger] out[j]).id
    &&& forall|i: int|
        0 <= i < out.len() ==> h.contains((#[trigger] out[i]).id) && out[i].distance == (
        g.distance)(h.metric, query, h.vectors[h.slot(out[i].id)])
}

/// The live slot of the id in a live slot is that slot.
pub proof fn lemma_slot(h: Hnsw, s: int)
    requires
        h.valid(),
        0 <= s < h.ids.len(),
        !h.deleted[s],
    ensures
        h.contains(h.ids[s]),
        h.slot(h.ids[s]) == s,
{
    let t = h.slot(h.ids[s]);
    assert(h.ids[t] == h.ids[s] && !h.deleted[t]);
}

proof fn lemma_reported(h: Hnsw, g: Model, query: Seq<u32>, q: Quest, entries: Seq<usize>, k: nat)
    requires
        h.valid(),
        q.links == h.links,
        q.level == 0,
        q.dist == h.from_query(g, query),
        q.ef > 0,
        forall|i: int| 0 <= i < entries.len() ==> on_level(q.links, #[trigger] entries[i], q.level),
        forall|s: usize| s < h.ids.len() && #[trigger] (q.eligible)(s) ==> !h.deleted[s as int],
    ensures
        truthful(h, g, query, h.reported(explored(q, entries).results, k)),
        forall|i: int|
            0 <= i < h.reported(explored(q, entries).results, k).len() ==> (q.eligible)(
                h.slot((#[trigger] h.reported(explored(q, entries).results, k)[i]).id) as usize,
            ),
{
    layer_search_is_sound(q, entries);
    let found = explored(q, entries).results;
    let out = h.reported(found, k);
    assert forall|i: int| 0 <= i < out.len() implies h.contains((#[trigger] out[i]).id)
        && out[i].distance == (g.distance)(h.metric, query, h.vectors[h.slot(out[i].id)]) && (
    q.eligible)(h.slot(out[i].id) as usize) by {
        let c = found[i];
        assert((q.eligible)(c.slot));
        lemma_slot(h, c.slot as int);
    }
    assert forall|i: int, j: int| 0 <= i < j < out.len() implies (#[trigger] out[i]).id != (
    #[trigger] out[j]).id by {
        let c = found[i];
        let d = found[j];
        assert((q.eligible)(c.slot) && (q.eligible)(d.slot));
        lemma_slot(h, c.slot as int);
        lemma_slot(h, d.slot as int);
    }
    assert forall|i: int, j: int| 0 <= i <= j < out.len() implies (#[trigger] out[i]).distance <= (
    #[trigger] out[j]).distance by {
        use_key_order(found[i], found[j]);
    }
}

proof fn use_key_order(a: Cand, b: Cand)
    ensures
        crate::rank::Ranked::key(a) <= crate::rank::Ranked::key(b) ==> a.dist <= b.dist,
{
}

/// A search returns at most `k` results; they are live, distinct, ascending,
/// and their distances are those of the stored vectors.
pub proof fn search_is_truthful(h: Hnsw, g: Model, query: Seq<u32>, k: nat, ef: nat)
    requires
        h.valid(),
    ensures
        h.found(g, query, k, ef).len() <= k,
        truthful(h, g, prepared(g, h.metric, query), h.found(g, query, k, ef)),
{
    if h.entry is Some && k > 0 {
        let v = prepared(g, h.metric, query);
        let width = if ef >= k {
            ef
        } else {
            k
        };
        let q = h.base_quest(g, v, |s: usize| !h.deleted[s as int], width, None);
        let entries = seq![h.base_entry(g, v)];
        lemma_base_entry(h, g, v);
        assert(on_level(q.links, entries[0], q.level));
        lemma_reported(h, g, v, q, entries, k);
    }
}

/// One flag per slot: live and allowed.
pub open spec fn passing_flags(h: Hnsw, allow: spec_fn(VectorId) -> bool, n: int) -> Seq<bool> {
    Seq::new(n as nat, |s: int| !h.deleted[s] && allow(h.ids[s]))
}

pub proof fn lemma_passing(
    h: Hnsw,
    g: Model,
    query: Seq<u32>,
    allow: spec_fn(VectorId) -> bool,
    n: int,
)
    requires
        h.valid(),
        0 <= n <= h.ids.len(),
    ensures
        h.passing(g, query, allow, n).len() == count_set(passing_flags(h, allow, n)),
        forall|r: SearchResult| #[trigger]
            h.passing(g, query, allow, n).contains(r) <==> (h.contains(r.id) && h.slot(r.id) < n
                && allow(r.id) && r.distance == (g.distance)(
                h.metric,
                query,
                h.vectors[h.slot(r.id)],
            )),
    decreases n,
{
    let all = h.passing(g, query, allow, n);
    if n > 0 {
        lemma_passing(h, g, query, allow, n - 1);
        let rest = h.passing(g, query, allow, n - 1);
        assert(passing_flags(h, allow, n).drop_last() =~= passing_flags(h, allow, n - 1));
        let s = n - 1;
        let mine = SearchResult {
            id: h.ids[s],
            distance: (g.distance)(h.metric, query, h.vectors[s]),
        };
        assert forall|r: SearchResult| #[trigger] all.contains(r) <==> (h.contains(r.id) && h.slot(
            r.id,
        ) < n && allow(r.id) && r.distance == (g.distance)(
            h.metric,
            query,
            h.vectors[h.slot(r.id)],
        )) by {
            if rest.contains(r) {
                let i = choose|i: int| 0 <= i < rest.len() && rest[i] == r;
                assert(all[i] == r);
            }
            if all.contains(r) {
                let i = choose|i: int| 0 <= i < all.len() && all[i] == r;
                if i < rest.len() {
                    assert(rest.contains(r));
                } else {
                    lemma_slot(h, s);
                }
            }
            if h.contains(r.id) && h.slot(r.id) == s {
                assert(h.ids[s] == r.id && !h.deleted[s]);
                if allow(r.id) {
                    assert(all[all.len() - 1] == mine);
                }
            }
        }
    } else {
        assert forall|r: SearchResult| !(#[trigger] all.contains(r)) && !(h.contains(r.id)
            && h.slot(r.id) < 0) by {
            if h.contains(r.id) {
                let s = h.slot(r.id);
                assert(h.ids[s] == r.id);
            }
        }
    }
}

/// Distinct flagged places are no more than the flags.
proof fn lemma_distinct_flagged(flags: Seq<bool>, s: Seq<int>)
    requires
        forall|i: int| 0 <= i < s.len() ==> 0 <= #[trigger] s[i] < flags.len() && flags[s[i]],
        forall|i: int, j: int| 0 <= i < j < s.len() ==> #[trigger] s[i] != #[trigger] s[j],
    ensures
        s.len() <= count_set(flags),
    decreases flags.len(),
{
    if flags.len() == 0 {
        if s.len() > 0 {
            assert(0 <= s[0] < flags.len());
        }
    } else {
        let last = flags.len() - 1;
        let t = flags.drop_last();
        if s.contains(last) {
            let p = choose|p: int| 0 <= p < s.len() && s[p] == last;
            let u = s.remove(p);
            assert forall|i: int| 0 <= i < u.len() implies 0 <= #[trigger] u[i] < t.len()
                && t[u[i]] by {
                let o = if i < p { i } else { i + 1 };
                assert(u[i] == s[o]);
                assert(s[o] != s[p]);
            }
            assert forall|i: int, j: int| 0 <= i < j < u.len() implies #[trigger] u[i]
                != #[trigger] u[j] by {
                let a = if i < p { i } else { i + 1 };
                let b = if j < p { j } else { j + 1 };
                assert(u[i] == s[a] && u[j] == s[b]);
            }
            lemma_distinct_flagged(t, u);
        } else {
            assert forall|i: int| 0 <= i < s.len() implies 0 <= #[trigger] s[i] < t.len()
                && t[s[i]] by {
                assert(s[i] != last);
            }
            lemma_distinct_flagged(t, s);
        }
    }
}

/// A filtered search without a budget returns exactly as many results as it
/// owes: `k`, or every live id that passes where there are fewer. All of them
/// pass the filter, and a search that falls short of `k` leaves none out.
pub proof fn filtered_search_is_complete(
    h: Hnsw,
    g: Model,
    query: Seq<u32>,
    k: nat,
    ef: nat,
    allow: spec_fn(VectorId) -> bool,
)
    requires
        h.valid(),
    ensures
        ({
            let out = h.filtered(g, query, k, ef, allow, None).0;
            let matching = count_set(passing_flags(h, allow, h.ids.len() as int));
            &&& out.len() == (if matching < k {
                matching
            } else {
                k
            })
            &&& truthful(h, g, prepared(g, h.metric, query), out)
            &&& forall|i: int| 0 <= i < out.len() ==> allow((#[trigger] out[i]).id)
            &&& out.len() < k ==> forall|id: VectorId| #[trigger]
                h.contains(id) && allow(id) ==> out.contains(
                    (SearchResult {
                        id,
                        distance: (g.distance)(
                            h.metric,
                            prepared(g, h.metric, query),
                            h.vectors[h.slot(id)],
                        ),
                    }),
                )
        }),
{
    let n = h.ids.len() as int;
    let v = prepared(g, h.metric, query);
    let out = h.filtered(g, query, k, ef, allow, None).0;
    lemma_passing(h, g, v, allow, n);
    let flags = passing_flags(h, allow, n);
    if h.entry is None {
        crate::graph::lemma_count_none(flags);
        assert forall|id: VectorId| #[trigger] h.contains(id) && allow(id) implies false by {
            let s = h.slot(id);
            assert(!flags[s]);
        }
    } else if k > 0 {
        let width = if ef >= k {
            ef
        } else {
            k
        };
        let q = h.base_quest(
            g,
            v,
            |s: usize| !h.deleted[s as int] && allow(h.ids[s as int]),
            width,
            None,
        );
        let entries = seq![h.base_entry(g, v)];
        lemma_base_entry(h, g, v);
        assert(on_level(q.links, entries[0], q.level));
        let st = explored(q, entries);
        if st.results.len() < k {
            let all = h.passing(g, v, allow, n);
            lemma_ranked(all);
            let r = ranked(all);
            assert(out == smallest(all, k));
            assert forall|i: int| 0 <= i < out.len() implies h.contains((#[trigger] out[i]).id)
                && allow(out[i].id) && out[i].distance == (g.distance)(
                h.metric,
                v,
                h.vectors[h.slot(out[i].id)],
            ) by {
                assert(out[i] == r[i]);
                assert(r.contains(r[i]));
                assert(all.contains(r[i]));
            }
            if out.len() < k {
                assert(out =~= r);
                assert forall|id: VectorId| #[trigger] h.contains(id) && allow(
                    id,
                ) implies out.contains(
                    (SearchResult {
                        id,
                        distance: (g.distance)(h.metric, v, h.vectors[h.slot(id)]),
                    }),
                ) by {
                    let mine = SearchResult {
                        id,
                        distance: (g.distance)(h.metric, v, h.vectors[h.slot(id)]),
                    };
                    assert(all.contains(mine));
                    assert(r.contains(mine));
                }
            }
            lemma_passing_distinct(h, g, v, allow, n);
            lemma_ranked_distinct(all);
            assert forall|i: int, j: int| 0 <= i < j < out.len() implies (#[trigger] out[i]).id != (
            #[trigger] out[j]).id by {
                assert(out[i] == r[i] && out[j] == r[j]);
                assert(r[i] != r[j]);
            }
            assert forall|i: int, j: int| 0 <= i <= j < out.len() implies (
            #[trigger] out[i]).distance <= (#[trigger] out[j]).distance by {
                assert(out[i] == r[i] && out[j] == r[j]);
            }
        } else {
            lemma_reported(h, g, v, q, entries, k);
            layer_search_is_sound(q, entries);
            let found = st.results;
            assert forall|i: int| 0 <= i < out.len() implies allow((#[trigger] out[i]).id) by {
                let s = h.slot(out[i].id);
                assert((q.eligible)(s as usize));
                assert(h.ids[s] == out[i].id);
            }
            let slots = Seq::new(k, |i: int| found[i].slot as int);
            assert forall|i: int| 0 <= i < slots.len() implies 0 <= #[trigger] slots[i]
                < flags.len() && flags[slots[i]] by {
                let c = found[i];
                assert((q.eligible)(c.slot));
            }
            assert forall|i: int, j: int| 0 <= i < j < slots.len() implies #[trigger] slots[i]
                != #[trigger] slots[j] by {
                assert(found[i].slot != found[j].slot);
            }
            lemma_distinct_flagged(flags, slots);
        }
    }
}

/// Passing results with the same id are the same result, and appear once.
pub proof fn lemma_passing_distinct(
    h: Hnsw,
    g: Model,
    query: Seq<u32>,
    allow: spec_fn(VectorId) -> bool,
    n: int,
)
    requires
        h.valid(),
        0 <= n <= h.ids.len(),
    ensures
        h.passing(g, query, allow, n).no_duplicates(),
    decreases n,
{
    if n > 0 {
        lemma_passing_distinct(h, g, query, allow, n - 1);
        lemma_passing(h, g, query, allow, n - 1);
        let rest = h.passing(g, query, allow, n - 1);
        let all = h.passing(g, query, allow, n);
        if all.len() > rest.len() {
            lemma_slot(h, n - 1);
            assert(!rest.contains(all.last()));
            assert forall|i: int, j: int|
                0 <= i < all.len() && 0 <= j < all.len() && i != j implies all[i] != all[j] by {
                if i == all.len() - 1 {
                    assert(rest.contains(rest[j]));
                } else if j == all.len() - 1 {
                    assert(rest.contains(rest[i]));
                } else {
                    assert(rest[i] != rest[j]);
                }
            }
        }
    }
}

/// Sorting repeats nothing.
pub proof fn lemma_ranked_distinct(s: Seq<SearchResult>)
    requires
        s.no_duplicates(),
    ensures
        ranked(s).no_duplicates(),
{
    broadcast use vstd::seq_lib::group_to_multiset_ensures;

    lemma_ranked(s);
    s.lemma_multiset_has_no_duplicates();
    ranked(s).lemma_multiset_has_no_duplicates_conv();
}

/// After a deletion the id is gone, and every other id is as live as before,
/// whether or not the deletion compacted the index.
pub proof fn deletion_takes_exactly_one_id(h: Hnsw, g: Model, id: VectorId, x: VectorId)
    requires
        h.valid(),
        h.contains(id),
        h.ids.len() <= usize::MAX,
    ensures
        h.deleted(g, id).contains(x) <==> (h.contains(x) && x != id),
{
    lemma_marked(h, id);
    let after = h.marked(id);
    compaction_keeps_live_ids(after, g, x);
}

/// Compaction keeps the live ids, and nothing is deleted afterwards.
pub proof fn compaction_keeps_live_ids(h: Hnsw, g: Model, x: VectorId)
    requires
        h.valid(),
    ensures
        h.compacted(g).contains(x) <==> h.contains(x),
        count_set(h.compacted(g).deleted) == 0,
        h.compacted(g).ids.len() + count_set(h.deleted) == h.ids.len(),
{
    let n = h.ids.len() as int;
    lemma_rebuilt(h, g, n);
    assert(h.deleted.take(n) =~= h.deleted);
    let c = h.compacted(g);
    crate::graph::lemma_count_none(c.deleted);
    assert(lives_below(h.ids, h.deleted, n, x) <==> h.contains(x)) by {
        if h.contains(x) {
            let s = h.slot(x);
            assert(h.ids[s] == x && !h.deleted[s]);
        }
        if lives_below(h.ids, h.deleted, n, x) {
            let s = choose|s: int| 0 <= s < n && (#[trigger] h.ids[s]) == x && !h.deleted[s];
            assert(h.ids[s] == x && !h.deleted[s]);
        }
    }
}

/// After an insertion the id is live with its own vector (normalized under
/// cosine), and every other id is as live as before.
pub proof fn insertion_adds_exactly_one_id(
    h: Hnsw,
    g: Model,
    id: VectorId,
    v: Seq<u32>,
    x: VectorId,
)
    requires
        h.valid(),
        !h.contains(id),
    ensures
        h.inserted(g, id, v).contains(x) <==> (h.contains(x) || x == id),
        h.inserted(g, id, v).vectors[h.inserted(g, id, v).slot(id)] == prepared(g, h.metric, v),
        h.inserted(g, id, v).ids.len() == h.ids.len() + 1,
        count_set(h.inserted(g, id, v).deleted) == count_set(h.deleted),
{
    lemma_inserted_ids(h, g, id, v);
    let t = h.inserted(g, id, v);
    assert(t.deleted.drop_last() =~= h.deleted);
    let s = t.slot(id);
    assert(t.contains(id));
    assert(t.ids[s] == id && !t.deleted[s]);
    if s < h.ids.len() {
        assert(h.ids[s] == id && !h.deleted[s]);
    }
}

/// The entry point is live, and no live node has more levels.
pub open spec fn entry_is_highest(h: Hnsw) -> bool {
    h.entry matches Some(e) ==> e < h.ids.len() && !h.deleted[e as int] && forall|s: int|
        0 <= s < h.ids.len() && !h.deleted[s] ==> (#[trigger] h.links[s]).len()
            <= h.links[e as int].len()
}

/// What every index built by insertions and deletions satisfies: the entry
/// point is the highest live node, and no neighbour list exceeds its limit.
pub open spec fn well_built(h: Hnsw) -> bool {
    &&& h.valid()
    &&& entry_is_highest(h)
    &&& within_limits(h.links, h.params.m as nat, h.params.m_max0 as nat)
}

pub proof fn empty_index_is_well_built(dim: nat, metric: crate::distance::Metric, params: HnswParams)
    ensures
        well_built(Hnsw::empty(dim, metric, params)),
{
}

/// A graph with one more node that has no links yet.
pub proof fn lemma_placed(h: Hnsw, g: Model, id: VectorId, v: Seq<u32>)
    requires
        well_built(h),
        g.sane(),
        h.ids.len() < usize::MAX,
    ensures
        linked(h.placed(g, id, v).links),
        grounded(h.placed(g, id, v).links),
        within_limits(h.placed(g, id, v).links, h.params.m as nat, h.params.m_max0 as nat),
        fresh_below(
            h.placed(g, id, v).links,
            h.ids.len() as usize,
            h.next_level(g) as int,
        ),
        h.placed(g, id, v).links[h.ids.len() as int].len() == h.next_level(g) + 1,
{
    let t = h.placed(g, id, v).links;
    let slot = h.ids.len() as usize;
    let n = h.ids.len() as int;
    assert forall|s: int, l: int, i: int|
        0 <= s < t.len() && 0 <= l < t[s].len() && 0 <= i < t[s][l].len() implies on_level(
        t,
        #[trigger] t[s][l][i],
        l,
    ) by {
        assert(s < n);
        assert(t[s] == h.links[s]);
        assert(on_level(h.links, h.links[s][l][i], l));
    }
    assert forall|s: int| 0 <= s < t.len() implies (#[trigger] t[s]).len() > 0 by {
        if s < n {
            assert(t[s] == h.links[s]);
        }
    }
    assert forall|s: int, l: int| 0 <= s < t.len() && 0 <= l < t[s].len() implies (
    #[trigger] t[s][l]).len() <= list_limit(l, h.params.m as nat, h.params.m_max0 as nat) by {
        if s < n {
            assert(t[s][l] == h.links[s][l]);
        }
    }
    assert forall|b: int|
        #![trigger t[slot as int][b]]
        0 <= b <= h.next_level(g) implies t[slot as int][b].len() == 0 && unmentioned(
        t,
        b,
        slot,
    ) by {
        assert forall|s: int| 0 <= s < t.len() && b < t[s].len() implies !(
        #[trigger] t[s][b]).contains(slot) by {
            if t[s][b].contains(slot) {
                let i = choose|i: int| 0 <= i < t[s][b].len() && t[s][b][i] == slot;
                assert(t[s] == h.links[s]);
                assert(on_level(h.links, h.links[s][b][i], b));
            }
        }
    }
}

/// Insertion keeps an index well built: in particular every neighbour list
/// stays within its limit.
pub proof fn insertion_keeps_well_built(h: Hnsw, g: Model, id: VectorId, v: Seq<u32>)
    requires
        well_built(h),
        g.sane(),
        !h.contains(id),
        v.len() == h.dim,
        h.ids.len() < usize::MAX,
    ensures
        well_built(h.inserted(g, id, v)),
{
    let t = h.inserted(g, id, v);
    let p = h.placed(g, id, v);
    let slot = h.ids.len() as usize;
    let level = h.next_level(g) as int;
    let n = h.ids.len() as int;
    lemma_placed(h, g, id, v);
    lemma_inserted_ids(h, g, id, v);
    assert forall|s: int| 0 <= s < t.vectors.len() implies (#[trigger] t.vectors[s]).len()
        == t.dim by {
        if s < n {
            assert(t.vectors[s] == h.vectors[s]);
        }
    }
    assert forall|a: int, b: int|
        0 <= a < t.ids.len() && 0 <= b < t.ids.len() && !t.deleted[a] && !t.deleted[b]
            && #[trigger] t.ids[a] == #[trigger] t.ids[b] implies a == b by {
        if a < n && b < n {
            assert(h.ids[a] == h.ids[b]);
        } else if a < n {
            assert(h.ids[a] == id);
        } else if b < n {
            assert(h.ids[b] == id);
        }
    }
    match h.entry {
        None => {
            assert forall|s: int| 0 <= s < t.ids.len() && !t.deleted[s] implies (
            #[trigger] t.links[s]).len() <= t.links[slot as int].len() by {
                if s < n {
                    assert(h.deleted[s]);
                }
            }
        },
        Some(e) => {
            let top = h.links[e as int].len() - 1;
            let pair = p.pair(g);
            let near = crate::graph::descended(
                p.links,
                |s: usize| p.pair(g)(slot, s),
                e,
                top,
                level + 1,
            );
            assert(h.links[e as int].len() > 0);
            assert(p.links[e as int] == h.links[e as int]);
            lemma_descended(p.links, |s: usize| p.pair(g)(slot, s), e, top, level + 1);
            let meet = if level <= top {
                level
            } else {
                top
            };
            lemma_near_is_older(h, g, id, v);
            let entries = seq![near];
            assert(on_level(p.links, entries[0], meet));
            assert(!entries.contains(slot));
            assert(fresh_below(p.links, slot, meet));
            if meet >= 0 {
                assert(p.links[slot as int][meet].len() == 0);
            }
            lemma_woven(
                pair,
                p.links,
                slot,
                entries,
                meet,
                h.params.m as nat,
                h.params.m_max0 as nat,
                h.params.ef_construction as nat,
            );
            lemma_woven_limits(
                pair,
                p.links,
                slot,
                entries,
                meet,
                h.params.m as nat,
                h.params.m_max0 as nat,
                h.params.ef_construction as nat,
            );
            let w = woven(
                pair,
                p.links,
                slot,
                entries,
                meet,
                h.params.m as nat,
                h.params.m_max0 as nat,
                h.params.ef_construction as nat,
            );
            assert(t.links == w);
            assert forall|s: int| 0 <= s < t.ids.len() && !t.deleted[s] implies (
            #[trigger] t.links[s]).len() <= t.links[t.entry->0 as int].len() by {
                assert(p.links[s].len() == w[s].len());
                assert(p.links[e as int].len() == w[e as int].len());
                assert(p.links[slot as int].len() == w[slot as int].len());
                if s < n {
                    assert(!h.deleted[s]);
                    assert(p.links[s] == h.links[s]);
                }
            }
        },
    }
}

/// Greedy descent towards a new node does not reach the node itself.
pub proof fn lemma_near_is_older(h: Hnsw, g: Model, id: VectorId, v: Seq<u32>)
    requires
        well_built(h),
        g.sane(),
        h.entry is Some,
        h.ids.len() < usize::MAX,
    ensures
        ({
            let p = h.placed(g, id, v);
            let slot = h.ids.len() as usize;
            let e = h.entry->0;
            crate::graph::descended(
                p.links,
                |s: usize| p.pair(g)(slot, s),
                e,
                h.links[e as int].len() - 1,
                h.next_level(g) + 1,
            ) != slot
        }),
{
    let p = h.placed(g, id, v);
    let slot = h.ids.len() as usize;
    let e = h.entry->0;
    let dist = |s: usize| p.pair(g)(slot, s);
    lemma_placed(h, g, id, v);
    assert(p.links[e as int] == h.links[e as int]);
    assert(h.links[e as int].len() > 0);
    lemma_descended_avoids(
        p.links,
        dist,
        e,
        h.links[e as int].len() - 1,
        h.next_level(g) + 1,
        slot,
    );
}

proof fn lemma_descended_avoids(
    links: Links,
    dist: spec_fn(usize) -> u32,
    entry: usize,
    hi: int,
    lo: int,
    x: usize,
)
    requires
        linked(links),
        1 <= lo,
        0 <= hi,
        on_level(links, entry, hi),
        x < links.len(),
        links[x as int].len() <= lo,
        entry != x,
    ensures
        crate::graph::descended(links, dist, entry, hi, lo) != x,
    decreases hi - lo + 1,
{
    if hi >= lo {
        let q = crate::graph::open_quest(links, hi, dist, 1);
        let entries = seq![entry];
        assert(on_level(q.links, entries[0], q.level));
        crate::graph_laws::lemma_explored_at_rest(q, entries);
        let st = explored(q, entries);
        assert(st.visited[entries[0] as int]);
        assert(st.results.len() > 0);
        let c = st.results[0];
        assert(on_level(links, c.slot, hi));
        lemma_descended_avoids(links, dist, c.slot, hi - 1, lo, x);
    }
}

/// Marking a node as deleted keeps an index well built: where the entry point
/// goes, the highest live node takes its place.
pub proof fn marking_keeps_well_built(h: Hnsw, id: VectorId)
    requires
        well_built(h),
        h.contains(id),
        h.ids.len() <= usize::MAX,
    ensures
        well_built(h.marked(id)),
{
    lemma_marked(h, id);
    let t = h.marked(id);
    let slot = h.slot(id);
    assert(h.ids[slot] == id && !h.deleted[slot]);
    lemma_highest(h.links, t.deleted, h.ids.len() as int);
    if h.entry != Some(slot as usize) {
        assert forall|s: int| 0 <= s < t.ids.len() && !t.deleted[s] && t.entry is Some implies (
        #[trigger] t.links[s]).len() <= t.links[t.entry->0 as int].len() by {
            assert(!h.deleted[s]);
            assert(h.links[s].len() <= h.links[h.entry->0 as int].len());
        }
    }
}

/// Compaction gives a well-built index.
pub proof fn compaction_gives_well_built(h: Hnsw, g: Model, n: int)
    requires
        h.valid(),
        g.sane(),
        0 <= n <= h.ids.len(),
        h.ids.len() <= usize::MAX,
    ensures
        well_built(h.rebuilt(g, n)),
    decreases n,
{
    if n > 0 {
        compaction_gives_well_built(h, g, n - 1);
        lemma_rebuilt(h, g, n - 1);
        if !h.deleted[n - 1] {
            let prev = h.rebuilt(g, n - 1);
            if prev.contains(h.ids[n - 1]) {
                let s = choose|s: int|
                    0 <= s < n - 1 && (#[trigger] h.ids[s]) == h.ids[n - 1] && !h.deleted[s];
                assert(h.ids[s] == h.ids[n - 1]);
            }
            assert(h.vectors[n - 1].len() == h.dim);
            lemma_count_set(h.deleted.take(n - 1));
            insertion_keeps_well_built(prev, g, h.ids[n - 1], h.vectors[n - 1]);
        }
    }
}

/// A deletion keeps an index well built.
pub proof fn deletion_keeps_well_built(h: Hnsw, g: Model, id: VectorId)
    requires
        well_built(h),
        g.sane(),
        h.contains(id),
        h.ids.len() <= usize::MAX,
    ensures
        well_built(h.deleted(g, id)),
{
    marking_keeps_well_built(h, id);
    compaction_gives_well_built(h.marked(id), g, h.ids.len() as int);
}

} // verus!
