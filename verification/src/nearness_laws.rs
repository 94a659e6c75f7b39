//! How near the answers of the graph indexes are.
//!
//! A graph search is not exact: it answers from what it comes upon. These laws say
//! where it starts, how far it looks, and that of what it sees it returns the
//! nearest.

use vstd::prelude::*;
use crate::bruteforce::Brute;
use crate::graph::{descended, explored, on_level, open_quest, Links};
use crate::graph_laws::unhurried;
use crate::hnsw::{FilterSearchStats, Hnsw};
use crate::hnsw_laws::{lemma_base_entry, lemma_passing, lemma_slot};
use crate::numerics::{prepared, Model};
use crate::quant::{lemma_frozen_descent, Frozen, QuantModel};
use crate::rank::{lemma_smallest, Ranked};
use crate::reach_laws::{
    came_upon, combed, eligible_of, explored_around, leads, lemma_answer, lemma_drawn, lemma_eligible_count,
    lemma_explored_admits, lemma_explored_reach, lemma_visited_count, names, nearest_of, routed, visited_by,
};
use crate::segmented_search_laws::{anything, lemma_brute_filtered, lemma_brute_passing_places};
use crate::types::{SearchResult, VectorId};

verus! {

/// Every node.
pub open spec fn everyone() -> spec_fn(usize) -> bool {
    |s: usize| true
}

/// The nodes that are not deleted.
pub open spec fn undeleted(h: Hnsw) -> spec_fn(usize) -> bool {
    |s: usize| !h.deleted[s as int]
}

/// The nodes that are not deleted and whose id passes.
pub open spec fn undeleted_and(h: Hnsw, allow: spec_fn(VectorId) -> bool) -> spec_fn(usize) -> bool {
    |s: usize| !h.deleted[s as int] && allow(h.ids[s as int])
}

/// The distance of each node's vector from a query.
pub open spec fn gap(h: Hnsw, g: Model, query: Seq<u32>) -> spec_fn(usize) -> u32 {
    |s: usize| (g.distance)(h.metric, query, h.vectors[s as int])
}

pub open spec fn larger(a: nat, b: nat) -> nat {
    if a >= b {
        a
    } else {
        b
    }
}

/// Descent over all nodes is a route.
pub proof fn lemma_routed(
    links: Links,
    dist: spec_fn(usize) -> u32,
    from: usize,
    hi: int,
    lo: int,
)
    requires
        crate::graph::linked(links),
        0 <= hi,
        1 <= lo,
        on_level(links, from, hi),
    ensures
        routed(links, dist, everyone(), from, hi, lo, descended(links, dist, from, hi, lo)),
    decreases hi - lo + 1,
{
    if hi >= lo {
        let q = open_quest(links, hi, dist, 1);
        assert(q.eligible =~= everyone());
        lemma_drawn(q, from);
        crate::graph_laws::lemma_explored_some(q, from);
        let mid = explored(q, seq![from]).results[0].slot;
        lemma_routed(links, dist, mid, hi - 1, lo);
        assert(crate::reach_laws::drawn(links, hi, dist, everyone(), from, mid));
    }
}

/// A search starts at the node that greedy descent leads to, from the entry point
/// down; there it follows the links of the base level, to the given width or for
/// as long as it takes to see `k` live nodes. It returns the `k` nearest live
/// nodes that it saw. Where there are fewer, it has seen every live node that
/// links lead to.
pub open spec fn graph_answer(
    h: Hnsw,
    g: Model,
    query: Seq<u32>,
    k: nat,
    ef: nat,
    out: Seq<SearchResult>,
    entry: usize,
    seen: Set<usize>,
) -> bool {
    let dist = gap(h, g, prepared(g, h.metric, query));
    let e = h.entry->0;
    &&& routed(h.links, dist, everyone(), e, h.links[e as int].len() - 1, 1, entry)
    &&& came_upon(h.links, 0, entry, seen)
    &&& combed(h.links, 0, dist, undeleted(h), larger(ef, k), seen)
    &&& nearest_of(h.links, h.ids, dist, undeleted(h), seen, k, out)
    &&& explored_around(h.links, h.ids, dist, undeleted(h), seen, out)
    &&& out.len() < k ==> forall|s: usize| #[trigger]
        leads(h.links, 0, entry, s) && !h.deleted[s as int] ==> names(h.ids, dist, out, s)
}

/// The answer of a search, where there is anything to search for.
pub open spec fn finds_nearest(
    h: Hnsw,
    g: Model,
    query: Seq<u32>,
    k: nat,
    ef: nat,
    out: Seq<SearchResult>,
) -> bool {
    h.entry is Some && k > 0 ==> exists|entry: usize, seen: Set<usize>| #[trigger]
        graph_answer(h, g, query, k, ef, out, entry, seen)
}

/// A search finds the nearest of what it reaches, whatever its width: `k` live
/// nodes, or every live node that links lead to from where it starts.
pub proof fn search_finds_the_nearest_it_reaches(
    h: Hnsw,
    g: Model,
    query: Seq<u32>,
    k: nat,
    ef: nat,
)
    requires
        h.valid(),
        h.entry is Some,
        k > 0,
    ensures
        exists|entry: usize, seen: Set<usize>| #[trigger]
            graph_answer(h, g, query, k, ef, h.found(g, query, k, ef), entry, seen),
{
    let v = prepared(g, h.metric, query);
    let e = h.entry->0;
    let width = larger(ef, k);
    let q = h.base_quest(g, v, |s: usize| !h.deleted[s as int], width, None);
    let entry = h.base_entry(g, v);
    let dist = gap(h, g, v);
    let out = h.found(g, query, k, ef);
    assert(q.eligible =~= undeleted(h));
    assert(h.from_query(g, v) =~= dist);
    assert(h.links[e as int].len() > 0);
    lemma_base_entry(h, g, v);
    lemma_routed(h.links, dist, e, h.links[e as int].len() - 1, 1);
    lemma_explored_reach(q, entry);
    assert forall|s: usize, t: usize|
        s < q.links.len() && t < q.links.len() && (q.eligible)(s) && (q.eligible)(t)
            && #[trigger] h.ids[s as int] == #[trigger] h.ids[t as int] implies s == t by {}
    lemma_answer(q, h.ids, entry, k, out);
    let seen = visited_by(explored(q, seq![entry]));
    assert(graph_answer(h, g, query, k, ef, out, entry, seen));
}

/// No list of the base level is longer.
pub open spec fn lists_within(links: Links, longest: nat) -> bool {
    forall|s: int|
        0 <= s < links.len() && 0 < links[s].len() ==> (#[trigger] links[s])[0].len() <= longest
}

/// A filtered search starts where an unfiltered one does. It sees as many nodes as
/// it reports, and is cut short exactly where they come up to the budget, which it
/// exceeds by the links of one node at most; it admits none that does not pass.
/// Otherwise it follows the links of the base level to the given width or for as
/// long as it takes to see `k` nodes that pass. Where it was not cut short and saw
/// fewer than `k`, it goes through all nodes: it then returns the `k` nearest of
/// all that live and pass. Otherwise it returns the `k` nearest of those it saw.
pub open spec fn filtered_answer(
    h: Hnsw,
    g: Model,
    query: Seq<u32>,
    k: nat,
    ef: nat,
    allow: spec_fn(VectorId) -> bool,
    budget: Option<nat>,
    out: Seq<SearchResult>,
    stats: FilterSearchStats,
    entry: usize,
    seen: Set<usize>,
) -> bool {
    let dist = gap(h, g, prepared(g, h.metric, query));
    let ok = undeleted_and(h, allow);
    let e = h.entry->0;
    let passed = eligible_of(seen, ok);
    &&& routed(h.links, dist, everyone(), e, h.links[e as int].len() - 1, 1, entry)
    &&& came_upon(h.links, 0, entry, seen)
    &&& seen.finite() && seen.len() == stats.visited
    &&& passed.finite()
    &&& stats.admitted <= passed.len()
    &&& !stats.fallback_used ==> out.len() <= stats.admitted
    &&& budget matches Some(b) ==> forall|longest: nat| #[trigger]
        lists_within(h.links, longest) ==> seen.len() <= 1 || seen.len() <= b + longest
    &&& stats.budget_exhausted <==> (budget matches Some(b) && seen.len() >= b)
    &&& stats.fallback_used <==> !stats.budget_exhausted && passed.len() < k
    &&& !stats.budget_exhausted ==> combed(h.links, 0, dist, ok, larger(ef, k), seen)
    &&& nearest_of(
        h.links,
        h.ids,
        dist,
        ok,
        if stats.fallback_used {
            Set::new(|s: usize| s < h.ids.len())
        } else {
            seen
        },
        k,
        out,
    )
    &&& !stats.budget_exhausted && !stats.fallback_used ==> explored_around(
        h.links,
        h.ids,
        dist,
        ok,
        seen,
        out,
    )
}

/// The answer of a filtered search, where there is anything to search for.
pub open spec fn filters_nearest(
    h: Hnsw,
    g: Model,
    query: Seq<u32>,
    k: nat,
    ef: nat,
    allow: spec_fn(VectorId) -> bool,
    budget: Option<nat>,
    out: Seq<SearchResult>,
    stats: FilterSearchStats,
) -> bool {
    h.entry is Some && k > 0 ==> exists|entry: usize, seen: Set<usize>| #[trigger]
        filtered_answer(h, g, query, k, ef, allow, budget, out, stats, entry, seen)
}

/// A filtered search finds the nearest that pass, of what it sees: of everything,
/// where it sees too little.
pub proof fn filtered_search_finds_the_nearest(
    h: Hnsw,
    g: Model,
    query: Seq<u32>,
    k: nat,
    ef: nat,
    allow: spec_fn(VectorId) -> bool,
    budget: Option<nat>,
)
    requires
        h.valid(),
        h.entry is Some,
        h.ids.len() <= usize::MAX,
        k > 0,
    ensures
        exists|entry: usize, seen: Set<usize>| #[trigger]
            filtered_answer(
                h,
                g,
                query,
                k,
                ef,
                allow,
                budget,
                h.filtered(g, query, k, ef, allow, budget).0,
                h.filtered(g, query, k, ef, allow, budget).1,
                entry,
                seen,
            ),
{
    let v = prepared(g, h.metric, query);
    let e = h.entry->0;
    let width = larger(ef, k);
    let q = h.base_quest(
        g,
        v,
        |s: usize| !h.deleted[s as int] && allow(h.ids[s as int]),
        width,
        budget,
    );
    let entry = h.base_entry(g, v);
    let dist = gap(h, g, v);
    let ok = undeleted_and(h, allow);
    let out = h.filtered(g, query, k, ef, allow, budget).0;
    let stats = h.filtered(g, query, k, ef, allow, budget).1;
    assert(q.eligible =~= ok);
    assert(h.from_query(g, v) =~= dist);
    assert(h.links[e as int].len() > 0);
    lemma_base_entry(h, g, v);
    lemma_routed(h.links, dist, e, h.links[e as int].len() - 1, 1);
    lemma_explored_reach(q, entry);
    let entries = seq![entry];
    assert(on_level(q.links, entries[0], 0));
    crate::graph_laws::lemma_explored_ends(q, entries);
    crate::graph_laws::layer_search_is_sound(q, entries);
    let st = explored(q, seq![entry]);
    let seen = visited_by(st);
    lemma_visited_count(st);
    crate::graph::lemma_count_set(st.visited);
    lemma_eligible_count(q, entry);
    assert forall|s: usize, t: usize|
        s < q.links.len() && t < q.links.len() && (q.eligible)(s) && (q.eligible)(t)
            && #[trigger] h.ids[s as int] == #[trigger] h.ids[t as int] implies s == t by {}
    assert(unhurried(q, st) == !stats.budget_exhausted);
    assert(st.admitted <= eligible_of(seen, ok).len()) by {
        let longest = longest_list(h.links, h.links.len() as int);
        lemma_longest(h.links, h.links.len() as int);
        lemma_explored_admits(q, entry, longest);
    }
    assert forall|longest: nat| budget is Some && #[trigger] lists_within(
        h.links,
        longest,
    ) implies seen.len() <= 1 || seen.len() <= budget->0 + longest by {
        lemma_explored_admits(q, entry, longest);
    }
    if stats.fallback_used {
        lemma_scan_is_nearest(h, g, v, k, allow, out);
    } else {
        lemma_answer(q, h.ids, entry, k, out);
    }
    assert(filtered_answer(h, g, query, k, ef, allow, budget, out, stats, entry, seen));
}

/// The length of the longest base list of the first `n` nodes.
spec fn longest_list(links: Links, n: int) -> nat
    decreases n,
{
    if n <= 0 {
        0
    } else {
        larger(longest_list(links, n - 1), links[n - 1][0].len())
    }
}

proof fn lemma_longest(links: Links, n: int)
    requires
        0 <= n <= links.len(),
    ensures
        forall|s: int| 0 <= s < n ==> (#[trigger] links[s])[0].len() <= longest_list(links, n),
    decreases n,
{
    if n > 0 {
        lemma_longest(links, n - 1);
    }
}

/// Going through all nodes gives the nearest of all.
proof fn lemma_scan_is_nearest(
    h: Hnsw,
    g: Model,
    v: Seq<u32>,
    k: nat,
    allow: spec_fn(VectorId) -> bool,
    out: Seq<SearchResult>,
)
    requires
        h.valid(),
        h.ids.len() <= usize::MAX,
        k > 0,
        out == crate::rank::smallest(h.passing(g, v, allow, h.ids.len() as int), k),
    ensures
        nearest_of(
            h.links,
            h.ids,
            gap(h, g, v),
            undeleted_and(h, allow),
            Set::new(|s: usize| s < h.ids.len()),
            k,
            out,
        ),
{
    let n = h.ids.len() as int;
    let dist = gap(h, g, v);
    let ok = undeleted_and(h, allow);
    let seen = Set::new(|s: usize| s < h.ids.len());
    let all = h.passing(g, v, allow, n);
    lemma_passing(h, g, v, allow, n);
    lemma_smallest(all, k);
    crate::hnsw_laws::lemma_passing_distinct(h, g, v, allow, n);
    crate::hnsw_laws::lemma_ranked_distinct(all);
    let r = crate::rank::ranked(all);
    assert forall|i: int| 0 <= i < out.len() implies crate::reach_laws::stands_for(
        h.ids,
        dist,
        ok,
        seen,
        #[trigger] out[i],
    ) by {
        assert(out.contains(out[i]));
        assert(all.contains(out[i]));
        let s = h.slot(out[i].id) as usize;
        assert(h.ids[s as int] == out[i].id);
        assert(seen.contains(s) && ok(s));
    }
    assert forall|i: int, j: int| 0 <= i <= j < out.len() implies (#[trigger] out[i]).distance <= (
    #[trigger] out[j]).distance by {
        assert(out[i].key() <= out[j].key());
    }
    assert forall|i: int, j: int| 0 <= i < j < out.len() implies (#[trigger] out[i]).id != (
    #[trigger] out[j]).id by {
        assert(out[i] == r[i] && out[j] == r[j]);
        assert(r[i] != r[j]);
        assert(out.contains(out[i]) && out.contains(out[j]));
        assert(all.contains(out[i]) && all.contains(out[j]));
    }
    assert forall|s: usize| #[trigger] seen.contains(s) && ok(s) implies names(
        h.ids,
        dist,
        out,
        s,
    ) || crate::reach_laws::outdone(h.links, dist, k, out, s) by {
        lemma_slot(h, s as int);
        let mine = SearchResult { id: h.ids[s as int], distance: dist(s) };
        assert(all.contains(mine));
        if !out.contains(mine) {
            assert forall|i: int| 0 <= i < out.len() implies !crate::distance::nearer(
                dist(s),
                (#[trigger] out[i]).distance,
            ) by {
                assert(out[i].key() <= out[out.len() - 1].key());
            }
        }
    }
}

/// Gives the distance of each node's code from a query.
pub open spec fn code_gap(
    h: Hnsw,
    g: QuantModel,
    query: Seq<u32>,
    dist: spec_fn(usize) -> u32,
) -> bool {
    forall|s: usize|
        s < h.ids.len() ==> #[trigger] dist(s) == (g.dist)(
            h.metric,
            query,
            (g.encode)(h.vectors[s as int]),
        )
}

/// Descent over the live nodes is a route.
proof fn lemma_frozen_route(f: Frozen, g: QuantModel, query: Seq<u32>, from: usize, level: int)
    requires
        f.valid(),
        0 <= level,
        on_level(f.links, from, level),
    ensures
        routed(
            f.links,
            f.quest(g, query, 0, 1).dist,
            f.quest(g, query, 0, 1).eligible,
            from,
            level,
            1,
            f.descended(g, query, from, level),
        ),
    decreases level,
{
    if level >= 1 {
        let q = f.quest(g, query, level, 1);
        let base = f.quest(g, query, 0, 1);
        assert(q.dist == base.dist && q.eligible == base.eligible);
        lemma_drawn(q, from);
        let step = explored(q, seq![from]).results;
        let mid = if step.len() > 0 {
            step[0].slot
        } else {
            from
        };
        lemma_frozen_route(f, g, query, mid, level - 1);
        assert(crate::reach_laws::drawn(f.links, level, base.dist, base.eligible, from, mid));
    }
}

/// A search of a frozen copy goes through the same graph as a search of the index
/// itself, with the distances of the codes; on its way down it stops at live nodes
/// only.
pub open spec fn frozen_answer(
    h: Hnsw,
    num: Model,
    g: QuantModel,
    query: Seq<u32>,
    k: nat,
    ef: nat,
    out: Seq<SearchResult>,
    dist: spec_fn(usize) -> u32,
    entry: usize,
    seen: Set<usize>,
) -> bool {
    let e = h.entry->0;
    &&& code_gap(h, g, prepared(num, h.metric, query), dist)
    &&& routed(h.links, dist, undeleted(h), e, h.links[e as int].len() - 1, 1, entry)
    &&& came_upon(h.links, 0, entry, seen)
    &&& combed(h.links, 0, dist, undeleted(h), larger(ef, k), seen)
    &&& nearest_of(h.links, h.ids, dist, undeleted(h), seen, k, out)
    &&& explored_around(h.links, h.ids, dist, undeleted(h), seen, out)
    &&& out.len() < k ==> forall|s: usize| #[trigger]
        leads(h.links, 0, entry, s) && !h.deleted[s as int] ==> names(h.ids, dist, out, s)
}

/// A search of a frozen copy finds the nearest of what it reaches, under every
/// metric: `k` live nodes, or every live node that links lead to from where it
/// starts. So it finds something wherever it starts at a live node.
pub proof fn frozen_search_finds_the_nearest_it_reaches(
    h: Hnsw,
    num: Model,
    g: QuantModel,
    query: Seq<u32>,
    k: nat,
    ef: nat,
)
    requires
        h.valid(),
        h.entry is Some,
        k > 0,
    ensures
        exists|dist: spec_fn(usize) -> u32, entry: usize, seen: Set<usize>| #[trigger]
            frozen_answer(
                h,
                num,
                g,
                query,
                k,
                ef,
                Frozen::of(h, g).found(num, g, query, k, ef),
                dist,
                entry,
                seen,
            ),
{
    let f = Frozen::of(h, g);
    let v = prepared(num, h.metric, query);
    let e = h.entry->0;
    let top = h.links[e as int].len() - 1;
    let width = larger(ef, k);
    let q = f.quest(g, v, 0, width);
    let entry = f.descended(g, v, e, top);
    let out = f.found(num, g, query, k, ef);
    assert(f.valid());
    assert(h.links[e as int].len() > 0);
    lemma_frozen_descent(f, g, v, e, top);
    lemma_frozen_route(f, g, v, e, top);
    lemma_explored_reach(q, entry);
    lemma_answer(q, h.ids, entry, k, out);
    let seen = visited_by(explored(q, seq![entry]));
    assert(q.eligible =~= undeleted(h));
    assert(frozen_answer(h, num, g, query, k, ef, out, q.dist, entry, seen));
}

/// The slots of an exact index whose id passes.
pub open spec fn passing_slots(b: Brute, allow: spec_fn(VectorId) -> bool) -> Set<int> {
    Set::new(|s: int| 0 <= s < b.ids.len() && allow(b.ids[s]))
}

/// The result is a record that passes, with its distance.
pub open spec fn is_record(
    b: Brute,
    g: Model,
    v: Seq<u32>,
    allow: spec_fn(VectorId) -> bool,
    r: SearchResult,
) -> bool {
    exists|s: int| #[trigger]
        passing_slots(b, allow).contains(s) && r == (SearchResult {
            id: b.ids[s],
            distance: (g.distance)(b.metric, v, b.vectors[s]),
        })
}

/// The answer is exact: `k` of the records that pass, or all of them where there
/// are fewer, in ascending order of distance and then of id, each with its own
/// distance; and a record that passes and is left out precedes none of them.
pub open spec fn exact_answer(
    b: Brute,
    g: Model,
    query: Seq<u32>,
    k: nat,
    allow: spec_fn(VectorId) -> bool,
    out: Seq<SearchResult>,
) -> bool {
    let v = prepared(g, b.metric, query);
    &&& passing_slots(b, allow).finite()
    &&& out.len() == (if passing_slots(b, allow).len() < k {
        passing_slots(b, allow).len()
    } else {
        k
    })
    &&& forall|i: int, j: int|
        0 <= i < j < out.len() ==> (#[trigger] out[i]).key() < (#[trigger] out[j]).key()
    &&& forall|i: int| 0 <= i < out.len() ==> is_record(b, g, v, allow, #[trigger] out[i])
    &&& forall|s: int, i: int|
        #![trigger b.ids[s], out[i]]
        passing_slots(b, allow).contains(s) && 0 <= i < out.len() ==> {
            let mine = SearchResult {
                id: b.ids[s],
                distance: (g.distance)(b.metric, v, b.vectors[s]),
            };
            out.contains(mine) || out[i].key() <= mine.key()
        }
}

proof fn lemma_passing_slots(
    b: Brute,
    g: Model,
    v: Seq<u32>,
    allow: spec_fn(VectorId) -> bool,
    n: int,
)
    requires
        0 <= n <= b.ids.len(),
    ensures
        ({
            let some = Set::new(|s: int| 0 <= s < n && allow(b.ids[s]));
            &&& some.finite()
            &&& b.passing(g, v, allow, n).len() == some.len()
        }),
    decreases n,
{
    let some = Set::new(|s: int| 0 <= s < n && allow(b.ids[s]));
    if n <= 0 {
        assert(some =~= Set::empty());
    } else {
        lemma_passing_slots(b, g, v, allow, n - 1);
        let rest = Set::new(|s: int| 0 <= s < n - 1 && allow(b.ids[s]));
        if allow(b.ids[n - 1]) {
            assert(some =~= rest.insert(n - 1));
        } else {
            assert(some =~= rest);
        }
    }
}

/// A filtered search of an exact index is exact.
pub proof fn filtered_scan_is_exact(
    b: Brute,
    g: Model,
    query: Seq<u32>,
    k: nat,
    allow: spec_fn(VectorId) -> bool,
)
    requires
        b.valid(),
    ensures
        exact_answer(b, g, query, k, allow, b.filtered(g, query, k, allow)),
{
    let v = prepared(g, b.metric, query);
    let n = b.ids.len() as int;
    let all = b.passing(g, v, allow, n);
    let r = crate::rank::ranked(all);
    let out = b.filtered(g, query, k, allow);
    let slots = passing_slots(b, allow);
    lemma_passing_slots(b, g, v, allow, n);
    assert(slots =~= Set::new(|s: int| 0 <= s < n && allow(b.ids[s])));
    lemma_brute_passing_places(b, g, v, allow, n);
    lemma_smallest(all, k);
    crate::rank::lemma_ranked(all);
    assert(all.no_duplicates()) by {
        assert forall|i: int, j: int|
            0 <= i < all.len() && 0 <= j < all.len() && i != j implies all[i] != all[j] by {
            if i < j {
                assert(all[i].id != all[j].id);
            } else {
                assert(all[j].id != all[i].id);
            }
        }
    }
    crate::hnsw_laws::lemma_ranked_distinct(all);
    assert forall|i: int, j: int| 0 <= i < j < out.len() implies (#[trigger] out[i]).key() < (
    #[trigger] out[j]).key() by {
        assert(out[i] == r[i] && out[j] == r[j]);
        assert(r[i] != r[j]);
        if out[i].key() == out[j].key() {
            out[i].key_injective(out[j]);
        }
    }
    assert forall|i: int| 0 <= i < out.len() implies is_record(
        b,
        g,
        v,
        allow,
        #[trigger] out[i],
    ) by {
        lemma_brute_filtered(b, g, query, k, allow, i);
        let s = b.slot(out[i].id);
        let some = choose|some: int| 0 <= some < b.ids.len() && b.ids[some] == out[i].id;
        assert(b.ids[some] == out[i].id);
        assert(slots.contains(s));
    }
    assert forall|s: int, i: int|
        #![trigger b.ids[s], out[i]]
        slots.contains(s) && 0 <= i < out.len() implies ({
        let mine = SearchResult {
            id: b.ids[s],
            distance: (g.distance)(b.metric, v, b.vectors[s]),
        };
        out.contains(mine) || out[i].key() <= mine.key()
    }) by {
        let mine = b.result(g, v, s);
        assert(all.contains(b.result(g, v, s)));
        if !out.contains(mine) {
            assert(out[i].key() <= out[out.len() - 1].key());
        }
    }
}

proof fn lemma_all_pass(b: Brute, g: Model, v: Seq<u32>, n: int)
    requires
        0 <= n <= b.ids.len(),
    ensures
        b.passing(g, v, anything(), n) == b.results(g, v, 0, n),
    decreases n,
{
    if n > 0 {
        lemma_all_pass(b, g, v, n - 1);
    }
    assert(b.passing(g, v, anything(), n) =~= b.results(g, v, 0, n));
}

/// A search of an exact index is exact; it is the filtered one that every record
/// passes.
pub proof fn scan_finds_the_nearest(b: Brute, g: Model, query: Seq<u32>, k: nat)
    requires
        b.valid(),
    ensures
        exact_answer(b, g, query, k, anything(), b.found(g, query, k)),
        b.found(g, query, k) == b.filtered(g, query, k, anything()),
{
    lemma_all_pass(b, g, prepared(g, b.metric, query), b.ids.len() as int);
    filtered_scan_is_exact(b, g, query, k, anything());
}

} // verus!
