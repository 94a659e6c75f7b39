//! How near the answers of the segmented index are.
//!
//! Records that are still in a buffer are compared one by one, so they are found
//! exactly. Of a segment, a search takes in what the search of its graph comes
//! upon. In both, no part of the index is left out.

use vstd::prelude::*;
use crate::bruteforce::Brute;
use crate::catalog::{number_index, numbers_ok, posted};
use crate::distance::{lemma_not_nearer, nan_key, nearer};
use crate::graph::on_level;
use crate::hnsw::Hnsw;
use crate::hnsw_laws::{lemma_slot, search_is_truthful, truthful};
use crate::meta::{equalities, passes_id, Condition, Fields};
use crate::nearness_laws::{
    everyone, filtered_answer, filtered_search_finds_the_nearest, gap, graph_answer, larger,
    search_finds_the_nearest_it_reaches, undeleted, undeleted_and,
};
use crate::numeric::{gathered, orderly};
use crate::numerics::{prepared, Model};
use crate::planner::{
    exact_for, lemma_lists_exist, matches_of, narrowest, plan_misses_no_match, planned,
    scan_is_chosen_by_exact_counts, scan_limit, small_range, sound_numbers, usual, Plan,
};
use crate::posting::lemma_ascending_distinct;
use crate::rank::{first_k, lemma_smallest, Ranked};
use crate::reach_laws::{
    came_upon, combed, crowded, crowded_by, enclosed, followed, leads, names, numbers, outdone,
    routed, stands_for,
};
use crate::segmented::{lemma_newest_part, lemma_newest_queued, Part, Store};
use crate::segmented_search::{
    accepted, alive, alive_and_accepted, at_least, lemma_countable, lemma_parts_weight,
    lemma_queue_weight, merged, parts_filtered, parts_found, parts_over, passing, queue_filtered,
    queue_found, wanted, widened,
};
use crate::segmented_search_laws::{
    all_sound, anything, buffered_record_is_found, lemma_all_found, lemma_brute_filtered,
    lemma_brute_picks, lemma_enough_alive, lemma_full, lemma_merged,
    lemma_merged_keeps, lemma_part_answers, lemma_part_part, lemma_part_vouches,
    lemma_parts_filtered, lemma_parts_over, lemma_passing, lemma_passing_keeps,
    lemma_queue_filtered, lemma_queued_answers, lemma_queued_vouches, lemma_sound_sum, live_hits,
    queued_record_is_found, raw_hits, scan_is_exact,
};
use crate::types::{SearchResult, VectorId};

verus! {

/// A length, as far as lengths go.
pub open spec fn fitting(n: nat) -> nat {
    if n <= usize::MAX {
        n
    } else {
        usize::MAX as nat
    }
}

/// The node lives in the index: neither its graph nor the segment counts it as
/// deleted.
pub open spec fn lives_in(p: Part, x: usize) -> bool {
    !p.index.deleted[x as int] && !p.dead.contains(p.index.ids[x as int])
}

/// The merged answer takes in what is among the candidates.
proof fn lemma_taken_in(
    s: Store,
    g: Model,
    v: Seq<u32>,
    all: Seq<SearchResult>,
    k: nat,
    r: SearchResult,
)
    requires
        k > 0,
        all_sound(s, g, v, all, anything()),
        s.vouches(g, v, r),
        all.contains(r),
    ensures
        ({
            let out = first_k(merged(all), k);
            out.contains(r) || (out.len() == k && out.last().key() <= r.key() && forall|i: int|
                0 <= i < out.len() ==> (#[trigger] out[i]).distance <= r.distance)
        }),
{
    let out = first_k(merged(all), k);
    lemma_merged_keeps(s, g, v, all, k, r);
    lemma_merged(s, g, v, all, anything(), k);
    if !out.contains(r) {
        assert forall|i: int| 0 <= i < out.len() implies (#[trigger] out[i]).distance
            <= r.distance by {
            assert(out[i].key() <= out[out.len() - 1].key());
        }
    }
}

/// `k` candidates within a bound keep the merged answer within it.
proof fn lemma_kept_out(
    s: Store,
    g: Model,
    v: Seq<u32>,
    all: Seq<SearchResult>,
    own: Seq<SearchResult>,
    k: nat,
    bound: u32,
)
    requires
        k > 0,
        all_sound(s, g, v, all, anything()),
        own.len() >= k,
        forall|j: int| 0 <= j < own.len() ==> all.contains(#[trigger] own[j]) && own[j].distance
            <= bound,
        forall|i: int, j: int|
            0 <= i < j < own.len() ==> (#[trigger] own[i]).id != (#[trigger] own[j]).id,
    ensures
        ({
            let out = first_k(merged(all), k);
            out.len() == k && forall|i: int|
                0 <= i < out.len() ==> (#[trigger] out[i]).distance <= bound
        }),
{
    let out = first_k(merged(all), k);
    let far = SearchResult { id: VectorId(u64::MAX), distance: bound };
    assert forall|j: int| 0 <= j < own.len() implies all.contains(#[trigger] own[j])
        && own[j].key() <= far.key() by {}
    lemma_full(s, g, v, all, own, k, far);
    lemma_merged(s, g, v, all, anything(), k);
    assert forall|i: int| 0 <= i < out.len() implies (#[trigger] out[i]).distance <= bound by {
        assert(out[i].key() <= out[out.len() - 1].key());
    }
}

/// What is not nearer than a bound is not nearer than anything within it.
proof fn lemma_outdone(
    h: Hnsw,
    dist: spec_fn(usize) -> u32,
    k: nat,
    out: Seq<SearchResult>,
    far: usize,
    x: usize,
)
    requires
        x < h.links.len(),
        far < h.links.len(),
        out.len() == k,
        numbers(h.links, dist) ==> !nearer(dist(x), dist(far)),
        forall|i: int| 0 <= i < out.len() ==> (#[trigger] out[i]).distance <= dist(far),
    ensures
        outdone(h.links, dist, k, out, x),
{
    if numbers(h.links, dist) {
        assert forall|i: int| 0 <= i < out.len() implies !nearer(
            dist(x),
            (#[trigger] out[i]).distance,
        ) by {
            assert(!nan_key(dist(x)) && !nan_key(dist(far)));
            lemma_not_nearer(dist(x), dist(far), out[i].distance);
        }
    }
}

/// A segment has no more slots than the index.
proof fn lemma_part_slots(s: Store, i: int)
    requires
        s.valid(),
        0 <= i < s.segments.len(),
    ensures
        s.segments[i].index.ids.len() <= s.slots(),
        s.segments[i].index.ids.len() <= usize::MAX,
{
    lemma_countable(s);
    lemma_parts_weight(s, i);
    lemma_parts_weight(s, i + 1);
    lemma_queue_weight(s, s.sealing.len() as int);
    let t = s.segments.take(i + 1);
    assert(t.drop_last() =~= s.segments.take(i));
    assert(t.last() == s.segments[i]);
    assert(s.sealing.take(s.sealing.len() as int) =~= s.sealing);
}

/// An answer that leaves out a live node is shorter than the index.
proof fn lemma_left_out(h: Hnsw, g: Model, v: Seq<u32>, raw: Seq<SearchResult>, x: usize)
    requires
        h.valid(),
        truthful(h, g, v, raw),
        x < h.ids.len(),
        !h.deleted[x as int],
        !names(h.ids, gap(h, g, v), raw, x),
    ensures
        raw.len() < h.ids.len(),
{
    let n = h.ids.len() as int;
    lemma_slot(h, x as int);
    let slots = Seq::new(raw.len(), |i: int| h.slot(raw[i].id));
    let all = slots.push(x as int);
    assert forall|i: int| 0 <= i < raw.len() implies 0 <= #[trigger] slots[i] < n
        && h.ids[slots[i]] == raw[i].id && slots[i] != x by {
        assert(h.contains(raw[i].id));
        if slots[i] == x {
            assert(raw[i] == SearchResult { id: h.ids[x as int], distance: gap(h, g, v)(x) });
            assert(raw.contains(raw[i]));
        }
    }
    assert(all.no_duplicates()) by {
        assert forall|i: int, j: int|
            0 <= i < all.len() && 0 <= j < all.len() && i != j implies all[i] != all[j] by {
            if i < raw.len() && j < raw.len() {
                assert(h.ids[slots[i]] == raw[i].id && h.ids[slots[j]] == raw[j].id);
                if i < j {
                    assert(raw[i].id != raw[j].id);
                } else {
                    assert(raw[j].id != raw[i].id);
                }
            } else if i < raw.len() {
                assert(slots[i] != x);
            } else {
                assert(slots[j] != x);
            }
        }
    }
    all.unique_seq_to_set();
    vstd::set_lib::lemma_int_range(0, n);
    let range = vstd::set_lib::set_int_range(0, n);
    assert(all.to_set().subset_of(range)) by {
        assert forall|y: int| all.to_set().contains(y) implies range.contains(y) by {
            let i = choose|i: int| 0 <= i < all.len() && all[i] == y;
            if i < raw.len() {
                assert(0 <= slots[i] < n);
            }
        }
    }
    vstd::set_lib::lemma_len_subset(all.to_set(), range);
}

/// What a search takes in of a segment. It goes through the graph as a search of
/// the graph alone would that asks for as many more as are dead. Of the live nodes
/// that it sees, each is among the results, or there are `k` results that it is
/// nearer than none of. Where there are fewer than `k` results, every live node
/// that links lead to is among them.
pub open spec fn segment_answer(
    s: Store,
    g: Model,
    query: Seq<u32>,
    k: nat,
    ef: nat,
    i: int,
    out: Seq<SearchResult>,
    entry: usize,
    seen: Set<usize>,
) -> bool {
    let p = s.segments[i];
    let h = p.index;
    let dist = gap(h, g, prepared(g, h.metric, query));
    let e = h.entry->0;
    &&& routed(h.links, dist, everyone(), e, h.links[e as int].len() - 1, 1, entry)
    &&& came_upon(h.links, 0, entry, seen)
    &&& combed(h.links, 0, dist, undeleted(h), larger(ef, fitting(k + p.dead.len())), seen)
    &&& forall|x: usize| #[trigger]
        seen.contains(x) && lives_in(p, x) ==> names(h.ids, dist, out, x) || outdone(
            h.links,
            dist,
            k,
            out,
            x,
        )
    &&& out.len() < k ==> forall|x: usize| #[trigger]
        leads(h.links, 0, entry, x) && lives_in(p, x) ==> names(h.ids, dist, out, x)
}

/// The answer of a search to an index in order: it takes in every segment.
pub open spec fn takes_in_every_segment(
    s: Store,
    g: Model,
    query: Seq<u32>,
    k: nat,
    ef: nat,
    out: Seq<SearchResult>,
) -> bool {
    s.valid() && s.coherent() && k > 0 ==> forall|i: int|
        0 <= i < s.segments.len() && (#[trigger] s.segments[i]).index.entry is Some ==> exists|
            entry: usize,
            seen: Set<usize>,
        | #[trigger]
            segment_answer(s, g, query, k, ef, i, out, entry, seen)
}

/// A search takes in every segment: each is searched in full width, and what its
/// graph comes upon is among the results unless `k` others are no farther.
pub proof fn search_takes_in_every_segment(
    s: Store,
    g: Model,
    query: Seq<u32>,
    k: nat,
    ef: nat,
    i: int,
)
    requires
        s.valid(),
        s.coherent(),
        k > 0,
        0 <= i < s.segments.len(),
        s.segments[i].index.entry is Some,
    ensures
        exists|entry: usize, seen: Set<usize>| #[trigger]
            segment_answer(s, g, query, k, ef, i, s.found(g, query, k, ef), entry, seen),
{
    let v = prepared(g, s.metric, query);
    let a = parts_found(s.segments, g, query, k, ef);
    let b = queue_found(s.sealing, g, query, k);
    let c = s.buffer.found(g, query, k);
    let all = a + b + c;
    let p = s.segments[i];
    let h = p.index;
    assert(s.part_fits(p));
    let dist = gap(h, g, v);
    let want = wanted(k, p.dead.len());
    let width = at_least(ef, want);
    let raw = raw_hits(p, g, query, k, ef);
    let hits = live_hits(p, g, query, k, ef);
    let out = s.found(g, query, k, ef);
    search_finds_the_nearest_it_reaches(h, g, query, want, width);
    let (entry, seen) = choose|entry: usize, seen: Set<usize>| #[trigger]
        graph_answer(h, g, query, want, width, raw, entry, seen);
    search_is_truthful(h, g, query, want, width);
    lemma_enough_alive(p.dead, raw);
    lemma_all_found(s, g, query, k, ef);
    lemma_part_part(s.segments, g, query, k, ef, i);
    lemma_part_slots(s, i);
    assert forall|y: SearchResult| hits.contains(y) implies #[trigger] all.contains(y) by {
        assert(a.contains(y));
        let j = choose|j: int| 0 <= j < a.len() && a[j] == y;
        assert(all[j] == y);
    }
    assert forall|x: usize| x < h.ids.len() && lives_in(p, x) && #[trigger] names(
        h.ids,
        dist,
        raw,
        x,
    ) implies names(h.ids, dist, out, x) || outdone(h.links, dist, k, out, x) by {
        let r = SearchResult { id: h.ids[x as int], distance: dist(x) };
        lemma_slot(h, x as int);
        lemma_part_vouches(s, g, v, i, r);
        lemma_passing_keeps(raw, alive(p.dead), r);
        assert(hits.contains(r));
        assert(all.contains(r));
        lemma_taken_in(s, g, v, all, k, r);
    }
    assert forall|x: usize|
        x < h.ids.len() && lives_in(p, x) && !(#[trigger] names(h.ids, dist, raw, x)) && raw.len()
            == want implies out.len() == k && forall|j: int|
        0 <= j < out.len() ==> (#[trigger] out[j]).distance <= raw.last().distance by {
        lemma_left_out(h, g, v, raw, x);
        assert(want == k + p.dead.len());
        assert forall|j: int| 0 <= j < hits.len() implies all.contains(#[trigger] hits[j])
            && hits[j].distance <= raw.last().distance by {
            assert(hits.contains(hits[j]));
            lemma_passing(raw, alive(p.dead), j);
            let t = choose|t: int| 0 <= t < raw.len() && raw[t] == hits[j];
            assert(raw[t].distance <= raw[raw.len() - 1].distance);
        }
        lemma_kept_out(s, g, v, all, hits, k, raw.last().distance);
    }
    assert forall|x: usize| #[trigger] seen.contains(x) && lives_in(p, x) implies names(
        h.ids,
        dist,
        out,
        x,
    ) || outdone(h.links, dist, k, out, x) by {
        assert(leads(h.links, 0, entry, x));
        assert(on_level(h.links, x, 0));
        assert(undeleted(h)(x));
        if !names(h.ids, dist, raw, x) {
            assert(outdone(h.links, dist, want, raw, x));
            let last = raw[raw.len() - 1];
            assert(stands_for(h.ids, dist, undeleted(h), seen, last));
            let far = choose|far: usize| #[trigger]
                seen.contains(far) && undeleted(h)(far) && last == (SearchResult {
                    id: h.ids[far as int],
                    distance: dist(far),
                });
            assert(leads(h.links, 0, entry, far));
            lemma_outdone(h, dist, k, out, far, x);
        }
    }
    if out.len() < k {
        assert forall|x: usize| #[trigger] leads(h.links, 0, entry, x) && lives_in(
            p,
            x,
        ) implies names(h.ids, dist, out, x) by {
            assert(on_level(h.links, x, 0));
            assert(raw.len() <= want);
            if raw.len() < want {
                assert(names(h.ids, dist, raw, x));
            }
            assert(names(h.ids, dist, raw, x));
        }
    }
    assert(segment_answer(s, g, query, k, ef, i, out, entry, seen));
}

/// The index is as every sequence of operations leaves it, and its metadata holds
/// no integer that a condition of the filter would compare inexactly.
pub open spec fn filterable(s: Store, g: Model, f: Seq<Condition>) -> bool {
    &&& s.valid()
    &&& s.coherent()
    &&& orderly(g)
    &&& s.records.meta.dom().finite()
    &&& numbers_ok(s.records.numbers, s.records.meta)
    &&& sound_numbers(s.records)
    &&& forall|id: u64, i: int| #![trigger s.records.meta[id], f[i]]
        s.records.meta.contains_key(id) && 0 <= i < f.len() ==> exact_for(
            f[i],
            s.records.meta[id],
        )
}

/// The result is in the answer, or there are `k` that precede it.
pub open spec fn owed(out: Seq<SearchResult>, k: nat, r: SearchResult) -> bool {
    out.contains(r) || (out.len() == k && forall|i: int|
        0 <= i < out.len() ==> (#[trigger] out[i]).key() <= r.key())
}

/// A scan of what the plan offers is exact.
proof fn lemma_scan_owes(
    s: Store,
    g: Model,
    query: Seq<u32>,
    k: nat,
    ids: Seq<VectorId>,
    f: Seq<Condition>,
    r: SearchResult,
)
    requires
        s.valid(),
        k > 0,
        ids.contains(r.id),
        s.vouches(g, prepared(g, s.metric, query), r),
        passes_id(f, s.records.meta, r.id),
    ensures
        owed(s.scan(g, query, k, ids, f), k, r),
{
    let out = s.scan(g, query, k, ids, f);
    let w = s.vector(r.id)->0;
    scan_is_exact(s, g, query, k, ids, f, r.id, w);
    lemma_smallest(s.scanned(g, prepared(g, s.metric, query), ids, f), k);
    if !out.contains(r) {
        assert forall|i: int| 0 <= i < out.len() implies (#[trigger] out[i]).key() <= r.key() by {
            assert(out[i].key() <= out[out.len() - 1].key());
        }
    }
}

/// What the plan of a filtered search puts before the scan, where it scans.
proof fn lemma_plan_offers(s: Store, g: Model, k: nat, f: Seq<Condition>, id: VectorId)
    requires
        filterable(s, g, f),
        f.len() > 0,
        passes_id(f, s.records.meta, id),
    ensures
        match planned(s.records, g, f, usual(), k, s.counted()) {
            Plan::Empty => false,
            Plan::Scan(ids) => ids.contains(id),
            Plan::Post { fallback, .. } => s.candidates(fallback).contains(id),
            Plan::Legacy => true,
        },
{
    assert forall|i: int| 0 <= i < f.len() implies exact_for(
        #[trigger] f[i],
        s.records.meta[id.0],
    ) by {
        assert(s.records.meta.contains_key(id.0));
    }
    plan_misses_no_match(s.records, g, f, usual(), k, s.counted(), id);
}

/// The answers of the buffers and of the segments, put together.
spec fn pooled(
    s: Store,
    g: Model,
    query: Seq<u32>,
    k: nat,
    f: Seq<Condition>,
    a: Seq<SearchResult>,
) -> Seq<SearchResult> {
    let meta = s.records.meta;
    a + queue_filtered(s.sealing, g, query, k, f, meta) + s.buffer.filtered(
        g,
        query,
        k,
        accepted(f, meta),
    )
}

proof fn lemma_pooled(
    s: Store,
    g: Model,
    query: Seq<u32>,
    k: nat,
    f: Seq<Condition>,
    a: Seq<SearchResult>,
)
    requires
        s.valid(),
        s.coherent(),
        all_sound(s, g, prepared(g, s.metric, query), a, accepted(f, s.records.meta)),
    ensures
        all_sound(s, g, prepared(g, s.metric, query), pooled(s, g, query, k, f, a), anything()),
        forall|y: SearchResult| #[trigger] a.contains(y) ==> pooled(
            s,
            g,
            query,
            k,
            f,
            a,
        ).contains(y),
        forall|y: SearchResult| #[trigger]
            queue_filtered(s.sealing, g, query, k, f, s.records.meta).contains(y) ==> pooled(
                s,
                g,
                query,
                k,
                f,
                a,
            ).contains(y),
        forall|y: SearchResult| #[trigger]
            s.buffer.filtered(g, query, k, accepted(f, s.records.meta)).contains(y) ==> pooled(
                s,
                g,
                query,
                k,
                f,
                a,
            ).contains(y),
{
    let meta = s.records.meta;
    let ok = accepted(f, meta);
    let v = prepared(g, s.metric, query);
    let b = queue_filtered(s.sealing, g, query, k, f, meta);
    let c = s.buffer.filtered(g, query, k, ok);
    let all = pooled(s, g, query, k, f, a);
    let n = s.sealing.len() as int;
    assert(s.sealing.take(n) =~= s.sealing);
    lemma_queue_filtered(s, g, query, k, f, n);
    assert forall|i: int| 0 <= i < c.len() implies s.vouches(g, v, #[trigger] c[i]) && ok(
        c[i].id,
    ) by {
        lemma_brute_filtered(s.buffer, g, query, k, ok, i);
    }
    lemma_sound_sum(s, g, v, a, b, ok);
    lemma_sound_sum(s, g, v, a + b, c, ok);
    assert forall|i: int| 0 <= i < all.len() implies s.vouches(g, v, #[trigger] all[i])
        && anything()(all[i].id) by {
        assert(ok(all[i].id));
    }
    assert forall|y: SearchResult| #[trigger] a.contains(y) implies all.contains(y) by {
        let j = choose|j: int| 0 <= j < a.len() && a[j] == y;
        assert(all[j] == y);
    }
    assert forall|y: SearchResult| #[trigger] b.contains(y) implies all.contains(y) by {
        let j = choose|j: int| 0 <= j < b.len() && b[j] == y;
        assert(all[a.len() + j] == y);
    }
    assert forall|y: SearchResult| #[trigger] c.contains(y) implies all.contains(y) by {
        let j = choose|j: int| 0 <= j < c.len() && c[j] == y;
        assert(all[a.len() + b.len() + j] == y);
    }
}

/// What a buffer picks of a record that passes.
proof fn lemma_buffer_owes(
    s: Store,
    g: Model,
    v: Seq<u32>,
    all: Seq<SearchResult>,
    b: Brute,
    query: Seq<u32>,
    k: nat,
    allow: spec_fn(VectorId) -> bool,
    r: SearchResult,
)
    requires
        k > 0,
        b.valid(),
        b.contains(r.id),
        allow(r.id),
        r == b.result(g, prepared(g, b.metric, query), b.slot(r.id)),
        all_sound(s, g, v, all, anything()),
        s.vouches(g, v, r),
        forall|y: SearchResult| #[trigger]
            b.filtered(g, query, k, allow).contains(y) ==> all.contains(y),
    ensures
        owed(first_k(merged(all), k), k, r),
{
    let out = first_k(merged(all), k);
    let own = b.filtered(g, query, k, allow);
    let w = prepared(g, b.metric, query);
    let n = b.ids.len() as int;
    lemma_brute_picks(b, g, query, k, allow, r.id);
    lemma_smallest(b.passing(g, w, allow, n), k);
    lemma_merged(s, g, v, all, anything(), k);
    if own.contains(r) {
        lemma_taken_in(s, g, v, all, k, r);
    } else {
        crate::segmented_search_laws::lemma_brute_passing_places(b, g, w, allow, n);
        let at = b.slot(r.id);
        let some = choose|some: int| 0 <= some < b.ids.len() && b.ids[some] == r.id;
        assert(b.ids[some] == r.id);
        assert(b.passing(g, w, allow, n).contains(b.result(g, w, at)));
        assert forall|j: int| 0 <= j < own.len() implies all.contains(#[trigger] own[j])
            && own[j].key() <= r.key() by {
            assert(own.contains(own[j]));
            assert(own[j].key() <= own[own.len() - 1].key());
        }
        lemma_full(s, g, v, all, own, k, r);
    }
    if !out.contains(r) {
        assert forall|i: int| 0 <= i < out.len() implies (#[trigger] out[i]).key() <= r.key() by {
            assert(out[i].key() <= out[out.len() - 1].key());
        }
    }
}

/// A record that is in the buffer or in the queue and passes the filter is found
/// exactly by a filtered search: it is among the results, or `k` results precede
/// it. So a filtered search, too, finds a record from the moment it was inserted,
/// and through all of its sealing.
///
/// Left out are comparisons of integers that doubles do not hold exactly.
pub proof fn filtered_search_finds_buffered_records_exactly(
    s: Store,
    g: Model,
    query: Seq<u32>,
    k: nat,
    f: Seq<Condition>,
    i: int,
    x: VectorId,
)
    requires
        filterable(s, g, f),
        k > 0,
        passes_id(f, s.records.meta, x),
        s.buffer.contains(x) || (0 <= i < s.sealing.len() && s.sealing[i].live(x)),
    ensures
        s.vector(x) is Some,
        owed(
            s.filtered(g, query, k, f),
            k,
            (SearchResult {
                id: x,
                distance: (g.distance)(
                    s.metric,
                    prepared(g, s.metric, query),
                    s.vector(x)->0,
                ),
            }),
        ),
{
    let meta = s.records.meta;
    let ef = s.params.ef_search as nat;
    let v = prepared(g, s.metric, query);
    let out = s.filtered(g, query, k, f);
    let b = if s.buffer.contains(x) {
        s.buffer
    } else {
        s.sealing[i].data
    };
    if !s.buffer.contains(x) {
        assert(s.queued_fits(s.sealing[i]));
    }
    let some = choose|some: int| 0 <= some < b.ids.len() && b.ids[some] == x;
    assert(b.ids[some] == x);
    let r = b.result(g, v, b.slot(x));
    assert(s.vouches(g, v, r)) by {
        if !s.buffer.contains(x) {
            lemma_queued_vouches(s, g, v, i, r);
        }
    }
    assert(r == (SearchResult { id: x, distance: (g.distance)(s.metric, v, s.vector(x)->0) }));
    if f.len() == 0 || s.filter_is_void(f) {
        if s.buffer.contains(x) {
            buffered_record_is_found(s, g, query, k, ef, x);
        } else {
            queued_record_is_found(s, g, query, k, ef, i, x);
        }
        crate::segmented_search_laws::search_finds_only_records(s, g, query, k, ef);
        if !out.contains(r) {
            assert forall|j: int| 0 <= j < out.len() implies (#[trigger] out[j]).key()
                <= r.key() by {
                assert(out[j].key() <= out[out.len() - 1].key());
            }
        }
    } else {
        lemma_plan_offers(s, g, k, f, x);
        match planned(s.records, g, f, usual(), k, s.counted()) {
            Plan::Empty => {},
            Plan::Scan(ids) => {
                lemma_scan_owes(s, g, query, k, ids, f, r);
            },
            Plan::Post { upper, fallback } => {
                lemma_scan_owes(s, g, query, k, s.candidates(fallback), f, r);
                let m = s.segments.len() as int;
                let width = s.width(g, k, upper);
                let a = parts_over(s.segments, g, query, width, f, meta);
                assert(s.segments.take(m) =~= s.segments);
                lemma_parts_over(s, g, query, width, f, m);
                lemma_pool_owes(s, g, query, k, f, a, i, r);
            },
            Plan::Legacy => {
                let m = s.segments.len() as int;
                let a = parts_filtered(s.segments, g, query, k, ef, f, meta);
                assert(s.segments.take(m) =~= s.segments);
                lemma_parts_filtered(s, g, query, k, ef, f, m);
                lemma_pool_owes(s, g, query, k, f, a, i, r);
            },
        }
    }
}

/// The pooled answers owe what the buffers pick.
proof fn lemma_pool_owes(
    s: Store,
    g: Model,
    query: Seq<u32>,
    k: nat,
    f: Seq<Condition>,
    a: Seq<SearchResult>,
    i: int,
    r: SearchResult,
)
    requires
        s.valid(),
        s.coherent(),
        k > 0,
        all_sound(s, g, prepared(g, s.metric, query), a, accepted(f, s.records.meta)),
        passes_id(f, s.records.meta, r.id),
        s.vouches(g, prepared(g, s.metric, query), r),
        s.buffer.contains(r.id) && r == s.buffer.result(
            g,
            prepared(g, s.metric, query),
            s.buffer.slot(r.id),
        ) || (0 <= i < s.sealing.len() && s.sealing[i].live(r.id) && r == s.sealing[i].data.result(
            g,
            prepared(g, s.metric, query),
            s.sealing[i].data.slot(r.id),
        )),
    ensures
        owed(first_k(merged(pooled(s, g, query, k, f, a)), k), k, r),
{
    let meta = s.records.meta;
    let v = prepared(g, s.metric, query);
    let all = pooled(s, g, query, k, f, a);
    lemma_pooled(s, g, query, k, f, a);
    if s.buffer.contains(r.id) && r == s.buffer.result(g, v, s.buffer.slot(r.id)) {
        lemma_buffer_owes(s, g, v, all, s.buffer, query, k, accepted(f, meta), r);
    } else {
        let q = s.sealing[i];
        assert(s.queued_fits(q));
        lemma_queued_answers(s.sealing, g, query, k, f, meta, i);
        lemma_buffer_owes(s, g, v, all, q.data, query, k, alive_and_accepted(q.dead, f, meta), r);
    }
}

/// The answer of a segment is among the answers of the segments.
proof fn lemma_part_over(
    ps: Seq<Part>,
    g: Model,
    query: Seq<u32>,
    width: nat,
    f: Seq<Condition>,
    meta: Map<u64, Fields>,
    i: int,
)
    requires
        0 <= i < ps.len(),
    ensures
        forall|y: SearchResult| #[trigger]
            passing(
                ps[i].index.found(g, query, width, width),
                alive_and_accepted(ps[i].dead, f, meta),
            ).contains(y) ==> parts_over(ps, g, query, width, f, meta).contains(y),
    decreases ps.len(),
{
    let t = ps.drop_last();
    let own = passing(
        ps[i].index.found(g, query, width, width),
        alive_and_accepted(ps[i].dead, f, meta),
    );
    let before = parts_over(t, g, query, width, f, meta);
    let all = parts_over(ps, g, query, width, f, meta);
    if i < ps.len() - 1 {
        assert(t[i] == ps[i]);
        lemma_part_over(t, g, query, width, f, meta, i);
    }
    assert forall|y: SearchResult| #[trigger] own.contains(y) implies all.contains(y) by {
        if i < ps.len() - 1 {
            assert(before.contains(y));
            let j = choose|j: int| 0 <= j < before.len() && before[j] == y;
            assert(all[j] == y);
        } else {
            let j = choose|j: int| 0 <= j < own.len() && own[j] == y;
            assert(all[before.len() + j] == y);
        }
    }
}

/// What a filtered search takes in of a segment that it searches without the
/// filter, for more results than asked. Of the nodes that it sees, live and
/// passing, each is among the results; or there are `k` results that it is nearer
/// than none of; or there are as many nodes as the search is wide that are no
/// farther, and it stayed behind.
pub open spec fn segment_sifted(
    s: Store,
    g: Model,
    query: Seq<u32>,
    k: nat,
    f: Seq<Condition>,
    i: int,
    width: nat,
    out: Seq<SearchResult>,
    entry: usize,
    seen: Set<usize>,
) -> bool {
    let p = s.segments[i];
    let h = p.index;
    let dist = gap(h, g, prepared(g, h.metric, query));
    let e = h.entry->0;
    &&& width >= s.params.ef_search
    &&& width >= 2 * k
    &&& width <= larger(8 * s.params.ef_search as nat, 4 * k)
    &&& routed(h.links, dist, everyone(), e, h.links[e as int].len() - 1, 1, entry)
    &&& came_upon(h.links, 0, entry, seen)
    &&& combed(h.links, 0, dist, undeleted(h), width, seen)
    &&& forall|x: usize| #[trigger]
        seen.contains(x) && lives_in(p, x) && passes_id(f, s.records.meta, h.ids[x as int])
            ==> names(h.ids, dist, out, x) || outdone(h.links, dist, k, out, x) || crowded(
            h.links,
            dist,
            undeleted(h),
            width,
            seen,
            x,
        )
}

/// A filtered search that sifts more results than asked takes in every segment.
///
/// Left out are comparisons of integers that doubles do not hold exactly.
pub proof fn sifting_search_takes_in_every_segment(
    s: Store,
    g: Model,
    query: Seq<u32>,
    k: nat,
    f: Seq<Condition>,
    i: int,
)
    requires
        filterable(s, g, f),
        f.len() > 0,
        k > 0,
        !s.filter_is_void(f),
        planned(s.records, g, f, usual(), k, s.counted()) is Post,
        0 <= i < s.segments.len(),
        s.segments[i].index.entry is Some,
    ensures
        exists|width: nat, entry: usize, seen: Set<usize>| #[trigger]
            segment_sifted(
                s,
                g,
                query,
                k,
                f,
                i,
                width,
                s.filtered(g, query, k, f),
                entry,
                seen,
            ),
{
    let meta = s.records.meta;
    let v = prepared(g, s.metric, query);
    let p = s.segments[i];
    let h = p.index;
    assert(s.part_fits(p));
    let dist = gap(h, g, v);
    let out = s.filtered(g, query, k, f);
    match planned(s.records, g, f, usual(), k, s.counted()) {
        Plan::Post { upper, fallback } => {
            let m = s.segments.len() as int;
            let width = s.width(g, k, upper);
            let a = parts_over(s.segments, g, query, width, f, meta);
            let all = pooled(s, g, query, k, f, a);
            let raw = h.found(g, query, width, width);
            let both = alive_and_accepted(p.dead, f, meta);
            assert(s.segments.take(m) =~= s.segments);
            lemma_parts_over(s, g, query, width, f, m);
            lemma_pooled(s, g, query, k, f, a);
            lemma_part_over(s.segments, g, query, width, f, meta, i);
            search_is_truthful(h, g, query, width, width);
            search_finds_the_nearest_it_reaches(h, g, query, width, width);
            let (entry, seen) = choose|entry: usize, seen: Set<usize>| #[trigger]
                graph_answer(h, g, query, width, width, raw, entry, seen);
            assert forall|x: usize| #[trigger]
                seen.contains(x) && lives_in(p, x) && passes_id(f, meta, h.ids[x as int]) implies names(
                h.ids,
                dist,
                out,
                x,
            ) || outdone(h.links, dist, k, out, x) || crowded(
                h.links,
                dist,
                undeleted(h),
                width,
                seen,
                x,
            ) by {
                assert(leads(h.links, 0, entry, x));
                assert(undeleted(h)(x));
                let r = SearchResult { id: h.ids[x as int], distance: dist(x) };
                lemma_slot(h, x as int);
                lemma_part_vouches(s, g, v, i, r);
                if merged(all).len() < 2 * k {
                    lemma_plan_offers(s, g, k, f, r.id);
                    lemma_scan_owes(s, g, query, k, s.candidates(fallback), f, r);
                } else if names(h.ids, dist, raw, x) {
                    lemma_passing_keeps(raw, both, r);
                    assert(a.contains(r));
                    lemma_taken_in(s, g, v, all, k, r);
                } else {
                    lemma_raw_crowds(h, g, v, width, raw, entry, seen, x);
                }
            }
            assert(segment_sifted(s, g, query, k, f, i, width, out, entry, seen));
        },
        _ => {},
    }
}

/// A full answer that leaves out a node is made of nodes that are no farther.
proof fn lemma_raw_crowds(
    h: Hnsw,
    g: Model,
    v: Seq<u32>,
    width: nat,
    raw: Seq<SearchResult>,
    entry: usize,
    seen: Set<usize>,
    x: usize,
)
    requires
        h.valid(),
        width > 0,
        came_upon(h.links, 0, entry, seen),
        crate::reach_laws::nearest_of(
            h.links,
            h.ids,
            gap(h, g, v),
            undeleted(h),
            seen,
            width,
            raw,
        ),
        outdone(h.links, gap(h, g, v), width, raw, x),
        !names(h.ids, gap(h, g, v), raw, x),
    ensures
        crowded(h.links, gap(h, g, v), undeleted(h), width, seen, x),
{
    let dist = gap(h, g, v);
    let near = Seq::new(raw.len(), |j: int| h.slot(raw[j].id) as usize);
    assert forall|j: int| 0 <= j < near.len() implies seen.contains(#[trigger] near[j])
        && undeleted(h)(near[j]) && (numbers(h.links, dist) ==> !nearer(dist(x), dist(near[j])))
        && raw[j].id == h.ids[near[j] as int] && near[j] != x by {
        assert(raw.contains(raw[j]));
        assert(stands_for(h.ids, dist, undeleted(h), seen, raw[j]));
        let y = choose|y: usize| #[trigger]
            seen.contains(y) && undeleted(h)(y) && raw[j] == (SearchResult {
                id: h.ids[y as int],
                distance: dist(y),
            });
        assert(leads(h.links, 0, entry, y));
        lemma_slot(h, y as int);
        assert(near[j] == y);
    }
    assert(near.no_duplicates()) by {
        assert forall|a: int, b: int|
            0 <= a < near.len() && 0 <= b < near.len() && a != b implies near[a] != near[b] by {
            assert(raw[a].id == h.ids[near[a] as int] && raw[b].id == h.ids[near[b] as int]);
            if a < b {
                assert(raw[a].id != raw[b].id);
            } else {
                assert(raw[b].id != raw[a].id);
            }
        }
    }
    assert(crowded_by(h.links, dist, undeleted(h), width, seen, x, near));
}

/// What a filtered search takes in of a segment that it searches with the filter.
/// Of the nodes that it sees, live and passing, each is among the results, or
/// there are `k` results that it is nearer than none of.
pub open spec fn segment_filtered(
    s: Store,
    g: Model,
    query: Seq<u32>,
    k: nat,
    f: Seq<Condition>,
    i: int,
    out: Seq<SearchResult>,
    entry: usize,
    seen: Set<usize>,
) -> bool {
    let p = s.segments[i];
    let h = p.index;
    let dist = gap(h, g, prepared(g, h.metric, query));
    let ok = undeleted_and(
        h,
        |id: VectorId| !p.dead.contains(id) && passes_id(f, s.records.meta, id),
    );
    let e = h.entry->0;
    &&& routed(h.links, dist, everyone(), e, h.links[e as int].len() - 1, 1, entry)
    &&& came_upon(h.links, 0, entry, seen)
    &&& combed(h.links, 0, dist, ok, larger(s.params.ef_search as nat, k), seen)
    &&& forall|x: usize| #[trigger]
        seen.contains(x) && ok(x) ==> names(h.ids, dist, out, x) || outdone(
            h.links,
            dist,
            k,
            out,
            x,
        )
}

/// A filtered search that knows nothing of its filter takes in every segment.
pub proof fn unplanned_search_takes_in_every_segment(
    s: Store,
    g: Model,
    query: Seq<u32>,
    k: nat,
    f: Seq<Condition>,
    i: int,
)
    requires
        s.valid(),
        s.coherent(),
        f.len() > 0,
        0 < k <= usize::MAX,
        !s.filter_is_void(f),
        planned(s.records, g, f, usual(), k, s.counted()) is Legacy,
        0 <= i < s.segments.len(),
        s.segments[i].index.entry is Some,
    ensures
        exists|entry: usize, seen: Set<usize>| #[trigger]
            segment_filtered(s, g, query, k, f, i, s.filtered(g, query, k, f), entry, seen),
{
    let meta = s.records.meta;
    let ef = s.params.ef_search as nat;
    let v = prepared(g, s.metric, query);
    let p = s.segments[i];
    let h = p.index;
    assert(s.part_fits(p));
    let dist = gap(h, g, v);
    let out = s.filtered(g, query, k, f);
    let m = s.segments.len() as int;
    let a = parts_filtered(s.segments, g, query, k, ef, f, meta);
    let all = pooled(s, g, query, k, f, a);
    let want = widened(k, p.dead.len());
    let width = at_least(ef, want);
    let both = alive_and_accepted(p.dead, f, meta);
    let ok = undeleted_and(h, both);
    let own = h.filtered(g, query, want, width, both, None).0;
    let stats = h.filtered(g, query, want, width, both, None).1;
    assert(s.segments.take(m) =~= s.segments);
    lemma_parts_filtered(s, g, query, k, ef, f, m);
    lemma_pooled(s, g, query, k, f, a);
    lemma_part_answers(s.segments, g, query, k, ef, f, meta, i);
    lemma_part_slots(s, i);
    filtered_search_finds_the_nearest(h, g, query, want, width, both, None);
    let (entry, seen) = choose|entry: usize, seen: Set<usize>| #[trigger]
        filtered_answer(h, g, query, want, width, both, None, own, stats, entry, seen);
    let through = if stats.fallback_used {
        Set::new(|x: usize| x < h.ids.len())
    } else {
        seen
    };
    assert forall|x: usize| #[trigger] seen.contains(x) implies followed(h.links, 0, seen, x)
        || enclosed(h.links, 0, dist, ok, larger(ef, k), seen, x) by {
        if !followed(h.links, 0, seen, x) {
            assert(enclosed(h.links, 0, dist, ok, larger(width, want), seen, x));
            let near = choose|near: Seq<usize>| #[trigger]
                crowded_by(h.links, dist, ok, larger(width, want), seen, x, near) && forall|j: int|
                    0 <= j < near.len() ==> followed(h.links, 0, seen, #[trigger] near[j]);
            assert(crowded_by(h.links, dist, ok, larger(ef, k), seen, x, near));
        }
    }
    assert forall|x: usize| #[trigger] seen.contains(x) && ok(x) implies names(
        h.ids,
        dist,
        out,
        x,
    ) || outdone(h.links, dist, k, out, x) by {
        assert(leads(h.links, 0, entry, x));
        assert(through.contains(x));
        let r = SearchResult { id: h.ids[x as int], distance: dist(x) };
        lemma_slot(h, x as int);
        lemma_part_vouches(s, g, v, i, r);
        if names(h.ids, dist, own, x) {
            assert(a.contains(r));
            lemma_taken_in(s, g, v, all, k, r);
        } else {
            assert(outdone(h.links, dist, want, own, x));
            let last = own[own.len() - 1];
            assert(stands_for(h.ids, dist, ok, through, last));
            let far = choose|far: usize| #[trigger]
                through.contains(far) && ok(far) && last == (SearchResult {
                    id: h.ids[far as int],
                    distance: dist(far),
                });
            if !stats.fallback_used {
                assert(leads(h.links, 0, entry, far));
            }
            assert forall|j: int| 0 <= j < own.len() implies all.contains(#[trigger] own[j])
                && own[j].distance <= last.distance by {
                assert(own.contains(own[j]));
                assert(a.contains(own[j]));
            }
            lemma_kept_out(s, g, v, all, own, k, last.distance);
            lemma_outdone(h, dist, k, out, far, x);
        }
    }
    assert(both =~= (|id: VectorId| !p.dead.contains(id) && passes_id(f, s.records.meta, id)));
    assert(segment_filtered(s, g, query, k, f, i, out, entry, seen));
}

/// A filter without conditions is no filter, and neither is one that every record
/// passes by its list: the search is then the unfiltered one.
pub proof fn void_filter_changes_no_answer(
    s: Store,
    g: Model,
    query: Seq<u32>,
    k: nat,
    f: Seq<Condition>,
)
    requires
        f.len() == 0 || (k > 0 && s.filter_is_void(f)),
    ensures
        s.filtered(g, query, k, f) == s.found(g, query, k, s.params.ef_search as nat),
{
}

/// The list that is picked is no longer than that of any equality condition.
proof fn lemma_narrowest(meta: Map<u64, Fields>, f: Seq<Condition>, i: int)
    requires
        0 <= i < f.len(),
        f[i] is Eq,
    ensures
        narrowest(meta, equalities(f)) matches Some(ids) && ids.len() <= matches_of(
            meta,
            f[i]->Eq_key,
            f[i]->Eq_value.key(),
        ).len(),
    decreases f.len(),
{
    let t = f.drop_last();
    if i < f.len() - 1 {
        assert(t[i] == f[i]);
        lemma_narrowest(meta, t, i);
    }
    let before = equalities(t);
    let all = equalities(f);
    if f.last() is Eq {
        assert(all.drop_last() =~= before);
    }
}

/// The condition is met by at most `n` records, as far as the lists tell: an
/// equality by those with a value of its key, a range by those with a number in
/// it.
pub open spec fn met_by_few(s: Store, c: Condition, n: nat) -> bool {
    match c {
        Condition::Eq { key, value } => {
            let some = Set::new(|id: VectorId| posted(s.records.meta, key, value.key(), id));
            some.len() <= n
        },
        Condition::Range { key, min, max } => number_index(s.records.numbers, key) matches Some(
            index,
        ) && gathered(index.entries, min, max).len() <= n,
    }
}

/// A filter with a condition that few records meet is answered exactly: where they
/// are no more than sixteen times as many as are asked for, every record that
/// passes is among the results, or `k` results precede it.
///
/// Left out are comparisons of integers that doubles do not hold exactly, and a
/// filter that every record passes by its list.
pub proof fn narrow_filter_is_answered_exactly(
    s: Store,
    g: Model,
    query: Seq<u32>,
    k: nat,
    f: Seq<Condition>,
    i: int,
    x: VectorId,
)
    requires
        filterable(s, g, f),
        k > 0,
        0 <= i < f.len(),
        !s.filter_is_void(f),
        met_by_few(s, f[i], 16 * k),
        s.live(x),
        passes_id(f, s.records.meta, x),
    ensures
        s.vector(x) is Some,
        owed(
            s.filtered(g, query, k, f),
            k,
            (SearchResult {
                id: x,
                distance: (g.distance)(
                    s.metric,
                    prepared(g, s.metric, query),
                    s.vector(x)->0,
                ),
            }),
        ),
{
    let meta = s.records.meta;
    lemma_newest_queued(s.sealing, x);
    lemma_newest_part(s.segments, x);
    let limit = scan_limit(g, usual(), k, s.counted());
    let v = prepared(g, s.metric, query);
    let r = SearchResult { id: x, distance: (g.distance)(s.metric, v, s.vector(x)->0) };
    assert(limit >= 16 * k);
    lemma_plan_offers(s, g, k, f, x);
    scan_is_chosen_by_exact_counts(s.records, g, f, usual(), k, s.counted());
    match f[i] {
        Condition::Eq { key, value } => {
            let list = matches_of(meta, key, value.key());
            let some = Set::new(|id: VectorId| posted(meta, key, value.key(), id));
            lemma_lists_exist(meta, key, value.key());
            lemma_ascending_distinct(list);
            list.unique_seq_to_set();
            assert(list.to_set() =~= some);
            lemma_narrowest(meta, f, i);
        },
        Condition::Range { .. } => {
            assert(small_range(s.records, f[i], limit));
        },
    }
    match planned(s.records, g, f, usual(), k, s.counted()) {
        Plan::Scan(ids) => {
            lemma_scan_owes(s, g, query, k, ids, f, r);
        },
        _ => {},
    }
}

} // verus!
