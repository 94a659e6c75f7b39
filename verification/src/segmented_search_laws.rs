//! What holds of every answer of the segmented index.

use vstd::prelude::*;
use crate::bruteforce::Brute;
use crate::catalog::numbers_ok;
use crate::hnsw_laws::{filtered_search_is_complete, lemma_ranked_distinct, search_is_truthful};
use crate::meta::{
    equalities, field, passes_id, values_that_share_a_key_are_equal, Condition, Fields,
};
use crate::numeric::orderly;
use crate::numerics::{prepared, Model};
use crate::planner::{
    exact_for, lemma_lists_exist, lemma_plan_distinct, lemma_range_distinct, matches_of, narrowest,
    plan_misses_no_match, planned, sound_numbers, usual, Plan, Source,
};
use crate::posting::{ascending, lemma_ascending_distinct};
use crate::rank::{first_k, lemma_ranked, lemma_smallest, ranked, sorted, Ranked};
use crate::segmented::{
    lemma_newest_part, lemma_newest_queued, newest_part, newest_queued, parts_live, parts_weight,
    queue_live, queue_weight, Part, Queued, Store,
};
use crate::segmented_search::{
    accepted, alive, alive_and_accepted, at_least, distinct, lemma_countable, lemma_parts_weight,
    lemma_queue_weight, lemma_size, lemma_unset, mentions, merged, parts_filtered, parts_found,
    parts_over, passing, queue_filtered, queue_found, wanted, widened,
};
use crate::types::{SearchResult, VectorId};

verus! {

impl Store {
    /// The result names a record that exists, with the distance of the record's
    /// vector from `v`.
    pub open spec fn vouches(self, g: Model, v: Seq<u32>, r: SearchResult) -> bool {
        &&& self.live(r.id)
        &&& self.vector(r.id) matches Some(w) && r.distance == (g.distance)(self.metric, v, w)
    }
}

/// Every result is vouched for, and passes.
pub open spec fn all_sound(
    s: Store,
    g: Model,
    v: Seq<u32>,
    rs: Seq<SearchResult>,
    p: spec_fn(VectorId) -> bool,
) -> bool {
    forall|i: int|
        0 <= i < rs.len() ==> s.vouches(g, v, #[trigger] rs[i]) && p(rs[i].id)
}

/// No condition.
pub open spec fn anything() -> spec_fn(VectorId) -> bool {
    |id: VectorId| true
}

pub proof fn lemma_part_vouches(s: Store, g: Model, v: Seq<u32>, i: int, r: SearchResult)
    requires
        s.coherent(),
        0 <= i < s.segments.len(),
        s.segments[i].live(r.id),
        r.distance == (g.distance)(
            s.metric,
            v,
            s.segments[i].index.vectors[s.segments[i].index.slot(r.id)],
        ),
    ensures
        s.vouches(g, v, r),
{
    let id = r.id;
    assert(parts_live(s.segments, id));
    lemma_newest_queued(s.sealing, id);
    lemma_newest_part(s.segments, id);
    let j = newest_part(s.segments, id)->0;
    assert(s.segments[j].live(id) && s.segments[i].live(id));
}

pub proof fn lemma_queued_vouches(s: Store, g: Model, v: Seq<u32>, i: int, r: SearchResult)
    requires
        s.coherent(),
        0 <= i < s.sealing.len(),
        s.sealing[i].live(r.id),
        r.distance == (g.distance)(
            s.metric,
            v,
            s.sealing[i].data.vectors[s.sealing[i].data.slot(r.id)],
        ),
    ensures
        s.vouches(g, v, r),
{
    let id = r.id;
    assert(queue_live(s.sealing, id));
    lemma_newest_queued(s.sealing, id);
    let j = newest_queued(s.sealing, id)->0;
    assert(s.sealing[j].live(id) && s.sealing[i].live(id));
}

/// An exact search reports the vectors that it compares.
proof fn lemma_brute_result(b: Brute, g: Model, v: Seq<u32>, s: int)
    requires
        b.valid(),
        0 <= s < b.ids.len(),
    ensures
        b.contains(b.result(g, v, s).id),
        b.result(g, v, s).distance == (g.distance)(
            b.metric,
            v,
            b.vectors[b.slot(b.result(g, v, s).id)],
        ),
{
    let id = b.ids[s];
    let t = b.slot(id);
    assert(b.ids[s] == id);
    assert(b.ids[t] == id);
}

proof fn lemma_brute_passing(
    b: Brute,
    g: Model,
    v: Seq<u32>,
    allow: spec_fn(VectorId) -> bool,
    n: int,
    r: SearchResult,
)
    requires
        b.valid(),
        0 <= n <= b.ids.len(),
        b.passing(g, v, allow, n).contains(r),
    ensures
        b.contains(r.id),
        allow(r.id),
        r.distance == (g.distance)(b.metric, v, b.vectors[b.slot(r.id)]),
    decreases n,
{
    let all = b.passing(g, v, allow, n);
    let i = choose|i: int| 0 <= i < all.len() && all[i] == r;
    if n > 0 {
        let t = b.passing(g, v, allow, n - 1);
        if i < t.len() {
            assert(t[i] == r);
            assert(t.contains(r));
            lemma_brute_passing(b, g, v, allow, n - 1, r);
        } else {
            lemma_brute_result(b, g, v, n - 1);
        }
    }
}

proof fn lemma_brute_found(b: Brute, g: Model, query: Seq<u32>, k: nat, i: int)
    requires
        b.valid(),
        0 <= i < b.found(g, query, k).len(),
    ensures
        b.contains(b.found(g, query, k)[i].id),
        b.found(g, query, k)[i].distance == (g.distance)(
            b.metric,
            prepared(g, b.metric, query),
            b.vectors[b.slot(b.found(g, query, k)[i].id)],
        ),
{
    let v = prepared(g, b.metric, query);
    let all = b.results(g, v, 0, b.ids.len() as int);
    let out = b.found(g, query, k);
    lemma_smallest(all, k);
    assert(out.contains(out[i]));
    assert(all.contains(out[i]));
    let s = choose|s: int| 0 <= s < all.len() && all[s] == out[i];
    lemma_brute_result(b, g, v, s);
}

pub proof fn lemma_brute_filtered(
    b: Brute,
    g: Model,
    query: Seq<u32>,
    k: nat,
    allow: spec_fn(VectorId) -> bool,
    i: int,
)
    requires
        b.valid(),
        0 <= i < b.filtered(g, query, k, allow).len(),
    ensures
        b.contains(b.filtered(g, query, k, allow)[i].id),
        allow(b.filtered(g, query, k, allow)[i].id),
        b.filtered(g, query, k, allow)[i].distance == (g.distance)(
            b.metric,
            prepared(g, b.metric, query),
            b.vectors[b.slot(b.filtered(g, query, k, allow)[i].id)],
        ),
{
    let v = prepared(g, b.metric, query);
    let n = b.ids.len() as int;
    let all = b.passing(g, v, allow, n);
    let out = b.filtered(g, query, k, allow);
    lemma_smallest(all, k);
    assert(out.contains(out[i]));
    lemma_brute_passing(b, g, v, allow, n, out[i]);
}

pub proof fn lemma_passing(s: Seq<SearchResult>, p: spec_fn(VectorId) -> bool, i: int)
    requires
        0 <= i < passing(s, p).len(),
    ensures
        p(passing(s, p)[i].id),
        s.contains(passing(s, p)[i]),
    decreases s.len(),
{
    let t = s.drop_last();
    let q = passing(t, p);
    if i < q.len() {
        lemma_passing(t, p, i);
        let j = choose|j: int| 0 <= j < t.len() && t[j] == q[i];
        assert(s[j] == q[i]);
    } else {
        assert(s[s.len() - 1] == s.last());
    }
}

/// The first result of each id: nothing new, no id twice, and none left out.
pub proof fn lemma_distinct(s: Seq<SearchResult>)
    requires
        sorted(s),
    ensures
        forall|i: int| 0 <= i < distinct(s).len() ==> s.contains(#[trigger] distinct(s)[i]),
        forall|i: int, j: int|
            0 <= i < j < distinct(s).len() ==> (#[trigger] distinct(s)[i]).id != (
            #[trigger] distinct(s)[j]).id,
        forall|i: int| 0 <= i < s.len() ==> mentions(distinct(s), (#[trigger] s[i]).id),
        sorted(distinct(s)),
        distinct(s).len() <= s.len(),
    decreases s.len(),
{
    if s.len() > 0 {
        let t = s.drop_last();
        let d = distinct(t);
        let e = distinct(s);
        let last = s.last();
        assert forall|i: int, j: int| 0 <= i <= j < t.len() implies (#[trigger] t[i]).key() <= (
        #[trigger] t[j]).key() by {
            assert(t[i] == s[i] && t[j] == s[j]);
        }
        lemma_distinct(t);
        assert(last == s[s.len() - 1]);
        assert forall|i: int| 0 <= i < d.len() implies s.contains(#[trigger] d[i])
            && d[i].key() <= last.key() by {
            assert(t.contains(d[i]));
            let j = choose|j: int| 0 <= j < t.len() && t[j] == d[i];
            assert(s[j] == d[i]);
        }
        assert forall|i: int| 0 <= i < e.len() implies s.contains(#[trigger] e[i]) by {
            if i < d.len() {
                assert(e[i] == d[i]);
            }
        }
        assert forall|i: int, j: int| 0 <= i < j < e.len() implies (#[trigger] e[i]).id != (
        #[trigger] e[j]).id by {
            assert(e[i] == d[i]);
            if j < d.len() {
                assert(e[j] == d[j]);
            }
        }
        assert forall|i: int| 0 <= i < s.len() implies mentions(e, (#[trigger] s[i]).id) by {
            if i < t.len() {
                assert(t[i] == s[i]);
                assert(mentions(d, t[i].id));
                let j = choose|j: int| 0 <= j < d.len() && (#[trigger] d[j]).id == t[i].id;
                assert(e[j].id == s[i].id);
            } else if !mentions(d, last.id) {
                assert(e[d.len() as int].id == last.id);
            }
        }
        assert forall|i: int, j: int| 0 <= i <= j < e.len() implies (#[trigger] e[i]).key() <= (
        #[trigger] e[j]).key() by {
            if j < d.len() {
                assert(e[i] == d[i] && e[j] == d[j]);
            } else if i < d.len() {
                assert(e[i] == d[i]);
            }
        }
    }
}

/// In ascending order of distance, no id twice.
pub open spec fn in_order(rs: Seq<SearchResult>) -> bool {
    &&& sorted(rs)
    &&& forall|i: int, j: int|
        0 <= i < j < rs.len() ==> (#[trigger] rs[i]).id != (#[trigger] rs[j]).id
}

pub proof fn lemma_merged(
    s: Store,
    g: Model,
    v: Seq<u32>,
    all: Seq<SearchResult>,
    p: spec_fn(VectorId) -> bool,
    k: nat,
)
    requires
        all_sound(s, g, v, all, p),
    ensures
        all_sound(s, g, v, first_k(merged(all), k), p),
        in_order(first_k(merged(all), k)),
        first_k(merged(all), k).len() <= k,
        all_sound(s, g, v, merged(all), p),
{
    let r = ranked(all);
    lemma_ranked(all);
    lemma_distinct(r);
    let m = merged(all);
    assert forall|i: int| 0 <= i < m.len() implies s.vouches(g, v, #[trigger] m[i])
        && p(m[i].id) by {
        assert(r.contains(m[i]));
        assert(all.contains(m[i]));
        let j = choose|j: int| 0 <= j < all.len() && all[j] == m[i];
        assert(s.vouches(g, v, all[j]));
    }
}

pub proof fn lemma_sound_sum(
    s: Store,
    g: Model,
    v: Seq<u32>,
    a: Seq<SearchResult>,
    b: Seq<SearchResult>,
    p: spec_fn(VectorId) -> bool,
)
    requires
        all_sound(s, g, v, a, p),
        all_sound(s, g, v, b, p),
    ensures
        all_sound(s, g, v, a + b, p),
{
    let c = a + b;
    assert forall|i: int| 0 <= i < c.len() implies s.vouches(g, v, #[trigger] c[i])
        && p(c[i].id) by {
        if i < a.len() {
            assert(c[i] == a[i]);
        } else {
            assert(c[i] == b[i - a.len()]);
        }
    }
}

proof fn lemma_parts_found(s: Store, g: Model, query: Seq<u32>, k: nat, ef: nat, n: int)
    requires
        s.valid(),
        s.coherent(),
        0 <= n <= s.segments.len(),
    ensures
        all_sound(
            s,
            g,
            prepared(g, s.metric, query),
            parts_found(s.segments.take(n), g, query, k, ef),
            anything(),
        ),
    decreases n,
{
    if n > 0 {
        lemma_parts_found(s, g, query, k, ef, n - 1);
        let t = s.segments.take(n);
        let p = s.segments[n - 1];
        let v = prepared(g, s.metric, query);
        assert(t.drop_last() =~= s.segments.take(n - 1));
        assert(t.last() == p);
        assert(s.part_fits(p));
        let want = wanted(k, p.dead.len());
        let width = at_least(ef, want);
        let found = p.index.found(g, query, want, width);
        search_is_truthful(p.index, g, query, want, width);
        let rs = passing(found, alive(p.dead));
        assert forall|i: int| 0 <= i < rs.len() implies s.vouches(g, v, #[trigger] rs[i])
            && anything()(rs[i].id) by {
            lemma_passing(found, alive(p.dead), i);
            let j = choose|j: int| 0 <= j < found.len() && found[j] == rs[i];
            assert(p.index.contains(found[j].id));
            lemma_part_vouches(s, g, v, n - 1, rs[i]);
        }
        lemma_sound_sum(
            s,
            g,
            v,
            parts_found(s.segments.take(n - 1), g, query, k, ef),
            rs,
            anything(),
        );
    }
}

proof fn lemma_queue_found(s: Store, g: Model, query: Seq<u32>, k: nat, n: int)
    requires
        s.valid(),
        s.coherent(),
        0 <= n <= s.sealing.len(),
    ensures
        all_sound(
            s,
            g,
            prepared(g, s.metric, query),
            queue_found(s.sealing.take(n), g, query, k),
            anything(),
        ),
    decreases n,
{
    if n > 0 {
        lemma_queue_found(s, g, query, k, n - 1);
        let t = s.sealing.take(n);
        let q = s.sealing[n - 1];
        let v = prepared(g, s.metric, query);
        assert(t.drop_last() =~= s.sealing.take(n - 1));
        assert(t.last() == q);
        assert(s.queued_fits(q));
        let found = q.data.found(g, query, wanted(k, q.dead.len()));
        let rs = passing(found, alive(q.dead));
        assert forall|i: int| 0 <= i < rs.len() implies s.vouches(g, v, #[trigger] rs[i])
            && anything()(rs[i].id) by {
            lemma_passing(found, alive(q.dead), i);
            let j = choose|j: int| 0 <= j < found.len() && found[j] == rs[i];
            lemma_brute_found(q.data, g, query, wanted(k, q.dead.len()), j);
            lemma_queued_vouches(s, g, v, n - 1, rs[i]);
        }
        lemma_sound_sum(
            s,
            g,
            v,
            queue_found(s.sealing.take(n - 1), g, query, k),
            rs,
            anything(),
        );
    }
}

/// A search returns at most `k` results in ascending order of distance. Each of
/// them is a record that exists, named once, with its true distance: a deleted
/// record is never found, wherever it lived and whatever was going on.
pub proof fn search_finds_only_records(s: Store, g: Model, query: Seq<u32>, k: nat, ef: nat)
    requires
        s.valid(),
        s.coherent(),
    ensures
        s.found(g, query, k, ef).len() <= k,
        in_order(s.found(g, query, k, ef)),
        forall|i: int|
            0 <= i < s.found(g, query, k, ef).len() ==> s.vouches(
                g,
                prepared(g, s.metric, query),
                #[trigger] s.found(g, query, k, ef)[i],
            ),
{
    if k > 0 {
        let v = prepared(g, s.metric, query);
        let a = parts_found(s.segments, g, query, k, ef);
        let b = queue_found(s.sealing, g, query, k);
        let c = s.buffer.found(g, query, k);
        lemma_all_found(s, g, query, k, ef);
        lemma_merged(s, g, v, a + b + c, anything(), k);
    }
}

pub proof fn lemma_parts_over(
    s: Store,
    g: Model,
    query: Seq<u32>,
    width: nat,
    f: Seq<Condition>,
    n: int,
)
    requires
        s.valid(),
        s.coherent(),
        0 <= n <= s.segments.len(),
    ensures
        all_sound(
            s,
            g,
            prepared(g, s.metric, query),
            parts_over(s.segments.take(n), g, query, width, f, s.records.meta),
            accepted(f, s.records.meta),
        ),
    decreases n,
{
    if n > 0 {
        lemma_parts_over(s, g, query, width, f, n - 1);
        let meta = s.records.meta;
        let ok = accepted(f, meta);
        let t = s.segments.take(n);
        let p = s.segments[n - 1];
        let v = prepared(g, s.metric, query);
        assert(t.drop_last() =~= s.segments.take(n - 1));
        assert(t.last() == p);
        assert(s.part_fits(p));
        let found = p.index.found(g, query, width, width);
        search_is_truthful(p.index, g, query, width, width);
        let both = alive_and_accepted(p.dead, f, meta);
        let rs = passing(found, both);
        assert forall|i: int| 0 <= i < rs.len() implies s.vouches(g, v, #[trigger] rs[i])
            && ok(rs[i].id) by {
            lemma_passing(found, both, i);
            let j = choose|j: int| 0 <= j < found.len() && found[j] == rs[i];
            assert(p.index.contains(found[j].id));
            lemma_part_vouches(s, g, v, n - 1, rs[i]);
        }
        lemma_sound_sum(
            s,
            g,
            v,
            parts_over(s.segments.take(n - 1), g, query, width, f, meta),
            rs,
            ok,
        );
    }
}

pub proof fn lemma_parts_filtered(
    s: Store,
    g: Model,
    query: Seq<u32>,
    k: nat,
    ef: nat,
    f: Seq<Condition>,
    n: int,
)
    requires
        s.valid(),
        s.coherent(),
        0 <= n <= s.segments.len(),
    ensures
        all_sound(
            s,
            g,
            prepared(g, s.metric, query),
            parts_filtered(s.segments.take(n), g, query, k, ef, f, s.records.meta),
            accepted(f, s.records.meta),
        ),
    decreases n,
{
    if n > 0 {
        lemma_parts_filtered(s, g, query, k, ef, f, n - 1);
        let meta = s.records.meta;
        let ok = accepted(f, meta);
        let t = s.segments.take(n);
        let p = s.segments[n - 1];
        let v = prepared(g, s.metric, query);
        assert(t.drop_last() =~= s.segments.take(n - 1));
        assert(t.last() == p);
        assert(s.part_fits(p));
        let want = widened(k, p.dead.len());
        let width = at_least(ef, want);
        let both = alive_and_accepted(p.dead, f, meta);
        let rs = p.index.filtered(g, query, want, width, both, None).0;
        filtered_search_is_complete(p.index, g, query, want, width, both);
        assert forall|i: int| 0 <= i < rs.len() implies s.vouches(g, v, #[trigger] rs[i])
            && ok(rs[i].id) by {
            assert(both(rs[i].id));
            assert(p.index.contains(rs[i].id));
            lemma_part_vouches(s, g, v, n - 1, rs[i]);
        }
        lemma_sound_sum(
            s,
            g,
            v,
            parts_filtered(s.segments.take(n - 1), g, query, k, ef, f, meta),
            rs,
            ok,
        );
    }
}

pub proof fn lemma_queue_filtered(
    s: Store,
    g: Model,
    query: Seq<u32>,
    k: nat,
    f: Seq<Condition>,
    n: int,
)
    requires
        s.valid(),
        s.coherent(),
        0 <= n <= s.sealing.len(),
    ensures
        all_sound(
            s,
            g,
            prepared(g, s.metric, query),
            queue_filtered(s.sealing.take(n), g, query, k, f, s.records.meta),
            accepted(f, s.records.meta),
        ),
    decreases n,
{
    if n > 0 {
        lemma_queue_filtered(s, g, query, k, f, n - 1);
        let meta = s.records.meta;
        let ok = accepted(f, meta);
        let t = s.sealing.take(n);
        let q = s.sealing[n - 1];
        let v = prepared(g, s.metric, query);
        assert(t.drop_last() =~= s.sealing.take(n - 1));
        assert(t.last() == q);
        assert(s.queued_fits(q));
        let both = alive_and_accepted(q.dead, f, meta);
        let rs = q.data.filtered(g, query, k, both);
        assert forall|i: int| 0 <= i < rs.len() implies s.vouches(g, v, #[trigger] rs[i])
            && ok(rs[i].id) by {
            lemma_brute_filtered(q.data, g, query, k, both, i);
            lemma_queued_vouches(s, g, v, n - 1, rs[i]);
        }
        lemma_sound_sum(
            s,
            g,
            v,
            queue_filtered(s.sealing.take(n - 1), g, query, k, f, meta),
            rs,
            ok,
        );
    }
}

proof fn lemma_scanned(
    s: Store,
    g: Model,
    v: Seq<u32>,
    ids: Seq<VectorId>,
    f: Seq<Condition>,
)
    requires
        s.valid(),
    ensures
        all_sound(s, g, v, s.scanned(g, v, ids, f), accepted(f, s.records.meta)),
        forall|id: VectorId, w: Seq<u32>|
            ids.contains(id) && #[trigger] s.vector(id) == Some(w) && passes_id(
                f,
                s.records.meta,
                id,
            ) ==> s.scanned(g, v, ids, f).contains(
                (SearchResult { id, distance: #[trigger] (g.distance)(s.metric, v, w) }),
            ),
        ids.no_duplicates() ==> forall|i: int, j: int|
            0 <= i < j < s.scanned(g, v, ids, f).len() ==> (#[trigger] s.scanned(g, v, ids, f)[i]).id
                != (#[trigger] s.scanned(g, v, ids, f)[j]).id,
        forall|i: int|
            0 <= i < s.scanned(g, v, ids, f).len() ==> ids.contains(
                (#[trigger] s.scanned(g, v, ids, f)[i]).id,
            ),
    decreases ids.len(),
{
    let rs = s.scanned(g, v, ids, f);
    let ok = accepted(f, s.records.meta);
    if ids.len() > 0 {
        let t = ids.drop_last();
        let id = ids.last();
        let rest = s.scanned(g, v, t, f);
        lemma_scanned(s, g, v, t, f);
        lemma_newest_queued(s.sealing, id);
        lemma_newest_part(s.segments, id);
        assert(id == ids[ids.len() - 1]);
        assert forall|i: int| 0 <= i < rs.len() implies s.vouches(g, v, #[trigger] rs[i])
            && ok(rs[i].id) && ids.contains(rs[i].id) by {
            if i < rest.len() {
                assert(rs[i] == rest[i]);
                assert(t.contains(rest[i].id));
                let j = choose|j: int| 0 <= j < t.len() && t[j] == rest[i].id;
                assert(ids[j] == rest[i].id);
            }
        }
        assert forall|y: VectorId, w: Seq<u32>|
            ids.contains(y) && #[trigger] s.vector(y) == Some(w) && passes_id(
                f,
                s.records.meta,
                y,
            ) implies rs.contains(
            (SearchResult { id: y, distance: #[trigger] (g.distance)(s.metric, v, w) }),
        ) by {
            let r = SearchResult { id: y, distance: (g.distance)(s.metric, v, w) };
            if y == id {
                assert(rs[rest.len() as int] == r);
            } else {
                let j = choose|j: int| 0 <= j < ids.len() && ids[j] == y;
                assert(t[j] == y);
                assert(t.contains(y));
                assert(rest.contains(r));
                let i = choose|i: int| 0 <= i < rest.len() && rest[i] == r;
                assert(rs[i] == r);
            }
        }
        if ids.no_duplicates() {
            assert(t.no_duplicates());
            assert forall|i: int, j: int| 0 <= i < j < rs.len() implies (#[trigger] rs[i]).id != (
            #[trigger] rs[j]).id by {
                assert(rs[i] == rest[i]);
                if j < rest.len() {
                    assert(rs[j] == rest[j]);
                } else {
                    assert(t.contains(rest[i].id));
                    let a = choose|a: int| 0 <= a < t.len() && t[a] == rest[i].id;
                    assert(ids[a] == rest[i].id);
                    assert(ids[a] != ids[ids.len() - 1]);
                }
            }
        }
    }
}

proof fn lemma_scan(
    s: Store,
    g: Model,
    query: Seq<u32>,
    k: nat,
    ids: Seq<VectorId>,
    f: Seq<Condition>,
)
    requires
        s.valid(),
    ensures
        all_sound(
            s,
            g,
            prepared(g, s.metric, query),
            s.scan(g, query, k, ids, f),
            accepted(f, s.records.meta),
        ),
        sorted(s.scan(g, query, k, ids, f)),
        s.scan(g, query, k, ids, f).len() <= k,
{
    let v = prepared(g, s.metric, query);
    let all = s.scanned(g, v, ids, f);
    let out = s.scan(g, query, k, ids, f);
    let ok = accepted(f, s.records.meta);
    lemma_scanned(s, g, v, ids, f);
    lemma_smallest(all, k);
    assert forall|i: int| 0 <= i < out.len() implies s.vouches(g, v, #[trigger] out[i])
        && ok(out[i].id) by {
        assert(out.contains(out[i]));
        assert(all.contains(out[i]));
        let j = choose|j: int| 0 <= j < all.len() && all[j] == out[i];
        assert(s.vouches(g, v, all[j]));
    }
}

/// What is among the candidates is among the results, or the results are full
/// and no farther.
pub proof fn lemma_merged_keeps(
    s: Store,
    g: Model,
    v: Seq<u32>,
    all: Seq<SearchResult>,
    k: nat,
    r: SearchResult,
)
    requires
        k > 0,
        all_sound(s, g, v, all, anything()),
        s.vouches(g, v, r),
        all.contains(r),
    ensures
        ({
            let out = first_k(merged(all), k);
            out.contains(r) || (out.len() == k && out.last().key() <= r.key())
        }),
{
    let sortd = ranked(all);
    let m = merged(all);
    let out = first_k(m, k);
    lemma_ranked(all);
    lemma_distinct(sortd);
    lemma_merged(s, g, v, all, anything(), k);
    assert(sortd.contains(r));
    let i = choose|i: int| 0 <= i < sortd.len() && sortd[i] == r;
    assert(mentions(m, sortd[i].id));
    let j = choose|j: int| 0 <= j < m.len() && (#[trigger] m[j]).id == r.id;
    assert(s.vouches(g, v, m[j]));
    assert(m[j] == r);
    if j < k {
        assert(out[j] == r);
    } else {
        assert(out.last() == m[k - 1]);
        assert(m[k - 1].key() <= m[j].key());
    }
}

/// What is among the answers of a part, and is not among the nearest `k`, is
/// farther than all of them.
pub proof fn lemma_passing_keeps(s: Seq<SearchResult>, p: spec_fn(VectorId) -> bool, r: SearchResult)
    requires
        s.contains(r),
        p(r.id),
    ensures
        passing(s, p).contains(r),
    decreases s.len(),
{
    let t = s.drop_last();
    let i = choose|i: int| 0 <= i < s.len() && s[i] == r;
    if i < s.len() - 1 {
        assert(t[i] == r);
        lemma_passing_keeps(t, p, r);
        let q = passing(t, p);
        let j = choose|j: int| 0 <= j < q.len() && q[j] == r;
        assert(passing(s, p)[j] == r);
    } else {
        let q = passing(s, p);
        assert(q[q.len() - 1] == r);
    }
}

pub proof fn lemma_all_found(s: Store, g: Model, query: Seq<u32>, k: nat, ef: nat)
    requires
        s.valid(),
        s.coherent(),
    ensures
        all_sound(
            s,
            g,
            prepared(g, s.metric, query),
            parts_found(s.segments, g, query, k, ef) + queue_found(s.sealing, g, query, k)
                + s.buffer.found(g, query, k),
            anything(),
        ),
{
    let v = prepared(g, s.metric, query);
    let a = parts_found(s.segments, g, query, k, ef);
    let b = queue_found(s.sealing, g, query, k);
    let c = s.buffer.found(g, query, k);
    lemma_parts_found(s, g, query, k, ef, s.segments.len() as int);
    lemma_queue_found(s, g, query, k, s.sealing.len() as int);
    assert(s.segments.take(s.segments.len() as int) =~= s.segments);
    assert(s.sealing.take(s.sealing.len() as int) =~= s.sealing);
    assert forall|i: int| 0 <= i < c.len() implies s.vouches(g, v, #[trigger] c[i])
        && anything()(c[i].id) by {
        lemma_brute_found(s.buffer, g, query, k, i);
    }
    lemma_sound_sum(s, g, v, a, b, anything());
    lemma_sound_sum(s, g, v, a + b, c, anything());
}

/// Where there are `k` candidates that are no farther than a result, the results
/// are full and no farther.
pub proof fn lemma_full(
    s: Store,
    g: Model,
    v: Seq<u32>,
    all: Seq<SearchResult>,
    own: Seq<SearchResult>,
    k: nat,
    r: SearchResult,
)
    requires
        k > 0,
        all_sound(s, g, v, all, anything()),
        own.len() >= k,
        forall|j: int| 0 <= j < own.len() ==> all.contains(#[trigger] own[j]) && own[j].key()
            <= r.key(),
        forall|i: int, j: int|
            0 <= i < j < own.len() ==> (#[trigger] own[i]).id != (#[trigger] own[j]).id,
    ensures
        ({
            let out = first_k(merged(all), k);
            out.len() == k && out.last().key() <= r.key()
        }),
{
    let sortd = ranked(all);
    let m = merged(all);
    let out = first_k(m, k);
    lemma_ranked(all);
    lemma_distinct(sortd);
    lemma_merged(s, g, v, all, anything(), k);
    let place = |j: int| choose|i: int| 0 <= i < m.len() && (#[trigger] m[i]).id == own[j].id;
    let places = Seq::new(own.len(), place);
    assert forall|j: int| 0 <= j < own.len() implies 0 <= (#[trigger] places[j]) < m.len()
        && m[places[j]] == own[j] by {
        assert(all.contains(own[j]));
        assert(sortd.contains(own[j]));
        let i = choose|i: int| 0 <= i < sortd.len() && sortd[i] == own[j];
        assert(mentions(m, sortd[i].id));
        assert(0 <= places[j] < m.len() && m[places[j]].id == own[j].id);
        assert(s.vouches(g, v, m[places[j]]));
        let t = choose|t: int| 0 <= t < all.len() && all[t] == own[j];
        assert(s.vouches(g, v, all[t]));
    }
    if m.len() < k || m[k - 1].key() > r.key() {
        let bound = if m.len() < k {
            m.len() as int
        } else {
            k - 1
        };
        assert forall|j: int| 0 <= j < own.len() implies 0 <= (#[trigger] places[j]) < bound by {
            assert(m[places[j]] == own[j]);
            if m.len() >= k && places[j] >= k - 1 {
                assert(m[k - 1].key() <= m[places[j]].key());
            }
        }
        assert(places.no_duplicates()) by {
            assert forall|i: int, j: int|
                0 <= i < places.len() && 0 <= j < places.len() && i != j implies places[i]
                != places[j] by {
                assert(m[places[i]] == own[i] && m[places[j]] == own[j]);
                if i < j {
                    assert(own[i].id != own[j].id);
                } else {
                    assert(own[j].id != own[i].id);
                }
            }
        }
        places.unique_seq_to_set();
        vstd::set_lib::lemma_int_range(0, bound);
        let range = vstd::set_lib::set_int_range(0, bound);
        assert(places.to_set().subset_of(range));
        vstd::set_lib::lemma_len_subset(places.to_set(), range);
    } else {
        assert(out.last() == m[k - 1]);
    }
}

/// The answer of a queued buffer is among the answers of the queue.
proof fn lemma_queue_part(qs: Seq<Queued>, g: Model, query: Seq<u32>, k: nat, i: int)
    requires
        0 <= i < qs.len(),
    ensures
        forall|y: SearchResult| #[trigger]
            passing(
                qs[i].data.found(g, query, wanted(k, qs[i].dead.len())),
                alive(qs[i].dead),
            ).contains(y) ==> queue_found(qs, g, query, k).contains(y),
    decreases qs.len(),
{
    let t = qs.drop_last();
    let q = qs[i];
    let own = passing(q.data.found(g, query, wanted(k, q.dead.len())), alive(q.dead));
    let before = queue_found(t, g, query, k);
    let all = queue_found(qs, g, query, k);
    if i < qs.len() - 1 {
        assert(t[i] == q);
        lemma_queue_part(t, g, query, k, i);
    }
    assert forall|y: SearchResult| #[trigger] own.contains(y) implies all.contains(y) by {
        if i < qs.len() - 1 {
            assert(before.contains(y));
            let j = choose|j: int| 0 <= j < before.len() && before[j] == y;
            assert(all[j] == y);
        } else {
            let j = choose|j: int| 0 <= j < own.len() && own[j] == y;
            assert(all[before.len() + j] == y);
        }
    }
}

/// An exact search names no id twice.
pub proof fn lemma_brute_distinct(b: Brute, g: Model, query: Seq<u32>, k: nat)
    requires
        b.valid(),
    ensures
        forall|i: int, j: int|
            0 <= i < j < b.found(g, query, k).len() ==> (#[trigger] b.found(g, query, k)[i]).id != (
            #[trigger] b.found(g, query, k)[j]).id,
{
    let v = prepared(g, b.metric, query);
    let all = b.results(g, v, 0, b.ids.len() as int);
    let r = ranked(all);
    let out = b.found(g, query, k);
    lemma_ranked(all);
    assert(all.no_duplicates()) by {
        assert forall|i: int, j: int|
            0 <= i < all.len() && 0 <= j < all.len() && i != j implies all[i] != all[j] by {
            assert(all[i].id == b.ids[i] && all[j].id == b.ids[j]);
        }
    }
    all.lemma_multiset_has_no_duplicates();
    r.lemma_multiset_has_no_duplicates_conv();
    lemma_smallest(all, k);
    assert forall|i: int, j: int| 0 <= i < j < out.len() implies (#[trigger] out[i]).id != (
    #[trigger] out[j]).id by {
        assert(out[i] == r[i] && out[j] == r[j]);
        assert(r[i] != r[j]);
        assert(out.contains(out[i]) && out.contains(out[j]));
        assert(all.contains(out[i]) && all.contains(out[j]));
        let a = choose|a: int| 0 <= a < all.len() && all[a] == out[i];
        let c = choose|c: int| 0 <= c < all.len() && all[c] == out[j];
        assert(all[a].id == b.ids[a] && all[c].id == b.ids[c]);
        if out[i].id == out[j].id {
            assert(a == c);
        }
    }
}

/// The ids of the results that are dead.
spec fn dropped(s: Seq<SearchResult>, dead: Seq<VectorId>) -> Seq<VectorId>
    decreases s.len(),
{
    if s.len() == 0 {
        Seq::empty()
    } else if dead.contains(s.last().id) {
        dropped(s.drop_last(), dead).push(s.last().id)
    } else {
        dropped(s.drop_last(), dead)
    }
}

proof fn lemma_dropped(s: Seq<SearchResult>, dead: Seq<VectorId>)
    requires
        forall|i: int, j: int|
            0 <= i < j < s.len() ==> (#[trigger] s[i]).id != (#[trigger] s[j]).id,
    ensures
        dropped(s, dead).len() + passing(s, alive(dead)).len() == s.len(),
        dropped(s, dead).no_duplicates(),
        forall|i: int| 0 <= i < dropped(s, dead).len() ==> dead.contains(
            #[trigger] dropped(s, dead)[i],
        ) && mentions(s, dropped(s, dead)[i]),
        forall|i: int, j: int|
            0 <= i < j < passing(s, alive(dead)).len() ==> (
            #[trigger] passing(s, alive(dead))[i]).id != (#[trigger] passing(s, alive(dead))[j]).id,
        forall|i: int| 0 <= i < passing(s, alive(dead)).len() ==> mentions(
            s,
            (#[trigger] passing(s, alive(dead))[i]).id,
        ),
    decreases s.len(),
{
    if s.len() > 0 {
        let t = s.drop_last();
        let n = s.len() - 1;
        lemma_dropped(t, dead);
        assert(!mentions(t, s[n].id)) by {
            if mentions(t, s[n].id) {
                let i = choose|i: int| 0 <= i < t.len() && (#[trigger] t[i]).id == s[n].id;
                assert(s[i].id != s[n].id);
            }
        }
        assert forall|id: VectorId| mentions(t, id) implies mentions(s, id) by {
            let i = choose|i: int| 0 <= i < t.len() && (#[trigger] t[i]).id == id;
            assert(s[i].id == id);
        }
        assert(mentions(s, s[n].id));
        let d = dropped(s, dead);
        let e = dropped(t, dead);
        let p = passing(s, alive(dead));
        let q = passing(t, alive(dead));
        assert forall|i: int| 0 <= i < d.len() implies dead.contains(#[trigger] d[i]) && mentions(
            s,
            d[i],
        ) by {
            if i < e.len() {
                assert(d[i] == e[i]);
            }
        }
        assert forall|i: int, j: int| 0 <= i < d.len() && 0 <= j < d.len() && i != j implies d[i]
            != d[j] by {
            if i < e.len() {
                assert(d[i] == e[i]);
            }
            if j < e.len() {
                assert(d[j] == e[j]);
            }
        }
        assert forall|i: int, j: int| 0 <= i < j < p.len() implies (#[trigger] p[i]).id != (
        #[trigger] p[j]).id by {
            assert(p[i] == q[i]);
            if j < q.len() {
                assert(p[j] == q[j]);
            }
        }
        assert forall|i: int| 0 <= i < p.len() implies mentions(s, (#[trigger] p[i]).id) by {
            if i < q.len() {
                assert(p[i] == q[i]);
            }
        }
    }
}

/// What is left of a list when the dead are dropped: all but as many as are
/// dead, each id once.
pub proof fn lemma_enough_alive(dead: Seq<VectorId>, raw: Seq<SearchResult>)
    requires
        ascending(dead),
        forall|i: int, j: int|
            0 <= i < j < raw.len() ==> (#[trigger] raw[i]).id != (#[trigger] raw[j]).id,
    ensures
        passing(raw, alive(dead)).len() >= raw.len() - dead.len(),
        forall|i: int, j: int|
            0 <= i < j < passing(raw, alive(dead)).len() ==> (
            #[trigger] passing(raw, alive(dead))[i]).id != (
            #[trigger] passing(raw, alive(dead))[j]).id,
{
    let d = dropped(raw, dead);
    lemma_dropped(raw, dead);
    d.unique_seq_to_set();
    lemma_ascending_distinct(dead);
    dead.unique_seq_to_set();
    assert(d.to_set().subset_of(dead.to_set())) by {
        assert forall|id: VectorId| d.to_set().contains(id) implies dead.to_set().contains(id) by {
            assert(d.contains(id));
            let i = choose|i: int| 0 <= i < d.len() && d[i] == id;
            assert(dead.contains(d[i]));
        }
    }
    vstd::set_lib::lemma_len_subset(d.to_set(), dead.to_set());
}

/// An exact search for as many results as there are finds all.
proof fn lemma_brute_all(b: Brute, g: Model, query: Seq<u32>, k: nat, s: int)
    requires
        b.ids.len() <= k,
        0 <= s < b.ids.len(),
    ensures
        b.found(g, query, k).contains(b.result(g, prepared(g, b.metric, query), s)),
{
    let v = prepared(g, b.metric, query);
    let all = b.results(g, v, 0, b.ids.len() as int);
    lemma_ranked(all);
    assert(b.found(g, query, k) =~= ranked(all));
    assert(all[s] == b.result(g, v, s));
    assert(all.contains(all[s]));
}

/// A queued buffer has no more slots than the index.
proof fn lemma_queued_slots(s: Store, i: int)
    requires
        s.valid(),
        0 <= i < s.sealing.len(),
    ensures
        s.sealing[i].data.ids.len() <= s.slots(),
{
    lemma_queue_weight(s, i);
    lemma_queue_weight(s, i + 1);
    lemma_countable(s);
    lemma_parts_weight(s, s.segments.len() as int);
    let t = s.sealing.take(i + 1);
    assert(t.drop_last() =~= s.sealing.take(i));
    assert(t.last() == s.sealing[i]);
    assert(s.segments.take(s.segments.len() as int) =~= s.segments);
}

/// The answer of a segment is among the answers of the segments.
pub proof fn lemma_part_part(ps: Seq<Part>, g: Model, query: Seq<u32>, k: nat, ef: nat, i: int)
    requires
        0 <= i < ps.len(),
    ensures
        forall|y: SearchResult| #[trigger]
            live_hits(ps[i], g, query, k, ef).contains(y) ==> parts_found(
                ps,
                g,
                query,
                k,
                ef,
            ).contains(y),
    decreases ps.len(),
{
    let t = ps.drop_last();
    let own = live_hits(ps[i], g, query, k, ef);
    let before = parts_found(t, g, query, k, ef);
    let all = parts_found(ps, g, query, k, ef);
    if i < ps.len() - 1 {
        assert(t[i] == ps[i]);
        lemma_part_part(t, g, query, k, ef, i);
    }
    assert forall|y: SearchResult| #[trigger] own.contains(y) implies all.contains(y) by {
        if i < ps.len() - 1 {
            assert(before.contains(y));
            let j = choose|j: int| 0 <= j < before.len() && before[j] == y;
            assert(all[j] == y);
        } else {
            let j = choose|j: int| 0 <= j < own.len() && own[j] == y;
            assert(all[before.len() + j] == y);
        }
    }
}

/// What the graph of a segment finds, dead or alive, when `k` live records are
/// sought.
pub open spec fn raw_hits(p: Part, g: Model, query: Seq<u32>, k: nat, ef: nat) -> Seq<
    SearchResult,
> {
    let want = wanted(k, p.dead.len());
    p.index.found(g, query, want, at_least(ef, want))
}

/// Those of them that live.
pub open spec fn live_hits(p: Part, g: Model, query: Seq<u32>, k: nat, ef: nat) -> Seq<
    SearchResult,
> {
    passing(raw_hits(p, g, query, k, ef), alive(p.dead))
}

/// Deleted records crowd out no others, however many there are. A live record
/// that the graph of a segment finds is among the results, or there are `k`
/// results that are no farther. At least `k` results come out, or as many as the
/// graph found live; and the graph finds no more dead than there are.
pub proof fn dead_records_crowd_out_no_others(
    s: Store,
    g: Model,
    query: Seq<u32>,
    k: nat,
    ef: nat,
    i: int,
    r: SearchResult,
)
    requires
        s.valid(),
        s.coherent(),
        k > 0,
        0 <= i < s.segments.len(),
    ensures
        ({
            let out = s.found(g, query, k, ef);
            let p = s.segments[i];
            let hits = live_hits(p, g, query, k, ef);
            &&& hits.len() >= raw_hits(p, g, query, k, ef).len() - p.dead.len()
            &&& out.len() >= (if hits.len() < k {
                hits.len()
            } else {
                k
            })
            &&& hits.contains(r) ==> out.contains(r) || (out.len() == k && out.last().key()
                <= r.key())
        }),
{
    let v = prepared(g, s.metric, query);
    let a = parts_found(s.segments, g, query, k, ef);
    let b = queue_found(s.sealing, g, query, k);
    let c = s.buffer.found(g, query, k);
    let all = a + b + c;
    let p = s.segments[i];
    assert(s.part_fits(p));
    let want = wanted(k, p.dead.len());
    let raw = raw_hits(p, g, query, k, ef);
    let hits = live_hits(p, g, query, k, ef);
    search_is_truthful(p.index, g, query, want, at_least(ef, want));
    lemma_enough_alive(p.dead, raw);
    lemma_all_found(s, g, query, k, ef);
    lemma_part_part(s.segments, g, query, k, ef, i);
    assert forall|y: SearchResult| hits.contains(y) implies #[trigger] all.contains(y) by {
        assert(a.contains(y));
        let j = choose|j: int| 0 <= j < a.len() && a[j] == y;
        assert(all[j] == y);
    }
    if hits.contains(r) {
        assert(all.contains(r));
        let j = choose|j: int| 0 <= j < all.len() && all[j] == r;
        assert(s.vouches(g, v, all[j]));
        lemma_merged_keeps(s, g, v, all, k, r);
    }
    let most = if hits.len() < k {
        hits.len()
    } else {
        k
    };
    if most > 0 {
        let far = ranked(hits);
        lemma_ranked(hits);
        assert forall|j: int| 0 <= j < hits.len() implies all.contains(#[trigger] hits[j])
            && hits[j].key() <= far.last().key() by {
            assert(hits.contains(hits[j]));
            assert(far.contains(hits[j]));
            let a = choose|a: int| 0 <= a < far.len() && far[a] == hits[j];
            assert(far[a].key() <= far[far.len() - 1].key());
        }
        lemma_full(s, g, v, all, hits, most, far.last());
        assert(first_k(merged(all), most).len() == most);
    }
}

/// A record that is still in the buffer is found exactly: it is among the
/// results, or there are `k` results that are no farther. So a record can be
/// found from the moment it was inserted.
pub proof fn buffered_record_is_found(
    s: Store,
    g: Model,
    query: Seq<u32>,
    k: nat,
    ef: nat,
    x: VectorId,
)
    requires
        s.valid(),
        s.coherent(),
        k > 0,
        s.buffer.contains(x),
    ensures
        ({
            let out = s.found(g, query, k, ef);
            let r = SearchResult {
                id: x,
                distance: (g.distance)(
                    s.metric,
                    prepared(g, s.metric, query),
                    s.vector(x)->0,
                ),
            };
            out.contains(r) || (out.len() == k && out.last().key() <= r.key())
        }),
{
    let v = prepared(g, s.metric, query);
    let a = parts_found(s.segments, g, query, k, ef);
    let b = queue_found(s.sealing, g, query, k);
    let c = s.buffer.found(g, query, k);
    let slot = s.buffer.slot(x);
    let r = SearchResult { id: x, distance: (g.distance)(s.metric, v, s.vector(x)->0) };
    let w = choose|w: int| 0 <= w < s.buffer.ids.len() && s.buffer.ids[w] == x;
    assert(s.buffer.ids[w] == x);
    crate::bruteforce::search_is_exact(s.buffer, g, query, k, slot);
    assert(r == s.buffer.result(g, v, slot));
    lemma_all_found(s, g, query, k, ef);
    let all = a + b + c;
    if c.contains(r) {
        let j = choose|j: int| 0 <= j < c.len() && c[j] == r;
        assert(all[a.len() + b.len() + j] == r);
        lemma_merged_keeps(s, g, v, all, k, r);
    } else {
        lemma_brute_distinct(s.buffer, g, query, k);
        assert forall|j: int| 0 <= j < c.len() implies all.contains(#[trigger] c[j]) && c[j].key()
            <= r.key() by {
            assert(all[a.len() + b.len() + j] == c[j]);
            assert(c[j].key() <= c.last().key());
        }
        lemma_full(s, g, v, all, c, k, r);
    }
}

/// A record in the queue is found exactly, however many records of its buffer
/// were deleted since: so sealing hides nothing.
pub proof fn queued_record_is_found(
    s: Store,
    g: Model,
    query: Seq<u32>,
    k: nat,
    ef: nat,
    i: int,
    x: VectorId,
)
    requires
        s.valid(),
        s.coherent(),
        k > 0,
        0 <= i < s.sealing.len(),
        s.sealing[i].live(x),
    ensures
        ({
            let out = s.found(g, query, k, ef);
            let r = SearchResult {
                id: x,
                distance: (g.distance)(
                    s.metric,
                    prepared(g, s.metric, query),
                    s.vector(x)->0,
                ),
            };
            out.contains(r) || (out.len() == k && out.last().key() <= r.key())
        }),
{
    let v = prepared(g, s.metric, query);
    let a = parts_found(s.segments, g, query, k, ef);
    let b = queue_found(s.sealing, g, query, k);
    let c = s.buffer.found(g, query, k);
    let q = s.sealing[i];
    assert(s.queued_fits(q));
    let slot = q.data.slot(x);
    let w = choose|w: int| 0 <= w < q.data.ids.len() && q.data.ids[w] == x;
    assert(q.data.ids[w] == x);
    let r = q.data.result(g, v, slot);
    lemma_queued_vouches(s, g, v, i, r);
    let want = wanted(k, q.dead.len());
    let raw = q.data.found(g, query, want);
    let own = passing(raw, alive(q.dead));
    crate::bruteforce::search_is_exact(q.data, g, query, want, slot);
    lemma_all_found(s, g, query, k, ef);
    let all = a + b + c;
    lemma_queue_part(s.sealing, g, query, k, i);
    assert forall|y: SearchResult| own.contains(y) implies all.contains(y) by {
        assert(b.contains(y));
        let j = choose|j: int| 0 <= j < b.len() && b[j] == y;
        assert(all[a.len() + j] == y);
    }
    if raw.contains(r) {
        lemma_passing_keeps(raw, alive(q.dead), r);
        lemma_merged_keeps(s, g, v, all, k, r);
    } else {
        lemma_queued_slots(s, i);
        if want >= q.data.ids.len() {
            lemma_brute_all(q.data, g, query, want, slot);
        }
        lemma_brute_distinct(q.data, g, query, want);
        lemma_enough_alive(q.dead, raw);
        assert forall|j: int| 0 <= j < own.len() implies (#[trigger] own[j]).key() <= r.key() by {
            lemma_passing(raw, alive(q.dead), j);
            let t = choose|t: int| 0 <= t < raw.len() && raw[t] == own[j];
            assert(raw[t].key() <= raw.last().key());
        }
        lemma_full(s, g, v, all, own, k, r);
    }
}

/// The ids that live in a segment are as many as its weight.
proof fn lemma_part_ids(p: Part)
    requires
        p.index.valid(),
        ascending(p.dead),
        forall|id: VectorId| #[trigger] p.dead.contains(id) ==> p.index.contains(id),
    ensures
        Set::new(|id: VectorId| p.live(id)).finite(),
        Set::new(|id: VectorId| p.live(id)).len() == p.weight(),
{
    let h = p.index;
    let unset = Set::new(|i: int| 0 <= i < h.deleted.len() && !h.deleted[i]);
    let f = |i: int| h.ids[i];
    let held = unset.map(f);
    let dead = p.dead.to_set();
    let alive = Set::new(|id: VectorId| p.live(id));
    lemma_unset(h.deleted);
    assert forall|a: int, b: int| unset.contains(a) && unset.contains(b) && #[trigger] f(a)
        == #[trigger] f(b) implies a == b by {
        assert(h.ids[a] == h.ids[b]);
    }
    vstd::set_lib::lemma_map_size(unset, held, f);
    assert forall|id: VectorId| #[trigger] held.contains(id) <==> h.contains(id) by {
        if h.contains(id) {
            let i = h.slot(id);
            assert(unset.contains(i) && f(i) == id);
        }
    }
    lemma_ascending_distinct(p.dead);
    p.dead.unique_seq_to_set();
    assert forall|id: VectorId| #[trigger] dead.contains(id) implies held.contains(id) by {
        assert(p.dead.contains(id));
    }
    assert(alive.subset_of(held));
    vstd::set_lib::lemma_len_subset(alive, held);
    vstd::set_lib::lemma_set_disjoint_lens(alive, dead);
    assert(alive + dead =~= held);
}

proof fn lemma_queued_ids(q: Queued)
    requires
        q.data.valid(),
        ascending(q.dead),
        forall|id: VectorId| #[trigger] q.dead.contains(id) ==> q.data.contains(id),
    ensures
        Set::new(|id: VectorId| q.live(id)).finite(),
        Set::new(|id: VectorId| q.live(id)).len() == q.weight(),
{
    let held = q.data.ids.to_set();
    let dead = q.dead.to_set();
    let alive = Set::new(|id: VectorId| q.live(id));
    q.data.ids.unique_seq_to_set();
    lemma_ascending_distinct(q.dead);
    q.dead.unique_seq_to_set();
    assert forall|id: VectorId| #[trigger] dead.contains(id) implies held.contains(id) by {
        assert(q.dead.contains(id));
        assert(q.data.ids.contains(id));
    }
    assert(alive.subset_of(held));
    vstd::set_lib::lemma_len_subset(alive, held);
    vstd::set_lib::lemma_set_disjoint_lens(alive, dead);
    assert(alive + dead =~= held);
}

proof fn lemma_parts_ids(s: Store, n: int)
    requires
        s.valid(),
        0 <= n <= s.segments.len(),
    ensures
        Set::new(|id: VectorId| parts_live(s.segments.take(n), id)).finite(),
        Set::new(|id: VectorId| parts_live(s.segments.take(n), id)).len() <= parts_weight(
            s.segments.take(n),
        ),
        s.coherent() ==> Set::new(|id: VectorId| parts_live(s.segments.take(n), id)).len()
            == parts_weight(s.segments.take(n)),
    decreases n,
{
    let t = s.segments.take(n);
    let all = Set::new(|id: VectorId| parts_live(t, id));
    if n == 0 {
        assert(all =~= Set::empty());
    } else {
        let u = s.segments.take(n - 1);
        let p = s.segments[n - 1];
        lemma_parts_ids(s, n - 1);
        assert(s.part_fits(p));
        lemma_part_ids(p);
        assert(t.drop_last() =~= u);
        assert(t.last() == p);
        let before = Set::new(|id: VectorId| parts_live(u, id));
        let here = Set::new(|id: VectorId| p.live(id));
        assert forall|id: VectorId| #[trigger] all.contains(id) <==> before.contains(id)
            || here.contains(id) by {
            if parts_live(t, id) {
                let i = choose|i: int| 0 <= i < t.len() && (#[trigger] t[i]).live(id);
                if i < n - 1 {
                    assert(u[i].live(id));
                }
            }
            if parts_live(u, id) {
                let i = choose|i: int| 0 <= i < u.len() && (#[trigger] u[i]).live(id);
                assert(t[i].live(id));
            }
            if p.live(id) {
                assert(t[n - 1].live(id));
            }
        }
        assert(all =~= before.union(here));
        vstd::set_lib::lemma_len_union(before, here);
        if s.coherent() {
            assert(before.disjoint(here)) by {
                assert forall|id: VectorId| before.contains(id) && here.contains(id) implies false by {
                    let i = choose|i: int| 0 <= i < u.len() && (#[trigger] u[i]).live(id);
                    assert(s.segments[i].live(id) && s.segments[n - 1].live(id));
                }
            }
            vstd::set_lib::lemma_set_disjoint_lens(before, here);
        }
    }
}

proof fn lemma_queue_ids(s: Store, n: int)
    requires
        s.valid(),
        0 <= n <= s.sealing.len(),
    ensures
        Set::new(|id: VectorId| queue_live(s.sealing.take(n), id)).finite(),
        Set::new(|id: VectorId| queue_live(s.sealing.take(n), id)).len() <= queue_weight(
            s.sealing.take(n),
        ),
        s.coherent() ==> Set::new(|id: VectorId| queue_live(s.sealing.take(n), id)).len()
            == queue_weight(s.sealing.take(n)),
    decreases n,
{
    let t = s.sealing.take(n);
    let all = Set::new(|id: VectorId| queue_live(t, id));
    if n == 0 {
        assert(all =~= Set::empty());
    } else {
        let u = s.sealing.take(n - 1);
        let q = s.sealing[n - 1];
        lemma_queue_ids(s, n - 1);
        assert(s.queued_fits(q));
        lemma_queued_ids(q);
        assert(t.drop_last() =~= u);
        assert(t.last() == q);
        let before = Set::new(|id: VectorId| queue_live(u, id));
        let here = Set::new(|id: VectorId| q.live(id));
        assert forall|id: VectorId| #[trigger] all.contains(id) <==> before.contains(id)
            || here.contains(id) by {
            if queue_live(t, id) {
                let i = choose|i: int| 0 <= i < t.len() && (#[trigger] t[i]).live(id);
                if i < n - 1 {
                    assert(u[i].live(id));
                }
            }
            if queue_live(u, id) {
                let i = choose|i: int| 0 <= i < u.len() && (#[trigger] u[i]).live(id);
                assert(t[i].live(id));
            }
            if q.live(id) {
                assert(t[n - 1].live(id));
            }
        }
        assert(all =~= before.union(here));
        vstd::set_lib::lemma_len_union(before, here);
        if s.coherent() {
            assert(before.disjoint(here)) by {
                assert forall|id: VectorId| before.contains(id) && here.contains(id) implies false by {
                    let i = choose|i: int| 0 <= i < u.len() && (#[trigger] u[i]).live(id);
                    assert(s.sealing[i].live(id) && s.sealing[n - 1].live(id));
                }
            }
            vstd::set_lib::lemma_set_disjoint_lens(before, here);
        }
    }
}

/// The number of records that the index reports is that of the ids that live.
/// It is never smaller, even where a record should live in more than one place.
pub proof fn reported_size_counts_every_record(s: Store)
    requires
        s.valid(),
    ensures
        Set::new(|id: VectorId| s.live(id)).finite(),
        Set::new(|id: VectorId| s.live(id)).len() <= s.size(),
        s.coherent() ==> Set::new(|id: VectorId| s.live(id)).len() == s.size(),
{
    let n = s.segments.len() as int;
    let m = s.sealing.len() as int;
    lemma_parts_ids(s, n);
    lemma_queue_ids(s, m);
    assert(s.segments.take(n) =~= s.segments);
    assert(s.sealing.take(m) =~= s.sealing);
    let a = Set::new(|id: VectorId| parts_live(s.segments, id));
    let b = Set::new(|id: VectorId| queue_live(s.sealing, id));
    let c = s.buffer.ids.to_set();
    s.buffer.ids.unique_seq_to_set();
    vstd::set_lib::lemma_len_union(a, b);
    vstd::set_lib::lemma_len_union(a.union(b), c);
    assert(Set::new(|id: VectorId| s.live(id)) =~= a.union(b).union(c));
    if s.coherent() {
        assert(a.disjoint(b));
        assert(a.union(b).disjoint(c)) by {
            assert forall|id: VectorId| a.union(b).contains(id) && c.contains(id) implies false by {
                assert(s.buffer.contains(id));
            }
        }
        vstd::set_lib::lemma_set_disjoint_lens(a, b);
        vstd::set_lib::lemma_set_disjoint_lens(a.union(b), c);
    }
}

/// Where the posting list of the only condition is as long as the index, every
/// record passes: leaving the filter out changes nothing.
pub proof fn void_filter_is_passed_by_every_record(s: Store, f: Seq<Condition>, x: VectorId)
    requires
        s.valid(),
        s.described(),
        s.records.meta.dom().finite(),
        s.filter_is_void(f),
        s.live(x),
    ensures
        passes_id(f, s.records.meta, x),
{
    let meta = s.records.meta;
    assert(f.drop_last().len() == 0);
    assert(equalities(f.drop_last()) =~= Seq::empty());
    match f[0] {
        Condition::Range { .. } => {
            assert(equalities(f).len() == 0);
        },
        Condition::Eq { key, value } => {
            let eqs = equalities(f);
            assert(eqs =~= seq![(key, value.key())]);
            assert(eqs.drop_last() =~= Seq::empty());
            assert(narrowest(meta, eqs.drop_last()) is None);
            let list = matches_of(meta, key, value.key());
            lemma_lists_exist(meta, key, value.key());
            assert(narrowest(meta, eqs) == Some(list));
            let all = Set::new(|id: VectorId| s.live(id));
            let posted_ids = list.to_set();
            reported_size_counts_every_record(s);
            lemma_countable(s);
            lemma_size(s);
            lemma_ascending_distinct(list);
            list.unique_seq_to_set();
            assert forall|id: VectorId| #[trigger] posted_ids.contains(id) implies all.contains(
                id,
            ) by {
                assert(list.contains(id));
                assert(meta.contains_key(id.0));
            }
            vstd::set_lib::lemma_len_subset(posted_ids, all);
            vstd::set_lib::lemma_subset_equality(posted_ids, all);
            assert(all.contains(x));
            assert(list.contains(x));
            let v = field(meta[x.0], key)->0;
            values_that_share_a_key_are_equal(v, value);
            assert(f[0].holds(meta[x.0]));
        },
    }
}

/// A filtered search returns at most `k` results in ascending order of distance.
/// Each is a record that exists, with its true distance, and passes the filter.
pub proof fn filtered_search_finds_only_matches(
    s: Store,
    g: Model,
    query: Seq<u32>,
    k: nat,
    f: Seq<Condition>,
)
    requires
        s.valid(),
        s.coherent(),
        s.described(),
        s.records.meta.dom().finite(),
    ensures
        s.filtered(g, query, k, f).len() <= k,
        sorted(s.filtered(g, query, k, f)),
        forall|i: int|
            0 <= i < s.filtered(g, query, k, f).len() ==> {
                let r = #[trigger] s.filtered(g, query, k, f)[i];
                s.vouches(g, prepared(g, s.metric, query), r) && passes_id(f, s.records.meta, r.id)
            },
{
    let meta = s.records.meta;
    let ef = s.params.ef_search as nat;
    let v = prepared(g, s.metric, query);
    let ok = accepted(f, meta);
    if f.len() == 0 {
        search_finds_only_records(s, g, query, k, ef);
    } else if k > 0 && s.filter_is_void(f) {
        search_finds_only_records(s, g, query, k, ef);
        let out = s.found(g, query, k, ef);
        assert forall|i: int| 0 <= i < out.len() implies passes_id(
            f,
            meta,
            (#[trigger] out[i]).id,
        ) by {
            assert(s.vouches(g, v, out[i]));
            void_filter_is_passed_by_every_record(s, f, out[i].id);
        }
    } else if k > 0 {
        let n = s.sealing.len() as int;
        let m = s.segments.len() as int;
        assert(s.segments.take(m) =~= s.segments);
        assert(s.sealing.take(n) =~= s.sealing);
        let b = queue_filtered(s.sealing, g, query, k, f, meta);
        let c = s.buffer.filtered(g, query, k, ok);
        lemma_queue_filtered(s, g, query, k, f, n);
        assert forall|i: int| 0 <= i < c.len() implies s.vouches(g, v, #[trigger] c[i]) && ok(
            c[i].id,
        ) by {
            lemma_brute_filtered(s.buffer, g, query, k, ok, i);
        }
        match planned(s.records, g, f, usual(), k, s.counted()) {
            Plan::Empty => {},
            Plan::Scan(ids) => {
                lemma_scan(s, g, query, k, ids, f);
            },
            Plan::Post { upper, fallback } => {
                let a = parts_over(s.segments, g, query, s.width(g, k, upper), f, meta);
                lemma_parts_over(s, g, query, s.width(g, k, upper), f, m);
                lemma_sound_sum(s, g, v, a, b, ok);
                lemma_sound_sum(s, g, v, a + b, c, ok);
                lemma_merged(s, g, v, a + b + c, ok, k);
                lemma_scan(s, g, query, k, s.candidates(fallback), f);
            },
            Plan::Legacy => {
                let a = parts_filtered(s.segments, g, query, k, ef, f, meta);
                lemma_parts_filtered(s, g, query, k, ef, f, m);
                lemma_sound_sum(s, g, v, a, b, ok);
                lemma_sound_sum(s, g, v, a + b, c, ok);
                lemma_merged(s, g, v, a + b + c, ok, k);
            },
        }
    }
}

/// A scan is exact: a candidate that lives and passes is among the results, or
/// there are `k` results that are no farther.
pub proof fn scan_is_exact(
    s: Store,
    g: Model,
    query: Seq<u32>,
    k: nat,
    ids: Seq<VectorId>,
    f: Seq<Condition>,
    x: VectorId,
    w: Seq<u32>,
)
    requires
        s.valid(),
        ids.contains(x),
        s.vector(x) == Some(w),
        passes_id(f, s.records.meta, x),
    ensures
        ({
            let out = s.scan(g, query, k, ids, f);
            let r = SearchResult {
                id: x,
                distance: (g.distance)(s.metric, prepared(g, s.metric, query), w),
            };
            out.contains(r) || (out.len() == k && (k > 0 ==> out.last().key() <= r.key()))
        }),
{
    let v = prepared(g, s.metric, query);
    lemma_scanned(s, g, v, ids, f);
    lemma_smallest(s.scanned(g, v, ids, f), k);
    let d = (g.distance)(s.metric, v, w);
    assert(s.scanned(g, v, ids, f).contains(SearchResult { id: x, distance: d }));
}

/// Where the plan is a scan, the filtered search is exact: a record that passes
/// is among the results, or there are `k` results that are no farther.
///
/// Left out are comparisons of integers that doubles do not hold exactly.
pub proof fn planned_scan_is_exact(
    s: Store,
    g: Model,
    query: Seq<u32>,
    k: nat,
    f: Seq<Condition>,
    x: VectorId,
    w: Seq<u32>,
)
    requires
        s.valid(),
        orderly(g),
        s.records.meta.dom().finite(),
        numbers_ok(s.records.numbers, s.records.meta),
        sound_numbers(s.records),
        f.len() > 0,
        k > 0,
        !s.filter_is_void(f),
        planned(s.records, g, f, usual(), k, s.counted()) is Scan || planned(
            s.records,
            g,
            f,
            usual(),
            k,
            s.counted(),
        ) is Empty,
        s.vector(x) == Some(w),
        passes_id(f, s.records.meta, x),
        forall|i: int| 0 <= i < f.len() ==> exact_for(#[trigger] f[i], s.records.meta[x.0]),
    ensures
        ({
            let out = s.filtered(g, query, k, f);
            let r = SearchResult {
                id: x,
                distance: (g.distance)(s.metric, prepared(g, s.metric, query), w),
            };
            out.contains(r) || (out.len() == k && out.last().key() <= r.key())
        }),
{
    plan_misses_no_match(s.records, g, f, usual(), k, s.counted(), x);
    match planned(s.records, g, f, usual(), k, s.counted()) {
        Plan::Scan(ids) => {
            scan_is_exact(s, g, query, k, ids, f, x, w);
        },
        _ => {},
    }
}

/// A filtered exact search names no id twice, and leaves out no record that
/// passes unless it is full.
pub proof fn lemma_brute_picks(
    b: Brute,
    g: Model,
    query: Seq<u32>,
    k: nat,
    allow: spec_fn(VectorId) -> bool,
    x: VectorId,
)
    requires
        b.valid(),
        b.contains(x),
        allow(x),
    ensures
        ({
            let out = b.filtered(g, query, k, allow);
            &&& forall|i: int, j: int|
                0 <= i < j < out.len() ==> (#[trigger] out[i]).id != (#[trigger] out[j]).id
            &&& out.len() >= k || out.contains(
                b.result(g, prepared(g, b.metric, query), b.slot(x)),
            )
        }),
{
    let v = prepared(g, b.metric, query);
    let n = b.ids.len() as int;
    let all = b.passing(g, v, allow, n);
    let r = ranked(all);
    let out = b.filtered(g, query, k, allow);
    let w = choose|w: int| 0 <= w < b.ids.len() && b.ids[w] == x;
    assert(b.ids[w] == x);
    lemma_brute_passing_places(b, g, v, allow, n);
    assert(all.no_duplicates()) by {
        assert forall|i: int, j: int|
            0 <= i < all.len() && 0 <= j < all.len() && i != j implies all[i] != all[j] by {
            if i < j {
                assert(all[i].id != all[j].id);
            } else {
                assert(all[j].id != all[i].id);
            }
        }
    }
    lemma_ranked(all);
    lemma_ranked_distinct(all);
    lemma_smallest(all, k);
    assert forall|i: int, j: int| 0 <= i < j < out.len() implies (#[trigger] out[i]).id != (
    #[trigger] out[j]).id by {
        assert(out[i] == r[i] && out[j] == r[j]);
        assert(r[i] != r[j]);
        assert(r.contains(r[i]) && r.contains(r[j]));
        assert(all.contains(r[i]) && all.contains(r[j]));
        let a = choose|a: int| 0 <= a < all.len() && all[a] == r[i];
        let c = choose|c: int| 0 <= c < all.len() && all[c] == r[j];
        if a < c {
            assert(all[a].id != all[c].id);
        } else {
            assert(all[c].id != all[a].id);
        }
    }
    assert(all.contains(b.result(g, v, b.slot(x))));
}

pub proof fn lemma_brute_passing_places(
    b: Brute,
    g: Model,
    v: Seq<u32>,
    allow: spec_fn(VectorId) -> bool,
    n: int,
)
    requires
        b.valid(),
        0 <= n <= b.ids.len(),
    ensures
        ({
            let all = b.passing(g, v, allow, n);
            &&& forall|i: int, j: int|
                0 <= i < j < all.len() ==> (#[trigger] all[i]).id != (#[trigger] all[j]).id
            &&& forall|i: int| 0 <= i < all.len() ==> b.ids.take(n).contains((#[trigger] all[i]).id)
            &&& forall|s: int|
                0 <= s < n && allow(b.ids[s]) ==> all.contains(#[trigger] b.result(g, v, s))
        }),
    decreases n,
{
    if n > 0 {
        lemma_brute_passing_places(b, g, v, allow, n - 1);
        let all = b.passing(g, v, allow, n);
        let t = b.passing(g, v, allow, n - 1);
        let ids = b.ids.take(n);
        assert(ids[n - 1] == b.ids[n - 1]);
        assert forall|i: int| 0 <= i < t.len() implies ids.contains((#[trigger] t[i]).id)
            && t[i].id != b.ids[n - 1] by {
            let before = b.ids.take(n - 1);
            assert(before.contains(t[i].id));
            let a = choose|a: int| 0 <= a < before.len() && before[a] == t[i].id;
            assert(ids[a] == t[i].id);
            assert(b.ids[a] != b.ids[n - 1]);
        }
        assert forall|i: int| 0 <= i < all.len() implies ids.contains((#[trigger] all[i]).id) by {
            if i < t.len() {
                assert(all[i] == t[i]);
            }
        }
        assert forall|i: int, j: int| 0 <= i < j < all.len() implies (#[trigger] all[i]).id != (
        #[trigger] all[j]).id by {
            assert(all[i] == t[i]);
            if j < t.len() {
                assert(all[j] == t[j]);
            }
        }
        assert forall|s: int| 0 <= s < n && allow(b.ids[s]) implies all.contains(
            #[trigger] b.result(g, v, s),
        ) by {
            if s < n - 1 {
                assert(t.contains(b.result(g, v, s)));
                let a = choose|a: int| 0 <= a < t.len() && t[a] == b.result(g, v, s);
                assert(all[a] == t[a]);
            } else {
                assert(all[all.len() - 1] == b.result(g, v, s));
            }
        }
    }
}

/// The answer of a segment is among the answers of the segments.
pub proof fn lemma_part_answers(
    ps: Seq<Part>,
    g: Model,
    query: Seq<u32>,
    k: nat,
    ef: nat,
    f: Seq<Condition>,
    meta: Map<u64, Fields>,
    i: int,
)
    requires
        0 <= i < ps.len(),
    ensures
        ({
            let want = widened(k, ps[i].dead.len());
            let own = ps[i].index.filtered(
                g,
                query,
                want,
                at_least(ef, want),
                alive_and_accepted(ps[i].dead, f, meta),
                None,
            ).0;
            forall|y: SearchResult| #[trigger]
                own.contains(y) ==> parts_filtered(ps, g, query, k, ef, f, meta).contains(y)
        }),
    decreases ps.len(),
{
    let t = ps.drop_last();
    let p = ps[i];
    let want = widened(k, p.dead.len());
    let own = p.index.filtered(
        g,
        query,
        want,
        at_least(ef, want),
        alive_and_accepted(p.dead, f, meta),
        None,
    ).0;
    let before = parts_filtered(t, g, query, k, ef, f, meta);
    let all = parts_filtered(ps, g, query, k, ef, f, meta);
    if i < ps.len() - 1 {
        assert(t[i] == p);
        lemma_part_answers(t, g, query, k, ef, f, meta, i);
    }
    assert forall|y: SearchResult| #[trigger] own.contains(y) implies all.contains(y) by {
        if i < ps.len() - 1 {
            assert(before.contains(y));
            let j = choose|j: int| 0 <= j < before.len() && before[j] == y;
            assert(all[j] == y);
        } else {
            let j = choose|j: int| 0 <= j < own.len() && own[j] == y;
            assert(all[before.len() + j] == y);
        }
    }
}

/// The answer of a queued buffer is among the answers of the queue.
pub proof fn lemma_queued_answers(
    qs: Seq<Queued>,
    g: Model,
    query: Seq<u32>,
    k: nat,
    f: Seq<Condition>,
    meta: Map<u64, Fields>,
    i: int,
)
    requires
        0 <= i < qs.len(),
    ensures
        forall|y: SearchResult| #[trigger]
            qs[i].data.filtered(g, query, k, alive_and_accepted(qs[i].dead, f, meta)).contains(y)
                ==> queue_filtered(qs, g, query, k, f, meta).contains(y),
    decreases qs.len(),
{
    let t = qs.drop_last();
    let q = qs[i];
    let own = q.data.filtered(g, query, k, alive_and_accepted(q.dead, f, meta));
    let before = queue_filtered(t, g, query, k, f, meta);
    let all = queue_filtered(qs, g, query, k, f, meta);
    if i < qs.len() - 1 {
        assert(t[i] == q);
        lemma_queued_answers(t, g, query, k, f, meta, i);
    }
    assert forall|y: SearchResult| #[trigger] own.contains(y) implies all.contains(y) by {
        if i < qs.len() - 1 {
            assert(before.contains(y));
            let j = choose|j: int| 0 <= j < before.len() && before[j] == y;
            assert(all[j] == y);
        } else {
            let j = choose|j: int| 0 <= j < own.len() && own[j] == y;
            assert(all[before.len() + j] == y);
        }
    }
}

/// Where one part of the index answers in full or names the record, so does
/// the merged answer.
proof fn lemma_short_answer(
    s: Store,
    g: Model,
    v: Seq<u32>,
    all: Seq<SearchResult>,
    own: Seq<SearchResult>,
    k: nat,
    r: SearchResult,
)
    requires
        k > 0,
        all_sound(s, g, v, all, anything()),
        s.vouches(g, v, r),
        forall|y: SearchResult| #[trigger] own.contains(y) ==> all.contains(y),
        forall|i: int, j: int|
            0 <= i < j < own.len() ==> (#[trigger] own[i]).id != (#[trigger] own[j]).id,
        own.len() >= k || own.contains(r),
    ensures
        first_k(merged(all), k).len() < k ==> first_k(merged(all), k).contains(r),
{
    if own.contains(r) {
        lemma_merged_keeps(s, g, v, all, k, r);
    } else {
        let far = ranked(own);
        lemma_ranked(own);
        assert forall|j: int| 0 <= j < own.len() implies all.contains(#[trigger] own[j])
            && own[j].key() <= far.last().key() by {
            assert(own.contains(own[j]));
            assert(far.contains(own[j]));
            let a = choose|a: int| 0 <= a < far.len() && far[a] == own[j];
            assert(far[a].key() <= far[far.len() - 1].key());
        }
        lemma_full(s, g, v, all, own, k, far.last());
    }
}

/// A filtered search that returns fewer than `k` results leaves out no record
/// that passes the filter.
///
/// Left out are comparisons of integers that doubles do not hold exactly, and a
/// filter that every record passes: the search is then the unfiltered one, and
/// a graph need not reach every record.
pub proof fn short_answer_leaves_out_no_match(
    s: Store,
    g: Model,
    query: Seq<u32>,
    k: nat,
    f: Seq<Condition>,
    x: VectorId,
    w: Seq<u32>,
)
    requires
        s.valid(),
        s.coherent(),
        orderly(g),
        s.records.meta.dom().finite(),
        numbers_ok(s.records.numbers, s.records.meta),
        sound_numbers(s.records),
        f.len() > 0,
        k <= usize::MAX,
        !s.filter_is_void(f),
        s.filtered(g, query, k, f).len() < k,
        s.vector(x) == Some(w),
        passes_id(f, s.records.meta, x),
        forall|i: int| 0 <= i < f.len() ==> exact_for(#[trigger] f[i], s.records.meta[x.0]),
    ensures
        s.filtered(g, query, k, f).contains(
            (SearchResult {
                id: x,
                distance: (g.distance)(s.metric, prepared(g, s.metric, query), w),
            }),
        ),
{
    let v = prepared(g, s.metric, query);
    plan_misses_no_match(s.records, g, f, usual(), k, s.counted(), x);
    match planned(s.records, g, f, usual(), k, s.counted()) {
        Plan::Empty => {},
        Plan::Scan(ids) => {
            scan_is_exact(s, g, query, k, ids, f, x, w);
        },
        Plan::Post { upper, fallback } => {
            scan_is_exact(s, g, query, k, s.candidates(fallback), f, x, w);
        },
        Plan::Legacy => {
            lemma_unplanned_answer(s, g, query, k, f, x, w);
        },
    }
}

/// Where nothing is known of the filter, each part applies it on its own.
proof fn lemma_unplanned_answer(
    s: Store,
    g: Model,
    query: Seq<u32>,
    k: nat,
    f: Seq<Condition>,
    x: VectorId,
    w: Seq<u32>,
)
    requires
        s.valid(),
        s.coherent(),
        0 < k <= usize::MAX,
        s.vector(x) == Some(w),
        passes_id(f, s.records.meta, x),
    ensures
        ({
            let ef = s.params.ef_search as nat;
            let meta = s.records.meta;
            let out = first_k(
                merged(
                    parts_filtered(s.segments, g, query, k, ef, f, meta) + queue_filtered(
                        s.sealing,
                        g,
                        query,
                        k,
                        f,
                        meta,
                    ) + s.buffer.filtered(g, query, k, accepted(f, meta)),
                ),
                k,
            );
            out.len() < k ==> out.contains(
                (SearchResult {
                    id: x,
                    distance: (g.distance)(s.metric, prepared(g, s.metric, query), w),
                }),
            )
        }),
{
    let ef = s.params.ef_search as nat;
    let meta = s.records.meta;
    let ok = accepted(f, meta);
    let v = prepared(g, s.metric, query);
    let r = SearchResult { id: x, distance: (g.distance)(s.metric, v, w) };
    let a = parts_filtered(s.segments, g, query, k, ef, f, meta);
    let b = queue_filtered(s.sealing, g, query, k, f, meta);
    let c = s.buffer.filtered(g, query, k, ok);
    let all = a + b + c;
    let n = s.sealing.len() as int;
    let m = s.segments.len() as int;
    assert(s.segments.take(m) =~= s.segments);
    assert(s.sealing.take(n) =~= s.sealing);
    lemma_parts_filtered(s, g, query, k, ef, f, m);
    lemma_queue_filtered(s, g, query, k, f, n);
    assert forall|i: int| 0 <= i < c.len() implies s.vouches(g, v, #[trigger] c[i]) && ok(
        c[i].id,
    ) by {
        lemma_brute_filtered(s.buffer, g, query, k, ok, i);
    }
    lemma_sound_sum(s, g, v, a, b, ok);
    lemma_sound_sum(s, g, v, a + b, c, ok);
    assert forall|i: int| 0 <= i < all.len() implies s.vouches(g, v, #[trigger] all[i])
        && anything()(all[i].id) by {
        assert(ok(all[i].id));
    }
    lemma_newest_queued(s.sealing, x);
    lemma_newest_part(s.segments, x);
    if s.buffer.contains(x) {
        lemma_brute_picks(s.buffer, g, query, k, ok, x);
        assert forall|y: SearchResult| #[trigger] c.contains(y) implies all.contains(y) by {
            let j = choose|j: int| 0 <= j < c.len() && c[j] == y;
            assert(all[a.len() + b.len() + j] == y);
        }
        assert(s.buffer.result(g, v, s.buffer.slot(x)) == r);
        lemma_short_answer(s, g, v, all, c, k, r);
    } else if newest_queued(s.sealing, x) is Some {
        let i = newest_queued(s.sealing, x)->0;
        let q = s.sealing[i];
        assert(s.queued_fits(q));
        let both = alive_and_accepted(q.dead, f, meta);
        let own = q.data.filtered(g, query, k, both);
        lemma_brute_picks(q.data, g, query, k, both, x);
        lemma_queued_answers(s.sealing, g, query, k, f, meta, i);
        assert forall|y: SearchResult| #[trigger] own.contains(y) implies all.contains(y) by {
            assert(b.contains(y));
            let j = choose|j: int| 0 <= j < b.len() && b[j] == y;
            assert(all[a.len() + j] == y);
        }
        assert(q.data.result(g, v, q.data.slot(x)) == r);
        lemma_queued_vouches(s, g, v, i, r);
        lemma_short_answer(s, g, v, all, own, k, r);
    } else {
        let i = newest_part(s.segments, x)->0;
        let p = s.segments[i];
        assert(s.part_fits(p));
        let want = widened(k, p.dead.len());
        let both = alive_and_accepted(p.dead, f, meta);
        let own = p.index.filtered(g, query, want, at_least(ef, want), both, None).0;
        filtered_search_is_complete(p.index, g, query, want, at_least(ef, want), both);
        lemma_part_answers(s.segments, g, query, k, ef, f, meta, i);
        assert forall|y: SearchResult| #[trigger] own.contains(y) implies all.contains(y) by {
            assert(a.contains(y));
            let j = choose|j: int| 0 <= j < a.len() && a[j] == y;
            assert(all[j] == y);
        }
        assert(p.index.contains(x) && both(x));
        lemma_part_vouches(s, g, v, i, r);
        lemma_short_answer(s, g, v, all, own, k, r);
    }
}

/// A filtered search names no id twice.
pub proof fn lemma_filtered_distinct(
    s: Store,
    g: Model,
    query: Seq<u32>,
    k: nat,
    f: Seq<Condition>,
)
    requires
        s.valid(),
        s.coherent(),
        s.records.meta.dom().finite(),
        numbers_ok(s.records.numbers, s.records.meta),
        sound_numbers(s.records),
    ensures
        forall|i: int, j: int|
            0 <= i < j < s.filtered(g, query, k, f).len() ==> (#[trigger] s.filtered(
                g,
                query,
                k,
                f,
            )[i]).id != (#[trigger] s.filtered(g, query, k, f)[j]).id,
{
    let ef = s.params.ef_search as nat;
    let meta = s.records.meta;
    if f.len() == 0 || (k > 0 && s.filter_is_void(f)) {
        search_finds_only_records(s, g, query, k, ef);
    } else if k > 0 {
        let b = queue_filtered(s.sealing, g, query, k, f, meta);
        let c = s.buffer.filtered(g, query, k, accepted(f, meta));
        lemma_plan_distinct(s.records, g, f, usual(), k, s.counted());
        match planned(s.records, g, f, usual(), k, s.counted()) {
            Plan::Empty => {},
            Plan::Scan(ids) => {
                lemma_scan_distinct(s, g, query, k, ids, f);
            },
            Plan::Post { upper, fallback } => {
                let all = parts_over(s.segments, g, query, s.width(g, k, upper), f, meta) + b + c;
                lemma_ranked(all);
                lemma_distinct(ranked(all));
                if let Source::Range { key, lo, hi } = fallback {
                    lemma_range_distinct(s.records, key, lo, hi);
                }
                lemma_scan_distinct(s, g, query, k, s.candidates(fallback), f);
            },
            Plan::Legacy => {
                let all = parts_filtered(s.segments, g, query, k, ef, f, meta) + b + c;
                lemma_ranked(all);
                lemma_distinct(ranked(all));
            },
        }
    }
}

/// A scan of distinct candidates names no id twice.
proof fn lemma_scan_distinct(
    s: Store,
    g: Model,
    query: Seq<u32>,
    k: nat,
    ids: Seq<VectorId>,
    f: Seq<Condition>,
)
    requires
        s.valid(),
        ids.no_duplicates(),
    ensures
        forall|i: int, j: int|
            0 <= i < j < s.scan(g, query, k, ids, f).len() ==> (#[trigger] s.scan(
                g,
                query,
                k,
                ids,
                f,
            )[i]).id != (#[trigger] s.scan(g, query, k, ids, f)[j]).id,
{
    let v = prepared(g, s.metric, query);
    let all = s.scanned(g, v, ids, f);
    let r = ranked(all);
    let out = s.scan(g, query, k, ids, f);
    lemma_scanned(s, g, v, ids, f);
    assert(all.no_duplicates()) by {
        assert forall|i: int, j: int|
            0 <= i < all.len() && 0 <= j < all.len() && i != j implies all[i] != all[j] by {
            if i < j {
                assert(all[i].id != all[j].id);
            } else {
                assert(all[j].id != all[i].id);
            }
        }
    }
    lemma_ranked(all);
    lemma_ranked_distinct(all);
    assert forall|i: int, j: int| 0 <= i < j < out.len() implies (#[trigger] out[i]).id != (
    #[trigger] out[j]).id by {
        assert(out[i] == r[i] && out[j] == r[j]);
        assert(r[i] != r[j]);
        assert(r.contains(r[i]) && r.contains(r[j]));
        assert(all.contains(r[i]) && all.contains(r[j]));
        let a = choose|a: int| 0 <= a < all.len() && all[a] == r[i];
        let c = choose|c: int| 0 <= c < all.len() && all[c] == r[j];
        if a < c {
            assert(all[a].id != all[c].id);
        } else {
            assert(all[c].id != all[a].id);
        }
    }
}

} // verus!
