//! What users of an index rely on, each promise in one piece.

use vstd::prelude::*;
use crate::bruteforce;
use crate::catalog::{
    entered, field_number, forgets, keeps, left, lemma_number_index_at, names_apart, number_index,
    numbers_ok, valued, Records,
};
use crate::distance::Metric;
use crate::durability_laws::blank;
use crate::graph::{count_set, lemma_count_none};
use crate::hnsw::{lemma_marked, lemma_rebuilt, Hnsw};
use crate::hnsw_laws::{deletion_keeps_well_built, search_is_truthful, well_built};
use crate::meta::{passes_id, Condition, Fields};
use crate::number::spec_ordered_bits;
use crate::numeric::{bounds_cover_every_value, lemma_entries_ordered, orderly, ordered, Numeric};
use crate::numerics::{prepared, Model};
use crate::planner::{exact_for, sound_numbers};
use crate::rank::{first_k, lemma_ranked, lemma_smallest, lemma_sorted_unique, ranked};
use crate::record::Operation;
use crate::recovery::after_log;
use crate::recovery_laws::{
    entry_after, entry_is_there_when_the_id_lives, in_turn, replay_restores_every_record, Entry,
};
use crate::segmented::{
    lemma_buffer_changed, lemma_records_changed, lemma_removed_valid, recorded, Store,
};
use crate::segmented_laws::{deletion_removes_one_record, insertion_adds_one_record};
use crate::segmented_search::{distinct, mentions, merged, parts_found, queue_found};
use crate::segmented_search_laws::{
    filtered_search_finds_only_matches, in_order, lemma_brute_distinct, lemma_filtered_distinct,
    reported_size_counts_every_record, search_finds_only_records, short_answer_leaves_out_no_match,
    void_filter_is_passed_by_every_record,
};
use crate::types::{SearchResult, VectorId};
use crate::vector_laws::other_vectors_stay;
use crate::wal::replayed;

verus! {

/// A numeric index is in order, and its bounds take in every value.
spec fn sound_index(n: Option<Numeric>) -> bool {
    n matches Some(i) ==> ordered(i.entries) && i.covered()
}

/// The numeric indexes stay in order, and their bounds go on taking in every
/// value, whatever record comes or goes. A new index has none.
pub proof fn numeric_indexes_stay_sound(
    before: Records,
    after: Records,
    g: Model,
    id: VectorId,
    m: Fields,
)
    requires
        orderly(g),
        sound_numbers(before),
        names_apart(after.numbers),
        keeps(before, after, g, id, m) || forgets(before, after, id),
    ensures
        sound_numbers(after),
{
    assert forall|p: int| 0 <= p < after.numbers.len() implies ordered(
        (#[trigger] after.numbers[p]).1.entries,
    ) && after.numbers[p].1.covered() by {
        let f = after.numbers[p].0;
        lemma_number_index_at(after.numbers, p);
        let n = number_index(before.numbers, f);
        assert(sound_index(n));
        let v = valued(before.meta, f, id);
        let l = left(n, v, id);
        if let (Some(i), Some(x)) = (n, v) {
            bounds_cover_every_value(g, i, x, id);
            lemma_entries_ordered(i.entries, spec_ordered_bits(x), id);
        }
        assert(sound_index(l));
        if let Some(x) = field_number(m, f) {
            let i = match l {
                Some(i) => i,
                None => Numeric::empty(),
            };
            bounds_cover_every_value(g, Numeric::empty(), x, id);
            bounds_cover_every_value(g, i, x, id);
            lemma_entries_ordered(i.entries, spec_ordered_bits(x), id);
        }
        assert(sound_index(entered(l, g, field_number(m, f), id)));
    }
}

/// The records that live and pass a filter.
pub open spec fn matching(s: Store, f: Seq<Condition>) -> Set<VectorId> {
    Set::new(|id: VectorId| s.live(id) && passes_id(f, s.records.meta, id))
}

/// The answer to a filtered search is full: `k` records that pass, or all of them
/// where there are fewer. They come in ascending order of distance, each once;
/// each lives, passes the filter, and has its true distance.
pub open spec fn full_answer(
    s: Store,
    g: Model,
    query: Seq<u32>,
    k: nat,
    f: Seq<Condition>,
    out: Seq<SearchResult>,
) -> bool {
    &&& matching(s, f).finite()
    &&& out.len() == (if matching(s, f).len() < k {
        matching(s, f).len()
    } else {
        k
    })
    &&& in_order(out)
    &&& forall|i: int|
        0 <= i < out.len() ==> matching(s, f).contains((#[trigger] out[i]).id) && s.vouches(
            g,
            prepared(g, s.metric, query),
            out[i],
        )
}

/// A filtered search answers in full.
///
/// Left out are comparisons of integers that doubles do not hold exactly, and a
/// filter that every record passes: the search is then the unfiltered one.
pub proof fn filtered_search_answers_in_full(
    s: Store,
    g: Model,
    query: Seq<u32>,
    k: nat,
    f: Seq<Condition>,
    y: VectorId,
)
    requires
        s.valid(),
        s.coherent(),
        s.described(),
        orderly(g),
        s.records.meta.dom().finite(),
        numbers_ok(s.records.numbers, s.records.meta),
        sound_numbers(s.records),
        f.len() > 0,
        0 < k <= usize::MAX,
        s.live(y),
        !passes_id(f, s.records.meta, y),
        forall|id: u64, i: int| #![trigger s.records.meta[id], f[i]]
            s.records.meta.contains_key(id) && 0 <= i < f.len() ==> exact_for(
                f[i],
                s.records.meta[id],
            ),
    ensures
        full_answer(s, g, query, k, f, s.filtered(g, query, k, f)),
{
    let meta = s.records.meta;
    let v = prepared(g, s.metric, query);
    let out = s.filtered(g, query, k, f);
    let all = matching(s, f);
    if s.filter_is_void(f) {
        void_filter_is_passed_by_every_record(s, f, y);
    }
    filtered_search_finds_only_matches(s, g, query, k, f);
    lemma_filtered_distinct(s, g, query, k, f);
    assert forall|i: int| 0 <= i < out.len() implies all.contains((#[trigger] out[i]).id) by {
        assert(s.vouches(g, v, out[i]));
    }
    let live = Set::new(|id: VectorId| s.live(id));
    reported_size_counts_every_record(s);
    assert(all.subset_of(live));
    vstd::set_lib::lemma_set_subset_finite(live, all);
    let ids = Seq::new(out.len(), |i: int| out[i].id);
    assert(ids.no_duplicates()) by {
        assert forall|i: int, j: int|
            0 <= i < ids.len() && 0 <= j < ids.len() && i != j implies ids[i] != ids[j] by {
            if i < j {
                assert(out[i].id != out[j].id);
            } else {
                assert(out[j].id != out[i].id);
            }
        }
    }
    ids.unique_seq_to_set();
    assert(ids.to_set().subset_of(all)) by {
        assert forall|id: VectorId| ids.to_set().contains(id) implies all.contains(id) by {
            let i = choose|i: int| 0 <= i < ids.len() && ids[i] == id;
            assert(all.contains(out[i].id));
        }
    }
    vstd::set_lib::lemma_len_subset(ids.to_set(), all);
    if out.len() < k {
        assert forall|id: VectorId| all.contains(id) implies ids.to_set().contains(id) by {
            entry_is_there_when_the_id_lives(s, id);
            let w = s.vector(id)->0;
            assert forall|i: int| 0 <= i < f.len() implies exact_for(
                #[trigger] f[i],
                meta[id.0],
            ) by {
                assert(meta.contains_key(id.0));
            }
            short_answer_leaves_out_no_match(s, g, query, k, f, id, w);
            let r = SearchResult { id, distance: (g.distance)(s.metric, v, w) };
            let i = choose|i: int| 0 <= i < out.len() && out[i] == r;
            assert(ids[i] == id);
        }
        assert(ids.to_set() =~= all);
    }
}

/// What names no id twice loses nothing when repeated ids are dropped.
proof fn lemma_already_distinct(s: Seq<SearchResult>)
    requires
        forall|i: int, j: int|
            0 <= i < j < s.len() ==> (#[trigger] s[i]).id != (#[trigger] s[j]).id,
    ensures
        distinct(s) == s,
    decreases s.len(),
{
    if s.len() > 0 {
        let t = s.drop_last();
        lemma_already_distinct(t);
        if mentions(t, s.last().id) {
            let i = choose|i: int| 0 <= i < t.len() && (#[trigger] t[i]).id == s.last().id;
            assert(s[i].id != s[s.len() - 1].id);
        }
        assert(t.push(s.last()) =~= s);
    }
}

/// As long as every record is in the buffer, a search is the exact one, whatever
/// its width: the nearest `k` records, or all where there are fewer, by distance
/// and then by id.
pub proof fn unsealed_search_is_exact(s: Store, g: Model, query: Seq<u32>, k: nat, ef: nat)
    requires
        s.valid(),
        s.coherent(),
        s.segments.len() == 0,
        s.sealing.len() == 0,
    ensures
        s.found(g, query, k, ef) == s.buffer.found(g, query, k),
        s.found(g, query, k, ef).len() == (if s.size() < k {
            s.size()
        } else {
            k as int
        }),
        in_order(s.found(g, query, k, ef)),
        forall|i: int|
            0 <= i < s.found(g, query, k, ef).len() ==> s.live(
                (#[trigger] s.found(g, query, k, ef)[i]).id,
            ),
{
    let b = s.buffer;
    let c = b.found(g, query, k);
    let v = prepared(g, b.metric, query);
    let all = b.results(g, v, 0, b.ids.len() as int);
    lemma_smallest(all, k);
    lemma_brute_distinct(b, g, query, k);
    search_finds_only_records(s, g, query, k, ef);
    if k == 0 {
        assert(c =~= Seq::empty());
    } else {
        let pool = parts_found(s.segments, g, query, k, ef) + queue_found(s.sealing, g, query, k)
            + c;
        assert(pool =~= c);
        lemma_ranked(c);
        lemma_sorted_unique(ranked(c), c);
        lemma_already_distinct(c);
        assert(first_k(merged(pool), k) =~= c);
    }
}

/// A deletion takes the record, and nothing else. The size falls by one, no
/// search returns the id, and it is not there to delete again; every other
/// record stays as it is. A later insertion of the id brings exactly the vector
/// and the fields that it is given: the old ones do not come back.
///
/// Here `t` is the index after the deletion, and `u` after the insertion.
pub proof fn deleted_record_does_not_come_back(
    s: Store,
    g: Model,
    id: VectorId,
    t: Store,
    query: Seq<u32>,
    k: nat,
    ef: nat,
    v: Seq<u32>,
    m: Fields,
    u: Store,
)
    requires
        s.valid(),
        s.coherent(),
        s.described(),
        s.live(id),
        t == (Store { records: t.records, ..s.removed(id) }),
        forgets(s.records, t.records, id),
        u == (Store { records: u.records, ..t.inserted(g, id, v) }),
        recorded(t.records, u.records, g, id, m),
    ensures
        t.valid(),
        t.coherent(),
        t.described(),
        t.size() == s.size() - 1,
        !t.live(id),
        forall|i: int|
            0 <= i < t.found(g, query, k, ef).len() ==> (#[trigger] t.found(g, query, k, ef)[i]).id
                != id,
        forall|x: VectorId| x != id ==> #[trigger] t.entry(x) == s.entry(x),
        u.entry(id) == Some(Entry { vector: prepared(g, s.metric, v), fields: m }),
        forall|x: VectorId| x != id ==> #[trigger] u.entry(x) == s.entry(x),
{
    let r = s.removed(id);
    if s.buffer.contains(id) {
        bruteforce::removal_takes_exactly_one_id(s.buffer, id, id);
        lemma_buffer_changed(s, s.buffer.removed(id));
    } else {
        lemma_removed_valid(s, id);
    }
    lemma_records_changed(r, t.records);
    deletion_removes_one_record(s, id, id);
    assert(t.coherent() == r.coherent());
    assert forall|x: VectorId| x != id implies #[trigger] t.entry(x) == s.entry(x) && t.live(x)
        == s.live(x) by {
        deletion_removes_one_record(s, id, x);
        assert(t.vector(x) == r.vector(x));
        assert(t.live(x) == r.live(x));
        assert(x.0 != id.0);
    }
    assert(t.live(id) == r.live(id));
    assert forall|x: VectorId| #[trigger] t.records.meta.contains_key(x.0) implies t.live(x) by {
        assert(x.0 != id.0);
        assert(s.records.meta.contains_key(x.0));
        assert(s.live(x));
        assert(t.entry(x) == s.entry(x));
        deletion_removes_one_record(s, id, x);
        assert(t.live(x) == r.live(x));
    }
    reported_size_counts_every_record(s);
    reported_size_counts_every_record(t);
    let a = Set::new(|x: VectorId| s.live(x));
    let b = Set::new(|x: VectorId| t.live(x));
    assert(b =~= a.remove(id)) by {
        assert forall|x: VectorId| #[trigger] b.contains(x) <==> a.remove(id).contains(x) by {
            deletion_removes_one_record(s, id, x);
            assert(t.live(x) == r.live(x));
        }
    }
    search_finds_only_records(t, g, query, k, ef);
    let found = t.found(g, query, k, ef);
    assert forall|i: int| 0 <= i < found.len() implies (#[trigger] found[i]).id != id by {
        assert(t.vouches(g, prepared(g, t.metric, query), found[i]));
    }
    let w = t.inserted(g, id, v);
    insertion_adds_one_record(t, g, id, v, id);
    assert(u.vector(id) == w.vector(id));
    assert(!t.records.meta.contains_key(id.0));
    if m.len() == 0 {
        assert(m =~= Seq::empty());
    }
    assert forall|x: VectorId| x != id implies #[trigger] u.entry(x) == s.entry(x) by {
        insertion_adds_one_record(t, g, id, v, x);
        assert(u.vector(x) == w.vector(x));
        assert(t.entry(x) == s.entry(x));
        assert(x.0 != id.0);
    }
}

/// The id is there after the first `n` operations of a log.
pub open spec fn there_after(ops: Seq<Operation>, id: VectorId, n: int) -> bool
    decreases n,
{
    if n <= 0 {
        false
    } else {
        match ops[n - 1] {
            Operation::Insert { id: x, .. } if x == id.0 => true,
            Operation::Delete { id: x } if x == id.0 => false,
            _ => there_after(ops, id, n - 1),
        }
    }
}

pub proof fn lemma_there_after(g: Model, metric: Metric, ops: Seq<Operation>, id: VectorId, n: int)
    ensures
        entry_after(None, g, metric, ops, id, n) is Some <==> there_after(ops, id, n),
    decreases n,
{
    if n > 0 {
        lemma_there_after(g, metric, ops, id, n - 1);
    }
}

/// What the bytes of a log alone restore: exactly the ids that its records leave
/// when they are applied in order, nothing lost and nothing extra, and as many
/// as the index counts. The bytes may end anywhere: what counts are the whole
/// records at their start.
pub proof fn log_alone_restores_its_ids(b: Store, g: Model, bytes: Seq<u8>)
    requires
        blank(b),
        g.sane(),
        replayed(bytes, 0).records.len() <= usize::MAX - b.slots(),
        replayed(bytes, 0).records.len() <= u64::MAX,
        forall|i: int|
            0 <= i < replayed(bytes, 0).records.len() ==> #[trigger] in_turn(
                b,
                g,
                replayed(bytes, 0).records,
                i,
            ),
    ensures
        ({
            let ops = replayed(bytes, 0).records;
            let ids = Set::new(|x: VectorId| there_after(ops, x, ops.len() as int));
            after_log(b, g, ops, ops.len() as int) matches Ok(t) && {
                &&& forall|x: VectorId| #[trigger]
                    t.live(x) <==> there_after(ops, x, ops.len() as int)
                &&& ids.finite()
                &&& t.size() == ids.len()
            }
        }),
{
    let ops = replayed(bytes, 0).records;
    let n = ops.len() as int;
    let ids = Set::new(|x: VectorId| there_after(ops, x, n));
    replay_restores_every_record(b, g, ops, n, VectorId(0));
    let t = after_log(b, g, ops, n)->Ok_0;
    assert forall|x: VectorId| #[trigger] t.live(x) <==> there_after(ops, x, n) by {
        replay_restores_every_record(b, g, ops, n, x);
        entry_is_there_when_the_id_lives(t, x);
        entry_is_there_when_the_id_lives(b, x);
        assert(!b.live(x));
        lemma_there_after(g, b.metric, ops, x, n);
    }
    reported_size_counts_every_record(t);
    assert(Set::new(|x: VectorId| t.live(x)) =~= ids);
}

/// The graph `d` is the graph `h` without the id, and lacks nothing else. The id
/// is counted no more and no search returns it, and every other id keeps its
/// vector; under cosine it may be normalized once more. The share of the dead is
/// below the limit.
pub open spec fn without_node(
    h: Hnsw,
    g: Model,
    id: VectorId,
    d: Hnsw,
    query: Seq<u32>,
    k: nat,
    ef: nat,
) -> bool {
    &&& d.ids.len() - count_set(d.deleted) == h.ids.len() - count_set(h.deleted) - 1
    &&& !d.contains(id)
    &&& forall|i: int|
        0 <= i < d.found(g, query, k, ef).len() ==> (#[trigger] d.found(g, query, k, ef)[i]).id
            != id
    &&& forall|x: VectorId|
        x != id ==> (#[trigger] d.vector(x) == h.vector(x) || (h.vector(x) matches Some(v)
            && d.vector(x) == Some(prepared(g, h.metric, v))))
    &&& h.metric != Metric::Cosine ==> forall|x: VectorId|
        x != id ==> #[trigger] d.vector(x) == h.vector(x)
    &&& !(g.worn_out)(
        d.params.tombstone_threshold,
        count_set(d.deleted) as usize,
        d.ids.len() as usize,
    )
}

/// A deletion from a graph takes the id, and nothing else. The share of the dead
/// stays below the limit: where a deletion reaches it, the graph is rebuilt
/// without any dead.
pub proof fn deleted_node_is_gone_and_the_rest_stays(
    h: Hnsw,
    g: Model,
    id: VectorId,
    query: Seq<u32>,
    k: nat,
    ef: nat,
)
    requires
        well_built(h),
        g.sane(),
        h.contains(id),
        h.ids.len() <= usize::MAX,
        forall|n: usize| !#[trigger] (g.worn_out)(h.params.tombstone_threshold, 0, n),
    ensures
        well_built(h.deleted(g, id)),
        without_node(h, g, id, h.deleted(g, id), query, k, ef),
{
    let d = h.deleted(g, id);
    let m = h.marked(id);
    let n = h.ids.len() as int;
    deletion_keeps_well_built(h, g, id);
    lemma_marked(h, id);
    lemma_rebuilt(m, g, n);
    assert(m.deleted.take(n) =~= m.deleted);
    lemma_count_none(m.compacted(g).deleted);
    assert forall|x: VectorId| #[trigger] d.contains(x) <==> h.contains(x) && x != id by {
        crate::hnsw_laws::deletion_takes_exactly_one_id(h, g, id, x);
    }
    assert forall|x: VectorId| x != id implies (#[trigger] d.vector(x) == h.vector(x) || (h.vector(
        x,
    ) matches Some(v) && d.vector(x) == Some(prepared(g, h.metric, v)))) && (h.metric
        != Metric::Cosine ==> d.vector(x) == h.vector(x)) by {
        if h.contains(x) {
            other_vectors_stay(h, g, id, Seq::empty(), x);
        }
        assert(d.contains(x) <==> h.contains(x));
    }
    search_is_truthful(d, g, query, k, ef);
    let found = d.found(g, query, k, ef);
    assert forall|i: int| 0 <= i < found.len() implies (#[trigger] found[i]).id != id by {
        assert(d.contains(found[i].id));
    }
}

} // verus!
