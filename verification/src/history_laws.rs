//! What holds after any history: promises on whatever a sequence of operations
//! has made of an empty index.

use vstd::prelude::*;
use crate::catalog::{forgets, numbers_ok};
use crate::distance::Metric;
use crate::durability_laws::{blank, lemma_entry_prefix};
use crate::graph::{count_set, lemma_count_none, lemma_count_set};
use crate::hnsw::{lemma_inserted_ids, lemma_marked, lemma_rebuilt, Hnsw, HnswParams};
use crate::hnsw_laws::{
    empty_index_is_well_built, insertion_adds_exactly_one_id, insertion_keeps_well_built,
    well_built,
};
use crate::meta::{passes_id, Condition, Fields};
use crate::number::{is_nan, number_le, spec_ordered_bits, INFINITY_BITS, SIGN_BIT};
use crate::numeric::{
    all_numbers, bounds_cover_every_value, estimate_brackets_truth, estimate_is_at_most_everything,
    gathered, lemma_counts_change, lemma_entries_ordered, lemma_stays_numbers, occurs,
    one_occurrence_comes_or_goes, ordered, orderly, total, within, Numeric,
};
use crate::numerics::{prepared, Model};
use crate::planner::{exact_for, sound_numbers};
use crate::record::Operation;
use crate::recovery::after_log;
use crate::recovery_laws::{entry_is_there_when_the_id_lives, in_turn, Entry};
use crate::segmented::{lemma_removed_valid, lemma_same_segments_match, recorded, Store};
use crate::segmented_build::{after_builds, after_merges, merged_graph, sealed_graph};
use crate::segmented_laws::{deletion_removes_one_record, insertion_adds_one_record};
use crate::segmented_search_laws::{in_order, search_finds_only_records};
use crate::types::VectorId;
use crate::usage_laws::{
    deleted_node_is_gone_and_the_rest_stays, deleted_record_does_not_come_back,
    filtered_search_answers_in_full, full_answer, lemma_there_after, log_alone_restores_its_ids,
    numeric_indexes_stay_sound, there_after, unsealed_search_is_exact, without_node,
};
use crate::wal::{cut_log_gives_a_prefix, log_bytes, loggable, replayed, written_log_replays};

verus! {

/// A write to the numeric index of a field.
pub ghost enum ValueWrite {
    Insert { value: u64, id: VectorId },
    Remove { value: u64, id: VectorId },
}

/// The numeric index after the first `n` writes.
pub open spec fn index_after(g: Model, writes: Seq<ValueWrite>, n: int) -> Numeric
    decreases n,
{
    if n <= 0 {
        Numeric::empty()
    } else {
        let before = index_after(g, writes, n - 1);
        match writes[n - 1] {
            ValueWrite::Insert { value, id } => before.inserted(g, value, id),
            ValueWrite::Remove { value, id } => before.removed(value, id),
        }
    }
}

/// How often the pair was inserted and not removed.
pub open spec fn left_of(writes: Seq<ValueWrite>, n: int, value: u64, id: VectorId) -> nat
    decreases n,
{
    if n <= 0 {
        0
    } else {
        let before = left_of(writes, n - 1, value, id);
        match writes[n - 1] {
            ValueWrite::Insert { value: v, id: x } if v == value && x == id => before + 1,
            ValueWrite::Remove { value: v, id: x } if v == value && x == id && before > 0 => (before
                - 1) as nat,
            _ => before,
        }
    }
}

/// How many pairs were inserted and not removed.
pub open spec fn left_over(writes: Seq<ValueWrite>, n: int) -> nat
    decreases n,
{
    if n <= 0 {
        0
    } else {
        let before = left_over(writes, n - 1);
        match writes[n - 1] {
            ValueWrite::Insert { .. } => before + 1,
            ValueWrite::Remove { value, id } => if left_of(writes, n - 1, value, id) > 0 {
                (before - 1) as nat
            } else {
                before
            },
        }
    }
}

/// How many of them have a value in the range.
pub open spec fn left_within(writes: Seq<ValueWrite>, n: int, qlo: u64, qhi: u64) -> nat
    decreases n,
{
    if n <= 0 {
        0
    } else {
        let before = left_within(writes, n - 1, qlo, qhi);
        match writes[n - 1] {
            ValueWrite::Insert { value, .. } => if within(value, qlo, qhi) {
                before + 1
            } else {
                before
            },
            ValueWrite::Remove { value, id } => if within(value, qlo, qhi) && left_of(
                writes,
                n - 1,
                value,
                id,
            ) > 0 {
                (before - 1) as nat
            } else {
                before
            },
        }
    }
}

/// No write brings what is not a number.
pub open spec fn only_numbers(writes: Seq<ValueWrite>) -> bool {
    forall|i: int|
        0 <= i < writes.len() ==> ((#[trigger] writes[i]) matches ValueWrite::Insert { value, .. }
            ==> !is_nan(value))
}

proof fn lemma_index_after(g: Model, writes: Seq<ValueWrite>, n: int, qlo: u64, qhi: u64)
    requires
        orderly(g),
        0 <= n <= writes.len(),
    ensures
        ({
            let i = index_after(g, writes, n);
            &&& ordered(i.entries)
            &&& i.covered()
            &&& total(i.entries) == left_over(writes, n)
            &&& gathered(i.entries, qlo, qhi).len() == left_within(writes, n, qlo, qhi)
            &&& forall|v: u64, id: VectorId|
                occurs(i.entries, #[trigger] spec_ordered_bits(v), id) == #[trigger] left_of(
                    writes,
                    n,
                    v,
                    id,
                )
            &&& only_numbers(writes) ==> all_numbers(i.entries)
        }),
    decreases n,
{
    let i = index_after(g, writes, n);
    if n > 0 {
        lemma_index_after(g, writes, n - 1, qlo, qhi);
        let b = index_after(g, writes, n - 1);
        let (v, x) = match writes[n - 1] {
            ValueWrite::Insert { value, id } => (value, id),
            ValueWrite::Remove { value, id } => (value, id),
        };
        let key = spec_ordered_bits(v);
        crate::number::ordered_bits_are_monotone_and_invertible(v, v);
        bounds_cover_every_value(g, b, v, x);
        lemma_entries_ordered(b.entries, key, x);
        lemma_counts_change(b.entries, key, x, qlo, qhi);
        one_occurrence_comes_or_goes(b.entries, key, x);
        assert(occurs(b.entries, key, x) == left_of(writes, n - 1, v, x));
        assert forall|w: u64, id: VectorId|
            occurs(i.entries, #[trigger] spec_ordered_bits(w), id) == #[trigger] left_of(
                writes,
                n,
                w,
                id,
            ) by {
            crate::number::ordered_bits_are_monotone_and_invertible(w, w);
            assert(occurs(b.entries, spec_ordered_bits(w), id) == left_of(writes, n - 1, w, id));
        }
        if only_numbers(writes) {
            assert(writes[n - 1] matches ValueWrite::Insert { value, .. } ==> !is_nan(value));
            lemma_stays_numbers(b.entries, key, x);
        }
    } else {
        bounds_cover_every_value(g, i, 0, VectorId(0));
    }
}

/// Whatever was inserted and removed, the estimate of a range brackets the number
/// of pairs in it and never exceeds the number of all pairs. Over everything it
/// is that number, where only numbers were inserted, and of an empty index it is
/// nothing.
pub proof fn estimate_holds_after_any_writes(
    g: Model,
    writes: Seq<ValueWrite>,
    qlo: u64,
    qhi: u64,
)
    requires
        orderly(g),
    ensures
        ({
            let n = writes.len() as int;
            let i = index_after(g, writes, n);
            let (lower, upper) = i.estimated(g, qlo, qhi);
            let least = (SIGN_BIT + INFINITY_BITS) as u64;
            &&& lower <= left_within(writes, n, qlo, qhi) <= upper
            &&& upper <= left_over(writes, n)
            &&& left_over(writes, n) == total(i.entries)
            &&& only_numbers(writes) ==> i.estimated(g, least, INFINITY_BITS).1 == left_over(
                writes,
                n,
            )
            &&& left_over(writes, n) == 0 ==> i.estimated(g, qlo, qhi) == (0nat, 0nat)
        }),
{
    let n = writes.len() as int;
    let i = index_after(g, writes, n);
    let least = (SIGN_BIT + INFINITY_BITS) as u64;
    lemma_index_after(g, writes, n, qlo, qhi);
    estimate_brackets_truth(g, i, qlo, qhi);
    estimate_is_at_most_everything(g, i, qlo, qhi);
    estimate_is_at_most_everything(g, i, least, INFINITY_BITS);
    assert(number_le(least, i.lo) && number_le(i.hi, INFINITY_BITS));
}

/// A write to a graph.
pub ghost enum NodeWrite {
    Insert { id: VectorId, vector: Seq<u32> },
    Delete { id: VectorId },
}

/// The graph after the first `n` writes. One that is refused changes nothing.
pub open spec fn graph_after(start: Hnsw, g: Model, writes: Seq<NodeWrite>, n: int) -> Hnsw
    decreases n,
{
    if n <= 0 {
        start
    } else {
        let h = graph_after(start, g, writes, n - 1);
        match writes[n - 1] {
            NodeWrite::Insert { id, vector } => if vector.len() == h.dim && !h.contains(id) {
                h.inserted(g, id, vector)
            } else {
                h
            },
            NodeWrite::Delete { id } => if h.contains(id) {
                h.deleted(g, id)
            } else {
                h
            },
        }
    }
}

/// What holds of shares and a limit above zero: a graph without deleted nodes
/// does not reach it, and another node makes no graph reach it.
pub open spec fn proportionate(g: Model, threshold: u64) -> bool {
    &&& forall|n: usize| !#[trigger] (g.worn_out)(threshold, 0, n)
    &&& forall|d: usize, n: usize|
        n < usize::MAX && !#[trigger] (g.worn_out)(threshold, d, n) ==> !(g.worn_out)(
            threshold,
            d,
            (n + 1) as usize,
        )
}

/// Whatever was inserted and deleted, a graph is in order, and the share of its
/// dead is below the limit.
pub proof fn graph_is_in_order_after_any_writes(
    g: Model,
    dim: nat,
    metric: Metric,
    params: HnswParams,
    writes: Seq<NodeWrite>,
    n: int,
)
    requires
        g.sane(),
        proportionate(g, params.tombstone_threshold),
        0 <= n <= writes.len() < usize::MAX,
    ensures
        ({
            let h = graph_after(Hnsw::empty(dim, metric, params), g, writes, n);
            &&& well_built(h)
            &&& h.dim == dim
            &&& h.metric == metric
            &&& h.params == params
            &&& h.ids.len() <= n
            &&& !(g.worn_out)(
                params.tombstone_threshold,
                count_set(h.deleted) as usize,
                h.ids.len() as usize,
            )
        }),
    decreases n,
{
    let start = Hnsw::empty(dim, metric, params);
    let h = graph_after(start, g, writes, n);
    if n <= 0 {
        empty_index_is_well_built(dim, metric, params);
        lemma_count_none(start.deleted);
    } else {
        graph_is_in_order_after_any_writes(g, dim, metric, params, writes, n - 1);
        let b = graph_after(start, g, writes, n - 1);
        lemma_count_set(b.deleted);
        match writes[n - 1] {
            NodeWrite::Insert { id, vector } => {
                if vector.len() == b.dim && !b.contains(id) {
                    insertion_keeps_well_built(b, g, id, vector);
                    lemma_inserted_ids(b, g, id, vector);
                    insertion_adds_exactly_one_id(b, g, id, vector, id);
                    assert(!(g.worn_out)(
                        params.tombstone_threshold,
                        count_set(b.deleted) as usize,
                        b.ids.len() as usize,
                    ));
                }
            },
            NodeWrite::Delete { id } => {
                if b.contains(id) {
                    deleted_node_is_gone_and_the_rest_stays(b, g, id, Seq::empty(), 0, 0);
                    lemma_marked(b, id);
                    lemma_rebuilt(b.marked(id), g, b.ids.len() as int);
                }
            },
        }
    }
}

/// Whatever was inserted and deleted before, a deletion from a graph takes the
/// id, and nothing else.
pub proof fn deletion_from_a_graph_holds_after_any_writes(
    g: Model,
    dim: nat,
    metric: Metric,
    params: HnswParams,
    writes: Seq<NodeWrite>,
    id: VectorId,
    query: Seq<u32>,
    k: nat,
    ef: nat,
)
    requires
        g.sane(),
        proportionate(g, params.tombstone_threshold),
        writes.len() < usize::MAX,
        graph_after(Hnsw::empty(dim, metric, params), g, writes, writes.len() as int).contains(id),
    ensures
        ({
            let h = graph_after(
                Hnsw::empty(dim, metric, params),
                g,
                writes,
                writes.len() as int,
            );
            without_node(h, g, id, h.deleted(g, id), query, k, ef)
        }),
{
    let n = writes.len() as int;
    graph_is_in_order_after_any_writes(g, dim, metric, params, writes, n);
    let h = graph_after(Hnsw::empty(dim, metric, params), g, writes, n);
    deleted_node_is_gone_and_the_rest_stays(h, g, id, query, k, ef);
}

/// A step of a segmented index: a write, or work behind it.
pub ghost enum Step {
    Insert { id: VectorId, vector: Seq<u32>, fields: Fields },
    Delete { id: VectorId },
    /// The oldest queued buffer is built.
    Build,
    /// The two smallest segments are merged, where there are too many.
    Merge,
    /// All the work that there is, is done.
    Rest,
}

/// What the work behind an index promises of its records.
pub open spec fn loses_nothing(s: Store, t: Store) -> bool {
    &&& s.matched() ==> t.matched()
    &&& s.matched() && s.coherent() ==> t.coherent() && forall|x: VectorId| #[trigger]
        t.live(x) <==> s.live(x)
}

/// The write is accepted.
pub open spec fn accepts(s: Store, step: Step) -> bool {
    match step {
        Step::Insert { id, vector, .. } => vector.len() == s.dim && !s.live(id),
        Step::Delete { id } => s.live(id),
        _ => false,
    }
}

/// The step takes `s` to `t`: what the operations promise, without a log. A write
/// that is refused changes nothing.
pub open spec fn stepped(s: Store, g: Model, step: Step, t: Store) -> bool {
    &&& t.formed()
    &&& numbers_ok(t.records.numbers, t.records.meta)
    &&& match step {
        Step::Insert { id, vector, fields } => if accepts(s, step) {
            t == (Store { records: t.records, ..s.inserted(g, id, vector) }) && recorded(
                s.records,
                t.records,
                g,
                id,
                fields,
            )
        } else {
            t == s
        },
        Step::Delete { id } => if accepts(s, step) {
            t == (Store { records: t.records, ..s.removed(id) }) && forgets(
                s.records,
                t.records,
                id,
            )
        } else {
            t == s
        },
        Step::Build => loses_nothing(s, t) && t == (if s.sealing.len() > 0 {
            s.seal_finished(
                s.sealing[0].tag,
                sealed_graph(g, s.params, s.sealing[0].data),
            )
        } else {
            s
        }),
        Step::Merge => loses_nothing(s, t) && t == (match s.pair() {
            Some(pair) => s.merge_finished(pair, merged_graph(g, s.params, pair)),
            None => s,
        }),
        Step::Rest => loses_nothing(s, t) && {
            let built = after_builds(s, g, s.sealing.len());
            t == after_merges(built, g, built.excess())
        },
    }
}

/// The states that the steps lead through, from a new index on.
pub open spec fn history(g: Model, steps: Seq<Step>, states: Seq<Store>) -> bool {
    &&& states.len() == steps.len() + 1
    &&& blank(states[0])
    &&& states[0].records.numbers.len() == 0
    &&& forall|i: int|
        0 <= i < steps.len() ==> #[trigger] stepped(states[i], g, steps[i], states[i + 1])
}

/// The parts of an index fit together, every record lives in one place only,
/// only records have metadata, and the numeric indexes say the same.
pub open spec fn settled(s: Store) -> bool {
    &&& s.valid()
    &&& s.coherent()
    &&& s.described()
    &&& s.records.meta.dom().finite()
    &&& numbers_ok(s.records.numbers, s.records.meta)
}

proof fn lemma_builds_keep(s: Store, g: Model, n: nat)
    ensures
        after_builds(s, g, n).records == s.records,
        after_builds(s, g, n).dim == s.dim,
        after_builds(s, g, n).metric == s.metric,
    decreases n,
{
    if n > 0 {
        lemma_builds_keep(s, g, (n - 1) as nat);
    }
}

proof fn lemma_merges_keep(s: Store, g: Model, n: nat)
    ensures
        after_merges(s, g, n).records == s.records,
        after_merges(s, g, n).dim == s.dim,
        after_merges(s, g, n).metric == s.metric,
    decreases n,
{
    if n > 0 {
        lemma_merges_keep(s, g, (n - 1) as nat);
    }
}

/// A step changes neither the dimension nor the metric, and only a write changes
/// the metadata.
proof fn lemma_step_keeps(s: Store, g: Model, step: Step, t: Store)
    requires
        stepped(s, g, step, t),
    ensures
        t.dim == s.dim,
        t.metric == s.metric,
        !(step is Insert) && !(step is Delete) ==> t.records == s.records,
{
    if step is Rest {
        let built = after_builds(s, g, s.sealing.len());
        lemma_builds_keep(s, g, s.sealing.len());
        lemma_merges_keep(built, g, built.excess());
    }
}

/// Every step keeps an index in order.
pub proof fn step_keeps_everything_in_order(s: Store, g: Model, step: Step, t: Store)
    requires
        settled(s),
        stepped(s, g, step, t),
    ensures
        settled(t),
        orderly(g) && sound_numbers(s.records) ==> sound_numbers(t.records),
{
    lemma_step_keeps(s, g, step, t);
    match step {
        Step::Insert { id, vector, fields } => {
            if accepts(s, step) {
                let m = s.inserted(g, id, vector);
                lemma_same_segments_match(s, t);
                insertion_adds_one_record(s, g, id, vector, id);
                assert(t.coherent() == m.coherent());
                assert forall|x: VectorId| #[trigger]
                    t.records.meta.contains_key(x.0) implies t.live(x) by {
                    insertion_adds_one_record(s, g, id, vector, x);
                    assert(t.live(x) == m.live(x));
                    if x != id {
                        assert(x.0 != id.0);
                        assert(s.records.meta.contains_key(x.0));
                    }
                }
                if fields.len() > 0 {
                    if orderly(g) && sound_numbers(s.records) {
                        numeric_indexes_stay_sound(s.records, t.records, g, id, fields);
                    }
                    assert(t.records.meta.dom() =~= s.records.meta.dom().insert(id.0));
                }
            }
        },
        Step::Delete { id } => {
            if accepts(s, step) {
                let m = s.removed(id);
                if s.buffer.contains(id) {
                    lemma_same_segments_match(s, m);
                } else {
                    lemma_removed_valid(s, id);
                }
                lemma_same_segments_match(m, t);
                deletion_removes_one_record(s, id, id);
                assert(t.coherent() == m.coherent());
                assert forall|x: VectorId| #[trigger]
                    t.records.meta.contains_key(x.0) implies t.live(x) by {
                    deletion_removes_one_record(s, id, x);
                    assert(t.live(x) == m.live(x));
                    assert(x.0 != id.0);
                    assert(s.records.meta.contains_key(x.0));
                }
                if orderly(g) && sound_numbers(s.records) {
                    numeric_indexes_stay_sound(s.records, t.records, g, id, Seq::empty());
                }
                assert(t.records.meta.dom() =~= s.records.meta.dom().remove(id.0));
            }
        },
        _ => {
            assert forall|x: VectorId| #[trigger]
                t.records.meta.contains_key(x.0) implies t.live(x) by {
                assert(s.live(x));
            }
        },
    }
}

/// Whatever was done to it, an index is in order.
pub proof fn index_is_in_order_after_any_steps(
    g: Model,
    steps: Seq<Step>,
    states: Seq<Store>,
    n: int,
)
    requires
        history(g, steps, states),
        0 <= n < states.len(),
    ensures
        settled(states[n]),
        orderly(g) ==> sound_numbers(states[n].records),
        states[n].dim == states[0].dim,
        states[n].metric == states[0].metric,
    decreases n,
{
    if n > 0 {
        index_is_in_order_after_any_steps(g, steps, states, n - 1);
        assert(stepped(states[n - 1], g, steps[n - 1], states[n - 1 + 1]));
        lemma_step_keeps(states[n - 1], g, steps[n - 1], states[n]);
        step_keeps_everything_in_order(states[n - 1], g, steps[n - 1], states[n]);
    } else {
        let s = states[0];
        assert(s.records.meta.dom() =~= Set::empty());
    }
}

/// Whatever was done to the index, a filtered search answers in full.
///
/// Left out are comparisons of integers that doubles do not hold exactly, and a
/// filter that every record passes: the search is then the unfiltered one.
pub proof fn filtered_search_answers_in_full_after_any_steps(
    g: Model,
    steps: Seq<Step>,
    states: Seq<Store>,
    query: Seq<u32>,
    k: nat,
    f: Seq<Condition>,
    y: VectorId,
)
    requires
        orderly(g),
        history(g, steps, states),
        f.len() > 0,
        0 < k <= usize::MAX,
        states.last().live(y),
        !passes_id(f, states.last().records.meta, y),
        forall|id: u64, i: int| #![trigger states.last().records.meta[id], f[i]]
            states.last().records.meta.contains_key(id) && 0 <= i < f.len() ==> exact_for(
                f[i],
                states.last().records.meta[id],
            ),
    ensures
        full_answer(
            states.last(),
            g,
            query,
            k,
            f,
            states.last().filtered(g, query, k, f),
        ),
{
    index_is_in_order_after_any_steps(g, steps, states, states.len() - 1);
    filtered_search_answers_in_full(states.last(), g, query, k, f, y);
}

/// Whatever was done to the index, a search returns at most `k` records that
/// exist, each once and with its true distance, in ascending order. While they
/// are all in the buffer, the answer is the exact one for every width.
pub proof fn search_holds_after_any_steps(
    g: Model,
    steps: Seq<Step>,
    states: Seq<Store>,
    query: Seq<u32>,
    k: nat,
    ef: nat,
)
    requires
        history(g, steps, states),
    ensures
        ({
            let s = states.last();
            let out = s.found(g, query, k, ef);
            &&& out.len() <= k
            &&& in_order(out)
            &&& forall|i: int|
                0 <= i < out.len() ==> s.live((#[trigger] out[i]).id) && s.vouches(
                    g,
                    prepared(g, s.metric, query),
                    out[i],
                )
            &&& s.segments.len() == 0 && s.sealing.len() == 0 ==> out == s.buffer.found(
                g,
                query,
                k,
            ) && out.len() == (if s.size() < k {
                s.size()
            } else {
                k as int
            })
        }),
{
    let s = states.last();
    index_is_in_order_after_any_steps(g, steps, states, states.len() - 1);
    search_finds_only_records(s, g, query, k, ef);
    if s.segments.len() == 0 && s.sealing.len() == 0 {
        unsealed_search_is_exact(s, g, query, k, ef);
    }
}

/// Whatever was done to the index before, a deletion takes the record and
/// nothing else: the size falls by one, and every other record stays as it is.
/// Until the id is inserted again, it is not there: no search returns it, and
/// there is nothing to delete.
pub proof fn deleted_record_stays_away(
    g: Model,
    steps: Seq<Step>,
    states: Seq<Store>,
    id: VectorId,
    n: int,
    m: int,
    query: Seq<u32>,
    k: nat,
    ef: nat,
)
    requires
        history(g, steps, states),
        0 <= n < m < states.len(),
        steps[n] == (Step::Delete { id }),
        states[n].live(id),
        forall|j: int|
            n < j < m ==> ((#[trigger] steps[j]) matches Step::Insert { id: x, .. } ==> x != id),
    ensures
        states[n + 1].size() == states[n].size() - 1,
        forall|x: VectorId| x != id ==> #[trigger] states[n + 1].entry(x) == states[n].entry(x),
        !states[m].live(id),
        states[m].entry(id) is None,
        !accepts(states[m], Step::Delete { id }),
        forall|i: int|
            0 <= i < states[m].found(g, query, k, ef).len() ==> (#[trigger] states[m].found(
                g,
                query,
                k,
                ef,
            )[i]).id != id,
    decreases m,
{
    let s = states[n];
    let t = states[m];
    index_is_in_order_after_any_steps(g, steps, states, n);
    index_is_in_order_after_any_steps(g, steps, states, m);
    if m == n + 1 {
        assert(stepped(states[n], g, steps[n], states[n + 1]));
        let v = Seq::new(s.dim, |i: int| 0u32);
        let u = t.inserted(g, id, v);
        deleted_record_does_not_come_back(
            s,
            g,
            id,
            t,
            query,
            k,
            ef,
            v,
            Seq::empty(),
            u,
        );
    } else {
        deleted_record_stays_away(g, steps, states, id, n, m - 1, query, k, ef);
        let b = states[m - 1];
        let step = steps[m - 1];
        index_is_in_order_after_any_steps(g, steps, states, m - 1);
        assert(stepped(states[m - 1], g, steps[m - 1], states[m - 1 + 1]));
        match step {
            Step::Insert { id: x, vector, .. } => {
                if accepts(b, step) {
                    insertion_adds_one_record(b, g, x, vector, id);
                    assert(t.live(id) == b.inserted(g, x, vector).live(id));
                }
            },
            Step::Delete { id: x } => {
                if accepts(b, step) {
                    deletion_removes_one_record(b, x, id);
                    assert(t.live(id) == b.removed(x).live(id));
                }
            },
            _ => {},
        }
        search_finds_only_records(t, g, query, k, ef);
        let found = t.found(g, query, k, ef);
        assert forall|i: int| 0 <= i < found.len() implies (#[trigger] found[i]).id != id by {
            assert(t.vouches(g, prepared(g, t.metric, query), found[i]));
        }
    }
    entry_is_there_when_the_id_lives(t, id);
}

/// Whatever was done to the index before, also with the id: an insertion that is
/// accepted brings exactly the vector and the fields that it is given, and
/// leaves every other record as it is.
pub proof fn inserted_record_is_what_was_given(
    g: Model,
    steps: Seq<Step>,
    states: Seq<Store>,
    n: int,
)
    requires
        history(g, steps, states),
        0 <= n < steps.len(),
        steps[n] is Insert,
        accepts(states[n], steps[n]),
    ensures
        steps[n] matches Step::Insert { id, vector, fields } && {
            &&& states[n + 1].entry(id) == Some(
                Entry { vector: prepared(g, states[n].metric, vector), fields },
            )
            &&& forall|x: VectorId|
                x != id ==> #[trigger] states[n + 1].entry(x) == states[n].entry(x)
        },
{
    let s = states[n];
    let t = states[n + 1];
    index_is_in_order_after_any_steps(g, steps, states, n);
    assert(stepped(states[n], g, steps[n], states[n + 1]));
    if let Step::Insert { id, vector, fields } = steps[n] {
        let w = s.inserted(g, id, vector);
        insertion_adds_one_record(s, g, id, vector, id);
        assert(t.vector(id) == w.vector(id));
        assert(!s.records.meta.contains_key(id.0));
        if fields.len() == 0 {
            assert(fields =~= Seq::empty());
        }
        assert forall|x: VectorId| x != id implies #[trigger] t.entry(x) == s.entry(x) by {
            insertion_adds_one_record(s, g, id, vector, x);
            assert(t.vector(x) == w.vector(x));
            assert(x.0 != id.0);
        }
    }
}

/// The operations in the log after the first `n` steps: the writes that were
/// accepted.
pub open spec fn logged_by(steps: Seq<Step>, states: Seq<Store>, n: int) -> Seq<Operation>
    decreases n,
{
    if n <= 0 {
        Seq::empty()
    } else {
        let before = logged_by(steps, states, n - 1);
        if accepts(states[n - 1], steps[n - 1]) {
            match steps[n - 1] {
                Step::Insert { id, vector, fields } => before.push(
                    Operation::Insert { id: id.0, vector, meta: fields },
                ),
                Step::Delete { id } => before.push(Operation::Delete { id: id.0 }),
                _ => before,
            }
        } else {
            before
        }
    }
}

proof fn lemma_there_prefix(a: Seq<Operation>, b: Seq<Operation>, id: VectorId, n: int)
    requires
        n <= a.len(),
        n <= b.len(),
        forall|i: int| 0 <= i < n ==> a[i] == b[i],
    ensures
        there_after(a, id, n) == there_after(b, id, n),
    decreases n,
{
    if n > 0 {
        lemma_there_prefix(a, b, id, n - 1);
    }
}

/// The log names the ids that live, and each of its operations is accepted after
/// the ones before it.
proof fn lemma_logged(g: Model, steps: Seq<Step>, states: Seq<Store>, b: Store, n: int)
    requires
        history(g, steps, states),
        blank(b),
        b.dim == states[0].dim,
        0 <= n <= steps.len(),
    ensures
        ({
            let ops = logged_by(steps, states, n);
            &&& ops.len() <= n
            &&& forall|x: VectorId| #[trigger]
                there_after(ops, x, ops.len() as int) <==> states[n].live(x)
            &&& forall|i: int| 0 <= i < ops.len() ==> #[trigger] in_turn(b, g, ops, i)
        }),
    decreases n,
{
    let ops = logged_by(steps, states, n);
    let t = states[n];
    if n <= 0 {
        assert forall|x: VectorId| !t.live(x) by {}
    } else {
        let s = states[n - 1];
        let step = steps[n - 1];
        let before = logged_by(steps, states, n - 1);
        let k = before.len() as int;
        lemma_logged(g, steps, states, b, n - 1);
        index_is_in_order_after_any_steps(g, steps, states, n - 1);
        assert(stepped(states[n - 1], g, steps[n - 1], states[n - 1 + 1]));
        assert forall|x: VectorId| #[trigger]
            there_after(ops, x, ops.len() as int) <==> t.live(x) by {
            lemma_there_prefix(ops, before, x, k);
            assert(there_after(before, x, k) <==> s.live(x));
            if accepts(s, step) {
                match step {
                    Step::Insert { id, vector, .. } => {
                        insertion_adds_one_record(s, g, id, vector, x);
                        assert(t.live(x) == s.inserted(g, id, vector).live(x));
                        assert(x == id <==> x.0 == id.0);
                    },
                    Step::Delete { id } => {
                        deletion_removes_one_record(s, id, x);
                        assert(t.live(x) == s.removed(id).live(x));
                        assert(x == id <==> x.0 == id.0);
                    },
                    _ => {},
                }
            }
        }
        assert forall|i: int| 0 <= i < ops.len() implies #[trigger] in_turn(b, g, ops, i) by {
            if let Operation::Insert { id, .. } = ops[i] {
                let x = VectorId(id);
                entry_is_there_when_the_id_lives(b, x);
                assert(!b.live(x));
                lemma_there_after(g, b.metric, ops, x, i);
                lemma_there_after(g, b.metric, before, x, i);
                lemma_there_prefix(ops, before, x, if i < k { i } else { k });
                if i < k {
                    assert(before[i] == ops[i]);
                    assert(in_turn(b, g, before, i));
                } else {
                    assert(there_after(before, x, k) <==> s.live(x));
                }
            }
        }
    }
}

/// The log of an index, cut anywhere, restores by itself exactly the ids that
/// its whole records leave when they are applied in order, nothing lost and
/// nothing extra. Those records are the first of the writes that were accepted;
/// uncut, they are all of them, and the ids are those of the index.
pub proof fn cut_log_restores_its_ids_after_any_steps(
    g: Model,
    steps: Seq<Step>,
    states: Seq<Store>,
    b: Store,
    cut: int,
)
    requires
        g.sane(),
        history(g, steps, states),
        blank(b),
        b.dim == states[0].dim,
        steps.len() <= usize::MAX,
        forall|i: int|
            0 <= i < logged_by(steps, states, steps.len() as int).len() ==> loggable(
                #[trigger] logged_by(steps, states, steps.len() as int)[i],
            ),
        0 <= cut <= log_bytes(logged_by(steps, states, steps.len() as int)).len(),
    ensures
        ({
            let ops = logged_by(steps, states, steps.len() as int);
            let whole = replayed(log_bytes(ops).take(cut), 0).records;
            let n = whole.len() as int;
            let ids = Set::new(|x: VectorId| there_after(whole, x, n));
            &&& whole.is_prefix_of(ops)
            &&& after_log(b, g, whole, n) matches Ok(t) && {
                &&& forall|x: VectorId| #[trigger] t.live(x) <==> there_after(whole, x, n)
                &&& ids.finite()
                &&& t.size() == ids.len()
            }
            &&& cut == log_bytes(ops).len() ==> whole == ops && forall|x: VectorId| #[trigger]
                there_after(whole, x, n) <==> states.last().live(x)
        }),
{
    let last = steps.len() as int;
    let ops = logged_by(steps, states, last);
    let bytes = log_bytes(ops).take(cut);
    let whole = replayed(bytes, 0).records;
    lemma_logged(g, steps, states, b, last);
    written_log_replays(ops);
    cut_log_gives_a_prefix(log_bytes(ops), cut);
    assert forall|i: int| 0 <= i < whole.len() implies #[trigger] in_turn(b, g, whole, i) by {
        assert(in_turn(b, g, ops, i));
        assert(whole[i] == ops[i]);
        if let Operation::Insert { id, .. } = ops[i] {
            let x = VectorId(id);
            lemma_entry_prefix(b.entry(x), g, b.metric, ops, whole, x, i);
        }
    }
    assert(b.slots() == 0);
    log_alone_restores_its_ids(b, g, bytes);
    if cut == log_bytes(ops).len() {
        assert(bytes =~= log_bytes(ops));
    }
}

} // verus!
