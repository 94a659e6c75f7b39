//! What a layer search guarantees.

use vstd::prelude::*;
use crate::distance::{lemma_not_nearer, nan_key, nearer};
use crate::graph::{
    chosen, count_set, descended, grounded, joined_all, lemma_chosen, lemma_joined, lemma_shrunk,
    lemma_with_link, max_links, open_quest, same_shape, shrunk, slots_of, with_link, woven, Pair,
    entered, entered_all, expanded, explored, finished, in_progress, lemma_count_none,
    lemma_count_set, lemma_entered, lemma_inserted_all, lemma_relaxed, linked, on_level, promising,
    relaxed, relaxed_all, start, Cand, Far, Layer, Links, Quest,
};
use crate::rank::{inserted, lemma_inserted, sorted, Ranked};

verus! {

pub open spec fn has_result(st: Layer, slot: usize) -> bool {
    exists|i: int| 0 <= i < st.results.len() && (#[trigger] st.results[i]).slot == slot
}

pub open spec fn is_open(st: Layer, slot: usize) -> bool {
    exists|i: int| 0 <= i < st.open.len() && (#[trigger] st.open[i]).0.slot == slot
}

/// All neighbours of the node have been visited.
pub open spec fn settled(q: Quest, st: Layer, slot: usize) -> bool {
    forall|i: int|
        0 <= i < q.links[slot as int][q.level].len()
            ==> st.visited[#[trigger] q.links[slot as int][q.level][i] as int]
}

/// Every distance is a number.
pub open spec fn measured(q: Quest) -> bool {
    forall|s: usize| s < q.links.len() ==> !nan_key(#[trigger] (q.dist)(s))
}

/// The result list is full, and the node is no nearer than its worst. Of
/// distances that are not numbers, nothing is said.
pub open spec fn beyond(q: Quest, st: Layer, slot: usize) -> bool {
    &&& st.results.len() > 0
    &&& st.results.len() >= q.ef
    &&& measured(q) && slot < q.links.len() ==> !nearer((q.dist)(slot), st.results.last().dist)
}

/// Results are visited eligible nodes with their distances, each once, in
/// ascending order.
pub open spec fn sound(q: Quest, st: Layer) -> bool {
    &&& st.visited.len() == q.links.len()
    &&& sorted(st.results)
    &&& forall|i: int|
        0 <= i < st.results.len() ==> {
            let c = #[trigger] st.results[i];
            &&& on_level(q.links, c.slot, q.level)
            &&& c.dist == (q.dist)(c.slot)
            &&& (q.eligible)(c.slot)
            &&& st.visited[c.slot as int]
        }
    &&& forall|i: int, j: int|
        0 <= i < j < st.results.len() ==> (#[trigger] st.results[i]).slot != (
        #[trigger] st.results[j]).slot
}

/// Every visited eligible node is a result, or there is no room for it.
pub open spec fn exhaustive(q: Quest, st: Layer) -> bool {
    forall|v: usize|
        v < q.links.len() && #[trigger] st.visited[v as int] && (q.eligible)(v) ==> has_result(
            st,
            v,
        ) || beyond(q, st, v)
}

/// Holds throughout a search.
pub open spec fn tracked_well(q: Quest, st: Layer) -> bool {
    &&& sound(q, st)
    &&& exhaustive(q, st)
    &&& sorted(st.open)
    &&& forall|i: int|
        0 <= i < st.open.len() ==> {
            let c = (#[trigger] st.open[i]).0;
            &&& on_level(q.links, c.slot, q.level)
            &&& c.dist == (q.dist)(c.slot)
            &&& st.visited[c.slot as int]
        }
    &&& forall|v: usize|
        v < q.links.len() && #[trigger] st.visited[v as int] ==> on_level(q.links, v, q.level)
}

/// The visited nodes whose neighbours may still be unvisited: open, named by
/// `extra`, or out of reach of the results.
pub open spec fn pending(q: Quest, st: Layer, extra: Option<usize>) -> bool {
    &&& forall|v: usize|
        v < q.links.len() && #[trigger] st.visited[v as int] ==> is_open(st, v) || extra == Some(
            v,
        ) || settled(q, st, v) || beyond(q, st, v)
    &&& forall|i: int|
        0 <= i < st.results.len() ==> {
            let v = (#[trigger] st.results[i]).slot;
            is_open(st, v) || extra == Some(v) || settled(q, st, v)
        }
}

proof fn lemma_open_grows(st: Layer, next: Layer, c: Cand)
    requires
        sorted(st.open),
        next.open == inserted(st.open, Far(c)),
    ensures
        forall|v: usize| #[trigger] is_open(next, v) <==> (is_open(st, v) || v == c.slot),
        sorted(next.open),
{
    lemma_inserted(st.open, Far(c));
    assert forall|v: usize| #[trigger] is_open(next, v) <==> (is_open(st, v) || v == c.slot) by {
        if is_open(st, v) {
            let i = choose|i: int| 0 <= i < st.open.len() && (#[trigger] st.open[i]).0.slot == v;
            assert(st.open.contains(st.open[i]));
            assert(next.open.contains(st.open[i]));
            let j = choose|j: int| 0 <= j < next.open.len() && next.open[j] == st.open[i];
            assert(next.open[j].0.slot == v);
        }
        if v == c.slot {
            let j = crate::rank::position(st.open, Far(c).key());
            assert(next.open[j].0.slot == v);
        }
        if is_open(next, v) {
            let j = choose|j: int|
                0 <= j < next.open.len() && (#[trigger] next.open[j]).0.slot == v;
            assert(next.open.contains(next.open[j]));
            if next.open[j] != Far(c) {
                assert(st.open.contains(next.open[j]));
                let i = choose|i: int| 0 <= i < st.open.len() && st.open[i] == next.open[j];
                assert(st.open[i].0.slot == v);
            }
        }
    }
}

/// Inserting a new node into sound results keeps them sound.
proof fn lemma_results_grow(q: Quest, st: Layer, c: Cand, grown: Seq<Cand>)
    requires
        sound(q, st),
        on_level(q.links, c.slot, q.level),
        c.dist == (q.dist)(c.slot),
        !st.visited[c.slot as int],
        grown == inserted(st.results, c),
    ensures
        sorted(grown),
        grown.len() == st.results.len() + 1,
        forall|x: Cand| grown.contains(x) <==> (st.results.contains(x) || x == c),
        forall|i: int, j: int|
            0 <= i < j < grown.len() ==> (#[trigger] grown[i]).slot != (#[trigger] grown[j]).slot,
{
    lemma_inserted(st.results, c);
    let p = crate::rank::position(st.results, c.key());
    crate::rank::lemma_position_bounds(st.results, c.key());
    assert forall|i: int, j: int| 0 <= i < j < grown.len() implies (#[trigger] grown[i]).slot != (
    #[trigger] grown[j]).slot by {
        let a = if i < p { i } else { i - 1 };
        let b = if j < p { j } else { j - 1 };
        if i == p {
            assert(grown[j] == st.results[b]);
        } else if j == p {
            assert(grown[i] == st.results[a]);
        } else {
            assert(grown[i] == st.results[a]);
            assert(grown[j] == st.results[b]);
        }
    }
}

proof fn lemma_entered_tracked(q: Quest, st: Layer, slot: usize)
    requires
        in_progress(q, st, 0),
        on_level(q.links, slot, q.level),
        tracked_well(q, st),
        forall|v: usize|
            v < q.links.len() && #[trigger] st.visited[v as int] ==> is_open(st, v),
        forall|v: usize|
            v < q.links.len() && #[trigger] st.visited[v as int] && (q.eligible)(v) ==> has_result(
                st,
                v,
            ),
    ensures
        tracked_well(q, entered(q, st, slot)),
        entered(q, st, slot).visited[slot as int],
        forall|v: usize|
            v < q.links.len() && #[trigger] entered(q, st, slot).visited[v as int] ==> is_open(
                entered(q, st, slot),
                v,
            ),
        forall|v: usize|
            v < q.links.len() && #[trigger] entered(q, st, slot).visited[v as int] && (q.eligible)(
                v,
            ) ==> has_result(entered(q, st, slot), v),
{
    if !st.visited[slot as int] {
        let c = Cand { dist: (q.dist)(slot), slot };
        let next = entered(q, st, slot);
        lemma_open_grows(st, next, c);
        lemma_inserted_all(st.open, Far(c));
        let grown = inserted(st.results, c);
        lemma_results_grow(q, st, c, grown);
        lemma_inserted_all(st.results, c);
        assert forall|v: usize| has_result(st, v) && (q.eligible)(slot) implies has_result(
            next,
            v,
        ) by {
            let i = choose|i: int| 0 <= i < st.results.len() && (#[trigger] st.results[i]).slot == v;
            assert(st.results.contains(st.results[i]));
            assert(grown.contains(st.results[i]));
            let j = choose|j: int| 0 <= j < grown.len() && grown[j] == st.results[i];
            assert(next.results[j].slot == v);
        }
        if (q.eligible)(slot) {
            let j = crate::rank::position(st.results, c.key());
            lemma_inserted(st.results, c);
            assert(next.results[j].slot == slot);
        }
        assert forall|v: usize|
            v < q.links.len() && #[trigger] next.visited[v as int] && (q.eligible)(
                v,
            ) implies has_result(next, v) by {
            if v != slot {
                assert(st.visited[v as int]);
                assert(has_result(st, v));
                if !(q.eligible)(slot) {
                    let i = choose|i: int|
                        0 <= i < st.results.len() && (#[trigger] st.results[i]).slot == v;
                    assert(next.results[i].slot == v);
                }
            }
        }
        assert forall|v: usize| v < q.links.len() && #[trigger] next.visited[v as int] implies
            is_open(next, v) && on_level(q.links, v, q.level) by {
            if v != slot {
                assert(st.visited[v as int]);
            }
        }
    }
}

/// How the results change when an unvisited neighbour is looked at.
proof fn lemma_results_step(q: Quest, st: Layer, slot: usize)
    requires
        sound(q, st),
        q.ef > 0 || st.results.len() > 0,
        on_level(q.links, slot, q.level),
        !st.visited[slot as int],
    ensures
        sound(q, relaxed(q, st, slot)),
        forall|v: usize| #[trigger] beyond(q, st, v) ==> beyond(q, relaxed(q, st, slot), v),
        forall|v: usize| #[trigger]
            has_result(st, v) ==> has_result(relaxed(q, st, slot), v) || beyond(
                q,
                relaxed(q, st, slot),
                v,
            ),
        (q.eligible)(slot) ==> has_result(relaxed(q, st, slot), slot) || beyond(
            q,
            relaxed(q, st, slot),
            slot,
        ),
        !promising(q, st, (q.dist)(slot)) ==> beyond(q, relaxed(q, st, slot), slot),
        st.results.len() > 0 ==> relaxed(q, st, slot).results.len() > 0,
        forall|i: int|
            0 <= i < relaxed(q, st, slot).results.len() ==> {
                let v = (#[trigger] relaxed(q, st, slot).results[i]).slot;
                (v == slot && promising(q, st, (q.dist)(slot))) || has_result(st, v)
            },
{
    let c = Cand { dist: (q.dist)(slot), slot };
    let next = relaxed(q, st, slot);
    if promising(q, st, c.dist) && (q.eligible)(slot) {
        let grown = inserted(st.results, c);
        let p = crate::rank::position(st.results, c.key());
        lemma_results_grow(q, st, c, grown);
        lemma_inserted(st.results, c);
        lemma_inserted_all(st.results, c);
        let m = next.results.len();
        assert(forall|i: int| 0 <= i < m ==> next.results[i] == grown[i]);
        assert forall|i: int| 0 <= i < m implies ({
            let v = (#[trigger] next.results[i]).slot;
            v == slot || has_result(st, v)
        }) by {
            assert(grown[i] == c || st.results.contains(grown[i]));
            if grown[i] != c {
                let j = choose|j: int| 0 <= j < st.results.len() && st.results[j] == grown[i];
                assert(st.results[j].slot == next.results[i].slot);
            }
        }
        assert forall|v: usize| #[trigger] beyond(q, st, v) implies beyond(q, next, v) by {
            let w = next.results[m - 1];
            assert(m == st.results.len());
            assert(grown[m - 1] == c || st.results.contains(grown[m - 1]));
            if w != c {
                let i = choose|i: int| 0 <= i < st.results.len() && st.results[i] == w;
                assert(w.key() <= st.results.last().key());
            }
            let far = st.results[st.results.len() - 1];
            assert(far.dist == (q.dist)(far.slot));
            assert(w.dist <= far.dist);
            if measured(q) && v < q.links.len() {
                assert(!nan_key((q.dist)(v)));
                lemma_not_nearer((q.dist)(v), far.dist, w.dist);
            }
        }
        assert forall|v: usize| #[trigger] has_result(st, v) implies has_result(next, v) || beyond(
            q,
            next,
            v,
        ) by {
            let i = choose|i: int| 0 <= i < st.results.len() && (#[trigger] st.results[i]).slot == v;
            let j = if i < p { i } else { i + 1 };
            assert(grown[j] == st.results[i]);
            if j < m {
                assert(next.results[j].slot == v);
            } else {
                assert(grown[m - 1].key() <= grown[j].key());
            }
        }
        if p < m {
            assert(next.results[p].slot == slot);
        } else {
            assert(grown[m - 1].key() <= grown[p].key());
        }
    } else {
        assert(next.results == st.results);
        assert forall|v: usize| #[trigger] has_result(st, v) implies has_result(next, v) by {
            let i = choose|i: int| 0 <= i < st.results.len() && (#[trigger] st.results[i]).slot == v;
            assert(next.results[i].slot == v);
        }
        assert forall|i: int| 0 <= i < next.results.len() implies has_result(
            st,
            (#[trigger] next.results[i]).slot,
        ) by {
            assert(st.results[i].slot == next.results[i].slot);
        }
    }
}

/// One visited neighbour keeps what holds throughout a search; it unsettles
/// nothing.
proof fn lemma_relaxed_tracked(q: Quest, st: Layer, slot: usize, closed: int, extra: Option<usize>)
    requires
        in_progress(q, st, closed),
        on_level(q.links, slot, q.level),
        tracked_well(q, st),
        pending(q, st, extra),
        linked(q.links),
        0 <= q.level,
        q.ef > 0 || st.results.len() > 0,
    ensures
        tracked_well(q, relaxed(q, st, slot)),
        pending(q, relaxed(q, st, slot), extra),
        st.results.len() > 0 ==> relaxed(q, st, slot).results.len() > 0,
        relaxed(q, st, slot).visited[slot as int],
        forall|v: usize|
            v < q.links.len() && st.visited[v as int] ==> #[trigger] relaxed(
                q,
                st,
                slot,
            ).visited[v as int],
{
    if !st.visited[slot as int] {
        let c = Cand { dist: (q.dist)(slot), slot };
        let next = relaxed(q, st, slot);
        lemma_results_step(q, st, slot);
        lemma_inserted_all(st.open, Far(c));
        if promising(q, st, c.dist) {
            lemma_open_grows(st, next, c);
        }
        assert forall|v: usize|
            v < q.links.len() && #[trigger] next.visited[v as int] && (q.eligible)(
                v,
            ) implies has_result(next, v) || beyond(q, next, v) by {
            if v != slot {
                assert(st.visited[v as int]);
            }
        }
        assert forall|v: usize| v < q.links.len() && #[trigger] next.visited[v as int] implies
            on_level(q.links, v, q.level) by {
            if v != slot {
                assert(st.visited[v as int]);
            }
        }
        assert forall|v: usize|
            on_level(q.links, v, q.level) && #[trigger] settled(q, st, v) implies settled(
            q,
            next,
            v,
        ) by {
            assert forall|i: int| 0 <= i < q.links[v as int][q.level].len() implies
                next.visited[#[trigger] q.links[v as int][q.level][i] as int] by {
                assert(on_level(q.links, q.links[v as int][q.level][i], q.level));
                assert(st.visited[q.links[v as int][q.level][i] as int]);
            }
        }
        assert forall|v: usize| #[trigger] is_open(st, v) implies is_open(next, v) by {
            if !promising(q, st, c.dist) {
                let i = choose|i: int| 0 <= i < st.open.len() && (#[trigger] st.open[i]).0.slot == v;
                assert(next.open[i].0.slot == v);
            }
        }
        assert forall|v: usize| v < q.links.len() && #[trigger] next.visited[v as int] implies
            is_open(next, v) || extra == Some(v) || settled(q, next, v) || beyond(q, next, v) by {
            if v != slot {
                assert(st.visited[v as int]);
            } else if promising(q, st, c.dist) {
                assert(is_open(next, v));
            }
        }
        assert forall|i: int| 0 <= i < next.results.len() implies ({
            let v = (#[trigger] next.results[i]).slot;
            is_open(next, v) || extra == Some(v) || settled(q, next, v)
        }) by {
            let v = next.results[i].slot;
            if v == slot && promising(q, st, c.dist) {
                assert(is_open(next, v));
            } else {
                assert(has_result(st, v));
                let j = choose|j: int|
                    0 <= j < st.results.len() && (#[trigger] st.results[j]).slot == v;
                assert(on_level(q.links, v, q.level));
            }
        }
    }
}

/// Looking at all neighbours of an expanded node.
proof fn lemma_relaxed_all_tracked(
    q: Quest,
    st: Layer,
    slots: Seq<usize>,
    closed: int,
    extra: Option<usize>,
)
    requires
        in_progress(q, st, closed),
        forall|i: int| 0 <= i < slots.len() ==> on_level(q.links, #[trigger] slots[i], q.level),
        tracked_well(q, st),
        pending(q, st, extra),
        linked(q.links),
        0 <= q.level,
        q.ef > 0 || st.results.len() > 0,
    ensures
        in_progress(q, relaxed_all(q, st, slots), closed),
        tracked_well(q, relaxed_all(q, st, slots)),
        pending(q, relaxed_all(q, st, slots), extra),
        st.results.len() > 0 ==> relaxed_all(q, st, slots).results.len() > 0,
        forall|i: int|
            0 <= i < slots.len() ==> relaxed_all(q, st, slots).visited[#[trigger] slots[i] as int],
        forall|v: usize|
            v < q.links.len() && st.visited[v as int] ==> #[trigger] relaxed_all(
                q,
                st,
                slots,
            ).visited[v as int],
    decreases slots.len(),
{
    if slots.len() > 0 {
        let t = slots.drop_last();
        assert forall|i: int| 0 <= i < t.len() implies on_level(
            q.links,
            #[trigger] t[i],
            q.level,
        ) by {
            assert(t[i] == slots[i]);
        }
        lemma_relaxed_all_tracked(q, st, t, closed, extra);
        let mid = relaxed_all(q, st, t);
        let last = slots[slots.len() - 1];
        lemma_relaxed(q, mid, last, closed);
        lemma_relaxed_tracked(q, mid, last, closed, extra);
        let end = relaxed_all(q, st, slots);
        assert forall|i: int| 0 <= i < slots.len() implies
            end.visited[#[trigger] slots[i] as int] by {
            if i < t.len() {
                assert(mid.visited[t[i] as int]);
            }
        }
        assert forall|v: usize| v < q.links.len() && st.visited[v as int] implies
            #[trigger] end.visited[v as int] by {
            assert(mid.visited[v as int]);
        }
    }
}

/// Entering all entry points opens them, and admits the eligible ones.
proof fn lemma_entered_all_tracked(q: Quest, entries: Seq<usize>)
    requires
        forall|i: int| 0 <= i < entries.len() ==> on_level(q.links, #[trigger] entries[i], q.level),
    ensures
        in_progress(q, entered_all(q, start(q.links.len()), entries), 0),
        tracked_well(q, entered_all(q, start(q.links.len()), entries)),
        pending(q, entered_all(q, start(q.links.len()), entries), None),
        forall|i: int|
            0 <= i < entries.len() ==> entered_all(
                q,
                start(q.links.len()),
                entries,
            ).visited[#[trigger] entries[i] as int],
        forall|v: usize|
            v < q.links.len() && #[trigger] entered_all(
                q,
                start(q.links.len()),
                entries,
            ).visited[v as int] ==> is_open(entered_all(q, start(q.links.len()), entries), v),
        forall|v: usize|
            v < q.links.len() && #[trigger] entered_all(
                q,
                start(q.links.len()),
                entries,
            ).visited[v as int] && (q.eligible)(v) ==> has_result(
                entered_all(q, start(q.links.len()), entries),
                v,
            ),
    decreases entries.len(),
{
    if entries.len() == 0 {
        lemma_count_none(start(q.links.len()).visited);
    } else {
        let t = entries.drop_last();
        assert forall|i: int| 0 <= i < t.len() implies on_level(
            q.links,
            #[trigger] t[i],
            q.level,
        ) by {
            assert(t[i] == entries[i]);
        }
        lemma_entered_all_tracked(q, t);
        let mid = entered_all(q, start(q.links.len()), t);
        let last = entries[entries.len() - 1];
        lemma_entered(q, mid, last);
        lemma_entered_tracked(q, mid, last);
        let end = entered_all(q, start(q.links.len()), entries);
        assert forall|i: int| 0 <= i < entries.len() implies
            end.visited[#[trigger] entries[i] as int] by {
            if i < t.len() {
                assert(mid.visited[t[i] as int]);
            }
        }
        assert forall|i: int| 0 <= i < end.results.len() implies ({
            let v = (#[trigger] end.results[i]).slot;
            is_open(end, v)
        }) by {
            assert(end.visited[end.results[i].slot as int]);
        }
    }
}

/// The search ended before its visits came up to its budget.
pub open spec fn unhurried(q: Quest, st: Layer) -> bool {
    q.budget matches Some(b) ==> st.visits < b
}

/// How a search that its budget does not cut short ends: every result has all
/// its neighbours visited, and so has every visited node that the results leave
/// room for.
pub open spec fn at_rest(q: Quest, st: Layer) -> bool {
    &&& sound(q, st)
    &&& exhaustive(q, st)
    &&& forall|v: usize|
        v < q.links.len() && #[trigger] st.visited[v as int] ==> on_level(q.links, v, q.level) && (
        settled(q, st, v) || beyond(q, st, v))
    &&& forall|i: int|
        0 <= i < st.results.len() ==> settled(q, st, (#[trigger] st.results[i]).slot)
}

proof fn lemma_expanded_at_rest(q: Quest, st: Layer, closed: int, entries: Seq<usize>)
    requires
        in_progress(q, st, closed),
        closed <= q.links.len(),
        tracked_well(q, st),
        pending(q, st, None),
        linked(q.links),
        0 <= q.level,
        q.ef > 0 || st.results.len() > 0,
        forall|i: int|
            0 <= i < entries.len() ==> on_level(q.links, #[trigger] entries[i], q.level)
                && st.visited[entries[i] as int],
    ensures
        sound(q, expanded(q, st, (q.links.len() - closed) as nat)),
        exhaustive(q, expanded(q, st, (q.links.len() - closed) as nat)),
        unhurried(q, expanded(q, st, (q.links.len() - closed) as nat)) ==> at_rest(
            q,
            expanded(q, st, (q.links.len() - closed) as nat),
        ),
        expanded(q, st, (q.links.len() - closed) as nat).visits == count_set(
            expanded(q, st, (q.links.len() - closed) as nat).visited,
        ),
        expanded(q, st, (q.links.len() - closed) as nat).results.len() <= expanded(
            q,
            st,
            (q.links.len() - closed) as nat,
        ).admitted <= expanded(q, st, (q.links.len() - closed) as nat).visits,
        forall|i: int|
            0 <= i < entries.len() ==> expanded(
                q,
                st,
                (q.links.len() - closed) as nat,
            ).visited[#[trigger] entries[i] as int],
    decreases q.links.len() - closed,
{
    lemma_count_set(st.visited);
    if st.open.len() > 0 {
        let cur = st.open.last().0;
        let rest = Layer { open: st.open.drop_last(), ..st };
        assert(on_level(q.links, st.open[st.open.len() - 1].0.slot, q.level));
        assert forall|v: usize| #[trigger] is_open(st, v) implies is_open(rest, v) || v
            == cur.slot by {
            let i = choose|i: int| 0 <= i < st.open.len() && (#[trigger] st.open[i]).0.slot == v;
            if i < rest.open.len() {
                assert(rest.open[i].0.slot == v);
            }
        }
        assert forall|v: usize| #[trigger] has_result(st, v) implies has_result(rest, v) by {
            let i = choose|i: int| 0 <= i < st.results.len() && (#[trigger] st.results[i]).slot == v;
            assert(rest.results[i].slot == v);
        }
        assert(exhaustive(q, rest)) by {
            assert forall|v: usize|
                v < q.links.len() && #[trigger] rest.visited[v as int] && (q.eligible)(
                    v,
                ) implies has_result(rest, v) || beyond(q, rest, v) by {
                assert(st.visited[v as int]);
            }
        }
        if finished(q, rest, cur) && !unhurried(q, rest) {
        } else if finished(q, rest, cur) {
            // everything still open is farther than the worst result
            assert forall|v: usize| #[trigger] is_open(rest, v) || v == cur.slot implies (q.dist)(v)
                > rest.results.last().dist by {
                if v != cur.slot {
                    let i = choose|i: int|
                        0 <= i < rest.open.len() && (#[trigger] rest.open[i]).0.slot == v;
                    assert(st.open[i].key() <= st.open[st.open.len() - 1].key());
                    assert(st.open[i].0.dist == (q.dist)(v));
                }
            }
            assert forall|i: int| 0 <= i < rest.results.len() implies settled(
                q,
                rest,
                (#[trigger] rest.results[i]).slot,
            ) by {
                let v = st.results[i].slot;
                assert(st.results[i].key() <= st.results.last().key());
                assert(settled(q, st, v) ==> settled(q, rest, v));
            }
            assert forall|v: usize| v < q.links.len() && #[trigger] rest.visited[v as int] implies
                on_level(q.links, v, q.level) && (settled(q, rest, v) || beyond(q, rest, v)) by {
                assert(st.visited[v as int]);
                assert(settled(q, st, v) ==> settled(q, rest, v));
            }
        } else {
            let nbs = q.links[cur.slot as int][q.level];
            assert forall|i: int| 0 <= i < nbs.len() implies on_level(
                q.links,
                #[trigger] nbs[i],
                q.level,
            ) by {}
            assert forall|v: usize| v < q.links.len() && #[trigger] rest.visited[v as int] implies
                is_open(rest, v) || Some(cur.slot) == Some(v) || settled(q, rest, v) || beyond(
                q,
                rest,
                v,
            ) by {
                assert(st.visited[v as int]);
                assert(settled(q, st, v) ==> settled(q, rest, v));
            }
            assert forall|i: int| 0 <= i < rest.results.len() implies ({
                let v = (#[trigger] rest.results[i]).slot;
                is_open(rest, v) || Some(cur.slot) == Some(v) || settled(q, rest, v)
            }) by {
                let v = st.results[i].slot;
                assert(settled(q, st, v) ==> settled(q, rest, v));
            }
            assert(pending(q, rest, Some(cur.slot)));
            assert(tracked_well(q, rest));
            lemma_relaxed_all_tracked(q, rest, nbs, closed + 1, Some(cur.slot));
            let next = relaxed_all(q, rest, nbs);
            assert(settled(q, next, cur.slot));
            assert(pending(q, next, None));
            assert forall|i: int| 0 <= i < entries.len() implies on_level(
                q.links,
                #[trigger] entries[i],
                q.level,
            ) && next.visited[entries[i] as int] by {
                assert(rest.visited[entries[i] as int]);
            }
            lemma_expanded_at_rest(q, next, closed + 1, entries);
        }
    } else {
        assert forall|v: usize| v < q.links.len() && #[trigger] st.visited[v as int] implies
            settled(q, st, v) || beyond(q, st, v) by {
            assert(!is_open(st, v));
        }
    }
}

/// The results of a layer search are visited eligible nodes with their
/// distances, each once, in ascending order; an eligible node that was visited
/// and is not a result was no nearer than the worst of a full list, as far as
/// distances are numbers.
pub proof fn layer_search_is_sound(q: Quest, entries: Seq<usize>)
    requires
        linked(q.links),
        0 <= q.level,
        q.ef > 0 || (entries.len() > 0 && (q.eligible)(entries[0])),
        forall|i: int| 0 <= i < entries.len() ==> on_level(q.links, #[trigger] entries[i], q.level),
    ensures
        sound(q, explored(q, entries)),
        exhaustive(q, explored(q, entries)),
{
    lemma_entered_all_tracked(q, entries);
    lemma_expanded_at_rest(q, entered_all(q, start(q.links.len()), entries), 0, entries);
}

/// A search without a budget ends at rest, with its entry points visited.
pub proof fn lemma_explored_at_rest(q: Quest, entries: Seq<usize>)
    requires
        linked(q.links),
        0 <= q.level,
        q.ef > 0 || (entries.len() > 0 && (q.eligible)(entries[0])),
        q.budget is None,
        forall|i: int| 0 <= i < entries.len() ==> on_level(q.links, #[trigger] entries[i], q.level),
    ensures
        at_rest(q, explored(q, entries)),
        forall|i: int|
            0 <= i < entries.len() ==> explored(q, entries).visited[#[trigger] entries[i] as int],
{
    lemma_explored_ends(q, entries);
}

/// A search ends with its entry points visited, and at rest unless its budget cut
/// it short; what it counts as visited is what it visited.
pub proof fn lemma_explored_ends(q: Quest, entries: Seq<usize>)
    requires
        linked(q.links),
        0 <= q.level,
        q.ef > 0 || (entries.len() > 0 && (q.eligible)(entries[0])),
        forall|i: int| 0 <= i < entries.len() ==> on_level(q.links, #[trigger] entries[i], q.level),
    ensures
        unhurried(q, explored(q, entries)) ==> at_rest(q, explored(q, entries)),
        explored(q, entries).visits == count_set(explored(q, entries).visited),
        explored(q, entries).results.len() <= explored(q, entries).admitted <= explored(
            q,
            entries,
        ).visits,
        forall|i: int|
            0 <= i < entries.len() ==> explored(q, entries).visited[#[trigger] entries[i] as int],
{
    lemma_entered_all_tracked(q, entries);
    lemma_expanded_at_rest(q, entered_all(q, start(q.links.len()), entries), 0, entries);
}

/// A layer search is locally optimal: no eligible neighbour of a result is
/// nearer than the worst result, unless it is a result itself.
///
/// Left out are distances that are not numbers.
pub proof fn layer_search_is_locally_optimal(q: Quest, entries: Seq<usize>, i: int, nb: usize)
    requires
        linked(q.links),
        0 <= q.level,
        q.ef > 0 || (entries.len() > 0 && (q.eligible)(entries[0])),
        q.budget is None,
        forall|i: int| 0 <= i < entries.len() ==> on_level(q.links, #[trigger] entries[i], q.level),
        0 <= i < explored(q, entries).results.len(),
        q.links[explored(q, entries).results[i].slot as int][q.level].contains(nb),
        (q.eligible)(nb),
        measured(q),
    ensures
        has_result(explored(q, entries), nb) || !nearer(
            (q.dist)(nb),
            explored(q, entries).results.last().dist,
        ),
{
    lemma_explored_at_rest(q, entries);
    let st = explored(q, entries);
    let r = st.results[i].slot;
    assert(settled(q, st, r));
    let j = choose|j: int|
        0 <= j < q.links[r as int][q.level].len() && q.links[r as int][q.level][j] == nb;
    assert(st.visited[q.links[r as int][q.level][j] as int]);
    assert(on_level(q.links, q.links[r as int][q.level][j], q.level));
}

/// A walk along links of one level.
pub open spec fn walk(links: Links, level: int, path: Seq<usize>) -> bool {
    forall|i: int|
        0 <= i < path.len() - 1 ==> on_level(links, #[trigger] path[i], level)
            && links[path[i] as int][level].contains(path[i + 1])
}

/// A layer search that does not fill its result list has found every eligible
/// node that a walk from an entry point reaches.
pub proof fn layer_search_is_complete(q: Quest, entries: Seq<usize>, path: Seq<usize>)
    requires
        linked(q.links),
        0 <= q.level,
        q.budget is None,
        forall|i: int| 0 <= i < entries.len() ==> on_level(q.links, #[trigger] entries[i], q.level),
        explored(q, entries).results.len() < q.ef,
        path.len() > 0,
        entries.contains(path[0]),
        walk(q.links, q.level, path),
    ensures
        explored(q, entries).visited[path.last() as int],
        on_level(q.links, path.last(), q.level),
        (q.eligible)(path.last()) ==> has_result(explored(q, entries), path.last()),
    decreases path.len(),
{
    lemma_explored_at_rest(q, entries);
    let st = explored(q, entries);
    let last = path.last();
    if path.len() == 1 {
        let i = choose|i: int| 0 <= i < entries.len() && entries[i] == path[0];
        assert(st.visited[entries[i] as int]);
    } else {
        let t = path.drop_last();
        assert forall|i: int| 0 <= i < t.len() - 1 implies on_level(
            q.links,
            #[trigger] t[i],
            q.level,
        ) && q.links[t[i] as int][q.level].contains(t[i + 1]) by {
            assert(t[i] == path[i]);
        }
        layer_search_is_complete(q, entries, t);
        let r = t.last();
        assert(r == path[path.len() - 2]);
        assert(st.visited[r as int]);
        assert(settled(q, st, r));
        assert(q.links[r as int][q.level].contains(path[path.len() - 2 + 1]));
        let j = choose|j: int|
            0 <= j < q.links[r as int][q.level].len() && q.links[r as int][q.level][j] == last;
        assert(st.visited[q.links[r as int][q.level][j] as int]);
        assert(on_level(q.links, q.links[r as int][q.level][j], q.level));
    }
    assert(!beyond(q, st, last));
}

/// A search from an eligible entry point finds something.
pub proof fn lemma_explored_some(q: Quest, entry: usize)
    requires
        linked(q.links),
        0 <= q.level,
        on_level(q.links, entry, q.level),
        (q.eligible)(entry),
        q.budget is None,
    ensures
        explored(q, seq![entry]).results.len() > 0,
        on_level(q.links, explored(q, seq![entry]).results[0].slot, q.level),
{
    let entries = seq![entry];
    assert(on_level(q.links, entries[0], q.level));
    lemma_explored_at_rest(q, entries);
    let st = explored(q, entries);
    assert(st.visited[entries[0] as int]);
    assert(has_result(st, entry) || beyond(q, st, entry));
    let c = st.results[0];
}

/// Greedy descent ends on the level below the last one it searched.
pub proof fn lemma_descended(links: Links, dist: spec_fn(usize) -> u32, entry: usize, hi: int, lo: int)
    requires
        linked(links),
        1 <= lo,
        0 <= hi,
        on_level(links, entry, hi),
    ensures
        on_level(
            links,
            descended(links, dist, entry, hi, lo),
            if lo <= hi {
                lo - 1
            } else {
                hi
            },
        ),
    decreases hi - lo + 1,
{
    if hi >= lo {
        let q = open_quest(links, hi, dist, 1);
        lemma_explored_some(q, entry);
        let next = explored(q, seq![entry]).results[0].slot;
        lemma_descended(links, dist, next, hi - 1, lo);
    }
}

pub proof fn lemma_joined_all(
    pair: Pair,
    links: Links,
    slot: usize,
    nbs: Seq<usize>,
    l: int,
    limit: nat,
)
    requires
        linked(links),
        0 <= l,
        on_level(links, slot, l),
        forall|i: int| 0 <= i < nbs.len() ==> on_level(links, #[trigger] nbs[i], l),
    ensures
        linked(joined_all(pair, links, slot, nbs, l, limit)),
        same_shape(links, joined_all(pair, links, slot, nbs, l, limit)),
        grounded(links) ==> grounded(joined_all(pair, links, slot, nbs, l, limit)),
    decreases nbs.len(),
{
    if nbs.len() > 0 {
        let t = nbs.drop_last();
        assert forall|i: int| 0 <= i < t.len() implies on_level(links, #[trigger] t[i], l) by {
            assert(t[i] == nbs[i]);
        }
        lemma_joined_all(pair, links, slot, t, l, limit);
        let mid = joined_all(pair, links, slot, t, l, limit);
        let nb = nbs[nbs.len() - 1];
        assert(mid[nb as int].len() == links[nb as int].len());
        assert(mid[slot as int].len() == links[slot as int].len());
        lemma_joined(pair, mid, slot, nb, l, limit);
        let end = joined_all(pair, links, slot, nbs, l, limit);
        assert forall|s: int| 0 <= s < links.len() implies (#[trigger] links[s]).len()
            == end[s].len() by {
            assert(mid[s].len() == end[s].len());
        }
    }
}

/// What a level of weaving searches for and links.
pub open spec fn level_found(
    pair: Pair,
    links: Links,
    slot: usize,
    entries: Seq<usize>,
    l: int,
    ef: nat,
) -> Seq<Cand> {
    explored(open_quest(links, l, |s: usize| pair(slot, s), ef), entries).results
}

/// Everything found on a level is on that level.
proof fn lemma_level_found(
    pair: Pair,
    links: Links,
    slot: usize,
    entries: Seq<usize>,
    l: int,
    m: nat,
    ef: nat,
)
    requires
        linked(links),
        0 <= l,
        entries.len() > 0,
        forall|i: int| 0 <= i < entries.len() ==> on_level(links, #[trigger] entries[i], l),
    ensures
        level_found(pair, links, slot, entries, l, ef).len() > 0,
        forall|i: int|
            0 <= i < level_found(pair, links, slot, entries, l, ef).len() ==> on_level(
                links,
                #[trigger] slots_of(level_found(pair, links, slot, entries, l, ef))[i],
                l,
            ),
        forall|i: int|
            0 <= i < chosen(pair, level_found(pair, links, slot, entries, l, ef), m).len()
                ==> on_level(
                links,
                #[trigger] chosen(pair, level_found(pair, links, slot, entries, l, ef), m)[i],
                l,
            ) && slots_of(level_found(pair, links, slot, entries, l, ef)).contains(
                chosen(pair, level_found(pair, links, slot, entries, l, ef), m)[i],
            ),
{
    let q = open_quest(links, l, |s: usize| pair(slot, s), ef);
    lemma_explored_at_rest(q, entries);
    let st = explored(q, entries);
    let found = st.results;
    assert(st.visited[entries[0] as int]);
    assert(has_result(st, entries[0]) || beyond(q, st, entries[0]));
    assert forall|i: int| 0 <= i < found.len() implies on_level(
        links,
        #[trigger] slots_of(found)[i],
        l,
    ) by {
        let c = found[i];
    }
    lemma_chosen(pair, found, m);
    assert forall|i: int| 0 <= i < chosen(pair, found, m).len() implies on_level(
        links,
        #[trigger] chosen(pair, found, m)[i],
        l,
    ) by {
        let x = chosen(pair, found, m)[i];
        let j = choose|j: int| 0 <= j < found.len() && slots_of(found)[j] == x;
        assert(on_level(links, slots_of(found)[j], l));
    }
}

/// Weaving keeps the graph sound and every node's levels.
pub proof fn lemma_woven(
    pair: Pair,
    links: Links,
    slot: usize,
    entries: Seq<usize>,
    l: int,
    m: nat,
    m_max0: nat,
    ef: nat,
)
    requires
        linked(links),
        grounded(links),
        -1 <= l,
        entries.len() > 0,
        on_level(links, slot, l),
        forall|i: int| 0 <= i < entries.len() ==> on_level(links, #[trigger] entries[i], l),
    ensures
        linked(woven(pair, links, slot, entries, l, m, m_max0, ef)),
        grounded(woven(pair, links, slot, entries, l, m, m_max0, ef)),
        same_shape(links, woven(pair, links, slot, entries, l, m, m_max0, ef)),
    decreases l + 1,
{
    if l >= 0 {
        let found = level_found(pair, links, slot, entries, l, ef);
        let nbs = chosen(pair, found, m);
        lemma_level_found(pair, links, slot, entries, l, m, ef);
        let next = joined_all(pair, links, slot, nbs, l, max_links(l, m, m_max0));
        lemma_joined_all(pair, links, slot, nbs, l, max_links(l, m, m_max0));
        assert(next[slot as int].len() == links[slot as int].len());
        let down = slots_of(found);
        assert forall|i: int| 0 <= i < down.len() implies on_level(
            next,
            #[trigger] down[i],
            l - 1,
        ) by {
            assert(on_level(links, slots_of(found)[i], l));
            assert(next[down[i] as int].len() == links[down[i] as int].len());
        }
        lemma_woven(pair, next, slot, down, l - 1, m, m_max0, ef);
        let end = woven(pair, links, slot, entries, l, m, m_max0, ef);
        assert forall|s: int| 0 <= s < links.len() implies (#[trigger] links[s]).len()
            == end[s].len() by {
            assert(next[s].len() == end[s].len());
        }
    }
}

/// No list on the level names the node.
pub open spec fn unmentioned(links: Links, l: int, x: usize) -> bool {
    forall|s: int|
        0 <= s < links.len() && l < links[s].len() ==> !(#[trigger] links[s][l]).contains(x)
}

proof fn lemma_entered_all_avoids(q: Quest, entries: Seq<usize>, x: usize)
    requires
        x < q.links.len(),
        forall|i: int| 0 <= i < entries.len() ==> on_level(q.links, #[trigger] entries[i], q.level),
        !entries.contains(x),
    ensures
        !entered_all(q, start(q.links.len()), entries).visited[x as int],
    decreases entries.len(),
{
    if entries.len() > 0 {
        let t = entries.drop_last();
        assert forall|i: int| 0 <= i < t.len() implies on_level(
            q.links,
            #[trigger] t[i],
            q.level,
        ) && t[i] != x by {
            assert(t[i] == entries[i]);
        }
        lemma_entered_all_avoids(q, t, x);
        lemma_entered_all_tracked(q, t);
        assert(entries[entries.len() - 1] != x);
        assert(on_level(q.links, entries[entries.len() - 1], q.level));
    }
}

proof fn lemma_relaxed_all_avoids(q: Quest, st: Layer, slots: Seq<usize>, x: usize)
    requires
        st.visited.len() == q.links.len(),
        x < q.links.len(),
        !st.visited[x as int],
        forall|i: int| 0 <= i < slots.len() ==> (#[trigger] slots[i]) < q.links.len(),
        !slots.contains(x),
    ensures
        relaxed_all(q, st, slots).visited.len() == q.links.len(),
        !relaxed_all(q, st, slots).visited[x as int],
    decreases slots.len(),
{
    if slots.len() > 0 {
        let t = slots.drop_last();
        assert forall|i: int| 0 <= i < t.len() implies (#[trigger] t[i]) < q.links.len() && t[i]
            != x by {
            assert(t[i] == slots[i]);
        }
        lemma_relaxed_all_avoids(q, st, t, x);
        assert(slots[slots.len() - 1] != x);
        assert(slots[slots.len() - 1] < q.links.len());
    }
}

proof fn lemma_expanded_avoids(q: Quest, st: Layer, closed: int, x: usize)
    requires
        in_progress(q, st, closed),
        closed <= q.links.len(),
        linked(q.links),
        0 <= q.level,
        x < q.links.len(),
        unmentioned(q.links, q.level, x),
        !st.visited[x as int],
    ensures
        !expanded(q, st, (q.links.len() - closed) as nat).visited[x as int],
    decreases q.links.len() - closed,
{
    lemma_count_set(st.visited);
    if st.open.len() > 0 {
        let cur = st.open.last().0;
        let rest = Layer { open: st.open.drop_last(), ..st };
        assert(on_level(q.links, st.open[st.open.len() - 1].0.slot, q.level));
        if !finished(q, rest, cur) {
            let nbs = q.links[cur.slot as int][q.level];
            assert forall|i: int| 0 <= i < nbs.len() implies on_level(
                q.links,
                #[trigger] nbs[i],
                q.level,
            ) by {}
            assert(!q.links[cur.slot as int][q.level].contains(x));
            lemma_relaxed_all_avoids(q, rest, nbs, x);
            lemma_relaxed_all_in_progress(q, rest, nbs, closed + 1);
            lemma_expanded_avoids(q, relaxed_all(q, rest, nbs), closed + 1, x);
        }
    }
}

proof fn lemma_relaxed_all_in_progress(q: Quest, st: Layer, slots: Seq<usize>, closed: int)
    requires
        in_progress(q, st, closed),
        forall|i: int| 0 <= i < slots.len() ==> on_level(q.links, #[trigger] slots[i], q.level),
    ensures
        in_progress(q, relaxed_all(q, st, slots), closed),
    decreases slots.len(),
{
    if slots.len() > 0 {
        let t = slots.drop_last();
        assert forall|i: int| 0 <= i < t.len() implies on_level(
            q.links,
            #[trigger] t[i],
            q.level,
        ) by {
            assert(t[i] == slots[i]);
        }
        lemma_relaxed_all_in_progress(q, st, t, closed);
        assert(on_level(q.links, slots[slots.len() - 1], q.level));
        lemma_relaxed(q, relaxed_all(q, st, t), slots.last(), closed);
    }
}

/// A node that nothing links to is found only where it is an entry point.
pub proof fn lemma_explored_avoids(q: Quest, entries: Seq<usize>, x: usize)
    requires
        linked(q.links),
        0 <= q.level,
        q.ef > 0 || (entries.len() > 0 && (q.eligible)(entries[0])),
        x < q.links.len(),
        unmentioned(q.links, q.level, x),
        forall|i: int| 0 <= i < entries.len() ==> on_level(q.links, #[trigger] entries[i], q.level),
        !entries.contains(x),
    ensures
        !slots_of(explored(q, entries).results).contains(x),
        !explored(q, entries).visited[x as int],
{
    lemma_entered_all_avoids(q, entries, x);
    lemma_entered_all_tracked(q, entries);
    lemma_expanded_avoids(q, entered_all(q, start(q.links.len()), entries), 0, x);
    layer_search_is_sound(q, entries);
    let st = explored(q, entries);
    if slots_of(st.results).contains(x) {
        let i = choose|i: int| 0 <= i < st.results.len() && slots_of(st.results)[i] == x;
        let c = st.results[i];
        assert(c.slot == x);
    }
}

/// Every list is within the limit of its level.
pub open spec fn within_limits(links: Links, m: nat, m_max0: nat) -> bool {
    forall|s: int, l: int|
        0 <= s < links.len() && 0 <= l < links[s].len() ==> (#[trigger] links[s][l]).len()
            <= list_limit(l, m, m_max0)
}

/// A new node takes `m` links on any level; a node that gets a link back is
/// pruned to the limit of the level.
pub open spec fn list_limit(l: int, m: nat, m_max0: nat) -> nat {
    if l == 0 && m_max0 > m {
        m_max0
    } else {
        m
    }
}

/// All lists but one are within limits.
pub open spec fn within_limits_but(links: Links, m: nat, m_max0: nat, slot: int, level: int) -> bool {
    forall|s: int, l: int|
        0 <= s < links.len() && 0 <= l < links[s].len() && !(s == slot && l == level) ==> (
        #[trigger] links[s][l]).len() <= list_limit(l, m, m_max0)
}

proof fn lemma_joined_all_limits(
    pair: Pair,
    links: Links,
    slot: usize,
    nbs: Seq<usize>,
    l: int,
    m: nat,
    m_max0: nat,
)
    requires
        linked(links),
        0 <= l,
        on_level(links, slot, l),
        forall|i: int| 0 <= i < nbs.len() ==> on_level(links, #[trigger] nbs[i], l),
        !nbs.contains(slot),
        links[slot as int][l].len() == 0,
        within_limits_but(links, m, m_max0, slot as int, l),
    ensures
        within_limits_but(
            joined_all(pair, links, slot, nbs, l, max_links(l, m, m_max0)),
            m,
            m_max0,
            slot as int,
            l,
        ),
        joined_all(pair, links, slot, nbs, l, max_links(l, m, m_max0))[slot as int][l].len()
            == nbs.len(),
        forall|s: int, b: int|
            0 <= s < links.len() && 0 <= b < links[s].len() && b != l ==> #[trigger] joined_all(
                pair,
                links,
                slot,
                nbs,
                l,
                max_links(l, m, m_max0),
            )[s][b] == links[s][b],
    decreases nbs.len(),
{
    let limit = max_links(l, m, m_max0);
    if nbs.len() > 0 {
        let t = nbs.drop_last();
        assert forall|i: int| 0 <= i < t.len() implies on_level(links, #[trigger] t[i], l) && t[i]
            != slot by {
            assert(t[i] == nbs[i]);
        }
        lemma_joined_all(pair, links, slot, t, l, limit);
        lemma_joined_all_limits(pair, links, slot, t, l, m, m_max0);
        let mid = joined_all(pair, links, slot, t, l, limit);
        let nb = nbs[nbs.len() - 1];
        assert(nb != slot);
        assert(on_level(links, nb, l));
        assert(mid[nb as int].len() == links[nb as int].len());
        assert(mid[slot as int].len() == links[slot as int].len());
        let a = with_link(mid, slot as int, l, nb);
        let b = with_link(a, nb as int, l, slot);
        lemma_with_link(mid, slot as int, l, nb);
        assert(a[nb as int] == mid[nb as int]);
        lemma_with_link(a, nb as int, l, slot);
        assert(b[nb as int].len() == a[nb as int].len());
        lemma_shrunk(pair, b, nb, l, limit);
        let end = joined_all(pair, links, slot, nbs, l, limit);
        assert(end == shrunk(pair, b, nb, l, limit));
        assert(end[slot as int] == b[slot as int]);
        assert(b[slot as int] == a[slot as int]);
        assert(a[slot as int][l].len() == mid[slot as int][l].len() + 1);
        assert forall|s: int, c: int|
            0 <= s < end.len() && 0 <= c < end[s].len() && !(s == slot && c == l) implies (
        #[trigger] end[s][c]).len() <= list_limit(c, m, m_max0) by {
            if s == nb && c == l {
                assert(end[s][c].len() <= limit);
            } else {
                assert(end[s][c] == mid[s][c]);
            }
        }
        assert forall|s: int, c: int|
            0 <= s < links.len() && 0 <= c < links[s].len() && c != l implies #[trigger] end[s][c]
            == links[s][c] by {
            assert(mid[s][c] == links[s][c]);
            assert(end[s][c] == mid[s][c]);
        }
    }
}

/// The node has no links on the levels up to `l`, and nothing there links to
/// it.
pub open spec fn fresh_below(links: Links, slot: usize, l: int) -> bool {
    forall|b: int|
        #![trigger links[slot as int][b]]
        0 <= b <= l ==> links[slot as int][b].len() == 0 && unmentioned(links, b, slot)
}

/// Weaving a node into a graph within limits leaves it within limits.
pub proof fn lemma_woven_limits(
    pair: Pair,
    links: Links,
    slot: usize,
    entries: Seq<usize>,
    l: int,
    m: nat,
    m_max0: nat,
    ef: nat,
)
    requires
        linked(links),
        grounded(links),
        -1 <= l,
        entries.len() > 0,
        on_level(links, slot, l),
        forall|i: int| 0 <= i < entries.len() ==> on_level(links, #[trigger] entries[i], l),
        !entries.contains(slot),
        fresh_below(links, slot, l),
        within_limits(links, m, m_max0),
    ensures
        within_limits(woven(pair, links, slot, entries, l, m, m_max0, ef), m, m_max0),
    decreases l + 1,
{
    if l >= 0 {
        let q = open_quest(links, l, |s: usize| pair(slot, s), ef);
        let found = level_found(pair, links, slot, entries, l, ef);
        let nbs = chosen(pair, found, m);
        let limit = max_links(l, m, m_max0);
        lemma_level_found(pair, links, slot, entries, l, m, ef);
        lemma_chosen(pair, found, m);
        let next = joined_all(pair, links, slot, nbs, l, limit);
        lemma_joined_all(pair, links, slot, nbs, l, limit);
        assert(next[slot as int].len() == links[slot as int].len());
        assert(links[slot as int][l].len() == 0);
        lemma_explored_avoids(q, entries, slot);
        assert(!nbs.contains(slot)) by {
            if nbs.contains(slot) {
                let i = choose|i: int| 0 <= i < nbs.len() && nbs[i] == slot;
                assert(slots_of(found).contains(nbs[i]));
            }
        }
        lemma_joined_all_limits(pair, links, slot, nbs, l, m, m_max0);
        assert(within_limits(next, m, m_max0)) by {
            assert forall|s: int, b: int| 0 <= s < next.len() && 0 <= b < next[s].len() implies (
            #[trigger] next[s][b]).len() <= list_limit(b, m, m_max0) by {
                if s == slot && b == l {
                    assert(next[s][b].len() == nbs.len());
                }
            }
        }
        assert(fresh_below(next, slot, l - 1)) by {
            assert forall|b: int|
                #![trigger next[slot as int][b]]
                0 <= b <= l - 1 implies next[slot as int][b].len() == 0 && unmentioned(
                next,
                b,
                slot,
            ) by {
                assert(links[slot as int][b].len() == 0);
                assert(next[slot as int][b] == links[slot as int][b]);
                assert forall|s: int| 0 <= s < next.len() && b < next[s].len() implies !(
                #[trigger] next[s][b]).contains(slot) by {
                    assert(next[s].len() == links[s].len());
                    assert(next[s][b] == links[s][b]);
                }
            }
        }
        let down = slots_of(found);
        assert forall|i: int| 0 <= i < down.len() implies on_level(
            next,
            #[trigger] down[i],
            l - 1,
        ) by {
            assert(on_level(links, slots_of(found)[i], l));
            assert(next[down[i] as int].len() == links[down[i] as int].len());
        }
        lemma_woven_limits(pair, next, slot, down, l - 1, m, m_max0, ef);
    }
}

} // verus!
