//! How a graph index links its nodes.
//!
//! A new node is linked, on each of its levels, to the nearest nodes that a search
//! for it comes upon, and they are linked back to it as far as their lists have
//! room. A list that is full keeps its nearest and most diverse neighbours.

use vstd::prelude::*;
use crate::bruteforce::Brute;
use crate::distance::nearer;
use crate::graph::{
    chosen, descended, dominated, explored, joined, joined_all, lemma_neighbour_ranking, linked,
    max_links, neighbour_ranking, on_level, open_quest, same_shape, sifted, slots_of, with_link,
    woven, Cand, Links, Pair,
};
use crate::graph_laws::{
    fresh_below, lemma_descended, lemma_explored_avoids, lemma_joined_all, unmentioned,
};
use crate::hnsw::{lemma_inserted_ids, lemma_rebuilt, Hnsw, HnswParams};
use crate::hnsw_laws::{
    compaction_gives_well_built, insertion_keeps_well_built, lemma_near_is_older, lemma_placed,
    well_built,
};
use crate::nearness_laws::{everyone, lemma_routed};
use crate::numerics::Model;
use crate::rank::{first_k, sorted, Ranked};
use crate::reach_laws::{
    combed, crowded_by, enclosed, followed, lemma_explored_wide, numbers, routed, visited_by,
};
use crate::segmented_build::{
    self, grown, live_nodes, merged_graph, sealed_graph, surviving,
};
use crate::types::VectorId;
use crate::vector_laws::{
    lemma_grown_slots, lemma_live, lemma_offered, lemma_rebuilt_grows, listed, Entries,
};

verus! {

/// The distance of each node from one of them.
pub open spec fn from_node(pair: Pair, node: usize) -> spec_fn(usize) -> u32 {
    |s: usize| pair(node, s)
}

/// No candidate appears twice.
pub open spec fn apart(cands: Seq<Cand>) -> bool {
    forall|i: int, j: int|
        0 <= i < j < cands.len() ==> (#[trigger] cands[i]).slot != (#[trigger] cands[j]).slot
}

proof fn lemma_front(cands: Seq<Cand>)
    requires
        apart(cands),
        sorted(cands),
        cands.len() > 0,
    ensures
        apart(cands.drop_last()),
        sorted(cands.drop_last()),
        forall|x: Cand| #[trigger]
            cands.drop_last().contains(x) ==> cands.contains(x) && x.slot != cands.last().slot
                && x.key() <= cands.last().key() && x.dist <= cands.last().dist,
        cands.contains(cands.last()),
{
    let t = cands.drop_last();
    let n = cands.len() - 1;
    assert(cands.last() == cands[n]);
    assert forall|i: int, j: int| 0 <= i < j < t.len() implies (#[trigger] t[i]).slot != (
    #[trigger] t[j]).slot by {
        assert(t[i] == cands[i] && t[j] == cands[j]);
    }
    assert forall|i: int, j: int| 0 <= i <= j < t.len() implies (#[trigger] t[i]).key() <= (
    #[trigger] t[j]).key() by {
        assert(t[i] == cands[i] && t[j] == cands[j]);
    }
    assert forall|x: Cand| #[trigger] t.contains(x) implies cands.contains(x) && x.slot
        != cands.last().slot && x.key() <= cands.last().key() && x.dist <= cands.last().dist by {
        let i = choose|i: int| 0 <= i < t.len() && t[i] == x;
        assert(cands[i] == x);
        assert(cands[i].slot != cands[n].slot);
        assert(cands[i].key() <= cands[n].key());
    }
}

/// One pass over the candidates takes or passes over each, as long as there is
/// room; it takes the first.
proof fn lemma_sifted_counts(pair: Pair, cands: Seq<Cand>, m: nat)
    ensures
        ({
            let (sel, rest) = sifted(pair, cands, m);
            &&& sel.len() <= m
            &&& sel.len() + rest.len() <= cands.len()
            &&& sel.len() < m ==> sel.len() + rest.len() == cands.len()
            &&& m > 0 && cands.len() > 0 ==> sel.len() > 0 && sel[0] == cands[0]
            &&& forall|i: int| 0 <= i < sel.len() ==> cands.contains(#[trigger] sel[i])
            &&& forall|i: int| 0 <= i < rest.len() ==> cands.contains(#[trigger] rest[i])
        }),
    decreases cands.len(),
{
    if cands.len() > 0 {
        let t = cands.drop_last();
        lemma_sifted_counts(pair, t, m);
        let (s0, r0) = sifted(pair, t, m);
        assert forall|x: Cand| t.contains(x) implies cands.contains(x) by {
            let i = choose|i: int| 0 <= i < t.len() && t[i] == x;
            assert(cands[i] == x);
        }
        assert(cands.contains(cands[cands.len() - 1]));
        if s0.len() == 0 {
            assert(!dominated(pair, cands.last(), s0));
        }
    }
}

/// It keeps them in order and apart.
proof fn lemma_sifted_order(pair: Pair, cands: Seq<Cand>, m: nat)
    requires
        apart(cands),
        sorted(cands),
    ensures
        sorted(sifted(pair, cands, m).0),
        sorted(sifted(pair, cands, m).1),
        apart(sifted(pair, cands, m).0),
        apart(sifted(pair, cands, m).1),
        forall|i: int, j: int|
            0 <= i < sifted(pair, cands, m).0.len() && 0 <= j < sifted(pair, cands, m).1.len() ==> (
            #[trigger] sifted(pair, cands, m).0[i]).slot != (#[trigger] sifted(
                pair,
                cands,
                m,
            ).1[j]).slot,
    decreases cands.len(),
{
    if cands.len() > 0 {
        let t = cands.drop_last();
        lemma_front(cands);
        lemma_sifted_order(pair, t, m);
        lemma_sifted_counts(pair, t, m);
        let (s0, r0) = sifted(pair, t, m);
        let c = cands.last();
        assert forall|i: int| 0 <= i < s0.len() implies (#[trigger] s0[i]).slot != c.slot
            && s0[i].key() <= c.key() by {
            assert(t.contains(s0[i]));
        }
        assert forall|i: int| 0 <= i < r0.len() implies (#[trigger] r0[i]).slot != c.slot
            && r0[i].key() <= c.key() by {
            assert(t.contains(r0[i]));
        }
    }
}

/// Those taken do not dominate one another; those passed over are dominated.
proof fn lemma_sifted_diverse(pair: Pair, cands: Seq<Cand>, m: nat)
    ensures
        forall|i: int, j: int|
            0 <= i < j < sifted(pair, cands, m).0.len() ==> !nearer(
                pair(
                    (#[trigger] sifted(pair, cands, m).0[j]).slot,
                    (#[trigger] sifted(pair, cands, m).0[i]).slot,
                ),
                sifted(pair, cands, m).0[j].dist,
            ),
        forall|i: int|
            0 <= i < sifted(pair, cands, m).1.len() ==> dominated(
                pair,
                #[trigger] sifted(pair, cands, m).1[i],
                sifted(pair, cands, m).0,
            ),
    decreases cands.len(),
{
    if cands.len() > 0 {
        let t = cands.drop_last();
        lemma_sifted_diverse(pair, t, m);
        let (sel, rest) = sifted(pair, cands, m);
        let (s0, r0) = sifted(pair, t, m);
        let c = cands.last();
        assert forall|x: Cand| #[trigger] dominated(pair, x, s0) implies dominated(pair, x, sel) by {
            let j = choose|j: int|
                0 <= j < s0.len() && nearer(pair(x.slot, (#[trigger] s0[j]).slot), x.dist);
            assert(sel[j] == s0[j]);
        }
        assert forall|i: int| 0 <= i < rest.len() implies dominated(
            pair,
            #[trigger] rest[i],
            sel,
        ) by {
            if i < r0.len() {
                assert(r0[i] == rest[i]);
            }
        }
        assert forall|i: int, j: int| 0 <= i < j < sel.len() implies !nearer(
            pair((#[trigger] sel[j]).slot, (#[trigger] sel[i]).slot),
            sel[j].dist,
        ) by {
            assert(sel[i] == s0[i]);
            if j < s0.len() {
                assert(sel[j] == s0[j]);
            } else {
                assert(!dominated(pair, c, s0));
                assert(!nearer(pair(c.slot, s0[i].slot), c.dist));
            }
        }
    }
}

/// A candidate that it neither takes nor passes over comes too late.
proof fn lemma_sifted_late(pair: Pair, cands: Seq<Cand>, m: nat, i: int)
    requires
        apart(cands),
        sorted(cands),
        0 <= i < cands.len(),
    ensures
        ({
            let (sel, rest) = sifted(pair, cands, m);
            sel.contains(cands[i]) || rest.contains(cands[i]) || (sel.len() == m && forall|j: int|
                0 <= j < sel.len() ==> (#[trigger] sel[j]).dist <= cands[i].dist)
        }),
    decreases cands.len(),
{
    let t = cands.drop_last();
    let n = cands.len() - 1;
    let c = cands.last();
    lemma_front(cands);
    lemma_sifted_counts(pair, t, m);
    let (sel, rest) = sifted(pair, cands, m);
    let (s0, r0) = sifted(pair, t, m);
    if i < n {
        lemma_sifted_late(pair, t, m, i);
        assert(t[i] == cands[i]);
        if s0.contains(t[i]) {
            let j = choose|j: int| 0 <= j < s0.len() && s0[j] == t[i];
            assert(sel[j] == t[i]);
        } else if r0.contains(t[i]) {
            let j = choose|j: int| 0 <= j < r0.len() && r0[j] == t[i];
            assert(rest[j] == t[i]);
        }
    } else if s0.len() >= m {
        assert forall|j: int| 0 <= j < sel.len() implies (#[trigger] sel[j]).dist
            <= cands[i].dist by {
            assert(t.contains(s0[j]));
        }
    } else if dominated(pair, c, s0) {
        assert(rest[rest.len() - 1] == c);
    } else {
        assert(sel[sel.len() - 1] == c);
    }
}

/// The neighbours chosen from some candidates, of which the first `d` were chosen
/// for themselves. There are `m`, or all where there are fewer candidates, each
/// once, and the nearest is the first. None of the first `d` is nearer to one
/// before it than to the node; each of the others is nearer to one of the first
/// `d`, and stands in for want of better. A candidate that was left out is nearer
/// to one of the first `d` as well, and none of those that stand in is farther; or
/// there was no room, and none of those chosen for themselves is farther.
pub open spec fn well_chosen(
    pair: Pair,
    dist: spec_fn(usize) -> u32,
    cands: Seq<usize>,
    m: nat,
    out: Seq<usize>,
    d: int,
) -> bool {
    &&& 0 <= d <= out.len()
    &&& out.len() == (if cands.len() < m {
        cands.len()
    } else {
        m
    })
    &&& out.no_duplicates()
    &&& forall|i: int| 0 <= i < out.len() ==> cands.contains(#[trigger] out[i])
    &&& forall|i: int|
        0 <= i < cands.len() && out.len() > 0 ==> dist(out[0]) <= dist(#[trigger] cands[i])
    &&& forall|i: int, j: int|
        0 <= i < j < d ==> !nearer(
            pair(#[trigger] out[j], #[trigger] out[i]),
            dist(out[j]),
        )
    &&& forall|i: int| d <= i < out.len() ==> covered_by(pair, dist, out, d, #[trigger] out[i])
    &&& forall|i: int|
        #![trigger cands[i]]
        0 <= i < cands.len() && !out.contains(cands[i]) ==> {
            ||| covered_by(pair, dist, out, d, cands[i]) && forall|j: int|
                d <= j < out.len() ==> dist(#[trigger] out[j]) <= dist(cands[i])
            ||| d == m && forall|j: int| 0 <= j < d ==> dist(#[trigger] out[j]) <= dist(cands[i])
        }
}

/// The node is nearer to one of the first `d` than to the node that it is chosen
/// for.
pub open spec fn covered_by(
    pair: Pair,
    dist: spec_fn(usize) -> u32,
    out: Seq<usize>,
    d: int,
    x: usize,
) -> bool {
    exists|j: int| 0 <= j < d && nearer(pair(x, #[trigger] out[j]), dist(x))
}

/// Neighbours are well chosen.
pub proof fn selection_keeps_the_nearest_and_the_diverse(
    pair: Pair,
    dist: spec_fn(usize) -> u32,
    cands: Seq<Cand>,
    m: nat,
)
    requires
        apart(cands),
        sorted(cands),
        forall|i: int| 0 <= i < cands.len() ==> (#[trigger] cands[i]).dist == dist(cands[i].slot),
    ensures
        exists|d: int| #[trigger]
            well_chosen(pair, dist, slots_of(cands), m, chosen(pair, cands, m), d),
{
    let (sel, rest) = sifted(pair, cands, m);
    lemma_sifted_counts(pair, cands, m);
    lemma_sifted_order(pair, cands, m);
    lemma_sifted_diverse(pair, cands, m);
    let fill = first_k(rest, (m - sel.len()) as nat);
    let all = sel + fill;
    let out = chosen(pair, cands, m);
    let slots = slots_of(cands);
    let d = sel.len() as int;
    assert(out == slots_of(all));
    assert forall|i: int| 0 <= i < all.len() implies cands.contains(#[trigger] all[i]) && out[i]
        == all[i].slot && all[i].dist == dist(out[i]) by {
        if i < d {
            assert(all[i] == sel[i]);
        } else {
            assert(all[i] == rest[i - d]);
        }
        let j = choose|j: int| 0 <= j < cands.len() && cands[j] == all[i];
        assert(cands[j].dist == dist(cands[j].slot));
    }
    assert(out.no_duplicates()) by {
        assert forall|i: int, j: int|
            0 <= i < out.len() && 0 <= j < out.len() && i != j implies out[i] != out[j] by {
            let a = if i < j {
                i
            } else {
                j
            };
            let b = if i < j {
                j
            } else {
                i
            };
            if b < d {
                assert(all[a] == sel[a] && all[b] == sel[b]);
            } else if a < d {
                assert(all[a] == sel[a] && all[b] == rest[b - d]);
            } else {
                assert(all[a] == rest[a - d] && all[b] == rest[b - d]);
            }
            assert(all[a].slot != all[b].slot);
        }
    }
    assert forall|i: int| 0 <= i < out.len() implies slots.contains(#[trigger] out[i]) by {
        let j = choose|j: int| 0 <= j < cands.len() && cands[j] == all[i];
        assert(slots[j] == out[i]);
    }
    assert forall|i: int| 0 <= i < slots.len() && out.len() > 0 implies dist(out[0]) <= dist(
        #[trigger] slots[i],
    ) by {
        assert(all[0] == sel[0]);
        assert(cands[0].key() <= cands[i].key());
        assert(cands[i].dist == dist(cands[i].slot));
    }
    assert forall|i: int, j: int| 0 <= i < j < d implies !nearer(
        pair(#[trigger] out[j], #[trigger] out[i]),
        dist(out[j]),
    ) by {
        assert(all[i] == sel[i] && all[j] == sel[j]);
    }
    assert forall|x: Cand| #[trigger] rest.contains(x) && x.dist == dist(x.slot) implies covered_by(
        pair,
        dist,
        out,
        d,
        x.slot,
    ) by {
        let i = choose|i: int| 0 <= i < rest.len() && rest[i] == x;
        assert(dominated(pair, rest[i], sel));
        let j = choose|j: int|
            0 <= j < sel.len() && nearer(pair(x.slot, (#[trigger] sel[j]).slot), x.dist);
        assert(all[j] == sel[j]);
        assert(out[j] == sel[j].slot);
    }
    assert forall|i: int| d <= i < out.len() implies covered_by(
        pair,
        dist,
        out,
        d,
        #[trigger] out[i],
    ) by {
        assert(all[i] == rest[i - d]);
        assert(rest.contains(rest[i - d]));
    }
    assert forall|i: int|
        #![trigger slots[i]]
        0 <= i < slots.len() && !out.contains(slots[i]) implies {
        ||| covered_by(pair, dist, out, d, slots[i]) && forall|j: int|
            d <= j < out.len() ==> dist(#[trigger] out[j]) <= dist(slots[i])
        ||| d == m && forall|j: int| 0 <= j < d ==> dist(#[trigger] out[j]) <= dist(slots[i])
    } by {
        let c = cands[i];
        assert(c.dist == dist(c.slot));
        assert(slots[i] == c.slot);
        lemma_sifted_late(pair, cands, m, i);
        if sel.contains(c) {
            let j = choose|j: int| 0 <= j < sel.len() && sel[j] == c;
            assert(all[j] == c);
            assert(out[j] == slots[i]);
        }
        if rest.contains(c) {
            let p = choose|p: int| 0 <= p < rest.len() && rest[p] == c;
            if p < fill.len() {
                assert(all[d + p] == c);
                assert(out[d + p] == slots[i]);
            }
            assert forall|j: int| d <= j < out.len() implies dist(#[trigger] out[j]) <= dist(
                slots[i],
            ) by {
                assert(all[j] == rest[j - d]);
                assert(rest[j - d].key() <= rest[p].key());
            }
        } else {
            assert forall|j: int| 0 <= j < d implies dist(#[trigger] out[j]) <= dist(slots[i]) by {
                assert(all[j] == sel[j]);
            }
        }
    }
    assert(well_chosen(pair, dist, slots, m, out, d));
}

/// The order of the candidates does not matter.
proof fn lemma_well_chosen_same(
    pair: Pair,
    dist: spec_fn(usize) -> u32,
    a: Seq<usize>,
    b: Seq<usize>,
    m: nat,
    out: Seq<usize>,
    d: int,
)
    requires
        a.len() == b.len(),
        forall|x: usize| a.contains(x) <==> b.contains(x),
        well_chosen(pair, dist, a, m, out, d),
    ensures
        well_chosen(pair, dist, b, m, out, d),
{
    assert forall|i: int| 0 <= i < b.len() implies a.contains(#[trigger] b[i]) by {
        assert(b.contains(b[i]));
    }
    assert forall|i: int| 0 <= i < b.len() && out.len() > 0 implies dist(out[0]) <= dist(
        #[trigger] b[i],
    ) by {
        let j = choose|j: int| 0 <= j < a.len() && a[j] == b[i];
        assert(dist(out[0]) <= dist(a[j]));
    }
    assert forall|i: int|
        #![trigger b[i]]
        0 <= i < b.len() && !out.contains(b[i]) implies {
        ||| covered_by(pair, dist, out, d, b[i]) && forall|j: int|
            d <= j < out.len() ==> dist(#[trigger] out[j]) <= dist(b[i])
        ||| d == m && forall|j: int| 0 <= j < d ==> dist(#[trigger] out[j]) <= dist(b[i])
    } by {
        let j = choose|j: int| 0 <= j < a.len() && a[j] == b[i];
        assert(!out.contains(a[j]));
    }
}

/// What becomes of the list of a node that a new node links to: the new node is
/// added where there is room, and otherwise the list keeps as many as it may hold,
/// well chosen.
pub open spec fn linked_back(
    pair: Pair,
    before: Seq<usize>,
    after: Seq<usize>,
    node: usize,
    slot: usize,
    limit: nat,
) -> bool {
    let all = before.push(slot);
    if before.len() < limit {
        after == all
    } else {
        &&& after.len() == limit
        &&& forall|i: int| 0 <= i < after.len() ==> all.contains(#[trigger] after[i])
        &&& all.no_duplicates() ==> exists|d: int| #[trigger]
            well_chosen(pair, from_node(pair, node), all, limit, after, d)
    }
}

proof fn lemma_pruned(pair: Pair, before: Seq<usize>, node: usize, slot: usize, limit: nat)
    ensures
        ({
            let all = before.push(slot);
            linked_back(
                pair,
                before,
                if all.len() <= limit {
                    all
                } else {
                    chosen(pair, neighbour_ranking(pair, node, all), limit)
                },
                node,
                slot,
                limit,
            )
        }),
{
    let all = before.push(slot);
    let cands = neighbour_ranking(pair, node, all);
    let dist = from_node(pair, node);
    let raw = Seq::new(all.len(), |i: int| Cand { dist: pair(node, all[i]), slot: all[i] });
    let out = chosen(pair, cands, limit);
    lemma_neighbour_ranking(pair, node, all);
    crate::rank::lemma_ranked(raw);
    if all.len() > limit {
        lemma_sifted_counts(pair, cands, limit);
        crate::graph::lemma_chosen(pair, cands, limit);
        assert forall|i: int| 0 <= i < cands.len() implies raw.contains(#[trigger] cands[i])
            && cands[i].dist == dist(cands[i].slot) by {
            assert(cands.contains(cands[i]));
            assert(raw.contains(cands[i]));
            let j = choose|j: int| 0 <= j < raw.len() && raw[j] == cands[i];
            assert(raw[j].dist == dist(raw[j].slot));
        }
        assert forall|x: usize| #[trigger] slots_of(cands).contains(x) <==> all.contains(x) by {
            if slots_of(cands).contains(x) {
                let i = choose|i: int| 0 <= i < cands.len() && slots_of(cands)[i] == x;
                assert(all.contains(cands[i].slot));
            }
            if all.contains(x) {
                let i = choose|i: int| 0 <= i < all.len() && all[i] == x;
                assert(raw.contains(raw[i]));
                assert(cands.contains(raw[i]));
                let j = choose|j: int| 0 <= j < cands.len() && cands[j] == raw[i];
                assert(slots_of(cands)[j] == x);
            }
        }
        assert forall|i: int| 0 <= i < out.len() implies all.contains(#[trigger] out[i]) by {
            assert(slots_of(cands).contains(out[i]));
        }
        if all.no_duplicates() {
            assert(raw.no_duplicates()) by {
                assert forall|i: int, j: int|
                    0 <= i < raw.len() && 0 <= j < raw.len() && i != j implies raw[i]
                    != raw[j] by {
                    assert(all[i] != all[j]);
                }
            }
            raw.lemma_multiset_has_no_duplicates();
            cands.lemma_multiset_has_no_duplicates_conv();
            assert forall|i: int, j: int| 0 <= i < j < cands.len() implies (
            #[trigger] cands[i]).slot != (#[trigger] cands[j]).slot by {
                assert(cands[i] != cands[j]);
            }
            selection_keeps_the_nearest_and_the_diverse(pair, dist, cands, limit);
            let d = choose|d: int| #[trigger]
                well_chosen(pair, dist, slots_of(cands), limit, out, d);
            lemma_well_chosen_same(pair, dist, slots_of(cands), all, limit, out, d);
        }
    }
}

/// What linking two nodes does to the lists.
proof fn lemma_joined_lists(pair: Pair, links: Links, slot: usize, nb: usize, l: int, limit: nat)
    requires
        slot != nb,
        0 <= l,
        on_level(links, slot, l),
        on_level(links, nb, l),
    ensures
        ({
            let end = joined(pair, links, slot, nb, l, limit);
            &&& same_shape(links, end)
            &&& end[slot as int][l] == links[slot as int][l].push(nb)
            &&& linked_back(pair, links[nb as int][l], end[nb as int][l], nb, slot, limit)
            &&& forall|s: int, b: int|
                0 <= s < links.len() && 0 <= b < links[s].len() && (b != l || (s != slot && s
                    != nb)) ==> #[trigger] end[s][b] == links[s][b]
        }),
{
    lemma_pruned(pair, links[nb as int][l], nb, slot, limit);
    let a = with_link(links, slot as int, l, nb);
    let b = with_link(a, nb as int, l, slot);
    assert(a[nb as int] == links[nb as int]);
    assert(b[nb as int][l] == links[nb as int][l].push(slot));
    assert(b[slot as int] == a[slot as int]);
}

/// What linking a node to all its neighbours does to the lists.
proof fn lemma_joined_all_lists(
    pair: Pair,
    links: Links,
    slot: usize,
    nbs: Seq<usize>,
    l: int,
    limit: nat,
)
    requires
        0 <= l,
        on_level(links, slot, l),
        forall|i: int| 0 <= i < nbs.len() ==> on_level(links, #[trigger] nbs[i], l),
        nbs.no_duplicates(),
        !nbs.contains(slot),
    ensures
        ({
            let end = joined_all(pair, links, slot, nbs, l, limit);
            &&& same_shape(links, end)
            &&& end[slot as int][l] == links[slot as int][l] + nbs
            &&& forall|i: int|
                0 <= i < nbs.len() ==> linked_back(
                    pair,
                    links[#[trigger] nbs[i] as int][l],
                    end[nbs[i] as int][l],
                    nbs[i],
                    slot,
                    limit,
                )
            &&& forall|s: int, b: int|
                0 <= s < links.len() && 0 <= b < links[s].len() && (b != l || (s != slot
                    && !nbs.contains(s as usize))) ==> #[trigger] end[s][b] == links[s][b]
        }),
    decreases nbs.len(),
{
    let end = joined_all(pair, links, slot, nbs, l, limit);
    if nbs.len() == 0 {
        assert(end[slot as int][l] =~= links[slot as int][l] + nbs);
    } else {
        let t = nbs.drop_last();
        let nb = nbs[nbs.len() - 1];
        assert forall|i: int| 0 <= i < t.len() implies on_level(links, #[trigger] t[i], l) && t[i]
            != slot && t[i] != nb by {
            assert(t[i] == nbs[i]);
        }
        assert(!t.contains(nb) && !t.contains(slot));
        lemma_joined_all_lists(pair, links, slot, t, l, limit);
        let mid = joined_all(pair, links, slot, t, l, limit);
        assert(mid[slot as int].len() == links[slot as int].len());
        assert(mid[nb as int].len() == links[nb as int].len());
        assert(nb != slot);
        assert(on_level(links, nb, l));
        lemma_joined_lists(pair, mid, slot, nb, l, limit);
        assert(mid[nb as int][l] == links[nb as int][l]);
        assert(end[slot as int][l] =~= links[slot as int][l] + nbs);
        assert forall|i: int| 0 <= i < nbs.len() implies linked_back(
            pair,
            links[#[trigger] nbs[i] as int][l],
            end[nbs[i] as int][l],
            nbs[i],
            slot,
            limit,
        ) by {
            if i < t.len() {
                let x = t[i];
                assert(x == nbs[i]);
                assert(mid[x as int].len() == links[x as int].len());
                assert(end[x as int][l] == mid[x as int][l]);
            }
        }
        assert forall|s: int, b: int|
            0 <= s < links.len() && 0 <= b < links[s].len() && (b != l || (s != slot
                && !nbs.contains(s as usize))) implies #[trigger] end[s][b] == links[s][b] by {
            assert(mid[s].len() == links[s].len());
            if b == l && s != slot && !nbs.contains(s as usize) {
                if t.contains(s as usize) {
                    let i = choose|i: int| 0 <= i < t.len() && t[i] == s as usize;
                    assert(nbs[i] == s as usize);
                }
                assert(nbs.contains(nb));
                assert(s as usize != nb);
            }
            assert(mid[s][b] == links[s][b]);
            assert(end[s][b] == mid[s][b]);
        }
        assert forall|s: int| 0 <= s < links.len() implies (#[trigger] links[s]).len()
            == end[s].len() by {
            assert(mid[s].len() == links[s].len());
        }
    }
}

/// What a search found, of what it saw: each node once, and none that is left out
/// is nearer, as far as distances are numbers.
pub open spec fn found_among(
    links: Links,
    dist: spec_fn(usize) -> u32,
    ef: nat,
    seen: Set<usize>,
    found: Seq<usize>,
) -> bool {
    &&& found.no_duplicates()
    &&& forall|i: int| 0 <= i < found.len() ==> seen.contains(#[trigger] found[i])
    &&& forall|s: usize| #[trigger]
        seen.contains(s) ==> found.contains(s) || (found.len() > 0 && found.len() >= ef && (numbers(
            links,
            dist,
        ) ==> forall|i: int| 0 <= i < found.len() ==> !nearer(dist(s), dist(#[trigger] found[i]))))
}

/// A node is spliced into a level. Its list is well chosen from what a search for
/// it found; the nodes in its list are linked back; all other lists stay.
pub open spec fn spliced(
    pair: Pair,
    before: Links,
    after: Links,
    slot: usize,
    l: int,
    m: nat,
    limit: nat,
    ef: nat,
    seen: Set<usize>,
    found: Seq<usize>,
    d: int,
) -> bool {
    let dist = from_node(pair, slot);
    let list = after[slot as int][l];
    &&& combed(before, l, dist, everyone(), ef, seen)
    &&& forall|s: usize| #[trigger] seen.contains(s) ==> on_level(before, s, l) && s != slot
    &&& found_among(before, dist, ef, seen, found)
    &&& found.len() > 0
    &&& well_chosen(pair, dist, found, m, list, d)
    &&& forall|i: int|
        0 <= i < list.len() ==> linked_back(
            pair,
            before[#[trigger] list[i] as int][l],
            after[list[i] as int][l],
            list[i],
            slot,
            limit,
        )
    &&& forall|s: usize|
        on_level(before, s, l) && s != slot && !list.contains(s) ==> (
        #[trigger] after[s as int])[l] == before[s as int][l]
}

/// One level of weaving splices the node in.
proof fn lemma_level_spliced(
    pair: Pair,
    links: Links,
    slot: usize,
    entries: Seq<usize>,
    l: int,
    m: nat,
    limit: nat,
    ef: nat,
)
    requires
        linked(links),
        0 <= l,
        entries.len() > 0,
        on_level(links, slot, l),
        forall|i: int| 0 <= i < entries.len() ==> on_level(links, #[trigger] entries[i], l),
        !entries.contains(slot),
        links[slot as int][l].len() == 0,
        unmentioned(links, l, slot),
    ensures
        ({
            let st = explored(open_quest(links, l, |s: usize| pair(slot, s), ef), entries);
            let nbs = chosen(pair, st.results, m);
            let seen = visited_by(st);
            let end = joined_all(pair, links, slot, nbs, l, limit);
            &&& exists|d: int| #[trigger]
                spliced(
                    pair,
                    links,
                    end,
                    slot,
                    l,
                    m,
                    limit,
                    ef,
                    seen,
                    slots_of(st.results),
                    d,
                )
            &&& same_shape(links, end)
            &&& end[slot as int][l] == nbs
            &&& forall|i: int| 0 <= i < entries.len() ==> seen.contains(#[trigger] entries[i])
            &&& forall|s: int, b: int|
                0 <= s < links.len() && 0 <= b < links[s].len() && b != l ==> #[trigger] end[s][b]
                    == links[s][b]
            &&& forall|i: int|
                0 <= i < nbs.len() ==> slots_of(st.results).contains(#[trigger] nbs[i])
        }),
{
    let dist = from_node(pair, slot);
    let q = open_quest(links, l, |s: usize| pair(slot, s), ef);
    assert(q.dist =~= dist);
    assert(q.eligible =~= everyone());
    assert((q.eligible)(entries[0]));
    lemma_explored_wide(q, entries);
    crate::graph_laws::layer_search_is_sound(q, entries);
    lemma_explored_avoids(q, entries, slot);
    crate::graph_laws::lemma_explored_at_rest(q, entries);
    let st = explored(q, entries);
    let seen = visited_by(st);
    let found = slots_of(st.results);
    let nbs = chosen(pair, st.results, m);
    let end = joined_all(pair, links, slot, nbs, l, limit);
    assert(seen.contains(entries[0]));
    assert(st.visited[entries[0] as int]);
    assert(crate::graph_laws::has_result(st, entries[0]) || crate::graph_laws::beyond(
        q,
        st,
        entries[0],
    ));
    assert(apart(st.results));
    selection_keeps_the_nearest_and_the_diverse(pair, dist, st.results, m);
    let d = choose|d: int| #[trigger] well_chosen(pair, dist, found, m, nbs, d);
    assert forall|i: int| 0 <= i < found.len() implies seen.contains(#[trigger] found[i])
        && on_level(links, found[i], l) by {
        let c = st.results[i];
        assert(found[i] == c.slot);
    }
    assert forall|s: usize| #[trigger] seen.contains(s) implies on_level(links, s, l) && s
        != slot by {
        assert(st.visited[s as int]);
    }
    assert(found.no_duplicates()) by {
        assert forall|a: int, b: int|
            0 <= a < found.len() && 0 <= b < found.len() && a != b implies found[a] != found[b] by {
            if a < b {
                assert(st.results[a].slot != st.results[b].slot);
            } else {
                assert(st.results[b].slot != st.results[a].slot);
            }
        }
    }
    assert forall|s: usize| #[trigger] seen.contains(s) implies found.contains(s) || (found.len()
        > 0 && found.len() >= ef && (numbers(links, dist) ==> forall|i: int|
        0 <= i < found.len() ==> !nearer(dist(s), dist(#[trigger] found[i])))) by {
        assert((q.eligible)(s));
        if crate::graph_laws::has_result(st, s) {
            let i = choose|i: int| 0 <= i < st.results.len() && (#[trigger] st.results[i]).slot == s;
            assert(found[i] == s);
        } else if numbers(links, dist) {
            assert forall|i: int| 0 <= i < found.len() implies !nearer(
                dist(s),
                dist(#[trigger] found[i]),
            ) by {
                let c = st.results[i];
                assert(c.dist == dist(c.slot));
            }
        }
    }
    assert forall|i: int| 0 <= i < nbs.len() implies on_level(links, #[trigger] nbs[i], l)
        && nbs[i] != slot by {
        assert(found.contains(nbs[i]));
        let j = choose|j: int| 0 <= j < found.len() && found[j] == nbs[i];
        assert(seen.contains(found[j]));
    }
    assert(!nbs.contains(slot));
    lemma_joined_all_lists(pair, links, slot, nbs, l, limit);
    assert(end[slot as int][l] =~= nbs);
    assert forall|s: usize| on_level(links, s, l) && s != slot && !nbs.contains(s) implies (
    #[trigger] end[s as int])[l] == links[s as int][l] by {
        assert(end[s as int][l] == links[s as int][l]);
    }
    assert(spliced(pair, links, end, slot, l, m, limit, ef, seen, found, d));
}

/// Weaving leaves the lists above its level alone.
proof fn lemma_woven_above(
    pair: Pair,
    links: Links,
    slot: usize,
    entries: Seq<usize>,
    l: int,
    m: nat,
    m_max0: nat,
    ef: nat,
)
    requires
        linked(links),
        -1 <= l,
        entries.len() > 0,
        on_level(links, slot, l),
        forall|i: int| 0 <= i < entries.len() ==> on_level(links, #[trigger] entries[i], l),
        !entries.contains(slot),
        fresh_below(links, slot, l),
    ensures
        ({
            let end = woven(pair, links, slot, entries, l, m, m_max0, ef);
            &&& same_shape(links, end)
            &&& forall|s: int, b: int|
                0 <= s < links.len() && l < b < links[s].len() ==> #[trigger] end[s][b]
                    == links[s][b]
        }),
    decreases l + 1,
{
    if l >= 0 {
        let limit = max_links(l, m, m_max0);
        assert(links[slot as int][l].len() == 0);
        lemma_level_spliced(pair, links, slot, entries, l, m, limit, ef);
        lemma_next_level(pair, links, slot, entries, l, m, m_max0, ef);
        let st = explored(open_quest(links, l, |s: usize| pair(slot, s), ef), entries);
        let next = joined_all(pair, links, slot, chosen(pair, st.results, m), l, limit);
        let down = slots_of(st.results);
        lemma_woven_above(pair, next, slot, down, l - 1, m, m_max0, ef);
        let end = woven(pair, links, slot, entries, l, m, m_max0, ef);
        assert forall|s: int, b: int| 0 <= s < links.len() && l < b < links[s].len() implies
            #[trigger] end[s][b] == links[s][b] by {
            assert(next[s].len() == links[s].len());
            assert(end[s][b] == next[s][b]);
            assert(next[s][b] == links[s][b]);
        }
        assert forall|s: int| 0 <= s < links.len() implies (#[trigger] links[s]).len()
            == end[s].len() by {
            assert(next[s].len() == links[s].len());
        }
    }
}

/// After a level is done, the next one is ready.
#[verifier::spinoff_prover]
proof fn lemma_next_level(
    pair: Pair,
    links: Links,
    slot: usize,
    entries: Seq<usize>,
    l: int,
    m: nat,
    m_max0: nat,
    ef: nat,
)
    requires
        linked(links),
        0 <= l,
        entries.len() > 0,
        on_level(links, slot, l),
        forall|i: int| 0 <= i < entries.len() ==> on_level(links, #[trigger] entries[i], l),
        !entries.contains(slot),
        fresh_below(links, slot, l),
    ensures
        ({
            let st = explored(open_quest(links, l, |s: usize| pair(slot, s), ef), entries);
            let next = joined_all(
                pair,
                links,
                slot,
                chosen(pair, st.results, m),
                l,
                max_links(l, m, m_max0),
            );
            let down = slots_of(st.results);
            &&& linked(next)
            &&& down.len() > 0
            &&& on_level(next, slot, l - 1)
            &&& forall|i: int| 0 <= i < down.len() ==> on_level(next, #[trigger] down[i], l - 1)
            &&& !down.contains(slot)
            &&& fresh_below(next, slot, l - 1)
        }),
{
    let limit = max_links(l, m, m_max0);
    assert(links[slot as int][l].len() == 0);
    lemma_level_spliced(pair, links, slot, entries, l, m, limit, ef);
    let st = explored(open_quest(links, l, |s: usize| pair(slot, s), ef), entries);
    let nbs = chosen(pair, st.results, m);
    let next = joined_all(pair, links, slot, nbs, l, limit);
    let down = slots_of(st.results);
    let seen = visited_by(st);
    let d = choose|d: int| #[trigger]
        spliced(pair, links, next, slot, l, m, limit, ef, seen, down, d);
    assert forall|i: int| 0 <= i < down.len() implies on_level(links, #[trigger] down[i], l)
        && down[i] != slot by {
        assert(seen.contains(down[i]));
    }
    assert forall|i: int| 0 <= i < nbs.len() implies on_level(links, #[trigger] nbs[i], l) by {
        assert(down.contains(nbs[i]));
        let j = choose|j: int| 0 <= j < down.len() && down[j] == nbs[i];
        assert(on_level(links, down[j], l));
    }
    lemma_joined_all(pair, links, slot, nbs, l, limit);
    assert(next[slot as int].len() == links[slot as int].len());
    assert forall|i: int| 0 <= i < down.len() implies on_level(next, #[trigger] down[i], l - 1) by {
        assert(on_level(links, down[i], l));
        assert(next[down[i] as int].len() == links[down[i] as int].len());
    }
    assert(!down.contains(slot));
    assert(on_level(next, slot, l - 1));
    assert(fresh_below(next, slot, l - 1)) by {
        assert forall|b: int|
            #![trigger next[slot as int][b]]
            0 <= b <= l - 1 implies next[slot as int][b].len() == 0 && unmentioned(
            next,
            b,
            slot,
        ) by {
            assert(links[slot as int][b].len() == 0);
            assert(unmentioned(links, b, slot));
            assert(next[slot as int][b] == links[slot as int][b]);
            assert forall|s: int| 0 <= s < next.len() && b < next[s].len() implies !(
            #[trigger] next[s][b]).contains(slot) by {
                assert(next[s].len() == links[s].len());
                assert(next[s][b] == links[s][b]);
                assert(!links[s][b].contains(slot));
            }
        }
    }
}

/// Lists that are the same on a level are as good to splice into.
proof fn lemma_spliced_same(
    pair: Pair,
    a: Links,
    b: Links,
    after: Links,
    slot: usize,
    l: int,
    m: nat,
    limit: nat,
    ef: nat,
    seen: Set<usize>,
    found: Seq<usize>,
    d: int,
)
    requires
        same_shape(a, b),
        0 <= l,
        forall|s: int| 0 <= s < a.len() && l < a[s].len() ==> (#[trigger] b[s])[l] == a[s][l],
        spliced(pair, b, after, slot, l, m, limit, ef, seen, found, d),
    ensures
        spliced(pair, a, after, slot, l, m, limit, ef, seen, found, d),
{
    let dist = from_node(pair, slot);
    let list = after[slot as int][l];
    assert forall|s: usize| #[trigger] on_level(a, s, l) == on_level(b, s, l) by {
        if s < a.len() {
            assert(a[s as int].len() == b[s as int].len());
        }
    }
    assert(numbers(a, dist) == numbers(b, dist));
    assert forall|s: usize| #[trigger] seen.contains(s) implies followed(a, l, seen, s) == followed(
        b,
        l,
        seen,
        s,
    ) by {
        assert(on_level(b, s, l));
        assert(on_level(a, s, l));
        assert(b[s as int][l] == a[s as int][l]);
    }
    assert forall|s: usize| #[trigger] seen.contains(s) implies followed(a, l, seen, s) || enclosed(
        a,
        l,
        dist,
        everyone(),
        ef,
        seen,
        s,
    ) by {
        if !followed(a, l, seen, s) {
            assert(enclosed(b, l, dist, everyone(), ef, seen, s));
            let near = choose|near: Seq<usize>| #[trigger]
                crowded_by(b, dist, everyone(), ef, seen, s, near) && forall|i: int|
                    0 <= i < near.len() ==> followed(b, l, seen, #[trigger] near[i]);
            assert(crowded_by(a, dist, everyone(), ef, seen, s, near));
            assert forall|i: int| 0 <= i < near.len() implies followed(
                a,
                l,
                seen,
                #[trigger] near[i],
            ) by {
                assert(seen.contains(near[i]));
            }
        }
    }
    assert forall|i: int| 0 <= i < list.len() implies linked_back(
        pair,
        a[#[trigger] list[i] as int][l],
        after[list[i] as int][l],
        list[i],
        slot,
        limit,
    ) by {
        assert(found.contains(list[i]));
        let j = choose|j: int| 0 <= j < found.len() && found[j] == list[i];
        assert(seen.contains(found[j]));
        assert(on_level(b, list[i], l));
        assert(b[list[i] as int][l] == a[list[i] as int][l]);
    }
    assert forall|s: usize| on_level(a, s, l) && s != slot && !list.contains(s) implies (
    #[trigger] after[s as int])[l] == a[s as int][l] by {
        assert(on_level(b, s, l));
        assert(b[s as int][l] == a[s as int][l]);
    }
}

/// Where a node is spliced into a level: what was seen, and what of it was found.
pub open spec fn spliced_in(
    pair: Pair,
    before: Links,
    after: Links,
    slot: usize,
    l: int,
    m: nat,
    limit: nat,
    ef: nat,
    seen: Set<usize>,
) -> bool {
    exists|found: Seq<usize>, d: int| #[trigger]
        spliced(pair, before, after, slot, l, m, limit, ef, seen, found, d)
}

/// Weaving splices the node into each level, starting on the first from the entry
/// points and on each other one from what it was linked to above.
proof fn lemma_woven_spliced(
    pair: Pair,
    links: Links,
    slot: usize,
    entries: Seq<usize>,
    l: int,
    m: nat,
    m_max0: nat,
    ef: nat,
    b: int,
) -> (seen: Set<usize>)
    requires
        linked(links),
        0 <= b <= l,
        entries.len() > 0,
        on_level(links, slot, l),
        forall|i: int| 0 <= i < entries.len() ==> on_level(links, #[trigger] entries[i], l),
        !entries.contains(slot),
        fresh_below(links, slot, l),
    ensures
        ({
            let end = woven(pair, links, slot, entries, l, m, m_max0, ef);
            &&& spliced_in(pair, links, end, slot, b, m, max_links(b, m, m_max0), ef, seen)
            &&& b == l ==> forall|i: int| 0 <= i < entries.len() ==> seen.contains(
                #[trigger] entries[i],
            )
            &&& b < l ==> forall|i: int|
                0 <= i < end[slot as int][b + 1].len() ==> seen.contains(
                    #[trigger] end[slot as int][b + 1][i],
                )
        }),
    decreases l,
{
    let limit = max_links(l, m, m_max0);
    assert(links[slot as int][l].len() == 0);
    lemma_level_spliced(pair, links, slot, entries, l, m, limit, ef);
    lemma_next_level(pair, links, slot, entries, l, m, m_max0, ef);
    let st = explored(open_quest(links, l, |s: usize| pair(slot, s), ef), entries);
    let nbs = chosen(pair, st.results, m);
    let next = joined_all(pair, links, slot, nbs, l, limit);
    let down = slots_of(st.results);
    let end = woven(pair, links, slot, entries, l, m, m_max0, ef);
    lemma_woven_above(pair, next, slot, down, l - 1, m, m_max0, ef);
    assert(next[slot as int].len() == links[slot as int].len());
    assert(end[slot as int][l] == next[slot as int][l]);
    if b == l {
        let seen = visited_by(st);
        let d = choose|d: int| #[trigger]
            spliced(pair, links, next, slot, l, m, limit, ef, seen, down, d);
        assert(spliced(pair, links, end, slot, l, m, limit, ef, seen, down, d)) by {
            let list = end[slot as int][l];
            assert forall|s: usize| #[trigger] on_level(links, s, l) implies end[s as int][l]
                == next[s as int][l] by {
                assert(next[s as int].len() == links[s as int].len());
            }
            assert forall|i: int| 0 <= i < list.len() implies linked_back(
                pair,
                links[#[trigger] list[i] as int][l],
                end[list[i] as int][l],
                list[i],
                slot,
                limit,
            ) by {
                assert(next[slot as int][l][i] == list[i]);
                assert(down.contains(list[i]));
                let j = choose|j: int| 0 <= j < down.len() && down[j] == list[i];
                assert(seen.contains(down[j]));
                assert(on_level(links, list[i], l));
            }
            assert forall|s: usize| on_level(links, s, l) && s != slot && !list.contains(
                s,
            ) implies (#[trigger] end[s as int])[l] == links[s as int][l] by {
                assert(next[s as int][l] == links[s as int][l]);
            }
        }
        seen
    } else {
        let seen = lemma_woven_spliced(pair, next, slot, down, l - 1, m, m_max0, ef, b);
        let (found, d) = choose|found: Seq<usize>, d: int| #[trigger]
            spliced(
                pair,
                next,
                end,
                slot,
                b,
                m,
                max_links(b, m, m_max0),
                ef,
                seen,
                found,
                d,
            );
        lemma_spliced_same(
            pair,
            links,
            next,
            end,
            slot,
            b,
            m,
            max_links(b, m, m_max0),
            ef,
            seen,
            found,
            d,
        );
        if b == l - 1 {
            assert forall|i: int| 0 <= i < end[slot as int][b + 1].len() implies seen.contains(
                #[trigger] end[slot as int][b + 1][i],
            ) by {
                assert(end[slot as int][l][i] == nbs[i]);
                assert(down.contains(nbs[i]));
                let j = choose|j: int| 0 <= j < down.len() && down[j] == nbs[i];
                assert(seen.contains(down[j]));
            }
        }
        seen
    }
}

/// The distance between any two nodes.
pub open spec fn spans(h: Hnsw, g: Model) -> Pair {
    |a: usize, b: usize| (g.distance)(h.metric, h.vectors[a as int], h.vectors[b as int])
}

/// The graph with one more node that has no links yet.
pub open spec fn with_bare_node(links: Links, levels: nat) -> Links {
    links.push(Seq::new(levels, |l: int| Seq::<usize>::empty()))
}

/// The highest level that a new node shares with the entry point.
pub open spec fn shared_level(before: Hnsw, after: Hnsw) -> int {
    let level = after.links[before.ids.len() as int].len() - 1;
    let top = before.links[before.entry->0 as int].len() - 1;
    if level <= top {
        level
    } else {
        top
    }
}

/// A new node is part of the graph. It has the level that was drawn for it, and
/// becomes the entry point where it is higher than the one that was. Greedy
/// descent leads to where it is linked first; from there it is spliced into each
/// level that it shares with the entry point, down to the base, each starting from
/// the nodes that it was linked to above. All other lists stay as they were.
pub open spec fn woven_in(
    h: Hnsw,
    t: Hnsw,
    g: Model,
    near: usize,
    seen: spec_fn(int) -> Set<usize>,
) -> bool {
    let n = h.ids.len() as int;
    let slot = n as usize;
    let e = h.entry->0;
    let top = h.links[e as int].len() - 1;
    let level = (g.level)(h.level_seed, h.level_m, (n - h.loaded) as u64) as int;
    let meet = shared_level(h, t);
    let pair = spans(t, g);
    let before = with_bare_node(h.links, t.links[n].len());
    let m = h.params.m as nat;
    let m_max0 = h.params.m_max0 as nat;
    &&& t.links[n].len() == level + 1
    &&& t.entry == (if level > top {
        Some(slot)
    } else {
        h.entry
    })
    &&& same_shape(before, t.links)
    &&& routed(before, from_node(pair, slot), everyone(), e, top, level + 1, near)
    &&& seen(meet).contains(near)
    &&& forall|l: int|
        0 <= l <= meet ==> spliced_in(
            pair,
            before,
            t.links,
            slot,
            l,
            m,
            if l == 0 {
                m_max0
            } else {
                m
            },
            h.params.ef_construction as nat,
            #[trigger] seen(l),
        )
    &&& forall|l: int, i: int|
        0 <= l < meet && 0 <= i < t.links[n][l + 1].len() ==> #[trigger] seen(l).contains(
            #[trigger] t.links[n][l + 1][i],
        )
    &&& forall|s: int, l: int|
        0 <= s <= n && meet < l < before[s].len() ==> #[trigger] t.links[s][l] == before[s][l]
}

/// An insertion weaves the new node in. In particular it is linked to the nearest
/// node that the search for it saw on each of its levels, and every node in its
/// lists is linked back to it, or has a list that is full.
pub proof fn insertion_weaves_the_node_in(h: Hnsw, g: Model, id: VectorId, v: Seq<u32>)
    requires
        well_built(h),
        g.sane(),
        h.entry is Some,
        h.ids.len() < usize::MAX,
    ensures
        exists|near: usize, seen: spec_fn(int) -> Set<usize>| #[trigger]
            woven_in(h, h.inserted(g, id, v), g, near, seen),
{
    let t = h.inserted(g, id, v);
    let p = h.placed(g, id, v);
    let n = h.ids.len() as int;
    let slot = n as usize;
    let e = h.entry->0;
    let top = h.links[e as int].len() - 1;
    let level = h.next_level(g) as int;
    let pair = p.pair(g);
    let dist = |s: usize| p.pair(g)(slot, s);
    let m = h.params.m as nat;
    let m_max0 = h.params.m_max0 as nat;
    let ef = h.params.ef_construction as nat;
    let meet = if level <= top {
        level
    } else {
        top
    };
    lemma_placed(h, g, id, v);
    lemma_near_is_older(h, g, id, v);
    assert(h.links[e as int].len() > 0);
    assert(p.links[e as int] == h.links[e as int]);
    let near = descended(p.links, dist, e, top, level + 1);
    let entries = seq![near];
    lemma_descended(p.links, dist, e, top, level + 1);
    lemma_routed(p.links, dist, e, top, level + 1);
    assert(on_level(p.links, entries[0], meet));
    assert(!entries.contains(slot));
    assert(fresh_below(p.links, slot, meet));
    lemma_woven_above(pair, p.links, slot, entries, meet, m, m_max0, ef);
    let end = woven(pair, p.links, slot, entries, meet, m, m_max0, ef);
    assert(t.links == end);
    assert(p.links[n].len() == end[n].len());
    let before = with_bare_node(h.links, t.links[n].len());
    assert(before =~= p.links);
    assert(t.vectors == p.vectors);
    assert(spans(t, g) =~= pair);
    assert(from_node(pair, slot) =~= dist);
    let seen = |l: int|
        choose|seen: Set<usize>|
            level_seen(pair, p.links, end, slot, entries, l, meet, m, m_max0, ef, seen);
    assert forall|l: int| 0 <= l <= meet implies level_seen(
        pair,
        p.links,
        end,
        slot,
        entries,
        l,
        meet,
        m,
        m_max0,
        ef,
        #[trigger] seen(l),
    ) by {
        let some = lemma_woven_spliced(pair, p.links, slot, entries, meet, m, m_max0, ef, l);
        assert(level_seen(pair, p.links, end, slot, entries, l, meet, m, m_max0, ef, some));
    }
    assert(level_seen(pair, p.links, end, slot, entries, meet, meet, m, m_max0, ef, seen(meet)));
    assert(seen(meet).contains(entries[0]));
    assert forall|s: int, l: int| 0 <= s <= n && meet < l < before[s].len() implies
        #[trigger] t.links[s][l] == before[s][l] by {
        assert(end[s][l] == p.links[s][l]);
    }
    assert(shared_level(h, t) == meet);
    assert(woven_in(h, t, g, near, seen));
}

/// What was seen on a level of weaving.
spec fn level_seen(
    pair: Pair,
    before: Links,
    end: Links,
    slot: usize,
    entries: Seq<usize>,
    b: int,
    l: int,
    m: nat,
    m_max0: nat,
    ef: nat,
    seen: Set<usize>,
) -> bool {
    &&& spliced_in(pair, before, end, slot, b, m, max_links(b, m, m_max0), ef, seen)
    &&& b == l ==> forall|i: int| 0 <= i < entries.len() ==> seen.contains(#[trigger] entries[i])
    &&& b < l ==> forall|i: int|
        0 <= i < end[slot as int][b + 1].len() ==> seen.contains(
            #[trigger] end[slot as int][b + 1][i],
        )
}

/// Every node has a neighbour on the base level, unless it is the only one.
pub open spec fn neighbourly(h: Hnsw) -> bool {
    h.ids.len() >= 2 ==> forall|s: int|
        0 <= s < h.ids.len() ==> (#[trigger] h.links[s])[0].len() > 0
}

/// An insertion leaves no node without a neighbour.
pub proof fn insertion_keeps_neighbourly(h: Hnsw, g: Model, id: VectorId, v: Seq<u32>)
    requires
        well_built(h),
        neighbourly(h),
        g.sane(),
        h.entry is Some || h.ids.len() == 0,
        h.ids.len() < usize::MAX,
        h.params.m > 0,
        h.params.m_max0 > 0,
    ensures
        neighbourly(h.inserted(g, id, v)),
        h.inserted(g, id, v).entry is Some,
{
    let t = h.inserted(g, id, v);
    let n = h.ids.len() as int;
    let slot = n as usize;
    lemma_inserted_ids(h, g, id, v);
    if h.entry is Some {
        insertion_weaves_the_node_in(h, g, id, v);
        let (near, seen) = choose|near: usize, seen: spec_fn(int) -> Set<usize>| #[trigger]
            woven_in(h, t, g, near, seen);
        let e = h.entry->0;
        assert(h.links[e as int].len() > 0);
        let before = with_bare_node(h.links, t.links[n].len());
        let pair = spans(t, g);
        let m = h.params.m as nat;
        let m_max0 = h.params.m_max0 as nat;
        let ef = h.params.ef_construction as nat;
        assert(spliced_in(pair, before, t.links, slot, 0, m, m_max0, ef, seen(0)));
        let (found, d) = choose|found: Seq<usize>, d: int| #[trigger]
            spliced(pair, before, t.links, slot, 0, m, m_max0, ef, seen(0), found, d);
        let list = t.links[n][0];
        assert(list.len() > 0);
        assert forall|s: int| 0 <= s < t.ids.len() implies (#[trigger] t.links[s])[0].len() > 0 by {
            if s < n {
                assert(before[s] == h.links[s]);
                assert(h.links[s].len() > 0);
                assert(on_level(before, s as usize, 0));
                if list.contains(s as usize) {
                    let i = choose|i: int| 0 <= i < list.len() && list[i] == s as usize;
                    assert(linked_back(
                        pair,
                        before[list[i] as int][0],
                        t.links[list[i] as int][0],
                        list[i],
                        slot,
                        m_max0,
                    ));
                } else if n == 1 {
                    let x = list[0];
                    assert(found.contains(x));
                    let j = choose|j: int| 0 <= j < found.len() && found[j] == x;
                    assert(seen(0).contains(found[j]));
                    assert(on_level(before, x, 0));
                    assert(x == 0);
                    assert(list[0] == s as usize);
                } else {
                    assert(t.links[(s as usize) as int][0] == before[s][0]);
                    assert(h.links[s][0].len() > 0);
                }
            }
        }
    }
}

/// A graph that was rebuilt leaves no node without a neighbour: what compaction
/// gives is linked as if its nodes had come one by one.
pub proof fn compaction_leaves_no_node_alone(h: Hnsw, g: Model, n: int)
    requires
        h.valid(),
        g.sane(),
        0 <= n <= h.ids.len(),
        h.ids.len() <= usize::MAX,
        h.params.m > 0,
        h.params.m_max0 > 0,
    ensures
        neighbourly(h.rebuilt(g, n)),
        h.rebuilt(g, n).entry is Some || h.rebuilt(g, n).ids.len() == 0,
    decreases n,
{
    if n > 0 {
        compaction_leaves_no_node_alone(h, g, n - 1);
        compaction_gives_well_built(h, g, n - 1);
        lemma_rebuilt(h, g, n - 1);
        if !h.deleted[n - 1] {
            crate::graph::lemma_count_set(h.deleted.take(n - 1));
            insertion_keeps_neighbourly(
                h.rebuilt(g, n - 1),
                g,
                h.ids[n - 1],
                h.vectors[n - 1],
            );
        }
    }
}

/// A graph that was built from records, as that of a segment is, leaves no node
/// without a neighbour.
pub proof fn built_graph_leaves_no_node_alone(
    dim: nat,
    metric: crate::distance::Metric,
    params: HnswParams,
    g: Model,
    entries: Seq<(VectorId, Seq<u32>)>,
    n: int,
)
    requires
        g.sane(),
        0 <= n <= entries.len(),
        entries.len() <= usize::MAX,
        params.m > 0,
        params.m_max0 > 0,
        forall|i: int| 0 <= i < entries.len() ==> (#[trigger] entries[i]).1.len() == dim,
    ensures
        ({
            let h = grown(Hnsw::empty(dim, metric, params), g, entries, n);
            &&& neighbourly(h)
            &&& well_built(h)
            &&& h.entry is Some || h.ids.len() == 0
            &&& h.ids.len() <= n
            &&& h.params == params
            &&& h.dim == dim
        }),
    decreases n,
{
    let start = Hnsw::empty(dim, metric, params);
    if n <= 0 {
        crate::hnsw_laws::empty_index_is_well_built(dim, metric, params);
    } else {
        built_graph_leaves_no_node_alone(dim, metric, params, g, entries, n - 1);
        let h = grown(start, g, entries, n - 1);
        let (id, v) = entries[n - 1];
        if !h.contains(id) {
            assert(entries[n - 1].1.len() == dim);
            lemma_inserted_ids(h, g, id, v);
            insertion_keeps_neighbourly(h, g, id, v);
            insertion_keeps_well_built(h, g, id, v);
        }
    }
}

/// The states that an index goes through when entries are inserted in turn.
pub open spec fn turns(start: Hnsw, g: Model, es: Entries, states: Seq<Hnsw>) -> bool {
    &&& states.len() == es.len() + 1
    &&& states[0] == start
    &&& forall|i: int|
        0 <= i < es.len() ==> #[trigger] states[i + 1] == states[i].inserted(g, es[i].0, es[i].1)
}

/// The index is what inserting the entries in turn makes of an empty one.
pub open spec fn inserted_in_turn(start: Hnsw, g: Model, es: Entries, end: Hnsw) -> bool {
    exists|states: Seq<Hnsw>| #[trigger] turns(start, g, es, states) && states.last() == end
}

proof fn lemma_grown_in_turn(start: Hnsw, g: Model, es: Entries)
    requires
        start.ids.len() == 0,
        start.deleted.len() == 0,
        start.vectors.len() == 0,
        crate::vector_laws::apart(es),
    ensures
        inserted_in_turn(start, g, es, grown(start, g, es, es.len() as int)),
{
    let states = Seq::new(es.len() + 1, |i: int| grown(start, g, es, i));
    assert forall|i: int| 0 <= i < es.len() implies #[trigger] states[i + 1] == states[i].inserted(
        g,
        es[i].0,
        es[i].1,
    ) by {
        lemma_grown_slots(start, g, es, i);
        let before = grown(start, g, es, i);
        if before.contains(es[i].0) {
            let s = choose|s: int|
                0 <= s < before.ids.len() && (#[trigger] before.ids[s]) == es[i].0
                    && !before.deleted[s];
            assert(before.ids[s] == es[s].0);
            assert(es[s].0 != es[i].0);
        }
    }
    assert(turns(start, g, es, states));
    assert(states.last() == grown(start, g, es, es.len() as int));
}

/// The records of a buffer, in order.
pub open spec fn buffered(data: Brute) -> Entries {
    Seq::new(data.ids.len(), |s: int| (data.ids[s], data.vectors[s]))
}

/// The graph of a segment is what inserting the records of its buffer in turn makes
/// of an empty index with the parameters of the whole, but for the seed.
pub proof fn segment_is_built_by_insertions(g: Model, params: HnswParams, data: Brute)
    requires
        data.valid(),
    ensures
        exists|seed: u64| #[trigger]
            inserted_in_turn(
                Hnsw::empty(data.dim, data.metric, reseeded(params, seed)),
                g,
                buffered(data),
                sealed_graph(g, params, data),
            ),
{
    let seed = params.seed.wrapping_add(data.ids.len() as u64);
    let es = buffered(data);
    assert(es =~= data.entries());
    assert forall|i: int, j: int| 0 <= i < j < es.len() implies (#[trigger] es[i]).0 != (
    #[trigger] es[j]).0 by {
        assert(data.ids[i] != data.ids[j]);
    }
    lemma_grown_in_turn(Hnsw::empty(data.dim, data.metric, reseeded(params, seed)), g, es);
    assert(inserted_in_turn(
        Hnsw::empty(data.dim, data.metric, reseeded(params, seed)),
        g,
        es,
        sealed_graph(g, params, data),
    ));
}

/// The parameters with another seed.
pub open spec fn reseeded(params: HnswParams, seed: u64) -> HnswParams {
    HnswParams { seed, ..params }
}

/// The entries are those nodes that live in a graph and are not dead, each once.
pub open spec fn living_entries(h: Hnsw, dead: Seq<VectorId>, es: Entries) -> bool {
    &&& crate::vector_laws::apart(es)
    &&& forall|i: int|
        0 <= i < es.len() ==> h.contains((#[trigger] es[i]).0) && !dead.contains(es[i].0)
    &&& forall|x: VectorId| #[trigger]
        h.contains(x) && !dead.contains(x) ==> listed(es, x, h.vectors[h.slot(x)])
}

/// A compacted graph is what inserting the live nodes in turn makes of an empty
/// index.
pub proof fn compaction_inserts_the_living(h: Hnsw, g: Model)
    requires
        h.valid(),
    ensures
        exists|es: Entries| #[trigger]
            inserted_in_turn(Hnsw::empty(h.dim, h.metric, h.params), g, es, h.compacted(g))
                && living_entries(h, Seq::empty(), es),
{
    let n = h.ids.len() as int;
    let es = h.live(n);
    let start = Hnsw::empty(h.dim, h.metric, h.params);
    lemma_live(h, n);
    lemma_rebuilt_grows(h, g, n);
    lemma_grown_in_turn(start, g, es);
    let none = Seq::<VectorId>::empty();
    assert forall|i: int| 0 <= i < es.len() implies h.contains((#[trigger] es[i]).0)
        && !none.contains(es[i].0) by {
        let s = choose|s: int|
            0 <= s < n && !h.deleted[s] && #[trigger] h.live(n)[i] == (
                #[trigger] h.ids[s],
                h.vectors[s],
            );
        assert(h.ids[s] == es[i].0);
    }
    assert forall|x: VectorId| #[trigger] h.contains(x) && !none.contains(x) implies listed(
        es,
        x,
        h.vectors[h.slot(x)],
    ) by {
        let s = h.slot(x);
        assert(h.ids[s] == x);
    }
    assert(inserted_in_turn(start, g, es, h.compacted(g)));
}

/// The graph of two merged segments is what inserting the living of both in turn
/// makes of an empty index with the parameters of the whole, but for the seed.
pub proof fn merged_segment_is_built_by_insertions(
    g: Model,
    params: HnswParams,
    pair: segmented_build::Pair,
)
    requires
        pair.fits(),
        pair.apart(),
    ensures
        exists|seed: u64, p: Entries, q: Entries|
            {
                &&& #[trigger] inserted_in_turn(
                    Hnsw::empty(pair.dim, pair.metric, reseeded(params, seed)),
                    g,
                    p + q,
                    merged_graph(g, params, pair),
                )
                &&& living_entries(pair.a, pair.a_dead, p)
                &&& living_entries(pair.b, pair.b_dead, q)
            },
{
    let p = surviving(pair.a.live(pair.a.ids.len() as int), pair.a_dead);
    let q = surviving(pair.b.live(pair.b.ids.len() as int), pair.b_dead);
    let es = p + q;
    lemma_offered(pair.a, pair.a_dead);
    lemma_offered(pair.b, pair.b_dead);
    assert(es == pair.entries());
    assert forall|i: int, j: int| 0 <= i < j < es.len() implies (#[trigger] es[i]).0 != (
    #[trigger] es[j]).0 by {
        if j < p.len() {
            assert(es[i] == p[i] && es[j] == p[j]);
        } else if i < p.len() {
            assert(es[i] == p[i] && es[j] == q[j - p.len()]);
            assert(pair.a.contains(p[i].0) && pair.b.contains(q[j - p.len()].0));
        } else {
            assert(es[i] == q[i - p.len()] && es[j] == q[j - p.len()]);
        }
    }
    let total = (live_nodes(pair.a) + live_nodes(pair.b)) as u64;
    let seed = params.seed.wrapping_add(total).wrapping_add(1);
    let start = Hnsw::empty(pair.dim, pair.metric, reseeded(params, seed));
    lemma_grown_in_turn(start, g, es);
    assert(inserted_in_turn(start, g, p + q, merged_graph(g, params, pair)));
}

} // verus!
