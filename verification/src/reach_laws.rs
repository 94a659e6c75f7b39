//! What a search of a graph comes upon, and what it answers of that.
//!
//! Nothing here speaks of the order of the search: only of links, distances, and
//! which nodes were seen.

use vstd::prelude::*;
use crate::distance::{lemma_not_nearer, nan_key, nearer};
use crate::graph::{
    count_set, entered_all, expanded, explored, finished, in_progress, lemma_count_clear, lemma_count_set, lemma_entered,
    lemma_inserted_all, lemma_relaxed, linked, on_level, relaxed, relaxed_all, slots_of, start, Cand,
    Far, Layer, Links, Quest,
};
use crate::graph_laws::{
    beyond, has_result, layer_search_is_complete, layer_search_is_sound, lemma_explored_ends,
    measured, settled, unhurried, walk,
};
use crate::rank::{first_k, lemma_inserted, sorted, Ranked};
use crate::types::{SearchResult, VectorId};

verus! {

/// The distance of every node is a number.
pub open spec fn numbers(links: Links, dist: spec_fn(usize) -> u32) -> bool {
    forall|s: usize| s < links.len() ==> !nan_key(#[trigger] dist(s))
}

/// Links of the level lead from one node to the other.
pub open spec fn leads(links: Links, level: int, from: usize, to: usize) -> bool {
    exists|path: Seq<usize>| #[trigger]
        walk(links, level, path) && path.len() > 0 && path[0] == from && path.last() == to
            && on_level(links, to, level)
}

/// Every link of the node leads to a node that was seen.
pub open spec fn followed(links: Links, level: int, seen: Set<usize>, s: usize) -> bool {
    forall|i: int|
        0 <= i < links[s as int][level].len() ==> seen.contains(
            #[trigger] links[s as int][level][i],
        )
}

/// There are `width` other nodes among those seen that may be results and are no
/// farther than the node. Of distances that are not numbers, nothing is said.
pub open spec fn crowded(
    links: Links,
    dist: spec_fn(usize) -> u32,
    eligible: spec_fn(usize) -> bool,
    width: nat,
    seen: Set<usize>,
    s: usize,
) -> bool {
    exists|near: Seq<usize>| #[trigger]
        crowded_by(links, dist, eligible, width, seen, s, near)
}

/// The nodes that crowd out another.
pub open spec fn crowded_by(
    links: Links,
    dist: spec_fn(usize) -> u32,
    eligible: spec_fn(usize) -> bool,
    width: nat,
    seen: Set<usize>,
    s: usize,
    near: Seq<usize>,
) -> bool {
    &&& near.no_duplicates()
    &&& near.len() > 0
    &&& near.len() >= width
    &&& forall|i: int|
        0 <= i < near.len() ==> seen.contains(#[trigger] near[i]) && eligible(near[i]) && near[i]
            != s && (numbers(links, dist) ==> !nearer(dist(s), dist(near[i])))
}

/// The node is crowded out by nodes all of whose links were followed.
pub open spec fn enclosed(
    links: Links,
    level: int,
    dist: spec_fn(usize) -> u32,
    eligible: spec_fn(usize) -> bool,
    width: nat,
    seen: Set<usize>,
    s: usize,
) -> bool {
    exists|near: Seq<usize>| #[trigger]
        crowded_by(links, dist, eligible, width, seen, s, near) && forall|i: int|
            0 <= i < near.len() ==> followed(links, level, seen, #[trigger] near[i])
}

/// The nodes seen are ones that links lead to, the first one among them.
pub open spec fn came_upon(links: Links, level: int, entry: usize, seen: Set<usize>) -> bool {
    &&& seen.contains(entry)
    &&& forall|s: usize| #[trigger] seen.contains(s) ==> leads(links, level, entry, s)
}

/// A search that was not cut short followed every link of every node that it saw,
/// unless it had `width` other nodes that are no farther, and had followed every
/// link of theirs.
pub open spec fn combed(
    links: Links,
    level: int,
    dist: spec_fn(usize) -> u32,
    eligible: spec_fn(usize) -> bool,
    width: nat,
    seen: Set<usize>,
) -> bool {
    forall|s: usize| #[trigger]
        seen.contains(s) ==> followed(links, level, seen, s) || enclosed(
            links,
            level,
            dist,
            eligible,
            width,
            seen,
            s,
        )
}

/// The answer names the node, with its distance.
pub open spec fn names(
    ids: Seq<VectorId>,
    dist: spec_fn(usize) -> u32,
    out: Seq<SearchResult>,
    s: usize,
) -> bool {
    out.contains(SearchResult { id: ids[s as int], distance: dist(s) })
}

/// The result is a node that was seen and may be a result, with its distance.
pub open spec fn stands_for(
    ids: Seq<VectorId>,
    dist: spec_fn(usize) -> u32,
    eligible: spec_fn(usize) -> bool,
    seen: Set<usize>,
    r: SearchResult,
) -> bool {
    exists|s: usize| #[trigger]
        seen.contains(s) && eligible(s) && r == (SearchResult {
            id: ids[s as int],
            distance: dist(s),
        })
}

/// There are `k` results, and the node is nearer than none of them. Of distances
/// that are not numbers, nothing is said.
pub open spec fn outdone(
    links: Links,
    dist: spec_fn(usize) -> u32,
    k: nat,
    out: Seq<SearchResult>,
    s: usize,
) -> bool {
    out.len() == k && (numbers(links, dist) ==> forall|i: int|
        0 <= i < out.len() ==> !nearer(dist(s), (#[trigger] out[i]).distance))
}

/// The answer is the `k` nearest of the nodes seen that may be results, or all of
/// them where there are fewer: in ascending order of distance, each id once.
pub open spec fn nearest_of(
    links: Links,
    ids: Seq<VectorId>,
    dist: spec_fn(usize) -> u32,
    eligible: spec_fn(usize) -> bool,
    seen: Set<usize>,
    k: nat,
    out: Seq<SearchResult>,
) -> bool {
    &&& out.len() <= k
    &&& forall|i: int, j: int|
        0 <= i <= j < out.len() ==> (#[trigger] out[i]).distance <= (#[trigger] out[j]).distance
    &&& forall|i: int, j: int|
        0 <= i < j < out.len() ==> (#[trigger] out[i]).id != (#[trigger] out[j]).id
    &&& forall|i: int|
        0 <= i < out.len() ==> stands_for(ids, dist, eligible, seen, #[trigger] out[i])
    &&& forall|s: usize|
        #[trigger] seen.contains(s) && eligible(s) ==> names(ids, dist, out, s) || outdone(
            links,
            dist,
            k,
            out,
            s,
        )
}

/// Every link of the nodes that were returned was followed: none of their
/// neighbours went unseen.
pub open spec fn explored_around(
    links: Links,
    ids: Seq<VectorId>,
    dist: spec_fn(usize) -> u32,
    eligible: spec_fn(usize) -> bool,
    seen: Set<usize>,
    out: Seq<SearchResult>,
) -> bool {
    forall|s: usize| #[trigger]
        seen.contains(s) && eligible(s) && names(ids, dist, out, s) ==> followed(links, 0, seen, s)
}

/// From one node the search of a level goes to the nearest that it sees of those
/// that may be results, having followed all of its links, and stays where it sees
/// none.
pub open spec fn drawn(
    links: Links,
    level: int,
    dist: spec_fn(usize) -> u32,
    eligible: spec_fn(usize) -> bool,
    from: usize,
    to: usize,
) -> bool {
    exists|seen: Set<usize>|
        {
            &&& #[trigger] came_upon(links, level, from, seen)
            &&& combed(links, level, dist, eligible, 1, seen)
            &&& to == from || (seen.contains(to) && eligible(to))
            &&& eligible(to) ==> followed(links, level, seen, to)
            &&& forall|s: usize| #[trigger]
                seen.contains(s) && eligible(s) ==> eligible(to) && (numbers(links, dist)
                    ==> !nearer(dist(s), dist(to)))
        }
}

/// Greedy descent through the levels from `level` down to `floor` leads from one
/// node to the other.
pub open spec fn routed(
    links: Links,
    dist: spec_fn(usize) -> u32,
    eligible: spec_fn(usize) -> bool,
    from: usize,
    level: int,
    floor: int,
    to: usize,
) -> bool
    decreases level - floor + 1,
{
    if level < floor {
        to == from
    } else {
        exists|mid: usize| #[trigger]
            drawn(links, level, dist, eligible, from, mid) && routed(
                links,
                dist,
                eligible,
                mid,
                level - 1,
                floor,
                to,
            )
    }
}

/// The nodes that a search visited.
pub open spec fn visited_by(st: Layer) -> Set<usize> {
    Set::new(|s: usize| s < st.visited.len() && st.visited[s as int])
}

/// Everything visited or open is among the nodes given.
spec fn within(st: Layer, p: spec_fn(usize) -> bool) -> bool {
    &&& forall|v: usize| v < st.visited.len() && #[trigger] st.visited[v as int] ==> p(v)
    &&& forall|i: int| 0 <= i < st.open.len() ==> p((#[trigger] st.open[i]).0.slot)
}

proof fn lemma_entered_all_within(q: Quest, entries: Seq<usize>, p: spec_fn(usize) -> bool)
    requires
        forall|i: int| 0 <= i < entries.len() ==> on_level(q.links, #[trigger] entries[i], q.level)
            && p(entries[i]),
    ensures
        within(entered_all(q, start(q.links.len()), entries), p),
        in_progress(q, entered_all(q, start(q.links.len()), entries), 0),
    decreases entries.len(),
{
    if entries.len() == 0 {
        crate::graph::lemma_count_none(start(q.links.len()).visited);
    } else {
        let t = entries.drop_last();
        assert forall|i: int| 0 <= i < t.len() implies on_level(q.links, #[trigger] t[i], q.level)
            && p(t[i]) by {
            assert(t[i] == entries[i]);
        }
        lemma_entered_all_within(q, t, p);
        let mid = entered_all(q, start(q.links.len()), t);
        let last = entries[entries.len() - 1];
        assert(p(last));
        lemma_entered(q, mid, last);
        let c = Cand { dist: (q.dist)(last), slot: last };
        lemma_inserted_all(mid.open, Far(c));
        let end = entered_all(q, start(q.links.len()), entries);
        assert forall|i: int| 0 <= i < end.open.len() implies p((#[trigger] end.open[i]).0.slot) by {
            if end.open[i] != Far(c) && end.open != mid.open {
                let j = choose|j: int| 0 <= j < mid.open.len() && mid.open[j] == end.open[i];
                assert(p(mid.open[j].0.slot));
            }
        }
        assert forall|v: usize| v < end.visited.len() && #[trigger] end.visited[v as int] implies p(
            v,
        ) by {
            if v != last {
                assert(mid.visited[v as int]);
            }
        }
    }
}

proof fn lemma_relaxed_all_within(
    q: Quest,
    st: Layer,
    slots: Seq<usize>,
    closed: int,
    p: spec_fn(usize) -> bool,
)
    requires
        in_progress(q, st, closed),
        within(st, p),
        forall|i: int| 0 <= i < slots.len() ==> on_level(q.links, #[trigger] slots[i], q.level)
            && p(slots[i]),
    ensures
        in_progress(q, relaxed_all(q, st, slots), closed),
        within(relaxed_all(q, st, slots), p),
    decreases slots.len(),
{
    if slots.len() > 0 {
        let t = slots.drop_last();
        assert forall|i: int| 0 <= i < t.len() implies on_level(q.links, #[trigger] t[i], q.level)
            && p(t[i]) by {
            assert(t[i] == slots[i]);
        }
        lemma_relaxed_all_within(q, st, t, closed, p);
        let mid = relaxed_all(q, st, t);
        let last = slots[slots.len() - 1];
        assert(p(last));
        lemma_relaxed(q, mid, last, closed);
        let c = Cand { dist: (q.dist)(last), slot: last };
        lemma_inserted_all(mid.open, Far(c));
        let end = relaxed_all(q, st, slots);
        assert(end == relaxed(q, mid, last));
        assert forall|i: int| 0 <= i < end.open.len() implies p((#[trigger] end.open[i]).0.slot) by {
            if end.open[i] != Far(c) && end.open != mid.open {
                let j = choose|j: int| 0 <= j < mid.open.len() && mid.open[j] == end.open[i];
                assert(p(mid.open[j].0.slot));
            }
        }
        assert forall|v: usize| v < end.visited.len() && #[trigger] end.visited[v as int] implies p(
            v,
        ) by {
            if v != last {
                assert(mid.visited[v as int]);
            }
        }
    }
}

proof fn lemma_expanded_within(q: Quest, st: Layer, closed: int, p: spec_fn(usize) -> bool)
    requires
        in_progress(q, st, closed),
        closed <= q.links.len(),
        linked(q.links),
        0 <= q.level,
        within(st, p),
        forall|s: usize, i: int|
            on_level(q.links, s, q.level) && p(s) && 0 <= i < q.links[s as int][q.level].len() ==> p(
                #[trigger] q.links[s as int][q.level][i],
            ),
    ensures
        within(expanded(q, st, (q.links.len() - closed) as nat), p),
    decreases q.links.len() - closed,
{
    lemma_count_set(st.visited);
    if st.open.len() > 0 {
        let cur = st.open.last().0;
        let rest = Layer { open: st.open.drop_last(), ..st };
        let top = st.open.len() - 1;
        assert(on_level(q.links, st.open[top].0.slot, q.level));
        assert(p(st.open[top].0.slot));
        assert forall|i: int| 0 <= i < rest.open.len() implies p((#[trigger] rest.open[i]).0.slot) by {
            assert(rest.open[i] == st.open[i]);
        }
        assert forall|v: usize| v < rest.visited.len() && #[trigger] rest.visited[v as int] implies p(
            v,
        ) by {
            assert(st.visited[v as int]);
        }
        if !finished(q, rest, cur) {
            let nbs = q.links[cur.slot as int][q.level];
            assert forall|i: int| 0 <= i < nbs.len() implies on_level(
                q.links,
                #[trigger] nbs[i],
                q.level,
            ) && p(nbs[i]) by {
                assert(on_level(q.links, q.links[cur.slot as int][q.level][i], q.level));
            }
            lemma_relaxed_all_within(q, rest, nbs, closed + 1, p);
            lemma_expanded_within(q, relaxed_all(q, rest, nbs), closed + 1, p);
        }
    }
}

/// Links lead from a node to itself, and one link farther than they lead.
proof fn lemma_leads(links: Links, level: int, from: usize)
    requires
        linked(links),
        0 <= level,
        on_level(links, from, level),
    ensures
        leads(links, level, from, from),
        forall|s: usize, i: int|
            leads(links, level, from, s) && 0 <= i < links[s as int][level].len() ==> leads(
                links,
                level,
                from,
                #[trigger] links[s as int][level][i],
            ),
{
    let alone = seq![from];
    assert(walk(links, level, alone));
    assert forall|s: usize, i: int|
        leads(links, level, from, s) && 0 <= i < links[s as int][level].len() implies leads(
        links,
        level,
        from,
        #[trigger] links[s as int][level][i],
    ) by {
        let path = choose|path: Seq<usize>| #[trigger]
            walk(links, level, path) && path.len() > 0 && path[0] == from && path.last() == s
                && on_level(links, s, level);
        let to = links[s as int][level][i];
        let longer = path.push(to);
        assert(on_level(links, links[s as int][level][i], level));
        assert forall|j: int| 0 <= j < longer.len() - 1 implies on_level(
            links,
            #[trigger] longer[j],
            level,
        ) && links[longer[j] as int][level].contains(longer[j + 1]) by {
            assert(longer[j] == path[j]);
            if j < path.len() - 1 {
                assert(longer[j + 1] == path[j + 1]);
                assert(on_level(links, path[j], level));
            } else {
                assert(longer[j + 1] == to);
                assert(links[s as int][level][i] == to);
            }
        }
        assert(walk(links, level, longer));
        assert(longer.last() == to);
    }
}

/// What a search of a level saw, and what it made of that.
pub proof fn lemma_explored_wide(q: Quest, entries: Seq<usize>)
    requires
        linked(q.links),
        0 <= q.level,
        q.ef > 0 || (entries.len() > 0 && (q.eligible)(entries[0])),
        forall|i: int| 0 <= i < entries.len() ==> on_level(q.links, #[trigger] entries[i], q.level),
    ensures
        ({
            let st = explored(q, entries);
            let seen = visited_by(st);
            &&& forall|i: int| 0 <= i < entries.len() ==> seen.contains(#[trigger] entries[i])
            &&& unhurried(q, st) ==> combed(q.links, q.level, q.dist, q.eligible, q.ef, seen)
            &&& unhurried(q, st) ==> forall|i: int|
                0 <= i < st.results.len() ==> followed(
                    q.links,
                    q.level,
                    seen,
                    (#[trigger] st.results[i]).slot,
                )
            &&& forall|i: int|
                0 <= i < st.results.len() ==> seen.contains((#[trigger] st.results[i]).slot)
                    && st.results[i].slot < q.links.len() && (q.eligible)(st.results[i].slot)
                    && st.results[i].dist == (q.dist)(st.results[i].slot)
            &&& forall|i: int, j: int|
                0 <= i < j < st.results.len() ==> (#[trigger] st.results[i]).slot != (
                #[trigger] st.results[j]).slot
            &&& forall|i: int, j: int|
                0 <= i <= j < st.results.len() ==> (#[trigger] st.results[i]).dist <= (
                #[trigger] st.results[j]).dist
            &&& forall|s: usize| #[trigger]
                seen.contains(s) && (q.eligible)(s) ==> has_result(st, s) || (st.results.len()
                    >= q.ef && (numbers(q.links, q.dist) ==> forall|i: int|
                    0 <= i < st.results.len() ==> !nearer(
                        (q.dist)(s),
                        (#[trigger] st.results[i]).dist,
                    )))
        }),
{
    layer_search_is_sound(q, entries);
    lemma_explored_ends(q, entries);
    let st = explored(q, entries);
    let seen = visited_by(st);
    assert forall|i: int| 0 <= i < entries.len() implies seen.contains(#[trigger] entries[i]) by {
        assert(st.visited[entries[i] as int]);
    }
    assert forall|i: int, j: int| 0 <= i <= j < st.results.len() implies (
    #[trigger] st.results[i]).dist <= (#[trigger] st.results[j]).dist by {
        assert(st.results[i].key() <= st.results[j].key());
    }
    assert forall|s: usize| beyond(q, st, s) && s < q.links.len() && numbers(q.links, q.dist) implies
        forall|i: int|
        0 <= i < st.results.len() ==> !nearer((q.dist)(s), (#[trigger] st.results[i]).dist) by {
        assert(measured(q));
        let last = st.results[st.results.len() - 1];
        assert forall|i: int| 0 <= i < st.results.len() implies !nearer(
            (q.dist)(s),
            (#[trigger] st.results[i]).dist,
        ) by {
            assert(!nan_key((q.dist)(last.slot)));
            assert(!nan_key((q.dist)(s)));
            lemma_not_nearer((q.dist)(s), last.dist, st.results[i].dist);
        }
    }
    assert forall|s: usize| #[trigger] seen.contains(s) && (q.eligible)(s) implies has_result(st, s)
        || (st.results.len() >= q.ef && (numbers(q.links, q.dist) ==> forall|i: int|
        0 <= i < st.results.len() ==> !nearer((q.dist)(s), (#[trigger] st.results[i]).dist))) by {
        assert(st.visited[s as int]);
    }
    if unhurried(q, st) {
        assert forall|s: usize| s < q.links.len() && on_level(q.links, s, q.level) && #[trigger]
            settled(q, st, s) implies followed(q.links, q.level, seen, s) by {
            assert forall|i: int| 0 <= i < q.links[s as int][q.level].len() implies seen.contains(
                #[trigger] q.links[s as int][q.level][i],
            ) by {
                assert(on_level(q.links, q.links[s as int][q.level][i], q.level));
                assert(st.visited[q.links[s as int][q.level][i] as int]);
            }
        }
        assert forall|i: int| 0 <= i < st.results.len() implies followed(
            q.links,
            q.level,
            seen,
            (#[trigger] st.results[i]).slot,
        ) by {
            assert(settled(q, st, st.results[i].slot));
        }
        assert forall|s: usize| #[trigger] seen.contains(s) implies followed(
            q.links,
            q.level,
            seen,
            s,
        ) || enclosed(q.links, q.level, q.dist, q.eligible, q.ef, seen, s) by {
            assert(st.visited[s as int]);
            if !settled(q, st, s) {
                assert(beyond(q, st, s));
                let near = slots_of(st.results);
                assert(near.no_duplicates()) by {
                    assert forall|a: int, b: int|
                        0 <= a < near.len() && 0 <= b < near.len() && a != b implies near[a]
                        != near[b] by {
                        if a < b {
                            assert(st.results[a].slot != st.results[b].slot);
                        } else {
                            assert(st.results[b].slot != st.results[a].slot);
                        }
                    }
                }
                assert forall|a: int| 0 <= a < near.len() implies seen.contains(
                    #[trigger] near[a],
                ) && (q.eligible)(near[a]) && near[a] != s && (numbers(q.links, q.dist)
                    ==> !nearer((q.dist)(s), (q.dist)(near[a]))) && followed(
                    q.links,
                    q.level,
                    seen,
                    near[a],
                ) by {
                    let c = st.results[a];
                    assert(near[a] == c.slot);
                    assert(settled(q, st, c.slot));
                }
                assert(crowded_by(q.links, q.dist, q.eligible, q.ef, seen, s, near));
            }
        }
    }
}

/// What a search of a level from one node saw: nodes that links lead to.
pub proof fn lemma_explored_reach(q: Quest, entry: usize)
    requires
        linked(q.links),
        0 <= q.level,
        q.ef > 0,
        on_level(q.links, entry, q.level),
    ensures
        ({
            let st = explored(q, seq![entry]);
            let seen = visited_by(st);
            &&& came_upon(q.links, q.level, entry, seen)
            &&& unhurried(q, st) ==> combed(q.links, q.level, q.dist, q.eligible, q.ef, seen)
            &&& unhurried(q, st) ==> forall|i: int|
                0 <= i < st.results.len() ==> followed(
                    q.links,
                    q.level,
                    seen,
                    (#[trigger] st.results[i]).slot,
                )
            &&& forall|i: int|
                0 <= i < st.results.len() ==> seen.contains((#[trigger] st.results[i]).slot)
                    && st.results[i].slot < q.links.len() && (q.eligible)(st.results[i].slot)
                    && st.results[i].dist == (q.dist)(st.results[i].slot)
            &&& forall|i: int, j: int|
                0 <= i < j < st.results.len() ==> (#[trigger] st.results[i]).slot != (
                #[trigger] st.results[j]).slot
            &&& forall|i: int, j: int|
                0 <= i <= j < st.results.len() ==> (#[trigger] st.results[i]).dist <= (
                #[trigger] st.results[j]).dist
            &&& forall|s: usize| #[trigger]
                seen.contains(s) && (q.eligible)(s) ==> has_result(st, s) || (st.results.len()
                    >= q.ef && (numbers(q.links, q.dist) ==> forall|i: int|
                    0 <= i < st.results.len() ==> !nearer(
                        (q.dist)(s),
                        (#[trigger] st.results[i]).dist,
                    )))
        }),
{
    let entries = seq![entry];
    assert(on_level(q.links, entries[0], q.level));
    lemma_explored_wide(q, entries);
    layer_search_is_sound(q, entries);
    let st = explored(q, entries);
    let seen = visited_by(st);
    let p = |s: usize| leads(q.links, q.level, entry, s);
    lemma_leads(q.links, q.level, entry);
    lemma_entered_all_within(q, entries, p);
    lemma_expanded_within(q, entered_all(q, start(q.links.len()), entries), 0, p);
    assert(seen.contains(entries[0]));
    assert forall|s: usize| #[trigger] seen.contains(s) implies leads(
        q.links,
        q.level,
        entry,
        s,
    ) by {
        assert(st.visited[s as int]);
        assert(p(s));
    }
}

/// As many nodes were visited as there are flags.
pub proof fn lemma_visited_count(st: Layer)
    requires
        st.visited.len() <= usize::MAX,
    ensures
        visited_by(st).finite(),
        visited_by(st).len() == count_set(st.visited),
    decreases st.visited.len(),
{
    let all = visited_by(st);
    if st.visited.len() == 0 {
        assert(all =~= Set::empty());
    } else {
        let rest = Layer { visited: st.visited.drop_last(), ..st };
        lemma_visited_count(rest);
        let last = (st.visited.len() - 1) as usize;
        if st.visited.last() {
            assert(all =~= visited_by(rest).insert(last));
        } else {
            assert(all =~= visited_by(rest));
        }
    }
}

/// The nodes seen that may be results.
pub open spec fn eligible_of(seen: Set<usize>, eligible: spec_fn(usize) -> bool) -> Set<usize> {
    Set::new(|s: usize| seen.contains(s) && eligible(s))
}

/// A search saw at least as many nodes that may be results as it returns, and no
/// more where there was room.
pub proof fn lemma_eligible_count(q: Quest, entry: usize)
    requires
        linked(q.links),
        0 <= q.level,
        q.ef > 0,
        q.links.len() <= usize::MAX,
        on_level(q.links, entry, q.level),
    ensures
        ({
            let st = explored(q, seq![entry]);
            let found = eligible_of(visited_by(st), q.eligible);
            &&& found.finite()
            &&& st.results.len() <= found.len()
            &&& st.results.len() < q.ef ==> st.results.len() == found.len()
        }),
{
    lemma_explored_reach(q, entry);
    let st = explored(q, seq![entry]);
    let seen = visited_by(st);
    let found = eligible_of(seen, q.eligible);
    let slots = slots_of(st.results);
    let entries = seq![entry];
    assert(on_level(q.links, entries[0], q.level));
    layer_search_is_sound(q, entries);
    lemma_visited_count(st);
    assert(found.subset_of(seen));
    vstd::set_lib::lemma_set_subset_finite(seen, found);
    assert(slots.no_duplicates()) by {
        assert forall|a: int, b: int|
            0 <= a < slots.len() && 0 <= b < slots.len() && a != b implies slots[a] != slots[b] by {
            if a < b {
                assert(st.results[a].slot != st.results[b].slot);
            } else {
                assert(st.results[b].slot != st.results[a].slot);
            }
        }
    }
    slots.unique_seq_to_set();
    assert(slots.to_set().subset_of(found)) by {
        assert forall|s: usize| slots.to_set().contains(s) implies found.contains(s) by {
            let i = choose|i: int| 0 <= i < slots.len() && slots[i] == s;
            let c = st.results[i];
        }
    }
    vstd::set_lib::lemma_len_subset(slots.to_set(), found);
    if st.results.len() < q.ef {
        assert forall|s: usize| found.contains(s) implies slots.to_set().contains(s) by {
            assert(seen.contains(s));
            let i = choose|i: int| 0 <= i < st.results.len() && (#[trigger] st.results[i]).slot == s;
            assert(slots[i] == s);
        }
        assert(slots.to_set() =~= found);
    }
}

/// One step of greedy descent.
pub proof fn lemma_drawn(q: Quest, from: usize)
    requires
        linked(q.links),
        0 <= q.level,
        q.ef == 1,
        q.budget is None,
        on_level(q.links, from, q.level),
    ensures
        ({
            let step = explored(q, seq![from]).results;
            let to = if step.len() > 0 {
                step[0].slot
            } else {
                from
            };
            drawn(q.links, q.level, q.dist, q.eligible, from, to) && on_level(q.links, to, q.level)
        }),
{
    lemma_explored_reach(q, from);
    let st = explored(q, seq![from]);
    let seen = visited_by(st);
    let to = if st.results.len() > 0 {
        st.results[0].slot
    } else {
        from
    };
    assert forall|s: usize| #[trigger] seen.contains(s) && (q.eligible)(s) implies (q.eligible)(to)
        && (numbers(q.links, q.dist) ==> !nearer((q.dist)(s), (q.dist)(to))) by {
        if has_result(st, s) {
            let i = choose|i: int| 0 <= i < st.results.len() && (#[trigger] st.results[i]).slot == s;
            assert(st.results[0].dist <= st.results[i].dist);
        } else {
            assert(st.results[0].slot == to);
        }
    }
    assert(came_upon(q.links, q.level, from, seen));
    if (q.eligible)(to) && st.results.len() == 0 {
        assert(seen.contains(from));
    }
    if st.results.len() > 0 {
        assert(seen.contains(st.results[0].slot));
        assert(leads(q.links, q.level, from, to));
    }
}

/// What a search of the base level answers: the nearest `k` of what it saw. Where
/// there are fewer, it saw every node that links lead to.
pub proof fn lemma_answer(q: Quest, ids: Seq<VectorId>, entry: usize, k: nat, out: Seq<SearchResult>)
    requires
        linked(q.links),
        q.level == 0,
        0 < k <= q.ef,
        on_level(q.links, entry, 0),
        forall|s: usize, t: usize|
            s < q.links.len() && t < q.links.len() && (q.eligible)(s) && (q.eligible)(t)
                && #[trigger] ids[s as int] == #[trigger] ids[t as int] ==> s == t,
        out == Seq::new(
            first_k(explored(q, seq![entry]).results, k).len(),
            |i: int|
                SearchResult {
                    id: ids[explored(q, seq![entry]).results[i].slot as int],
                    distance: explored(q, seq![entry]).results[i].dist,
                },
        ),
    ensures
        ({
            let st = explored(q, seq![entry]);
            let seen = visited_by(st);
            &&& nearest_of(q.links, ids, q.dist, q.eligible, seen, k, out)
            &&& unhurried(q, st) ==> explored_around(q.links, ids, q.dist, q.eligible, seen, out)
            &&& q.budget is None && out.len() < k ==> forall|s: usize| #[trigger]
                leads(q.links, 0, entry, s) && (q.eligible)(s) ==> names(ids, q.dist, out, s)
        }),
{
    lemma_explored_reach(q, entry);
    let st = explored(q, seq![entry]);
    let seen = visited_by(st);
    assert forall|i: int| 0 <= i < out.len() implies stands_for(
        ids,
        q.dist,
        q.eligible,
        seen,
        #[trigger] out[i],
    ) by {
        let c = st.results[i];
        assert(seen.contains(c.slot));
    }
    assert forall|i: int, j: int| 0 <= i <= j < out.len() implies (#[trigger] out[i]).distance <= (
    #[trigger] out[j]).distance by {
        assert(st.results[i].dist <= st.results[j].dist);
    }
    assert forall|i: int, j: int| 0 <= i < j < out.len() implies (#[trigger] out[i]).id != (
    #[trigger] out[j]).id by {
        assert(st.results[i].slot != st.results[j].slot);
        assert(out[i].id == ids[st.results[i].slot as int]);
        assert(out[j].id == ids[st.results[j].slot as int]);
    }
    assert forall|s: usize| #[trigger] seen.contains(s) && (q.eligible)(s) implies names(
        ids,
        q.dist,
        out,
        s,
    ) || outdone(q.links, q.dist, k, out, s) by {
        if has_result(st, s) {
            let i = choose|i: int| 0 <= i < st.results.len() && (#[trigger] st.results[i]).slot == s;
            if i < k {
                assert(out[i] == SearchResult { id: ids[s as int], distance: (q.dist)(s) });
            } else {
                assert forall|j: int| 0 <= j < out.len() implies !nearer(
                    (q.dist)(s),
                    (#[trigger] out[j]).distance,
                ) by {
                    assert(st.results[j].dist <= st.results[i].dist);
                }
            }
        } else if numbers(q.links, q.dist) {
            assert forall|j: int| 0 <= j < out.len() implies !nearer(
                (q.dist)(s),
                (#[trigger] out[j]).distance,
            ) by {
                assert(out[j].distance == st.results[j].dist);
            }
        }
    }
    if unhurried(q, st) {
        assert forall|s: usize| #[trigger] seen.contains(s) && (q.eligible)(s) && names(
            ids,
            q.dist,
            out,
            s,
        ) implies followed(q.links, 0, seen, s) by {
            let r = SearchResult { id: ids[s as int], distance: (q.dist)(s) };
            let i = choose|i: int| 0 <= i < out.len() && out[i] == r;
            let c = st.results[i];
            assert(leads(q.links, q.level, entry, s));
            assert(ids[c.slot as int] == ids[s as int]);
            assert(c.slot == s);
        }
    }
    if q.budget is None && out.len() < k {
        assert forall|s: usize| #[trigger] leads(q.links, 0, entry, s) && (q.eligible)(
            s,
        ) implies names(ids, q.dist, out, s) by {
            let path = choose|path: Seq<usize>| #[trigger]
                walk(q.links, 0, path) && path.len() > 0 && path[0] == entry && path.last() == s
                    && on_level(q.links, s, 0);
            let entries = seq![entry];
            assert(entries[0] == path[0]);
            assert(on_level(q.links, entries[0], 0));
            layer_search_is_complete(q, entries, path);
            let i = choose|i: int| 0 <= i < st.results.len() && (#[trigger] st.results[i]).slot == s;
            assert(out[i] == SearchResult { id: ids[s as int], distance: (q.dist)(s) });
        }
    }
}

/// The nodes that were visited and may be results, one flag per slot.
spec fn eligible_flags(q: Quest, st: Layer) -> Seq<bool> {
    Seq::new(st.visited.len(), |i: int| st.visited[i] && (q.eligible)(i as usize))
}

/// One node that is looked at counts once.
proof fn lemma_flag(q: Quest, st: Layer, next: Layer, slot: usize)
    requires
        slot < st.visited.len(),
        !st.visited[slot as int],
        next.visited == st.visited.update(slot as int, true),
    ensures
        count_set(eligible_flags(q, next)) == count_set(eligible_flags(q, st)) + (if (q.eligible)(
            slot,
        ) {
            1nat
        } else {
            0nat
        }),
{
    let a = eligible_flags(q, st);
    let b = eligible_flags(q, next);
    if (q.eligible)(slot) {
        lemma_count_clear(a, slot as int);
        assert(b =~= a.update(slot as int, true));
    } else {
        assert(b =~= a);
    }
}

/// No more is admitted than may be.
spec fn admits_few(q: Quest, st: Layer) -> bool {
    st.visited.len() == q.links.len() && st.admitted <= count_set(eligible_flags(q, st))
}

proof fn lemma_entered_all_admits(q: Quest, entries: Seq<usize>)
    requires
        forall|i: int| 0 <= i < entries.len() ==> on_level(q.links, #[trigger] entries[i], q.level),
    ensures
        admits_few(q, entered_all(q, start(q.links.len()), entries)),
        entered_all(q, start(q.links.len()), entries).visits <= entries.len(),
    decreases entries.len(),
{
    if entries.len() > 0 {
        let t = entries.drop_last();
        assert forall|i: int| 0 <= i < t.len() implies on_level(
            q.links,
            #[trigger] t[i],
            q.level,
        ) by {
            assert(t[i] == entries[i]);
        }
        lemma_entered_all_admits(q, t);
        let mid = entered_all(q, start(q.links.len()), t);
        let last = entries[entries.len() - 1];
        if !mid.visited[last as int] {
            lemma_flag(q, mid, entered_all(q, start(q.links.len()), entries), last);
        }
    }
}

proof fn lemma_relaxed_all_admits(q: Quest, st: Layer, slots: Seq<usize>)
    requires
        admits_few(q, st),
        forall|i: int| 0 <= i < slots.len() ==> (#[trigger] slots[i]) < q.links.len(),
    ensures
        admits_few(q, relaxed_all(q, st, slots)),
        relaxed_all(q, st, slots).visits <= st.visits + slots.len(),
    decreases slots.len(),
{
    if slots.len() > 0 {
        let t = slots.drop_last();
        assert forall|i: int| 0 <= i < t.len() implies (#[trigger] t[i]) < q.links.len() by {
            assert(t[i] == slots[i]);
        }
        lemma_relaxed_all_admits(q, st, t);
        let mid = relaxed_all(q, st, t);
        let last = slots[slots.len() - 1];
        assert(last < q.links.len());
        if !mid.visited[last as int] {
            lemma_flag(q, mid, relaxed_all(q, st, slots), last);
        }
    }
}

proof fn lemma_expanded_admits(q: Quest, st: Layer, rounds: nat, longest: nat, from: nat)
    requires
        admits_few(q, st),
        linked(q.links),
        0 <= q.level,
        forall|i: int|
            0 <= i < st.open.len() ==> on_level(q.links, (#[trigger] st.open[i]).0.slot, q.level),
        sorted(st.open),
        forall|s: int|
            0 <= s < q.links.len() && q.level < q.links[s].len() ==> (
            #[trigger] q.links[s])[q.level].len() <= longest,
        q.budget matches Some(b) ==> st.visits <= from || st.visits <= b + longest,
    ensures
        admits_few(q, expanded(q, st, rounds)),
        q.budget matches Some(b) ==> expanded(q, st, rounds).visits <= from || expanded(
            q,
            st,
            rounds,
        ).visits <= b + longest,
    decreases rounds,
{
    if rounds > 0 && st.open.len() > 0 {
        let cur = st.open.last().0;
        let rest = Layer { open: st.open.drop_last(), ..st };
        assert(eligible_flags(q, rest) =~= eligible_flags(q, st));
        assert(on_level(q.links, st.open[st.open.len() - 1].0.slot, q.level));
        if !finished(q, rest, cur) {
            let nbs = q.links[cur.slot as int][q.level];
            assert forall|i: int| 0 <= i < nbs.len() implies (#[trigger] nbs[i])
                < q.links.len() by {
                assert(on_level(q.links, q.links[cur.slot as int][q.level][i], q.level));
            }
            lemma_relaxed_all_admits(q, rest, nbs);
            lemma_relaxed_all_open(q, rest, nbs);
            lemma_expanded_admits(
                q,
                relaxed_all(q, rest, nbs),
                (rounds - 1) as nat,
                longest,
                from,
            );
        }
    }
}

/// What is opened is on the level, and stays in order.
proof fn lemma_relaxed_all_open(q: Quest, st: Layer, slots: Seq<usize>)
    requires
        sorted(st.open),
        forall|i: int|
            0 <= i < st.open.len() ==> on_level(q.links, (#[trigger] st.open[i]).0.slot, q.level),
        forall|i: int| 0 <= i < slots.len() ==> on_level(q.links, #[trigger] slots[i], q.level),
    ensures
        sorted(relaxed_all(q, st, slots).open),
        forall|i: int|
            0 <= i < relaxed_all(q, st, slots).open.len() ==> on_level(
                q.links,
                (#[trigger] relaxed_all(q, st, slots).open[i]).0.slot,
                q.level,
            ),
    decreases slots.len(),
{
    if slots.len() > 0 {
        let t = slots.drop_last();
        assert forall|i: int| 0 <= i < t.len() implies on_level(
            q.links,
            #[trigger] t[i],
            q.level,
        ) by {
            assert(t[i] == slots[i]);
        }
        lemma_relaxed_all_open(q, st, t);
        let mid = relaxed_all(q, st, t);
        let last = slots[slots.len() - 1];
        let c = Cand { dist: (q.dist)(last), slot: last };
        lemma_inserted(mid.open, Far(c));
        lemma_inserted_all(mid.open, Far(c));
        let end = relaxed_all(q, st, slots);
        assert forall|i: int| 0 <= i < end.open.len() implies on_level(
            q.links,
            (#[trigger] end.open[i]).0.slot,
            q.level,
        ) by {
            if end.open[i] != Far(c) && end.open != mid.open {
                let j = choose|j: int| 0 <= j < mid.open.len() && mid.open[j] == end.open[i];
                assert(on_level(q.links, mid.open[j].0.slot, q.level));
            }
        }
    }
}

/// A search admits no more nodes than it saw that may be results. A budget holds,
/// but for the last node whose links it followed.
pub proof fn lemma_explored_admits(q: Quest, entry: usize, longest: nat)
    requires
        linked(q.links),
        0 <= q.level,
        q.links.len() <= usize::MAX,
        on_level(q.links, entry, q.level),
        forall|s: int|
            0 <= s < q.links.len() && q.level < q.links[s].len() ==> (
            #[trigger] q.links[s])[q.level].len() <= longest,
    ensures
        ({
            let st = explored(q, seq![entry]);
            let found = eligible_of(visited_by(st), q.eligible);
            &&& found.finite()
            &&& st.admitted <= found.len()
            &&& q.budget matches Some(b) ==> st.visits <= 1 || st.visits <= b + longest
        }),
{
    let entries = seq![entry];
    assert(on_level(q.links, entries[0], q.level));
    lemma_entered_all_admits(q, entries);
    let begun = entered_all(q, start(q.links.len()), entries);
    lemma_entered_all_within(q, entries, |s: usize| true);
    lemma_expanded_admits(q, begun, q.links.len(), longest, 1);
    let st = explored(q, entries);
    let flags = Layer { visited: eligible_flags(q, st), ..st };
    lemma_visited_count(flags);
    assert(visited_by(flags) =~= eligible_of(visited_by(st), q.eligible));
}

} // verus!
