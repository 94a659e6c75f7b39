//! A layered proximity graph: best-first search on one layer, neighbour
//! selection, and linking.
//!
//! Nodes are slot numbers. `links[slot][level]` lists the neighbours of a node
//! on a level; a node has levels `0 .. links[slot].len()`.

use vstd::prelude::*;
use crate::distance::{is_nearer, nearer};
use crate::rank::{
    first_k, insert_sorted, inserted, lemma_inserted, lemma_ranked, ranked, sort, sorted, Ranked,
};

verus! {

/// A node with its distance; ordered by distance, then by slot.
#[derive(Debug, Clone, Copy, PartialEq, Eq, Structural)]
pub struct Cand {
    pub dist: u32,
    pub slot: usize,
}

impl Ranked for Cand {
    open spec fn key(self) -> int {
        self.dist * 0x1_0000_0000_0000_0000 + self.slot
    }

    proof fn key_injective(self, other: Self) {
    }

    fn rank_key(&self) -> (k: u128) {
        self.dist as u128 * 0x1_0000_0000_0000_0000u128 + self.slot as u128
    }
}

/// A candidate in the opposite order: the nearest comes last.
#[derive(Debug, Clone, Copy, PartialEq, Eq, Structural)]
pub struct Far(pub Cand);

impl Ranked for Far {
    open spec fn key(self) -> int {
        0x1_0000_0000_0000_0000_0000_0000 - self.0.key()
    }

    proof fn key_injective(self, other: Self) {
        self.0.key_injective(other.0);
    }

    fn rank_key(&self) -> (k: u128) {
        0x1_0000_0000_0000_0000_0000_0000u128 - self.0.rank_key()
    }
}

/// The neighbour lists of a graph, as sequences.
pub type Links = Seq<Seq<Seq<usize>>>;

pub open spec fn levels_view(levels: Vec<Vec<usize>>) -> Seq<Seq<usize>> {
    Seq::new(levels@.len(), |l: int| levels@[l]@)
}

pub open spec fn links_view(links: Seq<Vec<Vec<usize>>>) -> Links {
    Seq::new(links.len(), |s: int| levels_view(links[s]))
}

/// The node exists and reaches the level.
pub open spec fn on_level(links: Links, slot: usize, level: int) -> bool {
    slot < links.len() && level < links[slot as int].len()
}

/// Every link leads to a node that reaches the link's level.
pub open spec fn linked(links: Links) -> bool {
    forall|s: int, l: int, i: int|
        0 <= s < links.len() && 0 <= l < links[s].len() && 0 <= i < links[s][l].len() ==> on_level(
            links,
            #[trigger] links[s][l][i],
            l,
        )
}

/// Every node has a base level.
pub open spec fn grounded(links: Links) -> bool {
    forall|s: int| 0 <= s < links.len() ==> (#[trigger] links[s]).len() > 0
}

/// One layer search: the graph, the level, the distance of each node from the
/// query, the nodes that may become results, the result width, and the number
/// of visits after which the search is cut short.
pub ghost struct Quest {
    pub links: Links,
    pub level: int,
    pub dist: spec_fn(usize) -> u32,
    pub eligible: spec_fn(usize) -> bool,
    pub ef: nat,
    pub budget: Option<nat>,
}

/// A layer search in progress.
pub ghost struct Layer {
    /// One flag per slot.
    pub visited: Seq<bool>,
    pub visits: nat,
    pub admitted: nat,
    /// Nodes whose neighbours are still to be explored, the nearest last.
    pub open: Seq<Far>,
    /// The best admissible nodes so far, the nearest first.
    pub results: Seq<Cand>,
}

pub open spec fn start(n: nat) -> Layer {
    Layer {
        visited: Seq::new(n, |i: int| false),
        visits: 0,
        admitted: 0,
        open: Seq::empty(),
        results: Seq::empty(),
    }
}

/// An entry point is opened, and admitted where it may be a result.
pub open spec fn entered(q: Quest, st: Layer, slot: usize) -> Layer {
    if st.visited[slot as int] {
        st
    } else {
        let c = Cand { dist: (q.dist)(slot), slot };
        Layer {
            visited: st.visited.update(slot as int, true),
            visits: st.visits + 1,
            admitted: if (q.eligible)(slot) { st.admitted + 1 } else { st.admitted },
            open: inserted(st.open, Far(c)),
            results: if (q.eligible)(slot) { inserted(st.results, c) } else { st.results },
        }
    }
}

pub open spec fn entered_all(q: Quest, st: Layer, slots: Seq<usize>) -> Layer
    decreases slots.len(),
{
    if slots.len() == 0 {
        st
    } else {
        entered(q, entered_all(q, st, slots.drop_last()), slots.last())
    }
}

/// The farthest result goes where there are more than `ef`.
pub open spec fn trimmed(results: Seq<Cand>, ef: nat) -> Seq<Cand> {
    if results.len() > ef {
        results.drop_last()
    } else {
        results
    }
}

/// Can a node at this distance still improve the results?
pub open spec fn promising(q: Quest, st: Layer, dist: u32) -> bool {
    st.results.len() < q.ef || st.results.len() == 0 || nearer(
        dist,
        st.results.last().dist,
    )
}

/// A neighbour is visited once. It is opened where it is promising, and
/// becomes a result where it may; an inadmissible node serves as a bridge only.
pub open spec fn relaxed(q: Quest, st: Layer, slot: usize) -> Layer {
    if st.visited[slot as int] {
        st
    } else {
        let c = Cand { dist: (q.dist)(slot), slot };
        let seen = Layer {
            visited: st.visited.update(slot as int, true),
            visits: st.visits + 1,
            ..st
        };
        if !promising(q, st, c.dist) {
            seen
        } else if !(q.eligible)(slot) {
            Layer { open: inserted(st.open, Far(c)), ..seen }
        } else {
            Layer {
                open: inserted(st.open, Far(c)),
                results: trimmed(inserted(st.results, c), q.ef),
                admitted: st.admitted + 1,
                ..seen
            }
        }
    }
}

pub open spec fn relaxed_all(q: Quest, st: Layer, slots: Seq<usize>) -> Layer
    decreases slots.len(),
{
    if slots.len() == 0 {
        st
    } else {
        relaxed(q, relaxed_all(q, st, slots.drop_last()), slots.last())
    }
}

/// The search ends at `cur`: the budget is spent, or the nearest open node is
/// farther than the worst of a full result list.
pub open spec fn finished(q: Quest, st: Layer, cur: Cand) -> bool {
    ||| q.budget matches Some(b) && st.visits >= b
    ||| st.results.len() > 0 && nearer(st.results.last().dist, cur.dist) && st.results.len() >= q.ef
}

/// Expands the nearest open node, at most `rounds` times.
pub open spec fn expanded(q: Quest, st: Layer, rounds: nat) -> Layer
    decreases rounds,
{
    if rounds == 0 || st.open.len() == 0 {
        st
    } else {
        let cur = st.open.last().0;
        let rest = Layer { open: st.open.drop_last(), ..st };
        if finished(q, rest, cur) {
            rest
        } else {
            expanded(
                q,
                relaxed_all(q, rest, q.links[cur.slot as int][q.level]),
                (rounds - 1) as nat,
            )
        }
    }
}

/// The whole search from the given entry points. A node is opened at most
/// once, so there are at most as many rounds as nodes.
pub open spec fn explored(q: Quest, entries: Seq<usize>) -> Layer {
    expanded(q, entered_all(q, start(q.links.len()), entries), q.links.len())
}

/// Number of flags that are set.
pub open spec fn count_set(flags: Seq<bool>) -> nat
    decreases flags.len(),
{
    if flags.len() == 0 {
        0
    } else {
        count_set(flags.drop_last()) + (if flags.last() { 1nat } else { 0nat })
    }
}

pub proof fn lemma_count_set(flags: Seq<bool>)
    ensures
        count_set(flags) <= flags.len(),
    decreases flags.len(),
{
    if flags.len() > 0 {
        lemma_count_set(flags.drop_last());
    }
}

/// A flag that is clear leaves room for one more.
pub proof fn lemma_count_clear(flags: Seq<bool>, i: int)
    requires
        0 <= i < flags.len(),
        !flags[i],
    ensures
        count_set(flags) < flags.len(),
        count_set(flags.update(i, true)) == count_set(flags) + 1,
    decreases flags.len(),
{
    let t = flags.drop_last();
    lemma_count_set(t);
    if i < flags.len() - 1 {
        lemma_count_clear(t, i);
        assert(flags.update(i, true).drop_last() =~= t.update(i, true));
    } else {
        assert(flags.update(i, true).drop_last() =~= t);
    }
}

/// Counting over an all-clear sequence.
pub proof fn lemma_count_none(flags: Seq<bool>)
    requires
        forall|i: int| 0 <= i < flags.len() ==> !flags[i],
    ensures
        count_set(flags) == 0,
    decreases flags.len(),
{
    if flags.len() > 0 {
        lemma_count_none(flags.drop_last());
    }
}

/// What every state of a layer search satisfies; `closed` nodes have been
/// taken off the open list.
pub open spec fn in_progress(q: Quest, st: Layer, closed: int) -> bool {
    &&& st.visited.len() == q.links.len()
    &&& st.visits == count_set(st.visited)
    &&& st.results.len() <= st.admitted <= st.visits
    &&& 0 <= closed
    &&& closed + st.open.len() <= st.visits
    &&& sorted(st.open)
    &&& sorted(st.results)
    &&& forall|i: int|
        0 <= i < st.open.len() ==> on_level(q.links, (#[trigger] st.open[i]).0.slot, q.level)
    &&& forall|i: int|
        0 <= i < st.results.len() ==> on_level(q.links, (#[trigger] st.results[i]).slot, q.level)
}

pub proof fn lemma_entered(q: Quest, st: Layer, slot: usize)
    requires
        in_progress(q, st, 0),
        on_level(q.links, slot, q.level),
    ensures
        in_progress(q, entered(q, st, slot), 0),
        entered(q, st, slot).results.len() >= st.results.len(),
        !st.visited[slot as int] && (q.eligible)(slot) ==> entered(q, st, slot).results.len() > 0,
{
    if !st.visited[slot as int] {
        let c = Cand { dist: (q.dist)(slot), slot };
        lemma_count_clear(st.visited, slot as int);
        lemma_inserted(st.open, Far(c));
        lemma_inserted(st.results, c);
        lemma_inserted_all(st.open, Far(c));
        lemma_inserted_all(st.results, c);
    }
}

/// An element of the new sequence is `x` or an element of the old one.
pub proof fn lemma_inserted_all<T: Ranked>(s: Seq<T>, x: T)
    requires
        sorted(s),
    ensures
        forall|i: int|
            0 <= i < inserted(s, x).len() ==> (#[trigger] inserted(s, x)[i] == x || s.contains(
                inserted(s, x)[i],
            )),
{
    lemma_inserted(s, x);
    assert forall|i: int| 0 <= i < inserted(s, x).len() implies (#[trigger] inserted(s, x)[i] == x
        || s.contains(inserted(s, x)[i])) by {
        assert(inserted(s, x).contains(inserted(s, x)[i]));
    }
}

pub proof fn lemma_relaxed(q: Quest, st: Layer, slot: usize, closed: int)
    requires
        in_progress(q, st, closed),
        on_level(q.links, slot, q.level),
    ensures
        in_progress(q, relaxed(q, st, slot), closed),
        st.results.len() > 0 ==> relaxed(q, st, slot).results.len() > 0,
{
    if !st.visited[slot as int] {
        let c = Cand { dist: (q.dist)(slot), slot };
        lemma_count_clear(st.visited, slot as int);
        lemma_inserted(st.open, Far(c));
        lemma_inserted(st.results, c);
        lemma_inserted_all(st.open, Far(c));
        lemma_inserted_all(st.results, c);
    }
}

/// The executable search state stands for `st`.
pub open spec fn represents(
    st: Layer,
    visited: Seq<bool>,
    visits: usize,
    admitted: usize,
    open: Seq<Far>,
    results: Seq<Cand>,
) -> bool {
    &&& st.visited == visited
    &&& st.visits == visits
    &&& st.admitted == admitted
    &&& st.open == open
    &&& st.results == results
}

/// The closures compute the distances and the eligibility of a search.
pub open spec fn answers<D: Fn(usize) -> u32, E: Fn(usize) -> bool>(
    q: Quest,
    dist: D,
    eligible: E,
) -> bool {
    &&& forall|s: usize|
        on_level(q.links, s, q.level) ==> #[trigger] call_requires(dist, (s,))
    &&& forall|s: usize|
        on_level(q.links, s, q.level) ==> #[trigger] call_requires(eligible, (s,))
    &&& forall|s: usize, d: u32|
        on_level(q.links, s, q.level) && #[trigger] call_ensures(dist, (s,), d) ==> d == (q.dist)(s)
    &&& forall|s: usize, b: bool|
        on_level(q.links, s, q.level) && #[trigger] call_ensures(eligible, (s,), b) ==> b == (
        q.eligible)(s)
}

/// Greedy best-first search of width `ef` on one level, from the given entry
/// points. Returns the results in ascending order, the number of nodes visited
/// and the number of nodes that were ever admitted to the results.
pub(crate) fn search_layer<D: Fn(usize) -> u32, E: Fn(usize) -> bool>(
    links: &Vec<Vec<Vec<usize>>>,
    entries: &Vec<usize>,
    ef: usize,
    level: usize,
    dist: &D,
    eligible: &E,
    budget: Option<usize>,
    Ghost(q): Ghost<Quest>,
) -> (out: (Vec<Cand>, usize, usize))
    requires
        q.links == links_view(links@),
        q.level == level,
        q.ef == ef,
        q.budget == (match budget {
            Some(b) => Some(b as nat),
            None => None::<nat>,
        }),
        linked(q.links),
        answers(q, *dist, *eligible),
        forall|i: int| 0 <= i < entries@.len() ==> on_level(q.links, #[trigger] entries@[i], q.level),
    ensures
        out.0@ == explored(q, entries@).results,
        out.1 == explored(q, entries@).visits,
        out.2 == explored(q, entries@).admitted,
        sorted(out.0@),
        forall|i: int|
            0 <= i < out.0@.len() ==> on_level(q.links, (#[trigger] out.0@[i]).slot, q.level),
        entries@.len() > 0 && (q.eligible)(entries@[0]) ==> out.0@.len() > 0,
{
    let n: usize = links.len();
    let mut visited: Vec<bool> = vec![false; n];
    let mut visits: usize = 0;
    let mut admitted: usize = 0;
    let mut open: Vec<Far> = Vec::new();
    let mut results: Vec<Cand> = Vec::new();
    let ghost mut st = start(n as nat);
    proof {
        assert(visited@ =~= st.visited);
        lemma_count_none(visited@);
    }
    let mut i: usize = 0;
    while i < entries.len()
        invariant
            i <= entries@.len(),
            n == links@.len() == q.links.len(),
            q.level == level,
            answers(q, *dist, *eligible),
            forall|j: int|
                0 <= j < entries@.len() ==> on_level(q.links, #[trigger] entries@[j], q.level),
            st == entered_all(q, start(n as nat), entries@.take(i as int)),
            in_progress(q, st, 0),
            represents(st, visited@, visits, admitted, open@, results@),
            i > 0 && (q.eligible)(entries@[0]) ==> results@.len() > 0,
            i == 0 ==> forall|j: int| 0 <= j < n ==> !st.visited[j],
        decreases entries@.len() - i,
    {
        let slot: usize = entries[i];
        proof {
            assert(on_level(q.links, entries@[i as int], q.level));
            assert(entries@.take(i + 1).drop_last() =~= entries@.take(i as int));
            lemma_entered(q, st, slot);
            lemma_count_set(st.visited);
        }
        if !visited[slot] {
            proof {
                lemma_count_clear(st.visited, slot as int);
            }
            visited.set(slot, true);
            visits = visits + 1;
            let c = Cand { dist: dist(slot), slot };
            insert_sorted(&mut open, Far(c));
            if eligible(slot) {
                insert_sorted(&mut results, c);
                admitted = admitted + 1;
            }
        }
        proof {
            st = entered(q, st, slot);
        }
        i = i + 1;
    }
    proof {
        assert(entries@.take(i as int) =~= entries@);
    }
    let ghost seeded = st;
    let ghost mut closed: int = 0;
    while open.len() > 0
        invariant_except_break
            represents(st, visited@, visits, admitted, open@, results@),
            expanded(q, st, (n - closed) as nat) == explored(q, entries@),
        invariant
            n == links@.len() == q.links.len(),
            q.links == links_view(links@),
            q.level == level,
            q.ef == ef,
            q.budget == (match budget {
                Some(b) => Some(b as nat),
                None => None::<nat>,
            }),
            linked(q.links),
            answers(q, *dist, *eligible),
            in_progress(q, st, closed),
            entries@.len() > 0 && (q.eligible)(entries@[0]) ==> st.results.len() > 0,
        ensures
            results@ == explored(q, entries@).results,
            visits == explored(q, entries@).visits,
            admitted == explored(q, entries@).admitted,
            results@ == st.results,
        decreases n - closed,
    {
        proof {
            lemma_count_set(st.visited);
        }
        let ghost before = st;
        let cur: Cand = open[open.len() - 1].0;
        open.pop();
        proof {
            st = Layer { open: st.open.drop_last(), ..st };
            closed = closed + 1;
            assert(on_level(q.links, before.open[before.open.len() - 1].0.slot, q.level));
        }
        let spent: bool = match budget {
            Some(b) => visits >= b,
            None => false,
        };
        if spent {
            break;
        }
        let m: usize = results.len();
        if m > 0 && is_nearer(results[m - 1].dist, cur.dist) && m >= ef {
            break;
        }
        let neighbours: &Vec<usize> = &links[cur.slot][level];
        let ghost rest = st;
        let mut j: usize = 0;
        while j < neighbours.len()
            invariant
                j <= neighbours@.len(),
                n == links@.len() == q.links.len(),
                q.level == level,
                q.ef == ef,
                answers(q, *dist, *eligible),
                forall|t: int|
                    0 <= t < neighbours@.len() ==> on_level(
                        q.links,
                        #[trigger] neighbours@[t],
                        q.level,
                    ),
                st == relaxed_all(q, rest, neighbours@.take(j as int)),
                in_progress(q, st, closed),
                represents(st, visited@, visits, admitted, open@, results@),
                rest.results.len() > 0 ==> st.results.len() > 0,
            decreases neighbours@.len() - j,
        {
            let slot: usize = neighbours[j];
            proof {
                assert(on_level(q.links, neighbours@[j as int], q.level));
                assert(neighbours@.take(j + 1).drop_last() =~= neighbours@.take(j as int));
                lemma_relaxed(q, st, slot, closed);
                lemma_count_set(st.visited);
            }
            if !visited[slot] {
                proof {
                    lemma_count_clear(st.visited, slot as int);
                }
                visited.set(slot, true);
                visits = visits + 1;
                let d: u32 = dist(slot);
                let r: usize = results.len();
                if r < ef || r == 0 || is_nearer(d, results[r - 1].dist) {
                    let c = Cand { dist: d, slot };
                    insert_sorted(&mut open, Far(c));
                    if eligible(slot) {
                        insert_sorted(&mut results, c);
                        admitted = admitted + 1;
                        if results.len() > ef {
                            results.pop();
                        }
                    }
                }
            }
            proof {
                st = relaxed(q, st, slot);
                assert(results@ =~= st.results);
            }
            j = j + 1;
        }
        proof {
            assert(neighbours@.take(j as int) =~= neighbours@);
            assert(neighbours@ == q.links[cur.slot as int][q.level]);
        }
    }
    (results, visits, admitted)
}

/// The distance between two nodes.
pub type Pair = spec_fn(usize, usize) -> u32;

/// Is the candidate closer to a node already selected than to the query?
pub open spec fn dominated(pair: Pair, c: Cand, selected: Seq<Cand>) -> bool {
    exists|i: int|
        0 <= i < selected.len() && nearer(pair(c.slot, (#[trigger] selected[i]).slot), c.dist)
}

/// One pass over the candidates: those selected, at most `m`, and those passed
/// over because they were dominated.
pub open spec fn sifted(pair: Pair, cands: Seq<Cand>, m: nat) -> (Seq<Cand>, Seq<Cand>)
    decreases cands.len(),
{
    if cands.len() == 0 {
        (Seq::empty(), Seq::empty())
    } else {
        let (selected, passed) = sifted(pair, cands.drop_last(), m);
        let c = cands.last();
        if selected.len() >= m {
            (selected, passed)
        } else if dominated(pair, c, selected) {
            (selected, passed.push(c))
        } else {
            (selected.push(c), passed)
        }
    }
}

pub open spec fn slots_of(cands: Seq<Cand>) -> Seq<usize> {
    Seq::new(cands.len(), |i: int| cands[i].slot)
}

/// The neighbours chosen from candidates in ascending order: those that no
/// selected one dominates, topped up to `m` with the nearest of the rest.
pub open spec fn chosen(pair: Pair, cands: Seq<Cand>, m: nat) -> Seq<usize> {
    let (selected, passed) = sifted(pair, cands, m);
    slots_of(selected + first_k(passed, (m - selected.len()) as nat))
}

/// The closure computes the distance between two nodes of the graph.
pub open spec fn gauges<P: Fn(usize, usize) -> u32>(n: int, pair: Pair, f: P) -> bool {
    &&& forall|a: usize, b: usize| a < n && b < n ==> #[trigger] call_requires(f, (a, b))
    &&& forall|a: usize, b: usize, d: u32|
        a < n && b < n && #[trigger] call_ensures(f, (a, b), d) ==> d == pair(a, b)
}

proof fn lemma_sifted(pair: Pair, cands: Seq<Cand>, m: nat)
    ensures
        sifted(pair, cands, m).0.len() <= m,
        sifted(pair, cands, m).0.len() + sifted(pair, cands, m).1.len() <= cands.len(),
        forall|i: int|
            0 <= i < sifted(pair, cands, m).0.len() ==> cands.contains(
                #[trigger] sifted(pair, cands, m).0[i],
            ),
        forall|i: int|
            0 <= i < sifted(pair, cands, m).1.len() ==> cands.contains(
                #[trigger] sifted(pair, cands, m).1[i],
            ),
    decreases cands.len(),
{
    if cands.len() > 0 {
        let t = cands.drop_last();
        lemma_sifted(pair, t, m);
        assert forall|x: Cand| t.contains(x) implies cands.contains(x) by {
            let i = choose|i: int| 0 <= i < t.len() && t[i] == x;
            assert(cands[i] == x);
        }
        assert(cands.contains(cands[cands.len() - 1]));
    }
}

/// Once `m` are selected, further candidates change nothing.
proof fn lemma_sifted_full(pair: Pair, cands: Seq<Cand>, m: nat, i: int)
    requires
        0 <= i <= cands.len(),
        sifted(pair, cands.take(i), m).0.len() >= m,
    ensures
        sifted(pair, cands, m) == sifted(pair, cands.take(i), m),
    decreases cands.len(),
{
    if i < cands.len() {
        assert(cands.drop_last().take(i) =~= cands.take(i));
        lemma_sifted_full(pair, cands.drop_last(), m, i);
    } else {
        assert(cands.take(i) =~= cands);
    }
}

/// Chosen neighbours come from the candidates, and there are at most `m`.
pub proof fn lemma_chosen(pair: Pair, cands: Seq<Cand>, m: nat)
    ensures
        chosen(pair, cands, m).len() <= m,
        forall|i: int|
            0 <= i < chosen(pair, cands, m).len() ==> slots_of(cands).contains(
                #[trigger] chosen(pair, cands, m)[i],
            ),
{
    lemma_sifted(pair, cands, m);
    let (selected, passed) = sifted(pair, cands, m);
    let all = selected + first_k(passed, (m - selected.len()) as nat);
    assert forall|i: int| 0 <= i < all.len() implies slots_of(cands).contains(
        #[trigger] chosen(pair, cands, m)[i],
    ) by {
        if i < selected.len() {
            assert(all[i] == selected[i]);
        } else {
            assert(all[i] == passed[i - selected.len()]);
        }
        assert(cands.contains(all[i]));
        let j = choose|j: int| 0 <= j < cands.len() && cands[j] == all[i];
        assert(slots_of(cands)[j] == all[i].slot);
    }
}

/// Selects neighbours for a node from candidates in ascending order.
pub(crate) fn select_neighbors_heuristic<P: Fn(usize, usize) -> u32>(
    cands: &Vec<Cand>,
    m: usize,
    f: &P,
    Ghost(n): Ghost<int>,
    Ghost(pair): Ghost<Pair>,
) -> (out: Vec<usize>)
    requires
        gauges(n, pair, *f),
        forall|i: int| 0 <= i < cands@.len() ==> (#[trigger] cands@[i]).slot < n,
    ensures
        out@ == chosen(pair, cands@, m as nat),
{
    let mut selected: Vec<Cand> = Vec::new();
    let mut passed: Vec<Cand> = Vec::new();
    let mut i: usize = 0;
    while i < cands.len() && selected.len() < m
        invariant
            i <= cands@.len(),
            gauges(n, pair, *f),
            forall|i: int| 0 <= i < cands@.len() ==> (#[trigger] cands@[i]).slot < n,
            (selected@, passed@) == sifted(pair, cands@.take(i as int), m as nat),
            forall|i: int| 0 <= i < selected@.len() ==> (#[trigger] selected@[i]).slot < n,
        decreases cands@.len() - i,
    {
        let c: Cand = cands[i];
        let mut j: usize = 0;
        let mut beaten: bool = false;
        while j < selected.len() && !beaten
            invariant
                j <= selected@.len(),
                gauges(n, pair, *f),
                c.slot < n,
                forall|i: int| 0 <= i < selected@.len() ==> (#[trigger] selected@[i]).slot < n,
                !beaten ==> forall|t: int|
                    0 <= t < j ==> !nearer(pair(c.slot, (#[trigger] selected@[t]).slot), c.dist),
                beaten ==> dominated(pair, c, selected@),
            decreases selected@.len() - j,
        {
            if is_nearer(f(c.slot, selected[j].slot), c.dist) {
                beaten = true;
                assert(nearer(pair(c.slot, selected@[j as int].slot), c.dist));
            }
            j = j + 1;
        }
        proof {
            assert(cands@.take(i + 1).drop_last() =~= cands@.take(i as int));
            assert(beaten == dominated(pair, c, selected@));
        }
        if beaten {
            passed.push(c);
        } else {
            selected.push(c);
        }
        i = i + 1;
    }
    proof {
        if selected@.len() >= m {
            lemma_sifted_full(pair, cands@, m as nat, i as int);
        } else {
            assert(cands@.take(i as int) =~= cands@);
        }
    }
    proof {
        lemma_sifted(pair, cands@, m as nat);
    }
    let mut out: Vec<usize> = Vec::new();
    let mut a: usize = 0;
    while a < selected.len()
        invariant
            a <= selected@.len(),
            out@ =~= slots_of(selected@.take(a as int)),
        decreases selected@.len() - a,
    {
        out.push(selected[a].slot);
        a = a + 1;
    }
    let mut b: usize = 0;
    while b < passed.len() && out.len() < m
        invariant
            b <= passed@.len(),
            selected@.len() <= m,
            out@.len() == selected@.len() + b,
            out@.len() <= m,
            out@ =~= slots_of(selected@ + passed@.take(b as int)),
        decreases passed@.len() - b,
    {
        out.push(passed[b].slot);
        b = b + 1;
    }
    proof {
        assert(out@ =~= chosen(pair, cands@, m as nat));
    }
    out
}

/// Adds a neighbour at the end of a node's list.
pub open spec fn with_link(links: Links, s: int, l: int, x: usize) -> Links {
    links.update(s, links[s].update(l, links[s][l].push(x)))
}

pub open spec fn with_list(links: Links, s: int, l: int, list: Seq<usize>) -> Links {
    links.update(s, links[s].update(l, list))
}

/// A node's neighbours with their distances from it, in ascending order.
pub open spec fn neighbour_ranking(pair: Pair, node: usize, list: Seq<usize>) -> Seq<Cand> {
    ranked(Seq::new(list.len(), |i: int| Cand { dist: pair(node, list[i]), slot: list[i] }))
}

/// A list that exceeds the limit is pruned by the selection heuristic.
pub open spec fn shrunk(pair: Pair, links: Links, node: usize, l: int, limit: nat) -> Links {
    let list = links[node as int][l];
    if list.len() <= limit {
        links
    } else {
        with_list(links, node as int, l, chosen(pair, neighbour_ranking(pair, node, list), limit))
    }
}

/// Links two nodes both ways, then prunes the older one's list.
pub open spec fn joined(
    pair: Pair,
    links: Links,
    slot: usize,
    nb: usize,
    l: int,
    limit: nat,
) -> Links {
    shrunk(pair, with_link(with_link(links, slot as int, l, nb), nb as int, l, slot), nb, l, limit)
}

pub open spec fn joined_all(
    pair: Pair,
    links: Links,
    slot: usize,
    nbs: Seq<usize>,
    l: int,
    limit: nat,
) -> Links
    decreases nbs.len(),
{
    if nbs.len() == 0 {
        links
    } else {
        joined(
            pair,
            joined_all(pair, links, slot, nbs.drop_last(), l, limit),
            slot,
            nbs.last(),
            l,
            limit,
        )
    }
}

/// Two graphs have the same nodes with the same levels.
pub open spec fn same_shape(a: Links, b: Links) -> bool {
    &&& a.len() == b.len()
    &&& forall|s: int| 0 <= s < a.len() ==> (#[trigger] a[s]).len() == b[s].len()
}

/// Replacing a list by one whose nodes are on the level keeps the graph sound.
pub proof fn lemma_with_list(links: Links, s: int, l: int, list: Seq<usize>)
    requires
        linked(links),
        0 <= s < links.len(),
        0 <= l < links[s].len(),
        forall|i: int| 0 <= i < list.len() ==> on_level(links, #[trigger] list[i], l),
    ensures
        linked(with_list(links, s, l, list)),
        same_shape(links, with_list(links, s, l, list)),
        grounded(links) ==> grounded(with_list(links, s, l, list)),
        with_list(links, s, l, list)[s][l] == list,
{
    let t = with_list(links, s, l, list);
    assert(same_shape(links, t));
    assert forall|a: int, b: int, i: int|
        0 <= a < t.len() && 0 <= b < t[a].len() && 0 <= i < t[a][b].len() implies on_level(
        t,
        #[trigger] t[a][b][i],
        b,
    ) by {
        if a == s && b == l {
            assert(t[a][b][i] == list[i]);
            assert(on_level(links, list[i], l));
        } else {
            assert(t[a][b] == links[a][b]);
            assert(on_level(links, links[a][b][i], b));
        }
    }
    assert forall|a: int| 0 <= a < t.len() && grounded(links) implies (#[trigger] t[a]).len()
        > 0 by {
        assert(links[a].len() > 0);
    }
}

pub proof fn lemma_with_link(links: Links, s: int, l: int, x: usize)
    requires
        linked(links),
        0 <= s < links.len(),
        0 <= l < links[s].len(),
        on_level(links, x, l),
    ensures
        linked(with_link(links, s, l, x)),
        same_shape(links, with_link(links, s, l, x)),
        grounded(links) ==> grounded(with_link(links, s, l, x)),
{
    let list = links[s][l].push(x);
    assert forall|i: int| 0 <= i < list.len() implies on_level(links, #[trigger] list[i], l) by {
        if i < links[s][l].len() {
            assert(list[i] == links[s][l][i]);
        }
    }
    lemma_with_list(links, s, l, list);
}

/// The nodes of a neighbour ranking are the nodes of the list.
pub proof fn lemma_neighbour_ranking(pair: Pair, node: usize, list: Seq<usize>)
    ensures
        neighbour_ranking(pair, node, list).len() == list.len(),
        sorted(neighbour_ranking(pair, node, list)),
        forall|i: int|
            0 <= i < list.len() ==> list.contains(
                (#[trigger] neighbour_ranking(pair, node, list)[i]).slot,
            ),
{
    let raw = Seq::new(list.len(), |i: int| Cand { dist: pair(node, list[i]), slot: list[i] });
    lemma_ranked(raw);
    let r = ranked(raw);
    assert forall|i: int| 0 <= i < list.len() implies list.contains((#[trigger] r[i]).slot) by {
        assert(r.contains(r[i]));
        assert(raw.contains(r[i]));
        let j = choose|j: int| 0 <= j < raw.len() && raw[j] == r[i];
        assert(list[j] == r[i].slot);
    }
}

pub proof fn lemma_shrunk(pair: Pair, links: Links, node: usize, l: int, limit: nat)
    requires
        linked(links),
        on_level(links, node, l),
        0 <= l,
    ensures
        linked(shrunk(pair, links, node, l, limit)),
        same_shape(links, shrunk(pair, links, node, l, limit)),
        grounded(links) ==> grounded(shrunk(pair, links, node, l, limit)),
        shrunk(pair, links, node, l, limit)[node as int][l].len() <= limit,
{
    let list = links[node as int][l];
    if list.len() > limit {
        let cands = neighbour_ranking(pair, node, list);
        let picked = chosen(pair, cands, limit);
        lemma_neighbour_ranking(pair, node, list);
        lemma_chosen(pair, cands, limit);
        assert forall|i: int| 0 <= i < picked.len() implies on_level(
            links,
            #[trigger] picked[i],
            l,
        ) by {
            assert(slots_of(cands).contains(picked[i]));
            let j = choose|j: int| 0 <= j < cands.len() && slots_of(cands)[j] == picked[i];
            assert(list.contains(cands[j].slot));
            let t = choose|t: int| 0 <= t < list.len() && list[t] == cands[j].slot;
            assert(on_level(links, links[node as int][l][t], l));
        }
        lemma_with_list(links, node as int, l, picked);
    }
}

pub proof fn lemma_joined(pair: Pair, links: Links, slot: usize, nb: usize, l: int, limit: nat)
    requires
        linked(links),
        0 <= l,
        on_level(links, slot, l),
        on_level(links, nb, l),
    ensures
        linked(joined(pair, links, slot, nb, l, limit)),
        same_shape(links, joined(pair, links, slot, nb, l, limit)),
        grounded(links) ==> grounded(joined(pair, links, slot, nb, l, limit)),
{
    lemma_with_link(links, slot as int, l, nb);
    let a = with_link(links, slot as int, l, nb);
    assert(a[nb as int].len() == links[nb as int].len());
    assert(a[slot as int].len() == links[slot as int].len());
    lemma_with_link(a, nb as int, l, slot);
    let b = with_link(a, nb as int, l, slot);
    assert(b[nb as int].len() == a[nb as int].len());
    lemma_shrunk(pair, b, nb, l, limit);
}

fn push_link(links: &mut Vec<Vec<Vec<usize>>>, s: usize, l: usize, x: usize)
    requires
        on_level(links_view(old(links)@), s, l as int),
    ensures
        links_view(final(links)@) == with_link(links_view(old(links)@), s as int, l as int, x),
{
    let ghost before = links_view(links@);
    links[s][l].push(x);
    proof {
        let after = with_link(before, s as int, l as int, x);
        assert(links_view(links@).len() == after.len());
        assert forall|a: int| 0 <= a < after.len() implies links_view(links@)[a] == after[a] by {
            assert(links_view(links@)[a] =~= after[a]);
        }
        assert(links_view(links@) =~= after);
    }
}

fn set_list(links: &mut Vec<Vec<Vec<usize>>>, s: usize, l: usize, list: Vec<usize>)
    requires
        on_level(links_view(old(links)@), s, l as int),
    ensures
        links_view(final(links)@) == with_list(
            links_view(old(links)@),
            s as int,
            l as int,
            list@,
        ),
{
    let ghost before = links_view(links@);
    links[s][l] = list;
    proof {
        let after = with_list(before, s as int, l as int, list@);
        assert(links_view(links@).len() == after.len());
        assert forall|a: int| 0 <= a < after.len() implies links_view(links@)[a] == after[a] by {
            assert(links_view(links@)[a] =~= after[a]);
        }
        assert(links_view(links@) =~= after);
    }
}

/// Prunes a node's list on a level where it exceeds the limit.
pub(crate) fn shrink_links<P: Fn(usize, usize) -> u32>(
    links: &mut Vec<Vec<Vec<usize>>>,
    node: usize,
    level: usize,
    limit: usize,
    f: &P,
    Ghost(pair): Ghost<Pair>,
)
    requires
        linked(links_view(old(links)@)),
        on_level(links_view(old(links)@), node, level as int),
        gauges(old(links)@.len() as int, pair, *f),
    ensures
        links_view(final(links)@) == shrunk(
            pair,
            links_view(old(links)@),
            node,
            level as int,
            limit as nat,
        ),
{
    let ghost before = links_view(links@);
    let list: &Vec<usize> = &links[node][level];
    if list.len() <= limit {
        return;
    }
    let ghost raw = Seq::new(
        list@.len(),
        |i: int| Cand { dist: pair(node, list@[i]), slot: list@[i] },
    );
    assert(before[node as int][level as int] == list@);
    let mut cands: Vec<Cand> = Vec::new();
    let mut i: usize = 0;
    while i < list.len()
        invariant
            i <= list@.len(),
            node < before.len(),
            list@ == before[node as int][level as int],
            on_level(before, node, level as int),
            linked(before),
            gauges(before.len() as int, pair, *f),
            raw == Seq::new(
                list@.len(),
                |i: int| Cand { dist: pair(node, list@[i]), slot: list@[i] },
            ),
            cands@ =~= raw.take(i as int),
        decreases list@.len() - i,
    {
        let nb: usize = list[i];
        assert(on_level(before, before[node as int][level as int][i as int], level as int));
        cands.push(Cand { dist: f(node, nb), slot: nb });
        i = i + 1;
    }
    proof {
        assert(cands@ =~= raw);
        lemma_neighbour_ranking(pair, node, list@);
    }
    let ranking: Vec<Cand> = sort(&cands);
    proof {
        let l = list@;
        assert forall|j: int| 0 <= j < ranking@.len() implies (#[trigger] ranking@[j]).slot
            < before.len() by {
            assert(l.contains(ranking@[j].slot));
            let t = choose|t: int| 0 <= t < l.len() && l[t] == ranking@[j].slot;
            assert(on_level(before, before[node as int][level as int][t], level as int));
        }
    }
    let kept: Vec<usize> = select_neighbors_heuristic(
        &ranking,
        limit,
        f,
        Ghost(before.len() as int),
        Ghost(pair),
    );
    set_list(links, node, level, kept);
}

/// Links `slot` with each of `nbs` on a level, both ways.
pub(crate) fn join_all<P: Fn(usize, usize) -> u32>(
    links: &mut Vec<Vec<Vec<usize>>>,
    slot: usize,
    nbs: &Vec<usize>,
    level: usize,
    limit: usize,
    f: &P,
    Ghost(pair): Ghost<Pair>,
)
    requires
        linked(links_view(old(links)@)),
        on_level(links_view(old(links)@), slot, level as int),
        forall|i: int|
            0 <= i < nbs@.len() ==> on_level(
                links_view(old(links)@),
                #[trigger] nbs@[i],
                level as int,
            ),
        gauges(old(links)@.len() as int, pair, *f),
    ensures
        links_view(final(links)@) == joined_all(
            pair,
            links_view(old(links)@),
            slot,
            nbs@,
            level as int,
            limit as nat,
        ),
        linked(links_view(final(links)@)),
        same_shape(links_view(old(links)@), links_view(final(links)@)),
        grounded(links_view(old(links)@)) ==> grounded(links_view(final(links)@)),
{
    let ghost before = links_view(links@);
    let ghost n = links@.len();
    let mut i: usize = 0;
    while i < nbs.len()
        invariant
            i <= nbs@.len(),
            n == links@.len() == before.len(),
            linked(links_view(links@)),
            same_shape(before, links_view(links@)),
            grounded(before) ==> grounded(links_view(links@)),
            on_level(before, slot, level as int),
            forall|i: int|
                0 <= i < nbs@.len() ==> on_level(before, #[trigger] nbs@[i], level as int),
            gauges(n as int, pair, *f),
            links_view(links@) == joined_all(
                pair,
                before,
                slot,
                nbs@.take(i as int),
                level as int,
                limit as nat,
            ),
        decreases nbs@.len() - i,
    {
        let nb: usize = nbs[i];
        let ghost cur = links_view(links@);
        proof {
            assert(on_level(before, nbs@[i as int], level as int));
            assert(before[nb as int].len() == cur[nb as int].len());
            assert(before[slot as int].len() == cur[slot as int].len());
            assert(nbs@.take(i + 1).drop_last() =~= nbs@.take(i as int));
            lemma_joined(pair, cur, slot, nb, level as int, limit as nat);
            lemma_with_link(cur, slot as int, level as int, nb);
        }
        push_link(links, slot, level, nb);
        let ghost half = links_view(links@);
        proof {
            assert(half[nb as int].len() == cur[nb as int].len());
            assert(half[slot as int].len() == cur[slot as int].len());
            lemma_with_link(half, nb as int, level as int, slot);
        }
        push_link(links, nb, level, slot);
        proof {
            let full = links_view(links@);
            assert(full[nb as int].len() == half[nb as int].len());
        }
        shrink_links(links, nb, level, limit, f, Ghost(pair));
        proof {
            let done = links_view(links@);
            assert forall|s: int| 0 <= s < before.len() implies (#[trigger] before[s]).len()
                == done[s].len() by {
                assert(cur[s].len() == done[s].len());
            }
        }
        i = i + 1;
    }
    proof {
        assert(nbs@.take(i as int) =~= nbs@);
    }
}

/// A search of width `ef` on a level, all nodes being eligible.
pub open spec fn open_quest(links: Links, level: int, dist: spec_fn(usize) -> u32, ef: nat) -> Quest {
    Quest { links, level, dist, eligible: |s: usize| true, ef, budget: None }
}

/// Greedy descent through the levels `hi`, `hi - 1`, .., `lo`: on each, the
/// nearest node that a search of width one finds.
pub open spec fn descended(
    links: Links,
    dist: spec_fn(usize) -> u32,
    entry: usize,
    hi: int,
    lo: int,
) -> usize
    decreases hi - lo + 1,
{
    if hi < lo {
        entry
    } else {
        let found = explored(open_quest(links, hi, dist, 1), seq![entry]).results;
        descended(links, dist, found[0].slot, hi - 1, lo)
    }
}

/// Descends from `hi` to `lo`, both included.
pub(crate) fn descend<D: Fn(usize) -> u32>(
    links: &Vec<Vec<Vec<usize>>>,
    entry: usize,
    hi: usize,
    lo: usize,
    dist: &D,
    Ghost(g): Ghost<spec_fn(usize) -> u32>,
) -> (out: usize)
    requires
        linked(links_view(links@)),
        lo >= 1,
        on_level(links_view(links@), entry, hi as int),
        forall|s: usize| s < links@.len() ==> #[trigger] call_requires(*dist, (s,)),
        forall|s: usize, d: u32|
            s < links@.len() && #[trigger] call_ensures(*dist, (s,), d) ==> d == g(s),
    ensures
        out == descended(links_view(links@), g, entry, hi as int, lo as int),
        on_level(
            links_view(links@),
            out,
            if lo <= hi {
                lo - 1
            } else {
                hi as int
            },
        ),
{
    let ghost lv = links_view(links@);
    let mut ep: usize = entry;
    let mut level: usize = hi;
    let everyone = |s: usize| -> (b: bool)
        ensures
            b,
        { true };
    while level >= lo
        invariant
            lv == links_view(links@),
            linked(lv),
            1 <= lo,
            level <= hi,
            level + 1 >= lo || level == hi,
            on_level(lv, ep, level as int),
            forall|s: usize| s < links@.len() ==> #[trigger] call_requires(*dist, (s,)),
            forall|s: usize, d: u32|
            s < links@.len() && #[trigger] call_ensures(*dist, (s,), d) ==> d == g(s),
            forall|s: usize| #[trigger] call_requires(everyone, (s,)),
            forall|s: usize, b: bool| #[trigger] call_ensures(everyone, (s,), b) ==> b,
            descended(lv, g, ep, level as int, lo as int) == descended(
                lv,
                g,
                entry,
                hi as int,
                lo as int,
            ),
        decreases level,
    {
        let ghost q = open_quest(lv, level as int, g, 1);
        let entries: Vec<usize> = vec![ep];
        proof {
            assert(entries@ =~= seq![ep]);
            assert(on_level(q.links, entries@[0], q.level));
        }
        let found = search_layer(
            links,
            &entries,
            1,
            level,
            dist,
            &everyone,
            None,
            Ghost(q),
        );
        ep = found.0[0].slot;
        level = level - 1;
    }
    ep
}

/// Linking a node on the levels `l`, `l - 1`, .., 0: on each, search with the
/// construction width, choose neighbours, link both ways, and start the next
/// level from everything found.
pub open spec fn woven(
    pair: Pair,
    links: Links,
    slot: usize,
    entries: Seq<usize>,
    l: int,
    m: nat,
    m_max0: nat,
    ef: nat,
) -> Links
    decreases l + 1,
{
    if l < 0 {
        links
    } else {
        let found = explored(open_quest(links, l, |s: usize| pair(slot, s), ef), entries).results;
        let nbs = chosen(pair, found, m);
        let next = joined_all(pair, links, slot, nbs, l, max_links(l, m, m_max0));
        woven(pair, next, slot, slots_of(found), l - 1, m, m_max0, ef)
    }
}

/// The link limit of a level: the base level is denser.
pub open spec fn max_links(l: int, m: nat, m_max0: nat) -> nat {
    if l == 0 {
        m_max0
    } else {
        m
    }
}

/// Links a new node on all levels from `top` down.
pub(crate) fn weave<P: Fn(usize, usize) -> u32, D: Fn(usize) -> u32>(
    links: &mut Vec<Vec<Vec<usize>>>,
    slot: usize,
    entry: usize,
    top: usize,
    m: usize,
    m_max0: usize,
    ef: usize,
    f: &P,
    dist: &D,
    Ghost(pair): Ghost<Pair>,
)
    requires
        linked(links_view(old(links)@)),
        grounded(links_view(old(links)@)),
        on_level(links_view(old(links)@), slot, top as int),
        on_level(links_view(old(links)@), entry, top as int),
        gauges(old(links)@.len() as int, pair, *f),
        forall|s: usize| s < old(links)@.len() ==> #[trigger] call_requires(*dist, (s,)),
        forall|s: usize, d: u32|
            s < old(links)@.len() && #[trigger] call_ensures(*dist, (s,), d) ==> d == pair(slot, s),
    ensures
        links_view(final(links)@) == woven(
            pair,
            links_view(old(links)@),
            slot,
            seq![entry],
            top as int,
            m as nat,
            m_max0 as nat,
            ef as nat,
        ),
        linked(links_view(final(links)@)),
        grounded(links_view(final(links)@)),
        same_shape(links_view(old(links)@), links_view(final(links)@)),
{
    let ghost before = links_view(links@);
    let ghost n = links@.len();
    let ghost g = |s: usize| pair(slot, s);
    let everyone = |s: usize| -> (b: bool)
        ensures
            b,
        { true };
    let mut entries: Vec<usize> = vec![entry];
    proof {
        assert(entries@ =~= seq![entry]);
        assert(before[slot as int].len() == links@[slot as int].len());
    }
    let mut next: usize = top + 1;
    while next > 0
        invariant
            next <= top + 1,
            top < usize::MAX,
            n == links@.len() == before.len(),
            linked(links_view(links@)),
            grounded(links_view(links@)),
            same_shape(before, links_view(links@)),
            on_level(before, slot, top as int),
            forall|i: int|
                0 <= i < entries@.len() ==> on_level(before, #[trigger] entries@[i], next - 1),
            gauges(n as int, pair, *f),
            forall|s: usize| s < n ==> #[trigger] call_requires(*dist, (s,)),
            forall|s: usize, d: u32|
                s < n && #[trigger] call_ensures(*dist, (s,), d) ==> d == pair(slot, s),
            forall|s: usize| #[trigger] call_requires(everyone, (s,)),
            forall|s: usize, b: bool| #[trigger] call_ensures(everyone, (s,), b) ==> b,
            woven(
                pair,
                links_view(links@),
                slot,
                entries@,
                next - 1,
                m as nat,
                m_max0 as nat,
                ef as nat,
            ) == woven(
                pair,
                before,
                slot,
                seq![entry],
                top as int,
                m as nat,
                m_max0 as nat,
                ef as nat,
            ),
        decreases next,
    {
        let level: usize = next - 1;
        let ghost lv = links_view(links@);
        let ghost q = open_quest(lv, level as int, |s: usize| pair(slot, s), ef as nat);
        proof {
            assert forall|i: int| 0 <= i < entries@.len() implies on_level(
                q.links,
                #[trigger] entries@[i],
                q.level,
            ) by {
                assert(on_level(before, entries@[i], next - 1));
                assert(before[entries@[i] as int].len() == lv[entries@[i] as int].len());
            }
            assert(before[slot as int].len() == lv[slot as int].len());
        }
        let found = search_layer(
            links,
            &entries,
            ef,
            level,
            dist,
            &everyone,
            None,
            Ghost(q),
        ).0;
        let nbs: Vec<usize> = select_neighbors_heuristic(
            &found,
            m,
            f,
            Ghost(n as int),
            Ghost(pair),
        );
        let limit: usize = if level == 0 { m_max0 } else { m };
        proof {
            lemma_chosen(pair, found@, m as nat);
            assert forall|i: int| 0 <= i < nbs@.len() implies on_level(
                lv,
                #[trigger] nbs@[i],
                level as int,
            ) by {
                assert(slots_of(found@).contains(nbs@[i]));
                let j = choose|j: int|
                    0 <= j < found@.len() && slots_of(found@)[j] == nbs@[i];
                assert(on_level(q.links, found@[j].slot, q.level));
            }
        }
        join_all(links, slot, &nbs, level, limit, f, Ghost(pair));
        let mut down: Vec<usize> = Vec::new();
        let mut i: usize = 0;
        while i < found.len()
            invariant
                i <= found@.len(),
                down@ =~= slots_of(found@.take(i as int)),
            decreases found@.len() - i,
        {
            down.push(found[i].slot);
            i = i + 1;
        }
        proof {
            assert(down@ =~= slots_of(found@));
            let after = links_view(links@);
            assert forall|s: int| 0 <= s < before.len() implies (#[trigger] before[s]).len()
                == after[s].len() by {
                assert(lv[s].len() == after[s].len());
            }
            assert forall|i: int| 0 <= i < down@.len() implies on_level(
                before,
                #[trigger] down@[i],
                next - 2,
            ) by {
                assert(on_level(q.links, found@[i].slot, q.level));
                assert(before[down@[i] as int].len() == lv[down@[i] as int].len());
            }
        }
        entries = down;
        next = level;
    }
}

} // verus!
