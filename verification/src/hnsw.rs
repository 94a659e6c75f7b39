//! The HNSW index (Malkov and Yashunin, "Efficient and robust approximate
//! nearest neighbor search using Hierarchical Navigable Small World graphs").
//!
//! Deletion marks a node: it is still traversed, as a bridge, but no longer
//! returned. Compaction rebuilds the index from its live nodes.

use std::collections::HashMap;
use vstd::prelude::*;
use crate::distance::Metric;
use crate::error::IndexError;
use crate::graph::{
    count_set, descend, descended, explored, grounded, lemma_count_clear, lemma_count_set,
    levels_view, linked, links_view, on_level, search_layer, weave, woven, Cand, Links, Quest,
};
use crate::nearness_laws::{
    filtered_search_finds_the_nearest, filters_nearest, finds_nearest,
    search_finds_the_nearest_it_reaches,
};
use crate::numerics::{
    self, distance, functional, lemma_model_sane, model, prepare, prepared, Model, Numerics,
};
use crate::rank::{first_k, keep_smallest, lemma_kept, smallest, sorted};
use crate::types::{SearchResult, VectorId};

verus! {

#[derive(Debug, Clone, Copy, PartialEq, Eq, Structural)]
pub struct HnswParams {
    /// Target neighbour count on the upper levels.
    pub m: usize,
    /// Neighbour limit of the base level.
    pub m_max0: usize,
    /// Search width during construction.
    pub ef_construction: usize,
    /// Search width of a query on the base level.
    pub ef_search: usize,
    /// Seed of the level assignment.
    pub seed: u64,
    /// The share of deleted nodes at which a deletion compacts the index: the
    /// bits of an `f64`.
    pub tombstone_threshold: u64,
}

impl Default for HnswParams {
    fn default() -> (p: Self)
        ensures
            p.m == 16,
            p.m_max0 == 32,
            p.ef_construction == 200,
            p.ef_search == 50,
            p.seed == 42,
            p.tombstone_threshold == 0x3fd3_3333_3333_3333,
    {
        HnswParams {
            m: 16,
            m_max0: 32,
            ef_construction: 200,
            ef_search: 50,
            seed: crate::types::DEFAULT_SEED,
            tombstone_threshold: 0x3fd3_3333_3333_3333,
        }
    }
}

/// Traversal statistics of a filtered search.
#[derive(Debug, Clone, Copy, PartialEq, Eq, Structural)]
pub struct FilterSearchStats {
    /// Nodes visited on the base level.
    pub visited: usize,
    /// Candidates ever admitted to the results.
    pub admitted: usize,
    /// Did the search find fewer than `k` results and fall back to a scan?
    pub fallback_used: bool,
    /// Was the search cut short because the visit budget ran out?
    pub budget_exhausted: bool,
}

/// The contents of an HNSW index.
pub ghost struct Hnsw {
    pub params: HnswParams,
    pub metric: Metric,
    pub dim: nat,
    pub vectors: Seq<Seq<u32>>,
    pub ids: Seq<VectorId>,
    pub links: Links,
    pub entry: Option<usize>,
    pub deleted: Seq<bool>,
    /// The level generator: its seed, its link count, and the slots that were
    /// filled before it was seeded.
    pub level_seed: u64,
    pub level_m: usize,
    pub loaded: nat,
}

/// The id belongs to a live slot.
pub open spec fn lives(ids: Seq<VectorId>, deleted: Seq<bool>, id: VectorId) -> bool {
    exists|s: int| 0 <= s < ids.len() && (#[trigger] ids[s]) == id && !deleted[s]
}

/// The live slot with the most levels, the last of those; looking at the first
/// `n` slots.
pub open spec fn highest(links: Links, deleted: Seq<bool>, n: int) -> Option<usize>
    decreases n,
{
    if n <= 0 {
        None
    } else {
        let best = highest(links, deleted, n - 1);
        if deleted[n - 1] {
            best
        } else {
            match best {
                None => Some((n - 1) as usize),
                Some(b) => if links[n - 1].len() >= links[b as int].len() {
                    Some((n - 1) as usize)
                } else {
                    best
                },
            }
        }
    }
}

pub proof fn lemma_highest(links: Links, deleted: Seq<bool>, n: int)
    requires
        0 <= n <= links.len(),
        n <= deleted.len(),
        n <= usize::MAX,
    ensures
        highest(links, deleted, n) matches Some(e) ==> e < n && !deleted[e as int] && forall|s: int|
            #![trigger links[s]]
            0 <= s < n && !deleted[s] ==> links[s].len() <= links[e as int].len() && (s > e
                ==> links[s].len() < links[e as int].len()),
        highest(links, deleted, n) is None ==> forall|s: int| 0 <= s < n ==> deleted[s],
    decreases n,
{
    if n > 0 {
        lemma_highest(links, deleted, n - 1);
    }
}

impl Hnsw {
    pub open spec fn len(self) -> nat {
        self.ids.len()
    }

    pub open spec fn contains(self, id: VectorId) -> bool {
        lives(self.ids, self.deleted, id)
    }

    /// The live slot of an id.
    pub open spec fn slot(self, id: VectorId) -> int {
        choose|s: int| 0 <= s < self.ids.len() && (#[trigger] self.ids[s]) == id && !self.deleted[s]
    }

    /// The vector of a live id.
    pub open spec fn vector(self, id: VectorId) -> Option<Seq<u32>> {
        if self.contains(id) {
            Some(self.vectors[self.slot(id)])
        } else {
            None
        }
    }

    /// Every slot is filled, every link leads somewhere, live ids are unique,
    /// and there is an entry point as long as anything is live.
    pub open spec fn valid(self) -> bool {
        &&& self.vectors.len() == self.ids.len()
        &&& self.links.len() == self.ids.len()
        &&& self.deleted.len() == self.ids.len()
        &&& self.loaded <= self.ids.len()
        &&& forall|s: int|
            0 <= s < self.vectors.len() ==> (#[trigger] self.vectors[s]).len() == self.dim
        &&& linked(self.links)
        &&& grounded(self.links)
        &&& self.entry matches Some(e) ==> e < self.ids.len()
        &&& self.entry is None ==> forall|s: int|
            0 <= s < self.deleted.len() ==> #[trigger] self.deleted[s]
        &&& forall|s: int, t: int|
            0 <= s < self.ids.len() && 0 <= t < self.ids.len() && !self.deleted[s]
                && !self.deleted[t] && #[trigger] self.ids[s] == #[trigger] self.ids[t] ==> s == t
    }

    /// Distance between two nodes.
    pub open spec fn pair(self, g: Model) -> spec_fn(usize, usize) -> u32 {
        |a: usize, b: usize|
            (g.distance)(self.metric, self.vectors[a as int], self.vectors[b as int])
    }

    /// Distance of each node from a query.
    pub open spec fn from_query(self, g: Model, query: Seq<u32>) -> spec_fn(usize) -> u32 {
        |s: usize| (g.distance)(self.metric, query, self.vectors[s as int])
    }

    /// The empty index.
    pub open spec fn empty(dim: nat, metric: Metric, params: HnswParams) -> Hnsw {
        Hnsw {
            params,
            metric,
            dim,
            vectors: Seq::empty(),
            ids: Seq::empty(),
            links: Seq::empty(),
            entry: None,
            deleted: Seq::empty(),
            level_seed: params.seed,
            level_m: params.m,
            loaded: 0,
        }
    }

    /// The level of the next node.
    pub open spec fn next_level(self, g: Model) -> usize {
        (g.level)(self.level_seed, self.level_m, (self.ids.len() - self.loaded) as u64)
    }

    /// The index with one more node, not yet linked.
    pub open spec fn placed(self, g: Model, id: VectorId, v: Seq<u32>) -> Hnsw {
        Hnsw {
            vectors: self.vectors.push(prepared(g, self.metric, v)),
            ids: self.ids.push(id),
            deleted: self.deleted.push(false),
            links: self.links.push(
                Seq::new((self.next_level(g) + 1) as nat, |l: int| Seq::<usize>::empty()),
            ),
            ..self
        }
    }

    /// The index after an insertion: the new node descends greedily to its own
    /// level and is linked from there down; it becomes the entry point where it
    /// is higher than the present one.
    pub open spec fn inserted(self, g: Model, id: VectorId, v: Seq<u32>) -> Hnsw {
        let p = self.placed(g, id, v);
        let slot = self.ids.len() as usize;
        let level = self.next_level(g) as int;
        match self.entry {
            None => Hnsw { entry: Some(slot), ..p },
            Some(e) => {
                let top = self.links[e as int].len() - 1;
                let near = descended(p.links, |s: usize| p.pair(g)(slot, s), e, top, level + 1);
                Hnsw {
                    links: woven(
                        p.pair(g),
                        p.links,
                        slot,
                        seq![near],
                        if level <= top {
                            level
                        } else {
                            top
                        },
                        self.params.m as nat,
                        self.params.m_max0 as nat,
                        self.params.ef_construction as nat,
                    ),
                    entry: if level > top {
                        Some(slot)
                    } else {
                        Some(e)
                    },
                    ..p
                }
            },
        }
    }

    /// The index after the live node of `id` was marked as deleted. A new entry
    /// point is picked where the old one went.
    pub open spec fn marked(self, id: VectorId) -> Hnsw {
        let slot = self.slot(id);
        let deleted = self.deleted.update(slot, true);
        Hnsw {
            deleted,
            entry: if self.entry == Some(slot as usize) {
                highest(self.links, deleted, self.ids.len() as int)
            } else {
                self.entry
            },
            ..self
        }
    }

    /// A fresh index with the live nodes among the first `n` slots inserted in
    /// slot order.
    pub open spec fn rebuilt(self, g: Model, n: int) -> Hnsw
        decreases n,
    {
        if n <= 0 {
            Hnsw::empty(self.dim, self.metric, self.params)
        } else if self.deleted[n - 1] {
            self.rebuilt(g, n - 1)
        } else {
            self.rebuilt(g, n - 1).inserted(g, self.ids[n - 1], self.vectors[n - 1])
        }
    }

    pub open spec fn compacted(self, g: Model) -> Hnsw {
        self.rebuilt(g, self.ids.len() as int)
    }

    /// The index after a deletion: marked, and compacted where too much of it
    /// is deleted.
    pub open spec fn deleted(self, g: Model, id: VectorId) -> Hnsw {
        let after = self.marked(id);
        if (g.worn_out)(
            self.params.tombstone_threshold,
            count_set(after.deleted) as usize,
            self.ids.len() as usize,
        ) {
            after.compacted(g)
        } else {
            after
        }
    }

    /// The base-level search of a query: greedy descent, then a search of the
    /// given width.
    pub open spec fn base_quest(
        self,
        g: Model,
        query: Seq<u32>,
        eligible: spec_fn(usize) -> bool,
        ef: nat,
        budget: Option<nat>,
    ) -> Quest {
        Quest {
            links: self.links,
            level: 0,
            dist: self.from_query(g, query),
            eligible,
            ef,
            budget,
        }
    }

    pub open spec fn base_entry(self, g: Model, query: Seq<u32>) -> usize {
        let e = self.entry->0;
        descended(self.links, self.from_query(g, query), e, self.links[e as int].len() - 1, 1)
    }

    /// Results for the caller: ids in place of slots, at most `k`.
    pub open spec fn reported(self, found: Seq<Cand>, k: nat) -> Seq<SearchResult> {
        Seq::new(
            first_k(found, k).len(),
            |i: int| SearchResult { id: self.ids[found[i].slot as int], distance: found[i].dist },
        )
    }

    /// What a search returns.
    pub open spec fn found(self, g: Model, query: Seq<u32>, k: nat, ef: nat) -> Seq<SearchResult> {
        if self.entry is None || k == 0 {
            Seq::empty()
        } else {
            let v = prepared(g, self.metric, query);
            let width = if ef >= k {
                ef
            } else {
                k
            };
            let quest = self.base_quest(g, v, |s: usize| !self.deleted[s as int], width, None);
            self.reported(explored(quest, seq![self.base_entry(g, v)]).results, k)
        }
    }

    /// Every live node that passes the filter, with its distance, in slot order.
    pub open spec fn passing(
        self,
        g: Model,
        query: Seq<u32>,
        allow: spec_fn(VectorId) -> bool,
        n: int,
    ) -> Seq<SearchResult>
        decreases n,
    {
        if n <= 0 {
            Seq::empty()
        } else {
            let rest = self.passing(g, query, allow, n - 1);
            if !self.deleted[n - 1] && allow(self.ids[n - 1]) {
                rest.push(
                    SearchResult {
                        id: self.ids[n - 1],
                        distance: (g.distance)(self.metric, query, self.vectors[n - 1]),
                    },
                )
            } else {
                rest
            }
        }
    }

    /// What a filtered search returns, and its statistics. Where the graph
    /// search finds fewer than `k` within its budget, all live nodes are
    /// scanned.
    pub open spec fn filtered(
        self,
        g: Model,
        query: Seq<u32>,
        k: nat,
        ef: nat,
        allow: spec_fn(VectorId) -> bool,
        budget: Option<nat>,
    ) -> (Seq<SearchResult>, FilterSearchStats) {
        let nothing = FilterSearchStats {
            visited: 0,
            admitted: 0,
            fallback_used: false,
            budget_exhausted: false,
        };
        if self.entry is None || k == 0 {
            (Seq::empty(), nothing)
        } else {
            let v = prepared(g, self.metric, query);
            let width = if ef >= k {
                ef
            } else {
                k
            };
            let quest = self.base_quest(
                g,
                v,
                |s: usize| !self.deleted[s as int] && allow(self.ids[s as int]),
                width,
                budget,
            );
            let st = explored(quest, seq![self.base_entry(g, v)]);
            let exhausted = budget matches Some(b) && st.visits >= b;
            let stats = FilterSearchStats {
                visited: st.visits as usize,
                admitted: st.admitted as usize,
                fallback_used: !exhausted && st.results.len() < k,
                budget_exhausted: exhausted,
            };
            if stats.fallback_used {
                (smallest(self.passing(g, v, allow, self.ids.len() as int), k), stats)
            } else {
                (self.reported(st.results, k), stats)
            }
        }
    }
}

/// A map from ids to their live slots.
pub open spec fn maps_live(m: Map<u64, usize>, ids: Seq<VectorId>, deleted: Seq<bool>) -> bool {
    &&& forall|id: u64| #[trigger]
        m.contains_key(id) ==> m[id] < ids.len() && ids[m[id] as int].0 == id
            && !deleted[m[id] as int]
    &&& forall|s: int|
        0 <= s < ids.len() && !deleted[s] ==> m.contains_key((#[trigger] ids[s]).0) && m[ids[s].0]
            == s
}

pub struct HnswIndex {
    pub params: HnswParams,
    pub metric: Metric,
    pub dim: usize,
    pub vectors: Vec<Vec<u32>>,
    pub ids: Vec<VectorId>,
    pub slot_of: HashMap<u64, usize>,
    pub links: Vec<Vec<Vec<usize>>>,
    pub entry: Option<usize>,
    pub deleted: Vec<bool>,
    pub deleted_count: usize,
    pub level_seed: u64,
    pub level_m: usize,
    pub loaded: usize,
}

pub open spec fn vectors_view(vectors: Seq<Vec<u32>>) -> Seq<Seq<u32>> {
    Seq::new(vectors.len(), |s: int| vectors[s]@)
}

impl View for HnswIndex {
    type V = Hnsw;

    open spec fn view(&self) -> Hnsw {
        Hnsw {
            params: self.params,
            metric: self.metric,
            dim: self.dim as nat,
            vectors: vectors_view(self.vectors@),
            ids: self.ids@,
            links: links_view(self.links@),
            entry: self.entry,
            deleted: self.deleted@,
            level_seed: self.level_seed,
            level_m: self.level_m,
            loaded: self.loaded as nat,
        }
    }
}

/// The closure decides as the predicate does.
pub open spec fn judges<A: Fn(VectorId) -> bool>(allow: A, p: spec_fn(VectorId) -> bool) -> bool {
    &&& forall|id: VectorId| #[trigger] call_requires(allow, (id,))
    &&& forall|id: VectorId, b: bool| #[trigger] call_ensures(allow, (id,), b) ==> b == p(id)
}

/// The closure accepts every id and always decides alike.
pub open spec fn decides<A: Fn(VectorId) -> bool>(allow: A) -> bool {
    exists|p: spec_fn(VectorId) -> bool| judges(allow, p)
}

pub open spec fn verdict<A: Fn(VectorId) -> bool>(allow: A) -> spec_fn(VectorId) -> bool {
    choose|p: spec_fn(VectorId) -> bool| judges(allow, p)
}

/// The node lists of a new node: one empty list per level.
fn empty_levels(level: usize) -> (levels: Vec<Vec<usize>>)
    requires
        level < usize::MAX,
    ensures
        levels_view(levels) == Seq::new((level + 1) as nat, |l: int| Seq::<usize>::empty()),
{
    let mut levels: Vec<Vec<usize>> = Vec::new();
    let mut i: usize = 0;
    while i < level + 1
        invariant
            level < usize::MAX,
            i <= level + 1,
            levels@.len() == i,
            forall|l: int| 0 <= l < levels@.len() ==> (#[trigger] levels@[l])@ == Seq::<
                usize,
            >::empty(),
        decreases level + 1 - i,
    {
        levels.push(Vec::new());
        i = i + 1;
    }
    assert(levels_view(levels) =~= Seq::new((level + 1) as nat, |l: int| Seq::<usize>::empty()));
    levels
}

/// A node without links keeps the graph sound.
proof fn lemma_push_levels(links: Links, levels: Seq<Seq<usize>>)
    requires
        linked(links),
        grounded(links),
        levels.len() > 0,
        forall|l: int| 0 <= l < levels.len() ==> (#[trigger] levels[l]).len() == 0,
    ensures
        linked(links.push(levels)),
        grounded(links.push(levels)),
{
    let t = links.push(levels);
    assert forall|s: int, l: int, i: int|
        0 <= s < t.len() && 0 <= l < t[s].len() && 0 <= i < t[s][l].len() implies on_level(
        t,
        #[trigger] t[s][l][i],
        l,
    ) by {
        if s < links.len() {
            assert(t[s] == links[s]);
            assert(on_level(links, links[s][l][i], l));
        } else {
            assert(levels[l].len() == 0);
        }
    }
    assert forall|s: int| 0 <= s < t.len() implies (#[trigger] t[s]).len() > 0 by {
        if s < links.len() {
            assert(t[s] == links[s]);
        }
    }
}

impl HnswIndex {
    pub open spec fn wf(&self) -> bool {
        &&& self@.valid()
        &&& maps_live(self.slot_of@, self.ids@, self.deleted@)
        &&& self.deleted_count == count_set(self.deleted@)
    }

    /// The id map knows exactly the live ids.
    proof fn lemma_contains(&self, id: VectorId)
        requires
            self.wf(),
        ensures
            self.slot_of@.contains_key(id.0) <==> self@.contains(id),
            self@.contains(id) ==> self.slot_of@[id.0] == self@.slot(id) && 0 <= self@.slot(id)
                < self.ids@.len() && self.ids@[self@.slot(id)] == id && !self.deleted@[self@.slot(
                id,
            )],
    {
        if self.slot_of@.contains_key(id.0) {
            let s = self.slot_of@[id.0] as int;
            assert(self.ids@[s] == id);
        }
        if self@.contains(id) {
            let s = self@.slot(id);
            assert(self.ids@[s] == id && !self.deleted@[s]);
        }
    }

    pub fn new(dim: usize, metric: Metric, params: HnswParams) -> (r: Self)
        ensures
            r.wf(),
            r@ == Hnsw::empty(dim as nat, metric, params),
    {
        let r = HnswIndex {
            params,
            metric,
            dim,
            vectors: Vec::new(),
            ids: Vec::new(),
            slot_of: HashMap::new(),
            links: Vec::new(),
            entry: None,
            deleted: Vec::new(),
            deleted_count: 0,
            level_seed: params.seed,
            level_m: params.m,
            loaded: 0,
        };
        proof {
            assert(r@.vectors =~= Seq::empty());
            assert(r@.links =~= Seq::empty());
            assert(r@.ids =~= Seq::empty());
            assert(r@.deleted =~= Seq::empty());
        }
        r
    }

    /// Inserts a vector under an id.
    pub fn insert<N: Numerics>(&mut self, num: &N, id: VectorId, vector: &[u32]) -> (r: Result<
        (),
        IndexError,
    >)
        requires
            old(self).wf(),
            functional(num),
        ensures
            final(self).wf(),
            r == (if vector@.len() != old(self)@.dim {
                Err(
                    IndexError::DimensionMismatch {
                        expected: old(self).dim,
                        got: vector@.len() as usize,
                    },
                )
            } else if old(self)@.contains(id) {
                Err(IndexError::DuplicateId(id))
            } else {
                Ok(())
            }),
            final(self)@ == (if r is Ok {
                old(self)@.inserted(model(num), id, vector@)
            } else {
                old(self)@
            }),
            r is Ok ==> forall|x: VectorId| #[trigger]
                final(self)@.contains(x) <==> (old(self)@.contains(x) || x == id),
    {
        broadcast use vstd::std_specs::hash::group_hash_axioms;

        let ghost g = model(num);
        let ghost before = self@;
        if vector.len() != self.dim {
            return Err(
                IndexError::DimensionMismatch { expected: self.dim, got: vector.len() },
            );
        }
        proof {
            self.lemma_contains(id);
            lemma_model_sane(num);
        }
        if self.slot_of.contains_key(&id.0) {
            return Err(IndexError::DuplicateId(id));
        }
        let slot: usize = self.ids.len();
        let stored: Vec<u32> = prepare(num, self.metric, vector);
        let level: usize = numerics::level(
            num,
            self.level_seed,
            self.level_m,
            (slot - self.loaded) as u64,
        );
        let levels: Vec<Vec<usize>> = empty_levels(level);
        let ghost old_map = self.slot_of@;
        let ghost old_deleted = self.deleted@;
        self.vectors.push(stored);
        self.ids.push(id);
        self.slot_of.insert(id.0, slot);
        self.deleted.push(false);
        self.links.push(levels);
        let ghost placed = before.placed(g, id, vector@);
        proof {
            assert(self@.vectors =~= placed.vectors);
            assert(self@.links =~= placed.links);
            lemma_push_levels(before.links, levels_view(levels));
            assert(self.deleted@.drop_last() =~= old_deleted);
            assert(self.slot_of@ == old_map.insert(id.0, slot));
            assert(maps_live(self.slot_of@, self.ids@, self.deleted@)) by {
                assert forall|x: u64| #[trigger] self.slot_of@.contains_key(x) implies
                    self.slot_of@[x] < self.ids@.len() && self.ids@[self.slot_of@[x] as int].0 == x
                    && !self.deleted@[self.slot_of@[x] as int] by {
                    if x != id.0 {
                        assert(old_map.contains_key(x));
                    }
                }
                assert forall|s: int| 0 <= s < self.ids@.len() && !self.deleted@[s] implies
                    self.slot_of@.contains_key((#[trigger] self.ids@[s]).0)
                    && self.slot_of@[self.ids@[s].0] == s by {
                    if s < slot {
                        assert(self.ids@[s] == before.ids[s]);
                        assert(old_map.contains_key(before.ids[s].0));
                    }
                }
            }
            assert forall|s: int, t: int|
                0 <= s < self.ids@.len() && 0 <= t < self.ids@.len() && !self.deleted@[s]
                    && !self.deleted@[t] && #[trigger] self.ids@[s] == #[trigger] self.ids@[t]
                    implies s == t by {
                assert(self.slot_of@[self.ids@[s].0] == s);
                assert(self.slot_of@[self.ids@[t].0] == t);
            }
            assert forall|s: int| 0 <= s < placed.vectors.len() implies (
            #[trigger] placed.vectors[s]).len() == placed.dim by {
                if s < slot {
                    assert(placed.vectors[s] == before.vectors[s]);
                }
            }
        }
        let entry: usize = match self.entry {
            None => {
                self.entry = Some(slot);
                proof {
                    assert(self@ == before.inserted(g, id, vector@));
                    lemma_inserted_ids(before, g, id, vector@);
                }
                return Ok(());
            },
            Some(e) => e,
        };
        let top: usize = self.links[entry].len() - 1;
        let ghost pair = placed.pair(g);
        let ghost dist = |s: usize| pair(slot, s);
        let metric = self.metric;
        let vectors: &Vec<Vec<u32>> = &self.vectors;
        let between = |a: usize, b: usize| -> (d: u32)
            requires
                a < vectors@.len(),
                b < vectors@.len(),
            ensures
                d == (model(num).distance)(metric, vectors@[a as int]@, vectors@[b as int]@),
            { distance(num, metric, vectors[a].as_slice(), vectors[b].as_slice()) };
        let from_new = |b: usize| -> (d: u32)
            requires
                slot < vectors@.len(),
                b < vectors@.len(),
            ensures
                d == (model(num).distance)(metric, vectors@[slot as int]@, vectors@[b as int]@),
            { distance(num, metric, vectors[slot].as_slice(), vectors[b].as_slice()) };
        proof {
            assert(before.links[entry as int].len() > 0);
            assert(self@.links[entry as int] == before.links[entry as int]);
        }
        let near: usize = descend(&self.links, entry, top, level + 1, &from_new, Ghost(dist));
        let meet: usize = if level <= top { level } else { top };
        weave(
            &mut self.links,
            slot,
            near,
            meet,
            self.params.m,
            self.params.m_max0,
            self.params.ef_construction,
            &between,
            &from_new,
            Ghost(pair),
        );
        if level > top {
            self.entry = Some(slot);
        }
        proof {
            assert(self@ == before.inserted(g, id, vector@));
            lemma_inserted_ids(before, g, id, vector@);
        }
        Ok(())
    }
}

/// An insertion adds one live id and keeps the others.
pub proof fn lemma_inserted_ids(h: Hnsw, g: Model, id: VectorId, v: Seq<u32>)
    requires
        h.deleted.len() == h.ids.len(),
    ensures
        h.inserted(g, id, v).ids == h.ids.push(id),
        h.inserted(g, id, v).deleted == h.deleted.push(false),
        h.inserted(g, id, v).vectors == h.vectors.push(prepared(g, h.metric, v)),
        h.inserted(g, id, v).dim == h.dim,
        h.inserted(g, id, v).metric == h.metric,
        h.inserted(g, id, v).params == h.params,
        forall|x: VectorId| #[trigger]
            h.inserted(g, id, v).contains(x) <==> (h.contains(x) || x == id),
{
    let t = h.inserted(g, id, v);
    assert forall|x: VectorId| #[trigger] t.contains(x) <==> (h.contains(x) || x == id) by {
        if h.contains(x) {
            let s = h.slot(x);
            assert(t.ids[s] == x && !t.deleted[s]);
        }
        if x == id {
            assert(t.ids[h.ids.len() as int] == id);
        }
        if t.contains(x) && x != id {
            let s = t.slot(x);
            assert(h.ids[s] == x);
        }
    }
}

/// The live id is in one of the first `n` slots.
pub open spec fn lives_below(ids: Seq<VectorId>, deleted: Seq<bool>, n: int, id: VectorId) -> bool {
    exists|s: int| 0 <= s < n && (#[trigger] ids[s]) == id && !deleted[s]
}

/// A rebuild holds exactly the live ids of the slots that it went through, and
/// nothing in it is deleted.
pub proof fn lemma_rebuilt(h: Hnsw, g: Model, n: int)
    requires
        h.valid(),
        0 <= n <= h.ids.len(),
    ensures
        h.rebuilt(g, n).dim == h.dim,
        h.rebuilt(g, n).metric == h.metric,
        h.rebuilt(g, n).params == h.params,
        h.rebuilt(g, n).deleted.len() == h.rebuilt(g, n).ids.len(),
        forall|i: int|
            0 <= i < h.rebuilt(g, n).deleted.len() ==> !(#[trigger] h.rebuilt(g, n).deleted[i]),
        forall|x: VectorId| #[trigger]
            h.rebuilt(g, n).contains(x) <==> lives_below(h.ids, h.deleted, n, x),
        h.rebuilt(g, n).ids.len() + count_set(h.deleted.take(n)) == n,
    decreases n,
{
    if n > 0 {
        lemma_rebuilt(h, g, n - 1);
        let prev = h.rebuilt(g, n - 1);
        assert(h.deleted.take(n).drop_last() =~= h.deleted.take(n - 1));
        if !h.deleted[n - 1] {
            lemma_inserted_ids(prev, g, h.ids[n - 1], h.vectors[n - 1]);
        }
        assert forall|x: VectorId| #[trigger] h.rebuilt(g, n).contains(x) <==> lives_below(
            h.ids,
            h.deleted,
            n,
            x,
        ) by {
            if lives_below(h.ids, h.deleted, n - 1, x) {
                let s = choose|s: int|
                    0 <= s < n - 1 && (#[trigger] h.ids[s]) == x && !h.deleted[s];
                assert(h.ids[s] == x);
            }
            if lives_below(h.ids, h.deleted, n, x) {
                let s = choose|s: int| 0 <= s < n && (#[trigger] h.ids[s]) == x && !h.deleted[s];
                if s < n - 1 {
                    assert(lives_below(h.ids, h.deleted, n - 1, x));
                }
            }
            if !h.deleted[n - 1] && x == h.ids[n - 1] {
                assert(lives_below(h.ids, h.deleted, n, x));
            }
            assert(prev.contains(x) <==> lives_below(h.ids, h.deleted, n - 1, x));
        }
    } else {
        assert forall|x: VectorId| !(#[trigger] h.rebuilt(g, n).contains(x)) by {}
        assert(h.deleted.take(0) =~= Seq::empty());
    }
}

/// Marking a node keeps the index valid and takes exactly its id away.
pub proof fn lemma_marked(h: Hnsw, id: VectorId)
    requires
        h.valid(),
        h.contains(id),
        h.ids.len() <= usize::MAX,
    ensures
        h.marked(id).valid(),
        count_set(h.marked(id).deleted) == count_set(h.deleted) + 1,
        forall|x: VectorId| #[trigger]
            h.marked(id).contains(x) <==> (h.contains(x) && x != id),
{
    let s = h.slot(id);
    let t = h.marked(id);
    assert(h.ids[s] == id && !h.deleted[s]);
    lemma_count_clear(h.deleted, s);
    lemma_highest(h.links, t.deleted, h.ids.len() as int);
    assert forall|x: VectorId| #[trigger] t.contains(x) <==> (h.contains(x) && x != id) by {
        if t.contains(x) {
            let a = t.slot(x);
            assert(h.ids[a] == x && !h.deleted[a]);
        }
        if h.contains(x) && x != id {
            let a = h.slot(x);
            assert(t.ids[a] == x && !t.deleted[a]);
        }
    }
    assert forall|a: int, b: int|
        0 <= a < t.ids.len() && 0 <= b < t.ids.len() && !t.deleted[a] && !t.deleted[b]
            && #[trigger] t.ids[a] == #[trigger] t.ids[b] implies a == b by {
        assert(!h.deleted[a] && !h.deleted[b]);
    }
    if t.entry is None {
        if h.entry is None {
            assert(h.deleted[s]);
        }
    }
}

impl HnswIndex {
    /// Makes the highest live node the entry point: of those with the most
    /// levels, the last. None where nothing is live.
    fn pick_new_entry(&mut self)
        requires
            old(self)@.links.len() == old(self).ids@.len(),
            old(self).deleted@.len() == old(self).ids@.len(),
        ensures
            final(self)@ == (Hnsw {
                entry: highest(
                    old(self)@.links,
                    old(self)@.deleted,
                    old(self)@.ids.len() as int,
                ),
                ..old(self)@
            }),
            final(self).slot_of == old(self).slot_of,
            final(self).deleted_count == old(self).deleted_count,
    {
        let n: usize = self.ids.len();
        let mut best: Option<usize> = None;
        let mut s: usize = 0;
        let ghost links = self@.links;
        while s < n
            invariant
                s <= n,
                n == self.ids@.len() == self.links@.len() == self.deleted@.len(),
                links == links_view(self.links@),
                best == highest(links, self.deleted@, s as int),
                best matches Some(b) ==> b < s,
            decreases n - s,
        {
            if !self.deleted[s] {
                match best {
                    None => {
                        best = Some(s);
                    },
                    Some(b) => {
                        if self.links[s].len() >= self.links[b].len() {
                            best = Some(s);
                        }
                    },
                }
            }
            s = s + 1;
        }
        self.entry = best;
    }

    /// Rebuilds the index from its live nodes.
    pub fn compact<N: Numerics>(&mut self, num: &N)
        requires
            old(self).wf(),
            functional(num),
        ensures
            final(self).wf(),
            final(self)@ == old(self)@.compacted(model(num)),
    {
        let ghost g = model(num);
        let ghost h = self@;
        let mut fresh = HnswIndex::new(self.dim, self.metric, self.params);
        let mut s: usize = 0;
        while s < self.ids.len()
            invariant
                s <= self.ids@.len(),
                self.wf(),
                self@ == h,
                g == model(num),
                functional(num),
                fresh.wf(),
                fresh@ == h.rebuilt(g, s as int),
            decreases self.ids@.len() - s,
        {
            if !self.deleted[s] {
                proof {
                    lemma_rebuilt(h, g, s as int);
                    if fresh@.contains(h.ids[s as int]) {
                        let t = choose|t: int|
                            0 <= t < s && (#[trigger] h.ids[t]) == h.ids[s as int]
                                && !h.deleted[t];
                        assert(h.ids[t] == h.ids[s as int]);
                    }
                    assert(h.vectors[s as int].len() == h.dim);
                }
                let _ = fresh.insert(num, self.ids[s], self.vectors[s].as_slice());
            }
            s = s + 1;
        }
        *self = fresh;
    }

    /// Deletes an id: its node is marked, and the index is compacted where too
    /// much of it is deleted.
    pub fn delete<N: Numerics>(&mut self, num: &N, id: VectorId) -> (r: Result<(), IndexError>)
        requires
            old(self).wf(),
            functional(num),
        ensures
            final(self).wf(),
            r == (if old(self)@.contains(id) {
                Ok(())
            } else {
                Err(IndexError::NotFound(id))
            }),
            final(self)@ == (if r is Ok {
                old(self)@.deleted(model(num), id)
            } else {
                old(self)@
            }),
            r is Ok ==> forall|x: VectorId| #[trigger]
                final(self)@.contains(x) <==> (old(self)@.contains(x) && x != id),
    {
        broadcast use vstd::std_specs::hash::group_hash_axioms;

        let ghost h = self@;
        let ghost old_map = self.slot_of@;
        let total: usize = self.ids.len();
        proof {
            self.lemma_contains(id);
        }
        let slot: usize = match self.slot_of.remove(&id.0) {
            None => {
                assert(self.slot_of@ =~= old_map);
                return Err(IndexError::NotFound(id));
            },
            Some(slot) => slot,
        };
        proof {
            lemma_count_clear(h.deleted, slot as int);
            lemma_marked(h, id);
        }
        self.deleted.set(slot, true);
        self.deleted_count = self.deleted_count + 1;
        let was_entry: bool = match self.entry {
            Some(e) => e == slot,
            None => false,
        };
        if was_entry {
            self.pick_new_entry();
        }
        proof {
            assert(self@ == h.marked(id));
            assert(maps_live(self.slot_of@, self.ids@, self.deleted@)) by {
                assert forall|x: u64| #[trigger] self.slot_of@.contains_key(x) implies
                    self.slot_of@[x] < self.ids@.len() && self.ids@[self.slot_of@[x] as int].0 == x
                    && !self.deleted@[self.slot_of@[x] as int] by {
                    assert(old_map.contains_key(x));
                }
                assert forall|s: int| 0 <= s < self.ids@.len() && !self.deleted@[s] implies
                    self.slot_of@.contains_key((#[trigger] self.ids@[s]).0)
                    && self.slot_of@[self.ids@[s].0] == s by {
                    assert(!h.deleted[s]);
                    assert(old_map.contains_key(h.ids[s].0));
                    if h.ids[s].0 == id.0 {
                        assert(h.ids[s] == h.ids[slot as int]);
                    }
                }
            }
        }
        if numerics::worn_out(
            num,
            self.params.tombstone_threshold,
            self.deleted_count,
            total,
        ) {
            self.compact(num);
        }
        proof {
            assert forall|x: VectorId| #[trigger] self@.contains(x) <==> (h.contains(x) && x
                != id) by {
                crate::hnsw_laws::deletion_takes_exactly_one_id(h, model(num), id, x);
            }
        }
        Ok(())
    }

    /// Number of live nodes.
    pub fn len(&self) -> (n: usize)
        requires
            self.wf(),
        ensures
            n + count_set(self@.deleted) == self@.ids.len(),
    {
        proof {
            lemma_count_set(self.deleted@);
        }
        self.ids.len() - self.deleted_count
    }

    pub fn is_empty(&self) -> (b: bool)
        requires
            self.wf(),
        ensures
            b == (count_set(self@.deleted) == self@.ids.len()),
    {
        self.len() == 0
    }

    /// Is this id live?
    pub fn contains(&self, id: VectorId) -> (b: bool)
        requires
            self.wf(),
        ensures
            b == self@.contains(id),
    {
        broadcast use vstd::std_specs::hash::group_hash_axioms;

        proof {
            self.lemma_contains(id);
        }
        self.slot_of.contains_key(&id.0)
    }

    /// The stored vector of a live id.
    pub fn vector_of(&self, id: VectorId) -> (r: Option<&Vec<u32>>)
        requires
            self.wf(),
        ensures
            r is Some <==> self@.contains(id),
            r matches Some(v) ==> v@ == self@.vectors[self@.slot(id)],
    {
        broadcast use vstd::std_specs::hash::group_hash_axioms;

        proof {
            self.lemma_contains(id);
        }
        match self.slot_of.get(&id.0) {
            Some(s) => Some(&self.vectors[*s]),
            None => None,
        }
    }

    pub fn params(&self) -> (p: &HnswParams)
        ensures
            *p == self@.params,
    {
        &self.params
    }

    /// Changes the query width; the graph stays as it is.
    pub fn set_ef_search(&mut self, ef: usize)
        requires
            old(self).wf(),
        ensures
            final(self).wf(),
            final(self)@ == (Hnsw {
                params: (HnswParams { ef_search: ef, ..old(self)@.params }),
                ..old(self)@
            }),
    {
        self.params.ef_search = ef;
    }

    pub fn dim(&self) -> (d: usize)
        ensures
            d == self@.dim,
    {
        self.dim
    }

    pub fn metric(&self) -> (m: Metric)
        ensures
            m == self@.metric,
    {
        self.metric
    }
}

impl HnswIndex {
    /// The base-level node nearest to a query that greedy descent reaches.
    fn base_entry<N: Numerics>(&self, num: &N, query: &Vec<u32>, entry: usize) -> (out: usize)
        requires
            self.wf(),
            functional(num),
            self.entry == Some(entry),
        ensures
            out == self@.base_entry(model(num), query@),
            out < self.ids@.len(),
    {
        let vectors: &Vec<Vec<u32>> = &self.vectors;
        let metric = self.metric;
        let dist = |s: usize| -> (d: u32)
            requires
                s < vectors@.len(),
            ensures
                d == (model(num).distance)(metric, query@, vectors@[s as int]@),
            { distance(num, metric, query.as_slice(), vectors[s].as_slice()) };
        proof {
            assert(self@.links[entry as int].len() > 0);
        }
        let top: usize = self.links[entry].len() - 1;
        descend(&self.links, entry, top, 1, &dist, Ghost(self@.from_query(model(num), query@)))
    }

    /// The first `k` candidates with their ids.
    fn report(&self, found: &Vec<Cand>, k: usize) -> (out: Vec<SearchResult>)
        requires
            forall|i: int| 0 <= i < found@.len() ==> (#[trigger] found@[i]).slot < self.ids@.len(),
        ensures
            out@ == self@.reported(found@, k as nat),
    {
        let mut out: Vec<SearchResult> = Vec::new();
        let mut i: usize = 0;
        while i < found.len() && i < k
            invariant
                i <= found@.len(),
                i <= k,
                forall|i: int|
                    0 <= i < found@.len() ==> (#[trigger] found@[i]).slot < self.ids@.len(),
                out@.len() == i,
                forall|j: int|
                    0 <= j < i ==> #[trigger] out@[j] == (SearchResult {
                        id: self.ids@[found@[j].slot as int],
                        distance: found@[j].dist,
                    }),
            decreases found@.len() - i,
        {
            let c: Cand = found[i];
            out.push(SearchResult::new(self.ids[c.slot], c.dist));
            i = i + 1;
        }
        assert(out@ =~= self@.reported(found@, k as nat));
        out
    }

    /// Searches with the given width and returns at most `k` results in
    /// ascending order of distance.
    pub fn search_with_ef<N: Numerics>(&self, num: &N, query: &[u32], k: usize, ef: usize) -> (out:
        Vec<SearchResult>)
        requires
            self.wf(),
            functional(num),
        ensures
            out@ == self@.found(model(num), query@, k as nat, ef as nat),
            finds_nearest(self@, model(num), query@, k as nat, ef as nat, out@),
    {
        proof {
            if self@.entry is Some && k > 0 {
                search_finds_the_nearest_it_reaches(
                    self@,
                    model(num),
                    query@,
                    k as nat,
                    ef as nat,
                );
            }
        }
        let entry: usize = match self.entry {
            None => {
                return Vec::new();
            },
            Some(e) => e,
        };
        if k == 0 {
            return Vec::new();
        }
        let v: Vec<u32> = prepare(num, self.metric, query);
        let near: usize = self.base_entry(num, &v, entry);
        let width: usize = if ef >= k { ef } else { k };
        let vectors: &Vec<Vec<u32>> = &self.vectors;
        let deleted: &Vec<bool> = &self.deleted;
        let metric = self.metric;
        let dist = |s: usize| -> (d: u32)
            requires
                s < vectors@.len(),
            ensures
                d == (model(num).distance)(metric, v@, vectors@[s as int]@),
            { distance(num, metric, v.as_slice(), vectors[s].as_slice()) };
        let live = |s: usize| -> (b: bool)
            requires
                s < deleted@.len(),
            ensures
                b == !deleted@[s as int],
            { !deleted[s] };
        let ghost quest = self@.base_quest(
            model(num),
            v@,
            |s: usize| !self@.deleted[s as int],
            width as nat,
            None,
        );
        let entries: Vec<usize> = vec![near];
        proof {
            assert(entries@ =~= seq![near]);
            assert(self@.links[near as int].len() > 0);
            assert(on_level(quest.links, entries@[0], 0));
        }
        let found = search_layer(
            &self.links,
            &entries,
            width,
            0,
            &dist,
            &live,
            None,
            Ghost(quest),
        ).0;
        proof {
            assert forall|i: int| 0 <= i < found@.len() implies (#[trigger] found@[i]).slot
                < self.ids@.len() by {
                assert(on_level(quest.links, found@[i].slot, 0));
            }
        }
        self.report(&found, k)
    }

    /// Searches with the width of the parameters.
    pub fn search<N: Numerics>(&self, num: &N, query: &[u32], k: usize) -> (out: Vec<SearchResult>)
        requires
            self.wf(),
            functional(num),
        ensures
            out@ == self@.found(model(num), query@, k as nat, self@.params.ef_search as nat),
            finds_nearest(
                self@,
                model(num),
                query@,
                k as nat,
                self@.params.ef_search as nat,
                out@,
            ),
    {
        self.search_with_ef(num, query, k, self.params.ef_search)
    }

    /// All live nodes that pass, ranked, the first `k`.
    fn scan<N: Numerics, A: Fn(VectorId) -> bool>(
        &self,
        num: &N,
        query: &Vec<u32>,
        k: usize,
        allow: &A,
        Ghost(p): Ghost<spec_fn(VectorId) -> bool>,
    ) -> (out: Vec<SearchResult>)
        requires
            self.wf(),
            functional(num),
            judges(*allow, p),
        ensures
            out@ == smallest(
                self@.passing(model(num), query@, p, self@.ids.len() as int),
                k as nat,
            ),
    {
        let ghost g = model(num);
        let mut best: Vec<SearchResult> = Vec::new();
        let mut s: usize = 0;
        proof {
            assert(smallest(Seq::<SearchResult>::empty(), k as nat) =~= Seq::empty());
        }
        while s < self.ids.len()
            invariant
                s <= self.ids@.len(),
                self.wf(),
                functional(num),
                g == model(num),
                judges(*allow, p),
                sorted(best@),
                best@ == smallest(self@.passing(g, query@, p, s as int), k as nat),
            decreases self.ids@.len() - s,
        {
            if !self.deleted[s] && allow(self.ids[s]) {
                let d: u32 = distance(
                    num,
                    self.metric,
                    query.as_slice(),
                    self.vectors[s].as_slice(),
                );
                let r = SearchResult::new(self.ids[s], d);
                proof {
                    lemma_kept(self@.passing(g, query@, p, s as int), r, k as nat);
                }
                keep_smallest(&mut best, r, k);
            }
            s = s + 1;
        }
        best
    }

    /// Searches among the nodes whose id passes the filter, and reports how the
    /// search went. Nodes that do not pass still serve as bridges.
    pub fn search_filtered_stats<N: Numerics, A: Fn(VectorId) -> bool>(
        &self,
        num: &N,
        query: &[u32],
        k: usize,
        ef: usize,
        allow: &A,
        visited_budget: Option<usize>,
    ) -> (out: (Vec<SearchResult>, FilterSearchStats))
        requires
            self.wf(),
            functional(num),
            decides(*allow),
        ensures
            (out.0@, out.1) == self@.filtered(
                model(num),
                query@,
                k as nat,
                ef as nat,
                verdict(*allow),
                match visited_budget {
                    Some(b) => Some(b as nat),
                    None => None,
                },
            ),
            filters_nearest(
                self@,
                model(num),
                query@,
                k as nat,
                ef as nat,
                verdict(*allow),
                match visited_budget {
                    Some(b) => Some(b as nat),
                    None => None,
                },
                out.0@,
                out.1,
            ),
    {
        self.search_filtered_as(
            num,
            query,
            k,
            ef,
            allow,
            visited_budget,
            Ghost(verdict(*allow)),
        )
    }

    /// The filtered search, for a filter that answers as `p` does.
    pub fn search_filtered_as<N: Numerics, A: Fn(VectorId) -> bool>(
        &self,
        num: &N,
        query: &[u32],
        k: usize,
        ef: usize,
        allow: &A,
        visited_budget: Option<usize>,
        Ghost(p): Ghost<spec_fn(VectorId) -> bool>,
    ) -> (out: (Vec<SearchResult>, FilterSearchStats))
        requires
            self.wf(),
            functional(num),
            judges(*allow, p),
        ensures
            (out.0@, out.1) == self@.filtered(
                model(num),
                query@,
                k as nat,
                ef as nat,
                p,
                match visited_budget {
                    Some(b) => Some(b as nat),
                    None => None,
                },
            ),
            filters_nearest(
                self@,
                model(num),
                query@,
                k as nat,
                ef as nat,
                p,
                match visited_budget {
                    Some(b) => Some(b as nat),
                    None => None,
                },
                out.0@,
                out.1,
            ),
    {
        proof {
            if self@.entry is Some && k > 0 {
                let count = self.ids.len();
                filtered_search_finds_the_nearest(
                    self@,
                    model(num),
                    query@,
                    k as nat,
                    ef as nat,
                    p,
                    match visited_budget {
                        Some(b) => Some(b as nat),
                        None => None,
                    },
                );
            }
        }
        let mut stats = FilterSearchStats {
            visited: 0,
            admitted: 0,
            fallback_used: false,
            budget_exhausted: false,
        };
        let entry: usize = match self.entry {
            None => {
                return (Vec::new(), stats);
            },
            Some(e) => e,
        };
        if k == 0 {
            return (Vec::new(), stats);
        }
        let v: Vec<u32> = prepare(num, self.metric, query);
        let near: usize = self.base_entry(num, &v, entry);
        let width: usize = if ef >= k { ef } else { k };
        let vectors: &Vec<Vec<u32>> = &self.vectors;
        let deleted: &Vec<bool> = &self.deleted;
        let ids: &Vec<VectorId> = &self.ids;
        let metric = self.metric;
        let dist = |s: usize| -> (d: u32)
            requires
                s < vectors@.len(),
            ensures
                d == (model(num).distance)(metric, v@, vectors@[s as int]@),
            { distance(num, metric, v.as_slice(), vectors[s].as_slice()) };
        let passes = |s: usize| -> (b: bool)
            requires
                s < deleted@.len(),
                s < ids@.len(),
            ensures
                b == (!deleted@[s as int] && p(ids@[s as int])),
            { !deleted[s] && allow(ids[s]) };
        let ghost quest = self@.base_quest(
            model(num),
            v@,
            |s: usize| !self@.deleted[s as int] && p(self@.ids[s as int]),
            width as nat,
            match visited_budget {
                Some(b) => Some(b as nat),
                None => None,
            },
        );
        let entries: Vec<usize> = vec![near];
        proof {
            assert(entries@ =~= seq![near]);
            assert(self@.links[near as int].len() > 0);
            assert(on_level(quest.links, entries@[0], 0));
        }
        let (found, visited, admitted) = search_layer(
            &self.links,
            &entries,
            width,
            0,
            &dist,
            &passes,
            visited_budget,
            Ghost(quest),
        );
        stats.visited = visited;
        stats.admitted = admitted;
        stats.budget_exhausted = match visited_budget {
            Some(b) => visited >= b,
            None => false,
        };
        proof {
            assert forall|i: int| 0 <= i < found@.len() implies (#[trigger] found@[i]).slot
                < self.ids@.len() by {
                assert(on_level(quest.links, found@[i].slot, 0));
            }
        }
        if stats.budget_exhausted || found.len() >= k {
            return (self.report(&found, k), stats);
        }
        stats.fallback_used = true;
        (self.scan(num, &v, k, allow, Ghost(p)), stats)
    }

    /// Searches among the nodes whose id passes the filter.
    pub fn search_filtered_with_ef<N: Numerics, A: Fn(VectorId) -> bool>(
        &self,
        num: &N,
        query: &[u32],
        k: usize,
        ef: usize,
        allow: &A,
    ) -> (out: Vec<SearchResult>)
        requires
            self.wf(),
            functional(num),
            decides(*allow),
        ensures
            out@ == self@.filtered(
                model(num),
                query@,
                k as nat,
                ef as nat,
                verdict(*allow),
                None,
            ).0,
    {
        self.search_filtered_stats(num, query, k, ef, allow, None).0
    }

    /// The live ids with their vectors, in slot order.
    pub fn live_entries(&self) -> (out: Vec<(VectorId, &Vec<u32>)>)
        requires
            self.wf(),
        ensures
            entries_view(out@) == self@.live(self@.ids.len() as int),
    {
        let mut out: Vec<(VectorId, &Vec<u32>)> = Vec::new();
        let mut s: usize = 0;
        while s < self.ids.len()
            invariant
                s <= self.ids@.len(),
                self.wf(),
                entries_view(out@) == self@.live(s as int),
            decreases self.ids@.len() - s,
        {
            if !self.deleted[s] {
                let ghost before = out@;
                out.push((self.ids[s], &self.vectors[s]));
                assert(entries_view(out@) =~= entries_view(before).push(
                    (self.ids@[s as int], self.vectors@[s as int]@),
                ));
            }
            s = s + 1;
        }
        out
    }
}

pub open spec fn entries_view(out: Seq<(VectorId, &Vec<u32>)>) -> Seq<(VectorId, Seq<u32>)> {
    Seq::new(out.len(), |i: int| (out[i].0, out[i].1@))
}

impl Hnsw {
    /// The live ids with their vectors among the first `n` slots.
    pub open spec fn live(self, n: int) -> Seq<(VectorId, Seq<u32>)>
        decreases n,
    {
        if n <= 0 {
            Seq::empty()
        } else if self.deleted[n - 1] {
            self.live(n - 1)
        } else {
            self.live(n - 1).push((self.ids[n - 1], self.vectors[n - 1]))
        }
    }
}

} // verus!
