//! A frozen HNSW index over quantized vectors.
//!
//! The graph is built at full precision and copied; each vector becomes a code
//! of one byte per component. A query stays at full precision and is compared
//! with the codes directly. Writes go elsewhere: the frozen index refuses them.

use vstd::prelude::*;
use crate::distance::Metric;
use crate::error::IndexError;
use crate::graph::{
    count_set, explored, grounded, linked, links_view, on_level, search_layer, Cand, Links, Quest,
};
use crate::graph_laws::layer_search_is_sound;
use crate::hnsw::{Hnsw, HnswIndex};
use crate::hnsw_laws::lemma_slot;
use crate::numerics::{functional, model, prepare, prepared, Model, Numerics};
use crate::rank::{first_k, Ranked};
use crate::segmented::SegmentedIndex;
use crate::types::{SearchResult, VectorId};

verus! {

/// Scalar quantization, supplied from outside because it computes in floating
/// point.
pub trait Quantizer {
    /// The code of a vector.
    fn encode(&self, v: &[u32]) -> Vec<u8>;

    /// The key of the distance between a query and a code.
    fn dist(&self, metric: Metric, query: &[u32], code: &[u8]) -> u32;
}

/// What a quantizer computes.
pub ghost struct QuantModel {
    pub encode: spec_fn(Seq<u32>) -> Seq<u8>,
    pub dist: spec_fn(Metric, Seq<u32>, Seq<u8>) -> u32,
}

#[verifier::opaque]
pub open spec fn quant_follows<Q: Quantizer>(quant: &Q, g: QuantModel) -> bool {
    &&& forall|v: &[u32], c: Vec<u8>| #[trigger]
        call_ensures(Q::encode, (quant, v), c) ==> c@ == (g.encode)(v@)
    &&& forall|m: Metric, q: &[u32], c: &[u8], d: u32| #[trigger]
        call_ensures(Q::dist, (quant, m, q, c), d) ==> d == (g.dist)(m, q@, c@)
}

/// The operations are functions of their arguments.
pub open spec fn quant_functional<Q: Quantizer>(quant: &Q) -> bool {
    exists|g: QuantModel| quant_follows(quant, g)
}

pub open spec fn quant_model<Q: Quantizer>(quant: &Q) -> QuantModel {
    choose|g: QuantModel| quant_follows(quant, g)
}

fn code_distance<Q: Quantizer>(quant: &Q, metric: Metric, query: &[u32], code: &[u8]) -> (d: u32)
    requires
        quant_functional(quant),
    ensures
        d == (quant_model(quant).dist)(metric, query@, code@),
{
    proof {
        reveal(quant_follows);
    }
    quant.dist(metric, query, code)
}

fn encode<Q: Quantizer>(quant: &Q, v: &[u32]) -> (c: Vec<u8>)
    requires
        quant_functional(quant),
    ensures
        c@ == (quant_model(quant).encode)(v@),
{
    proof {
        reveal(quant_follows);
    }
    quant.encode(v)
}

/// The contents of a frozen index.
pub ghost struct Frozen {
    pub metric: Metric,
    pub dim: nat,
    pub ef_search: nat,
    pub codes: Seq<Seq<u8>>,
    pub ids: Seq<VectorId>,
    pub links: Links,
    pub entry: Option<usize>,
    pub deleted: Seq<bool>,
}

impl Frozen {
    pub open spec fn valid(self) -> bool {
        &&& self.codes.len() == self.ids.len()
        &&& self.links.len() == self.ids.len()
        &&& self.deleted.len() == self.ids.len()
        &&& linked(self.links)
        &&& grounded(self.links)
        &&& self.entry matches Some(e) ==> e < self.ids.len()
    }

    /// The frozen copy of an index: the same graph, with codes in place of
    /// vectors.
    pub open spec fn of(h: Hnsw, g: QuantModel) -> Frozen {
        Frozen {
            metric: h.metric,
            dim: h.dim,
            ef_search: h.params.ef_search as nat,
            codes: Seq::new(h.vectors.len(), |s: int| (g.encode)(h.vectors[s])),
            ids: h.ids,
            links: h.links,
            entry: h.entry,
            deleted: h.deleted,
        }
    }

    /// A search on a level; deleted nodes serve as bridges only.
    pub open spec fn quest(self, g: QuantModel, query: Seq<u32>, level: int, ef: nat) -> Quest {
        Quest {
            links: self.links,
            level,
            dist: |s: usize| (g.dist)(self.metric, query, self.codes[s as int]),
            eligible: |s: usize| !self.deleted[s as int],
            ef,
            budget: None,
        }
    }

    /// Greedy descent from level `level` to level 1: the nearest live node of
    /// each level, or the same node where there is none.
    pub open spec fn descended(self, g: QuantModel, query: Seq<u32>, entry: usize, level: int) -> usize
        decreases level,
    {
        if level < 1 {
            entry
        } else {
            let step = explored(self.quest(g, query, level, 1), seq![entry]).results;
            let next = if step.len() > 0 {
                step[0].slot
            } else {
                entry
            };
            self.descended(g, query, next, level - 1)
        }
    }

    /// What a search returns.
    pub open spec fn found(
        self,
        num: Model,
        g: QuantModel,
        query: Seq<u32>,
        k: nat,
        ef: nat,
    ) -> Seq<SearchResult> {
        if self.entry is None || k == 0 {
            Seq::empty()
        } else {
            let v = prepared(num, self.metric, query);
            let e = self.entry->0;
            let near = self.descended(g, v, e, self.links[e as int].len() - 1);
            let width = if ef >= k {
                ef
            } else {
                k
            };
            let found = explored(self.quest(g, v, 0, width), seq![near]).results;
            Seq::new(
                first_k(found, k).len(),
                |i: int|
                    SearchResult { id: self.ids[found[i].slot as int], distance: found[i].dist },
            )
        }
    }
}

pub struct QuantizedHnsw {
    pub metric: Metric,
    pub dim: usize,
    pub ef_search: usize,
    pub codes: Vec<Vec<u8>>,
    pub ids: Vec<VectorId>,
    pub links: Vec<Vec<Vec<usize>>>,
    pub entry: Option<usize>,
    pub deleted: Vec<bool>,
    pub live: usize,
}

pub open spec fn codes_view(codes: Seq<Vec<u8>>) -> Seq<Seq<u8>> {
    Seq::new(codes.len(), |s: int| codes[s]@)
}

impl View for QuantizedHnsw {
    type V = Frozen;

    open spec fn view(&self) -> Frozen {
        Frozen {
            metric: self.metric,
            dim: self.dim as nat,
            ef_search: self.ef_search as nat,
            codes: codes_view(self.codes@),
            ids: self.ids@,
            links: links_view(self.links@),
            entry: self.entry,
            deleted: self.deleted@,
        }
    }
}

fn copy_links(links: &Vec<Vec<Vec<usize>>>) -> (out: Vec<Vec<Vec<usize>>>)
    ensures
        links_view(out@) == links_view(links@),
{
    let mut out: Vec<Vec<Vec<usize>>> = Vec::new();
    let mut s: usize = 0;
    while s < links.len()
        invariant
            s <= links@.len(),
            out@.len() == s,
            forall|k: int| 0 <= k < s ==> crate::graph::levels_view(#[trigger] out@[k])
                == crate::graph::levels_view(links@[k]),
        decreases links@.len() - s,
    {
        let levels: &Vec<Vec<usize>> = &links[s];
        let mut copy: Vec<Vec<usize>> = Vec::new();
        let mut l: usize = 0;
        while l < levels.len()
            invariant
                l <= levels@.len(),
                copy@.len() == l,
                forall|k: int| 0 <= k < l ==> (#[trigger] copy@[k])@ == levels@[k]@,
            decreases levels@.len() - l,
        {
            let list: Vec<usize> = levels[l].clone();
            assert(list@ =~= levels@[l as int]@);
            copy.push(list);
            l = l + 1;
        }
        assert(crate::graph::levels_view(copy) =~= crate::graph::levels_view(*levels));
        out.push(copy);
        s = s + 1;
    }
    assert(links_view(out@) =~= links_view(links@));
    out
}

impl QuantizedHnsw {
    pub open spec fn wf(&self) -> bool {
        &&& self@.valid()
        &&& self.live + count_set(self.deleted@) == self.ids@.len()
    }

    /// Freezes a copy of an index.
    pub fn from_hnsw<Q: Quantizer>(src: &HnswIndex, quant: &Q) -> (r: Self)
        requires
            src.wf(),
            quant_functional(quant),
        ensures
            r.wf(),
            r@ == Frozen::of(src@, quant_model(quant)),
    {
        let ghost g = quant_model(quant);
        let mut codes: Vec<Vec<u8>> = Vec::new();
        let mut s: usize = 0;
        while s < src.vectors.len()
            invariant
                s <= src.vectors@.len(),
                quant_functional(quant),
                g == quant_model(quant),
                codes@.len() == s,
                forall|k: int|
                    0 <= k < s ==> (#[trigger] codes@[k])@ == (g.encode)(src.vectors@[k]@),
            decreases src.vectors@.len() - s,
        {
            codes.push(encode(quant, src.vectors[s].as_slice()));
            s = s + 1;
        }
        let ids: Vec<VectorId> = src.ids.clone();
        let deleted: Vec<bool> = src.deleted.clone();
        let r = QuantizedHnsw {
            metric: src.metric,
            dim: src.dim,
            ef_search: src.params.ef_search,
            codes,
            ids,
            links: copy_links(&src.links),
            entry: src.entry,
            deleted,
            live: src.len(),
        };
        proof {
            let want = Frozen::of(src@, g);
            assert(r@.codes =~= want.codes);
            assert(r@.ids =~= want.ids);
            assert(r@.deleted =~= want.deleted);
        }
        r
    }

    /// Searches with the given width and returns at most `k` results in
    /// ascending order of distance.
    pub fn search_with_ef<N: Numerics, Q: Quantizer>(
        &self,
        num: &N,
        quant: &Q,
        query: &[u32],
        k: usize,
        ef: usize,
    ) -> (out: Vec<SearchResult>)
        requires
            self.wf(),
            functional(num),
            quant_functional(quant),
        ensures
            out@ == self@.found(
                model(num),
                quant_model(quant),
                query@,
                k as nat,
                ef as nat,
            ),
    {
        let entry: usize = match self.entry {
            None => {
                return Vec::new();
            },
            Some(e) => e,
        };
        if k == 0 {
            return Vec::new();
        }
        let ghost g = quant_model(quant);
        let v: Vec<u32> = prepare(num, self.metric, query);
        let codes: &Vec<Vec<u8>> = &self.codes;
        let deleted: &Vec<bool> = &self.deleted;
        let metric = self.metric;
        let dist = |s: usize| -> (d: u32)
            requires
                s < codes@.len(),
            ensures
                d == (quant_model(quant).dist)(metric, v@, codes@[s as int]@),
            { code_distance(quant, metric, v.as_slice(), codes[s].as_slice()) };
        let live = |s: usize| -> (b: bool)
            requires
                s < deleted@.len(),
            ensures
                b == !deleted@[s as int],
            { !deleted[s] };
        proof {
            assert(self@.links[entry as int].len() > 0);
        }
        let top: usize = self.links[entry].len() - 1;
        let mut ep: usize = entry;
        let mut level: usize = top;
        while level >= 1
            invariant
                self.wf(),
                g == quant_model(quant),
                metric == self.metric,
                *codes == self.codes,
                *deleted == self.deleted,
                level <= top,
                on_level(self@.links, ep, level as int),
                forall|s: usize| s < codes@.len() ==> #[trigger] call_requires(dist, (s,)),
                forall|s: usize, d: u32| #[trigger]
                    call_ensures(dist, (s,), d) ==> d == (g.dist)(metric, v@, codes@[s as int]@),
                forall|s: usize| s < deleted@.len() ==> #[trigger] call_requires(live, (s,)),
                forall|s: usize, b: bool| #[trigger]
                    call_ensures(live, (s,), b) ==> b == !deleted@[s as int],
                self@.descended(g, v@, ep, level as int) == self@.descended(
                    g,
                    v@,
                    entry,
                    top as int,
                ),
            decreases level,
        {
            let ghost q = self@.quest(g, v@, level as int, 1);
            let entries: Vec<usize> = vec![ep];
            proof {
                assert(entries@ =~= seq![ep]);
                assert(on_level(q.links, entries@[0], q.level));
            }
            let step = search_layer(
                &self.links,
                &entries,
                1,
                level,
                &dist,
                &live,
                None,
                Ghost(q),
            ).0;
            if step.len() > 0 {
                assert(on_level(q.links, step@[0].slot, q.level));
                ep = step[0].slot;
            }
            level = level - 1;
        }
        let width: usize = if ef >= k { ef } else { k };
        let ghost q = self@.quest(g, v@, 0, width as nat);
        let entries: Vec<usize> = vec![ep];
        proof {
            assert(entries@ =~= seq![ep]);
            assert(on_level(q.links, entries@[0], q.level));
        }
        let found = search_layer(
            &self.links,
            &entries,
            width,
            0,
            &dist,
            &live,
            None,
            Ghost(q),
        ).0;
        let mut out: Vec<SearchResult> = Vec::new();
        let mut i: usize = 0;
        while i < found.len() && i < k
            invariant
                i <= found@.len(),
                i <= k,
                q.links == self@.links,
                q.level == 0,
                self.wf(),
                forall|j: int|
                    0 <= j < found@.len() ==> on_level(q.links, (#[trigger] found@[j]).slot, 0),
                out@.len() == i,
                forall|j: int|
                    0 <= j < i ==> #[trigger] out@[j] == (SearchResult {
                        id: self.ids@[found@[j].slot as int],
                        distance: found@[j].dist,
                    }),
            decreases found@.len() - i,
        {
            let c: Cand = found[i];
            assert(on_level(q.links, found@[i as int].slot, 0));
            out.push(SearchResult::new(self.ids[c.slot], c.dist));
            i = i + 1;
        }
        assert(out@ =~= self@.found(model(num), g, query@, k as nat, ef as nat));
        out
    }

    /// Searches with the width that the source index had.
    pub fn search<N: Numerics, Q: Quantizer>(
        &self,
        num: &N,
        quant: &Q,
        query: &[u32],
        k: usize,
    ) -> (out: Vec<SearchResult>)
        requires
            self.wf(),
            functional(num),
            quant_functional(quant),
        ensures
            out@ == self@.found(
                model(num),
                quant_model(quant),
                query@,
                k as nat,
                self@.ef_search,
            ),
    {
        self.search_with_ef(num, quant, query, k, self.ef_search)
    }

    /// A frozen index takes no insertions.
    pub fn insert(&mut self, _id: VectorId, _vector: &[u32]) -> (r: Result<(), IndexError>)
        ensures
            r == Err::<(), IndexError>(
                IndexError::Unsupported(
                    "quantize indeks donmuştur; yazma segment buffer'ına gider",
                ),
            ),
            *final(self) == *old(self),
    {
        Err(
            IndexError::Unsupported("quantize indeks donmuştur; yazma segment buffer'ına gider"),
        )
    }

    /// A frozen index takes no deletions.
    pub fn delete(&mut self, _id: VectorId) -> (r: Result<(), IndexError>)
        ensures
            r == Err::<(), IndexError>(IndexError::Unsupported("quantize indeks donmuştur")),
            *final(self) == *old(self),
    {
        Err(IndexError::Unsupported("quantize indeks donmuştur"))
    }

    /// Number of live nodes.
    pub fn len(&self) -> (n: usize)
        requires
            self.wf(),
        ensures
            n + count_set(self@.deleted) == self@.ids.len(),
    {
        self.live
    }

    pub fn is_empty(&self) -> (b: bool)
        requires
            self.wf(),
        ensures
            b == (count_set(self@.deleted) == self@.ids.len()),
    {
        self.live == 0
    }
}

impl SegmentedIndex {
    /// A frozen copy of every segment, each with a quantizer of its own.
    pub fn quantize_segments<N: Numerics, Q: Quantizer>(&self, num: &N, quants: &Vec<Q>) -> (out: Vec<
        QuantizedHnsw,
    >)
        requires
            self.wf(model(num)),
            quants@.len() == self@.segments.len(),
            forall|i: int| 0 <= i < quants@.len() ==> quant_functional(#[trigger] &quants@[i]),
        ensures
            out@.len() == self@.segments.len(),
            forall|i: int|
                0 <= i < out@.len() ==> (#[trigger] out@[i]).wf() && out@[i]@ == Frozen::of(
                    self@.segments[i].index,
                    quant_model(&quants@[i]),
                ),
    {
        let mut out: Vec<QuantizedHnsw> = Vec::new();
        let mut i: usize = 0;
        while i < self.segments.len()
            invariant
                self.wf(model(num)),
                i <= self.segments@.len(),
                quants@.len() == self@.segments.len(),
                forall|j: int| 0 <= j < quants@.len() ==> quant_functional(#[trigger] &quants@[j]),
                out@.len() == i,
                forall|j: int|
                    0 <= j < i ==> (#[trigger] out@[j]).wf() && out@[j]@ == Frozen::of(
                        self@.segments[j].index,
                        quant_model(&quants@[j]),
                    ),
            decreases self.segments@.len() - i,
        {
            proof {
                assert(self@.segments[i as int] == self.segments@[i as int]@);
                assert(quant_functional(&quants@[i as int]));
            }
            out.push(QuantizedHnsw::from_hnsw(&self.segments[i].index, &quants[i]));
            i = i + 1;
        }
        out
    }
}

/// Descent stays on the level that it has come to.
pub proof fn lemma_frozen_descent(f: Frozen, g: QuantModel, query: Seq<u32>, entry: usize, level: int)
    requires
        f.valid(),
        0 <= level,
        on_level(f.links, entry, level),
    ensures
        on_level(f.links, f.descended(g, query, entry, level), 0),
    decreases level,
{
    if level >= 1 {
        let q = f.quest(g, query, level, 1);
        let entries = seq![entry];
        assert(on_level(q.links, entries[0], q.level));
        layer_search_is_sound(q, entries);
        let step = explored(q, entries).results;
        let next = if step.len() > 0 {
            step[0].slot
        } else {
            entry
        };
        assert(on_level(f.links, next, level));
        lemma_frozen_descent(f, g, query, next, level - 1);
    }
}

/// A frozen copy carries over what is live: a search of it returns at most `k`
/// results in ascending order of distance, each id once. Each id lives in the
/// index that was copied, and its distance is that of its code.
pub proof fn frozen_search_finds_only_live_ids(
    h: Hnsw,
    num: Model,
    g: QuantModel,
    query: Seq<u32>,
    k: nat,
    ef: nat,
)
    requires
        h.valid(),
    ensures
        ({
            let out = Frozen::of(h, g).found(num, g, query, k, ef);
            let v = prepared(num, h.metric, query);
            &&& out.len() <= k
            &&& forall|i: int, j: int|
                0 <= i <= j < out.len() ==> (#[trigger] out[i]).distance <= (
                #[trigger] out[j]).distance
            &&& forall|i: int, j: int|
                0 <= i < j < out.len() ==> (#[trigger] out[i]).id != (#[trigger] out[j]).id
            &&& forall|i: int|
                0 <= i < out.len() ==> h.contains((#[trigger] out[i]).id) && out[i].distance == (
                g.dist)(h.metric, v, (g.encode)(h.vectors[h.slot(out[i].id)]))
        }),
{
    let f = Frozen::of(h, g);
    if h.entry is Some && k > 0 {
        let v = prepared(num, h.metric, query);
        let e = h.entry->0;
        let top = f.links[e as int].len() - 1;
        let near = f.descended(g, v, e, top);
        let width = if ef >= k {
            ef
        } else {
            k
        };
        lemma_frozen_descent(f, g, v, e, top);
        let q = f.quest(g, v, 0, width);
        let entries = seq![near];
        assert(on_level(q.links, entries[0], q.level));
        layer_search_is_sound(q, entries);
        let found = explored(q, entries).results;
        let out = f.found(num, g, query, k, ef);
        assert forall|i: int| 0 <= i < out.len() implies h.contains((#[trigger] out[i]).id)
            && h.slot(out[i].id) == found[i].slot && out[i].distance == (g.dist)(
            h.metric,
            v,
            (g.encode)(h.vectors[h.slot(out[i].id)]),
        ) by {
            let c = found[i];
            assert((q.eligible)(c.slot));
            lemma_slot(h, c.slot as int);
        }
        assert forall|i: int, j: int| 0 <= i < j < out.len() implies (#[trigger] out[i]).id != (
        #[trigger] out[j]).id by {
            assert(found[i].slot != found[j].slot);
        }
        assert forall|i: int, j: int| 0 <= i <= j < out.len() implies (
        #[trigger] out[i]).distance <= (#[trigger] out[j]).distance by {
            assert(found[i].key() <= found[j].key());
        }
    }
}

} // verus!
