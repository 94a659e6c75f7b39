//! The work behind the segmented index: building segments from queued buffers,
//! and merging segments.
//!
//! Each takes three steps. A job is picked: what to build from, shared and not
//! copied, with the tombstones at that moment. The graph is built from the job
//! alone, while the index serves readers and writers. The result is put in
//! place in one step, together with what was deleted in the meantime. Picking
//! and putting in place are short; only they need the index.

use std::sync::Arc;
use vstd::prelude::*;
use crate::bruteforce::{Brute, BruteForceIndex};
use crate::distance::Metric;
use crate::graph::count_set;
use crate::hnsw::{entries_view, Hnsw, HnswIndex, HnswParams};
use crate::hnsw_laws::insertion_adds_exactly_one_id;
use crate::numerics::{functional, model, Model, Numerics};
use crate::posting::{ascending, copied, lemma_with_id, posting_contains, posting_insert, with_id};
use crate::segmented::{
    parts_slots, queue_slots, Part, Queued, Sealing, Segment, SegmentedIndex, Store,
};
use crate::segmented_laws::{
    finished_merge_keeps_every_record, finished_seal_keeps_every_record, picked_pair_is_awaited,
};
use crate::segmented_search::lemma_countable;
use crate::types::VectorId;

verus! {

/// The graph with the first `n` entries inserted; an id that is there already
/// is left out.
pub open spec fn grown(h: Hnsw, g: Model, entries: Seq<(VectorId, Seq<u32>)>, n: int) -> Hnsw
    decreases n,
{
    if n <= 0 {
        h
    } else {
        let before = grown(h, g, entries, n - 1);
        if before.contains(entries[n - 1].0) {
            before
        } else {
            before.inserted(g, entries[n - 1].0, entries[n - 1].1)
        }
    }
}

/// The graph of a queued buffer. The size of the buffer enters the seed.
pub open spec fn sealed_graph(g: Model, params: HnswParams, data: Brute) -> Hnsw {
    let p = HnswParams { seed: params.seed.wrapping_add(data.ids.len() as u64), ..params };
    grown(
        Hnsw::empty(data.dim, data.metric, p),
        g,
        data.entries(),
        data.ids.len() as int,
    )
}

/// The entries whose id is not dead.
pub open spec fn surviving(entries: Seq<(VectorId, Seq<u32>)>, dead: Seq<VectorId>) -> Seq<
    (VectorId, Seq<u32>),
>
    decreases entries.len(),
{
    if entries.len() == 0 {
        entries
    } else if dead.contains(entries.last().0) {
        surviving(entries.drop_last(), dead)
    } else {
        surviving(entries.drop_last(), dead).push(entries.last())
    }
}

/// How many nodes of a graph are not deleted.
pub open spec fn live_nodes(h: Hnsw) -> int {
    h.ids.len() - count_set(h.deleted)
}

/// What a merge starts from.
pub ghost struct Pair {
    /// The dimension and the metric of the index.
    pub dim: nat,
    pub metric: Metric,
    pub a_tag: u64,
    pub b_tag: u64,
    pub a: Hnsw,
    pub b: Hnsw,
    pub a_dead: Seq<VectorId>,
    pub b_dead: Seq<VectorId>,
}

impl Pair {
    pub open spec fn entries(self) -> Seq<(VectorId, Seq<u32>)> {
        surviving(self.a.live(self.a.ids.len() as int), self.a_dead) + surviving(
            self.b.live(self.b.ids.len() as int),
            self.b_dead,
        )
    }

    /// The parts are in order.
    pub open spec fn fits(self) -> bool {
        &&& self.a.valid()
        &&& self.b.valid()
        &&& self.dim <= usize::MAX
        &&& self.a.ids.len() + self.b.ids.len() <= usize::MAX
        &&& ascending(self.a_dead)
        &&& ascending(self.b_dead)
        &&& self.a_tag != self.b_tag
    }

    /// Every vector that is taken over has the dimension of the index.
    pub open spec fn uniform(self) -> bool {
        forall|i: int| 0 <= i < self.entries().len() ==> (#[trigger] self.entries()[i]).1.len() == self.dim
    }
}

/// The graph of two segments without what was dead. Their size enters the seed.
pub open spec fn merged_graph(g: Model, params: HnswParams, pair: Pair) -> Hnsw {
    let total = (live_nodes(pair.a) + live_nodes(pair.b)) as u64;
    let p = HnswParams { seed: params.seed.wrapping_add(total).wrapping_add(1), ..params };
    grown(
        Hnsw::empty(pair.dim, pair.metric, p),
        g,
        pair.entries(),
        pair.entries().len() as int,
    )
}

/// A buffer to build a segment from.
pub struct SealJob {
    pub tag: u64,
    pub data: Arc<BruteForceIndex>,
}

/// Two segments to merge.
pub struct MergeJob {
    pub dim: usize,
    pub metric: Metric,
    pub a_tag: u64,
    pub b_tag: u64,
    pub a: Arc<HnswIndex>,
    pub b: Arc<HnswIndex>,
    pub a_dead: Vec<VectorId>,
    pub b_dead: Vec<VectorId>,
}

impl View for MergeJob {
    type V = Pair;

    open spec fn view(&self) -> Pair {
        Pair {
            dim: self.dim as nat,
            metric: self.metric,
            a_tag: self.a_tag,
            b_tag: self.b_tag,
            a: (*self.a)@,
            b: (*self.b)@,
            a_dead: self.a_dead@,
            b_dead: self.b_dead@,
        }
    }
}

impl MergeJob {
    pub open spec fn wf(&self) -> bool {
        &&& self@.fits()
        &&& (*self.a).wf()
        &&& (*self.b).wf()
    }
}

/// The id is among the first `n` entries.
pub open spec fn entered(entries: Seq<(VectorId, Seq<u32>)>, n: int, id: VectorId) -> bool {
    exists|i: int| 0 <= i < n && (#[trigger] entries[i]).0 == id
}

/// A graph grown from nothing holds the ids of its entries.
pub proof fn lemma_grown(
    h: Hnsw,
    g: Model,
    entries: Seq<(VectorId, Seq<u32>)>,
    n: int,
    id: VectorId,
)
    requires
        h.valid(),
        0 <= n <= entries.len(),
        forall|i: int|
            0 <= i <= n ==> (#[trigger] grown(h, g, entries, i)).valid(),
    ensures
        grown(h, g, entries, n).contains(id) <==> h.contains(id) || entered(entries, n, id),
        grown(h, g, entries, n).ids.len() <= h.ids.len() + n,
        grown(h, g, entries, n).dim == h.dim,
        grown(h, g, entries, n).metric == h.metric,
        count_set(grown(h, g, entries, n).deleted) == count_set(h.deleted),
    decreases n,
{
    if n > 0 {
        lemma_grown(h, g, entries, n - 1, id);
        let before = grown(h, g, entries, n - 1);
        let e = entries[n - 1];
        lemma_grown(h, g, entries, n - 1, e.0);
        assert(before.valid());
        if !before.contains(e.0) {
            insertion_adds_exactly_one_id(before, g, e.0, e.1, id);
        }
        if entered(entries, n, id) && !entered(entries, n - 1, id) {
            let i = choose|i: int| 0 <= i < n && (#[trigger] entries[i]).0 == id;
            assert(i == n - 1);
        }
        if entered(entries, n - 1, id) {
            let i = choose|i: int| 0 <= i < n - 1 && (#[trigger] entries[i]).0 == id;
            assert(0 <= i < n && entries[i].0 == id);
        }
        if id == e.0 {
            assert(entries[n - 1].0 == id);
        }
    }
}

/// Inserts the entries into the graph; an id that is there already is left out.
fn grow<N: Numerics>(num: &N, h: &mut HnswIndex, entries: &Vec<(VectorId, &Vec<u32>)>)
    requires
        functional(num),
        old(h).wf(),
        forall|i: int| 0 <= i < entries@.len() ==> (#[trigger] entries@[i]).1@.len() == old(h)@.dim,
    ensures
        final(h).wf(),
        final(h)@ == grown(old(h)@, model(num), entries_view(entries@), entries@.len() as int),
        forall|i: int|
            0 <= i <= entries@.len() ==> (#[trigger] grown(
                old(h)@,
                model(num),
                entries_view(entries@),
                i,
            )).valid(),
{
    let ghost g = model(num);
    let ghost start = h@;
    let ghost es = entries_view(entries@);
    let mut i: usize = 0;
    while i < entries.len()
        invariant
            functional(num),
            g == model(num),
            h.wf(),
            es == entries_view(entries@),
            i <= entries@.len(),
            h@ == grown(start, g, es, i as int),
            h@.dim == start.dim,
            forall|j: int| 0 <= j < entries@.len() ==> (#[trigger] entries@[j]).1@.len() == start.dim,
            forall|j: int| 0 <= j <= i ==> (#[trigger] grown(start, g, es, j)).valid(),
        decreases entries@.len() - i,
    {
        let ghost before = h@;
        assert(es[i as int] == (entries@[i as int].0, entries@[i as int].1@));
        let _r = h.insert(num, entries[i].0, entries[i].1.as_slice());
        i = i + 1;
        assert(h@ == grown(start, g, es, i as int));
    }
}

/// Builds the graph of a queued buffer.
pub fn build_segment<N: Numerics>(num: &N, params: &HnswParams, job: &SealJob) -> (h: HnswIndex)
    requires
        functional(num),
        (*job.data).wf(),
    ensures
        h.wf(),
        h@ == sealed_graph(model(num), *params, (*job.data)@),
        forall|id: VectorId| #[trigger] h@.contains(id) <==> (*job.data)@.contains(id),
        h@.ids.len() <= (*job.data)@.ids.len(),
        h@.dim == (*job.data)@.dim,
        h@.metric == (*job.data)@.metric,
        count_set(h@.deleted) == 0,
{
    let ghost g = model(num);
    let ghost data = (*job.data)@;
    let p = HnswParams {
        m: params.m,
        m_max0: params.m_max0,
        ef_construction: params.ef_construction,
        ef_search: params.ef_search,
        seed: params.seed.wrapping_add(job.data.len() as u64),
        tombstone_threshold: params.tombstone_threshold,
    };
    let mut h: HnswIndex = HnswIndex::new(job.data.dim(), job.data.metric(), p);
    let ghost start = h@;
    let entries: Vec<(VectorId, &Vec<u32>)> = job.data.entries();
    let ghost es = entries_view(entries@);
    proof {
        assert(entries@.len() == data.ids.len()) by {
            assert(es.len() == data.entries().len());
        }
        assert forall|i: int| 0 <= i < entries@.len() implies (#[trigger] entries@[i]).1@.len()
            == data.dim by {
            assert(es[i] == data.entries()[i]);
            assert(data.vectors[i].len() == data.dim);
        }
    }
    grow(num, &mut h, &entries);
    proof {
        let n = entries@.len() as int;
        crate::graph::lemma_count_none(start.deleted);
        assert forall|id: VectorId| #[trigger] h@.contains(id) <==> data.contains(id) by {
            lemma_grown(start, g, es, n, id);
            if data.contains(id) {
                let i = choose|i: int| 0 <= i < data.ids.len() && data.ids[i] == id;
                assert(es[i].0 == id);
            }
            if entered(es, n, id) {
                let i = choose|i: int| 0 <= i < n && (#[trigger] es[i]).0 == id;
                assert(data.ids[i] == id);
            }
        }
        lemma_grown(start, g, es, n, VectorId(0));
    }
    h
}

/// The entries of a graph that are not dead.
fn survivors<'a>(h: &'a HnswIndex, dead: &Vec<VectorId>) -> (out: Vec<(VectorId, &'a Vec<u32>)>)
    requires
        h.wf(),
        ascending(dead@),
    ensures
        entries_view(out@) == surviving(h@.live(h@.ids.len() as int), dead@),
{
    let all: Vec<(VectorId, &'a Vec<u32>)> = h.live_entries();
    let ghost es = entries_view(all@);
    let mut out: Vec<(VectorId, &'a Vec<u32>)> = Vec::new();
    let mut i: usize = 0;
    assert(surviving(es.take(0), dead@) =~= Seq::empty());
    while i < all.len()
        invariant
            ascending(dead@),
            es == entries_view(all@),
            i <= all@.len(),
            entries_view(out@) =~= surviving(es.take(i as int), dead@),
        decreases all@.len() - i,
    {
        proof {
            assert(es.take(i + 1).drop_last() =~= es.take(i as int));
            assert(es.take(i + 1).last() == es[i as int]);
            assert(es[i as int] == (all@[i as int].0, all@[i as int].1@));
        }
        if !posting_contains(dead, all[i].0) {
            let ghost before = out@;
            out.push((all[i].0, all[i].1));
            assert(entries_view(out@) =~= entries_view(before).push(es[i as int]));
        }
        i = i + 1;
    }
    assert(es.take(i as int) =~= es);
    out
}

/// The entries of a graph are its live nodes.
pub proof fn lemma_live(h: Hnsw, n: int)
    requires
        h.valid(),
        0 <= n <= h.ids.len(),
    ensures
        forall|i: int|
            0 <= i < h.live(n).len() ==> (#[trigger] h.live(n)[i]).1.len() == h.dim,
        forall|id: VectorId| #[trigger]
            entered(h.live(n), h.live(n).len() as int, id) <==> crate::hnsw::lives_below(
                h.ids,
                h.deleted,
                n,
                id,
            ),
        h.live(n).len() <= n,
    decreases n,
{
    if n > 0 {
        lemma_live(h, n - 1);
        let t = h.live(n - 1);
        let s = h.live(n);
        let x = (h.ids[n - 1], h.vectors[n - 1]);
        assert(h.vectors[n - 1].len() == h.dim);
        assert forall|id: VectorId| #[trigger] entered(s, s.len() as int, id)
            <==> crate::hnsw::lives_below(h.ids, h.deleted, n, id) by {
            assert(entered(t, t.len() as int, id) <==> crate::hnsw::lives_below(
                h.ids,
                h.deleted,
                n - 1,
                id,
            ));
            if entered(t, t.len() as int, id) {
                let i = choose|i: int| 0 <= i < t.len() && (#[trigger] t[i]).0 == id;
                assert(s[i].0 == id);
            }
            if !h.deleted[n - 1] && h.ids[n - 1] == id {
                assert(s[t.len() as int].0 == id);
            }
            if entered(s, s.len() as int, id) && !entered(t, t.len() as int, id) {
                let i = choose|i: int| 0 <= i < s.len() && (#[trigger] s[i]).0 == id;
                if i < t.len() {
                    assert(t[i].0 == id);
                }
            }
            if crate::hnsw::lives_below(h.ids, h.deleted, n, id) {
                let i = choose|i: int|
                    0 <= i < n && (#[trigger] h.ids[i]) == id && !h.deleted[i];
                if i < n - 1 {
                    assert(crate::hnsw::lives_below(h.ids, h.deleted, n - 1, id));
                }
            }
            if crate::hnsw::lives_below(h.ids, h.deleted, n - 1, id) {
                let i = choose|i: int|
                    0 <= i < n - 1 && (#[trigger] h.ids[i]) == id && !h.deleted[i];
                assert(0 <= i < n && h.ids[i] == id && !h.deleted[i]);
            }
        }
    }
}

/// What survives is what is there and not dead.
pub proof fn lemma_surviving(es: Seq<(VectorId, Seq<u32>)>, dead: Seq<VectorId>, dim: nat)
    requires
        forall|i: int| 0 <= i < es.len() ==> (#[trigger] es[i]).1.len() == dim,
    ensures
        forall|id: VectorId| #[trigger]
            entered(surviving(es, dead), surviving(es, dead).len() as int, id) <==> entered(
                es,
                es.len() as int,
                id,
            ) && !dead.contains(id),
        forall|i: int|
            0 <= i < surviving(es, dead).len() ==> (#[trigger] surviving(es, dead)[i]).1.len()
                == dim,
        surviving(es, dead).len() <= es.len(),
    decreases es.len(),
{
    let s = surviving(es, dead);
    if es.len() > 0 {
        let t = es.drop_last();
        let u = surviving(t, dead);
        assert forall|i: int| 0 <= i < t.len() implies (#[trigger] t[i]).1.len() == dim by {
            assert(t[i] == es[i]);
        }
        lemma_surviving(t, dead, dim);
        let e = es.last();
        assert(e == es[es.len() - 1]);
        assert forall|id: VectorId| #[trigger] entered(s, s.len() as int, id) <==> entered(
            es,
            es.len() as int,
            id,
        ) && !dead.contains(id) by {
            assert(entered(u, u.len() as int, id) <==> entered(t, t.len() as int, id)
                && !dead.contains(id));
            if entered(t, t.len() as int, id) {
                let i = choose|i: int| 0 <= i < t.len() && (#[trigger] t[i]).0 == id;
                assert(es[i].0 == id);
            }
            if entered(es, es.len() as int, id) {
                let i = choose|i: int| 0 <= i < es.len() && (#[trigger] es[i]).0 == id;
                if i < t.len() {
                    assert(t[i].0 == id);
                }
            }
            if entered(u, u.len() as int, id) {
                let i = choose|i: int| 0 <= i < u.len() && (#[trigger] u[i]).0 == id;
                assert(s[i].0 == id);
            }
            if entered(s, s.len() as int, id) {
                let i = choose|i: int| 0 <= i < s.len() && (#[trigger] s[i]).0 == id;
                if i < u.len() {
                    assert(u[i].0 == id);
                }
            }
            if e.0 == id && !dead.contains(id) {
                assert(s[u.len() as int].0 == id);
            }
        }
    }
}

/// The entries of a merge are what lives in either part.
pub proof fn lemma_pair_entries(p: Pair)
    requires
        p.fits(),
    ensures
        forall|id: VectorId| #[trigger]
            entered(p.entries(), p.entries().len() as int, id) <==> (p.a.contains(id)
                && !p.a_dead.contains(id)) || (p.b.contains(id) && !p.b_dead.contains(id)),
        p.a.dim == p.dim && p.b.dim == p.dim ==> p.uniform(),
        p.entries().len() <= p.a.ids.len() + p.b.ids.len(),
{
    let la = p.a.live(p.a.ids.len() as int);
    let lb = p.b.live(p.b.ids.len() as int);
    lemma_live(p.a, p.a.ids.len() as int);
    lemma_live(p.b, p.b.ids.len() as int);
    lemma_surviving(la, p.a_dead, p.a.dim);
    lemma_surviving(lb, p.b_dead, p.b.dim);
    let sa = surviving(la, p.a_dead);
    let sb = surviving(lb, p.b_dead);
    let s = sa + sb;
    assert forall|id: VectorId| #[trigger] entered(s, s.len() as int, id) <==> (p.a.contains(id)
        && !p.a_dead.contains(id)) || (p.b.contains(id) && !p.b_dead.contains(id)) by {
        assert(entered(sa, sa.len() as int, id) <==> entered(la, la.len() as int, id)
            && !p.a_dead.contains(id));
        assert(entered(sb, sb.len() as int, id) <==> entered(lb, lb.len() as int, id)
            && !p.b_dead.contains(id));
        assert(entered(la, la.len() as int, id) <==> p.a.contains(id));
        assert(entered(lb, lb.len() as int, id) <==> p.b.contains(id));
        if entered(sa, sa.len() as int, id) {
            let i = choose|i: int| 0 <= i < sa.len() && (#[trigger] sa[i]).0 == id;
            assert(s[i].0 == id);
        }
        if entered(sb, sb.len() as int, id) {
            let i = choose|i: int| 0 <= i < sb.len() && (#[trigger] sb[i]).0 == id;
            assert(s[sa.len() + i].0 == id);
        }
        if entered(s, s.len() as int, id) {
            let i = choose|i: int| 0 <= i < s.len() && (#[trigger] s[i]).0 == id;
            if i < sa.len() {
                assert(sa[i].0 == id);
            } else {
                assert(sb[i - sa.len()].0 == id);
            }
        }
    }
}

impl MergeJob {
    /// What the merged segment takes over.
    fn taken_over(&self) -> (out: Vec<(VectorId, &Vec<u32>)>)
        requires
            self.wf(),
        ensures
            entries_view(out@) == self@.entries(),
    {
        let mut entries: Vec<(VectorId, &Vec<u32>)> = survivors(&self.a, &self.a_dead);
        let mut more: Vec<(VectorId, &Vec<u32>)> = survivors(&self.b, &self.b_dead);
        let ghost ea = entries@;
        let ghost eb = more@;
        entries.append(&mut more);
        assert(entries_view(entries@) =~= entries_view(ea) + entries_view(eb));
        entries
    }

    /// Does every vector that is taken over have the dimension of the index?
    pub fn is_uniform(&self) -> (b: bool)
        requires
            self.wf(),
        ensures
            b == self@.uniform(),
    {
        let entries: Vec<(VectorId, &Vec<u32>)> = self.taken_over();
        let ghost es = self@.entries();
        let mut i: usize = 0;
        while i < entries.len()
            invariant
                es == self@.entries(),
                es == entries_view(entries@),
                i <= entries@.len(),
                forall|j: int| 0 <= j < i ==> (#[trigger] es[j]).1.len() == self@.dim,
            decreases entries@.len() - i,
        {
            assert(es[i as int] == (entries@[i as int].0, entries@[i as int].1@));
            if entries[i].1.len() != self.dim {
                return false;
            }
            i = i + 1;
        }
        true
    }
}

/// Builds the graph of two segments.
pub fn build_merged<N: Numerics>(num: &N, params: &HnswParams, job: &MergeJob) -> (h: HnswIndex)
    requires
        functional(num),
        job.wf(),
        job@.uniform(),
    ensures
        h.wf(),
        h@ == merged_graph(model(num), *params, job@),
        forall|id: VectorId| #[trigger]
            h@.contains(id) <==> (job@.a.contains(id) && !job@.a_dead.contains(id)) || (
            job@.b.contains(id) && !job@.b_dead.contains(id)),
        h@.ids.len() <= job@.a.ids.len() + job@.b.ids.len(),
        h@.dim == job@.dim,
        h@.metric == job@.metric,
        count_set(h@.deleted) == 0,
{
    let ghost g = model(num);
    let ghost pair = job@;
    let total: usize = job.a.len() + job.b.len();
    let p = HnswParams {
        m: params.m,
        m_max0: params.m_max0,
        ef_construction: params.ef_construction,
        ef_search: params.ef_search,
        seed: params.seed.wrapping_add(total as u64).wrapping_add(1),
        tombstone_threshold: params.tombstone_threshold,
    };
    let mut h: HnswIndex = HnswIndex::new(job.dim, job.metric, p);
    let ghost start = h@;
    let entries: Vec<(VectorId, &Vec<u32>)> = job.taken_over();
    proof {
        lemma_pair_entries(pair);
        assert forall|i: int| 0 <= i < entries@.len() implies (#[trigger] entries@[i]).1@.len()
            == start.dim by {
            assert(entries_view(entries@)[i] == pair.entries()[i]);
        }
    }
    grow(num, &mut h, &entries);
    proof {
        let es = pair.entries();
        let n = es.len() as int;
        crate::graph::lemma_count_none(start.deleted);
        assert forall|id: VectorId| #[trigger] h@.contains(id) <==> (pair.a.contains(id)
            && !pair.a_dead.contains(id)) || (pair.b.contains(id) && !pair.b_dead.contains(
            id,
        )) by {
            lemma_grown(start, g, es, n, id);
        }
        lemma_grown(start, g, es, n, VectorId(0));
    }
    h
}

/// Where the queued buffer with the tag stands.
pub open spec fn queued_at(s: Seq<Queued>, tag: u64) -> Option<int> {
    if exists|i: int| 0 <= i < s.len() && (#[trigger] s[i]).tag == tag {
        Some(choose|i: int| 0 <= i < s.len() && (#[trigger] s[i]).tag == tag)
    } else {
        None
    }
}

/// Where the segment with the tag stands.
pub open spec fn part_at(s: Seq<Part>, tag: u64) -> Option<int> {
    if exists|i: int| 0 <= i < s.len() && (#[trigger] s[i]).tag == tag {
        Some(choose|i: int| 0 <= i < s.len() && (#[trigger] s[i]).tag == tag)
    } else {
        None
    }
}

/// What is dead now and was not dead in the snapshot, added to a list.
pub open spec fn carried(onto: Seq<VectorId>, now: Seq<VectorId>, snap: Seq<VectorId>) -> Seq<
    VectorId,
>
    decreases now.len(),
{
    if now.len() == 0 {
        onto
    } else {
        let rest = carried(onto, now.drop_last(), snap);
        if snap.contains(now.last()) {
            rest
        } else {
            with_id(rest, now.last())
        }
    }
}

pub proof fn lemma_carried(onto: Seq<VectorId>, now: Seq<VectorId>, snap: Seq<VectorId>)
    requires
        ascending(onto),
    ensures
        ascending(carried(onto, now, snap)),
        forall|id: VectorId| #[trigger]
            carried(onto, now, snap).contains(id) <==> onto.contains(id) || (now.contains(id)
                && !snap.contains(id)),
    decreases now.len(),
{
    if now.len() > 0 {
        let t = now.drop_last();
        let rest = carried(onto, t, snap);
        let last = now.last();
        lemma_carried(onto, t, snap);
        lemma_with_id(rest, last);
        assert(now[now.len() - 1] == last);
        assert forall|id: VectorId| #[trigger] carried(onto, now, snap).contains(id)
            <==> onto.contains(id) || (now.contains(id) && !snap.contains(id)) by {
            assert(rest.contains(id) <==> onto.contains(id) || (t.contains(id) && !snap.contains(
                id,
            )));
            if t.contains(id) {
                let i = choose|i: int| 0 <= i < t.len() && t[i] == id;
                assert(now[i] == id);
            }
            if now.contains(id) && id != last {
                let i = choose|i: int| 0 <= i < now.len() && now[i] == id;
                assert(t[i] == id);
            }
            if !snap.contains(last) {
                assert(with_id(rest, last).contains(id) <==> rest.contains(id) || id == last);
            }
        }
    }
}

fn carry(onto: &mut Vec<VectorId>, now: &Vec<VectorId>, snap: &Vec<VectorId>)
    requires
        ascending(old(onto)@),
        ascending(snap@),
    ensures
        final(onto)@ == carried(old(onto)@, now@, snap@),
{
    let ghost start = onto@;
    let mut i: usize = 0;
    while i < now.len()
        invariant
            ascending(start),
            ascending(snap@),
            i <= now@.len(),
            onto@ == carried(start, now@.take(i as int), snap@),
        decreases now@.len() - i,
    {
        proof {
            lemma_carried(start, now@.take(i as int), snap@);
            assert(now@.take(i + 1).drop_last() =~= now@.take(i as int));
            assert(now@.take(i + 1).last() == now@[i as int]);
        }
        if !posting_contains(snap, now[i]) {
            posting_insert(onto, now[i]);
        }
        i = i + 1;
    }
    assert(now@.take(i as int) =~= now@);
}

/// The first of the lightest segments among the first `n`, other than `skip`.
pub open spec fn lightest(s: Seq<Part>, skip: Option<int>, n: int) -> Option<int>
    decreases n,
{
    if n <= 0 {
        None
    } else {
        let best = lightest(s, skip, n - 1);
        if skip == Some(n - 1) {
            best
        } else {
            match best {
                None => Some(n - 1),
                Some(b) => if s[n - 1].weight() < s[b].weight() {
                    Some(n - 1)
                } else {
                    Some(b)
                },
            }
        }
    }
}

pub proof fn lemma_lightest(s: Seq<Part>, skip: Option<int>, n: int)
    requires
        0 <= n <= s.len(),
    ensures
        match lightest(s, skip, n) {
            Some(b) => 0 <= b < n && skip != Some(b) && forall|i: int|
                0 <= i < n && skip != Some(i) ==> s[b].weight() <= (#[trigger] s[i]).weight(),
            None => forall|i: int| 0 <= i < n ==> skip == Some(i),
        },
    decreases n,
{
    if n > 0 {
        lemma_lightest(s, skip, n - 1);
    }
}

/// With two segments or more there are two different lightest ones.
pub proof fn lemma_lightest_two(s: Seq<Part>, n: int)
    requires
        2 <= n <= s.len(),
    ensures
        lightest(s, None, n) is Some,
        0 <= lightest(s, None, n)->0 < n,
        lightest(s, Some(lightest(s, None, n)->0), n) is Some,
        0 <= lightest(s, Some(lightest(s, None, n)->0), n)->0 < n,
        lightest(s, Some(lightest(s, None, n)->0), n)->0 != lightest(s, None, n)->0,
{
    lemma_lightest(s, None, n);
    if lightest(s, None, n) is None {
        let skip: Option<int> = None;
        assert(skip == Some(0int));
    }
    let skip = Some(lightest(s, None, n)->0);
    lemma_lightest(s, skip, n);
    if lightest(s, skip, n) is None {
        assert(skip == Some(0int));
        assert(skip == Some(1int));
    }
}

impl Store {
    /// The pair of segments to merge: the two that hold the fewest records,
    /// where there are too many segments.
    pub open spec fn pair(self) -> Option<Pair> {
        if self.segments.len() <= self.max_segments {
            None
        } else {
            let n = self.segments.len() as int;
            let a = lightest(self.segments, None, n)->0;
            let b = lightest(self.segments, Some(a), n)->0;
            Some(
                Pair {
                    dim: self.dim,
                    metric: self.metric,
                    a_tag: self.segments[a].tag,
                    b_tag: self.segments[b].tag,
                    a: self.segments[a].index,
                    b: self.segments[b].index,
                    a_dead: self.segments[a].dead,
                    b_dead: self.segments[b].dead,
                },
            )
        }
    }

    /// The graph is in place of the queued buffer with the tag; the buffer's
    /// tombstones come along.
    pub open spec fn seal_finished(self, tag: u64, built: Hnsw) -> Store {
        match queued_at(self.sealing, tag) {
            None => self,
            Some(i) => Store {
                sealing: self.sealing.remove(i),
                segments: self.segments.push(
                    Part {
                        index: built,
                        dead: self.sealing[i].dead,
                        stored: None,
                        tag: self.next_tag,
                    },
                ),
                next_tag: (self.next_tag + 1) as u64,
                ..self
            },
        }
    }

    /// The merged graph is in place of its sources, with what died since the
    /// snapshot; nothing changes where a source is gone.
    pub open spec fn merge_finished(self, pair: Pair, merged: Hnsw) -> Store {
        match (part_at(self.segments, pair.a_tag), part_at(self.segments, pair.b_tag)) {
            (Some(a), Some(b)) => {
                let rest = if a < b {
                    self.segments.remove(b).remove(a)
                } else {
                    self.segments.remove(a).remove(b)
                };
                Store {
                    segments: rest.push(
                        Part {
                            index: merged,
                            dead: carried(
                                carried(Seq::empty(), self.segments[a].dead, pair.a_dead),
                                self.segments[b].dead,
                                pair.b_dead,
                            ),
                            stored: None,
                            tag: self.next_tag,
                        },
                    ),
                    next_tag: (self.next_tag + 1) as u64,
                    ..self
                }
            },
            _ => self,
        }
    }

    /// The pair was taken from this index: where its segments are still there,
    /// their graphs are what they were.
    pub open spec fn gave(self, pair: Pair) -> bool {
        &&& pair.dim == self.dim
        &&& pair.metric == self.metric
        &&& forall|i: int|
            0 <= i < self.segments.len() ==> {
                &&& (#[trigger] self.segments[i]).tag == pair.a_tag ==> self.segments[i].index
                    == pair.a
                &&& self.segments[i].tag == pair.b_tag ==> self.segments[i].index == pair.b
            }
    }

    /// The next merge can be carried out: the records can be counted, and the
    /// vectors that it takes over have the dimension of the index.
    pub open spec fn can_merge(self) -> bool {
        self.countable() && (self.pair() matches Some(pair) ==> pair.uniform())
    }
}

pub proof fn lemma_queued_at(st: Store, i: int)
    requires
        st.formed(),
        0 <= i < st.sealing.len(),
    ensures
        queued_at(st.sealing, st.sealing[i].tag) == Some(i),
{
    let tag = st.sealing[i].tag;
    let j = choose|j: int| 0 <= j < st.sealing.len() && (#[trigger] st.sealing[j]).tag == tag;
    if i < j {
        assert(st.sealing[i].tag < st.sealing[j].tag);
    }
    if j < i {
        assert(st.sealing[j].tag < st.sealing[i].tag);
    }
}

pub proof fn lemma_part_at(st: Store, i: int)
    requires
        st.formed(),
        0 <= i < st.segments.len(),
    ensures
        part_at(st.segments, st.segments[i].tag) == Some(i),
{
    let tag = st.segments[i].tag;
    let j = choose|j: int| 0 <= j < st.segments.len() && (#[trigger] st.segments[j]).tag == tag;
    if i < j {
        assert(st.segments[i].tag < st.segments[j].tag);
    }
    if j < i {
        assert(st.segments[j].tag < st.segments[i].tag);
    }
}

proof fn lemma_queue_slots_remove(s: Seq<Queued>, i: int)
    requires
        0 <= i < s.len(),
    ensures
        queue_slots(s.remove(i)) == queue_slots(s) - s[i].data.ids.len(),
    decreases s.len(),
{
    if i == s.len() - 1 {
        assert(s.remove(i) =~= s.drop_last());
    } else {
        lemma_queue_slots_remove(s.drop_last(), i);
        assert(s.remove(i).drop_last() =~= s.drop_last().remove(i));
        assert(s.remove(i).last() == s.last());
        assert(s.drop_last()[i] == s[i]);
    }
}

proof fn lemma_parts_slots_remove(s: Seq<Part>, i: int)
    requires
        0 <= i < s.len(),
    ensures
        parts_slots(s.remove(i)) == parts_slots(s) - s[i].index.ids.len(),
    decreases s.len(),
{
    if i == s.len() - 1 {
        assert(s.remove(i) =~= s.drop_last());
    } else {
        lemma_parts_slots_remove(s.drop_last(), i);
        assert(s.remove(i).drop_last() =~= s.drop_last().remove(i));
        assert(s.remove(i).last() == s.last());
        assert(s.drop_last()[i] == s[i]);
    }
}

proof fn lemma_queue_slots_nat(s: Seq<Queued>)
    ensures
        queue_slots(s) >= 0,
    decreases s.len(),
{
    if s.len() > 0 {
        lemma_queue_slots_nat(s.drop_last());
    }
}

proof fn lemma_parts_slots_nat(s: Seq<Part>)
    ensures
        parts_slots(s) >= 0,
    decreases s.len(),
{
    if s.len() > 0 {
        lemma_parts_slots_nat(s.drop_last());
    }
}

/// The graph stands for the buffer.
pub open spec fn stands_for(built: Hnsw, data: Brute) -> bool {
    &&& built.valid()
    &&& built.dim == data.dim
    &&& built.metric == data.metric
    &&& built.ids.len() <= data.ids.len()
    &&& forall|id: VectorId| #[trigger] built.contains(id) <==> data.contains(id)
}

proof fn lemma_seal_finished_valid(st: Store, i: int, built: Hnsw)
    requires
        st.formed(),
        0 <= i < st.sealing.len(),
        stands_for(built, st.sealing[i].data),
        st.next_tag < u64::MAX,
    ensures
        st.seal_finished(st.sealing[i].tag, built).formed(),
        st.matched() ==> st.seal_finished(st.sealing[i].tag, built).matched(),
{
    lemma_queued_at(st, i);
    assert(st.queued_fits(st.sealing[i]));
    let t = st.seal_finished(st.sealing[i].tag, built);
    lemma_queue_slots_remove(st.sealing, i);
    assert(t.segments.drop_last() =~= st.segments);
    assert forall|j: int| 0 <= j < t.sealing.len() implies t.queued_fits(#[trigger] t.sealing[j]) by {
        let k = if j < i { j } else { j + 1 };
        assert(t.sealing[j] == st.sealing[k]);
        assert(st.queued_fits(st.sealing[k]));
    }
    assert forall|j: int| 0 <= j < t.segments.len() implies t.part_formed(
        #[trigger] t.segments[j],
    ) by {
        if j < st.segments.len() {
            assert(t.segments[j] == st.segments[j]);
            assert(st.part_formed(st.segments[j]));
        } else {
            assert(t.segments[j].dead == st.sealing[i].dead);
        }
    }
    assert forall|x: int, y: int| 0 <= x < y < t.sealing.len() implies (#[trigger] t.sealing[x]).tag
        < (#[trigger] t.sealing[y]).tag by {
        let a = if x < i { x } else { x + 1 };
        let b = if y < i { y } else { y + 1 };
        assert(t.sealing[x] == st.sealing[a] && t.sealing[y] == st.sealing[b]);
    }
    assert forall|x: int, y: int| 0 <= x < y < t.segments.len() implies (
    #[trigger] t.segments[x]).tag < (#[trigger] t.segments[y]).tag by {
        assert(t.segments[x] == st.segments[x]);
        assert(st.part_formed(st.segments[x]));
        if y < st.segments.len() {
            assert(t.segments[y] == st.segments[y]);
        }
    }
    if st.matched() {
        assert forall|j: int| 0 <= j < t.segments.len() implies t.part_matches(
            #[trigger] t.segments[j],
        ) by {
            if j < st.segments.len() {
                assert(t.segments[j] == st.segments[j]);
                assert(st.part_matches(st.segments[j]));
            }
        }
    }
}

impl SegmentedIndex {
    /// The oldest buffer of the queue.
    pub fn next_sealing<N: Numerics>(&self, num: &N) -> (r: Option<SealJob>)
        requires
            self.wf(model(num)),
        ensures
            match r {
                Some(job) => self@.sealing.len() > 0 && job.tag == self@.sealing[0].tag
                    && (*job.data)@ == self@.sealing[0].data && (*job.data).wf(),
                None => self@.sealing.len() == 0,
            },
    {
        if self.sealing.len() == 0 {
            return None;
        }
        let s: &Sealing = &self.sealing[0];
        assert(self@.sealing[0] == s@);
        Some(SealJob { tag: s.tag, data: Arc::clone(&s.data) })
    }

    /// Puts the graph of a queued buffer in its place. The tombstones that the
    /// buffer has collected, also those since the build began, become the
    /// segment's. Returns whether the buffer was still there.
    pub fn finish_seal<N: Numerics>(&mut self, num: &N, tag: u64, built: HnswIndex) -> (r: bool)
        requires
            old(self).wf(model(num)),
            old(self)@.next_tag < u64::MAX,
            built.wf(),
            forall|i: int|
                0 <= i < old(self)@.sealing.len() && (#[trigger] old(self)@.sealing[i]).tag == tag
                    ==> stands_for(built@, old(self)@.sealing[i].data),
        ensures
            final(self).last_checkpoint == old(self).last_checkpoint,
            final(self).wf(model(num)),
            old(self)@.matched() ==> final(self)@.matched(),
            r == (queued_at(old(self)@.sealing, tag) is Some),
            final(self)@ == old(self)@.seal_finished(tag, built@),
    {
        let ghost was = self@;
        let mut i: usize = 0;
        while i < self.sealing.len() && self.sealing[i].tag != tag
            invariant
                *self == *old(self),
                self.wf(model(num)),
                was == self@,
                i <= self.sealing@.len(),
                forall|j: int| 0 <= j < i ==> (#[trigger] was.sealing[j]).tag != tag,
            decreases self.sealing@.len() - i,
        {
            assert(was.sealing[i as int].tag == self.sealing@[i as int].tag);
            i = i + 1;
        }
        if i == self.sealing.len() {
            return false;
        }
        let ghost before = self.sealing@;
        let ghost segs = self.segments@;
        proof {
            assert(was.sealing[i as int] == before[i as int]@);
            lemma_queued_at(was, i as int);
            lemma_seal_finished_valid(was, i as int, built@);
        }
        let s: Sealing = self.sealing.remove(i);
        let part = Segment {
            index: Arc::new(built),
            tombstones: s.tombstones,
            stored: None,
            tag: self.next_tag,
        };
        self.segments.push(part);
        self.next_tag = self.next_tag + 1;
        proof {
            assert(self@.sealing =~= was.sealing.remove(i as int));
            assert(self@.segments =~= was.seal_finished(tag, built@).segments);
            assert(self@ == was.seal_finished(tag, built@));
            assert forall|j: int| 0 <= j < self.sealing@.len() implies (*(
            #[trigger] self.sealing@[j]).data).wf() by {
                let k = if j < i { j } else { j + 1 };
                assert(self.sealing@[j] == before[k]);
            }
            assert forall|j: int| 0 <= j < self.segments@.len() implies (*(
            #[trigger] self.segments@[j]).index).wf() by {
                if j < segs.len() {
                    assert(self.segments@[j] == segs[j]);
                }
            }
        }
        true
    }

    /// Builds the segment of the oldest queued buffer and puts it in place.
    /// Returns whether there was one.
    pub fn build_one<N: Numerics>(&mut self, num: &N) -> (r: bool)
        requires
            functional(num),
            old(self).wf(model(num)),
            old(self)@.next_tag < u64::MAX,
        ensures
            final(self).last_checkpoint == old(self).last_checkpoint,
            final(self).wf(model(num)),
            old(self)@.matched() ==> final(self)@.matched(),
            r == (old(self)@.sealing.len() > 0),
            final(self)@ == (if old(self)@.sealing.len() > 0 {
                old(self)@.seal_finished(
                    old(self)@.sealing[0].tag,
                    sealed_graph(model(num), old(self)@.params, old(self)@.sealing[0].data),
                )
            } else {
                old(self)@
            }),
            final(self)@.sealing.len() <= old(self)@.sealing.len(),
            r ==> final(self)@.sealing.len() == old(self)@.sealing.len() - 1,
            old(self)@.matched() && old(self)@.coherent() ==> final(self)@.coherent(),
            old(self)@.matched() && old(self)@.coherent() ==> forall|x: VectorId| #[trigger]
                final(self)@.live(x) <==> old(self)@.live(x),
    {
        match self.next_sealing(num) {
            None => false,
            Some(job) => {
                let ghost was = self@;
                let built: HnswIndex = build_segment(num, &self.hnsw_params, &job);
                proof {
                    lemma_queued_at(was, 0);
                    assert forall|i: int|
                        0 <= i < was.sealing.len() && (#[trigger] was.sealing[i]).tag
                            == job.tag implies stands_for(built@, was.sealing[i].data) by {
                        lemma_queued_at(was, i);
                    }
                    if was.matched() && was.coherent() {
                        assert forall|x: VectorId| #[trigger]
                            was.seal_finished(job.tag, built@).live(x) <==> was.live(x) by {
                            finished_seal_keeps_every_record(was, job.tag, built@, x);
                        }
                        finished_seal_keeps_every_record(was, job.tag, built@, VectorId(0));
                    }
                }
                self.finish_seal(num, job.tag, built)
            },
        }
    }

    /// The pair of segments to merge, if there are too many.
    pub fn next_merge<N: Numerics>(&self, num: &N) -> (r: Option<MergeJob>)
        requires
            self.wf(model(num)),
            self@.countable(),
        ensures
            match r {
                Some(job) => self@.pair() == Some(job@) && job.wf() && self@.gave(job@),
                None => self@.pair() is None,
            },
    {
        if self.segments.len() <= self.max_segments {
            return None;
        }
        let ghost st = self@;
        let n: usize = self.segments.len();
        let a: usize = self.lightest_segment(num, None);
        let b: usize = self.lightest_segment(num, Some(a));
        proof {
            lemma_lightest(st.segments, None, n as int);
            lemma_lightest(st.segments, Some(a as int), n as int);
            assert(st.part_formed(st.segments[a as int]));
            assert(st.part_formed(st.segments[b as int]));
            lemma_part_at(st, a as int);
            lemma_part_at(st, b as int);
            assert(st.segments[a as int].tag != st.segments[b as int].tag);
            lemma_two_parts(st.segments, a as int, b as int);
            lemma_queue_slots_nat(st.sealing);
            assert forall|i: int| 0 <= i < st.segments.len() implies {
                &&& (#[trigger] st.segments[i]).tag == st.segments[a as int].tag
                    ==> st.segments[i].index == st.segments[a as int].index
                &&& st.segments[i].tag == st.segments[b as int].tag ==> st.segments[i].index
                    == st.segments[b as int].index
            } by {
                lemma_part_at(st, i);
            }
        }
        let x: &Segment = &self.segments[a];
        let y: &Segment = &self.segments[b];
        assert(st.segments[a as int] == x@ && st.segments[b as int] == y@);
        Some(
            MergeJob {
                dim: self.dim,
                metric: self.metric,
                a_tag: x.tag,
                b_tag: y.tag,
                a: Arc::clone(&x.index),
                b: Arc::clone(&y.index),
                a_dead: copied(&x.tombstones),
                b_dead: copied(&y.tombstones),
            },
        )
    }

    /// The first of the segments with the fewest records, other than `skip`.
    fn lightest_segment<N: Numerics>(&self, num: &N, skip: Option<usize>) -> (r: usize)
        requires
            self.wf(model(num)),
            self@.countable(),
            self.segments@.len() >= 2,
        ensures
            lightest(
                self@.segments,
                match skip {
                    Some(s) => Some(s as int),
                    None => None,
                },
                self@.segments.len() as int,
            ) == Some(r as int),
            r < self.segments@.len(),
    {
        let ghost st = self@;
        let ghost sk = match skip {
            Some(s) => Some(s as int),
            None => None,
        };
        let mut best: Option<usize> = None;
        let mut weight: usize = 0;
        let mut i: usize = 0;
        while i < self.segments.len()
            invariant
                self.wf(model(num)),
                st.countable(),
                st == self@,
                sk == (match skip {
                    Some(s) => Some(s as int),
                    None => None,
                }),
                i <= self.segments@.len(),
                match best {
                    Some(b) => lightest(st.segments, sk, i as int) == Some(b as int) && b < i
                        && weight == st.segments[b as int].weight(),
                    None => lightest(st.segments, sk, i as int) is None,
                },
            decreases self.segments@.len() - i,
        {
            let s: &Segment = &self.segments[i];
            proof {
                assert(st.part_formed(st.segments[i as int]));
                assert(st.segments[i as int].weight() >= 0);
            }
            let w: usize = s.index.len() - s.tombstones.len();
            let skipped: bool = match skip {
                Some(x) => x == i,
                None => false,
            };
            if !skipped {
                let better: bool = match best {
                    Some(_) => w < weight,
                    None => true,
                };
                if better {
                    best = Some(i);
                    weight = w;
                }
            }
            i = i + 1;
        }
        proof {
            lemma_lightest(st.segments, sk, i as int);
        }
        match best {
            Some(b) => b,
            None => {
                proof {
                    assert(sk == Some(0int));
                    assert(sk == Some(1int));
                }
                0
            },
        }
    }

    /// Puts a merged graph in place of its two sources. What was deleted from
    /// them since the job was picked is carried over. Where a source is gone,
    /// nothing changes. Returns whether the graph was put in place.
    pub fn finish_merge<N: Numerics>(&mut self, num: &N, job: &MergeJob, merged: HnswIndex) -> (r:
        bool)
        requires
            old(self).wf(model(num)),
            old(self)@.next_tag < u64::MAX,
            job.wf(),
            merged.wf(),
            old(self)@.gave(job@),
            replaces(merged@, job@),
        ensures
            final(self).last_checkpoint == old(self).last_checkpoint,
            final(self).wf(model(num)),
            old(self)@.matched() ==> final(self)@.matched(),
            r == (part_at(old(self)@.segments, job@.a_tag) is Some && part_at(
                old(self)@.segments,
                job@.b_tag,
            ) is Some),
            final(self)@ == old(self)@.merge_finished(job@, merged@),
            r ==> final(self)@.segments.len() == old(self)@.segments.len() - 1,
    {
        let ghost was = self@;
        let ghost pair = job@;
        let a: usize = match self.find_segment(num, job.a_tag) {
            Some(i) => i,
            None => {
                return false;
            },
        };
        let b: usize = match self.find_segment(num, job.b_tag) {
            Some(i) => i,
            None => {
                return false;
            },
        };
        let ghost before = self.segments@;
        let mut dead: Vec<VectorId> = Vec::new();
        assert(dead@ =~= Seq::empty());
        proof {
            lemma_part_at(was, a as int);
            lemma_part_at(was, b as int);
            assert(was.segments[a as int] == before[a as int]@);
            assert(was.segments[b as int] == before[b as int]@);
            lemma_carried(Seq::empty(), was.segments[a as int].dead, pair.a_dead);
            lemma_merge_finished_valid(was, pair, merged@, a as int, b as int);
        }
        carry(&mut dead, &self.segments[a].tombstones, &job.a_dead);
        carry(&mut dead, &self.segments[b].tombstones, &job.b_dead);
        if a < b {
            self.segments.remove(b);
            self.segments.remove(a);
        } else {
            self.segments.remove(a);
            self.segments.remove(b);
        }
        let part = Segment {
            index: Arc::new(merged),
            tombstones: dead,
            stored: None,
            tag: self.next_tag,
        };
        self.segments.push(part);
        self.next_tag = self.next_tag + 1;
        proof {
            assert(self@.segments =~= was.merge_finished(pair, merged@).segments);
            assert(self@ == was.merge_finished(pair, merged@));
            assert forall|j: int| 0 <= j < self.segments@.len() implies (*(
            #[trigger] self.segments@[j]).index).wf() by {
                if j < self.segments@.len() - 1 {
                    let lo = if a < b { a as int } else { b as int };
                    let hi = if a < b { b as int } else { a as int };
                    let k = if j < lo {
                        j
                    } else if j + 1 < hi {
                        j + 1
                    } else {
                        j + 2
                    };
                    assert(self.segments@[j] == before[k]);
                }
            }
        }
        true
    }

    fn find_segment<N: Numerics>(&self, num: &N, tag: u64) -> (r: Option<usize>)
        requires
            self.wf(model(num)),
        ensures
            match r {
                Some(i) => i < self.segments@.len() && self@.segments[i as int].tag == tag
                    && part_at(self@.segments, tag) == Some(i as int),
                None => part_at(self@.segments, tag) is None,
            },
    {
        let ghost st = self@;
        let mut i: usize = 0;
        while i < self.segments.len()
            invariant
                self.wf(model(num)),
                st == self@,
                i <= self.segments@.len(),
                forall|j: int| 0 <= j < i ==> (#[trigger] st.segments[j]).tag != tag,
            decreases self.segments@.len() - i,
        {
            if self.segments[i].tag == tag {
                proof {
                    assert(st.segments[i as int].tag == tag);
                    lemma_part_at(st, i as int);
                }
                return Some(i);
            }
            i = i + 1;
        }
        None
    }
}

/// The merged graph holds what lived in either part.
pub open spec fn replaces(merged: Hnsw, pair: Pair) -> bool {
    &&& merged.valid()
    &&& merged.dim == pair.dim
    &&& merged.metric == pair.metric
    &&& merged.ids.len() <= pair.a.ids.len() + pair.b.ids.len()
    &&& forall|id: VectorId| #[trigger]
        merged.contains(id) <==> (pair.a.contains(id) && !pair.a_dead.contains(id)) || (
        pair.b.contains(id) && !pair.b_dead.contains(id))
}

/// Two different segments take no more than all of them.
proof fn lemma_two_parts(s: Seq<Part>, a: int, b: int)
    requires
        0 <= a < s.len(),
        0 <= b < s.len(),
        a != b,
    ensures
        s[a].index.ids.len() + s[b].index.ids.len() <= parts_slots(s),
{
    let t = s.remove(a);
    lemma_parts_slots_remove(s, a);
    let c = if b < a { b } else { b - 1 };
    assert(t[c] == s[b]);
    lemma_parts_slots_remove(t, c);
    lemma_parts_slots_nat(t.remove(c));
}

#[verifier::spinoff_prover]
#[verifier::rlimit(60)]
proof fn lemma_merge_finished_valid(st: Store, pair: Pair, merged: Hnsw, a: int, b: int)
    requires
        st.formed(),
        st.next_tag < u64::MAX,
        st.gave(pair),
        pair.fits(),
        replaces(merged, pair),
        0 <= a < st.segments.len(),
        0 <= b < st.segments.len(),
        st.segments[a].tag == pair.a_tag,
        st.segments[b].tag == pair.b_tag,
    ensures
        st.merge_finished(pair, merged).formed(),
        st.matched() ==> st.merge_finished(pair, merged).matched(),
{
    lemma_part_at(st, a);
    lemma_part_at(st, b);
    let t = st.merge_finished(pair, merged);
    let s = st.segments;
    assert(st.part_formed(s[a]));
    assert(st.part_formed(s[b]));
    let first = carried(Seq::empty(), s[a].dead, pair.a_dead);
    lemma_carried(Seq::empty(), s[a].dead, pair.a_dead);
    lemma_carried(first, s[b].dead, pair.b_dead);
    let lo = if a < b { a } else { b };
    let hi = if a < b { b } else { a };
    let rest = s.remove(hi).remove(lo);
    assert(t.segments.drop_last() =~= rest);
    lemma_parts_slots_remove(s, hi);
    assert(s.remove(hi)[lo] == s[lo]);
    lemma_parts_slots_remove(s.remove(hi), lo);
    assert forall|j: int| 0 <= j < rest.len() implies (#[trigger] rest[j]) == s[
        if j < lo {
            j
        } else if j + 1 < hi {
            j + 1
        } else {
            j + 2
        }
    ] by {}
    assert forall|j: int| 0 <= j < t.segments.len() implies t.part_formed(
        #[trigger] t.segments[j],
    ) by {
        if j < rest.len() {
            assert(t.segments[j] == rest[j]);
            let k = if j < lo {
                j
            } else if j + 1 < hi {
                j + 1
            } else {
                j + 2
            };
            assert(st.part_formed(s[k]));
        }
    }
    assert forall|j: int| 0 <= j < t.sealing.len() implies t.queued_fits(#[trigger] t.sealing[j]) by {
        assert(st.queued_fits(st.sealing[j]));
    }
    assert forall|x: int, y: int| 0 <= x < y < t.segments.len() implies (
    #[trigger] t.segments[x]).tag < (#[trigger] t.segments[y]).tag by {
        assert(t.segments[x] == rest[x]);
        let kx = if x < lo {
            x
        } else if x + 1 < hi {
            x + 1
        } else {
            x + 2
        };
        assert(st.part_formed(s[kx]));
        if y < rest.len() {
            assert(t.segments[y] == rest[y]);
            let ky = if y < lo {
                y
            } else if y + 1 < hi {
                y + 1
            } else {
                y + 2
            };
            assert(s[kx].tag < s[ky].tag);
        }
    }
    if st.matched() {
        assert(st.part_matches(s[a]));
        assert(st.part_matches(s[b]));
        assert forall|j: int| 0 <= j < t.segments.len() implies t.part_matches(
            #[trigger] t.segments[j],
        ) by {
            if j < rest.len() {
                assert(t.segments[j] == rest[j]);
                let k = if j < lo {
                    j
                } else if j + 1 < hi {
                    j + 1
                } else {
                    j + 2
                };
                assert(st.part_matches(s[k]));
            } else {
                let p = t.segments[j];
                assert forall|id: VectorId| #[trigger] p.dead.contains(id) implies p.index.contains(
                    id,
                ) by {
                    assert(first.contains(id) <==> Seq::<VectorId>::empty().contains(id) || (
                    s[a].dead.contains(id) && !pair.a_dead.contains(id)));
                }
            }
        }
    }
}

/// Segments that match can be merged.
pub proof fn lemma_can_merge(s: Store)
    requires
        s.valid(),
    ensures
        s.can_merge(),
{
    lemma_countable(s);
    if let Some(pair) = s.pair() {
        let n = s.segments.len() as int;
        lemma_lightest_two(s.segments, n);
        let a = lightest(s.segments, None, n)->0;
        let b = lightest(s.segments, Some(a), n)->0;
        assert(s.part_fits(s.segments[a]));
        assert(s.part_fits(s.segments[b]));
        lemma_part_at(s, a);
        lemma_part_at(s, b);
        lemma_two_parts(s.segments, a, b);
        lemma_queue_slots_nat(s.sealing);
        lemma_pair_entries(pair);
    }
}

impl SegmentedIndex {
    /// Merges the two smallest segments, where there are too many. Returns
    /// whether there were.
    pub fn merge_smallest_pair<N: Numerics>(&mut self, num: &N) -> (r: bool)
        requires
            functional(num),
            old(self).wf(model(num)),
            old(self)@.can_merge(),
            old(self)@.next_tag < u64::MAX,
        ensures
            final(self).last_checkpoint == old(self).last_checkpoint,
            final(self).wf(model(num)),
            old(self)@.matched() ==> final(self)@.matched(),
            r == (old(self)@.segments.len() > old(self)@.max_segments),
            final(self)@ == (match old(self)@.pair() {
                Some(pair) => old(self)@.merge_finished(
                    pair,
                    merged_graph(model(num), old(self)@.params, pair),
                ),
                None => old(self)@,
            }),
            r ==> final(self)@.segments.len() == old(self)@.segments.len() - 1,
            old(self)@.matched() && old(self)@.coherent() ==> final(self)@.coherent(),
            old(self)@.matched() && old(self)@.coherent() ==> forall|x: VectorId| #[trigger]
                final(self)@.live(x) <==> old(self)@.live(x),
    {
        match self.next_merge(num) {
            None => false,
            Some(job) => {
                let ghost was = self@;
                proof {
                    let n = was.segments.len() as int;
                    lemma_lightest_two(was.segments, n);
                    let a = lightest(was.segments, None, n)->0;
                    let b = lightest(was.segments, Some(a), n)->0;
                    lemma_part_at(was, a);
                    lemma_part_at(was, b);
                }
                let merged: HnswIndex = build_merged(num, &self.hnsw_params, &job);
                proof {
                    if was.matched() && was.coherent() {
                        let pair = job@;
                        picked_pair_is_awaited(was, pair);
                        assert forall|x: VectorId| #[trigger]
                            was.merge_finished(pair, merged@).live(x) <==> was.live(x) by {
                            finished_merge_keeps_every_record(was, pair, merged@, x);
                        }
                        finished_merge_keeps_every_record(was, pair, merged@, VectorId(0));
                    }
                }
                self.finish_merge(num, &job, merged)
            },
        }
    }
}

/// The store after `n` buffers have been built.
pub open spec fn after_builds(s: Store, g: Model, n: nat) -> Store
    decreases n,
{
    if n == 0 {
        s
    } else {
        let t = after_builds(s, g, (n - 1) as nat);
        t.seal_finished(t.sealing[0].tag, sealed_graph(g, t.params, t.sealing[0].data))
    }
}

/// The first `n` merges can be carried out, one after the other.
pub open spec fn merges_run(s: Store, g: Model, n: nat) -> bool {
    forall|i: nat| i < n ==> (#[trigger] after_merges(s, g, i)).can_merge()
}

/// The store after `n` merges.
pub open spec fn after_merges(s: Store, g: Model, n: nat) -> Store
    decreases n,
{
    if n == 0 {
        s
    } else {
        let t = after_merges(s, g, (n - 1) as nat);
        match t.pair() {
            Some(pair) => t.merge_finished(pair, merged_graph(g, t.params, pair)),
            None => t,
        }
    }
}

impl Store {
    /// How many merges bring the segments down to the limit.
    pub open spec fn excess(self) -> nat {
        if self.segments.len() > self.max_segments {
            (self.segments.len() - self.max_segments) as nat
        } else {
            0
        }
    }
}

impl SegmentedIndex {
    /// Builds every buffer of the queue.
    pub fn wait_for_seal<N: Numerics>(&mut self, num: &N)
        requires
            functional(num),
            old(self).wf(model(num)),
            old(self)@.next_tag + old(self)@.sealing.len() <= u64::MAX,
        ensures
            final(self).last_checkpoint == old(self).last_checkpoint,
            final(self).wf(model(num)),
            old(self)@.matched() ==> final(self)@.matched(),
            final(self)@ == after_builds(old(self)@, model(num), old(self)@.sealing.len()),
            final(self)@.sealing.len() == 0,
            final(self)@.segments.len() == old(self)@.segments.len() + old(self)@.sealing.len(),
            final(self)@.next_tag == old(self)@.next_tag + old(self)@.sealing.len(),
            old(self)@.matched() && old(self)@.coherent() ==> final(self)@.coherent(),
            old(self)@.matched() && old(self)@.coherent() ==> forall|x: VectorId| #[trigger]
                final(self)@.live(x) <==> old(self)@.live(x),
    {
        let ghost g = model(num);
        let ghost was = self@;
        let ghost mut done: nat = 0;
        while self.sealing.len() > 0
            invariant
                functional(num),
                g == model(num),
                self.wf(g),
                self.last_checkpoint == old(self).last_checkpoint,
                was == old(self)@,
                done <= was.sealing.len(),
                self@ == after_builds(was, g, done),
                self@.sealing.len() == was.sealing.len() - done,
                self@.segments.len() == was.segments.len() + done,
                self@.next_tag == was.next_tag + done,
                was.next_tag + was.sealing.len() <= u64::MAX,
                was.matched() ==> self@.matched(),
                was.matched() && was.coherent() ==> self@.coherent(),
                was.matched() && was.coherent() ==> forall|x: VectorId| #[trigger]
                    self@.live(x) <==> was.live(x),
            decreases self.sealing.len(),
        {
            let ghost mid = self@;
            proof {
                lemma_queued_at(mid, 0);
            }
            self.build_one(num);
            proof {
                done = done + 1;
                assert(self@ == after_builds(was, g, done));
            }
        }
    }

    /// Merges segments until there are no more than the limit.
    pub fn wait_for_merge<N: Numerics>(&mut self, num: &N)
        requires
            functional(num),
            old(self).wf(model(num)),
            old(self)@.matched() || merges_run(old(self)@, model(num), old(self)@.excess()),
            old(self)@.next_tag + old(self)@.excess() <= u64::MAX,
        ensures
            final(self).last_checkpoint == old(self).last_checkpoint,
            final(self).wf(model(num)),
            old(self)@.matched() ==> final(self)@.matched(),
            final(self)@ == after_merges(old(self)@, model(num), old(self)@.excess()),
            final(self)@.segments.len() == old(self)@.segments.len() - old(self)@.excess(),
            final(self)@.sealing == old(self)@.sealing,
            final(self)@.max_segments == old(self)@.max_segments,
            final(self)@.next_tag == old(self)@.next_tag + old(self)@.excess(),
            old(self)@.matched() && old(self)@.coherent() ==> final(self)@.coherent(),
            old(self)@.matched() && old(self)@.coherent() ==> forall|x: VectorId| #[trigger]
                final(self)@.live(x) <==> old(self)@.live(x),
    {
        let ghost g = model(num);
        let ghost was = self@;
        let ghost mut done: nat = 0;
        while self.segments.len() > self.max_segments
            invariant
                functional(num),
                g == model(num),
                self.wf(g),
                self.last_checkpoint == old(self).last_checkpoint,
                was == old(self)@,
                done <= was.excess(),
                self@ == after_merges(was, g, done),
                self@.segments.len() == was.segments.len() - done,
                self@.sealing == was.sealing,
                self@.max_segments == was.max_segments,
                self@.next_tag == was.next_tag + done,
                was.next_tag + was.excess() <= u64::MAX,
                was.matched() || merges_run(was, g, was.excess()),
                was.matched() ==> self@.matched(),
                was.matched() && was.coherent() ==> self@.coherent(),
                was.matched() && was.coherent() ==> forall|x: VectorId| #[trigger]
                    self@.live(x) <==> was.live(x),
            decreases self.segments.len(),
        {
            let ghost mid = self@;
            proof {
                let n = mid.segments.len() as int;
                lemma_lightest_two(mid.segments, n);
                let a = lightest(mid.segments, None, n)->0;
                let b = lightest(mid.segments, Some(a), n)->0;
                lemma_part_at(mid, a);
                lemma_part_at(mid, b);
                if was.matched() {
                    lemma_can_merge(mid);
                }
            }
            self.merge_smallest_pair(num);
            proof {
                done = done + 1;
                assert(self@ == after_merges(was, g, done));
            }
        }
    }

    /// Does all the work there is behind the index: builds the queue, and merges
    /// segments down to the limit.
    pub fn wait_for_background<N: Numerics>(&mut self, num: &N)
        requires
            functional(num),
            old(self).wf(model(num)),
            old(self)@.matched() || ({
                let built = after_builds(old(self)@, model(num), old(self)@.sealing.len());
                merges_run(built, model(num), built.excess())
            }),
            old(self)@.next_tag + 2 * old(self)@.sealing.len() + old(self)@.segments.len()
                <= u64::MAX,
        ensures
            final(self).last_checkpoint == old(self).last_checkpoint,
            final(self).wf(model(num)),
            old(self)@.matched() ==> final(self)@.matched(),
            ({
                let built = after_builds(old(self)@, model(num), old(self)@.sealing.len());
                final(self)@ == after_merges(built, model(num), built.excess())
            }),
            final(self)@.sealing.len() == 0,
            final(self)@.segments.len() <= final(self)@.max_segments,
            old(self)@.matched() && old(self)@.coherent() ==> final(self)@.coherent(),
            old(self)@.matched() && old(self)@.coherent() ==> forall|x: VectorId| #[trigger]
                final(self)@.live(x) <==> old(self)@.live(x),
    {
        self.wait_for_seal(num);
        self.wait_for_merge(num);
    }
}

} // verus!
