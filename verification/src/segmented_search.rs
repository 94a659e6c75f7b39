//! Searching the segmented index.
//!
//! A search asks every segment, every queued buffer and the write buffer, drops
//! what is dead, and merges the answers; an id counts once. A filtered search
//! follows a plan (see [`crate::planner`]).

use std::collections::HashSet;
use vstd::prelude::*;
use crate::catalog::number_index;
use crate::graph::count_set;
use crate::meta::{equalities, passes_id, Condition, Fields, Filter, MetaStore};
use crate::numeric::gathered;
use crate::numerics::{self, distance, functional, model, prepare, prepared, Model, Numerics};
use crate::planner::{narrowest, planned, usual, Arm, FallbackSource, Plan, Source};
use crate::posting::{ascending, lemma_ascending_distinct, posting_contains};
use crate::rank::{first_k, keep_smallest, lemma_kept, ranked, smallest, sort, sorted};
use crate::segmented::{
    newest_part, newest_queued, parts_slots, parts_weight, queue_slots, queue_weight, Part, Queued,
    Sealing, Segment, SegmentedIndex, Store,
};
use crate::segmented_nearness_laws::{
    search_takes_in_every_segment, segment_answer, takes_in_every_segment,
};
use crate::types::{SearchResult, VectorId};

verus! {

/// The results whose id passes.
pub open spec fn passing(s: Seq<SearchResult>, p: spec_fn(VectorId) -> bool) -> Seq<SearchResult>
    decreases s.len(),
{
    if s.len() == 0 {
        s
    } else if p(s.last().id) {
        passing(s.drop_last(), p).push(s.last())
    } else {
        passing(s.drop_last(), p)
    }
}

/// Is there a result for the id?
pub open spec fn mentions(s: Seq<SearchResult>, id: VectorId) -> bool {
    exists|i: int| 0 <= i < s.len() && (#[trigger] s[i]).id == id
}

/// The first result of each id.
pub open spec fn distinct(s: Seq<SearchResult>) -> Seq<SearchResult>
    decreases s.len(),
{
    if s.len() == 0 {
        s
    } else {
        let t = distinct(s.drop_last());
        if mentions(t, s.last().id) {
            t
        } else {
            t.push(s.last())
        }
    }
}

/// The answers in one ranking, each id once.
pub open spec fn merged(s: Seq<SearchResult>) -> Seq<SearchResult> {
    distinct(ranked(s))
}

/// Not dead.
pub open spec fn alive(dead: Seq<VectorId>) -> spec_fn(VectorId) -> bool {
    |id: VectorId| !dead.contains(id)
}

/// The record passes the filter.
pub open spec fn accepted(f: Seq<Condition>, meta: Map<u64, Fields>) -> spec_fn(VectorId) -> bool {
    |id: VectorId| passes_id(f, meta, id)
}

/// Not dead, and the record passes the filter.
pub open spec fn alive_and_accepted(
    dead: Seq<VectorId>,
    f: Seq<Condition>,
    meta: Map<u64, Fields>,
) -> spec_fn(VectorId) -> bool {
    |id: VectorId| !dead.contains(id) && passes_id(f, meta, id)
}

/// How many results to ask for, so that `k` are left when the dead are dropped:
/// as many more as are dead, as far as a length can go.
pub open spec fn wanted(k: nat, dead: nat) -> nat {
    if k + dead <= usize::MAX {
        k + dead
    } else {
        usize::MAX as nat
    }
}

/// How many results a search that drops the dead on its way asks for: as many
/// more as are dead, up to twice as many.
pub open spec fn widened(k: nat, dead: nat) -> nat {
    wanted(
        k,
        if dead <= k {
            dead
        } else {
            k
        },
    )
}

pub open spec fn at_least(a: nat, b: nat) -> nat {
    if a >= b {
        a
    } else {
        b
    }
}

/// What the segments answer.
pub open spec fn parts_found(s: Seq<Part>, g: Model, query: Seq<u32>, k: nat, ef: nat) -> Seq<
    SearchResult,
>
    decreases s.len(),
{
    if s.len() == 0 {
        Seq::empty()
    } else {
        let p = s.last();
        let want = wanted(k, p.dead.len());
        parts_found(s.drop_last(), g, query, k, ef) + passing(
            p.index.found(g, query, want, at_least(ef, want)),
            alive(p.dead),
        )
    }
}

/// What the queued buffers answer.
pub open spec fn queue_found(s: Seq<Queued>, g: Model, query: Seq<u32>, k: nat) -> Seq<SearchResult>
    decreases s.len(),
{
    if s.len() == 0 {
        Seq::empty()
    } else {
        let q = s.last();
        queue_found(s.drop_last(), g, query, k) + passing(
            q.data.found(g, query, wanted(k, q.dead.len())),
            alive(q.dead),
        )
    }
}

/// What the segments answer to a search of the given width without the filter,
/// filtered afterwards.
pub open spec fn parts_over(
    s: Seq<Part>,
    g: Model,
    query: Seq<u32>,
    width: nat,
    f: Seq<Condition>,
    meta: Map<u64, Fields>,
) -> Seq<SearchResult>
    decreases s.len(),
{
    if s.len() == 0 {
        Seq::empty()
    } else {
        let p = s.last();
        parts_over(s.drop_last(), g, query, width, f, meta) + passing(
            p.index.found(g, query, width, width),
            alive_and_accepted(p.dead, f, meta),
        )
    }
}

/// What the segments answer to a search that applies the filter on its way.
pub open spec fn parts_filtered(
    s: Seq<Part>,
    g: Model,
    query: Seq<u32>,
    k: nat,
    ef: nat,
    f: Seq<Condition>,
    meta: Map<u64, Fields>,
) -> Seq<SearchResult>
    decreases s.len(),
{
    if s.len() == 0 {
        Seq::empty()
    } else {
        let p = s.last();
        let want = widened(k, p.dead.len());
        parts_filtered(s.drop_last(), g, query, k, ef, f, meta) + p.index.filtered(
            g,
            query,
            want,
            at_least(ef, want),
            alive_and_accepted(p.dead, f, meta),
            None,
        ).0
    }
}

/// What the queued buffers answer to a filtered search.
pub open spec fn queue_filtered(
    s: Seq<Queued>,
    g: Model,
    query: Seq<u32>,
    k: nat,
    f: Seq<Condition>,
    meta: Map<u64, Fields>,
) -> Seq<SearchResult>
    decreases s.len(),
{
    if s.len() == 0 {
        Seq::empty()
    } else {
        let q = s.last();
        queue_filtered(s.drop_last(), g, query, k, f, meta) + q.data.filtered(
            g,
            query,
            k,
            alive_and_accepted(q.dead, f, meta),
        )
    }
}

impl Store {
    pub open spec fn found(self, g: Model, query: Seq<u32>, k: nat, ef: nat) -> Seq<SearchResult> {
        if k == 0 {
            Seq::empty()
        } else {
            first_k(
                merged(
                    parts_found(self.segments, g, query, k, ef) + queue_found(
                        self.sealing,
                        g,
                        query,
                        k,
                    ) + self.buffer.found(g, query, k),
                ),
                k,
            )
        }
    }

    /// The candidates that live and pass, with their distances from `v`.
    pub open spec fn scanned(
        self,
        g: Model,
        v: Seq<u32>,
        ids: Seq<VectorId>,
        f: Seq<Condition>,
    ) -> Seq<SearchResult>
        decreases ids.len(),
    {
        if ids.len() == 0 {
            Seq::empty()
        } else {
            let rest = self.scanned(g, v, ids.drop_last(), f);
            let id = ids.last();
            match self.vector(id) {
                Some(w) => if passes_id(f, self.records.meta, id) {
                    rest.push(
                        SearchResult { id, distance: (g.distance)(self.metric, v, w) },
                    )
                } else {
                    rest
                },
                None => rest,
            }
        }
    }

    /// The nearest candidates that live and pass.
    pub open spec fn scan(
        self,
        g: Model,
        query: Seq<u32>,
        k: nat,
        ids: Seq<VectorId>,
        f: Seq<Condition>,
    ) -> Seq<SearchResult> {
        smallest(self.scanned(g, prepared(g, self.metric, query), ids, f), k)
    }

    /// The number of records, as the planner counts them.
    pub open spec fn counted(self) -> usize {
        if self.size() >= 1 {
            self.size() as usize
        } else {
            1
        }
    }

    pub open spec fn candidates(self, s: Source) -> Seq<VectorId> {
        match s {
            Source::Ids(ids) => ids,
            Source::Range { key, lo, hi } => match number_index(self.records.numbers, key) {
                Some(n) => gathered(n.entries, lo, hi),
                None => Seq::empty(),
            },
        }
    }

    /// The width of a search for more results than asked, when at most `upper`
    /// records match.
    pub open spec fn width(self, g: Model, k: nat, upper: nat) -> nat {
        let ef = self.params.ef_search as nat;
        let low = at_least(ef, 2 * k);
        let high = at_least(8 * ef, 4 * k);
        let w = (g.overfetch)(usual().overfetch_beta, k as usize, upper as usize, self.counted())
            as nat;
        if w < low {
            low
        } else if w > high {
            high
        } else {
            w
        }
    }

    /// Every record that lives passes the single equality condition: its list
    /// holds as many, and what shares a list is equal unless it is no number.
    pub open spec fn filter_is_void(self, f: Seq<Condition>) -> bool {
        f.len() == 1 && f[0].asks_for_a_value() && (narrowest(
            self.records.meta,
            equalities(f),
        ) matches Some(ids) && ids.len() >= self.counted())
    }

    pub open spec fn filtered(self, g: Model, query: Seq<u32>, k: nat, f: Seq<Condition>) -> Seq<
        SearchResult,
    > {
        let meta = self.records.meta;
        let ef = self.params.ef_search as nat;
        if f.len() == 0 {
            self.found(g, query, k, ef)
        } else if k == 0 {
            Seq::empty()
        } else if self.filter_is_void(f) {
            self.found(g, query, k, ef)
        } else {
            match planned(self.records, g, f, usual(), k, self.counted()) {
                Plan::Empty => Seq::empty(),
                Plan::Scan(ids) => self.scan(g, query, k, ids, f),
                Plan::Post { upper, fallback } => {
                    let all = merged(
                        parts_over(
                            self.segments,
                            g,
                            query,
                            self.width(g, k, upper),
                            f,
                            meta,
                        ) + queue_filtered(self.sealing, g, query, k, f, meta)
                            + self.buffer.filtered(g, query, k, accepted(f, meta)),
                    );
                    if all.len() < 2 * k {
                        self.scan(g, query, k, self.candidates(fallback), f)
                    } else {
                        first_k(all, k)
                    }
                },
                Plan::Legacy => first_k(
                    merged(
                        parts_filtered(self.segments, g, query, k, ef, f, meta) + queue_filtered(
                            self.sealing,
                            g,
                            query,
                            k,
                            f,
                            meta,
                        ) + self.buffer.filtered(g, query, k, accepted(f, meta)),
                    ),
                    k,
                ),
            }
        }
    }
}

/// The places where a flag is not set.
pub proof fn lemma_unset(s: Seq<bool>)
    ensures
        Set::new(|i: int| 0 <= i < s.len() && !s[i]).finite(),
        Set::new(|i: int| 0 <= i < s.len() && !s[i]).len() + count_set(s) == s.len(),
    decreases s.len(),
{
    let u = Set::new(|i: int| 0 <= i < s.len() && !s[i]);
    if s.len() == 0 {
        assert(u =~= Set::empty());
    } else {
        let t = s.drop_last();
        let w = Set::new(|i: int| 0 <= i < t.len() && !t[i]);
        lemma_unset(t);
        let n = s.len() - 1;
        if s[n] {
            assert(u =~= w);
        } else {
            assert(u =~= w.insert(n));
        }
    }
}

/// No more records are dead than there are.
pub proof fn lemma_part_weight(p: Part)
    requires
        p.index.valid(),
        ascending(p.dead),
        forall|id: VectorId| #[trigger] p.dead.contains(id) ==> p.index.contains(id),
    ensures
        0 <= p.weight() <= p.index.ids.len(),
{
    let h = p.index;
    let d = p.dead;
    lemma_unset(h.deleted);
    let u = Set::new(|i: int| 0 <= i < h.deleted.len() && !h.deleted[i]);
    let slots = Seq::new(d.len(), |i: int| h.slot(d[i]));
    assert forall|i: int| 0 <= i < d.len() implies u.contains(#[trigger] slots[i])
        && h.ids[slots[i]] == d[i] by {
        assert(d.contains(d[i]));
        assert(h.contains(d[i]));
    }
    lemma_ascending_distinct(d);
    assert(slots.no_duplicates()) by {
        assert forall|i: int, j: int|
            0 <= i < slots.len() && 0 <= j < slots.len() && i != j implies slots[i]
            != slots[j] by {
            assert(h.ids[slots[i]] == d[i] && h.ids[slots[j]] == d[j]);
        }
    }
    slots.unique_seq_to_set();
    assert(slots.to_set().subset_of(u));
    vstd::set_lib::lemma_len_subset(slots.to_set(), u);
}

pub proof fn lemma_queued_weight(q: Queued)
    requires
        q.data.valid(),
        ascending(q.dead),
        forall|id: VectorId| #[trigger] q.dead.contains(id) ==> q.data.contains(id),
    ensures
        0 <= q.weight() <= q.data.ids.len(),
{
    lemma_ascending_distinct(q.dead);
    q.dead.unique_seq_to_set();
    q.data.ids.unique_seq_to_set();
    assert(q.dead.to_set().subset_of(q.data.ids.to_set())) by {
        assert forall|id: VectorId| q.dead.to_set().contains(id) implies q.data.ids.to_set().contains(
            id,
        ) by {
            assert(q.dead.contains(id));
            assert(q.data.ids.contains(id));
        }
    }
    vstd::set_lib::lemma_len_subset(q.dead.to_set(), q.data.ids.to_set());
}

/// Segments that match have no more dead than records.
pub proof fn lemma_countable(s: Store)
    requires
        s.valid(),
    ensures
        s.countable(),
{
    assert forall|i: int| 0 <= i < s.segments.len() implies (#[trigger] s.segments[i]).weight()
        >= 0 by {
        assert(s.part_fits(s.segments[i]));
        lemma_part_weight(s.segments[i]);
    }
}

pub proof fn lemma_parts_weight(s: Store, i: int)
    requires
        s.countable(),
        0 <= i <= s.segments.len(),
    ensures
        0 <= parts_weight(s.segments.take(i)) <= parts_slots(s.segments.take(i)),
        parts_slots(s.segments.take(i)) <= parts_slots(s.segments),
    decreases s.segments.len() - i,
{
    lemma_parts_prefix(s, i);
    if i < s.segments.len() {
        lemma_parts_weight(s, i + 1);
        let t = s.segments.take(i + 1);
        assert(t.drop_last() =~= s.segments.take(i));
        assert(t.last() == s.segments[i]);
    } else {
        assert(s.segments.take(i) =~= s.segments);
    }
}

proof fn lemma_parts_prefix(s: Store, i: int)
    requires
        s.countable(),
        0 <= i <= s.segments.len(),
    ensures
        0 <= parts_weight(s.segments.take(i)) <= parts_slots(s.segments.take(i)),
    decreases i,
{
    if i > 0 {
        lemma_parts_prefix(s, i - 1);
        let t = s.segments.take(i);
        assert(t.drop_last() =~= s.segments.take(i - 1));
        assert(t.last() == s.segments[i - 1]);
        assert(s.segments[i - 1].weight() >= 0);
        lemma_unset(s.segments[i - 1].index.deleted);
    }
}

pub proof fn lemma_queue_weight(s: Store, i: int)
    requires
        s.formed(),
        0 <= i <= s.sealing.len(),
    ensures
        0 <= queue_weight(s.sealing.take(i)) <= queue_slots(s.sealing.take(i)),
        queue_slots(s.sealing.take(i)) <= queue_slots(s.sealing),
    decreases s.sealing.len() - i,
{
    lemma_queue_prefix(s, i);
    if i < s.sealing.len() {
        lemma_queue_weight(s, i + 1);
        let t = s.sealing.take(i + 1);
        assert(t.drop_last() =~= s.sealing.take(i));
        assert(t.last() == s.sealing[i]);
    } else {
        assert(s.sealing.take(i) =~= s.sealing);
    }
}

proof fn lemma_queue_prefix(s: Store, i: int)
    requires
        s.formed(),
        0 <= i <= s.sealing.len(),
    ensures
        0 <= queue_weight(s.sealing.take(i)) <= queue_slots(s.sealing.take(i)),
    decreases i,
{
    if i > 0 {
        lemma_queue_prefix(s, i - 1);
        let t = s.sealing.take(i);
        assert(t.drop_last() =~= s.sealing.take(i - 1));
        assert(t.last() == s.sealing[i - 1]);
        assert(s.queued_fits(s.sealing[i - 1]));
        lemma_queued_weight(s.sealing[i - 1]);
    }
}

/// There are no more records than slots.
pub proof fn lemma_size(s: Store)
    requires
        s.formed(),
        s.countable(),
    ensures
        0 <= s.size() <= s.slots(),
{
    lemma_parts_weight(s, s.segments.len() as int);
    lemma_queue_weight(s, s.sealing.len() as int);
    assert(s.segments.take(s.segments.len() as int) =~= s.segments);
    assert(s.sealing.take(s.sealing.len() as int) =~= s.sealing);
}

/// Appends results.
fn append(all: &mut Vec<SearchResult>, more: &Vec<SearchResult>)
    ensures
        final(all)@ == old(all)@ + more@,
{
    let ghost before = all@;
    let mut i: usize = 0;
    assert(before =~= before + more@.take(0));
    while i < more.len()
        invariant
            i <= more@.len(),
            all@ == before + more@.take(i as int),
        decreases more@.len() - i,
    {
        all.push(more[i]);
        i = i + 1;
        assert(all@ =~= before + more@.take(i as int));
    }
    assert(more@.take(i as int) =~= more@);
}

/// Appends the results whose id is not dead.
fn append_alive(all: &mut Vec<SearchResult>, more: &Vec<SearchResult>, dead: &Vec<VectorId>)
    requires
        ascending(dead@),
    ensures
        final(all)@ == old(all)@ + passing(more@, alive(dead@)),
{
    let ghost before = all@;
    let ghost p = alive(dead@);
    let mut i: usize = 0;
    assert(passing(more@.take(0), p) =~= Seq::empty());
    while i < more.len()
        invariant
            ascending(dead@),
            p == alive(dead@),
            i <= more@.len(),
            all@ =~= before + passing(more@.take(i as int), p),
        decreases more@.len() - i,
    {
        proof {
            assert(more@.take(i + 1).drop_last() =~= more@.take(i as int));
            assert(more@.take(i + 1).last() == more@[i as int]);
        }
        if !posting_contains(dead, more[i].id) {
            all.push(more[i]);
        }
        i = i + 1;
    }
    assert(more@.take(i as int) =~= more@);
}

/// Appends the results whose id is not dead and whose record passes.
fn append_accepted(
    all: &mut Vec<SearchResult>,
    more: &Vec<SearchResult>,
    dead: &Vec<VectorId>,
    filter: &Filter,
    store: &MetaStore,
)
    requires
        ascending(dead@),
        store.wf(),
    ensures
        final(all)@ == old(all)@ + passing(more@, alive_and_accepted(dead@, filter@, store@)),
{
    let ghost before = all@;
    let ghost p = alive_and_accepted(dead@, filter@, store@);
    let mut i: usize = 0;
    assert(passing(more@.take(0), p) =~= Seq::empty());
    while i < more.len()
        invariant
            ascending(dead@),
            store.wf(),
            p == alive_and_accepted(dead@, filter@, store@),
            i <= more@.len(),
            all@ =~= before + passing(more@.take(i as int), p),
        decreases more@.len() - i,
    {
        proof {
            assert(more@.take(i + 1).drop_last() =~= more@.take(i as int));
            assert(more@.take(i + 1).last() == more@[i as int]);
        }
        if !posting_contains(dead, more[i].id) && filter.matches_id(store, more[i].id) {
            all.push(more[i]);
        }
        i = i + 1;
    }
    assert(more@.take(i as int) =~= more@);
}

/// One ranking of the results, each id once.
pub fn merge(all: &Vec<SearchResult>) -> (out: Vec<SearchResult>)
    ensures
        out@ == merged(all@),
{
    broadcast use vstd::std_specs::hash::group_hash_axioms;

    let s: Vec<SearchResult> = sort(all);
    let mut out: Vec<SearchResult> = Vec::new();
    let mut seen: HashSet<u64> = HashSet::new();
    let mut i: usize = 0;
    assert(distinct(s@.take(0)) =~= Seq::empty());
    while i < s.len()
        invariant
            i <= s@.len(),
            out@ == distinct(s@.take(i as int)),
            forall|id: VectorId| #[trigger] mentions(out@, id) <==> seen@.contains(id.0),
        decreases s@.len() - i,
    {
        proof {
            assert(s@.take(i + 1).drop_last() =~= s@.take(i as int));
            assert(s@.take(i + 1).last() == s@[i as int]);
        }
        let r = s[i];
        let ghost before = out@;
        let ghost old_seen = seen@;
        assert(mentions(out@, r.id) <==> seen@.contains(r.id.0));
        if seen.insert(r.id.0) {
            out.push(r);
            assert forall|id: VectorId| #[trigger] mentions(out@, id) <==> seen@.contains(
                id.0,
            ) by {
                assert(mentions(before, id) <==> old_seen.contains(id.0));
                if mentions(before, id) {
                    let j = choose|j: int| 0 <= j < before.len() && (#[trigger] before[j]).id == id;
                    assert(out@[j].id == id);
                }
                if mentions(out@, id) && !mentions(before, id) {
                    let j = choose|j: int| 0 <= j < out@.len() && (#[trigger] out@[j]).id == id;
                    if j < before.len() {
                        assert(before[j].id == id);
                    }
                }
                if id.0 == r.id.0 {
                    assert(id == r.id);
                    assert(out@[before.len() as int].id == id);
                }
            }
        }
        i = i + 1;
    }
    assert(s@.take(i as int) =~= s@);
    out
}

impl SegmentedIndex {
    /// Can the records be counted: does no segment list more dead than it holds?
    pub fn is_countable<N: Numerics>(&self, num: &N) -> (b: bool)
        requires
            self.wf(model(num)),
        ensures
            b == self@.countable(),
    {
        let mut i: usize = 0;
        while i < self.segments.len()
            invariant
                self.wf(model(num)),
                i <= self.segments@.len(),
                forall|j: int| 0 <= j < i ==> (#[trigger] self@.segments[j]).weight() >= 0,
            decreases self.segments@.len() - i,
        {
            let s: &Segment = &self.segments[i];
            assert(self@.segments[i as int] == s@);
            if s.index.len() < s.tombstones.len() {
                assert(self@.segments[i as int].weight() < 0);
                return false;
            }
            i = i + 1;
        }
        true
    }

    /// How many records there are: of a segment, as many as its graph holds, less
    /// as many as are listed as dead.
    pub fn len_shared<N: Numerics>(&self, num: &N) -> (n: usize)
        requires
            self.wf(model(num)),
            self@.countable(),
        ensures
            n == self@.size(),
    {
        let ghost st = self@;
        let mut n: usize = 0;
        let mut i: usize = 0;
        while i < self.segments.len()
            invariant
                self.wf(model(num)),
                st.countable(),
                st == self@,
                i <= self.segments@.len(),
                n == parts_weight(st.segments.take(i as int)),
            decreases self.segments@.len() - i,
        {
            let s: &Segment = &self.segments[i];
            proof {
                assert(st.part_formed(st.segments[i as int]));
                assert(st.segments[i as int].weight() >= 0);
                lemma_parts_weight(st, i + 1);
                assert(st.segments.take(i + 1).drop_last() =~= st.segments.take(i as int));
                assert(st.segments.take(i + 1).last() == st.segments[i as int]);
                lemma_queue_weight(st, st.sealing.len() as int);
                assert(st.sealing.take(st.sealing.len() as int) =~= st.sealing);
            }
            n = n + (s.index.len() - s.tombstones.len());
            i = i + 1;
        }
        assert(st.segments.take(i as int) =~= st.segments);
        proof {
            lemma_parts_weight(st, i as int);
        }
        let mut i: usize = 0;
        while i < self.sealing.len()
            invariant
                self.wf(model(num)),
                st.countable(),
                st == self@,
                i <= self.sealing@.len(),
                n == parts_weight(st.segments) + queue_weight(st.sealing.take(i as int)),
                parts_weight(st.segments) <= parts_slots(st.segments),
            decreases self.sealing@.len() - i,
        {
            let s: &Sealing = &self.sealing[i];
            proof {
                assert(st.queued_fits(st.sealing[i as int]));
                lemma_queued_weight(st.sealing[i as int]);
                lemma_queue_weight(st, i + 1);
                assert(st.sealing.take(i + 1).drop_last() =~= st.sealing.take(i as int));
                assert(st.sealing.take(i + 1).last() == st.sealing[i as int]);
            }
            n = n + (s.data.len() - s.tombstones.len());
            i = i + 1;
        }
        assert(st.sealing.take(i as int) =~= st.sealing);
        proof {
            lemma_size(st);
        }
        n + self.buffer.len()
    }

    /// The nearest records.
    pub fn search_shared<N: Numerics>(&self, num: &N, query: &[u32], k: usize) -> (out: Vec<
        SearchResult,
    >)
        requires
            functional(num),
            self.wf(model(num)),
        ensures
            out@ == self@.found(
                model(num),
                query@,
                k as nat,
                self@.params.ef_search as nat,
            ),
    {
        self.search_shared_with_ef(num, query, k, self.hnsw_params.ef_search)
    }

    /// The nearest records, with the given search width.
    pub fn search_shared_with_ef<N: Numerics>(
        &self,
        num: &N,
        query: &[u32],
        k: usize,
        ef: usize,
    ) -> (out: Vec<SearchResult>)
        requires
            functional(num),
            self.wf(model(num)),
        ensures
            out@ == self@.found(model(num), query@, k as nat, ef as nat),
            takes_in_every_segment(self@, model(num), query@, k as nat, ef as nat, out@),
    {
        proof {
            if self@.valid() && self@.coherent() && k > 0 {
                assert forall|i: int|
                    0 <= i < self@.segments.len() && (
                    #[trigger] self@.segments[i]).index.entry is Some implies exists|
                    entry: usize,
                    seen: Set<usize>,
                | #[trigger]
                    segment_answer(
                        self@,
                        model(num),
                        query@,
                        k as nat,
                        ef as nat,
                        i,
                        self@.found(model(num), query@, k as nat, ef as nat),
                        entry,
                        seen,
                    ) by {
                    search_takes_in_every_segment(
                        self@,
                        model(num),
                        query@,
                        k as nat,
                        ef as nat,
                        i,
                    );
                }
            }
        }
        if k == 0 {
            return Vec::new();
        }
        let ghost g = model(num);
        let ghost st = self@;
        let mut all: Vec<SearchResult> = Vec::new();
        let mut i: usize = 0;
        while i < self.segments.len()
            invariant
                functional(num),
                g == model(num),
                self.wf(g),
                st == self@,
                i <= self.segments@.len(),
                all@ =~= parts_found(st.segments.take(i as int), g, query@, k as nat, ef as nat),
            decreases self.segments@.len() - i,
        {
            let s: &Segment = &self.segments[i];
            proof {
                assert(st.part_formed(st.segments[i as int]));
                assert(st.segments.take(i + 1).drop_last() =~= st.segments.take(i as int));
                assert(st.segments.take(i + 1).last() == st.segments[i as int]);
            }
            let n: usize = s.tombstones.len();
            let want: usize = k.saturating_add(n);
            let width: usize = if ef >= want { ef } else { want };
            let res: Vec<SearchResult> = s.index.search_with_ef(num, query, want, width);
            append_alive(&mut all, &res, &s.tombstones);
            i = i + 1;
        }
        assert(st.segments.take(i as int) =~= st.segments);
        let ghost first = all@;
        let mut i: usize = 0;
        while i < self.sealing.len()
            invariant
                functional(num),
                g == model(num),
                self.wf(g),
                st == self@,
                i <= self.sealing@.len(),
                all@ =~= first + queue_found(st.sealing.take(i as int), g, query@, k as nat),
            decreases self.sealing@.len() - i,
        {
            let s: &Sealing = &self.sealing[i];
            proof {
                assert(st.queued_fits(st.sealing[i as int]));
                assert(st.sealing.take(i + 1).drop_last() =~= st.sealing.take(i as int));
                assert(st.sealing.take(i + 1).last() == st.sealing[i as int]);
            }
            let n: usize = s.tombstones.len();
            let want: usize = k.saturating_add(n);
            let res: Vec<SearchResult> = s.data.search(num, query, want);
            append_alive(&mut all, &res, &s.tombstones);
            i = i + 1;
        }
        assert(st.sealing.take(i as int) =~= st.sealing);
        append(&mut all, &self.buffer.search(num, query, k));
        let mut out: Vec<SearchResult> = merge(&all);
        if out.len() > k {
            out.truncate(k);
        }
        out
    }
}

impl SegmentedIndex {
    /// The vector of a record, from the newest place where it lives.
    fn vector_of<N: Numerics>(&self, num: &N, id: VectorId) -> (r: Option<&Vec<u32>>)
        requires
            self.wf(model(num)),
        ensures
            match r {
                Some(v) => self@.vector(id) == Some(v@),
                None => self@.vector(id) is None,
            },
    {
        let ghost st = self@;
        if let Some(v) = self.buffer.vector_of(id) {
            return Some(v);
        }
        let mut i: usize = self.sealing.len();
        assert(st.sealing.take(i as int) =~= st.sealing);
        while i > 0
            invariant
                self.wf(model(num)),
                st == self@,
                !st.buffer.contains(id),
                i <= self.sealing@.len(),
                newest_queued(st.sealing, id) == newest_queued(st.sealing.take(i as int), id),
            decreases i,
        {
            i = i - 1;
            let s: &Sealing = &self.sealing[i];
            proof {
                assert(st.queued_fits(st.sealing[i as int]));
                assert(st.sealing.take(i + 1).last() == st.sealing[i as int]);
                assert(st.sealing.take(i + 1).drop_last() =~= st.sealing.take(i as int));
            }
            if let Some(v) = s.data.vector_of(id) {
                if !posting_contains(&s.tombstones, id) {
                    return Some(v);
                }
            }
        }
        let mut i: usize = self.segments.len();
        assert(st.segments.take(i as int) =~= st.segments);
        while i > 0
            invariant
                self.wf(model(num)),
                st == self@,
                !st.buffer.contains(id),
                newest_queued(st.sealing, id) is None,
                i <= self.segments@.len(),
                newest_part(st.segments, id) == newest_part(st.segments.take(i as int), id),
            decreases i,
        {
            i = i - 1;
            let s: &Segment = &self.segments[i];
            proof {
                assert(st.part_formed(st.segments[i as int]));
                assert(st.segments.take(i + 1).last() == st.segments[i as int]);
                assert(st.segments.take(i + 1).drop_last() =~= st.segments.take(i as int));
            }
            if let Some(v) = s.index.vector_of(id) {
                if !posting_contains(&s.tombstones, id) {
                    return Some(v);
                }
            }
        }
        None
    }

    /// Compares the candidates that live and pass the filter with the query. The
    /// result is exact; no graph is searched.
    fn scan_candidates<N: Numerics>(
        &self,
        num: &N,
        query: &[u32],
        k: usize,
        candidates: &Vec<VectorId>,
        filter: &Filter,
    ) -> (out: Vec<SearchResult>)
        requires
            functional(num),
            self.wf(model(num)),
        ensures
            out@ == self@.scan(model(num), query@, k as nat, candidates@, filter@),
    {
        let ghost g = model(num);
        let ghost st = self@;
        let v: Vec<u32> = prepare(num, self.metric, query);
        let mut best: Vec<SearchResult> = Vec::new();
        let mut i: usize = 0;
        proof {
            assert(smallest(Seq::<SearchResult>::empty(), k as nat) =~= Seq::empty());
            assert(st.scanned(g, v@, candidates@.take(0), filter@) =~= Seq::empty());
        }
        while i < candidates.len()
            invariant
                functional(num),
                g == model(num),
                self.wf(g),
                st == self@,
                i <= candidates@.len(),
                sorted(best@),
                best@ == smallest(
                    st.scanned(g, v@, candidates@.take(i as int), filter@),
                    k as nat,
                ),
            decreases candidates@.len() - i,
        {
            let id = candidates[i];
            let ghost before = st.scanned(g, v@, candidates@.take(i as int), filter@);
            proof {
                assert(candidates@.take(i + 1).drop_last() =~= candidates@.take(i as int));
                assert(candidates@.take(i + 1).last() == id);
            }
            if filter.matches_id(&self.catalog.metadata, id) {
                if let Some(w) = self.vector_of(num, id) {
                    let d: u32 = distance(num, self.metric, v.as_slice(), w.as_slice());
                    let r = SearchResult::new(id, d);
                    proof {
                        lemma_kept(before, r, k as nat);
                    }
                    keep_smallest(&mut best, r, k);
                }
            }
            i = i + 1;
        }
        assert(candidates@.take(i as int) =~= candidates@);
        best
    }

    /// The number of records, at least one.
    fn counted<N: Numerics>(&self, num: &N) -> (n: usize)
        requires
            self.wf(model(num)),
            self@.countable(),
        ensures
            n == self@.counted(),
    {
        let n: usize = self.len_shared(num);
        if n >= 1 {
            n
        } else {
            1
        }
    }

    /// Decides how to carry out a filtered search.
    pub fn plan<N: Numerics>(&self, num: &N, filter: &Filter, k: usize) -> (arm: Arm)
        requires
            functional(num),
            self.wf(model(num)),
            self@.countable(),
            16 * k <= usize::MAX,
        ensures
            arm@ == planned(
                self@.records,
                model(num),
                filter@,
                usual(),
                k as nat,
                self@.counted(),
            ),
    {
        let n: usize = self.counted(num);
        self.catalog.plan(num, filter, &self.planner, k, n)
    }

    /// The name of the plan for a filtered search.
    pub fn debug_plan_arm<N: Numerics>(&self, num: &N, filter: &Filter, k: usize) -> (s:
        &'static str)
        requires
            functional(num),
            self.wf(model(num)),
            self@.countable(),
            16 * k <= usize::MAX,
        ensures
            s@ == planned(
                self@.records,
                model(num),
                filter@,
                usual(),
                k as nat,
                self@.counted(),
            ).label(),
    {
        self.plan(num, filter, k).label()
    }

    /// How many records a range of a numeric field can match: a lower and an
    /// upper bound.
    pub fn debug_range_estimate<N: Numerics>(&self, num: &N, key: &str, lo: u64, hi: u64) -> (r: (
        usize,
        usize,
    ))
        requires
            functional(num),
            self.wf(model(num)),
        ensures
            (r.0 as nat, r.1 as nat) == (match number_index(self@.records.numbers, key@) {
                Some(n) => n.estimated(model(num), lo, hi),
                None => (0nat, 0nat),
            }),
    {
        match self.catalog.find_number(key) {
            Some(p) => {
                proof {
                    assert(self@.records.numbers[p as int].0 == key@);
                    assert(crate::catalog::names_apart(self@.records.numbers));
                    crate::catalog::lemma_number_index_at(self@.records.numbers, p as int);
                    assert(self.catalog.numeric@[p as int].1.wf(model(num)));
                }
                self.catalog.numeric[p].1.estimate(num, lo, hi)
            },
            None => (0, 0),
        }
    }

    /// Every id that could pass, from where the plan says.
    fn fallback_candidates<N: Numerics>(&self, num: &N, fallback: FallbackSource) -> (ids: Vec<
        VectorId,
    >)
        requires
            self.wf(model(num)),
        ensures
            ids@ == self@.candidates(fallback@),
    {
        match fallback {
            FallbackSource::Ids(ids) => ids,
            FallbackSource::Range { key, lo, hi } => match self.catalog.find_number(key.as_str()) {
                Some(p) => {
                    proof {
                        assert(self@.records.numbers[p as int].0 == key@);
                        assert(crate::catalog::names_apart(self@.records.numbers));
                        crate::catalog::lemma_number_index_at(self@.records.numbers, p as int);
                        assert(self.catalog.numeric@[p as int].1.wf(model(num)));
                    }
                    self.catalog.numeric[p].1.enumerate_all(lo, hi)
                },
                None => {
                    let none: Vec<VectorId> = Vec::new();
                    assert(none@ =~= Seq::empty());
                    none
                },
            },
        }
    }

    /// Appends what the queued buffers and the write buffer answer to a filtered
    /// search.
    fn append_buffers<N: Numerics>(
        &self,
        num: &N,
        query: &[u32],
        k: usize,
        filter: &Filter,
        all: &mut Vec<SearchResult>,
    )
        requires
            functional(num),
            self.wf(model(num)),
        ensures
            final(all)@ == old(all)@ + queue_filtered(
                self@.sealing,
                model(num),
                query@,
                k as nat,
                filter@,
                self@.records.meta,
            ) + self@.buffer.filtered(
                model(num),
                query@,
                k as nat,
                accepted(filter@, self@.records.meta),
            ),
    {
        let ghost g = model(num);
        let ghost st = self@;
        let ghost meta = st.records.meta;
        let ghost first = all@;
        let store: &MetaStore = &self.catalog.metadata;
        let mut i: usize = 0;
        while i < self.sealing.len()
            invariant
                functional(num),
                g == model(num),
                self.wf(g),
                st == self@,
                meta == st.records.meta,
                meta == store@,
                store.wf(),
                i <= self.sealing@.len(),
                all@ =~= first + queue_filtered(
                    st.sealing.take(i as int),
                    g,
                    query@,
                    k as nat,
                    filter@,
                    meta,
                ),
            decreases self.sealing@.len() - i,
        {
            let s: &Sealing = &self.sealing[i];
            proof {
                assert(st.queued_fits(st.sealing[i as int]));
                assert(st.sealing.take(i + 1).drop_last() =~= st.sealing.take(i as int));
                assert(st.sealing.take(i + 1).last() == st.sealing[i as int]);
            }
            let dead: &Vec<VectorId> = &s.tombstones;
            let allow = |id: VectorId| -> (b: bool)
                requires
                    ascending(dead@),
                    store.wf(),
                ensures
                    b == (!dead@.contains(id) && passes_id(filter@, store@, id)),
                { !posting_contains(dead, id) && filter.matches_id(store, id) };
            let res: Vec<SearchResult> = s.data.search_filtered_as(
                num,
                query,
                k,
                &allow,
                Ghost(alive_and_accepted(dead@, filter@, store@)),
            );
            append(all, &res);
            i = i + 1;
        }
        assert(st.sealing.take(i as int) =~= st.sealing);
        let allow = |id: VectorId| -> (b: bool)
            requires
                store.wf(),
            ensures
                b == passes_id(filter@, store@, id),
            { filter.matches_id(store, id) };
        let res: Vec<SearchResult> = self.buffer.search_filtered_as(
            num,
            query,
            k,
            &allow,
            Ghost(accepted(filter@, store@)),
        );
        append(all, &res);
    }

    /// Searches the graphs without the filter for more results than asked, and
    /// filters those; falls back to a scan where too few are left.
    fn search_post<N: Numerics>(
        &self,
        num: &N,
        query: &[u32],
        k: usize,
        filter: &Filter,
        upper: usize,
        fallback: FallbackSource,
    ) -> (out: Vec<SearchResult>)
        requires
            functional(num),
            self.wf(model(num)),
            self@.countable(),
            4 * k <= usize::MAX,
            8 * self.hnsw_params.ef_search <= usize::MAX,
        ensures
            out@ == ({
                let all = merged(
                    parts_over(
                        self@.segments,
                        model(num),
                        query@,
                        self@.width(model(num), k as nat, upper as nat),
                        filter@,
                        self@.records.meta,
                    ) + queue_filtered(
                        self@.sealing,
                        model(num),
                        query@,
                        k as nat,
                        filter@,
                        self@.records.meta,
                    ) + self@.buffer.filtered(
                        model(num),
                        query@,
                        k as nat,
                        accepted(filter@, self@.records.meta),
                    ),
                );
                if all.len() < 2 * k {
                    self@.scan(
                        model(num),
                        query@,
                        k as nat,
                        self@.candidates(fallback@),
                        filter@,
                    )
                } else {
                    first_k(all, k as nat)
                }
            }),
    {
        let ghost g = model(num);
        let ghost st = self@;
        let ghost meta = st.records.meta;
        let ef: usize = self.hnsw_params.ef_search;
        let low: usize = if ef >= 2 * k { ef } else { 2 * k };
        let high: usize = if 8 * ef >= 4 * k { 8 * ef } else { 4 * k };
        let n: usize = self.counted(num);
        let w: usize = numerics::overfetch(num, self.planner.overfetch_beta, k, upper, n);
        let width: usize = if w < low {
            low
        } else if w > high {
            high
        } else {
            w
        };
        let store: &MetaStore = &self.catalog.metadata;
        let mut all: Vec<SearchResult> = Vec::new();
        let mut i: usize = 0;
        while i < self.segments.len()
            invariant
                functional(num),
                g == model(num),
                self.wf(g),
                st == self@,
                meta == st.records.meta,
                meta == store@,
                store.wf(),
                i <= self.segments@.len(),
                all@ =~= parts_over(
                    st.segments.take(i as int),
                    g,
                    query@,
                    width as nat,
                    filter@,
                    meta,
                ),
            decreases self.segments@.len() - i,
        {
            let s: &Segment = &self.segments[i];
            proof {
                assert(st.part_formed(st.segments[i as int]));
                assert(st.segments.take(i + 1).drop_last() =~= st.segments.take(i as int));
                assert(st.segments.take(i + 1).last() == st.segments[i as int]);
            }
            let res: Vec<SearchResult> = s.index.search_with_ef(num, query, width, width);
            append_accepted(&mut all, &res, &s.tombstones, filter, store);
            i = i + 1;
        }
        assert(st.segments.take(i as int) =~= st.segments);
        self.append_buffers(num, query, k, filter, &mut all);
        let mut out: Vec<SearchResult> = merge(&all);
        if out.len() < 2 * k {
            let candidates: Vec<VectorId> = self.fallback_candidates(num, fallback);
            return self.scan_candidates(num, query, k, &candidates, filter);
        }
        if out.len() > k {
            out.truncate(k);
        }
        out
    }

    /// Applies the filter during the search of the graphs.
    fn search_legacy<N: Numerics>(&self, num: &N, query: &[u32], k: usize, filter: &Filter) -> (out:
        Vec<SearchResult>)
        requires
            functional(num),
            self.wf(model(num)),
        ensures
            out@ == first_k(
                merged(
                    parts_filtered(
                        self@.segments,
                        model(num),
                        query@,
                        k as nat,
                        self@.params.ef_search as nat,
                        filter@,
                        self@.records.meta,
                    ) + queue_filtered(
                        self@.sealing,
                        model(num),
                        query@,
                        k as nat,
                        filter@,
                        self@.records.meta,
                    ) + self@.buffer.filtered(
                        model(num),
                        query@,
                        k as nat,
                        accepted(filter@, self@.records.meta),
                    ),
                ),
                k as nat,
            ),
    {
        let ghost g = model(num);
        let ghost st = self@;
        let ghost meta = st.records.meta;
        let ef: usize = self.hnsw_params.ef_search;
        let store: &MetaStore = &self.catalog.metadata;
        let mut all: Vec<SearchResult> = Vec::new();
        let mut i: usize = 0;
        while i < self.segments.len()
            invariant
                functional(num),
                g == model(num),
                self.wf(g),
                st == self@,
                meta == st.records.meta,
                meta == store@,
                store.wf(),
                i <= self.segments@.len(),
                all@ =~= parts_filtered(
                    st.segments.take(i as int),
                    g,
                    query@,
                    k as nat,
                    ef as nat,
                    filter@,
                    meta,
                ),
            decreases self.segments@.len() - i,
        {
            let s: &Segment = &self.segments[i];
            proof {
                assert(st.part_formed(st.segments[i as int]));
                assert(st.segments.take(i + 1).drop_last() =~= st.segments.take(i as int));
                assert(st.segments.take(i + 1).last() == st.segments[i as int]);
            }
            let dead: &Vec<VectorId> = &s.tombstones;
            let allow = |id: VectorId| -> (b: bool)
                requires
                    ascending(dead@),
                    store.wf(),
                ensures
                    b == (!dead@.contains(id) && passes_id(filter@, store@, id)),
                { !posting_contains(dead, id) && filter.matches_id(store, id) };
            let n: usize = dead.len();
            let want: usize = k.saturating_add(if n <= k { n } else { k });
            let width: usize = if ef >= want { ef } else { want };
            let res: Vec<SearchResult> = s.index.search_filtered_as(
                num,
                query,
                want,
                width,
                &allow,
                None,
                Ghost(alive_and_accepted(dead@, filter@, store@)),
            ).0;
            append(&mut all, &res);
            i = i + 1;
        }
        assert(st.segments.take(i as int) =~= st.segments);
        self.append_buffers(num, query, k, filter, &mut all);
        let mut out: Vec<SearchResult> = merge(&all);
        if out.len() > k {
            out.truncate(k);
        }
        out
    }

    /// The nearest records that pass a filter.
    pub fn search_filtered<N: Numerics>(&self, num: &N, query: &[u32], k: usize, filter: &Filter) -> (
    out: Vec<SearchResult>)
        requires
            functional(num),
            self.wf(model(num)),
            self@.countable(),
            16 * k <= usize::MAX,
            8 * self.hnsw_params.ef_search <= usize::MAX,
        ensures
            out@ == self@.filtered(model(num), query@, k as nat, filter@),
    {
        if filter.must.len() == 0 {
            return self.search_shared(num, query, k);
        }
        if k == 0 {
            return Vec::new();
        }
        let n: usize = self.counted(num);
        if filter.must.len() == 1 && filter.must[0].asks_for_a_value() {
            if let Some(ids) = self.catalog.estimate(num, filter) {
                if ids.len() >= n {
                    return self.search_shared(num, query, k);
                }
            }
        }
        match self.plan(num, filter, k) {
            Arm::Empty => Vec::new(),
            Arm::Scan(candidates) => self.scan_candidates(num, query, k, &candidates, filter),
            Arm::Post { upper, fallback } => self.search_post(
                num,
                query,
                k,
                filter,
                upper,
                fallback,
            ),
            Arm::Legacy => self.search_legacy(num, query, k, filter),
        }
    }
}

} // verus!
