//! The brute-force index: an exact linear scan.
//!
//! The reference for every other index, and the write buffer of the segmented
//! one.

use std::collections::HashMap;
use vstd::prelude::*;
use crate::distance::Metric;
use crate::error::IndexError;
use crate::hnsw::{decides, entries_view, judges, vectors_view, verdict};
use crate::nearness_laws::{exact_answer, filtered_scan_is_exact, scan_finds_the_nearest};
use crate::numerics::{distance, functional, model, prepare, prepared, Model, Numerics};
use crate::rank::{
    keep_smallest, lemma_kept, lemma_ranked, lemma_smallest, selection_from_parts_is_exact, smallest,
    sorted,
};
use crate::segmented_search_laws::anything;
use crate::types::{SearchResult, VectorId};

verus! {

/// The contents of a brute-force index: ids and their vectors, slot by slot.
pub ghost struct Brute {
    pub metric: Metric,
    pub dim: nat,
    pub ids: Seq<VectorId>,
    pub vectors: Seq<Seq<u32>>,
}

impl Brute {
    pub open spec fn empty(dim: nat, metric: Metric) -> Brute {
        Brute { metric, dim, ids: Seq::empty(), vectors: Seq::empty() }
    }

    /// Every id has a vector of the right dimension, and no id occurs twice.
    pub open spec fn valid(self) -> bool {
        &&& self.vectors.len() == self.ids.len()
        &&& forall|s: int|
            0 <= s < self.vectors.len() ==> (#[trigger] self.vectors[s]).len() == self.dim
        &&& self.ids.no_duplicates()
    }

    pub open spec fn contains(self, id: VectorId) -> bool {
        self.ids.contains(id)
    }

    /// The slot of an id.
    pub open spec fn slot(self, id: VectorId) -> int {
        choose|s: int| 0 <= s < self.ids.len() && (#[trigger] self.ids[s]) == id
    }

    /// The vector of an id.
    pub open spec fn vector(self, id: VectorId) -> Option<Seq<u32>> {
        if self.contains(id) {
            Some(self.vectors[self.slot(id)])
        } else {
            None
        }
    }

    pub open spec fn inserted(self, g: Model, id: VectorId, v: Seq<u32>) -> Brute {
        Brute {
            ids: self.ids.push(id),
            vectors: self.vectors.push(prepared(g, self.metric, v)),
            ..self
        }
    }

    /// The index without an id: the last slot takes the place of the one that
    /// went.
    pub open spec fn removed(self, id: VectorId) -> Brute {
        let s = self.slot(id);
        Brute {
            ids: self.ids.update(s, self.ids.last()).drop_last(),
            vectors: self.vectors.update(s, self.vectors.last()).drop_last(),
            ..self
        }
    }

    /// The result that a slot gives for a prepared query.
    pub open spec fn result(self, g: Model, query: Seq<u32>, s: int) -> SearchResult {
        SearchResult {
            id: self.ids[s],
            distance: (g.distance)(self.metric, query, self.vectors[s]),
        }
    }

    /// The results of a range of slots.
    pub open spec fn results(self, g: Model, query: Seq<u32>, lo: int, hi: int) -> Seq<
        SearchResult,
    > {
        Seq::new((hi - lo) as nat, |i: int| self.result(g, query, lo + i))
    }

    /// The results of the first `n` slots whose id passes the filter.
    pub open spec fn passing(
        self,
        g: Model,
        query: Seq<u32>,
        allow: spec_fn(VectorId) -> bool,
        n: int,
    ) -> Seq<SearchResult>
        decreases n,
    {
        if n <= 0 {
            Seq::empty()
        } else if allow(self.ids[n - 1]) {
            self.passing(g, query, allow, n - 1).push(self.result(g, query, n - 1))
        } else {
            self.passing(g, query, allow, n - 1)
        }
    }

    /// What a search returns: the `k` nearest.
    pub open spec fn found(self, g: Model, query: Seq<u32>, k: nat) -> Seq<SearchResult> {
        let v = prepared(g, self.metric, query);
        smallest(self.results(g, v, 0, self.ids.len() as int), k)
    }

    /// What a filtered search returns: the `k` nearest that pass.
    pub open spec fn filtered(
        self,
        g: Model,
        query: Seq<u32>,
        k: nat,
        allow: spec_fn(VectorId) -> bool,
    ) -> Seq<SearchResult> {
        let v = prepared(g, self.metric, query);
        smallest(self.passing(g, v, allow, self.ids.len() as int), k)
    }

    /// The ids with their vectors.
    pub open spec fn entries(self) -> Seq<(VectorId, Seq<u32>)> {
        Seq::new(self.ids.len(), |s: int| (self.ids[s], self.vectors[s]))
    }
}

pub struct BruteForceIndex {
    pub metric: Metric,
    pub dim: usize,
    pub vectors: Vec<Vec<u32>>,
    pub ids: Vec<VectorId>,
    pub slot_of: HashMap<u64, usize>,
}

impl View for BruteForceIndex {
    type V = Brute;

    open spec fn view(&self) -> Brute {
        Brute {
            metric: self.metric,
            dim: self.dim as nat,
            ids: self.ids@,
            vectors: vectors_view(self.vectors@),
        }
    }
}

/// A map from ids to their slots.
pub open spec fn maps_slots(m: Map<u64, usize>, ids: Seq<VectorId>) -> bool {
    &&& forall|id: u64| #[trigger]
        m.contains_key(id) ==> m[id] < ids.len() && ids[m[id] as int].0 == id
    &&& forall|s: int|
        0 <= s < ids.len() ==> m.contains_key((#[trigger] ids[s]).0) && m[ids[s].0] == s
}

impl BruteForceIndex {
    pub open spec fn wf(&self) -> bool {
        &&& self@.valid()
        &&& maps_slots(self.slot_of@, self.ids@)
    }

    proof fn lemma_contains(&self, id: VectorId)
        requires
            self.wf(),
        ensures
            self.slot_of@.contains_key(id.0) <==> self@.contains(id),
            self@.contains(id) ==> self.slot_of@[id.0] == self@.slot(id) && 0 <= self@.slot(id)
                < self.ids@.len() && self.ids@[self@.slot(id)] == id,
    {
        if self.slot_of@.contains_key(id.0) {
            let s = self.slot_of@[id.0] as int;
            assert(self.ids@[s] == id);
        }
        if self@.contains(id) {
            let s = self@.slot(id);
            let t = choose|t: int| 0 <= t < self.ids@.len() && self.ids@[t] == id;
            assert(self.ids@[s] == id);
        }
    }

    pub fn new(dim: usize, metric: Metric) -> (r: Self)
        ensures
            r.wf(),
            r@ == Brute::empty(dim as nat, metric),
    {
        let r = BruteForceIndex {
            metric,
            dim,
            vectors: Vec::new(),
            ids: Vec::new(),
            slot_of: HashMap::new(),
        };
        assert(r@.vectors =~= Seq::empty());
        assert(r@.ids =~= Seq::empty());
        r
    }

    /// An empty index with room for the given number of records, so that a
    /// write buffer does not grow step by step. No more room is asked for than
    /// an allocation can have: in the largest of the three, the hash table, a
    /// record takes less than 64 bytes.
    pub fn with_capacity(dim: usize, metric: Metric, records: usize) -> (r: Self)
        ensures
            r.wf(),
            r@ == Brute::empty(dim as nat, metric),
    {
        let most: usize = usize::MAX / 128;
        let room: usize = if records <= most { records } else { most };
        let r = BruteForceIndex {
            metric,
            dim,
            vectors: Vec::with_capacity(room),
            ids: Vec::with_capacity(room),
            slot_of: HashMap::with_capacity(room),
        };
        assert(r@.vectors =~= Seq::empty());
        assert(r@.ids =~= Seq::empty());
        r
    }

    pub fn dim(&self) -> (d: usize)
        ensures
            d == self@.dim,
    {
        self.dim
    }

    pub fn metric(&self) -> (m: Metric)
        ensures
            m == self@.metric,
    {
        self.metric
    }

    /// Inserts a vector under an id.
    pub fn insert<N: Numerics>(&mut self, num: &N, id: VectorId, vector: &[u32]) -> (r: Result<
        (),
        IndexError,
    >)
        requires
            old(self).wf(),
            functional(num),
        ensures
            final(self).wf(),
            r == (if vector@.len() != old(self)@.dim {
                Err(
                    IndexError::DimensionMismatch {
                        expected: old(self).dim,
                        got: vector@.len() as usize,
                    },
                )
            } else if old(self)@.contains(id) {
                Err(IndexError::DuplicateId(id))
            } else {
                Ok(())
            }),
            final(self)@ == (if r is Ok {
                old(self)@.inserted(model(num), id, vector@)
            } else {
                old(self)@
            }),
            r is Ok ==> forall|x: VectorId| #[trigger]
                final(self)@.contains(x) <==> (old(self)@.contains(x) || x == id),
    {
        broadcast use vstd::std_specs::hash::group_hash_axioms;

        let ghost before = self@;
        if vector.len() != self.dim {
            return Err(
                IndexError::DimensionMismatch { expected: self.dim, got: vector.len() },
            );
        }
        proof {
            self.lemma_contains(id);
        }
        if self.slot_of.contains_key(&id.0) {
            return Err(IndexError::DuplicateId(id));
        }
        let slot: usize = self.ids.len();
        let stored: Vec<u32> = prepare(num, self.metric, vector);
        let ghost old_map = self.slot_of@;
        self.vectors.push(stored);
        self.ids.push(id);
        self.slot_of.insert(id.0, slot);
        proof {
            assert(self@.vectors =~= before.inserted(model(num), id, vector@).vectors);
            assert forall|s: int| 0 <= s < self@.vectors.len() implies (
            #[trigger] self@.vectors[s]).len() == self@.dim by {
                if s < slot {
                    assert(self@.vectors[s] == before.vectors[s]);
                }
            }
            assert(self.ids@.no_duplicates()) by {
                assert forall|i: int, j: int|
                    0 <= i < self.ids@.len() && 0 <= j < self.ids@.len() && i != j implies
                    self.ids@[i] != self.ids@[j] by {
                    if i < slot && j < slot {
                        assert(before.ids[i] != before.ids[j]);
                    } else if i < slot {
                        assert(before.ids.contains(before.ids[i]));
                    } else {
                        assert(before.ids.contains(before.ids[j]));
                    }
                }
            }
            assert forall|x: u64| #[trigger] self.slot_of@.contains_key(x) implies self.slot_of@[x]
                < self.ids@.len() && self.ids@[self.slot_of@[x] as int].0 == x by {
                if x != id.0 {
                    assert(old_map.contains_key(x));
                }
            }
            assert forall|s: int| 0 <= s < self.ids@.len() implies self.slot_of@.contains_key(
                (#[trigger] self.ids@[s]).0,
            ) && self.slot_of@[self.ids@[s].0] == s by {
                if s < slot {
                    assert(self.ids@[s] == before.ids[s]);
                    assert(old_map.contains_key(before.ids[s].0));
                    assert(before.ids.contains(before.ids[s]));
                }
            }
            assert forall|x: VectorId| #[trigger] self@.contains(x) <==> (before.contains(x) || x
                == id) by {
                insertion_adds_exactly_one_id(before, model(num), id, vector@, x);
            }
        }
        Ok(())
    }

    /// The `k` nearest of a range of slots, for a prepared query.
    pub fn scan_range<N: Numerics>(
        &self,
        num: &N,
        query: &Vec<u32>,
        k: usize,
        lo: usize,
        hi: usize,
    ) -> (out: Vec<SearchResult>)
        requires
            self.wf(),
            functional(num),
            lo <= hi <= self@.ids.len(),
        ensures
            out@ == smallest(
                self@.results(model(num), query@, lo as int, hi as int),
                k as nat,
            ),
            sorted(out@),
            out@.len() <= k,
    {
        let ghost g = model(num);
        let mut best: Vec<SearchResult> = Vec::new();
        proof {
            assert(self@.results(g, query@, lo as int, lo as int) =~= Seq::empty());
            assert(smallest(Seq::<SearchResult>::empty(), k as nat) =~= Seq::empty());
        }
        let mut s: usize = lo;
        while s < hi
            invariant
                lo <= s <= hi <= self.ids@.len(),
                self.wf(),
                functional(num),
                g == model(num),
                sorted(best@),
                best@ == smallest(self@.results(g, query@, lo as int, s as int), k as nat),
            decreases hi - s,
        {
            let d: u32 = distance(num, self.metric, query.as_slice(), self.vectors[s].as_slice());
            let r = SearchResult::new(self.ids[s], d);
            proof {
                let before = self@.results(g, query@, lo as int, s as int);
                lemma_kept(before, r, k as nat);
                assert(before.push(r) =~= self@.results(g, query@, lo as int, s + 1));
            }
            keep_smallest(&mut best, r, k);
            s = s + 1;
        }
        proof {
            lemma_ranked(self@.results(g, query@, lo as int, hi as int));
        }
        best
    }

    /// The `k` nearest vectors in ascending order of distance, or all of them
    /// where there are fewer.
    pub fn search<N: Numerics>(&self, num: &N, query: &[u32], k: usize) -> (out: Vec<SearchResult>)
        requires
            self.wf(),
            functional(num),
        ensures
            out@ == self@.found(model(num), query@, k as nat),
            exact_answer(self@, model(num), query@, k as nat, anything(), out@),
    {
        proof {
            scan_finds_the_nearest(self@, model(num), query@, k as nat);
        }
        let v: Vec<u32> = prepare(num, self.metric, query);
        self.scan_range(num, &v, k, 0, self.ids.len())
    }

    /// The `k` nearest vectors whose id passes the filter.
    pub fn search_filtered<N: Numerics, A: Fn(VectorId) -> bool>(
        &self,
        num: &N,
        query: &[u32],
        k: usize,
        allow: &A,
    ) -> (out: Vec<SearchResult>)
        requires
            self.wf(),
            functional(num),
            decides(*allow),
        ensures
            out@ == self@.filtered(model(num), query@, k as nat, verdict(*allow)),
            exact_answer(self@, model(num), query@, k as nat, verdict(*allow), out@),
    {
        self.search_filtered_as(num, query, k, allow, Ghost(verdict(*allow)))
    }

    /// The filtered search, for a filter that answers as `p` does.
    pub fn search_filtered_as<N: Numerics, A: Fn(VectorId) -> bool>(
        &self,
        num: &N,
        query: &[u32],
        k: usize,
        allow: &A,
        Ghost(p): Ghost<spec_fn(VectorId) -> bool>,
    ) -> (out: Vec<SearchResult>)
        requires
            self.wf(),
            functional(num),
            judges(*allow, p),
        ensures
            out@ == self@.filtered(model(num), query@, k as nat, p),
            exact_answer(self@, model(num), query@, k as nat, p, out@),
    {
        let ghost g = model(num);
        proof {
            filtered_scan_is_exact(self@, g, query@, k as nat, p);
        }
        let v: Vec<u32> = prepare(num, self.metric, query);
        let mut best: Vec<SearchResult> = Vec::new();
        proof {
            assert(smallest(Seq::<SearchResult>::empty(), k as nat) =~= Seq::empty());
        }
        let mut s: usize = 0;
        while s < self.ids.len()
            invariant
                s <= self.ids@.len(),
                self.wf(),
                functional(num),
                g == model(num),
                judges(*allow, p),
                sorted(best@),
                best@ == smallest(self@.passing(g, v@, p, s as int), k as nat),
            decreases self.ids@.len() - s,
        {
            if allow(self.ids[s]) {
                let d: u32 = distance(num, self.metric, v.as_slice(), self.vectors[s].as_slice());
                let r = SearchResult::new(self.ids[s], d);
                proof {
                    lemma_kept(self@.passing(g, v@, p, s as int), r, k as nat);
                }
                keep_smallest(&mut best, r, k);
            }
            s = s + 1;
        }
        best
    }

    /// Deletes an id: the last slot takes its place.
    pub fn delete(&mut self, id: VectorId) -> (r: Result<(), IndexError>)
        requires
            old(self).wf(),
        ensures
            final(self).wf(),
            r == (if old(self)@.contains(id) {
                Ok(())
            } else {
                Err(IndexError::NotFound(id))
            }),
            final(self)@ == (if r is Ok {
                old(self)@.removed(id)
            } else {
                old(self)@
            }),
            r is Ok ==> forall|x: VectorId| #[trigger]
                final(self)@.contains(x) <==> (old(self)@.contains(x) && x != id),
    {
        broadcast use vstd::std_specs::hash::group_hash_axioms;

        let ghost b = self@;
        let ghost old_map = self.slot_of@;
        proof {
            self.lemma_contains(id);
        }
        let slot: usize = match self.slot_of.remove(&id.0) {
            None => {
                assert(self.slot_of@ =~= old_map);
                return Err(IndexError::NotFound(id));
            },
            Some(s) => s,
        };
        let last: usize = self.ids.len() - 1;
        let ghost moved = b.ids[last as int];
        if slot != last {
            let other: VectorId = self.ids[last];
            self.slot_of.insert(other.0, slot);
        }
        self.ids.swap_remove(slot);
        self.vectors.swap_remove(slot);
        proof {
            let want = b.removed(id);
            assert(self@.ids =~= want.ids);
            assert(self@.vectors =~= want.vectors);
            assert forall|s: int| 0 <= s < self@.vectors.len() implies (
            #[trigger] self@.vectors[s]).len() == self@.dim by {
                let t = if s == slot { last as int } else { s };
                assert(self@.vectors[s] == b.vectors[t]);
                assert(b.vectors[t].len() == b.dim);
            }
            assert(self.ids@.no_duplicates()) by {
                assert forall|i: int, j: int|
                    0 <= i < self.ids@.len() && 0 <= j < self.ids@.len() && i != j implies
                    self.ids@[i] != self.ids@[j] by {
                    let p = if i == slot { last as int } else { i };
                    let q = if j == slot { last as int } else { j };
                    assert(b.ids[p] != b.ids[q]);
                }
            }
            assert forall|x: u64| #[trigger] self.slot_of@.contains_key(x) implies self.slot_of@[x]
                < self.ids@.len() && self.ids@[self.slot_of@[x] as int].0 == x by {
                if x != moved.0 || slot == last {
                    assert(old_map.contains_key(x));
                    assert(x != id.0);
                    assert(old_map[x] != slot);
                    if old_map[x] == last {
                        assert(b.ids[last as int].0 == x);
                        assert(slot == last);
                    }
                }
            }
            assert forall|s: int| 0 <= s < self.ids@.len() implies self.slot_of@.contains_key(
                (#[trigger] self.ids@[s]).0,
            ) && self.slot_of@[self.ids@[s].0] == s by {
                let t = if s == slot { last as int } else { s };
                assert(self.ids@[s] == b.ids[t]);
                assert(old_map.contains_key(b.ids[t].0));
                assert(b.ids[t] != b.ids[slot as int]);
                if s != slot {
                    assert(b.ids[t] != b.ids[last as int]);
                }
            }
            assert forall|x: VectorId| #[trigger] self@.contains(x) <==> (b.contains(x) && x
                != id) by {
                removal_takes_exactly_one_id(b, id, x);
            }
        }
        Ok(())
    }

    /// Is this id in the index?
    pub fn contains(&self, id: VectorId) -> (b: bool)
        requires
            self.wf(),
        ensures
            b == self@.contains(id),
    {
        broadcast use vstd::std_specs::hash::group_hash_axioms;

        proof {
            self.lemma_contains(id);
        }
        self.slot_of.contains_key(&id.0)
    }

    /// The stored vector of an id.
    pub fn vector_of(&self, id: VectorId) -> (r: Option<&Vec<u32>>)
        requires
            self.wf(),
        ensures
            r is Some <==> self@.contains(id),
            r matches Some(v) ==> v@ == self@.vectors[self@.slot(id)],
    {
        broadcast use vstd::std_specs::hash::group_hash_axioms;

        proof {
            self.lemma_contains(id);
        }
        match self.slot_of.get(&id.0) {
            Some(s) => Some(&self.vectors[*s]),
            None => None,
        }
    }

    /// The ids with their vectors, in slot order.
    pub fn entries(&self) -> (out: Vec<(VectorId, &Vec<u32>)>)
        requires
            self.wf(),
        ensures
            entries_view(out@) == self@.entries(),
    {
        let mut out: Vec<(VectorId, &Vec<u32>)> = Vec::new();
        let mut s: usize = 0;
        while s < self.ids.len()
            invariant
                s <= self.ids@.len(),
                self.wf(),
                entries_view(out@) =~= self@.entries().take(s as int),
            decreases self.ids@.len() - s,
        {
            let ghost before = out@;
            out.push((self.ids[s], &self.vectors[s]));
            assert(entries_view(out@) =~= entries_view(before).push(
                (self.ids@[s as int], self.vectors@[s as int]@),
            ));
            s = s + 1;
        }
        assert(self@.entries().take(s as int) =~= self@.entries());
        out
    }

    pub fn len(&self) -> (n: usize)
        ensures
            n == self@.ids.len(),
    {
        self.ids.len()
    }

    pub fn is_empty(&self) -> (b: bool)
        ensures
            b == (self@.ids.len() == 0),
    {
        self.ids.len() == 0
    }
}

/// A search is exact: it returns `k` results or all there are, in ascending
/// order, and nothing nearer is left out.
pub proof fn search_is_exact(b: Brute, g: Model, query: Seq<u32>, k: nat, s: int)
    requires
        b.valid(),
        0 <= s < b.ids.len(),
    ensures
        ({
            let out = b.found(g, query, k);
            let r = b.result(g, prepared(g, b.metric, query), s);
            &&& out.len() == (if b.ids.len() < k {
                b.ids.len()
            } else {
                k
            })
            &&& sorted(out)
            &&& out.contains(r) || (out.len() == k && (k > 0 ==> crate::rank::Ranked::key(
                out.last(),
            ) <= crate::rank::Ranked::key(r)))
        }),
{
    let v = prepared(g, b.metric, query);
    let all = b.results(g, v, 0, b.ids.len() as int);
    lemma_smallest(all, k);
    assert(all[s] == b.result(g, v, s));
    assert(all.contains(all[s]));
}

/// Scanning two ranges and merging their selections gives what one scan of the
/// whole range gives; so a scan may be split among workers.
pub proof fn split_scan_is_exact(
    b: Brute,
    g: Model,
    query: Seq<u32>,
    k: nat,
    lo: int,
    mid: int,
    hi: int,
)
    requires
        0 <= lo <= mid <= hi <= b.ids.len(),
    ensures
        smallest(
            smallest(b.results(g, query, lo, mid), k) + smallest(b.results(g, query, mid, hi), k),
            k,
        ) == smallest(b.results(g, query, lo, hi), k),
{
    let x = b.results(g, query, lo, mid);
    let y = b.results(g, query, mid, hi);
    let sx = smallest(x, k);
    let sy = smallest(y, k);
    selection_from_parts_is_exact(sx, y, k);
    selection_from_parts_is_exact(y, x, k);
    vstd::seq_lib::lemma_multiset_commutative(sx, y);
    vstd::seq_lib::lemma_multiset_commutative(y, sx);
    assert((sx + y).to_multiset() =~= (y + sx).to_multiset());
    crate::rank::lemma_smallest_unordered(sx + y, y + sx, k);
    vstd::seq_lib::lemma_multiset_commutative(x, y);
    vstd::seq_lib::lemma_multiset_commutative(y, x);
    assert((x + y).to_multiset() =~= (y + x).to_multiset());
    crate::rank::lemma_smallest_unordered(x + y, y + x, k);
    assert(x + y =~= b.results(g, query, lo, hi));
}

/// After a deletion the id is gone and every other id is still there, with its
/// own vector.
pub proof fn removal_takes_exactly_one_id(b: Brute, id: VectorId, x: VectorId)
    requires
        b.valid(),
        b.contains(id),
    ensures
        b.removed(id).valid(),
        b.removed(id).ids.len() == b.ids.len() - 1,
        b.removed(id).contains(x) <==> (b.contains(x) && x != id),
        b.contains(x) && x != id ==> b.removed(id).vectors[b.removed(id).slot(x)]
            == b.vectors[b.slot(x)],
{
    let t = b.removed(id);
    let s = b.slot(id);
    let last = b.ids.len() - 1;
    let w = choose|w: int| 0 <= w < b.ids.len() && b.ids[w] == id;
    assert(b.ids[s] == id);
    assert forall|i: int| 0 <= i < t.ids.len() implies t.ids[i] == b.ids[if i == s {
        last
    } else {
        i
    }] && t.vectors[i] == b.vectors[if i == s {
        last
    } else {
        i
    }] by {}
    assert forall|i: int, j: int|
        0 <= i < t.ids.len() && 0 <= j < t.ids.len() && i != j implies t.ids[i] != t.ids[j] by {
        let p = if i == s { last } else { i };
        let q = if j == s { last } else { j };
        assert(b.ids[p] != b.ids[q]);
    }
    assert forall|i: int| 0 <= i < t.vectors.len() implies (#[trigger] t.vectors[i]).len()
        == t.dim by {
        let p = if i == s { last } else { i };
        assert(b.vectors[p].len() == b.dim);
    }
    if b.contains(x) && x != id {
        let i = b.slot(x);
        let y = choose|y: int| 0 <= y < b.ids.len() && b.ids[y] == x;
        assert(b.ids[i] == x);
        let j = if i == last { s } else { i };
        assert(t.ids[j] == x);
        assert(t.contains(x));
        let m = t.slot(x);
        assert(t.ids[m] == x);
        assert(m == j);
    }
    if t.contains(x) {
        let j = choose|j: int| 0 <= j < t.ids.len() && t.ids[j] == x;
        let p = if j == s { last } else { j };
        assert(b.ids[p] == x);
        assert(b.ids[p] != b.ids[s]);
    }
}

/// After an insertion the id is there with its own vector, and the others are
/// as before.
pub proof fn insertion_adds_exactly_one_id(
    b: Brute,
    g: Model,
    id: VectorId,
    v: Seq<u32>,
    x: VectorId,
)
    requires
        b.valid(),
        !b.contains(id),
    ensures
        b.inserted(g, id, v).ids.len() == b.ids.len() + 1,
        b.inserted(g, id, v).contains(x) <==> (b.contains(x) || x == id),
        b.inserted(g, id, v).vectors[b.inserted(g, id, v).slot(id)] == prepared(g, b.metric, v),
        b.contains(x) ==> b.inserted(g, id, v).vectors[b.inserted(g, id, v).slot(x)]
            == b.vectors[b.slot(x)],
{
    let t = b.inserted(g, id, v);
    let n = b.ids.len() as int;
    assert(t.ids[n] == id);
    let m = t.slot(id);
    assert(t.ids[m] == id);
    if m < n {
        assert(b.ids[m] == id);
    }
    if b.contains(x) {
        let y = choose|y: int| 0 <= y < b.ids.len() && b.ids[y] == x;
        let i = b.slot(x);
        assert(b.ids[i] == x);
        assert(t.ids[i] == x);
        let j = t.slot(x);
        assert(t.ids[j] == x);
        if j < n {
            assert(b.ids[j] == x);
        }
        assert(i == j);
    }
    if t.contains(x) && x != id {
        let y = choose|y: int| 0 <= y < t.ids.len() && t.ids[y] == x;
        assert(b.ids[y] == x);
    }
}

} // verus!
