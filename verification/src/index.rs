//! What the indexes have in common.

use vstd::prelude::*;
use crate::bruteforce;
use crate::bruteforce::{Brute, BruteForceIndex};
use crate::distance::Metric;
use crate::error::IndexError;
use crate::graph::{count_set, lemma_count_none};
use crate::hnsw::{lemma_inserted_ids, lemma_marked, lemma_rebuilt, Hnsw, HnswIndex};
use crate::hnsw_laws::search_is_truthful;
use crate::numerics::{functional, model, prepared, Model, Numerics};
use crate::rank::{lemma_smallest, sorted, Ranked};
use crate::segmented::{
    admission, lemma_newest_part, lemma_newest_queued, lemma_removed_valid,
    lemma_same_segments_match, SegmentedIndex, Store,
};
use crate::segmented_laws::{deletion_removes_one_record, insertion_adds_one_record};
use crate::segmented_search::lemma_countable;
use crate::segmented_search_laws::{reported_size_counts_every_record, search_finds_only_records};
use crate::types::{SearchResult, VectorId};
use crate::vector_laws::other_vectors_stay;

verus! {

/// Results come in ascending order of distance.
pub open spec fn ascends(out: Seq<SearchResult>) -> bool {
    forall|i: int, j: int|
        0 <= i <= j < out.len() ==> (#[trigger] out[i]).distance <= (#[trigger] out[j]).distance
}

/// The vector of a record that was not touched: the same, or under cosine
/// normalized once more where the index was rebuilt.
pub open spec fn kept(
    g: Model,
    metric: Metric,
    before: Option<Seq<u32>>,
    after: Option<Seq<u32>>,
) -> bool {
    after == before || (before matches Some(v) && after == Some(prepared(g, metric, v)))
}

/// The interface of an index that takes records and gives them up again.
pub trait VectorIndex: Sized {
    /// The index's invariant.
    spec fn sound(&self, g: Model) -> bool;

    /// The id is in the index.
    spec fn holds(&self, id: VectorId) -> bool;

    /// How many records there are.
    spec fn size(&self) -> int;

    /// One more record can be counted.
    spec fn has_room(&self) -> bool;

    /// The dimension of the vectors.
    spec fn width(&self) -> usize;

    /// How distances are measured.
    spec fn metric_of(&self) -> Metric;

    /// The vector that is stored under an id.
    spec fn vector(&self, id: VectorId) -> Option<Seq<u32>>;

    /// The answer to a query.
    spec fn nearest(&self, g: Model, query: Seq<u32>, k: nat) -> Seq<SearchResult>;

    /// Inserts a vector under an id. Under cosine it is stored normalized.
    fn insert<N: Numerics>(&mut self, num: &N, id: VectorId, vector: &[u32]) -> (r: Result<
        (),
        IndexError,
    >)
        requires
            functional(num),
            old(self).sound(model(num)),
            old(self).has_room(),
        ensures
            final(self).sound(model(num)),
            r == admission(old(self).width(), vector@.len(), id, old(self).holds(id)),
            final(self).width() == old(self).width(),
            final(self).metric_of() == old(self).metric_of(),
            forall|x: VectorId| #[trigger]
                final(self).holds(x) <==> old(self).holds(x) || (r is Ok && x == id),
            final(self).size() == old(self).size() + (if r is Ok {
                1int
            } else {
                0int
            }),
            r is Ok ==> final(self).vector(id) == Some(
                prepared(model(num), old(self).metric_of(), vector@),
            ),
            forall|x: VectorId|
                x != id || r is Err ==> #[trigger] final(self).vector(x) == old(self).vector(x),
    ;

    /// The nearest `k` records, in ascending order of distance.
    fn search<N: Numerics>(&self, num: &N, query: &[u32], k: usize) -> (out: Vec<SearchResult>)
        requires
            functional(num),
            self.sound(model(num)),
        ensures
            out@ == self.nearest(model(num), query@, k as nat),
            out@.len() <= k,
            ascends(out@),
            forall|i: int| 0 <= i < out@.len() ==> self.holds((#[trigger] out@[i]).id),
    ;

    /// Deletes a record.
    fn delete<N: Numerics>(&mut self, num: &N, id: VectorId) -> (r: Result<(), IndexError>)
        requires
            functional(num),
            old(self).sound(model(num)),
        ensures
            final(self).sound(model(num)),
            r == (if old(self).holds(id) {
                Ok(())
            } else {
                Err(IndexError::NotFound(id))
            }),
            final(self).width() == old(self).width(),
            final(self).metric_of() == old(self).metric_of(),
            forall|x: VectorId| #[trigger]
                final(self).holds(x) <==> old(self).holds(x) && x != id,
            final(self).size() == old(self).size() - (if r is Ok {
                1int
            } else {
                0int
            }),
            r is Ok ==> final(self).vector(id) is None,
            forall|x: VectorId|
                x != id ==> kept(
                    model(num),
                    old(self).metric_of(),
                    old(self).vector(x),
                    #[trigger] final(self).vector(x),
                ),
            r is Err ==> forall|x: VectorId| #[trigger]
                final(self).vector(x) == old(self).vector(x),
    ;

    /// How many records there are.
    fn len<N: Numerics>(&self, num: &N) -> (n: usize)
        requires
            self.sound(model(num)),
        ensures
            n == self.size(),
    ;

    fn is_empty<N: Numerics>(&self, num: &N) -> (b: bool)
        requires
            self.sound(model(num)),
        ensures
            b == (self.size() == 0),
    {
        self.len(num) == 0
    }
}

impl VectorIndex for BruteForceIndex {
    open spec fn sound(&self, g: Model) -> bool {
        self.wf()
    }

    open spec fn holds(&self, id: VectorId) -> bool {
        self@.contains(id)
    }

    open spec fn size(&self) -> int {
        self@.ids.len() as int
    }

    open spec fn has_room(&self) -> bool {
        true
    }

    open spec fn width(&self) -> usize {
        self.dim
    }

    open spec fn metric_of(&self) -> Metric {
        self@.metric
    }

    open spec fn vector(&self, id: VectorId) -> Option<Seq<u32>> {
        self@.vector(id)
    }

    open spec fn nearest(&self, g: Model, query: Seq<u32>, k: nat) -> Seq<SearchResult> {
        self@.found(g, query, k)
    }

    fn insert<N: Numerics>(&mut self, num: &N, id: VectorId, vector: &[u32]) -> (r: Result<
        (),
        IndexError,
    >) {
        let r = BruteForceIndex::insert(self, num, id, vector);
        proof {
            if r is Ok {
                let b = old(self)@;
                bruteforce::insertion_adds_exactly_one_id(b, model(num), id, vector@, id);
                assert forall|x: VectorId| x != id implies #[trigger] self@.vector(x) == b.vector(
                    x,
                ) by {
                    bruteforce::insertion_adds_exactly_one_id(b, model(num), id, vector@, x);
                }
            }
        }
        r
    }

    fn search<N: Numerics>(&self, num: &N, query: &[u32], k: usize) -> (out: Vec<SearchResult>) {
        let out: Vec<SearchResult> = BruteForceIndex::search(self, num, query, k);
        proof {
            lemma_scan(self@, model(num), query@, k as nat);
        }
        out
    }

    fn delete<N: Numerics>(&mut self, num: &N, id: VectorId) -> (r: Result<(), IndexError>) {
        let r = BruteForceIndex::delete(self, id);
        proof {
            if r is Ok {
                let b = old(self)@;
                bruteforce::removal_takes_exactly_one_id(b, id, id);
                assert forall|x: VectorId| x != id implies #[trigger] self@.vector(x) == b.vector(
                    x,
                ) by {
                    bruteforce::removal_takes_exactly_one_id(b, id, x);
                }
            }
        }
        r
    }

    fn len<N: Numerics>(&self, num: &N) -> (n: usize) {
        BruteForceIndex::len(self)
    }
}

/// What a scan finds is in order and in the index.
proof fn lemma_scan(b: Brute, g: Model, query: Seq<u32>, k: nat)
    ensures
        b.found(g, query, k).len() <= k,
        ascends(b.found(g, query, k)),
        forall|i: int|
            0 <= i < b.found(g, query, k).len() ==> b.contains(
                (#[trigger] b.found(g, query, k)[i]).id,
            ),
{
    let v = prepared(g, b.metric, query);
    let all = b.results(g, v, 0, b.ids.len() as int);
    let out = b.found(g, query, k);
    lemma_smallest(all, k);
    lemma_sorted_ascends(out);
    assert forall|i: int| 0 <= i < out.len() implies b.contains((#[trigger] out[i]).id) by {
        assert(out.contains(out[i]));
        let s = choose|s: int| 0 <= s < all.len() && all[s] == out[i];
        assert(all[s] == b.result(g, v, s));
        assert(b.ids.contains(b.ids[s]));
    }
}

proof fn lemma_sorted_ascends(out: Seq<SearchResult>)
    requires
        sorted(out),
    ensures
        ascends(out),
{
    assert forall|i: int, j: int| 0 <= i <= j < out.len() implies (#[trigger] out[i]).distance <= (
    #[trigger] out[j]).distance by {
        assert(out[i].key() <= out[j].key());
    }
}

/// An insertion into a graph counts one node more and stores the vector.
proof fn lemma_inserted(h: Hnsw, g: Model, id: VectorId, v: Seq<u32>)
    requires
        h.valid(),
        !h.contains(id),
    ensures
        h.inserted(g, id, v).ids.len() == h.ids.len() + 1,
        count_set(h.inserted(g, id, v).deleted) == count_set(h.deleted),
        h.inserted(g, id, v).metric == h.metric,
        h.inserted(g, id, v).vector(id) == Some(prepared(g, h.metric, v)),
{
    let t = h.inserted(g, id, v);
    let n = h.ids.len() as int;
    lemma_inserted_ids(h, g, id, v);
    assert(t.deleted.drop_last() =~= h.deleted);
    assert(t.ids[n] == id && !t.deleted[n]);
    let s = t.slot(id);
    assert(t.ids[s] == id && !t.deleted[s]);
    if s < n {
        assert(h.ids[s] == id && !h.deleted[s]);
    }
}

impl VectorIndex for HnswIndex {
    open spec fn sound(&self, g: Model) -> bool {
        self.wf()
    }

    open spec fn holds(&self, id: VectorId) -> bool {
        self@.contains(id)
    }

    open spec fn size(&self) -> int {
        self@.ids.len() - count_set(self@.deleted)
    }

    open spec fn has_room(&self) -> bool {
        true
    }

    open spec fn width(&self) -> usize {
        self.dim
    }

    open spec fn metric_of(&self) -> Metric {
        self@.metric
    }

    open spec fn vector(&self, id: VectorId) -> Option<Seq<u32>> {
        self@.vector(id)
    }

    open spec fn nearest(&self, g: Model, query: Seq<u32>, k: nat) -> Seq<SearchResult> {
        self@.found(g, query, k, self@.params.ef_search as nat)
    }

    fn insert<N: Numerics>(&mut self, num: &N, id: VectorId, vector: &[u32]) -> (r: Result<
        (),
        IndexError,
    >) {
        let total: usize = self.ids.len();
        let r = HnswIndex::insert(self, num, id, vector);
        proof {
            if r is Ok {
                let h = old(self)@;
                assert(h.ids.len() == total);
                lemma_inserted(h, model(num), id, vector@);
                assert forall|x: VectorId| x != id implies #[trigger] self@.vector(x) == h.vector(
                    x,
                ) by {
                    if h.contains(x) {
                        other_vectors_stay(h, model(num), id, vector@, x);
                    }
                }
            }
        }
        r
    }

    fn search<N: Numerics>(&self, num: &N, query: &[u32], k: usize) -> (out: Vec<SearchResult>) {
        let out: Vec<SearchResult> = HnswIndex::search(self, num, query, k);
        proof {
            search_is_truthful(
                self@,
                model(num),
                query@,
                k as nat,
                self@.params.ef_search as nat,
            );
        }
        out
    }

    fn delete<N: Numerics>(&mut self, num: &N, id: VectorId) -> (r: Result<(), IndexError>) {
        let total: usize = self.ids.len();
        let r = HnswIndex::delete(self, num, id);
        proof {
            if r is Ok {
                let h = old(self)@;
                assert(h.ids.len() == total);
                let m = h.marked(id);
                lemma_marked(h, id);
                lemma_rebuilt(m, model(num), h.ids.len() as int);
                assert(m.deleted.take(h.ids.len() as int) =~= m.deleted);
                lemma_count_none(m.compacted(model(num)).deleted);
                assert forall|x: VectorId| x != id implies kept(
                    model(num),
                    h.metric,
                    h.vector(x),
                    #[trigger] self@.vector(x),
                ) by {
                    if h.contains(x) {
                        other_vectors_stay(h, model(num), id, Seq::empty(), x);
                    }
                }
            }
        }
        r
    }

    fn len<N: Numerics>(&self, num: &N) -> (n: usize) {
        HnswIndex::len(self)
    }
}

/// One record more is counted as one more.
proof fn lemma_one_more(s: Store, t: Store, id: VectorId)
    requires
        s.valid(),
        s.coherent(),
        t.valid(),
        t.coherent(),
        !s.live(id),
        forall|x: VectorId| #[trigger] t.live(x) <==> s.live(x) || x == id,
    ensures
        t.size() == s.size() + 1,
{
    reported_size_counts_every_record(s);
    reported_size_counts_every_record(t);
    let a = Set::new(|x: VectorId| s.live(x));
    let b = Set::new(|x: VectorId| t.live(x));
    assert(b =~= a.insert(id));
}

impl VectorIndex for SegmentedIndex {
    open spec fn sound(&self, g: Model) -> bool {
        self.wf(g) && self@.matched() && self@.coherent()
    }

    open spec fn holds(&self, id: VectorId) -> bool {
        self@.live(id)
    }

    open spec fn size(&self) -> int {
        self@.size()
    }

    open spec fn has_room(&self) -> bool {
        self@.has_room()
    }

    open spec fn width(&self) -> usize {
        self.dim
    }

    open spec fn metric_of(&self) -> Metric {
        self@.metric
    }

    open spec fn vector(&self, id: VectorId) -> Option<Seq<u32>> {
        self@.vector(id)
    }

    open spec fn nearest(&self, g: Model, query: Seq<u32>, k: nat) -> Seq<SearchResult> {
        self@.found(g, query, k, self@.params.ef_search as nat)
    }

    fn insert<N: Numerics>(&mut self, num: &N, id: VectorId, vector: &[u32]) -> (r: Result<
        (),
        IndexError,
    >) {
        let r = self.insert_shared(num, id, vector);
        proof {
            if r is Ok {
                lemma_same_segments_match(old(self)@, self@);
                assert forall|x: VectorId| #[trigger] self@.live(x) <==> old(self)@.live(x) || x
                    == id by {
                    insertion_adds_one_record(old(self)@, model(num), id, vector@, x);
                }
                insertion_adds_one_record(old(self)@, model(num), id, vector@, id);
                assert forall|x: VectorId| x != id implies #[trigger] self@.vector(x) == old(
                    self,
                )@.vector(x) by {
                    insertion_adds_one_record(old(self)@, model(num), id, vector@, x);
                }
                lemma_one_more(old(self)@, self@, id);
            }
        }
        r
    }

    fn search<N: Numerics>(&self, num: &N, query: &[u32], k: usize) -> (out: Vec<SearchResult>) {
        let out: Vec<SearchResult> = self.search_shared(num, query, k);
        proof {
            search_finds_only_records(
                self@,
                model(num),
                query@,
                k as nat,
                self@.params.ef_search as nat,
            );
            lemma_sorted_ascends(out@);
        }
        out
    }

    fn delete<N: Numerics>(&mut self, num: &N, id: VectorId) -> (r: Result<(), IndexError>) {
        let r = self.delete_shared(num, id);
        proof {
            if r is Ok {
                let after = old(self)@.removed(id);
                if old(self)@.buffer.contains(id) {
                    lemma_same_segments_match(old(self)@, after);
                } else {
                    lemma_removed_valid(old(self)@, id);
                }
                lemma_same_segments_match(after, self@);
                assert forall|x: VectorId| #[trigger] self@.live(x) <==> old(self)@.live(x) && x
                    != id by {
                    deletion_removes_one_record(old(self)@, id, x);
                    assert(self@.live(x) == after.live(x));
                }
                deletion_removes_one_record(old(self)@, id, id);
                assert(self@.coherent() == after.coherent());
                assert forall|x: VectorId| x != id implies #[trigger] self@.vector(x) == old(
                    self,
                )@.vector(x) by {
                    deletion_removes_one_record(old(self)@, id, x);
                    assert(self@.vector(x) == after.vector(x));
                }
                lemma_one_more(self@, old(self)@, id);
                lemma_newest_queued(self@.sealing, id);
                lemma_newest_part(self@.segments, id);
            }
        }
        r
    }

    fn len<N: Numerics>(&self, num: &N) -> (n: usize) {
        proof {
            lemma_countable(self@);
        }
        self.len_shared(num)
    }
}

} // verus!
