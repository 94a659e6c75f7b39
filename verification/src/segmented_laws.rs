//! What holds of the segmented index as a whole: no operation loses a record,
//! brings one back, or keeps it twice, whatever is moved where and whatever
//! happens in the meantime.

use vstd::prelude::*;
use crate::bruteforce::{self, Brute};
use crate::catalog::Records;
use crate::distance::Metric;
use crate::hnsw::{Hnsw, HnswParams};
use crate::meta::Fields;
use crate::numerics::{prepared, Model};
use crate::posting::lemma_with_id;
use crate::segmented::{
    lemma_newest_part, lemma_newest_queued, newest_part, newest_queued, parts_live, queue_live,
    Part, Queued, Store,
};
use crate::segmented_build::{
    carried, lemma_carried, lemma_part_at, part_at, queued_at, replaces, stands_for, Pair,
};
use crate::types::VectorId;

verus! {

impl Store {
    /// Every record lives in one place only.
    pub open spec fn coherent(self) -> bool {
        &&& forall|id: VectorId| #[trigger]
            self.buffer.contains(id) ==> !queue_live(self.sealing, id) && !parts_live(
                self.segments,
                id,
            )
        &&& forall|id: VectorId| #[trigger]
            queue_live(self.sealing, id) ==> !parts_live(self.segments, id)
        &&& forall|i: int, j: int, id: VectorId|
            0 <= i < self.sealing.len() && 0 <= j < self.sealing.len()
                && #[trigger] self.sealing[i].live(id) && #[trigger] self.sealing[j].live(id)
                ==> i == j
        &&& forall|i: int, j: int, id: VectorId|
            0 <= i < self.segments.len() && 0 <= j < self.segments.len()
                && #[trigger] self.segments[i].live(id) && #[trigger] self.segments[j].live(id)
                ==> i == j
    }

    /// Only records that exist have metadata.
    pub open spec fn described(self) -> bool {
        forall|id: VectorId| #[trigger] self.records.meta.contains_key(id.0) ==> self.live(id)
    }
}

/// A new index has no records.
pub proof fn new_index_is_empty(
    dim: nat,
    metric: Metric,
    params: HnswParams,
    seal_threshold: usize,
    records: Records,
    x: VectorId,
)
    requires
        records.meta == Map::<u64, Fields>::empty(),
    ensures
        ({
            let s = Store {
                dim,
                metric,
                params,
                seal_threshold,
                max_segments: 8,
                segments: Seq::empty(),
                sealing: Seq::empty(),
                buffer: Brute::empty(dim, metric),
                records,
                generation: 0,
                next_tag: 0,
            };
            !s.live(x) && s.coherent() && s.described() && s.size() == 0
        }),
{
}

/// Sealing the buffer changes neither which records exist nor their vectors.
pub proof fn sealing_loses_nothing(s: Store, x: VectorId)
    requires
        s.coherent(),
    ensures
        s.sealed().live(x) <==> s.live(x),
        s.sealed().vector(x) == s.vector(x),
        s.sealed().coherent(),
{
    if s.buffer.ids.len() > 0 {
        let t = s.sealed();
        assert(t.sealing.drop_last() =~= s.sealing);
        assert forall|id: VectorId| #[trigger] queue_live(t.sealing, id) <==> queue_live(
            s.sealing,
            id,
        ) || s.buffer.contains(id) by {
            lemma_pushed_queue(s.sealing, t.sealing.last(), id);
        }
        assert forall|i: int, j: int, id: VectorId|
            0 <= i < t.sealing.len() && 0 <= j < t.sealing.len()
                && #[trigger] t.sealing[i].live(id) && #[trigger] t.sealing[j].live(id) implies i
            == j by {
            let n = s.sealing.len();
            if i < n && j < n {
                assert(s.sealing[i].live(id) && s.sealing[j].live(id));
            } else if i < n {
                assert(s.sealing[i].live(id));
                assert(queue_live(s.sealing, id));
                assert(s.buffer.contains(id));
            } else if j < n {
                assert(s.sealing[j].live(id));
                assert(queue_live(s.sealing, id));
                assert(s.buffer.contains(id));
            }
        }
        assert forall|id: VectorId| #[trigger] queue_live(t.sealing, id) implies !parts_live(
            t.segments,
            id,
        ) by {
            if !s.buffer.contains(id) {
                assert(queue_live(s.sealing, id));
            }
        }
        assert(queue_live(t.sealing, x) <==> queue_live(s.sealing, x) || s.buffer.contains(x));
        assert(!t.buffer.contains(x));
        let n = s.sealing.len() as int;
        assert(t.sealing.last() == t.sealing[n]);
        if s.buffer.contains(x) {
            assert(t.sealing.last().live(x));
        } else {
            lemma_newest_queued(s.sealing, x);
            assert(newest_queued(t.sealing, x) == newest_queued(s.sealing, x));
            if let Some(i) = newest_queued(s.sealing, x) {
                assert(t.sealing[i] == s.sealing[i]);
            }
        }
    }
}

proof fn lemma_pushed_queue(s: Seq<Queued>, q: Queued, id: VectorId)
    ensures
        queue_live(s.push(q), id) <==> queue_live(s, id) || q.live(id),
{
    let t = s.push(q);
    if queue_live(s, id) {
        let i = choose|i: int| 0 <= i < s.len() && (#[trigger] s[i]).live(id);
        assert(t[i].live(id));
    }
    if q.live(id) {
        assert(t[s.len() as int].live(id));
    }
    if queue_live(t, id) {
        let i = choose|i: int| 0 <= i < t.len() && (#[trigger] t[i]).live(id);
        if i < s.len() {
            assert(s[i].live(id));
        }
    }
}

proof fn lemma_pushed_parts(s: Seq<Part>, p: Part, id: VectorId)
    ensures
        parts_live(s.push(p), id) <==> parts_live(s, id) || p.live(id),
{
    let t = s.push(p);
    if parts_live(s, id) {
        let i = choose|i: int| 0 <= i < s.len() && (#[trigger] s[i]).live(id);
        assert(t[i].live(id));
    }
    if p.live(id) {
        assert(t[s.len() as int].live(id));
    }
    if parts_live(t, id) {
        let i = choose|i: int| 0 <= i < t.len() && (#[trigger] t[i]).live(id);
        if i < s.len() {
            assert(s[i].live(id));
        }
    }
}

/// An insertion of an id that does not exist adds that record with its vector,
/// and leaves every other record as it is.
pub proof fn insertion_adds_one_record(s: Store, g: Model, id: VectorId, v: Seq<u32>, x: VectorId)
    requires
        s.buffer.valid(),
        s.buffer.metric == s.metric,
        s.coherent(),
        !s.live(id),
    ensures
        s.inserted(g, id, v).live(x) <==> s.live(x) || x == id,
        s.inserted(g, id, v).vector(id) == Some(prepared(g, s.metric, v)),
        x != id ==> s.inserted(g, id, v).vector(x) == s.vector(x),
        s.inserted(g, id, v).coherent(),
{
    let b = s.buffer.inserted(g, id, v);
    let t = Store { buffer: b, ..s };
    bruteforce::insertion_adds_exactly_one_id(s.buffer, g, id, v, x);
    bruteforce::insertion_adds_exactly_one_id(s.buffer, g, id, v, id);
    assert forall|y: VectorId| #[trigger] t.buffer.contains(y) implies !queue_live(t.sealing, y)
        && !parts_live(t.segments, y) by {
        bruteforce::insertion_adds_exactly_one_id(s.buffer, g, id, v, y);
        if y != id {
            assert(s.buffer.contains(y));
        }
    }
    assert(t.coherent());
    assert(b.contains(id));
    if t.buffer.ids.len() >= t.seal_threshold {
        sealing_loses_nothing(t, x);
        sealing_loses_nothing(t, id);
    }
}

/// A deletion removes the record, and leaves every other record as it is.
pub proof fn deletion_removes_one_record(s: Store, id: VectorId, x: VectorId)
    requires
        s.valid(),
        s.coherent(),
        s.live(id),
    ensures
        s.removed(id).live(x) <==> s.live(x) && x != id,
        x != id ==> s.removed(id).vector(x) == s.vector(x),
        s.removed(id).coherent(),
{
    let t = s.removed(id);
    lemma_newest_queued(s.sealing, id);
    lemma_newest_part(s.segments, id);
    if s.buffer.contains(id) {
        bruteforce::removal_takes_exactly_one_id(s.buffer, id, x);
        assert forall|y: VectorId| #[trigger] t.buffer.contains(y) implies !queue_live(
            t.sealing,
            y,
        ) && !parts_live(t.segments, y) by {
            bruteforce::removal_takes_exactly_one_id(s.buffer, id, y);
        }
    } else {
        match newest_queued(s.sealing, id) {
            Some(i) => {
                let q = s.sealing[i];
                assert(s.queued_fits(q));
                lemma_with_id(q.dead, id);
                assert forall|j: int, y: VectorId| 0 <= j < t.sealing.len() implies (
                #[trigger] t.sealing[j].live(y) <==> s.sealing[j].live(y) && !(j == i && y == id)) by {
                    if j == i {
                        assert(with_contains(q.dead, id, y));
                    }
                }
                assert forall|y: VectorId| #[trigger] queue_live(t.sealing, y) <==> queue_live(
                    s.sealing,
                    y,
                ) && y != id by {
                    if queue_live(t.sealing, y) {
                        let j = choose|j: int|
                            0 <= j < t.sealing.len() && (#[trigger] t.sealing[j]).live(y);
                        assert(s.sealing[j].live(y));
                        if y == id {
                            assert(s.sealing[i].live(id));
                            assert(j == i);
                        }
                    }
                    if queue_live(s.sealing, y) && y != id {
                        let j = choose|j: int|
                            0 <= j < s.sealing.len() && (#[trigger] s.sealing[j]).live(y);
                        assert(t.sealing[j].live(y));
                    }
                }
                assert forall|a: int, b: int, y: VectorId|
                    0 <= a < t.sealing.len() && 0 <= b < t.sealing.len()
                        && #[trigger] t.sealing[a].live(y)
                        && #[trigger] t.sealing[b].live(y) implies a == b by {
                    assert(s.sealing[a].live(y) && s.sealing[b].live(y));
                }
                assert(queue_live(s.sealing, id));
                assert(t.coherent()) by {
                    assert forall|y: VectorId| #[trigger] t.buffer.contains(y) implies !queue_live(
                        t.sealing,
                        y,
                    ) && !parts_live(t.segments, y) by {
                        assert(s.buffer.contains(y));
                        assert(queue_live(t.sealing, y) <==> queue_live(s.sealing, y) && y != id);
                    }
                    assert forall|y: VectorId| #[trigger] queue_live(
                        t.sealing,
                        y,
                    ) implies !parts_live(t.segments, y) by {
                        assert(queue_live(s.sealing, y));
                    }
                }
                assert(queue_live(t.sealing, x) <==> queue_live(s.sealing, x) && x != id);
                if x != id {
                    lemma_newest_queued(s.sealing, x);
                    lemma_newest_queued(t.sealing, x);
                    match newest_queued(s.sealing, x) {
                        Some(a) => {
                            let b = newest_queued(t.sealing, x)->0;
                            assert(t.sealing[b].live(x));
                            assert(s.sealing[b].live(x) && s.sealing[a].live(x));
                            assert(a == b);
                        },
                        None => {},
                    }
                }
            },
            None => {
                let i = newest_part(s.segments, id)->0;
                let p = s.segments[i];
                assert(s.part_fits(p));
                lemma_with_id(p.dead, id);
                assert forall|j: int, y: VectorId| 0 <= j < t.segments.len() implies (
                #[trigger] t.segments[j].live(y) <==> s.segments[j].live(y) && !(j == i && y
                    == id)) by {
                    if j == i {
                        assert(with_contains(p.dead, id, y));
                    }
                }
                assert forall|y: VectorId| #[trigger] parts_live(t.segments, y) <==> parts_live(
                    s.segments,
                    y,
                ) && y != id by {
                    if parts_live(t.segments, y) {
                        let j = choose|j: int|
                            0 <= j < t.segments.len() && (#[trigger] t.segments[j]).live(y);
                        assert(s.segments[j].live(y));
                        if y == id {
                            assert(s.segments[i].live(id));
                            assert(j == i);
                        }
                    }
                    if parts_live(s.segments, y) && y != id {
                        let j = choose|j: int|
                            0 <= j < s.segments.len() && (#[trigger] s.segments[j]).live(y);
                        assert(t.segments[j].live(y));
                    }
                }
                assert forall|a: int, b: int, y: VectorId|
                    0 <= a < t.segments.len() && 0 <= b < t.segments.len()
                        && #[trigger] t.segments[a].live(y)
                        && #[trigger] t.segments[b].live(y) implies a == b by {
                    assert(s.segments[a].live(y) && s.segments[b].live(y));
                }
                assert(t.coherent()) by {
                    assert forall|y: VectorId| #[trigger] t.buffer.contains(y) implies !queue_live(
                        t.sealing,
                        y,
                    ) && !parts_live(t.segments, y) by {
                        assert(s.buffer.contains(y));
                        assert(parts_live(t.segments, y) <==> parts_live(s.segments, y) && y != id);
                    }
                    assert forall|y: VectorId| #[trigger] queue_live(
                        t.sealing,
                        y,
                    ) implies !parts_live(t.segments, y) by {
                        assert(queue_live(s.sealing, y));
                        assert(parts_live(t.segments, y) <==> parts_live(s.segments, y) && y != id);
                    }
                }
                assert(parts_live(t.segments, x) <==> parts_live(s.segments, x) && x != id);
                if x != id {
                    lemma_newest_part(s.segments, x);
                    lemma_newest_part(t.segments, x);
                    match newest_part(s.segments, x) {
                        Some(a) => {
                            let b = newest_part(t.segments, x)->0;
                            assert(t.segments[b].live(x));
                            assert(s.segments[b].live(x) && s.segments[a].live(x));
                            assert(a == b);
                        },
                        None => {},
                    }
                }
            },
        }
    }
}

spec fn with_contains(dead: Seq<VectorId>, id: VectorId, y: VectorId) -> bool {
    crate::posting::with_id(dead, id).contains(y) <==> dead.contains(y) || y == id
}

/// A record that is deleted and inserted again has its new vector; the old one
/// does not come back.
pub proof fn reinsertion_gives_the_new_vector(s: Store, g: Model, id: VectorId, v: Seq<u32>)
    requires
        s.valid(),
        s.coherent(),
        s.live(id),
    ensures
        s.removed(id).inserted(g, id, v).vector(id) == Some(prepared(g, s.metric, v)),
        s.removed(id).inserted(g, id, v).coherent(),
{
    deletion_removes_one_record(s, id, id);
    if s.buffer.contains(id) {
        bruteforce::removal_takes_exactly_one_id(s.buffer, id, id);
    }
    insertion_adds_one_record(s.removed(id), g, id, v, id);
}

/// Putting a built graph in place of its buffer changes no record: what was
/// deleted while it was built stays deleted, and the rest stays.
pub proof fn finished_seal_keeps_every_record(s: Store, tag: u64, built: Hnsw, x: VectorId)
    requires
        s.valid(),
        s.coherent(),
        forall|i: int|
            0 <= i < s.sealing.len() && (#[trigger] s.sealing[i]).tag == tag ==> stands_for(
                built,
                s.sealing[i].data,
            ),
    ensures
        s.seal_finished(tag, built).live(x) <==> s.live(x),
        s.seal_finished(tag, built).coherent(),
{
    match queued_at(s.sealing, tag) {
        None => {},
        Some(i) => {
            let q = s.sealing[i];
            let t = s.seal_finished(tag, built);
            let p = t.segments.last();
            assert(q.tag == tag);
            assert(stands_for(built, q.data));
            assert(t.segments =~= s.segments.push(p));
            assert forall|y: VectorId| #[trigger] parts_live(t.segments, y) <==> parts_live(
                s.segments,
                y,
            ) || q.live(y) by {
                lemma_pushed_parts(s.segments, p, y);
                assert(built.contains(y) <==> q.data.contains(y));
            }
            assert forall|y: VectorId| #[trigger] queue_live(t.sealing, y) <==> queue_live(
                s.sealing,
                y,
            ) && !q.live(y) by {
                lemma_without_queued(s, i, y);
            }
            assert forall|a: int, b: int, y: VectorId|
                0 <= a < t.sealing.len() && 0 <= b < t.sealing.len()
                    && #[trigger] t.sealing[a].live(y) && #[trigger] t.sealing[b].live(y) implies a
                == b by {
                let c = if a < i { a } else { a + 1 };
                let d = if b < i { b } else { b + 1 };
                assert(s.sealing[c].live(y) && s.sealing[d].live(y));
            }
            assert forall|a: int, b: int, y: VectorId|
                0 <= a < t.segments.len() && 0 <= b < t.segments.len()
                    && #[trigger] t.segments[a].live(y) && #[trigger] t.segments[b].live(
                    y,
                ) implies a == b by {
                let n = s.segments.len();
                assert(built.contains(y) <==> q.data.contains(y));
                if a < n && b < n {
                    assert(s.segments[a].live(y) && s.segments[b].live(y));
                } else if a < n {
                    assert(s.segments[a].live(y));
                    assert(s.sealing[i].live(y));
                    assert(parts_live(s.segments, y));
                    assert(queue_live(s.sealing, y));
                } else if b < n {
                    assert(s.segments[b].live(y));
                    assert(s.sealing[i].live(y));
                    assert(parts_live(s.segments, y));
                    assert(queue_live(s.sealing, y));
                }
            }
            assert forall|y: VectorId| #[trigger] t.buffer.contains(y) implies !queue_live(
                t.sealing,
                y,
            ) && !parts_live(t.segments, y) by {
                assert(s.buffer.contains(y));
                if q.live(y) {
                    assert(s.sealing[i].live(y));
                    assert(queue_live(s.sealing, y));
                }
                assert(queue_live(t.sealing, y) <==> queue_live(s.sealing, y) && !q.live(y));
                assert(parts_live(t.segments, y) <==> parts_live(s.segments, y) || q.live(y));
            }
            assert forall|y: VectorId| #[trigger] queue_live(t.sealing, y) implies !parts_live(
                t.segments,
                y,
            ) by {
                assert(queue_live(s.sealing, y));
                assert(parts_live(t.segments, y) <==> parts_live(s.segments, y) || q.live(y));
            }
            assert(queue_live(t.sealing, x) <==> queue_live(s.sealing, x) && !q.live(x));
            assert(parts_live(t.segments, x) <==> parts_live(s.segments, x) || q.live(x));
            if q.live(x) {
                assert(s.sealing[i].live(x));
            }
        },
    }
}

proof fn lemma_without_queued(s: Store, i: int, y: VectorId)
    requires
        s.coherent(),
        0 <= i < s.sealing.len(),
    ensures
        queue_live(s.sealing.remove(i), y) <==> queue_live(s.sealing, y) && !s.sealing[i].live(y),
{
    let t = s.sealing.remove(i);
    if queue_live(t, y) {
        let j = choose|j: int| 0 <= j < t.len() && (#[trigger] t[j]).live(y);
        let k = if j < i { j } else { j + 1 };
        assert(t[j] == s.sealing[k]);
        assert(s.sealing[k].live(y));
        if s.sealing[i].live(y) {
            assert(k == i);
        }
    }
    if queue_live(s.sealing, y) && !s.sealing[i].live(y) {
        let k = choose|k: int| 0 <= k < s.sealing.len() && (#[trigger] s.sealing[k]).live(y);
        let j = if k < i { k } else { k - 1 };
        assert(t[j] == s.sealing[k]);
    }
}

impl Pair {
    /// No record lived in both parts when the pair was picked.
    pub open spec fn apart(self) -> bool {
        forall|id: VectorId|
            !(#[trigger] self.a.contains(id) && !self.a_dead.contains(id) && self.b.contains(id)
                && !self.b_dead.contains(id))
    }
}

impl Store {
    /// The merge of a pair that was picked from this index can still be put in
    /// place: where a source is still there, its graph is the same, and what was
    /// dead is dead.
    pub open spec fn awaits(self, pair: Pair) -> bool {
        &&& pair.a_tag < self.next_tag
        &&& pair.b_tag < self.next_tag
        &&& self.gave(pair)
        &&& forall|i: int, id: VectorId|
            0 <= i < self.segments.len() && self.segments[i].tag == pair.a_tag
                && #[trigger] pair.a_dead.contains(id) ==> #[trigger] self.segments[i].dead.contains(
                id,
            )
        &&& forall|i: int, id: VectorId|
            0 <= i < self.segments.len() && self.segments[i].tag == pair.b_tag
                && #[trigger] pair.b_dead.contains(id) ==> #[trigger] self.segments[i].dead.contains(
                id,
            )
    }
}

/// The other segments than two.
pub open spec fn elsewhere(s: Seq<Part>, a: int, b: int, id: VectorId) -> bool {
    exists|k: int| 0 <= k < s.len() && k != a && k != b && (#[trigger] s[k]).live(id)
}

proof fn lemma_without_two(s: Seq<Part>, a: int, b: int, id: VectorId)
    requires
        0 <= a < b < s.len(),
    ensures
        parts_live(s.remove(b).remove(a), id) <==> elsewhere(s, a, b, id),
{
    let t = s.remove(b).remove(a);
    assert forall|j: int| 0 <= j < t.len() implies (#[trigger] t[j]) == s[
        if j < a {
            j
        } else if j + 1 < b {
            j + 1
        } else {
            j + 2
        }
    ] by {}
    if parts_live(t, id) {
        let j = choose|j: int| 0 <= j < t.len() && (#[trigger] t[j]).live(id);
        let k = if j < a {
            j
        } else if j + 1 < b {
            j + 1
        } else {
            j + 2
        };
        assert(t[j] == s[k]);
        assert(k != a && k != b && s[k].live(id));
    }
    if elsewhere(s, a, b, id) {
        let k = choose|k: int| 0 <= k < s.len() && k != a && k != b && (#[trigger] s[k]).live(id);
        let j = if k < a {
            k
        } else if k < b {
            k - 1
        } else {
            k - 2
        };
        assert(t[j] == s[k]);
    }
}

/// Putting a merged graph in place of its sources changes no record: what was
/// deleted from them while it was built stays deleted, and the rest stays.
pub proof fn finished_merge_keeps_every_record(s: Store, pair: Pair, merged: Hnsw, x: VectorId)
    requires
        s.valid(),
        s.coherent(),
        pair.fits(),
        pair.apart(),
        s.awaits(pair),
        replaces(merged, pair),
    ensures
        s.merge_finished(pair, merged).live(x) <==> s.live(x),
        s.merge_finished(pair, merged).coherent(),
{
    match (part_at(s.segments, pair.a_tag), part_at(s.segments, pair.b_tag)) {
        (Some(a), Some(b)) => {
            let t = s.merge_finished(pair, merged);
            let lo = if a < b { a } else { b };
            let hi = if a < b { b } else { a };
            let rest = s.segments.remove(hi).remove(lo);
            let p = t.segments.last();
            let pa = s.segments[a];
            let pb = s.segments[b];
            assert(pa.tag == pair.a_tag && pb.tag == pair.b_tag);
            assert(s.part_fits(pa) && s.part_fits(pb));
            assert(pa.index == pair.a && pb.index == pair.b);
            assert(t.segments =~= rest.push(p));
            let first = carried(Seq::empty(), pa.dead, pair.a_dead);
            lemma_carried(Seq::empty(), pa.dead, pair.a_dead);
            lemma_carried(first, pb.dead, pair.b_dead);
            assert forall|y: VectorId| #[trigger] p.live(y) <==> pa.live(y) || pb.live(y) by {
                assert(merged.contains(y) <==> (pair.a.contains(y) && !pair.a_dead.contains(y)) || (
                pair.b.contains(y) && !pair.b_dead.contains(y)));
                assert(first.contains(y) <==> Seq::<VectorId>::empty().contains(y) || (
                pa.dead.contains(y) && !pair.a_dead.contains(y)));
                assert(p.dead.contains(y) <==> first.contains(y) || (pb.dead.contains(y)
                    && !pair.b_dead.contains(y)));
                if pair.a_dead.contains(y) {
                    assert(s.segments[a].dead.contains(y));
                }
                if pair.b_dead.contains(y) {
                    assert(s.segments[b].dead.contains(y));
                }
                if pa.dead.contains(y) {
                    assert(pair.a.contains(y));
                }
                if pb.dead.contains(y) {
                    assert(pair.b.contains(y));
                }
                assert(!(pair.a.contains(y) && !pair.a_dead.contains(y) && pair.b.contains(y)
                    && !pair.b_dead.contains(y)));
            }
            assert forall|y: VectorId| #[trigger] parts_live(t.segments, y) <==> parts_live(
                s.segments,
                y,
            ) by {
                lemma_without_two(s.segments, lo, hi, y);
                lemma_pushed_parts(rest, p, y);
                assert(p.live(y) <==> pa.live(y) || pb.live(y));
                if parts_live(s.segments, y) {
                    let k = choose|k: int|
                        0 <= k < s.segments.len() && (#[trigger] s.segments[k]).live(y);
                    if k != a && k != b {
                        assert(elsewhere(s.segments, lo, hi, y));
                    }
                }
                if pa.live(y) {
                    assert(s.segments[a].live(y));
                }
                if pb.live(y) {
                    assert(s.segments[b].live(y));
                }
                if elsewhere(s.segments, lo, hi, y) {
                    let k = choose|k: int|
                        0 <= k < s.segments.len() && k != lo && k != hi && (
                        #[trigger] s.segments[k]).live(y);
                    assert(s.segments[k].live(y));
                }
            }
            assert forall|c: int, d: int, y: VectorId|
                0 <= c < t.segments.len() && 0 <= d < t.segments.len()
                    && #[trigger] t.segments[c].live(y) && #[trigger] t.segments[d].live(
                    y,
                ) implies c == d by {
                let n = rest.len();
                let kc = if c < lo {
                    c
                } else if c + 1 < hi {
                    c + 1
                } else {
                    c + 2
                };
                let kd = if d < lo {
                    d
                } else if d + 1 < hi {
                    d + 1
                } else {
                    d + 2
                };
                if c < n {
                    assert(t.segments[c] == s.segments[kc]);
                    assert(s.segments[kc].live(y));
                }
                if d < n {
                    assert(t.segments[d] == s.segments[kd]);
                    assert(s.segments[kd].live(y));
                }
                if c >= n || d >= n {
                    assert(p.live(y) <==> pa.live(y) || pb.live(y));
                    if pa.live(y) {
                        assert(s.segments[a].live(y));
                    }
                    if pb.live(y) {
                        assert(s.segments[b].live(y));
                    }
                }
            }
            assert forall|y: VectorId| #[trigger] t.buffer.contains(y) implies !queue_live(
                t.sealing,
                y,
            ) && !parts_live(t.segments, y) by {
                assert(s.buffer.contains(y));
                assert(parts_live(t.segments, y) <==> parts_live(s.segments, y));
            }
            assert forall|y: VectorId| #[trigger] queue_live(t.sealing, y) implies !parts_live(
                t.segments,
                y,
            ) by {
                assert(queue_live(s.sealing, y));
                assert(parts_live(t.segments, y) <==> parts_live(s.segments, y));
            }
            assert(parts_live(t.segments, x) <==> parts_live(s.segments, x));
        },
        _ => {},
    }
}

/// Segments are merged where there are more than the limit, and those that are
/// picked are two that hold the fewest live records.
pub proof fn picked_pair_is_the_smallest(s: Store)
    requires
        s.valid(),
    ensures
        s.pair() is Some <==> s.segments.len() > s.max_segments,
        s.pair() matches Some(pair) ==> exists|a: int, b: int|
            {
                &&& 0 <= a < s.segments.len() && 0 <= b < s.segments.len() && a != b
                &&& #[trigger] s.segments[a].tag == pair.a_tag
                &&& #[trigger] s.segments[b].tag == pair.b_tag
                &&& forall|i: int|
                    0 <= i < s.segments.len() && i != a && i != b ==> s.segments[a].weight()
                        <= s.segments[b].weight() <= (#[trigger] s.segments[i]).weight()
            },
{
    if s.segments.len() > s.max_segments {
        let n = s.segments.len() as int;
        let a = crate::segmented_build::lightest(s.segments, None, n)->0;
        let b = crate::segmented_build::lightest(s.segments, Some(a), n)->0;
        crate::segmented_build::lemma_lightest_two(s.segments, n);
        crate::segmented_build::lemma_lightest(s.segments, None, n);
        crate::segmented_build::lemma_lightest(s.segments, Some(a), n);
        let pair = s.pair()->0;
        assert(s.segments[a].tag == pair.a_tag && s.segments[b].tag == pair.b_tag);
        assert(s.segments[a].weight() <= s.segments[b].weight());
    }
}

/// A pair that has just been picked can be put in place.
pub proof fn picked_pair_is_awaited(s: Store, pair: Pair)
    requires
        s.valid(),
        s.coherent(),
        s.pair() == Some(pair),
    ensures
        s.awaits(pair),
        pair.apart(),
{
    let n = s.segments.len() as int;
    let a = crate::segmented_build::lightest(s.segments, None, n)->0;
    let b = crate::segmented_build::lightest(s.segments, Some(a), n)->0;
    crate::segmented_build::lemma_lightest_two(s.segments, n);
    assert(s.part_fits(s.segments[a]) && s.part_fits(s.segments[b]));
    assert forall|i: int| 0 <= i < s.segments.len() implies {
        &&& (#[trigger] s.segments[i]).tag == pair.a_tag ==> s.segments[i].index == pair.a
        &&& s.segments[i].tag == pair.b_tag ==> s.segments[i].index == pair.b
    } by {
        lemma_part_at(s, i);
        lemma_part_at(s, a);
        lemma_part_at(s, b);
    }
    assert forall|i: int, id: VectorId|
        0 <= i < s.segments.len() && s.segments[i].tag == pair.a_tag
            && #[trigger] pair.a_dead.contains(id) implies #[trigger] s.segments[i].dead.contains(
        id,
    ) by {
        lemma_part_at(s, i);
        lemma_part_at(s, a);
    }
    assert forall|i: int, id: VectorId|
        0 <= i < s.segments.len() && s.segments[i].tag == pair.b_tag
            && #[trigger] pair.b_dead.contains(id) implies #[trigger] s.segments[i].dead.contains(
        id,
    ) by {
        lemma_part_at(s, i);
        lemma_part_at(s, b);
    }
    assert forall|id: VectorId|
        !(#[trigger] pair.a.contains(id) && !pair.a_dead.contains(id) && pair.b.contains(id)
            && !pair.b_dead.contains(id)) by {
        if pair.a.contains(id) && !pair.a_dead.contains(id) && pair.b.contains(id)
            && !pair.b_dead.contains(id) {
            assert(s.segments[a].live(id) && s.segments[b].live(id));
        }
    }
}

/// Whatever is inserted, deleted, sealed or built while a merge is being built,
/// the merge can still be put in place.
pub proof fn awaited_merge_survives(
    s: Store,
    pair: Pair,
    g: Model,
    id: VectorId,
    v: Seq<u32>,
    tag: u64,
    built: Hnsw,
)
    requires
        s.valid(),
        s.awaits(pair),
        s.next_tag < u64::MAX,
    ensures
        s.removed(id).awaits(pair),
        s.inserted(g, id, v).awaits(pair),
        s.sealed().awaits(pair),
        s.seal_finished(tag, built).awaits(pair),
{
    lemma_newest_part(s.segments, id);
    let r = s.removed(id);
    assert forall|i: int| 0 <= i < r.segments.len() implies {
        &&& (#[trigger] r.segments[i]).tag == s.segments[i].tag
        &&& r.segments[i].index == s.segments[i].index
        &&& forall|y: VectorId| s.segments[i].dead.contains(y) ==> r.segments[i].dead.contains(y)
    } by {
        assert(s.part_fits(s.segments[i]));
        lemma_with_id(s.segments[i].dead, id);
        assert forall|y: VectorId| s.segments[i].dead.contains(y) implies r.segments[i].dead.contains(
            y,
        ) by {
            assert(with_contains(s.segments[i].dead, id, y));
        }
    }
    assert(r.gave(pair)) by {
        assert forall|i: int| 0 <= i < r.segments.len() implies {
            &&& (#[trigger] r.segments[i]).tag == pair.a_tag ==> r.segments[i].index == pair.a
            &&& r.segments[i].tag == pair.b_tag ==> r.segments[i].index == pair.b
        } by {
            assert(s.segments[i].tag == r.segments[i].tag);
        }
    }
    assert forall|i: int, y: VectorId|
        0 <= i < r.segments.len() && r.segments[i].tag == pair.a_tag
            && #[trigger] pair.a_dead.contains(y) implies #[trigger] r.segments[i].dead.contains(
        y,
    ) by {
        assert(s.segments[i].dead.contains(y));
    }
    assert forall|i: int, y: VectorId|
        0 <= i < r.segments.len() && r.segments[i].tag == pair.b_tag
            && #[trigger] pair.b_dead.contains(y) implies #[trigger] r.segments[i].dead.contains(
        y,
    ) by {
        assert(s.segments[i].dead.contains(y));
    }
    let f = s.seal_finished(tag, built);
    assert(f.awaits(pair)) by {
        let n = s.segments.len();
        assert forall|i: int| 0 <= i < f.segments.len() implies {
            &&& (#[trigger] f.segments[i]).tag == pair.a_tag ==> f.segments[i].index == pair.a
            &&& f.segments[i].tag == pair.b_tag ==> f.segments[i].index == pair.b
        } by {
            if i < n {
                assert(f.segments[i] == s.segments[i]);
            }
        }
        assert forall|i: int, y: VectorId|
            0 <= i < f.segments.len() && f.segments[i].tag == pair.a_tag
                && #[trigger] pair.a_dead.contains(y) implies #[trigger] f.segments[i].dead.contains(
            y,
        ) by {
            if i < n {
                assert(f.segments[i] == s.segments[i]);
            }
        }
        assert forall|i: int, y: VectorId|
            0 <= i < f.segments.len() && f.segments[i].tag == pair.b_tag
                && #[trigger] pair.b_dead.contains(y) implies #[trigger] f.segments[i].dead.contains(
            y,
        ) by {
            if i < n {
                assert(f.segments[i] == s.segments[i]);
            }
        }
    }
}

/// After an insertion the buffer holds fewer records than seal it. An insertion that fills it
/// puts it into the queue as it is, with nothing in it dead, and begins a new one;
/// any other leaves the queue alone. Segments stay as they are.
pub proof fn full_buffer_is_sealed(s: Store, g: Model, id: VectorId, v: Seq<u32>)
    requires
        s.buffer.valid(),
        s.seal_threshold > 0,
    ensures
        ({
            let t = s.inserted(g, id, v);
            let n = s.buffer.ids.len() + 1;
            &&& t.segments == s.segments
            &&& t.buffer.ids.len() < t.seal_threshold
            &&& t.seal_threshold == s.seal_threshold
            &&& n < s.seal_threshold ==> t.sealing == s.sealing && t.buffer.ids.len() == n
            &&& n >= s.seal_threshold ==> {
                &&& t.buffer.ids.len() == 0
                &&& t.sealing.len() == s.sealing.len() + 1
                &&& t.sealing.drop_last() == s.sealing
                &&& t.sealing.last().data.ids == s.buffer.ids.push(id)
                &&& t.sealing.last().data.vectors == s.buffer.vectors.push(
                    prepared(g, s.buffer.metric, v),
                )
                &&& t.sealing.last().dead.len() == 0
            }
        }),
{
    let t = s.inserted(g, id, v);
    if s.buffer.ids.len() + 1 >= s.seal_threshold {
        assert(t.sealing.drop_last() =~= s.sealing);
    }
}

/// Sealing puts the whole buffer into the queue and leaves none behind; an empty
/// buffer stays where it is.
pub proof fn sealing_empties_the_buffer(s: Store)
    ensures
        s.sealed().buffer.ids.len() == 0,
        s.sealed().segments == s.segments,
        s.buffer.ids.len() == 0 ==> s.sealed() == s,
        s.buffer.ids.len() > 0 ==> s.sealed().sealing.len() == s.sealing.len() + 1
            && s.sealed().sealing.drop_last() == s.sealing && s.sealed().sealing.last().data
            == s.buffer && s.sealed().sealing.last().dead.len() == 0,
{
    if s.buffer.ids.len() > 0 {
        assert(s.sealed().sealing.drop_last() =~= s.sealing);
    }
}

} // verus!
