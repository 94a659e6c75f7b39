//! What holds of checkpoints and recovery as a whole.

use vstd::prelude::*;
use crate::bruteforce;
use crate::catalog::Records;
use crate::checkpoint::raw_ids;
use crate::hnsw_file::reopened;
use crate::meta::{collected, lists_all, Fields};
use crate::numerics::{prepared, Model};
use crate::distance::Metric;
use crate::posting::lemma_ascending_unique;
use crate::record::Operation;
use crate::recovery::{
    after_log, applied, has_place, buried, described_by, lemma_applied_room, lemma_buried,
    lemma_with_segment_valid, with_segment,
};
use crate::segmented::{
    lemma_buffer_changed, lemma_newest_part, lemma_newest_queued, lemma_records_changed,
    lemma_removed_valid, lemma_sealed_valid, newest_part, parts_live, parts_slots, queue_live,
    Part, Store,
};
use crate::segmented_laws::{deletion_removes_one_record, insertion_adds_one_record};
use crate::storage::Snapshot;
use crate::types::VectorId;

verus! {

/// A record: its vector, as it is stored, and its fields.
pub ghost struct Entry {
    pub vector: Seq<u32>,
    pub fields: Fields,
}

impl Store {
    pub open spec fn fields(self, id: VectorId) -> Fields {
        if self.records.meta.contains_key(id.0) {
            self.records.meta[id.0]
        } else {
            Seq::empty()
        }
    }

    /// The record with the id.
    pub open spec fn entry(self, id: VectorId) -> Option<Entry> {
        match self.vector(id) {
            Some(vector) => Some(Entry { vector, fields: self.fields(id) }),
            None => None,
        }
    }
}

/// A record exists where its id lives.
pub proof fn entry_is_there_when_the_id_lives(s: Store, id: VectorId)
    ensures
        s.entry(id) is Some <==> s.live(id),
{
    lemma_newest_queued(s.sealing, id);
    lemma_newest_part(s.segments, id);
}

/// The record after the first `n` operations.
pub open spec fn entry_after(
    start: Option<Entry>,
    g: Model,
    metric: Metric,
    ops: Seq<Operation>,
    id: VectorId,
    n: int,
) -> Option<Entry>
    decreases n,
{
    if n <= 0 {
        start
    } else {
        match ops[n - 1] {
            Operation::Insert { id: x, vector, meta } if x == id.0 => Some(
                Entry { vector: prepared(g, metric, vector), fields: collected(meta) },
            ),
            Operation::Delete { id: x } if x == id.0 => None,
            _ => entry_after(start, g, metric, ops, id, n - 1),
        }
    }
}

/// The operation is one that the index accepts after the ones before it: an
/// inserted vector has the right dimension, and its id does not exist.
pub open spec fn in_turn(s: Store, g: Model, ops: Seq<Operation>, i: int) -> bool {
    match ops[i] {
        Operation::Insert { id, vector, .. } => vector.len() == s.dim && entry_after(
            s.entry(VectorId(id)),
            g,
            s.metric,
            ops,
            VectorId(id),
            i,
        ) is None,
        Operation::Delete { .. } => true,
    }
}

proof fn lemma_applied_valid(s: Store, g: Model, op: Operation)
    requires
        s.valid(),
        g.sane(),
        s.has_room(),
    ensures
        applied(s, g, op) matches Ok(t) ==> t.valid() && t.dim == s.dim && t.metric == s.metric,
{
    match op {
        Operation::Insert { id, vector, .. } => {
            if let Ok(t) = applied(s, g, op) {
                let x = VectorId(id);
                let b = s.buffer.inserted(g, x, vector);
                assert(b.ids.no_duplicates()) by {
                    assert forall|i: int, j: int|
                        0 <= i < b.ids.len() && 0 <= j < b.ids.len() && i != j implies b.ids[i]
                        != b.ids[j] by {
                        if i < s.buffer.ids.len() {
                            assert(s.buffer.ids.contains(s.buffer.ids[i]));
                        }
                        if j < s.buffer.ids.len() {
                            assert(s.buffer.ids.contains(s.buffer.ids[j]));
                        }
                    }
                }
                lemma_buffer_changed(s, b);
                let m = Store { buffer: b, ..s };
                lemma_sealed_valid(m);
                lemma_records_changed(s.inserted(g, x, vector), t.records);
            }
        },
        Operation::Delete { id } => {
            let x = VectorId(id);
            let t = s.removed(x);
            if s.live(x) {
                if s.buffer.contains(x) {
                    bruteforce::removal_takes_exactly_one_id(s.buffer, x, x);
                    lemma_buffer_changed(s, s.buffer.removed(x));
                } else {
                    lemma_removed_valid(s, x);
                }
                lemma_records_changed(
                    t,
                    Records { meta: s.records.meta.remove(id), numbers: s.records.numbers },
                );
            }
        },
    }
}

/// What one operation makes of one record.
pub proof fn lemma_applied_entry(s: Store, g: Model, op: Operation, x: VectorId)
    requires
        s.valid(),
        s.coherent(),
        s.described(),
        op matches Operation::Insert { id, vector, .. } ==> vector.len() == s.dim && !s.live(
            VectorId(id),
        ),
    ensures
        applied(s, g, op) matches Ok(t) && t.coherent() && t.described() && t.entry(x) == (
        match op {
            Operation::Insert { id, vector, meta } if id == x.0 => Some(
                Entry { vector: prepared(g, s.metric, vector), fields: collected(meta) },
            ),
            Operation::Delete { id } if id == x.0 => None,
            _ => s.entry(x),
        }),
{
    let t = applied(s, g, op)->Ok_0;
    match op {
        Operation::Insert { id, vector, meta } => {
            let y = VectorId(id);
            insertion_adds_one_record(s, g, y, vector, x);
            assert(applied(s, g, op) is Ok);
            let m = s.inserted(g, y, vector);
            assert(!s.records.meta.contains_key(y.0));
            assert(t.vector(x) == m.vector(x));
            assert(t.coherent() == m.coherent());
            assert forall|z: VectorId| #[trigger] t.records.meta.contains_key(z.0) implies t.live(
                z,
            ) by {
                insertion_adds_one_record(s, g, y, vector, z);
                assert(t.live(z) == m.live(z));
                if z.0 != id {
                    assert(s.records.meta.contains_key(z.0));
                } else {
                    assert(z == y);
                }
            }
            if x.0 == id {
                assert(x == y);
                if collected(meta).len() == 0 {
                    assert(t.fields(x) =~= collected(meta));
                }
            } else {
                assert(t.fields(x) == s.fields(x));
            }
        },
        Operation::Delete { id } => {
            let y = VectorId(id);
            if s.live(y) {
                deletion_removes_one_record(s, y, x);
                let m = s.removed(y);
                assert(t.vector(x) == m.vector(x));
                assert(t.live(x) == m.live(x));
                assert(t.coherent() == m.coherent());
                assert forall|z: VectorId| #[trigger]
                    t.records.meta.contains_key(z.0) implies t.live(z) by {
                    deletion_removes_one_record(s, y, z);
                    assert(t.live(z) == m.live(z));
                    assert(s.records.meta.contains_key(z.0));
                }
                entry_is_there_when_the_id_lives(t, x);
                if x.0 == id {
                    assert(x == y);
                }
            } else {
                entry_is_there_when_the_id_lives(s, y);
                if x.0 == id {
                    assert(x == y);
                }
            }
        },
    }
}

/// Replaying a log of operations that were accepted one after the other gives,
/// of every record, what the last operation on it says: an inserted record is
/// there with its vector and its metadata, a deleted one is gone, and one that
/// the log does not name is as it was.
pub proof fn replay_restores_every_record(
    s: Store,
    g: Model,
    ops: Seq<Operation>,
    n: int,
    x: VectorId,
)
    requires
        s.valid(),
        s.coherent(),
        s.described(),
        g.sane(),
        0 <= n <= ops.len(),
        s.slots() + n <= usize::MAX,
        s.next_tag + n <= u64::MAX,
        forall|i: int| 0 <= i < n ==> #[trigger] in_turn(s, g, ops, i),
    ensures
        after_log(s, g, ops, n) matches Ok(t) && {
            &&& t.valid()
            &&& t.coherent()
            &&& t.described()
            &&& t.entry(x) == entry_after(s.entry(x), g, s.metric, ops, x, n)
        },
{
    lemma_after_log(s, g, ops, n, x);
}

proof fn lemma_after_log(s: Store, g: Model, ops: Seq<Operation>, n: int, x: VectorId)
    requires
        s.valid(),
        s.coherent(),
        s.described(),
        g.sane(),
        0 <= n <= ops.len(),
        s.slots() + n <= usize::MAX,
        s.next_tag + n <= u64::MAX,
        forall|i: int| 0 <= i < n ==> #[trigger] in_turn(s, g, ops, i),
    ensures
        after_log(s, g, ops, n) matches Ok(t) && {
            &&& t.valid()
            &&& t.coherent()
            &&& t.described()
            &&& t.dim == s.dim
            &&& t.metric == s.metric
            &&& t.slots() <= s.slots() + n
            &&& t.next_tag <= s.next_tag + n
            &&& t.entry(x) == entry_after(s.entry(x), g, s.metric, ops, x, n)
        },
    decreases n,
{
    if n > 0 {
        let op = ops[n - 1];
        lemma_after_log(s, g, ops, n - 1, x);
        let t = after_log(s, g, ops, n - 1)->Ok_0;
        assert(in_turn(s, g, ops, n - 1));
        if let Operation::Insert { id, .. } = op {
            lemma_after_log(s, g, ops, n - 1, VectorId(id));
            entry_is_there_when_the_id_lives(t, VectorId(id));
        }
        lemma_applied_valid(t, g, op);
        lemma_applied_room(t, g, op);
        lemma_applied_entry(t, g, op, x);
    }
}

/// The store with the first `n` segments read back from their files.
pub open spec fn reattached(base: Store, parts: Seq<Part>, files: Seq<(Seq<char>, u32)>, n: int) -> Store
    decreases n,
{
    if n <= 0 {
        base
    } else {
        with_segment(
            reattached(base, parts, files, n - 1),
            reopened(parts[n - 1].index),
            files[n - 1].0,
            files[n - 1].1,
            raw_ids(parts[n - 1].dead),
        )
    }
}

/// Reading back what a manifest says of a segment gives its tombstones.
proof fn lemma_buried_again(s: Store, p: Part)
    requires
        s.part_fits(p),
    ensures
        buried(raw_ids(p.dead)) == p.dead,
{
    let ids = raw_ids(p.dead);
    lemma_buried(ids);
    assert forall|id: VectorId| #[trigger] buried(ids).contains(id) <==> p.dead.contains(id) by {
        if p.dead.contains(id) {
            let i = choose|i: int| 0 <= i < p.dead.len() && p.dead[i] == id;
            assert(ids[i] == id.0);
        }
        if ids.contains(id.0) {
            let i = choose|i: int| 0 <= i < ids.len() && ids[i] == id.0;
            assert(p.dead[i].0 == id.0);
            assert(p.dead[i] == id);
        }
    }
    lemma_ascending_unique(buried(ids), p.dead);
}

pub proof fn lemma_reattached(base: Store, s: Store, files: Seq<(Seq<char>, u32)>, n: int)
    requires
        s.valid(),
        base.valid(),
        base.dim == s.dim,
        base.metric == s.metric,
        base.segments.len() == 0,
        base.sealing.len() == 0,
        base.buffer.ids.len() == 0,
        base.next_tag == 0,
        0 <= n <= s.segments.len() <= u64::MAX,
    ensures
        ({
            let t = reattached(base, s.segments, files, n);
            &&& t == (Store { segments: t.segments, next_tag: n as u64, ..base })
            &&& t.segments.len() == n
            &&& forall|i: int|
                0 <= i < n ==> (#[trigger] t.segments[i]).index == reopened(s.segments[i].index)
                    && t.segments[i].dead == s.segments[i].dead
            &&& parts_slots(t.segments) == parts_slots(s.segments.take(n))
            &&& t.valid()
        }),
    decreases n,
{
    if n > 0 {
        lemma_reattached(base, s, files, n - 1);
        let t = reattached(base, s.segments, files, n);
        let u = reattached(base, s.segments, files, n - 1);
        let p = s.segments[n - 1];
        assert(s.part_fits(p));
        lemma_buried_again(s, p);
        assert(t.segments.drop_last() =~= u.segments);
        assert(s.segments.take(n).drop_last() =~= s.segments.take(n - 1));
        assert(s.segments.take(n).last() == p);
        crate::recovery::lemma_slots_prefix(s, 0, n);
        assert(reopened(p.index).valid());
        assert(has_place(u, reopened(p.index)));
        lemma_with_segment_valid(
            u,
            reopened(p.index),
            files[n - 1].0,
            files[n - 1].1,
            raw_ids(p.dead),
        );
        assert forall|id: VectorId| #[trigger] p.dead.contains(id) implies reopened(
            p.index,
        ).contains(id) by {
            assert(p.index.contains(id));
        }
        assert(t.part_matches(t.segments.last()));
        assert forall|i: int| 0 <= i < n implies (#[trigger] t.segments[i]).index == reopened(
            s.segments[i].index,
        ) && t.segments[i].dead == s.segments[i].dead by {
            if i < n - 1 {
                assert(t.segments[i] == u.segments[i]);
            }
        }
    } else {
        assert(s.segments.take(n) =~= Seq::empty());
        assert(base.segments =~= Seq::empty());
    }
}

/// After a checkpoint, the segments read back from their files hold the same
/// records as before: the same ids live, with the same vectors, and what was
/// deleted stays deleted. The checkpoint found every record in a segment.
pub proof fn checkpoint_restores_every_vector(
    base: Store,
    s: Store,
    files: Seq<(Seq<char>, u32)>,
    x: VectorId,
)
    requires
        s.valid(),
        s.sealing.len() == 0,
        s.buffer.ids.len() == 0,
        base.valid(),
        base.dim == s.dim,
        base.metric == s.metric,
        base.segments.len() == 0,
        base.sealing.len() == 0,
        base.buffer.ids.len() == 0,
        base.next_tag == 0,
        s.segments.len() <= u64::MAX,
    ensures
        ({
            let t = reattached(base, s.segments, files, s.segments.len() as int);
            &&& t.valid()
            &&& t.live(x) <==> s.live(x)
            &&& t.vector(x) == s.vector(x)
            &&& s.coherent() ==> t.coherent()
        }),
{
    let n = s.segments.len() as int;
    let t = reattached(base, s.segments, files, n);
    lemma_reattached(base, s, files, n);
    assert forall|i: int, id: VectorId| 0 <= i < n implies #[trigger] t.segments[i].live(id)
        == s.segments[i].live(id) by {
        assert(t.segments[i].index.contains(id) == s.segments[i].index.contains(id));
    }
    lemma_same_parts(t.segments, s.segments, x);
    assert(!s.buffer.ids.contains(x));
    assert(!t.buffer.ids.contains(x));
    if let Some(i) = newest_part(s.segments, x) {
        lemma_newest_part(s.segments, x);
        let h = s.segments[i].index;
        let r = t.segments[i].index;
        assert(r.vectors == h.vectors && r.ids == h.ids && r.deleted == h.deleted);
        assert(r.slot(x) == h.slot(x));
    }
    if s.coherent() {
        assert forall|id: VectorId| #[trigger] t.buffer.contains(id) implies !queue_live(
            t.sealing,
            id,
        ) && !parts_live(t.segments, id) by {
            assert(t.buffer.ids.contains(id));
        }
        assert forall|i: int, j: int, id: VectorId|
            0 <= i < t.segments.len() && 0 <= j < t.segments.len()
                && #[trigger] t.segments[i].live(id) && #[trigger] t.segments[j].live(
                id,
            ) implies i == j by {
            assert(s.segments[i].live(id) && s.segments[j].live(id));
        }
    }
}

/// Where the same ids live in the same places, the newest place is the same.
proof fn lemma_same_parts(s: Seq<Part>, t: Seq<Part>, x: VectorId)
    requires
        s.len() == t.len(),
        forall|i: int| 0 <= i < s.len() ==> (#[trigger] s[i]).live(x) == t[i].live(x),
    ensures
        newest_part(s, x) == newest_part(t, x),
        parts_live(s, x) <==> parts_live(t, x),
    decreases s.len(),
{
    lemma_newest_part(s, x);
    lemma_newest_part(t, x);
    if s.len() > 0 {
        assert(s[s.len() - 1].live(x) == t[s.len() - 1].live(x));
        assert forall|i: int| 0 <= i < s.len() - 1 implies (#[trigger] s.drop_last()[i]).live(x)
            == t.drop_last()[i].live(x) by {
            assert(s[i].live(x) == t[i].live(x));
        }
        lemma_same_parts(s.drop_last(), t.drop_last(), x);
    }
}

/// The metadata read back from its snapshot is what was written.
pub proof fn checkpoint_restores_the_metadata(s: Snapshot, meta: Map<u64, Fields>)
    requires
        lists_all(s, meta),
    ensures
        described_by(Map::empty(), s, s.len() as int) == meta,
{
    let m = described_by(Map::empty(), s, s.len() as int);
    assert forall|id: u64| #[trigger] m.contains_key(id) <==> meta.contains_key(id) by {
        lemma_described_by(s, s.len() as int, id);
        if m.contains_key(id) {
            let i = choose|i: int| 0 <= i < s.len() && (#[trigger] s[i]).0 == id && m[id] == s[i].1;
        }
    }
    assert forall|id: u64| m.contains_key(id) implies #[trigger] m[id] == meta[id] by {
        lemma_described_by(s, s.len() as int, id);
        let i = choose|i: int| 0 <= i < s.len() && (#[trigger] s[i]).0 == id && m[id] == s[i].1;
        assert(meta[s[i].0] == s[i].1);
    }
    assert(m =~= meta);
}

proof fn lemma_described_by(s: Snapshot, n: int, id: u64)
    requires
        0 <= n <= s.len(),
    ensures
        ({
            let m = described_by(Map::empty(), s, n);
            &&& m.contains_key(id) <==> exists|i: int| 0 <= i < n && (#[trigger] s[i]).0 == id
            &&& m.contains_key(id) ==> exists|i: int|
                0 <= i < n && (#[trigger] s[i]).0 == id && m[id] == s[i].1
        }),
    decreases n,
{
    if n > 0 {
        lemma_described_by(s, n - 1, id);
        let m = described_by(Map::empty(), s, n);
        assert(s[n - 1].0 == s[n - 1].0);
        if s[n - 1].0 == id {
            assert(m[id] == s[n - 1].1);
        }
    }
}

} // verus!
