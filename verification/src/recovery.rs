//! Recovery: from a manifest, the files it refers to, and the log.
//!
//! What the manifest says of dimension, metric and thresholds overrides what a
//! caller believes. Derived structures are rebuilt from the metadata.

use std::sync::Arc;
use vstd::prelude::*;
use crate::bruteforce::Brute;
use crate::catalog::{entered, field_number, left, number_index, valued, Records};
use crate::codec::crc32_of;
use crate::error::IndexError;
use crate::hnsw::{Hnsw, HnswIndex};
use crate::hnsw_file::loaded;
use crate::meta::{collected, Fields, Metadata};
use crate::numeric::Numeric;
use crate::numerics::{functional, model, Model, Numerics};
use crate::posting::{ascending, lemma_with_id, posting_insert, with_id};
use crate::record::{Operation, WalRecord};
use crate::segmented::{
    admission, newest_part, newest_queued, parts_slots, queue_slots, Part, Queued, Segment,
    SegmentedIndex, Store, StoredFile,
};
use crate::storage::{
    corrupt, crc_fault, decode_metadata, entries_view, reports, snapshot_of, verify_file, wal_name,
    FrameFault, Manifest, SegmentRef, Snapshot, StorageError,
};
use crate::types::VectorId;
use crate::wal::{record_meta, records_view};

verus! {

/// The dead of a segment, as a manifest lists them: in ascending order, each
/// once. Which records the segment holds does not matter.
pub open spec fn buried(ids: Seq<u64>) -> Seq<VectorId>
    decreases ids.len(),
{
    if ids.len() == 0 {
        Seq::empty()
    } else {
        with_id(buried(ids.drop_last()), VectorId(ids.last()))
    }
}

pub proof fn lemma_buried(ids: Seq<u64>)
    ensures
        ascending(buried(ids)),
        forall|id: VectorId| #[trigger] buried(ids).contains(id) <==> ids.contains(id.0),
    decreases ids.len(),
{
    if ids.len() > 0 {
        let t = ids.drop_last();
        let last = VectorId(ids.last());
        lemma_buried(t);
        lemma_with_id(buried(t), last);
        assert(ids[ids.len() - 1] == last.0);
        assert forall|id: VectorId| #[trigger] buried(ids).contains(id) <==> ids.contains(
            id.0,
        ) by {
            assert(buried(t).contains(id) <==> t.contains(id.0));
            if t.contains(id.0) {
                let i = choose|i: int| 0 <= i < t.len() && t[i] == id.0;
                assert(ids[i] == id.0);
            }
            if ids.contains(id.0) && id != last {
                let i = choose|i: int| 0 <= i < ids.len() && ids[i] == id.0;
                assert(t[i] == id.0);
            }
        }
    }
}

fn bury(ids: &Vec<u64>) -> (out: Vec<VectorId>)
    ensures
        out@ == buried(ids@),
{
    let mut out: Vec<VectorId> = Vec::new();
    let mut i: usize = 0;
    assert(ids@.take(0) =~= Seq::empty());
    while i < ids.len()
        invariant
            i <= ids@.len(),
            out@ == buried(ids@.take(i as int)),
        decreases ids@.len() - i,
    {
        proof {
            lemma_buried(ids@.take(i as int));
            assert(ids@.take(i + 1).drop_last() =~= ids@.take(i as int));
            assert(ids@.take(i + 1).last() == ids@[i as int]);
        }
        posting_insert(&mut out, VectorId(ids[i]));
        i = i + 1;
    }
    assert(ids@.take(i as int) =~= ids@);
    out
}

/// The metadata after the first `n` entries of a snapshot have been read.
pub open spec fn described_by(meta: Map<u64, Fields>, s: Snapshot, n: int) -> Map<u64, Fields>
    decreases n,
{
    if n <= 0 {
        meta
    } else {
        described_by(meta, s, n - 1).insert(s[n - 1].0, s[n - 1].1)
    }
}

/// What the first `n` entries of a snapshot make of the numeric index of a
/// field.
pub open spec fn numbered_by(before: Records, g: Model, s: Snapshot, n: int, f: Seq<char>) -> Option<
    Numeric,
>
    decreases n,
{
    if n <= 0 {
        number_index(before.numbers, f)
    } else {
        let id = VectorId(s[n - 1].0);
        entered(
            left(
                numbered_by(before, g, s, n - 1, f),
                valued(described_by(before.meta, s, n - 1), f, id),
                id,
            ),
            g,
            field_number(s[n - 1].1, f),
            id,
        )
    }
}

/// The store with one more segment.
pub open spec fn with_segment(
    s: Store,
    h: Hnsw,
    name: Seq<char>,
    crc: u32,
    tombstones: Seq<u64>,
) -> Store {
    Store {
        segments: s.segments.push(
            Part { index: h, dead: buried(tombstones), stored: Some((name, crc)), tag: s.next_tag },
        ),
        next_tag: (s.next_tag + 1) as u64,
        ..s
    }
}

/// The records of a segment's graph can be counted with those that are there.
pub open spec fn has_place(s: Store, h: Hnsw) -> bool {
    s.slots() + h.ids.len() <= usize::MAX
}

/// Two stores are the same but for what is derived from the metadata.
pub open spec fn alike(a: Store, b: Store) -> bool {
    a == (Store {
        records: Records { meta: b.records.meta, numbers: a.records.numbers },
        ..b
    })
}

/// What a logged operation makes of a store. A deletion of what is not there
/// does nothing: at a rotation of the log that is in order.
pub open spec fn applied(s: Store, g: Model, op: Operation) -> Result<Store, IndexError> {
    match op {
        Operation::Insert { id, vector, meta } => match admission(
            s.dim as usize,
            vector.len(),
            VectorId(id),
            s.buffer.contains(VectorId(id)),
        ) {
            Err(e) => Err(e),
            Ok(_) => Ok(
                Store {
                    records: Records {
                        meta: if collected(meta).len() == 0 {
                            s.records.meta
                        } else {
                            s.records.meta.insert(id, collected(meta))
                        },
                        numbers: s.records.numbers,
                    },
                    ..s.inserted(g, VectorId(id), vector)
                },
            ),
        },
        Operation::Delete { id } => Ok(
            if s.live(VectorId(id)) {
                Store {
                    records: Records {
                        meta: s.records.meta.remove(id),
                        numbers: s.records.numbers,
                    },
                    ..s.removed(VectorId(id))
                }
            } else {
                s
            },
        ),
    }
}

/// What the first `n` operations make of a store: the first one that is refused
/// ends it.
pub open spec fn after_log(s: Store, g: Model, ops: Seq<Operation>, n: int) -> Result<
    Store,
    IndexError,
>
    decreases n,
{
    if n <= 0 {
        Ok(s)
    } else {
        match after_log(s, g, ops, n - 1) {
            Err(e) => Err(e),
            Ok(t) => applied(t, g, ops[n - 1]),
        }
    }
}

/// What a logged operation makes of the numeric index of a field.
pub open spec fn renumbered(
    s: Store,
    g: Model,
    op: Operation,
    n: Option<Numeric>,
    f: Seq<char>,
) -> Option<Numeric> {
    match op {
        Operation::Insert { id, vector, meta } => if collected(meta).len() == 0 {
            n
        } else {
            entered(
                left(n, valued(s.records.meta, f, VectorId(id)), VectorId(id)),
                g,
                field_number(collected(meta), f),
                VectorId(id),
            )
        },
        Operation::Delete { id } => if s.live(VectorId(id)) {
            left(n, valued(s.records.meta, f, VectorId(id)), VectorId(id))
        } else {
            n
        },
    }
}

/// What the first `n` operations make of the numeric index of a field, where
/// none of them is refused.
pub open spec fn numbers_after(
    s: Store,
    g: Model,
    ops: Seq<Operation>,
    n: int,
    f: Seq<char>,
) -> Option<Numeric>
    decreases n,
{
    if n <= 0 {
        number_index(s.records.numbers, f)
    } else {
        renumbered(
            after_log(s, g, ops, n - 1)->Ok_0,
            g,
            ops[n - 1],
            numbers_after(s, g, ops, n - 1, f),
            f,
        )
    }
}

proof fn lemma_pushed_slots(s: Store)
    ensures
        s.sealed().slots() == s.slots(),
{
    if s.buffer.ids.len() > 0 {
        let t = s.sealed();
        assert(t.sealing.drop_last() =~= s.sealing);
        assert(t.buffer.ids.len() == 0);
    }
}

proof fn lemma_updated_queue_slots(s: Seq<Queued>, i: int, q: Queued)
    requires
        0 <= i < s.len(),
        q.data == s[i].data,
    ensures
        queue_slots(s.update(i, q)) == queue_slots(s),
    decreases s.len(),
{
    let t = s.update(i, q);
    if i < s.len() - 1 {
        assert(t.drop_last() =~= s.drop_last().update(i, q));
        lemma_updated_queue_slots(s.drop_last(), i, q);
    } else {
        assert(t.drop_last() =~= s.drop_last());
    }
}

proof fn lemma_updated_parts_slots(s: Seq<Part>, i: int, p: Part)
    requires
        0 <= i < s.len(),
        p.index == s[i].index,
    ensures
        parts_slots(s.update(i, p)) == parts_slots(s),
    decreases s.len(),
{
    let t = s.update(i, p);
    if i < s.len() - 1 {
        assert(t.drop_last() =~= s.drop_last().update(i, p));
        lemma_updated_parts_slots(s.drop_last(), i, p);
    } else {
        assert(t.drop_last() =~= s.drop_last());
    }
}

/// One operation takes at most one slot and one tag.
pub proof fn lemma_applied_room(s: Store, g: Model, op: Operation)
    requires
        s.formed(),
        s.next_tag < u64::MAX,
    ensures
        applied(s, g, op) matches Ok(t) ==> t.slots() <= s.slots() + 1 && t.next_tag <= s.next_tag
            + 1,
{
    match op {
        Operation::Insert { id, vector, .. } => {
            let b = s.buffer.inserted(g, VectorId(id), vector);
            let m = Store { buffer: b, ..s };
            assert(b.ids.len() == s.buffer.ids.len() + 1);
            lemma_pushed_slots(m);
        },
        Operation::Delete { id } => {
            let id = VectorId(id);
            crate::segmented::lemma_newest_queued(s.sealing, id);
            crate::segmented::lemma_newest_part(s.segments, id);
            if s.buffer.contains(id) {
                assert(s.buffer.removed(id).ids.len() <= s.buffer.ids.len());
            } else {
                match newest_queued(s.sealing, id) {
                    Some(i) => {
                        let q = s.sealing[i];
                        lemma_updated_queue_slots(
                            s.sealing,
                            i,
                            Queued { dead: with_id(q.dead, id), ..q },
                        );
                    },
                    None => match newest_part(s.segments, id) {
                        Some(i) => {
                            let p = s.segments[i];
                            lemma_updated_parts_slots(
                                s.segments,
                                i,
                                Part { dead: with_id(p.dead, id), ..p },
                            );
                        },
                        None => {},
                    },
                }
            }
        },
    }
}

/// Operations do not look at what is derived from the metadata.
proof fn lemma_alike(a: Store, b: Store, g: Model, op: Operation)
    requires
        alike(a, b),
    ensures
        match (applied(a, g, op), applied(b, g, op)) {
            (Ok(x), Ok(y)) => alike(x, y),
            (Err(x), Err(y)) => x == y,
            _ => false,
        },
{
}

impl SegmentedIndex {
    /// An empty index with the configuration that a manifest gives.
    pub fn from_manifest(manifest: &Manifest, path: &str) -> (r: Result<
        SegmentedIndex,
        StorageError,
    >)
        ensures
            match r {
                Ok(s) => {
                    &&& manifest.dim * 4 <= usize::MAX
                    &&& forall|g: Model| #[trigger] s.wf(g)
                    &&& s@ == (Store {
                        dim: manifest.dim as nat,
                        metric: manifest.metric,
                        params: manifest.hnsw_params,
                        seal_threshold: manifest.seal_threshold as usize,
                        max_segments: if manifest.max_segments as usize >= 2 {
                            manifest.max_segments as usize
                        } else {
                            2
                        },
                        segments: Seq::empty(),
                        sealing: Seq::empty(),
                        buffer: Brute::empty(manifest.dim as nat, manifest.metric),
                        records: (Records { meta: Map::empty(), numbers: Seq::empty() }),
                        generation: manifest.generation,
                        next_tag: 0,
                    })
                    &&& s.last_checkpoint == manifest.created_unix_secs
                },
                Err(e) => manifest.dim * 4 > usize::MAX && reports(
                    e,
                    path@,
                    FrameFault::Corrupt("dimension out of range"@),
                ),
            },
    {
        if manifest.dim > (usize::MAX / 4) as u64 {
            return Err(corrupt(path, "dimension out of range"));
        }
        let mut s = SegmentedIndex::new(
            manifest.dim as usize,
            manifest.metric,
            manifest.hnsw_params,
            manifest.seal_threshold as usize,
        );
        let ghost was = s;
        let max: usize = manifest.max_segments as usize;
        s.max_segments = if max >= 2 { max } else { 2 };
        s.generation = manifest.generation;
        s.last_checkpoint = manifest.created_unix_secs;
        assert forall|g: Model| #[trigger] s.wf(g) by {
            assert(was.wf(g));
        }
        Ok(s)
    }

    /// How many slots are taken.
    fn slot_count<N: Numerics>(&self, num: &N) -> (n: usize)
        requires
            self.wf(model(num)),
        ensures
            n == self@.slots(),
    {
        let mut n: usize = self.buffer.len();
        let mut i: usize = 0;
        let ghost st = self@;
        proof {
            assert(st.sealing.take(0) =~= Seq::empty());
            assert(st.segments.take(0) =~= Seq::empty());
            lemma_slots_prefix(st, 0, 0);
        }
        while i < self.sealing.len()
            invariant
                self.wf(model(num)),
                st == self@,
                i <= self.sealing@.len(),
                n == st.buffer.ids.len() + queue_slots(st.sealing.take(i as int)),
            decreases self.sealing@.len() - i,
        {
            proof {
                lemma_slots_prefix(st, i + 1, 0);
                assert(st.sealing.take(i + 1).drop_last() =~= st.sealing.take(i as int));
                assert(st.sealing.take(i + 1).last() == st.sealing[i as int]);
                assert(st.sealing[i as int] == self.sealing@[i as int]@);
            }
            n = n + self.sealing[i].data.len();
            i = i + 1;
        }
        assert(st.sealing.take(i as int) =~= st.sealing);
        i = 0;
        while i < self.segments.len()
            invariant
                self.wf(model(num)),
                st == self@,
                i <= self.segments@.len(),
                n == st.buffer.ids.len() + queue_slots(st.sealing) + parts_slots(
                    st.segments.take(i as int),
                ),
            decreases self.segments@.len() - i,
        {
            proof {
                lemma_slots_prefix(st, st.sealing.len() as int, i + 1);
                assert(st.sealing.take(st.sealing.len() as int) =~= st.sealing);
                assert(st.segments.take(i + 1).drop_last() =~= st.segments.take(i as int));
                assert(st.segments.take(i + 1).last() == st.segments[i as int]);
                assert(st.segments[i as int] == self.segments@[i as int]@);
            }
            n = n + self.segments[i].index.ids.len();
            i = i + 1;
        }
        assert(st.segments.take(i as int) =~= st.segments);
        n
    }

    /// Reads a segment from the bytes of its file. It is taken as it is, with the
    /// dimension, the metric and the dead that the file and the manifest give.
    pub fn attach_segment<N: Numerics>(
        &mut self,
        num: &N,
        sref: &SegmentRef,
        bytes: &[u8],
        path: &str,
    ) -> (r: Result<(), StorageError>)
        requires
            old(self).wf(model(num)),
            old(self)@.next_tag < u64::MAX,
        ensures
            final(self).wf(model(num)),
            final(self).last_checkpoint == old(self).last_checkpoint,
            match r {
                Ok(_) => {
                    &&& crc32_of(bytes@) == sref.crc32
                    &&& loaded(bytes@) matches Ok(h)
                    &&& has_place(old(self)@, h)
                    &&& final(self)@ == with_segment(
                        old(self)@,
                        h,
                        sref.file@,
                        sref.crc32,
                        sref.tombstones@,
                    )
                },
                Err(e) => {
                    &&& final(self)@ == old(self)@
                    &&& if crc32_of(bytes@) != sref.crc32 {
                        reports(
                            e,
                            path@,
                            FrameFault::Corrupt(crc_fault(sref.crc32, crc32_of(bytes@))),
                        )
                    } else {
                        match loaded(bytes@) {
                            Err(f) => e matches StorageError::Segment(p) && p@ == f,
                            Ok(h) => !has_place(old(self)@, h) && reports(
                                e,
                                path@,
                                FrameFault::Corrupt("more records than can be counted"@),
                            ),
                        }
                    }
                },
            },
    {
        match verify_file(bytes, sref.crc32, path) {
            Ok(_) => {},
            Err(e) => {
                return Err(e);
            },
        }
        let index: HnswIndex = match HnswIndex::load_from_bytes(bytes) {
            Ok(h) => h,
            Err(e) => {
                return Err(StorageError::Segment(e));
            },
        };
        let taken: usize = self.slot_count(num);
        if index.ids.len() > usize::MAX - taken {
            return Err(corrupt(path, "more records than can be counted"));
        }
        let ghost was = self@;
        let ghost segs = self.segments@;
        let tombstones: Vec<VectorId> = bury(&sref.tombstones);
        let part = Segment {
            index: Arc::new(index),
            tombstones,
            stored: Some(StoredFile { name: sref.file.clone(), crc32: sref.crc32 }),
            tag: self.next_tag,
        };
        let ghost h = index@;
        self.segments.push(part);
        self.next_tag = self.next_tag + 1;
        proof {
            let t = with_segment(was, h, sref.file@, sref.crc32, sref.tombstones@);
            lemma_with_segment_valid(was, h, sref.file@, sref.crc32, sref.tombstones@);
            assert(self@.segments =~= t.segments);
            assert(self@ == t);
            assert forall|j: int| 0 <= j < self.segments@.len() implies (*(
            #[trigger] self.segments@[j]).index).wf() by {
                if j < segs.len() {
                    assert(self.segments@[j] == segs[j]);
                }
            }
        }
        Ok(())
    }

    /// Reads the metadata from the bytes of its file.
    pub fn attach_metadata<N: Numerics>(&mut self, num: &N, bytes: &[u8], crc: u32, path: &str) -> (r:
        Result<(), StorageError>)
        requires
            functional(num),
            old(self).wf(model(num)),
        ensures
            final(self).wf(model(num)),
            final(self).last_checkpoint == old(self).last_checkpoint,
            match r {
                Ok(_) => {
                    &&& crc32_of(bytes@) == crc
                    &&& snapshot_of(bytes@) matches Ok(s)
                    &&& final(self)@ == (Store { records: final(self)@.records, ..old(self)@ })
                    &&& final(self)@.records.meta == described_by(
                        old(self)@.records.meta,
                        s,
                        s.len() as int,
                    )
                    &&& forall|f: Seq<char>| #[trigger]
                        number_index(final(self)@.records.numbers, f) == numbered_by(
                            old(self)@.records,
                            model(num),
                            s,
                            s.len() as int,
                            f,
                        )
                },
                Err(e) => {
                    &&& final(self)@ == old(self)@
                    &&& if crc32_of(bytes@) != crc {
                        reports(
                            e,
                            path@,
                            FrameFault::Corrupt(crc_fault(crc, crc32_of(bytes@))),
                        )
                    } else {
                        snapshot_of(bytes@) matches Err(fault) && reports(e, path@, fault)
                    }
                },
            },
    {
        match verify_file(bytes, crc, path) {
            Ok(_) => {},
            Err(e) => {
                return Err(e);
            },
        }
        let entries: Vec<(VectorId, Metadata)> = match decode_metadata(bytes, path) {
            Ok(es) => es,
            Err(e) => {
                return Err(e);
            },
        };
        let ghost was = self@;
        let ghost s = entries_view(entries@);
        let ghost all = entries@;
        let ghost mut done: int = 0;
        for entry in it: entries
            invariant
                functional(num),
                self.wf(model(num)),
                self.last_checkpoint == old(self).last_checkpoint,
                all == it.seq(),
                s == entries_view(all),
                done == it.index(),
                was == old(self)@,
                self@ == (Store { records: self@.records, ..was }),
                self@.records.meta == described_by(was.records.meta, s, done),
                forall|f: Seq<char>| #[trigger]
                    number_index(self@.records.numbers, f) == numbered_by(
                        was.records,
                        model(num),
                        s,
                        done,
                        f,
                    ),
                forall|i: int| 0 <= i < all.len() ==> (#[trigger] all[i]).1.wf(),
        {
            let ghost mid = self@;
            assert(entry == all[done]);
            self.catalog.index_metadata(num, entry.0, entry.1);
            proof {
                crate::segmented::lemma_records_changed(mid, self@.records);
                assert(self@ == (Store { records: self@.records, ..mid }));
                assert forall|f: Seq<char>| #[trigger]
                    number_index(self@.records.numbers, f) == numbered_by(
                        was.records,
                        model(num),
                        s,
                        done + 1,
                        f,
                    ) by {
                    assert(number_index(mid.records.numbers, f) == numbered_by(
                        was.records,
                        model(num),
                        s,
                        done,
                        f,
                    ));
                }
                done = done + 1;
            }
        }
        Ok(())
    }

    /// Applies one operation that was read from the log.
    pub fn apply_record<N: Numerics>(&mut self, num: &N, rec: WalRecord) -> (r: Result<
        (),
        IndexError,
    >)
        requires
            functional(num),
            old(self).wf(model(num)),
            old(self)@.has_room(),
        ensures
            final(self).last_checkpoint == old(self).last_checkpoint,
            final(self).wf(model(num)),
            match applied(old(self)@, model(num), rec@) {
                Ok(t) => r == Ok::<(), IndexError>(()) && alike(final(self)@, t) && forall|
                    f: Seq<char>,
                | #[trigger]
                    number_index(final(self)@.records.numbers, f) == renumbered(
                        old(self)@,
                        model(num),
                        rec@,
                        number_index(old(self)@.records.numbers, f),
                        f,
                    ),
                Err(e) => r == Err::<(), IndexError>(e) && final(self)@ == old(self)@,
            },
    {
        match rec {
            WalRecord::Insert { id, vector, meta } => {
                let meta: Metadata = record_meta(meta);
                self.apply_insert(num, VectorId(id), vector.as_slice(), meta)
            },
            WalRecord::Delete { id } => {
                match self.apply_delete(num, VectorId(id)) {
                    Ok(_) => {},
                    Err(_) => {},
                }
                Ok(())
            },
        }
    }

    /// Applies the operations that were read from the log, in order. The first
    /// one that is refused ends it.
    pub fn replay_log<N: Numerics>(&mut self, num: &N, records: Vec<WalRecord>) -> (r: Result<
        (),
        StorageError,
    >)
        requires
            functional(num),
            old(self).wf(model(num)),
            old(self)@.slots() + records@.len() <= usize::MAX,
            old(self)@.next_tag + records@.len() <= u64::MAX,
        ensures
            final(self).last_checkpoint == old(self).last_checkpoint,
            final(self).wf(model(num)),
            match after_log(
                old(self)@,
                model(num),
                records_view(records@),
                records@.len() as int,
            ) {
                Ok(t) => r is Ok && alike(final(self)@, t) && forall|f: Seq<char>| #[trigger]
                    number_index(final(self)@.records.numbers, f) == numbers_after(
                        old(self)@,
                        model(num),
                        records_view(records@),
                        records@.len() as int,
                        f,
                    ),
                Err(e) => r == Err::<(), StorageError>(StorageError::Index(e)),
            },
    {
        let ghost g = model(num);
        let ghost was = self@;
        let ghost ops = records_view(records@);
        let ghost all = records@;
        let ghost mut done: int = 0;
        for rec in it: records
            invariant
                functional(num),
                g == model(num),
                self.wf(g),
                self.last_checkpoint == old(self).last_checkpoint,
                all == it.seq(),
                ops == records_view(all),
                done == it.index(),
                was == old(self)@,
                self@.slots() <= was.slots() + done,
                self@.next_tag <= was.next_tag + done,
                was.slots() + all.len() <= usize::MAX,
                was.next_tag + all.len() <= u64::MAX,
                after_log(was, g, ops, done) matches Ok(t) && alike(self@, t),
                forall|f: Seq<char>| #[trigger]
                    number_index(self@.records.numbers, f) == numbers_after(was, g, ops, done, f),
        {
            let ghost mid = self@;
            let ghost op = rec@;
            proof {
                assert(rec == all[done]);
                assert(op == ops[done]);
                lemma_applied_room(mid, g, op);
                lemma_alike(mid, after_log(was, g, ops, done)->Ok_0, g, op);
            }
            let ghost before = after_log(was, g, ops, done)->Ok_0;
            match self.apply_record(num, rec) {
                Ok(_) => {
                    assert forall|f: Seq<char>| #[trigger]
                        number_index(self@.records.numbers, f) == numbers_after(
                            was,
                            g,
                            ops,
                            done + 1,
                            f,
                        ) by {
                        assert(number_index(mid.records.numbers, f) == numbers_after(
                            was,
                            g,
                            ops,
                            done,
                            f,
                        ));
                        if let Operation::Delete { id } = op {
                            assert(mid.live(VectorId(id)) == before.live(VectorId(id)));
                        }
                    }
                },
                Err(e) => {
                    proof {
                        lemma_refused(was, g, ops, done + 1, ops.len() as int);
                    }
                    return Err(StorageError::Index(e));
                },
            }
            proof {
                done = done + 1;
            }
        }
        Ok(())
    }

    /// The name of the log that belongs to a manifest; before the first
    /// checkpoint there is none, and the log has a name of its own.
    pub fn log_name(manifest: Option<&Manifest>) -> (s: String)
        ensures
            s@ == (match manifest {
                None => wal_name(0),
                Some(m) => match m@.9 {
                    Some(f) => f,
                    None => wal_name(m.generation),
                },
            }),
    {
        match manifest {
            None => Manifest::wal_file_name(0),
            Some(m) => match &m.wal_file {
                Some(f) => f.clone(),
                None => Manifest::wal_file_name(m.generation),
            },
        }
    }
}

/// Once an operation is refused, later ones are not looked at.
proof fn lemma_refused(s: Store, g: Model, ops: Seq<Operation>, m: int, n: int)
    requires
        m <= n,
        after_log(s, g, ops, m) is Err,
    ensures
        after_log(s, g, ops, n) == after_log(s, g, ops, m),
    decreases n - m,
{
    if m < n {
        lemma_refused(s, g, ops, m, n - 1);
    }
}

pub proof fn lemma_slots_prefix(s: Store, i: int, j: int)
    requires
        0 <= i <= s.sealing.len(),
        0 <= j <= s.segments.len(),
    ensures
        0 <= queue_slots(s.sealing.take(i)) <= queue_slots(s.sealing),
        0 <= parts_slots(s.segments.take(j)) <= parts_slots(s.segments),
        s.buffer.ids.len() + queue_slots(s.sealing.take(i)) + parts_slots(s.segments.take(j))
            <= s.slots(),
{
    lemma_queue_prefix(s.sealing, i);
    lemma_parts_prefix(s.segments, j);
}

proof fn lemma_queue_prefix(s: Seq<Queued>, i: int)
    requires
        0 <= i <= s.len(),
    ensures
        0 <= queue_slots(s.take(i)) <= queue_slots(s),
    decreases s.len(),
{
    if i < s.len() {
        assert(s.drop_last().take(i) =~= s.take(i));
        lemma_queue_prefix(s.drop_last(), i);
    } else {
        assert(s.take(i) =~= s);
        if s.len() > 0 {
            lemma_queue_prefix(s.drop_last(), i - 1);
        }
    }
}

proof fn lemma_parts_prefix(s: Seq<Part>, i: int)
    requires
        0 <= i <= s.len(),
    ensures
        0 <= parts_slots(s.take(i)) <= parts_slots(s),
    decreases s.len(),
{
    if i < s.len() {
        assert(s.drop_last().take(i) =~= s.take(i));
        lemma_parts_prefix(s.drop_last(), i);
    } else {
        assert(s.take(i) =~= s);
        if s.len() > 0 {
            lemma_parts_prefix(s.drop_last(), i - 1);
        }
    }
}

pub proof fn lemma_with_segment_valid(
    s: Store,
    h: Hnsw,
    name: Seq<char>,
    crc: u32,
    tombstones: Seq<u64>,
)
    requires
        s.formed(),
        h.valid(),
        has_place(s, h),
        s.next_tag < u64::MAX,
    ensures
        ({
            let t = with_segment(s, h, name, crc, tombstones);
            &&& t.formed()
            &&& s.matched() && t.part_matches(t.segments.last()) ==> t.matched()
        }),
{
    let t = with_segment(s, h, name, crc, tombstones);
    lemma_buried(tombstones);
    assert(t.segments.drop_last() =~= s.segments);
    assert forall|i: int| 0 <= i < t.sealing.len() implies t.queued_fits(#[trigger] t.sealing[i]) by {
        assert(s.queued_fits(s.sealing[i]));
    }
    assert forall|i: int| 0 <= i < t.segments.len() implies t.part_formed(
        #[trigger] t.segments[i],
    ) by {
        if i < s.segments.len() {
            assert(s.part_formed(s.segments[i]));
            assert(t.segments[i] == s.segments[i]);
        }
    }
    assert forall|x: int, y: int| 0 <= x < y < t.segments.len() implies (
    #[trigger] t.segments[x]).tag < (#[trigger] t.segments[y]).tag by {
        assert(t.segments[x] == s.segments[x]);
        assert(s.part_formed(s.segments[x]));
        if y < s.segments.len() {
            assert(t.segments[y] == s.segments[y]);
        }
    }
    if s.matched() && t.part_matches(t.segments.last()) {
        assert forall|i: int| 0 <= i < t.segments.len() implies t.part_matches(
            #[trigger] t.segments[i],
        ) by {
            if i < s.segments.len() {
                assert(s.part_matches(s.segments[i]));
                assert(t.segments[i] == s.segments[i]);
            }
        }
    }
}

} // verus!
