//! Checkpoints of the segmented index.
//!
//! A checkpoint writes the segments that have no file yet, the metadata, and
//! last the manifest; files that the manifest does not refer to go after that.
//! So the manifest on disk is at every moment consistent with the files it
//! refers to: wherever a checkpoint is interrupted, the old manifest still
//! holds.

use vstd::prelude::*;
use crate::codec::{crc32, crc32_of};
use crate::hnsw::{Hnsw, HnswParams};
use crate::hnsw_file::{file_bytes, image_of, loaded, meta_bytes, params_parts, reopened, Fault};
use crate::meta::{lists_all, Fields, MetaRef, Metadata};
use crate::numerics::{model, Numerics};
use crate::segmented::{Part, Segment, SegmentedIndex, Store, StoredFile};
use crate::segmented_build::live_nodes;
use crate::storage::{
    encode_metadata, entries_view, framed, metadata_magic, metadata_name, segment_name,
    snapshot_bytes, snapshot_of, wal_name, Manifest, ManifestImage, SegmentImage, SegmentRef,
    StorageError,
};
use crate::types::VectorId;
use crate::wal::records_view;

verus! {

/// The file of a graph.
pub open spec fn file_of(h: Hnsw) -> Seq<u8> {
    file_bytes(meta_bytes(image_of(h)), h.vectors)
}

pub open spec fn raw_ids(ids: Seq<VectorId>) -> Seq<u64> {
    Seq::new(ids.len(), |i: int| ids[i].0)
}

/// What the manifest says of the segment at place `i`: an existing file stays,
/// a new one is named after the generation and the place.
pub open spec fn reference(p: Part, generation: u64, i: int) -> SegmentImage {
    let (name, crc) = match p.stored {
        Some(f) => f,
        None => (segment_name(generation, i as usize), crc32_of(file_of(p.index))),
    };
    (name, crc, live_nodes(p.index) as u64, raw_ids(p.dead))
}

/// A file to write: the segment's tag, the name and the bytes.
pub type Pending = (u64, Seq<char>, Seq<u8>);

/// The files to write for the first `n` segments.
pub open spec fn pending(s: Seq<Part>, generation: u64, n: int) -> Seq<Pending>
    decreases n,
{
    if n <= 0 {
        Seq::empty()
    } else {
        let rest = pending(s, generation, n - 1);
        let p = s[n - 1];
        match p.stored {
            Some(_) => rest,
            None => rest.push(
                (p.tag, segment_name(generation, (n - 1) as usize), file_of(p.index)),
            ),
        }
    }
}

/// Reading the segment's file gives its graph back.
pub open spec fn restorable(p: Part) -> bool {
    loaded(file_of(p.index)) == Ok::<Hnsw, Fault>(reopened(p.index))
}

/// A segment file to write.
pub struct SegmentWrite {
    pub tag: u64,
    pub name: String,
    pub bytes: Vec<u8>,
    pub crc32: u32,
}

pub open spec fn writes_view(s: Seq<SegmentWrite>) -> Seq<Pending> {
    Seq::new(s.len(), |i: int| (s[i].tag, s[i].name@, s[i].bytes@))
}

/// Everything that a checkpoint does, decided beforehand.
pub struct CheckpointPlan {
    pub generation: u64,
    pub segments: Vec<SegmentWrite>,
    /// Name and bytes of the metadata snapshot.
    pub metadata: Option<(String, Vec<u8>)>,
    /// Name of the new log.
    pub wal_file: Option<String>,
    pub manifest: Manifest,
}

/// One step of a checkpoint.
#[derive(Debug, Clone, Copy, PartialEq, Eq, Structural)]
pub enum CheckpointStep {
    /// Write a segment's file, and note that it has one.
    WriteSegment(usize),
    WriteMetadata,
    /// Open the new log in place of the old one.
    RotateWal,
    WriteManifest,
    /// Remove the files that the manifest does not refer to.
    CollectGarbage,
    Finish,
}

/// The step after `done` steps.
pub open spec fn step_at(segments: nat, metadata: bool, wal: bool, done: nat) -> CheckpointStep {
    let after_metadata = segments + (if metadata {
        1nat
    } else {
        0nat
    });
    let after_wal = after_metadata + (if wal {
        1nat
    } else {
        0nat
    });
    if done < segments {
        CheckpointStep::WriteSegment(done as usize)
    } else if done < after_metadata {
        CheckpointStep::WriteMetadata
    } else if done < after_wal {
        CheckpointStep::RotateWal
    } else if done == after_wal {
        CheckpointStep::WriteManifest
    } else if done == after_wal + 1 {
        CheckpointStep::CollectGarbage
    } else {
        CheckpointStep::Finish
    }
}

/// The manifest is written when every file that it refers to has been, and
/// files are removed only after that.
pub proof fn manifest_is_written_last(segments: nat, metadata: bool, wal: bool, a: nat, b: nat)
    requires
        segments <= usize::MAX,
    ensures
        step_at(segments, metadata, wal, a) == CheckpointStep::WriteManifest && (step_at(
            segments,
            metadata,
            wal,
            b,
        ) is WriteSegment || step_at(segments, metadata, wal, b) == CheckpointStep::WriteMetadata
            || step_at(segments, metadata, wal, b) == CheckpointStep::RotateWal) ==> b < a,
        step_at(segments, metadata, wal, a) == CheckpointStep::WriteManifest && step_at(
            segments,
            metadata,
            wal,
            b,
        ) == CheckpointStep::CollectGarbage ==> a < b,
        step_at(segments, metadata, wal, b) == CheckpointStep::Finish ==> exists|m: nat|
            m < b && #[trigger] step_at(segments, metadata, wal, m)
                == CheckpointStep::WriteManifest,
{
    let m = segments + (if metadata {
        1nat
    } else {
        0nat
    }) + (if wal {
        1nat
    } else {
        0nat
    });
    assert(step_at(segments, metadata, wal, m) == CheckpointStep::WriteManifest);
}

/// The manifest is not among the first `done` steps.
pub open spec fn old_manifest_stands(segments: nat, metadata: bool, wal: bool, done: nat) -> bool {
    forall|m: nat|
        m < done ==> #[trigger] step_at(segments, metadata, wal, m)
            != CheckpointStep::WriteManifest
}

impl CheckpointPlan {
    /// Where a checkpoint ends after `done` steps: the old log is written on,
    /// because the manifest on disk still refers to it.
    pub fn keeps_old_log(&self, done: usize) -> (b: bool)
        requires
            self.segments@.len() + 4 <= usize::MAX,
        ensures
            b == old_manifest_stands(
                self.segments@.len(),
                self.metadata is Some,
                self.wal_file is Some,
                done as nat,
            ),
    {
        let after_metadata: usize = self.segments.len() + (if self.metadata.is_some() {
            1
        } else {
            0
        });
        let after_wal: usize = after_metadata + (if self.wal_file.is_some() { 1 } else { 0 });
        proof {
            let n = self.segments@.len();
            assert(step_at(n, self.metadata is Some, self.wal_file is Some, after_wal as nat)
                == CheckpointStep::WriteManifest);
        }
        done <= after_wal
    }

    /// The step after `done` steps.
    pub fn step(&self, done: usize) -> (s: CheckpointStep)
        requires
            self.segments@.len() + 4 <= usize::MAX,
        ensures
            s == step_at(
                self.segments@.len(),
                self.metadata is Some,
                self.wal_file is Some,
                done as nat,
            ),
    {
        let segments: usize = self.segments.len();
        let after_metadata: usize = segments + (if self.metadata.is_some() { 1 } else { 0 });
        let after_wal: usize = after_metadata + (if self.wal_file.is_some() { 1 } else { 0 });
        if done < segments {
            CheckpointStep::WriteSegment(done)
        } else if done < after_metadata {
            CheckpointStep::WriteMetadata
        } else if done < after_wal {
            CheckpointStep::RotateWal
        } else if done == after_wal {
            CheckpointStep::WriteManifest
        } else if done == after_wal + 1 {
            CheckpointStep::CollectGarbage
        } else {
            CheckpointStep::Finish
        }
    }
}

/// The manifest of a store at a generation.
pub open spec fn manifest_for(
    s: Store,
    generation: u64,
    metadata: Option<(Seq<char>, Seq<u8>)>,
    wal: bool,
    now: u64,
) -> ManifestImage {
    (
        generation,
        s.dim as u64,
        s.metric.code(),
        params_parts(s.params),
        s.seal_threshold as u64,
        s.max_segments as u64,
        Seq::new(s.segments.len(), |i: int| reference(s.segments[i], generation, i)),
        match metadata {
            Some(f) => Some(f.0),
            None => None,
        },
        match metadata {
            Some(f) => crc32_of(f.1),
            None => 0,
        },
        if wal {
            Some(wal_name(generation))
        } else {
            None
        },
        now,
    )
}

pub open spec fn metadata_view(m: Option<(String, Vec<u8>)>) -> Option<(Seq<char>, Seq<u8>)> {
    match m {
        Some(f) => Some((f.0@, f.1@)),
        None => None,
    }
}

/// The snapshot file of the metadata; none where there is no metadata.
pub open spec fn snapshots(
    m: Option<(Seq<char>, Seq<u8>)>,
    meta: Map<u64, Fields>,
    generation: u64,
) -> bool {
    match m {
        Some(f) => {
            &&& f.0 == metadata_name(generation)
            &&& snapshot_of(f.1) matches Ok(s) && lists_all(s, meta) && s.len() > 0 && f.1
                == framed(metadata_magic(), snapshot_bytes(s))
        },
        None => meta =~= Map::<u64, Fields>::empty(),
    }
}

fn ids_of(list: &Vec<VectorId>) -> (out: Vec<u64>)
    ensures
        out@ == raw_ids(list@),
{
    let mut out: Vec<u64> = Vec::new();
    let mut i: usize = 0;
    while i < list.len()
        invariant
            i <= list@.len(),
            out@ =~= raw_ids(list@).take(i as int),
        decreases list@.len() - i,
    {
        out.push(list[i].0);
        i = i + 1;
    }
    assert(raw_ids(list@).take(i as int) =~= raw_ids(list@));
    out
}

impl SegmentedIndex {
    /// The metadata of every record, by ascending id.
    fn metadata_entries<N: Numerics>(&self, num: &N) -> (out: Vec<(VectorId, Metadata)>)
        requires
            self.wf(model(num)),
        ensures
            lists_all(entries_view(out@), self@.records.meta),
            forall|i: int| 0 <= i < out@.len() ==> (#[trigger] out@[i]).1.wf(),
    {
        let refs: Vec<(VectorId, MetaRef<'_>)> = self.catalog.metadata.iter();
        let ghost s = crate::meta::records_view(refs@);
        let mut out: Vec<(VectorId, Metadata)> = Vec::new();
        let mut i: usize = 0;
        while i < refs.len()
            invariant
                i <= refs@.len(),
                s == crate::meta::records_view(refs@),
                entries_view(out@) =~= s.take(i as int),
                forall|j: int| 0 <= j < refs@.len() ==> (#[trigger] refs@[j]).1.wf(),
                forall|j: int| 0 <= j < out@.len() ==> (#[trigger] out@[j]).1.wf(),
            decreases refs@.len() - i,
        {
            let ghost before = out@;
            out.push((refs[i].0, refs[i].1.to_metadata()));
            assert(entries_view(out@) =~= entries_view(before).push(s[i as int]));
            i = i + 1;
        }
        assert(s.take(i as int) =~= s);
        out
    }

    /// Decides on a checkpoint. Every record has to be in a segment: the buffer
    /// has been sealed, and the queue has drained. `logging` says whether there
    /// is a log to rotate, `now` is the time to note.
    pub fn plan_checkpoint<N: Numerics>(&mut self, num: &N, logging: bool, now: u64) -> (r: Result<
        CheckpointPlan,
        StorageError,
    >)
        requires
            old(self).wf(model(num)),
            old(self)@.buffer.ids.len() == 0,
            old(self)@.sealing.len() == 0,
            old(self)@.generation < u64::MAX,
        ensures
            final(self).last_checkpoint == old(self).last_checkpoint,
            final(self).wf(model(num)),
            final(self)@ == (Store {
                generation: (old(self)@.generation + 1) as u64,
                ..old(self)@
            }),
            match r {
                Ok(plan) => {
                    &&& plan.generation == old(self)@.generation + 1
                    &&& writes_view(plan.segments@) == pending(
                        old(self)@.segments,
                        plan.generation,
                        old(self)@.segments.len() as int,
                    )
                    &&& forall|i: int|
                        0 <= i < plan.segments@.len() ==> (#[trigger] plan.segments@[i]).crc32
                            == crc32_of(plan.segments@[i].bytes@)
                    &&& forall|i: int|
                        0 <= i < old(self)@.segments.len() && (
                        #[trigger] old(self)@.segments[i]).stored is None && 0
                            < old(self)@.segments[i].index.dim <= 1048576 ==> restorable(
                            old(self)@.segments[i],
                        )
                    &&& snapshots(
                        metadata_view(plan.metadata),
                        old(self)@.records.meta,
                        plan.generation,
                    )
                    &&& match plan.wal_file {
                        Some(f) => logging && f@ == wal_name(plan.generation),
                        None => !logging,
                    }
                    &&& plan.manifest@ == manifest_for(
                        old(self)@,
                        plan.generation,
                        metadata_view(plan.metadata),
                        logging,
                        now,
                    )
                },
                Err(_) => false,
            },
    {
        let ghost st = self@;
        let generation: u64 = self.generation + 1;
        self.generation = generation;
        proof {
            lemma_generation_changed(st, generation);
            assert(self@ == (Store { generation, ..st }));
        }
        let mut refs: Vec<SegmentRef> = Vec::new();
        let mut writes: Vec<SegmentWrite> = Vec::new();
        let mut i: usize = 0;
        let ghost wanted = Seq::new(
            st.segments.len(),
            |j: int| reference(st.segments[j], generation, j),
        );
        while i < self.segments.len()
            invariant
                self.wf(model(num)),
                self.last_checkpoint == old(self).last_checkpoint,
                st == old(self)@,
                generation == st.generation + 1,
                self@ == (Store { generation, ..st }),
                i <= self.segments@.len(),
                wanted == Seq::new(
                    st.segments.len(),
                    |j: int| reference(st.segments[j], generation, j),
                ),
                crate::storage::segment_refs_view(refs@) =~= wanted.take(i as int),
                writes_view(writes@) =~= pending(st.segments, generation, i as int),
                writes@.len() <= i,
                forall|j: int|
                    0 <= j < writes@.len() ==> (#[trigger] writes@[j]).crc32 == crc32_of(
                        writes@[j].bytes@,
                    ),
                forall|j: int|
                    0 <= j < i && (#[trigger] st.segments[j]).stored is None && 0
                        < st.segments[j].index.dim <= 1048576 ==> restorable(st.segments[j]),
            decreases self.segments@.len() - i,
        {
            let s: &Segment = &self.segments[i];
            proof {
                assert(st.segments[i as int] == s@);
                assert(st.part_formed(st.segments[i as int]));
            }
            let ghost before = refs@;
            let records: u64 = s.index.len() as u64;
            match &s.stored {
                Some(f) => {
                    refs.push(
                        SegmentRef {
                            file: f.name.clone(),
                            crc32: f.crc32,
                            records,
                            tombstones: ids_of(&s.tombstones),
                        },
                    );
                },
                None => {
                    let bytes: Vec<u8> = match s.index.to_bytes() {
                        Ok(b) => b,
                        Err(e) => {
                            return Err(StorageError::Segment(e));
                        },
                    };
                    let name: String = Manifest::segment_file_name(generation, i);
                    let crc: u32 = crc32(bytes.as_slice());
                    refs.push(
                        SegmentRef {
                            file: name.clone(),
                            crc32: crc,
                            records,
                            tombstones: ids_of(&s.tombstones),
                        },
                    );
                    let ghost old_writes = writes@;
                    writes.push(SegmentWrite { tag: s.tag, name, bytes, crc32: crc });
                    assert(writes_view(writes@) =~= writes_view(old_writes).push(
                        (s.tag, name@, bytes@),
                    ));
                },
            }
            assert(crate::storage::segment_refs_view(refs@) =~= crate::storage::segment_refs_view(
                before,
            ).push(wanted[i as int]));
            i = i + 1;
        }
        assert(wanted.take(i as int) =~= wanted);
        let entries: Vec<(VectorId, Metadata)> = self.metadata_entries(num);
        let metadata: Option<(String, Vec<u8>)> = if entries.len() == 0 {
            proof {
                assert forall|id: u64| !self@.records.meta.contains_key(id) by {
                    if self@.records.meta.contains_key(id) {
                        let s = entries_view(entries@);
                        let j = choose|j: int| 0 <= j < s.len() && (#[trigger] s[j]).0 == id;
                    }
                }
                assert(self@.records.meta =~= Map::empty());
            }
            None
        } else {
            Some((Manifest::metadata_file_name(generation), encode_metadata(&entries)))
        };
        let (metadata_file, metadata_crc): (Option<String>, u32) = match &metadata {
            Some(f) => (Some(f.0.clone()), crc32(f.1.as_slice())),
            None => (None, 0),
        };
        let wal_file: Option<String> = if logging {
            Some(Manifest::wal_file_name(generation))
        } else {
            None
        };
        let manifest = Manifest {
            generation,
            dim: self.dim as u64,
            metric: self.metric,
            hnsw_params: HnswParams {
                m: self.hnsw_params.m,
                m_max0: self.hnsw_params.m_max0,
                ef_construction: self.hnsw_params.ef_construction,
                ef_search: self.hnsw_params.ef_search,
                seed: self.hnsw_params.seed,
                tombstone_threshold: self.hnsw_params.tombstone_threshold,
            },
            seal_threshold: self.seal_threshold as u64,
            max_segments: self.max_segments as u64,
            segments: refs,
            metadata_file,
            metadata_crc,
            wal_file: if logging {
                Some(Manifest::wal_file_name(generation))
            } else {
                None
            },
            created_unix_secs: now,
        };
        let plan = CheckpointPlan { generation, segments: writes, metadata, wal_file, manifest };
        assert(plan.manifest@ == manifest_for(
            st,
            generation,
            metadata_view(plan.metadata),
            logging,
            now,
        ));
        Ok(plan)
    }

    /// Notes that a segment has been written to a file.
    pub fn segment_written<N: Numerics>(&mut self, num: &N, write: &SegmentWrite)
        requires
            old(self).wf(model(num)),
        ensures
            final(self).last_checkpoint == old(self).last_checkpoint,
            final(self).wf(model(num)),
            final(self)@ == old(self)@.written(write.tag, write.name@, write.crc32),
    {
        let ghost was = self@;
        let mut i: usize = 0;
        while i < self.segments.len() && self.segments[i].tag != write.tag
            invariant
                *self == *old(self),
                self.wf(model(num)),
                was == self@,
                i <= self.segments@.len(),
                forall|j: int| 0 <= j < i ==> (#[trigger] was.segments[j]).tag != write.tag,
            decreases self.segments@.len() - i,
        {
            assert(was.segments[i as int].tag == self.segments@[i as int].tag);
            i = i + 1;
        }
        if i < self.segments.len() {
            let ghost before = self.segments@;
            proof {
                assert(was.segments[i as int] == before[i as int]@);
                crate::segmented_build::lemma_part_at(was, i as int);
                lemma_written_valid(was, write.tag, write.name@, write.crc32);
            }
            self.segments[i].stored = Some(
                StoredFile { name: write.name.clone(), crc32: write.crc32 },
            );
            proof {
                assert forall|j: int| 0 <= j < self.segments@.len() && j != i implies (
                #[trigger] self.segments@[j]) == before[j] by {}
                assert(self@.segments =~= was.written(write.tag, write.name@, write.crc32).segments);
                assert(self@ == was.written(write.tag, write.name@, write.crc32));
                assert forall|j: int| 0 <= j < self.segments@.len() implies (*(
                #[trigger] self.segments@[j]).index).wf() by {
                    assert((*before[j].index).wf());
                }
            }
        }
    }

    /// Notes the time of a checkpoint.
    pub fn checkpoint_finished<N: Numerics>(&mut self, num: &N, now: u64)
        requires
            old(self).wf(model(num)),
        ensures
            final(self).wf(model(num)),
            final(self)@ == old(self)@,
            final(self).last_checkpoint == now,
    {
        self.last_checkpoint = now;
    }
}

impl Store {
    /// The segment with the tag has a file.
    pub open spec fn written(self, tag: u64, name: Seq<char>, crc: u32) -> Store {
        match crate::segmented_build::part_at(self.segments, tag) {
            Some(i) => Store {
                segments: self.segments.update(
                    i,
                    Part { stored: Some((name, crc)), ..self.segments[i] },
                ),
                ..self
            },
            None => self,
        }
    }
}

pub proof fn lemma_written_valid(s: Store, tag: u64, name: Seq<char>, crc: u32)
    requires
        s.formed(),
    ensures
        s.written(tag, name, crc).formed(),
        s.matched() ==> s.written(tag, name, crc).matched(),
{
    let t = s.written(tag, name, crc);
    if let Some(i) = crate::segmented_build::part_at(s.segments, tag) {
        assert(s.part_formed(s.segments[i]));
        assert forall|j: int| 0 <= j < t.segments.len() implies t.part_formed(
            #[trigger] t.segments[j],
        ) by {
            assert(s.part_formed(s.segments[j]));
        }
        assert forall|j: int| 0 <= j < t.sealing.len() implies t.queued_fits(
            #[trigger] t.sealing[j],
        ) by {
            assert(s.queued_fits(s.sealing[j]));
        }
        assert forall|x: int, y: int| 0 <= x < y < t.segments.len() implies (
        #[trigger] t.segments[x]).tag < (#[trigger] t.segments[y]).tag by {
            assert(s.segments[x].tag < s.segments[y].tag);
        }
        crate::segmented::lemma_parts_slots_same(s.segments, t.segments);
        if s.matched() {
            assert forall|j: int| 0 <= j < t.segments.len() implies t.part_matches(
                #[trigger] t.segments[j],
            ) by {
                assert(s.part_matches(s.segments[j]));
            }
        }
    }
}

pub proof fn lemma_generation_changed(s: Store, generation: u64)
    requires
        s.formed(),
    ensures
        (Store { generation, ..s }).formed(),
        s.matched() ==> (Store { generation, ..s }).matched(),
{
    let t = Store { generation, ..s };
    assert forall|i: int| 0 <= i < t.sealing.len() implies t.queued_fits(#[trigger] t.sealing[i]) by {
        assert(s.queued_fits(s.sealing[i]));
    }
    assert forall|i: int| 0 <= i < t.segments.len() implies t.part_formed(
        #[trigger] t.segments[i],
    ) by {
        assert(s.part_formed(s.segments[i]));
    }
    if s.matched() {
        crate::segmented::lemma_same_segments_match(s, t);
    }
}

} // verus!
