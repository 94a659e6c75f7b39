//! The segmented index: a write buffer, buffers that are being sealed, and
//! sealed segments.
//!
//! Insertions go to the buffer, a small exact index. A full buffer is put into
//! a queue, where its contents no longer change; a graph is built from it in
//! the background and takes its place as a segment. When there are too many
//! segments, the two smallest are rebuilt into one.
//!
//! Buffers in the queue and segments are immutable. A deletion from one of them
//! is noted in a list of tombstones of its own: an id that is deleted and
//! inserted again stays dead in its old place and lives in the buffer. Builds
//! work on a snapshot; what was deleted while a build ran is carried over when
//! its result is put in place.

use std::sync::Arc;
use vstd::prelude::*;
use crate::bruteforce::{Brute, BruteForceIndex};
use crate::catalog::{forgets, keeps, Catalog, Records};
use crate::distance::Metric;
use crate::error::IndexError;
use crate::graph::count_set;
use crate::hnsw::{Hnsw, HnswIndex, HnswParams};
use crate::meta::{Fields, Metadata};
use crate::numerics::{functional, model, Model, Numerics};
use crate::planner::{usual, PlannerConfig};
use crate::posting::{ascending, lemma_with_id, posting_contains, posting_insert, with_id};
use crate::types::VectorId;

verus! {

/// How many buffers may wait to be sealed before writers are slowed down: one
/// can wait while another is being built.
pub const QUEUE_LIMIT: usize = 2;

/// No writer waits longer than this.
pub const STALL_LIMIT_MS: u64 = 60_000;

/// A file on disk: its name and checksum.
#[derive(Debug)]
pub struct StoredFile {
    pub name: String,
    pub crc32: u32,
}

/// A buffer that is being sealed.
pub struct Sealing {
    pub data: Arc<BruteForceIndex>,
    pub tombstones: Vec<VectorId>,
    pub tag: u64,
}

/// A sealed segment.
pub struct Segment {
    pub index: Arc<HnswIndex>,
    pub tombstones: Vec<VectorId>,
    /// The segment's file, once it has been written.
    pub stored: Option<StoredFile>,
    pub tag: u64,
}

/// A [`Sealing`] as a value.
pub ghost struct Queued {
    pub data: Brute,
    pub dead: Seq<VectorId>,
    pub tag: u64,
}

impl Queued {
    pub open spec fn live(self, id: VectorId) -> bool {
        self.data.contains(id) && !self.dead.contains(id)
    }

    /// How many records live here.
    pub open spec fn weight(self) -> int {
        self.data.ids.len() - self.dead.len()
    }
}

/// A [`Segment`] as a value.
pub ghost struct Part {
    pub index: Hnsw,
    pub dead: Seq<VectorId>,
    pub stored: Option<(Seq<char>, u32)>,
    pub tag: u64,
}

impl Part {
    pub open spec fn live(self, id: VectorId) -> bool {
        self.index.contains(id) && !self.dead.contains(id)
    }

    /// How many records are counted here: those of the graph, less as many as
    /// are listed as dead.
    pub open spec fn weight(self) -> int {
        self.index.ids.len() - count_set(self.index.deleted) - self.dead.len()
    }
}

impl View for Sealing {
    type V = Queued;

    open spec fn view(&self) -> Queued {
        Queued { data: (*self.data)@, dead: self.tombstones@, tag: self.tag }
    }
}

pub open spec fn stored_view(s: Option<StoredFile>) -> Option<(Seq<char>, u32)> {
    match s {
        Some(f) => Some((f.name@, f.crc32)),
        None => None,
    }
}

impl View for Segment {
    type V = Part;

    open spec fn view(&self) -> Part {
        Part {
            index: (*self.index)@,
            dead: self.tombstones@,
            stored: stored_view(self.stored),
            tag: self.tag,
        }
    }
}

pub open spec fn queue_view(s: Seq<Sealing>) -> Seq<Queued> {
    Seq::new(s.len(), |i: int| s[i]@)
}

pub open spec fn parts_view(s: Seq<Segment>) -> Seq<Part> {
    Seq::new(s.len(), |i: int| s[i]@)
}

/// A [`SegmentedIndex`] as a value.
pub ghost struct Store {
    pub dim: nat,
    pub metric: Metric,
    pub params: HnswParams,
    pub seal_threshold: usize,
    pub max_segments: usize,
    pub segments: Seq<Part>,
    pub sealing: Seq<Queued>,
    pub buffer: Brute,
    pub records: Records,
    pub generation: u64,
    pub next_tag: u64,
}

pub open spec fn queue_weight(s: Seq<Queued>) -> int
    decreases s.len(),
{
    if s.len() == 0 {
        0
    } else {
        queue_weight(s.drop_last()) + s.last().weight()
    }
}

pub open spec fn parts_weight(s: Seq<Part>) -> int
    decreases s.len(),
{
    if s.len() == 0 {
        0
    } else {
        parts_weight(s.drop_last()) + s.last().weight()
    }
}

/// How many slots are taken, by dead records too.
pub open spec fn queue_slots(s: Seq<Queued>) -> int
    decreases s.len(),
{
    if s.len() == 0 {
        0
    } else {
        queue_slots(s.drop_last()) + s.last().data.ids.len()
    }
}

pub open spec fn parts_slots(s: Seq<Part>) -> int
    decreases s.len(),
{
    if s.len() == 0 {
        0
    } else {
        parts_slots(s.drop_last()) + s.last().index.ids.len()
    }
}

/// The newest entry of the queue in which the id lives.
pub open spec fn newest_queued(s: Seq<Queued>, id: VectorId) -> Option<int>
    decreases s.len(),
{
    if s.len() == 0 {
        None
    } else if s.last().live(id) {
        Some(s.len() - 1)
    } else {
        newest_queued(s.drop_last(), id)
    }
}

/// The newest segment in which the id lives.
pub open spec fn newest_part(s: Seq<Part>, id: VectorId) -> Option<int>
    decreases s.len(),
{
    if s.len() == 0 {
        None
    } else if s.last().live(id) {
        Some(s.len() - 1)
    } else {
        newest_part(s.drop_last(), id)
    }
}

/// Is the record alive in one of the entries?
pub open spec fn queue_live(s: Seq<Queued>, id: VectorId) -> bool {
    exists|i: int| 0 <= i < s.len() && (#[trigger] s[i]).live(id)
}

pub open spec fn parts_live(s: Seq<Part>, id: VectorId) -> bool {
    exists|i: int| 0 <= i < s.len() && (#[trigger] s[i]).live(id)
}

pub proof fn lemma_newest_queued(s: Seq<Queued>, id: VectorId)
    ensures
        match newest_queued(s, id) {
            Some(i) => 0 <= i < s.len() && s[i].live(id) && queue_live(s, id) && forall|j: int|
                i < j < s.len() ==> !(#[trigger] s[j]).live(id),
            None => !queue_live(s, id),
        },
    decreases s.len(),
{
    if s.len() > 0 {
        let t = s.drop_last();
        assert(s.last() == s[s.len() - 1]);
        if !s.last().live(id) {
            lemma_newest_queued(t, id);
            match newest_queued(t, id) {
                Some(i) => {
                    assert(s[i] == t[i]);
                    assert forall|j: int| i < j < s.len() implies !(#[trigger] s[j]).live(id) by {
                        if j < t.len() {
                            assert(t[j] == s[j]);
                        }
                    }
                },
                None => {
                    if queue_live(s, id) {
                        let i = choose|i: int| 0 <= i < s.len() && (#[trigger] s[i]).live(id);
                        assert(t[i] == s[i]);
                    }
                },
            }
        }
    }
}

pub proof fn lemma_newest_part(s: Seq<Part>, id: VectorId)
    ensures
        match newest_part(s, id) {
            Some(i) => 0 <= i < s.len() && s[i].live(id) && parts_live(s, id) && forall|j: int|
                i < j < s.len() ==> !(#[trigger] s[j]).live(id),
            None => !parts_live(s, id),
        },
    decreases s.len(),
{
    if s.len() > 0 {
        let t = s.drop_last();
        assert(s.last() == s[s.len() - 1]);
        if !s.last().live(id) {
            lemma_newest_part(t, id);
            match newest_part(t, id) {
                Some(i) => {
                    assert(s[i] == t[i]);
                    assert forall|j: int| i < j < s.len() implies !(#[trigger] s[j]).live(id) by {
                        if j < t.len() {
                            assert(t[j] == s[j]);
                        }
                    }
                },
                None => {
                    if parts_live(s, id) {
                        let i = choose|i: int| 0 <= i < s.len() && (#[trigger] s[i]).live(id);
                        assert(t[i] == s[i]);
                    }
                },
            }
        }
    }
}

/// What an insertion is answered.
pub open spec fn admission(expected: usize, got: nat, id: VectorId, taken: bool) -> Result<
    (),
    IndexError,
> {
    if got != expected {
        Err(IndexError::DimensionMismatch { expected, got: got as usize })
    } else if taken {
        Err(IndexError::DuplicateId(id))
    } else {
        Ok(())
    }
}

impl Store {
    /// Does a record with the id exist?
    pub open spec fn live(self, id: VectorId) -> bool {
        self.buffer.contains(id) || queue_live(self.sealing, id) || parts_live(self.segments, id)
    }

    /// How many records there are, as the parts count them.
    pub open spec fn size(self) -> int {
        parts_weight(self.segments) + queue_weight(self.sealing) + self.buffer.ids.len()
    }

    /// How many slots are taken.
    pub open spec fn slots(self) -> int {
        parts_slots(self.segments) + queue_slots(self.sealing) + self.buffer.ids.len()
    }

    /// The vector of a record, as it is stored where the record lives.
    pub open spec fn vector(self, id: VectorId) -> Option<Seq<u32>> {
        if self.buffer.contains(id) {
            Some(self.buffer.vectors[self.buffer.slot(id)])
        } else {
            match newest_queued(self.sealing, id) {
                Some(i) => Some(
                    self.sealing[i].data.vectors[self.sealing[i].data.slot(id)],
                ),
                None => match newest_part(self.segments, id) {
                    Some(i) => Some(
                        self.segments[i].index.vectors[self.segments[i].index.slot(id)],
                    ),
                    None => None,
                },
            }
        }
    }

    /// Every part is in order by itself.
    pub open spec fn formed(self) -> bool {
        &&& self.buffer.valid()
        &&& self.buffer.dim == self.dim
        &&& self.buffer.metric == self.metric
        &&& forall|i: int| 0 <= i < self.sealing.len() ==> self.queued_fits(#[trigger] self.sealing[i])
        &&& forall|i: int|
            0 <= i < self.segments.len() ==> self.part_formed(#[trigger] self.segments[i])
        &&& forall|i: int, j: int|
            0 <= i < j < self.sealing.len() ==> (#[trigger] self.sealing[i]).tag < (
            #[trigger] self.sealing[j]).tag
        &&& forall|i: int, j: int|
            0 <= i < j < self.segments.len() ==> (#[trigger] self.segments[i]).tag < (
            #[trigger] self.segments[j]).tag
        &&& self.slots() <= usize::MAX
        &&& self.dim <= usize::MAX
        &&& self.max_segments >= 2
    }

    pub open spec fn queued_fits(self, q: Queued) -> bool {
        &&& q.data.valid()
        &&& q.data.dim == self.dim
        &&& q.data.metric == self.metric
        &&& ascending(q.dead)
        &&& forall|id: VectorId| #[trigger] q.dead.contains(id) ==> q.data.contains(id)
        &&& q.tag < self.next_tag
    }

    pub open spec fn part_formed(self, p: Part) -> bool {
        &&& p.index.valid()
        &&& ascending(p.dead)
        &&& p.tag < self.next_tag
    }

    /// The segment has the dimension and the metric of the index, and its dead
    /// are records of its own.
    pub open spec fn part_matches(self, p: Part) -> bool {
        &&& p.index.dim == self.dim
        &&& p.index.metric == self.metric
        &&& forall|id: VectorId| #[trigger] p.dead.contains(id) ==> p.index.contains(id)
    }

    pub open spec fn part_fits(self, p: Part) -> bool {
        self.part_formed(p) && self.part_matches(p)
    }

    /// Every segment is like one that the index has built. A segment that was
    /// read from a file need not be: what a manifest lists is taken as it is.
    pub open spec fn matched(self) -> bool {
        forall|i: int| 0 <= i < self.segments.len() ==> self.part_matches(#[trigger] self.segments[i])
    }

    /// The parts fit together.
    pub open spec fn valid(self) -> bool {
        self.formed() && self.matched()
    }

    /// No segment lists more dead than it holds records.
    pub open spec fn countable(self) -> bool {
        forall|i: int| 0 <= i < self.segments.len() ==> (#[trigger] self.segments[i]).weight() >= 0
    }

    /// There is room for one more record and one more tag.
    pub open spec fn has_room(self) -> bool {
        self.slots() < usize::MAX && self.next_tag < u64::MAX
    }

    /// The buffer is put into the queue; an empty one stays.
    pub open spec fn sealed(self) -> Store {
        if self.buffer.ids.len() == 0 {
            self
        } else {
            Store {
                sealing: self.sealing.push(
                    Queued { data: self.buffer, dead: Seq::empty(), tag: self.next_tag },
                ),
                buffer: Brute::empty(self.dim, self.metric),
                next_tag: (self.next_tag + 1) as u64,
                ..self
            }
        }
    }

    /// A vector goes to the buffer; a full buffer is put into the queue.
    pub open spec fn inserted(self, g: Model, id: VectorId, v: Seq<u32>) -> Store {
        let s = Store { buffer: self.buffer.inserted(g, id, v), ..self };
        if s.buffer.ids.len() >= s.seal_threshold {
            s.sealed()
        } else {
            s
        }
    }

    /// The record is removed from the buffer, or marked as dead where it lives.
    pub open spec fn removed(self, id: VectorId) -> Store {
        if self.buffer.contains(id) {
            Store { buffer: self.buffer.removed(id), ..self }
        } else {
            match newest_queued(self.sealing, id) {
                Some(i) => {
                    let q = self.sealing[i];
                    Store {
                        sealing: self.sealing.update(i, Queued { dead: with_id(q.dead, id), ..q }),
                        ..self
                    }
                },
                None => match newest_part(self.segments, id) {
                    Some(i) => {
                        let p = self.segments[i];
                        Store {
                            segments: self.segments.update(i, Part { dead: with_id(p.dead, id), ..p }),
                            ..self
                        }
                    },
                    None => self,
                },
            }
        }
    }
}

/// The segmented index.
pub struct SegmentedIndex {
    pub dim: usize,
    pub metric: Metric,
    /// Parameters of the segments' graphs.
    pub hnsw_params: HnswParams,
    /// A buffer of this size is sealed.
    pub seal_threshold: usize,
    /// More segments than this are merged.
    pub max_segments: usize,
    pub segments: Vec<Segment>,
    /// The queue of buffers to seal, oldest first.
    pub sealing: Vec<Sealing>,
    pub buffer: BruteForceIndex,
    pub catalog: Catalog,
    pub planner: PlannerConfig,
    /// The last checkpoint.
    pub generation: u64,
    /// Unix time of the last checkpoint; 0 before the first.
    pub last_checkpoint: u64,
    pub next_tag: u64,
}

impl View for SegmentedIndex {
    type V = Store;

    open spec fn view(&self) -> Store {
        Store {
            dim: self.dim as nat,
            metric: self.metric,
            params: self.hnsw_params,
            seal_threshold: self.seal_threshold,
            max_segments: self.max_segments,
            segments: parts_view(self.segments@),
            sealing: queue_view(self.sealing@),
            buffer: self.buffer@,
            records: self.catalog@,
            generation: self.generation,
            next_tag: self.next_tag,
        }
    }
}

/// How many records a buffer is allocated for: up to the threshold, but no more
/// than 512 MiB of vectors.
pub open spec fn preallocated(seal_threshold: usize, dim: usize) -> int {
    let per_record = (if dim == 0 {
        1
    } else {
        dim as int
    }) * 4;
    let bound = 0x2000_0000int / per_record;
    if seal_threshold <= bound {
        seal_threshold as int
    } else {
        bound
    }
}

/// How many records to allocate a buffer for.
pub fn prealloc_records(seal_threshold: usize, dim: usize) -> (n: usize)
    requires
        dim * 4 <= usize::MAX,
    ensures
        n == preallocated(seal_threshold, dim),
{
    let per_record: usize = (if dim == 0 { 1 } else { dim }) * 4;
    let bound: usize = 0x2000_0000 / per_record;
    if seal_threshold <= bound {
        seal_threshold
    } else {
        bound
    }
}

impl SegmentedIndex {
    /// The representation of every part is in order.
    pub open spec fn wf(&self, g: Model) -> bool {
        &&& self@.formed()
        &&& self.buffer.wf()
        &&& forall|i: int| 0 <= i < self.sealing@.len() ==> (*(#[trigger] self.sealing@[i]).data).wf()
        &&& forall|i: int|
            0 <= i < self.segments@.len() ==> (*(#[trigger] self.segments@[i]).index).wf()
        &&& self.catalog.wf(g)
        &&& self.planner == usual()
        &&& self.dim * 4 <= usize::MAX
    }

    pub fn new(dim: usize, metric: Metric, hnsw_params: HnswParams, seal_threshold: usize) -> (r:
        Self)
        requires
            dim * 4 <= usize::MAX,
        ensures
            forall|g: Model| #[trigger] r.wf(g),
            r@ == (Store {
                dim: dim as nat,
                metric,
                params: hnsw_params,
                seal_threshold,
                max_segments: 8,
                segments: Seq::empty(),
                sealing: Seq::empty(),
                buffer: Brute::empty(dim as nat, metric),
                records: (Records { meta: Map::empty(), numbers: Seq::empty() }),
                generation: 0,
                next_tag: 0,
            }),
            r.last_checkpoint == 0,
    {
        let r = SegmentedIndex {
            dim,
            metric,
            hnsw_params,
            seal_threshold,
            max_segments: 8,
            segments: Vec::new(),
            sealing: Vec::new(),
            buffer: BruteForceIndex::with_capacity(
                dim,
                metric,
                prealloc_records(seal_threshold, dim),
            ),
            catalog: Catalog::new(),
            planner: PlannerConfig::default(),
            generation: 0,
            last_checkpoint: 0,
            next_tag: 0,
        };
        assert(r@.segments =~= Seq::empty());
        assert(r@.sealing =~= Seq::empty());
        r
    }

    /// Changes how many segments are kept before two are merged; at least two.
    pub fn set_max_segments<N: Numerics>(&mut self, num: &N, max: usize)
        requires
            old(self).wf(model(num)),
        ensures
            final(self).last_checkpoint == old(self).last_checkpoint,
            final(self).wf(model(num)),
            final(self)@ == (Store {
                max_segments: if max >= 2 {
                    max
                } else {
                    2
                },
                ..old(self)@
            }),
    {
        self.max_segments = if max >= 2 { max } else { 2 };
    }

    /// Changes the size at which a buffer is sealed; at least one.
    pub fn set_seal_threshold<N: Numerics>(&mut self, num: &N, n: usize)
        requires
            old(self).wf(model(num)),
        ensures
            final(self).last_checkpoint == old(self).last_checkpoint,
            final(self).wf(model(num)),
            final(self)@ == (Store {
                seal_threshold: if n >= 1 {
                    n
                } else {
                    1
                },
                ..old(self)@
            }),
    {
        self.seal_threshold = if n >= 1 { n } else { 1 };
    }

    pub fn seal_threshold(&self) -> (n: usize)
        ensures
            n == self@.seal_threshold,
    {
        self.seal_threshold
    }

    /// Does the id live in the queue?
    fn sealing_contains_live<N: Numerics>(&self, num: &N, id: VectorId) -> (b: bool)
        requires
            self.wf(model(num)),
        ensures
            b == queue_live(self@.sealing, id),
    {
        let mut i: usize = 0;
        while i < self.sealing.len()
            invariant
                self.wf(model(num)),
                i <= self.sealing@.len(),
                forall|j: int| 0 <= j < i ==> !(#[trigger] self@.sealing[j]).live(id),
            decreases self.sealing@.len() - i,
        {
            let s: &Sealing = &self.sealing[i];
            assert(self@.queued_fits(self@.sealing[i as int]));
            if s.data.contains(id) && !posting_contains(&s.tombstones, id) {
                assert(self@.sealing[i as int].live(id));
                return true;
            }
            i = i + 1;
        }
        false
    }

    /// Does the id live in a segment?
    fn segments_contain_live<N: Numerics>(&self, num: &N, id: VectorId) -> (b: bool)
        requires
            self.wf(model(num)),
        ensures
            b == parts_live(self@.segments, id),
    {
        let mut i: usize = 0;
        while i < self.segments.len()
            invariant
                self.wf(model(num)),
                i <= self.segments@.len(),
                forall|j: int| 0 <= j < i ==> !(#[trigger] self@.segments[j]).live(id),
            decreases self.segments@.len() - i,
        {
            let s: &Segment = &self.segments[i];
            assert(self@.part_formed(self@.segments[i as int]));
            if s.index.contains(id) && !posting_contains(&s.tombstones, id) {
                assert(self@.segments[i as int].live(id));
                return true;
            }
            i = i + 1;
        }
        false
    }

    /// Does a record with the id exist?
    pub fn contains_live<N: Numerics>(&self, num: &N, id: VectorId) -> (b: bool)
        requires
            self.wf(model(num)),
        ensures
            b == self@.live(id),
    {
        self.buffer.contains(id) || self.sealing_contains_live(num, id)
            || self.segments_contain_live(num, id)
    }

    /// Would an insertion be accepted? Nothing is changed, so that this can be
    /// asked before the insertion is logged.
    pub fn validate_insert<N: Numerics>(&self, num: &N, id: VectorId, vector: &[u32]) -> (r: Result<
        (),
        IndexError,
    >)
        requires
            self.wf(model(num)),
        ensures
            r == admission(self.dim, vector@.len(), id, self@.live(id)),
    {
        if vector.len() != self.dim {
            return Err(IndexError::DimensionMismatch { expected: self.dim, got: vector.len() });
        }
        if self.contains_live(num, id) {
            return Err(IndexError::DuplicateId(id));
        }
        Ok(())
    }

    /// Puts the buffer into the queue of buffers to seal, with an empty one in
    /// its place. Nothing becomes invisible.
    pub fn seal<N: Numerics>(&mut self, num: &N)
        requires
            old(self).wf(model(num)),
            old(self)@.next_tag < u64::MAX,
        ensures
            final(self).wf(model(num)),
            final(self)@ == old(self)@.sealed(),
            final(self).last_checkpoint == old(self).last_checkpoint,
    {
        if self.buffer.is_empty() {
            return;
        }
        let ghost was = self@;
        let mut fresh: BruteForceIndex = BruteForceIndex::with_capacity(
            self.dim,
            self.metric,
            prealloc_records(self.seal_threshold, self.dim),
        );
        std::mem::swap(&mut self.buffer, &mut fresh);
        let none: Vec<VectorId> = Vec::new();
        let entry = Sealing { data: Arc::new(fresh), tombstones: none, tag: self.next_tag };
        let ghost q = entry@;
        assert(q.dead =~= Seq::empty());
        let ghost before = self.sealing@;
        self.sealing.push(entry);
        self.next_tag = self.next_tag + 1;
        proof {
            assert(self@.sealing =~= was.sealing.push(q));
            assert(self@ == was.sealed());
            lemma_sealed_valid(was);
        }
    }
}

/// Whether the segments match depends on them, the dimension and the metric.
pub proof fn lemma_same_segments_match(s: Store, t: Store)
    requires
        s.matched(),
        t.segments == s.segments,
        t.dim == s.dim,
        t.metric == s.metric,
    ensures
        t.matched(),
{
    assert forall|i: int| 0 <= i < t.segments.len() implies t.part_matches(
        #[trigger] t.segments[i],
    ) by {
        assert(s.part_matches(s.segments[i]));
    }
}

pub proof fn lemma_sealed_valid(s: Store)
    requires
        s.formed(),
        s.next_tag < u64::MAX,
    ensures
        s.sealed().formed(),
        s.matched() ==> s.sealed().matched(),
        s.sealed().slots() == s.slots(),
{
    if s.buffer.ids.len() > 0 {
        let t = s.sealed();
        let q = t.sealing.last();
        assert(t.sealing.drop_last() =~= s.sealing);
        assert(q.dead.len() == 0);
        assert forall|i: int| 0 <= i < t.sealing.len() implies t.queued_fits(
            #[trigger] t.sealing[i],
        ) by {
            if i < s.sealing.len() {
                assert(t.sealing[i] == s.sealing[i]);
                assert(s.queued_fits(s.sealing[i]));
            }
        }
        assert forall|i: int| 0 <= i < t.segments.len() implies t.part_formed(
            #[trigger] t.segments[i],
        ) by {
            assert(s.part_formed(s.segments[i]));
        }
        if s.matched() {
            lemma_same_segments_match(s, t);
        }
        assert forall|i: int, j: int| 0 <= i < j < t.sealing.len() implies (
        #[trigger] t.sealing[i]).tag < (#[trigger] t.sealing[j]).tag by {
            assert(t.sealing[i] == s.sealing[i]);
            assert(s.queued_fits(s.sealing[i]));
        }
    }
}

/// What an insertion with metadata makes of the records.
pub open spec fn recorded(before: Records, after: Records, g: Model, id: VectorId, m: Fields) -> bool {
    if m.len() == 0 {
        after == before
    } else {
        keeps(before, after, g, id, m)
    }
}

proof fn lemma_queue_slots_same(s: Seq<Queued>, t: Seq<Queued>)
    requires
        s.len() == t.len(),
        forall|i: int| 0 <= i < s.len() ==> (#[trigger] s[i]).data.ids.len() == t[i].data.ids.len(),
    ensures
        queue_slots(s) == queue_slots(t),
    decreases s.len(),
{
    if s.len() > 0 {
        assert forall|i: int| 0 <= i < s.drop_last().len() implies (
        #[trigger] s.drop_last()[i]).data.ids.len() == t.drop_last()[i].data.ids.len() by {
            assert(s.drop_last()[i] == s[i] && t.drop_last()[i] == t[i]);
        }
        lemma_queue_slots_same(s.drop_last(), t.drop_last());
        assert(s.last() == s[s.len() - 1] && t.last() == t[t.len() - 1]);
    }
}

pub proof fn lemma_parts_slots_same(s: Seq<Part>, t: Seq<Part>)
    requires
        s.len() == t.len(),
        forall|i: int|
            0 <= i < s.len() ==> (#[trigger] s[i]).index.ids.len() == t[i].index.ids.len(),
    ensures
        parts_slots(s) == parts_slots(t),
    decreases s.len(),
{
    if s.len() > 0 {
        assert forall|i: int| 0 <= i < s.drop_last().len() implies (
        #[trigger] s.drop_last()[i]).index.ids.len() == t.drop_last()[i].index.ids.len() by {
            assert(s.drop_last()[i] == s[i] && t.drop_last()[i] == t[i]);
        }
        lemma_parts_slots_same(s.drop_last(), t.drop_last());
        assert(s.last() == s[s.len() - 1] && t.last() == t[t.len() - 1]);
    }
}

/// The same store with another buffer that is in order.
pub proof fn lemma_buffer_changed(s: Store, b: Brute)
    requires
        s.formed(),
        b.valid(),
        b.dim == s.dim,
        b.metric == s.metric,
        parts_slots(s.segments) + queue_slots(s.sealing) + b.ids.len() <= usize::MAX,
    ensures
        (Store { buffer: b, ..s }).formed(),
        s.matched() ==> (Store { buffer: b, ..s }).matched(),
{
    let t = Store { buffer: b, ..s };
    assert forall|i: int| 0 <= i < t.sealing.len() implies t.queued_fits(#[trigger] t.sealing[i]) by {
        assert(s.queued_fits(s.sealing[i]));
    }
    assert forall|i: int| 0 <= i < t.segments.len() implies t.part_formed(
        #[trigger] t.segments[i],
    ) by {
        assert(s.part_formed(s.segments[i]));
    }
    if s.matched() {
        lemma_same_segments_match(s, t);
    }
}

/// Marking a record as dead keeps everything in order.
pub proof fn lemma_removed_valid(s: Store, id: VectorId)
    requires
        s.formed(),
        !s.buffer.contains(id),
    ensures
        s.removed(id).formed(),
        s.matched() ==> s.removed(id).matched(),
        s.removed(id).slots() == s.slots(),
{
    let t = s.removed(id);
    lemma_newest_queued(s.sealing, id);
    lemma_newest_part(s.segments, id);
    match newest_queued(s.sealing, id) {
        Some(i) => {
            assert(s.queued_fits(s.sealing[i]));
            lemma_with_id(s.sealing[i].dead, id);
            assert forall|j: int| 0 <= j < t.sealing.len() implies t.queued_fits(
                #[trigger] t.sealing[j],
            ) by {
                assert(s.queued_fits(s.sealing[j]));
            }
            assert forall|j: int| 0 <= j < t.segments.len() implies t.part_formed(
                #[trigger] t.segments[j],
            ) by {
                assert(s.part_formed(s.segments[j]));
            }
            assert forall|x: int, y: int| 0 <= x < y < t.sealing.len() implies (
            #[trigger] t.sealing[x]).tag < (#[trigger] t.sealing[y]).tag by {
                assert(s.sealing[x].tag < s.sealing[y].tag);
            }
            lemma_queue_slots_same(s.sealing, t.sealing);
            if s.matched() {
                lemma_same_segments_match(s, t);
            }
        },
        None => match newest_part(s.segments, id) {
            Some(i) => {
                assert(s.part_formed(s.segments[i]));
                lemma_with_id(s.segments[i].dead, id);
                assert forall|j: int| 0 <= j < t.sealing.len() implies t.queued_fits(
                    #[trigger] t.sealing[j],
                ) by {
                    assert(s.queued_fits(s.sealing[j]));
                }
                assert forall|j: int| 0 <= j < t.segments.len() implies t.part_formed(
                    #[trigger] t.segments[j],
                ) by {
                    assert(s.part_formed(s.segments[j]));
                }
                assert forall|x: int, y: int| 0 <= x < y < t.segments.len() implies (
                #[trigger] t.segments[x]).tag < (#[trigger] t.segments[y]).tag by {
                    assert(s.segments[x].tag < s.segments[y].tag);
                }
                lemma_parts_slots_same(s.segments, t.segments);
                if s.matched() {
                    assert forall|j: int| 0 <= j < t.segments.len() implies t.part_matches(
                        #[trigger] t.segments[j],
                    ) by {
                        assert(s.part_matches(s.segments[j]));
                    }
                }
            },
            None => {},
        },
    }
}

impl SegmentedIndex {
    /// Inserts into memory. An insertion that was validated, and has been
    /// logged where there is a log, arrives here; so does a replayed one.
    pub fn apply_insert<N: Numerics>(
        &mut self,
        num: &N,
        id: VectorId,
        vector: &[u32],
        meta: Metadata,
    ) -> (r: Result<(), IndexError>)
        requires
            functional(num),
            old(self).wf(model(num)),
            old(self)@.has_room(),
            meta.wf(),
        ensures
            final(self).last_checkpoint == old(self).last_checkpoint,
            final(self).wf(model(num)),
            r == admission(old(self).dim, vector@.len(), id, old(self)@.buffer.contains(id)),
            r is Err ==> final(self)@ == old(self)@,
            r is Ok ==> final(self)@ == (Store {
                records: final(self)@.records,
                ..old(self)@.inserted(model(num), id, vector@)
            }) && recorded(
                old(self)@.records,
                final(self)@.records,
                model(num),
                id,
                meta@,
            ),
    {
        let ghost g = model(num);
        let ghost was = self@;
        match self.buffer.insert(num, id, vector) {
            Ok(_) => {},
            Err(e) => {
                return Err(e);
            },
        }
        proof {
            lemma_buffer_changed(was, self@.buffer);
            assert(self@ == (Store { buffer: was.buffer.inserted(g, id, vector@), ..was }));
        }
        let full: bool = self.buffer.len() >= self.seal_threshold;
        if !meta.is_empty() {
            let ghost mid = self@;
            self.catalog.index_metadata(num, id, meta);
            proof {
                lemma_records_changed(mid, self@.records);
                assert(self@ == (Store { records: self@.records, ..mid }));
            }
        }
        if full {
            self.seal(num);
        }
        Ok(())
    }

    /// Inserts, once the operation has been logged: `logged` says whether that
    /// went well. Nothing changes unless it did, so that a client that is told
    /// of an error never finds the record later.
    pub fn insert_logged<N: Numerics>(
        &mut self,
        num: &N,
        id: VectorId,
        vector: &[u32],
        meta: Metadata,
        logged: Result<(), String>,
    ) -> (r: Result<(), IndexError>)
        requires
            functional(num),
            old(self).wf(model(num)),
            old(self)@.has_room(),
            meta.wf(),
        ensures
            final(self).last_checkpoint == old(self).last_checkpoint,
            final(self).wf(model(num)),
            match (admission(old(self).dim, vector@.len(), id, old(self)@.live(id)), logged) {
                (Err(e), _) => r == Err::<(), IndexError>(e) && final(self)@ == old(self)@,
                (Ok(_), Err(why)) => (r matches Err(IndexError::Storage(t)) && t@ == why@)
                    && final(self)@ == old(self)@,
                (Ok(_), Ok(_)) => r == Ok::<(), IndexError>(()) && final(self)@ == (Store {
                    records: final(self)@.records,
                    ..old(self)@.inserted(model(num), id, vector@)
                }) && recorded(
                    old(self)@.records,
                    final(self)@.records,
                    model(num),
                    id,
                    meta@,
                ),
            },
    {
        match self.validate_insert(num, id, vector) {
            Ok(_) => {},
            Err(e) => {
                return Err(e);
            },
        }
        match logged {
            Ok(_) => self.apply_insert(num, id, vector, meta),
            Err(why) => Err(IndexError::Storage(why)),
        }
    }

    /// Inserts a vector with metadata, without a log.
    pub fn insert_with_meta<N: Numerics>(
        &mut self,
        num: &N,
        id: VectorId,
        vector: &[u32],
        meta: Metadata,
    ) -> (r: Result<(), IndexError>)
        requires
            functional(num),
            old(self).wf(model(num)),
            old(self)@.has_room(),
            meta.wf(),
        ensures
            final(self).last_checkpoint == old(self).last_checkpoint,
            final(self).wf(model(num)),
            r == admission(old(self).dim, vector@.len(), id, old(self)@.live(id)),
            r is Err ==> final(self)@ == old(self)@,
            r is Ok ==> final(self)@ == (Store {
                records: final(self)@.records,
                ..old(self)@.inserted(model(num), id, vector@)
            }) && recorded(
                old(self)@.records,
                final(self)@.records,
                model(num),
                id,
                meta@,
            ),
    {
        self.insert_logged(num, id, vector, meta, Ok(()))
    }

    /// Inserts a vector without metadata.
    pub fn insert_shared<N: Numerics>(&mut self, num: &N, id: VectorId, vector: &[u32]) -> (r: Result<
        (),
        IndexError,
    >)
        requires
            functional(num),
            old(self).wf(model(num)),
            old(self)@.has_room(),
        ensures
            final(self).last_checkpoint == old(self).last_checkpoint,
            final(self).wf(model(num)),
            r == admission(old(self).dim, vector@.len(), id, old(self)@.live(id)),
            final(self)@ == (if r is Ok {
                old(self)@.inserted(model(num), id, vector@)
            } else {
                old(self)@
            }),
    {
        self.insert_with_meta(num, id, vector, Metadata::new())
    }

    /// Removes a record from the buffer, or marks it as dead in the newest
    /// place where it lives.
    fn delete_vector_only<N: Numerics>(&mut self, num: &N, id: VectorId) -> (r: Result<
        (),
        IndexError,
    >)
        requires
            old(self).wf(model(num)),
        ensures
            final(self).last_checkpoint == old(self).last_checkpoint,
            final(self).wf(model(num)),
            r == (if old(self)@.live(id) {
                Ok(())
            } else {
                Err(IndexError::NotFound(id))
            }),
            final(self)@ == old(self)@.removed(id),
    {
        let ghost was = self@;
        proof {
            lemma_newest_queued(was.sealing, id);
            lemma_newest_part(was.segments, id);
        }
        if self.buffer.contains(id) {
            let r = self.buffer.delete(id);
            proof {
                lemma_buffer_changed(was, self@.buffer);
                assert(self@ == (Store { buffer: was.buffer.removed(id), ..was }));
            }
            return r;
        }
        let mut i: usize = self.sealing.len();
        assert(was.sealing.take(i as int) =~= was.sealing);
        while i > 0
            invariant
                *self == *old(self),
                self.wf(model(num)),
                was == self@,
                i <= self.sealing@.len(),
                !was.buffer.contains(id),
                newest_queued(was.sealing, id) == newest_queued(was.sealing.take(i as int), id),
            decreases i,
        {
            i = i - 1;
            let s: &Sealing = &self.sealing[i];
            proof {
                assert(was.queued_fits(was.sealing[i as int]));
                assert(was.sealing.take(i + 1).last() == was.sealing[i as int]);
                assert(was.sealing.take(i + 1).drop_last() =~= was.sealing.take(i as int));
            }
            if s.data.contains(id) && !posting_contains(&s.tombstones, id) {
                let ghost before = self.sealing@;
                proof {
                    lemma_removed_valid(was, id);
                }
                posting_insert(&mut self.sealing[i].tombstones, id);
                proof {
                    assert forall|j: int| 0 <= j < self.sealing@.len() && j != i implies (
                    #[trigger] self.sealing@[j]) == before[j] by {}
                    assert(self@.sealing =~= was.removed(id).sealing);
                    assert(self@ == was.removed(id));
                    assert forall|j: int| 0 <= j < self.sealing@.len() implies (*(
                    #[trigger] self.sealing@[j]).data).wf() by {
                        assert((*before[j].data).wf());
                    }
                }
                return Ok(());
            }
        }
        let mut i: usize = self.segments.len();
        assert(was.segments.take(i as int) =~= was.segments);
        while i > 0
            invariant
                *self == *old(self),
                self.wf(model(num)),
                was == self@,
                i <= self.segments@.len(),
                !was.buffer.contains(id),
                newest_queued(was.sealing, id) is None,
                newest_part(was.segments, id) == newest_part(was.segments.take(i as int), id),
            decreases i,
        {
            i = i - 1;
            let s: &Segment = &self.segments[i];
            proof {
                assert(was.part_formed(was.segments[i as int]));
                assert(was.segments.take(i + 1).last() == was.segments[i as int]);
                assert(was.segments.take(i + 1).drop_last() =~= was.segments.take(i as int));
            }
            if s.index.contains(id) && !posting_contains(&s.tombstones, id) {
                let ghost before = self.segments@;
                proof {
                    lemma_removed_valid(was, id);
                    lemma_newest_part(was.segments, id);
                }
                posting_insert(&mut self.segments[i].tombstones, id);
                proof {
                    assert forall|j: int| 0 <= j < self.segments@.len() && j != i implies (
                    #[trigger] self.segments@[j]) == before[j] by {}
                    assert(self@.segments =~= was.removed(id).segments);
                    assert(self@ == was.removed(id));
                    assert forall|j: int| 0 <= j < self.segments@.len() implies (*(
                    #[trigger] self.segments@[j]).index).wf() by {
                        assert((*before[j].index).wf());
                    }
                }
                return Ok(());
            }
        }
        Err(IndexError::NotFound(id))
    }

    /// Deletes from memory, with the record's metadata. A deletion that was
    /// logged arrives here; so does a replayed one.
    pub fn apply_delete<N: Numerics>(&mut self, num: &N, id: VectorId) -> (r: Result<(), IndexError>)
        requires
            functional(num),
            old(self).wf(model(num)),
        ensures
            final(self).last_checkpoint == old(self).last_checkpoint,
            final(self).wf(model(num)),
            r == (if old(self)@.live(id) {
                Ok(())
            } else {
                Err(IndexError::NotFound(id))
            }),
            r is Err ==> final(self)@ == old(self)@,
            r is Ok ==> final(self)@ == (Store {
                records: final(self)@.records,
                ..old(self)@.removed(id)
            }) && forgets(old(self)@.records, final(self)@.records, id),
    {
        let ghost was = self@;
        let r = self.delete_vector_only(num, id);
        match r {
            Ok(_) => {
                let ghost mid = self@;
                self.catalog.forget(num, id);
                proof {
                    lemma_records_changed(mid, self@.records);
                    assert(self@ == (Store { records: self@.records, ..mid }));
                }
                Ok(())
            },
            Err(e) => {
                proof {
                    lemma_newest_queued(was.sealing, id);
                    lemma_newest_part(was.segments, id);
                }
                Err(e)
            },
        }
    }

    /// Deletes, once the operation has been logged: `logged` says whether that
    /// went well. Nothing changes unless it did.
    pub fn delete_logged<N: Numerics>(
        &mut self,
        num: &N,
        id: VectorId,
        logged: Result<(), String>,
    ) -> (r: Result<(), IndexError>)
        requires
            functional(num),
            old(self).wf(model(num)),
        ensures
            final(self).last_checkpoint == old(self).last_checkpoint,
            final(self).wf(model(num)),
            match (old(self)@.live(id), logged) {
                (false, _) => r == Err::<(), IndexError>(IndexError::NotFound(id)) && final(self)@
                    == old(self)@,
                (true, Err(why)) => (r matches Err(IndexError::Storage(t)) && t@ == why@)
                    && final(self)@ == old(self)@,
                (true, Ok(_)) => r == Ok::<(), IndexError>(()) && final(self)@ == (Store {
                    records: final(self)@.records,
                    ..old(self)@.removed(id)
                }) && forgets(old(self)@.records, final(self)@.records, id),
            },
    {
        if !self.contains_live(num, id) {
            return Err(IndexError::NotFound(id));
        }
        match logged {
            Ok(_) => self.apply_delete(num, id),
            Err(why) => Err(IndexError::Storage(why)),
        }
    }

    /// Deletes a record, without a log.
    pub fn delete_shared<N: Numerics>(&mut self, num: &N, id: VectorId) -> (r: Result<
        (),
        IndexError,
    >)
        requires
            functional(num),
            old(self).wf(model(num)),
        ensures
            final(self).last_checkpoint == old(self).last_checkpoint,
            final(self).wf(model(num)),
            r == (if old(self)@.live(id) {
                Ok(())
            } else {
                Err(IndexError::NotFound(id))
            }),
            r is Err ==> final(self)@ == old(self)@,
            r is Ok ==> final(self)@ == (Store {
                records: final(self)@.records,
                ..old(self)@.removed(id)
            }) && forgets(old(self)@.records, final(self)@.records, id),
    {
        self.delete_logged(num, id, Ok(()))
    }

    /// The number of segments and of records in the buffer.
    pub fn shape(&self) -> (r: (usize, usize))
        ensures
            r.0 == self@.segments.len(),
            r.1 == self@.buffer.ids.len(),
    {
        (self.segments.len(), self.buffer.len())
    }

    /// The number of buffers that wait to be sealed.
    pub fn sealing_count(&self) -> (n: usize)
        ensures
            n == self@.sealing.len(),
    {
        self.sealing.len()
    }

    /// Should writers wait for the queue to drain? Only the queue counts: what
    /// leaves it becomes a segment, and those are merged on their own.
    pub fn must_stall(&self) -> (b: bool)
        ensures
            b == (self@.sealing.len() > QUEUE_LIMIT),
    {
        self.sealing.len() > QUEUE_LIMIT
    }

    /// Should a writer that has waited for so long go on waiting? A queue that
    /// does not drain is not waited for without end.
    pub fn keeps_stalling(&self, waited_ms: u64) -> (b: bool)
        ensures
            b == (self@.sealing.len() > QUEUE_LIMIT && waited_ms <= STALL_LIMIT_MS),
    {
        self.must_stall() && waited_ms <= STALL_LIMIT_MS
    }

    pub fn generation(&self) -> (n: u64)
        ensures
            n == self@.generation,
    {
        self.generation
    }

    /// Unix time of the last checkpoint; 0 before the first.
    pub fn last_checkpoint_unix(&self) -> (t: u64)
        ensures
            t == self.last_checkpoint,
    {
        self.last_checkpoint
    }
}

pub proof fn lemma_records_changed(s: Store, r: Records)
    requires
        s.formed(),
    ensures
        (Store { records: r, ..s }).formed(),
        s.matched() ==> (Store { records: r, ..s }).matched(),
{
    let t = Store { records: r, ..s };
    assert forall|i: int| 0 <= i < t.sealing.len() implies t.queued_fits(#[trigger] t.sealing[i]) by {
        assert(s.queued_fits(s.sealing[i]));
    }
    assert forall|i: int| 0 <= i < t.segments.len() implies t.part_formed(
        #[trigger] t.segments[i],
    ) by {
        assert(s.part_formed(s.segments[i]));
    }
    if s.matched() {
        lemma_same_segments_match(s, t);
    }
}

} // verus!
