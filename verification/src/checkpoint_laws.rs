//! What holds on disk while a checkpoint is under way.

use vstd::prelude::*;
use crate::checkpoint::{
    file_of, lemma_generation_changed, lemma_written_valid, manifest_for, pending, reference,
    restorable, snapshots, step_at, CheckpointStep, Pending,
};
use crate::codec::crc32_of;
use crate::hnsw::Hnsw;
use crate::hnsw_file::{loaded, reopened, Fault};
use crate::segmented::{Part, Store};
use crate::segmented_build::lemma_part_at;
use crate::storage::{
    collectable, collection_is_safe, file_names_are_distinct, metadata_name, segment_name,
    wal_name, ManifestImage,
};

verus! {

/// A directory: its files by their names, and the manifest that is read from it.
pub ghost struct Disk {
    pub files: Map<Seq<char>, Seq<u8>>,
    pub manifest: Option<ManifestImage>,
}

/// The name of a segment's file, of this generation or an earlier one.
pub open spec fn segment_by(name: Seq<char>, generation: u64) -> bool {
    exists|h: u64, i: usize| h <= generation && name == #[trigger] segment_name(h, i)
}

/// The name of a metadata snapshot, of this generation or an earlier one.
pub open spec fn metadata_by(name: Seq<char>, generation: u64) -> bool {
    exists|h: u64| h <= generation && name == #[trigger] metadata_name(h)
}

/// A manifest names its files as checkpoints do, of its generation or of earlier
/// ones.
pub open spec fn dated(m: ManifestImage) -> bool {
    &&& forall|i: int| 0 <= i < m.6.len() ==> segment_by((#[trigger] m.6[i]).0, m.0)
    &&& m.7 matches Some(f) ==> metadata_by(f, m.0)
    &&& m.9 matches Some(f) ==> f == wal_name(m.0)
}

impl Disk {
    /// The file is there, and has the checksum.
    pub open spec fn holds(self, name: Seq<char>, crc: u32) -> bool {
        self.files.contains_key(name) && crc32_of(self.files[name]) == crc
    }

    /// Every file that a manifest refers to is there, with its checksum where
    /// the manifest gives one.
    pub open spec fn complete(self, m: ManifestImage) -> bool {
        &&& forall|i: int| 0 <= i < m.6.len() ==> self.holds((#[trigger] m.6[i]).0, m.6[i].1)
        &&& m.7 matches Some(f) ==> self.holds(f, m.8)
        &&& m.9 matches Some(f) ==> self.files.contains_key(f)
    }

    /// The disk serves an index: the segments that have a file can be read from
    /// it, and the manifest refers to nothing that is missing. No file is of a later
    /// generation than what refers to it.
    pub open spec fn serves(self, s: Store) -> bool {
        &&& forall|i: int|
            0 <= i < s.segments.len() ==> ((#[trigger] s.segments[i]).stored matches Some(f) ==> {
                &&& self.holds(f.0, f.1)
                &&& loaded(self.files[f.0]) == Ok::<Hnsw, Fault>(reopened(s.segments[i].index))
                &&& segment_by(f.0, s.generation)
            })
        &&& self.manifest matches Some(m) ==> {
            &&& m.0 <= s.generation
            &&& self.complete(m)
            &&& dated(m)
        }
    }
}

proof fn lemma_by_later(name: Seq<char>, a: u64, b: u64)
    requires
        a <= b,
    ensures
        segment_by(name, a) ==> segment_by(name, b),
        metadata_by(name, a) ==> metadata_by(name, b),
{
    if segment_by(name, a) {
        let (h, i) = choose|h: u64, i: usize| h <= a && name == #[trigger] segment_name(h, i);
        assert(h <= b && name == segment_name(h, i));
    }
    if metadata_by(name, a) {
        let h = choose|h: u64| h <= a && name == #[trigger] metadata_name(h);
        assert(h <= b && name == metadata_name(h));
    }
}

/// One step of a checkpoint of `s`, as it changes the disk. The new log starts
/// out empty. Of the garbage, some may stay.
pub open spec fn leads(
    d: Disk,
    s: Store,
    metadata: Option<(Seq<char>, Seq<u8>)>,
    logging: bool,
    now: u64,
    step: CheckpointStep,
    e: Disk,
) -> bool {
    let generation = (s.generation + 1) as u64;
    let m = manifest_for(s, generation, metadata, logging, now);
    match step {
        CheckpointStep::WriteSegment(i) => {
            let w = pending(s.segments, generation, s.segments.len() as int)[i as int];
            e == (Disk { files: d.files.insert(w.1, w.2), ..d })
        },
        CheckpointStep::WriteMetadata => metadata matches Some(f) && e == (Disk {
            files: d.files.insert(f.0, f.1),
            ..d
        }),
        CheckpointStep::RotateWal => {
            &&& e.manifest == d.manifest
            &&& e.files.contains_key(wal_name(generation))
            &&& e.files[wal_name(generation)] == Seq::<u8>::empty()
            &&& forall|name: Seq<char>|
                name != wal_name(generation) && #[trigger] d.files.contains_key(name)
                    ==> e.files.contains_key(name) && e.files[name] == d.files[name]
        },
        CheckpointStep::WriteManifest => e == (Disk { manifest: Some(m), ..d }),
        CheckpointStep::CollectGarbage => {
            &&& e.manifest == d.manifest
            &&& forall|name: Seq<char>|
                !collectable(m, name) && #[trigger] d.files.contains_key(name)
                    ==> e.files.contains_key(name) && e.files[name] == d.files[name]
        },
        CheckpointStep::Finish => e == d,
    }
}

/// The index after it has been noted of the first `n` files that they are
/// written.
pub open spec fn noted(s: Store, w: Seq<Pending>, n: int) -> Store
    decreases n,
{
    if n <= 0 {
        s
    } else {
        noted(s, w, n - 1).written(w[n - 1].0, w[n - 1].1, crc32_of(w[n - 1].2))
    }
}

/// The place of the `j`-th file to write.
spec fn place(s: Seq<Part>, n: int, j: int) -> int
    decreases n,
{
    if n <= 0 {
        0
    } else if s[n - 1].stored is None && j == pending(s, 0, n - 1).len() {
        n - 1
    } else {
        place(s, n - 1, j)
    }
}

proof fn lemma_pending_len(s: Seq<Part>, g: u64, h: u64, n: int)
    ensures
        pending(s, g, n).len() == pending(s, h, n).len(),
        n >= 0 ==> pending(s, g, n).len() <= n,
    decreases n,
{
    if n > 0 {
        lemma_pending_len(s, g, h, n - 1);
    }
}

/// The `j`-th file belongs to the segment at its place, and places ascend.
proof fn lemma_place(s: Seq<Part>, g: u64, n: int, j: int)
    requires
        0 <= n <= s.len(),
        0 <= j < pending(s, g, n).len(),
    ensures
        0 <= place(s, n, j) < n,
        s[place(s, n, j)].stored is None,
        pending(s, g, n)[j] == (
            s[place(s, n, j)].tag,
            segment_name(g, place(s, n, j) as usize),
            file_of(s[place(s, n, j)].index),
        ),
        forall|i: int| 0 <= i < j ==> #[trigger] place(s, n, i) < place(s, n, j),
    decreases n,
{
    lemma_pending_len(s, g, 0, n - 1);
    let last = pending(s, g, n - 1).len() as int;
    if s[n - 1].stored is None && j == last {
        assert forall|i: int| 0 <= i < j implies #[trigger] place(s, n, i) < place(s, n, j) by {
            lemma_place(s, g, n - 1, i);
        }
    } else {
        lemma_place(s, g, n - 1, j);
        assert forall|i: int| 0 <= i < j implies #[trigger] place(s, n, i) < place(s, n, j) by {
            assert(place(s, n, i) == place(s, n - 1, i));
        }
    }
}

/// Every segment without a file has a place among the files to write.
proof fn lemma_placed(s: Seq<Part>, g: u64, n: int, i: int) -> (j: int)
    requires
        0 <= i < n <= s.len(),
        s[i].stored is None,
    ensures
        0 <= j < pending(s, g, n).len(),
        place(s, n, j) == i,
    decreases n,
{
    lemma_pending_len(s, g, 0, n - 1);
    if i == n - 1 {
        pending(s, g, n - 1).len() as int
    } else {
        let j = lemma_placed(s, g, n - 1, i);
        j
    }
}

/// What noting the first files leaves: the segments are the same but for their
/// files, and the files are the old ones and those that were written.
proof fn lemma_noted(s: Store, g: u64, n: int)
    requires
        s.valid(),
        s.segments.len() <= usize::MAX,
        0 <= n <= pending(s.segments, g, s.segments.len() as int).len(),
    ensures
        ({
            let w = pending(s.segments, g, s.segments.len() as int);
            let t = noted(Store { generation: g, ..s }, w, n);
            &&& t.valid()
            &&& t.generation == g
            &&& t.segments.len() == s.segments.len()
            &&& forall|i: int|
                0 <= i < s.segments.len() ==> (#[trigger] t.segments[i]) == (Part {
                    stored: t.segments[i].stored,
                    ..s.segments[i]
                })
            &&& forall|i: int|
                0 <= i < s.segments.len() && (#[trigger] t.segments[i]).stored
                    != s.segments[i].stored ==> exists|j: int|
                    0 <= j < n && #[trigger] place(s.segments, s.segments.len() as int, j) == i
                        && t.segments[i].stored == Some((w[j].1, crc32_of(w[j].2)))
        }),
    decreases n,
{
    let size = s.segments.len() as int;
    let w = pending(s.segments, g, size);
    let t = noted(Store { generation: g, ..s }, w, n);
    if n == 0 {
        lemma_generation_changed(s, g);
    } else {
        lemma_noted(s, g, n - 1);
        let before = noted(Store { generation: g, ..s }, w, n - 1);
        let (tag, name, bytes) = w[n - 1];
        lemma_place(s.segments, g, size, n - 1);
        let at = place(s.segments, size, n - 1);
        assert(before.segments[at].tag == tag);
        lemma_part_at(before, at);
        lemma_written_valid(before, tag, name, crc32_of(bytes));
        assert(t == before.written(tag, name, crc32_of(bytes)));
        assert forall|i: int|
            0 <= i < size && (#[trigger] t.segments[i]).stored != s.segments[i].stored implies exists|
            j: int,
        |
            0 <= j < n && #[trigger] place(s.segments, size, j) == i && t.segments[i].stored == Some(
                (w[j].1, crc32_of(w[j].2)),
            ) by {
            if i == at {
                assert(place(s.segments, size, n - 1) == i);
            } else {
                assert(t.segments[i] == before.segments[i]);
            }
        }
    }
}

/// How many steps come before the manifest is written.
pub open spec fn before_manifest(
    s: Store,
    metadata: Option<(Seq<char>, Seq<u8>)>,
    logging: bool,
) -> nat {
    pending(s.segments, (s.generation + 1) as u64, s.segments.len() as int).len() + (if metadata
        is Some {
        1nat
    } else {
        0nat
    }) + (if logging {
        1nat
    } else {
        0nat
    })
}

/// A name that a checkpoint of this generation gives to a file.
pub open spec fn fresh(name: Seq<char>, generation: u64) -> bool {
    ||| exists|i: usize| name == #[trigger] segment_name(generation, i)
    ||| name == metadata_name(generation)
    ||| name == wal_name(generation)
}

/// What the first `n` steps have brought about.
pub open spec fn reached(
    start: Disk,
    d: Disk,
    s: Store,
    metadata: Option<(Seq<char>, Seq<u8>)>,
    logging: bool,
    now: u64,
    n: nat,
) -> bool {
    let g = (s.generation + 1) as u64;
    let w = pending(s.segments, g, s.segments.len() as int);
    let l = before_manifest(s, metadata, logging);
    &&& forall|i: int|
        0 <= i < s.segments.len() ==> ((#[trigger] s.segments[i]).stored matches Some(f)
            ==> d.files.contains_key(f.0) && d.files[f.0] == start.files[f.0])
    &&& forall|j: int|
        0 <= j < w.len() && j < n ==> d.files.contains_key((#[trigger] w[j]).1)
            && d.files[w[j].1] == w[j].2
    &&& n > w.len() ==> (metadata matches Some(f) ==> d.files.contains_key(f.0) && d.files[f.0]
        == f.1)
    &&& n >= l && logging ==> d.files.contains_key(wal_name(g)) && d.files[wal_name(g)] == Seq::<
        u8,
    >::empty()
    &&& n <= l ==> d.manifest == start.manifest && forall|name: Seq<char>|
        #[trigger] start.files.contains_key(name) && !fresh(name, g) ==> d.files.contains_key(name)
            && d.files[name] == start.files[name]
    &&& n > l ==> d.manifest == Some(manifest_for(s, g, metadata, logging, now))
}

/// When the manifest is due, all that it refers to is there.
proof fn lemma_manifest_complete(
    start: Disk,
    d: Disk,
    s: Store,
    metadata: Option<(Seq<char>, Seq<u8>)>,
    logging: bool,
    now: u64,
    n: nat,
)
    requires
        s.segments.len() <= usize::MAX,
        start.serves(s),
        reached(start, d, s, metadata, logging, now, n),
        n >= before_manifest(s, metadata, logging),
    ensures
        d.complete(manifest_for(s, (s.generation + 1) as u64, metadata, logging, now)),
{
    let g = (s.generation + 1) as u64;
    let size = s.segments.len() as int;
    let w = pending(s.segments, g, size);
    let m = manifest_for(s, g, metadata, logging, now);
    assert forall|i: int| 0 <= i < m.6.len() implies d.holds((#[trigger] m.6[i]).0, m.6[i].1) by {
        assert(m.6[i] == reference(s.segments[i], g, i));
        if s.segments[i].stored is None {
            let j = lemma_placed(s.segments, g, size, i);
            lemma_place(s.segments, g, size, j);
            assert(d.files.contains_key(w[j].1));
        }
    }
}

/// A file of an earlier generation has no name that a checkpoint gives.
pub proof fn lemma_not_fresh(name: Seq<char>, a: u64, g: u64)
    requires
        a < g,
    ensures
        segment_by(name, a) ==> !fresh(name, g),
        metadata_by(name, a) ==> !fresh(name, g),
        name == wal_name(a) ==> !fresh(name, g),
{
    if segment_by(name, a) {
        let (h, k) = choose|h: u64, k: usize| h <= a && name == #[trigger] segment_name(h, k);
        assert forall|i: usize| #[trigger] segment_name(g, i) != name by {
            file_names_are_distinct(g, i, h, k);
        }
        file_names_are_distinct(h, k, g, k);
    }
    if metadata_by(name, a) {
        let h = choose|h: u64| h <= a && name == #[trigger] metadata_name(h);
        assert forall|i: usize| #[trigger] segment_name(g, i) != name by {
            file_names_are_distinct(g, i, h, i);
        }
        file_names_are_distinct(h, 0, g, 0);
    }
    if name == wal_name(a) {
        assert forall|i: usize| #[trigger] segment_name(g, i) != name by {
            file_names_are_distinct(g, i, a, i);
        }
        file_names_are_distinct(a, 0, g, 0);
        file_names_are_distinct(g, 0, a, 0);
    }
}

/// Until the new manifest is written, what the old one refers to is as it was.
pub proof fn lemma_old_complete(
    start: Disk,
    d: Disk,
    s: Store,
    metadata: Option<(Seq<char>, Seq<u8>)>,
    logging: bool,
    now: u64,
    n: nat,
)
    requires
        s.generation < u64::MAX,
        start.serves(s),
        reached(start, d, s, metadata, logging, now, n),
        n <= before_manifest(s, metadata, logging),
    ensures
        start.manifest matches Some(m) ==> {
            &&& d.complete(m)
            &&& forall|i: int|
                0 <= i < m.6.len() ==> d.files[(#[trigger] m.6[i]).0] == start.files[m.6[i].0]
            &&& m.7 matches Some(f) ==> d.files[f] == start.files[f]
            &&& m.9 matches Some(f) ==> d.files[f] == start.files[f]
        },
{
    let g = (s.generation + 1) as u64;
    if let Some(m) = start.manifest {
        assert forall|i: int| 0 <= i < m.6.len() implies d.holds((#[trigger] m.6[i]).0, m.6[i].1)
            && d.files[m.6[i].0] == start.files[m.6[i].0] by {
            lemma_not_fresh(m.6[i].0, m.0, g);
            assert(start.files.contains_key(m.6[i].0));
        }
        if let Some(f) = m.7 {
            lemma_not_fresh(f, m.0, g);
            assert(start.files.contains_key(f));
        }
        if let Some(f) = m.9 {
            lemma_not_fresh(f, m.0, g);
            assert(start.files.contains_key(f));
        }
    }
}

/// One step further.
proof fn lemma_step(
    start: Disk,
    d: Disk,
    e: Disk,
    s: Store,
    metadata: Option<(Seq<char>, Seq<u8>)>,
    logging: bool,
    now: u64,
    n: nat,
)
    requires
        s.valid(),
        s.segments.len() <= usize::MAX,
        s.generation < u64::MAX,
        start.serves(s),
        metadata matches Some(f) ==> f.0 == metadata_name((s.generation + 1) as u64),
        reached(start, d, s, metadata, logging, now, n),
        leads(
            d,
            s,
            metadata,
            logging,
            now,
            step_at(
                pending(s.segments, (s.generation + 1) as u64, s.segments.len() as int).len(),
                metadata is Some,
                logging,
                n,
            ),
            e,
        ),
    ensures
        reached(start, e, s, metadata, logging, now, n + 1),
{
    let g = (s.generation + 1) as u64;
    let size = s.segments.len() as int;
    let w = pending(s.segments, g, size);
    let m = manifest_for(s, g, metadata, logging, now);
    let l = before_manifest(s, metadata, logging);
    let step = step_at(w.len(), metadata is Some, logging, n);
    // Old files are not overwritten: the new ones have names of their own.
    assert forall|i: int|
        0 <= i < size && (#[trigger] s.segments[i]).stored is Some implies !fresh(
        (s.segments[i].stored->0).0,
        g,
    ) by {
        lemma_not_fresh((s.segments[i].stored->0).0, s.generation, g);
    }
    assert forall|j: int| 0 <= j < w.len() implies (#[trigger] w[j]).1 == segment_name(
        g,
        place(s.segments, size, j) as usize,
    ) && w[j].1 != metadata_name(g) && w[j].1 != wal_name(g) by {
        lemma_place(s.segments, g, size, j);
        file_names_are_distinct(g, place(s.segments, size, j) as usize, g, 0);
    }
    file_names_are_distinct(g, 0, g, 0);
    match step {
        CheckpointStep::WriteSegment(i) => {
            lemma_pending_len(s.segments, g, g, size);
            assert(i == n);
            assert forall|j: int| 0 <= j < n implies (#[trigger] w[j]).1 != w[n as int].1 by {
                lemma_place(s.segments, g, size, j);
                lemma_place(s.segments, g, size, n as int);
                file_names_are_distinct(
                    g,
                    place(s.segments, size, j) as usize,
                    g,
                    place(s.segments, size, n as int) as usize,
                );
            }
        },
        CheckpointStep::WriteMetadata => {},
        CheckpointStep::RotateWal => {},
        CheckpointStep::WriteManifest => {},
        CheckpointStep::CollectGarbage => {
            collection_is_safe(m, wal_name(g));
            assert forall|i: int| 0 <= i < size implies !collectable(
                m,
                reference(#[trigger] s.segments[i], g, i).0,
            ) by {
                assert(m.6[i] == reference(s.segments[i], g, i));
            }
            assert forall|j: int| 0 <= j < w.len() implies !collectable(m, (#[trigger] w[j]).1) by {
                lemma_place(s.segments, g, size, j);
                let i = place(s.segments, size, j);
                assert(reference(s.segments[i], g, i).0 == w[j].1);
            }
        },
        CheckpointStep::Finish => {},
    }
}

/// Every segment without a file is among the files to write.
pub proof fn lemma_pending_file(s: Seq<Part>, g: u64, n: int, i: int)
    requires
        0 <= i < n <= s.len(),
        s[i].stored is None,
    ensures
        exists|j: int|
            0 <= j < pending(s, g, n).len() && (#[trigger] pending(s, g, n)[j]).1 == segment_name(
                g,
                i as usize,
            ) && pending(s, g, n)[j].2 == file_of(s[i].index),
{
    let j = lemma_placed(s, g, n, i);
    lemma_place(s, g, n, j);
    assert(pending(s, g, n)[j].1 == segment_name(g, i as usize));
}

/// The new manifest names its files as checkpoints do.
pub proof fn lemma_new_manifest_dated(
    start: Disk,
    s: Store,
    metadata: Option<(Seq<char>, Seq<u8>)>,
    logging: bool,
    now: u64,
)
    requires
        s.generation < u64::MAX,
        start.serves(s),
        metadata matches Some(f) ==> f.0 == metadata_name((s.generation + 1) as u64),
    ensures
        dated(manifest_for(s, (s.generation + 1) as u64, metadata, logging, now)),
{
    let g = (s.generation + 1) as u64;
    let m = manifest_for(s, g, metadata, logging, now);
    assert forall|i: int| 0 <= i < m.6.len() implies segment_by((#[trigger] m.6[i]).0, g) by {
        assert(m.6[i] == reference(s.segments[i], g, i));
        match s.segments[i].stored {
            None => assert(m.6[i].0 == segment_name(g, i as usize)),
            Some(f) => lemma_by_later(f.0, s.generation, g),
        }
    }
    if metadata is Some {
        assert(m.7->0 == metadata_name(g));
    }
}

/// At every step of a checkpoint, and so wherever it is interrupted, the
/// manifest on disk refers only to files that are there, whole. It is the old
/// manifest until everything that the new one refers to is written. The disk
/// serves the index as it stands, so that the next checkpoint can start from
/// there.
pub proof fn checkpoint_is_safe_at_every_step(
    s: Store,
    metadata: Option<(Seq<char>, Seq<u8>)>,
    logging: bool,
    now: u64,
    disks: Seq<Disk>,
    n: int,
)
    requires
        s.valid(),
        s.segments.len() <= usize::MAX,
        s.generation < u64::MAX,
        snapshots(metadata, s.records.meta, (s.generation + 1) as u64),
        forall|i: int|
            0 <= i < s.segments.len() && (#[trigger] s.segments[i]).stored is None ==> restorable(
                s.segments[i],
            ),
        0 <= n < disks.len(),
        disks[0].serves(s),
        forall|i: int|
            0 <= i < n ==> leads(
                #[trigger] disks[i],
                s,
                metadata,
                logging,
                now,
                step_at(
                    pending(s.segments, (s.generation + 1) as u64, s.segments.len() as int).len(),
                    metadata is Some,
                    logging,
                    i as nat,
                ),
                disks[i + 1],
            ),
    ensures
        ({
            let g = (s.generation + 1) as u64;
            let w = pending(s.segments, g, s.segments.len() as int);
            let next = Store { generation: g, ..s };
            &&& disks[n].serves(
                noted(
                    next,
                    w,
                    if n <= w.len() {
                        n
                    } else {
                        w.len() as int
                    },
                ),
            )
            &&& disks[n].manifest == (if n <= before_manifest(s, metadata, logging) {
                disks[0].manifest
            } else {
                Some(manifest_for(s, g, metadata, logging, now))
            })
            &&& disks[n].manifest matches Some(m) ==> disks[n].complete(m)
        }),
{
    let g = (s.generation + 1) as u64;
    let size = s.segments.len() as int;
    let w = pending(s.segments, g, size);
    let m = manifest_for(s, g, metadata, logging, now);
    let d = disks[n];
    lemma_reached(s, metadata, logging, now, disks, n);
    if n > before_manifest(s, metadata, logging) {
        lemma_manifest_complete(disks[0], d, s, metadata, logging, now, n as nat);
    } else {
        lemma_old_complete(disks[0], d, s, metadata, logging, now, n as nat);
    }
    let k = if n <= w.len() {
        n
    } else {
        w.len() as int
    };
    lemma_noted(s, g, k);
    let t = noted(Store { generation: g, ..s }, w, k);
    assert forall|i: int| 0 <= i < t.segments.len() implies ((
    #[trigger] t.segments[i]).stored matches Some(f) ==> d.holds(f.0, f.1) && loaded(d.files[f.0])
        == Ok::<Hnsw, Fault>(reopened(t.segments[i].index)) && segment_by(f.0, t.generation)) by {
        if t.segments[i].stored != s.segments[i].stored {
            let j = choose|j: int|
                0 <= j < k && #[trigger] place(s.segments, size, j) == i && t.segments[i].stored
                    == Some((w[j].1, crc32_of(w[j].2)));
            lemma_place(s.segments, g, size, j);
            assert(w[j].1 == segment_name(g, i as usize));
            assert(d.files.contains_key(w[j].1));
        } else if let Some(f) = s.segments[i].stored {
            lemma_by_later(f.0, s.generation, g);
        }
    }
    lemma_new_manifest_dated(disks[0], s, metadata, logging, now);
}

/// What is read from a file does not change when it is written and read again.
proof fn lemma_loaded_is_reopened(b: Seq<u8>)
    ensures
        loaded(b) matches Ok(h) ==> reopened(h) == h,
{
}

/// An index that is recovered from the manifest on a disk is served by that disk.
pub proof fn recovered_index_is_served(d: Disk, s: Store, t: Store)
    requires
        d.serves(s),
        d.manifest matches Some(m) && t.generation == m.0 && t.segments.len() == m.6.len()
            && forall|i: int|
            0 <= i < m.6.len() ==> (#[trigger] t.segments[i]).stored == Some((m.6[i].0, m.6[i].1))
                && loaded(d.files[m.6[i].0]) == Ok::<Hnsw, Fault>(t.segments[i].index),
    ensures
        d.serves(t),
{
    let m = d.manifest->0;
    assert forall|i: int| 0 <= i < t.segments.len() implies ((
    #[trigger] t.segments[i]).stored matches Some(f) ==> d.holds(f.0, f.1) && loaded(d.files[f.0])
        == Ok::<Hnsw, Fault>(reopened(t.segments[i].index)) && segment_by(f.0, t.generation)) by {
        assert(d.holds(m.6[i].0, m.6[i].1));
        lemma_loaded_is_reopened(d.files[m.6[i].0]);
    }
}

pub proof fn lemma_reached(
    s: Store,
    metadata: Option<(Seq<char>, Seq<u8>)>,
    logging: bool,
    now: u64,
    disks: Seq<Disk>,
    n: int,
)
    requires
        s.valid(),
        s.segments.len() <= usize::MAX,
        s.generation < u64::MAX,
        metadata matches Some(f) ==> f.0 == metadata_name((s.generation + 1) as u64),
        0 <= n < disks.len(),
        disks[0].serves(s),
        forall|i: int|
            0 <= i < n ==> leads(
                #[trigger] disks[i],
                s,
                metadata,
                logging,
                now,
                step_at(
                    pending(s.segments, (s.generation + 1) as u64, s.segments.len() as int).len(),
                    metadata is Some,
                    logging,
                    i as nat,
                ),
                disks[i + 1],
            ),
    ensures
        reached(disks[0], disks[n], s, metadata, logging, now, n as nat),
    decreases n,
{
    if n > 0 {
        lemma_reached(s, metadata, logging, now, disks, n - 1);
        let d = disks[n - 1];
        lemma_step(disks[0], d, disks[n], s, metadata, logging, now, (n - 1) as nat);
    }
}

} // verus!
