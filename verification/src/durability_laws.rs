//! What is given back after an interruption.
//!
//! The records of an index are backed by a disk: the files that the manifest
//! refers to, and the operations in the log, make them up. Every operation, and
//! every step of a checkpoint, keeps it so.

use vstd::prelude::*;
use crate::catalog::{forgets, Records};
use crate::checkpoint::{
    file_of, manifest_for, old_manifest_stands, pending, raw_ids, reference, restorable, snapshots,
    step_at, CheckpointStep,
};
use crate::checkpoint_laws::{
    before_manifest, dated, leads, lemma_new_manifest_dated, lemma_not_fresh, lemma_old_complete,
    lemma_pending_file, lemma_reached, reached, segment_by, Disk,
};
use crate::distance::Metric;
use crate::hnsw::Hnsw;
use crate::hnsw_file::{loaded, reopened, Fault};
use crate::meta::{ascending, lemma_collected_same, Fields};
use crate::numerics::{prepared, Model};
use crate::record::{record_bytes, Operation};
use crate::recovery::{after_log, alike, applied, has_place, described_by, with_segment};
use crate::recovery_laws::{
    checkpoint_restores_every_vector, checkpoint_restores_the_metadata, entry_after,
    entry_is_there_when_the_id_lives, in_turn, lemma_applied_entry, lemma_reattached, reattached,
    replay_restores_every_record, Entry,
};
use crate::segmented::{lemma_records_changed, recorded, Store};
use crate::segmented_build::{merged_graph, replaces, sealed_graph, stands_for, Pair};
use crate::segmented_laws::sealing_loses_nothing;
use crate::storage::{
    file_names_are_distinct, metadata_name, segment_name, snapshot_of, wal_name, ManifestImage,
};
use crate::types::VectorId;
use crate::vector_laws::{finished_merge_keeps_every_vector, finished_seal_keeps_every_vector};
use crate::wal::{
    appended_record_replays, cut_log_gives_a_prefix, frame_bytes, loggable, replayed,
};

verus! {

/// An index without records.
pub open spec fn blank(b: Store) -> bool {
    &&& b.valid()
    &&& b.segments.len() == 0
    &&& b.sealing.len() == 0
    &&& b.buffer.ids.len() == 0
    &&& b.next_tag == 0
    &&& b.records.meta == Map::<u64, Fields>::empty()
}

/// The first `n` segments that a manifest lists, read one after the other.
pub open spec fn opened(d: Disk, m: ManifestImage, b: Store, n: int) -> Option<Store>
    decreases n,
{
    if n <= 0 {
        Some(b)
    } else {
        match opened(d, m, b, n - 1) {
            None => None,
            Some(t) => match loaded(d.files[m.6[n - 1].0]) {
                Ok(h) => if has_place(t, h) {
                    Some(with_segment(t, h, m.6[n - 1].0, m.6[n - 1].1, m.6[n - 1].3))
                } else {
                    None
                },
                Err(_) => None,
            },
        }
    }
}

/// The index that the manifest on a disk describes, before the log.
pub open spec fn restored(d: Disk, b: Store) -> Option<Store> {
    match d.manifest {
        None => Some(b),
        Some(m) => match opened(d, m, b, m.6.len() as int) {
            None => None,
            Some(t) => match m.7 {
                None => Some(t),
                Some(f) => match snapshot_of(d.files[f]) {
                    Ok(s) => Some(
                        Store {
                            records: Records {
                                meta: described_by(t.records.meta, s, s.len() as int),
                                numbers: t.records.numbers,
                            },
                            ..t
                        },
                    ),
                    Err(_) => None,
                },
            },
        },
    }
}

/// The name of the log.
pub open spec fn log_of(d: Disk) -> Seq<char> {
    match d.manifest {
        None => wal_name(0),
        Some(m) => match m.9 {
            Some(f) => f,
            None => wal_name(m.0),
        },
    }
}

/// The operations in the log.
pub open spec fn logged(d: Disk) -> Seq<Operation> {
    replayed(d.files[log_of(d)], 0).records
}

/// The disk with one more operation in the log.
pub open spec fn appended(d: Disk, op: Operation) -> Disk {
    Disk {
        files: d.files.insert(
            log_of(d),
            d.files[log_of(d)] + frame_bytes(record_bytes(op)),
        ),
        ..d
    }
}

/// The disk backs an index: every record is what the files and the operations in
/// the log make of it. The log is there, and nothing in it is damaged.
pub open spec fn backs(d: Disk, b: Store, g: Model, s: Store) -> bool {
    &&& d.manifest matches Some(m) ==> dated(m)
    &&& d.files.contains_key(log_of(d))
    &&& replayed(d.files[log_of(d)], 0).reason is None
    &&& restored(d, b) matches Some(r) && {
        &&& r.valid()
        &&& r.coherent()
        &&& r.described()
        &&& r.dim == s.dim
        &&& r.metric == s.metric
        &&& forall|i: int| 0 <= i < logged(d).len() ==> #[trigger] in_turn(r, g, logged(d), i)
        &&& forall|x: VectorId| #[trigger]
            s.entry(x) == entry_after(
                r.entry(x),
                g,
                s.metric,
                logged(d),
                x,
                logged(d).len() as int,
            )
    }
}

/// An empty log backs a new index.
pub proof fn new_index_is_backed(d: Disk, b: Store, g: Model)
    requires
        blank(b),
        d.manifest is None,
        d.files.contains_key(wal_name(0)),
        d.files[wal_name(0)] == Seq::<u8>::empty(),
    ensures
        backs(d, b, g, b),
{
    assert forall|x: VectorId| !b.live(x) by {}
}

/// Recovery from a disk that backs an index gives every record back, as it was.
pub proof fn recovery_gives_back_every_record(d: Disk, b: Store, g: Model, s: Store)
    requires
        backs(d, b, g, s),
        g.sane(),
        (restored(d, b)->0).slots() + logged(d).len() <= usize::MAX,
        (restored(d, b)->0).next_tag + logged(d).len() <= u64::MAX,
    ensures
        after_log(restored(d, b)->0, g, logged(d), logged(d).len() as int) matches Ok(t) && {
            &&& t.valid()
            &&& t.coherent()
            &&& t.described()
            &&& forall|x: VectorId| #[trigger] t.entry(x) == s.entry(x)
            &&& forall|x: VectorId| #[trigger] t.live(x) <==> s.live(x)
        },
{
    let r = restored(d, b)->0;
    let n = logged(d).len() as int;
    replay_restores_every_record(r, g, logged(d), n, VectorId(0));
    let t = after_log(r, g, logged(d), n)->Ok_0;
    assert forall|x: VectorId| #[trigger] t.entry(x) == s.entry(x) by {
        replay_restores_every_record(r, g, logged(d), n, x);
    }
    assert forall|x: VectorId| #[trigger] t.live(x) <==> s.live(x) by {
        assert(t.entry(x) == s.entry(x));
        entry_is_there_when_the_id_lives(t, x);
        entry_is_there_when_the_id_lives(s, x);
    }
}

pub proof fn lemma_entry_prefix(
    start: Option<Entry>,
    g: Model,
    metric: Metric,
    a: Seq<Operation>,
    b: Seq<Operation>,
    x: VectorId,
    n: int,
)
    requires
        n <= a.len(),
        n <= b.len(),
        forall|i: int| 0 <= i < n ==> (#[trigger] a[i]) == b[i],
    ensures
        entry_after(start, g, metric, a, x, n) == entry_after(start, g, metric, b, x, n),
    decreases n,
{
    if n > 0 {
        assert(a[n - 1] == b[n - 1]);
        lemma_entry_prefix(start, g, metric, a, b, x, n - 1);
    }
}

/// The manifest does not name the log as a segment or as metadata.
proof fn lemma_log_apart(d: Disk)
    requires
        d.manifest matches Some(m) ==> dated(m),
    ensures
        d.manifest matches Some(m) ==> {
            &&& forall|i: int| 0 <= i < m.6.len() ==> (#[trigger] m.6[i]).0 != log_of(d)
            &&& m.7 matches Some(f) ==> f != log_of(d)
        },
{
    if let Some(m) = d.manifest {
        assert forall|i: int| 0 <= i < m.6.len() implies (#[trigger] m.6[i]).0 != log_of(d) by {
            assert(segment_by(m.6[i].0, m.0));
            let (h, k) = choose|h: u64, k: usize|
                h <= m.0 && m.6[i].0 == #[trigger] segment_name(h, k);
            file_names_are_distinct(h, k, m.0, k);
        }
        if let Some(f) = m.7 {
            let h = choose|h: u64| h <= m.0 && f == #[trigger] metadata_name(h);
            file_names_are_distinct(h, 0, m.0, 0);
        }
    }
}

/// What is restored depends on the files that the manifest refers to, and on
/// nothing else.
proof fn lemma_restored_same(d: Disk, e: Disk, b: Store)
    requires
        e.manifest == d.manifest,
        d.manifest matches Some(m) ==> {
            &&& forall|i: int|
                0 <= i < m.6.len() ==> e.files[(#[trigger] m.6[i]).0] == d.files[m.6[i].0]
            &&& m.7 matches Some(f) ==> e.files[f] == d.files[f]
        },
    ensures
        restored(e, b) == restored(d, b),
{
    if let Some(m) = d.manifest {
        lemma_opened_same(d, e, m, b, m.6.len() as int);
    }
}

proof fn lemma_opened_same(d: Disk, e: Disk, m: ManifestImage, b: Store, n: int)
    requires
        n <= m.6.len(),
        forall|i: int| 0 <= i < m.6.len() ==> e.files[(#[trigger] m.6[i]).0] == d.files[m.6[i].0],
    ensures
        opened(e, m, b, n) == opened(d, m, b, n),
    decreases n,
{
    if n > 0 {
        lemma_opened_same(d, e, m, b, n - 1);
        assert(e.files[m.6[n - 1].0] == d.files[m.6[n - 1].0]);
    }
}

/// An operation that is logged and then applied is backed.
pub proof fn logged_operation_is_backed(
    d: Disk,
    b: Store,
    g: Model,
    s: Store,
    op: Operation,
    t: Store,
)
    requires
        backs(d, b, g, s),
        s.valid(),
        s.coherent(),
        s.described(),
        loggable(op),
        op matches Operation::Insert { id, vector, .. } ==> vector.len() == s.dim && !s.live(
            VectorId(id),
        ),
        applied(s, g, op) matches Ok(u) && alike(t, u),
    ensures
        backs(appended(d, op), b, g, t),
        t.coherent(),
        t.described(),
{
    let e = appended(d, op);
    let r = restored(d, b)->0;
    let ops = logged(d);
    let n = ops.len() as int;
    let u = applied(s, g, op)->Ok_0;
    appended_record_replays(d.files[log_of(d)], op);
    assert(logged(e) =~= ops.push(op));
    lemma_log_apart(d);
    lemma_restored_same(d, e, b);
    lemma_applied_entry(s, g, op, VectorId(0));
    assert(t.coherent() == u.coherent());
    assert forall|x: VectorId| #[trigger] t.records.meta.contains_key(x.0) implies t.live(x) by {
        assert(u.live(x) == t.live(x));
    }
    assert forall|x: VectorId| #[trigger] t.entry(x) == entry_after(
        r.entry(x),
        g,
        t.metric,
        logged(e),
        x,
        n + 1,
    ) by {
        lemma_applied_entry(s, g, op, x);
        assert(t.entry(x) == u.entry(x));
        lemma_entry_prefix(r.entry(x), g, s.metric, ops, logged(e), x, n);
        assert(s.entry(x) == entry_after(r.entry(x), g, s.metric, ops, x, n));
    }
    assert forall|i: int| 0 <= i < n + 1 implies #[trigger] in_turn(r, g, logged(e), i) by {
        if let Operation::Insert { id, .. } = logged(e)[i] {
            let x = VectorId(id);
            lemma_entry_prefix(r.entry(x), g, r.metric, ops, logged(e), x, i);
            if i < n {
                assert(in_turn(r, g, ops, i));
                assert(logged(e)[i] == ops[i]);
            } else {
                assert(s.entry(x) == entry_after(r.entry(x), g, s.metric, ops, x, n));
                entry_is_there_when_the_id_lives(s, x);
            }
        }
    }
}

/// What an insertion does is what its record in the log says.
pub proof fn insertion_follows_its_record(
    s: Store,
    g: Model,
    id: VectorId,
    v: Seq<u32>,
    m: Fields,
    t: Store,
)
    requires
        !s.live(id),
        v.len() == s.dim,
        s.dim <= usize::MAX,
        ascending(m),
        t == (Store { records: t.records, ..s.inserted(g, id, v) }),
        recorded(s.records, t.records, g, id, m),
    ensures
        applied(s, g, Operation::Insert { id: id.0, vector: v, meta: m }) matches Ok(u) && alike(
            t,
            u,
        ),
{
    lemma_collected_same(m);
    assert(VectorId(id.0) == id);
}

/// What a deletion does is what its record in the log says.
pub proof fn deletion_follows_its_record(s: Store, g: Model, id: VectorId, t: Store)
    requires
        s.live(id),
        t == (Store { records: t.records, ..s.removed(id) }),
        forgets(s.records, t.records, id),
    ensures
        applied(s, g, Operation::Delete { id: id.0 }) matches Ok(u) && alike(t, u),
{
    assert(VectorId(id.0) == id);
}

/// However the log is cut short, recovery gives what the first of its operations
/// made of every record: none is half done, and none is passed over.
pub proof fn cut_log_loses_only_the_last_operations(
    d: Disk,
    b: Store,
    g: Model,
    s: Store,
    n: int,
    e: Disk,
)
    requires
        backs(d, b, g, s),
        g.sane(),
        0 <= n <= d.files[log_of(d)].len(),
        e == (Disk { files: d.files.insert(log_of(d), d.files[log_of(d)].take(n)), ..d }),
        (restored(d, b)->0).slots() + logged(d).len() <= usize::MAX,
        (restored(d, b)->0).next_tag + logged(d).len() <= u64::MAX,
    ensures
        logged(e).is_prefix_of(logged(d)),
        restored(e, b) == restored(d, b),
        after_log(restored(e, b)->0, g, logged(e), logged(e).len() as int) matches Ok(t) && {
            &&& t.valid()
            &&& t.coherent()
            &&& t.described()
            &&& forall|x: VectorId| #[trigger]
                t.entry(x) == entry_after(
                    (restored(d, b)->0).entry(x),
                    g,
                    s.metric,
                    logged(d),
                    x,
                    logged(e).len() as int,
                )
        },
{
    let r = restored(d, b)->0;
    let ops = logged(d);
    let k = logged(e).len() as int;
    lemma_log_apart(d);
    lemma_restored_same(d, e, b);
    cut_log_gives_a_prefix(d.files[log_of(d)], n);
    assert forall|i: int| 0 <= i < k implies #[trigger] in_turn(r, g, logged(e), i) by {
        assert(in_turn(r, g, ops, i));
        assert(logged(e)[i] == ops[i]);
        if let Operation::Insert { id, .. } = ops[i] {
            let x = VectorId(id);
            lemma_entry_prefix(r.entry(x), g, r.metric, ops, logged(e), x, i);
        }
    }
    replay_restores_every_record(r, g, logged(e), k, VectorId(0));
    let t = after_log(r, g, logged(e), k)->Ok_0;
    assert forall|x: VectorId| #[trigger] t.entry(x) == entry_after(
        r.entry(x),
        g,
        s.metric,
        ops,
        x,
        k,
    ) by {
        replay_restores_every_record(r, g, logged(e), k, x);
        lemma_entry_prefix(r.entry(x), g, r.metric, ops, logged(e), x, k);
    }
}

/// The files of a finished checkpoint, read back.
proof fn lemma_checkpoint_opened(d: Disk, b: Store, s: Store, m: ManifestImage, n: int)
    requires
        blank(b),
        s.valid(),
        b.dim == s.dim,
        b.metric == s.metric,
        0 <= n <= s.segments.len() <= u64::MAX,
        m.6.len() == s.segments.len(),
        forall|i: int|
            0 <= i < s.segments.len() ==> (#[trigger] m.6[i]).3 == raw_ids(s.segments[i].dead)
                && loaded(d.files[m.6[i].0]) == Ok::<Hnsw, Fault>(reopened(s.segments[i].index)),
    ensures
        opened(d, m, b, n) == Some(
            reattached(
                b,
                s.segments,
                Seq::new(m.6.len(), |i: int| (m.6[i].0, m.6[i].1)),
                n,
            ),
        ),
    decreases n,
{
    let files = Seq::new(m.6.len(), |i: int| (m.6[i].0, m.6[i].1));
    if n > 0 {
        lemma_checkpoint_opened(d, b, s, m, n - 1);
        lemma_reattached(b, s, files, n - 1);
        let u = reattached(b, s.segments, files, n - 1);
        let p = s.segments[n - 1];
        assert(s.part_fits(p));
        assert(m.6[n - 1].3 == raw_ids(p.dead));
        crate::recovery::lemma_slots_prefix(s, 0, n);
        assert(s.segments.take(n).drop_last() =~= s.segments.take(n - 1));
        assert(s.segments.take(n).last() == p);
        assert(has_place(u, reopened(p.index)));
    }
}

/// The disk goes on backing the index at every step of a checkpoint: wherever it
/// is interrupted, recovery gives every record back.
pub proof fn checkpoint_keeps_every_record(
    s: Store,
    b: Store,
    g: Model,
    metadata: Option<(Seq<char>, Seq<u8>)>,
    now: u64,
    disks: Seq<Disk>,
    n: int,
)
    requires
        blank(b),
        b.dim == s.dim,
        b.metric == s.metric,
        s.valid(),
        s.coherent(),
        s.described(),
        s.sealing.len() == 0,
        s.buffer.ids.len() == 0,
        s.segments.len() <= usize::MAX,
        s.generation < u64::MAX,
        snapshots(metadata, s.records.meta, (s.generation + 1) as u64),
        forall|i: int|
            0 <= i < s.segments.len() && (#[trigger] s.segments[i]).stored is None ==> restorable(
                s.segments[i],
            ),
        0 <= n < disks.len(),
        disks[0].serves(s),
        backs(disks[0], b, g, s),
        forall|i: int|
            0 <= i < n ==> leads(
                #[trigger] disks[i],
                s,
                metadata,
                true,
                now,
                step_at(
                    pending(s.segments, (s.generation + 1) as u64, s.segments.len() as int).len(),
                    metadata is Some,
                    true,
                    i as nat,
                ),
                disks[i + 1],
            ),
    ensures
        backs(disks[n], b, g, s),
{
    let next = (s.generation + 1) as u64;
    let start = disks[0];
    let d = disks[n];
    lemma_reached(s, metadata, true, now, disks, n);
    if n <= before_manifest(s, metadata, true) {
        lemma_old_complete(start, d, s, metadata, true, now, n as nat);
        lemma_restored_same(start, d, b);
        let h = match start.manifest {
            None => 0u64,
            Some(m) => m.0,
        };
        assert(log_of(start) == wal_name(h));
        lemma_not_fresh(wal_name(h), h, next);
        assert(start.files.contains_key(log_of(start)));
        assert(d.files[log_of(d)] == start.files[log_of(start)]);
    } else {
        lemma_finished_backs(s, b, g, metadata, now, start, d, n);
    }
}

/// The log that is written on where a checkpoint ends after `n` steps: the old
/// one as long as the old manifest stands.
pub open spec fn log_after(
    start: Disk,
    s: Store,
    metadata: Option<(Seq<char>, Seq<u8>)>,
    n: nat,
) -> Seq<char> {
    let next = (s.generation + 1) as u64;
    if old_manifest_stands(
        pending(s.segments, next, s.segments.len() as int).len(),
        metadata is Some,
        true,
        n,
    ) {
        log_of(start)
    } else {
        wal_name(next)
    }
}

/// Where a checkpoint ends early, whichever step it was that failed, the log
/// that is written on is the one that the manifest on disk refers to. So a write
/// that is logged later is recovered: once the operation is in that log, the
/// disk backs the index that has it.
///
/// Here `u` is the index as it stands then: the records of `s`, and possibly
/// notes of the files that were written.
pub proof fn write_after_a_failed_checkpoint_is_backed(
    s: Store,
    b: Store,
    g: Model,
    metadata: Option<(Seq<char>, Seq<u8>)>,
    now: u64,
    disks: Seq<Disk>,
    n: int,
    u: Store,
    op: Operation,
    t: Store,
)
    requires
        blank(b),
        b.dim == s.dim,
        b.metric == s.metric,
        s.valid(),
        s.coherent(),
        s.described(),
        s.sealing.len() == 0,
        s.buffer.ids.len() == 0,
        s.segments.len() <= usize::MAX,
        s.generation < u64::MAX,
        snapshots(metadata, s.records.meta, (s.generation + 1) as u64),
        forall|i: int|
            0 <= i < s.segments.len() && (#[trigger] s.segments[i]).stored is None ==> restorable(
                s.segments[i],
            ),
        0 <= n < disks.len(),
        disks[0].serves(s),
        backs(disks[0], b, g, s),
        forall|i: int|
            0 <= i < n ==> leads(
                #[trigger] disks[i],
                s,
                metadata,
                true,
                now,
                step_at(
                    pending(s.segments, (s.generation + 1) as u64, s.segments.len() as int).len(),
                    metadata is Some,
                    true,
                    i as nat,
                ),
                disks[i + 1],
            ),
        u.valid(),
        u.coherent(),
        u.described(),
        u.dim == s.dim,
        u.metric == s.metric,
        forall|x: VectorId| #[trigger] u.entry(x) == s.entry(x),
        loggable(op),
        op matches Operation::Insert { id, vector, .. } ==> vector.len() == u.dim && !u.live(
            VectorId(id),
        ),
        applied(u, g, op) matches Ok(v) && alike(t, v),
    ensures
        ({
            let log = log_after(disks[0], s, metadata, n as nat);
            &&& log == log_of(disks[n])
            &&& backs(
                Disk {
                    files: disks[n].files.insert(
                        log,
                        disks[n].files[log] + frame_bytes(record_bytes(op)),
                    ),
                    ..disks[n]
                },
                b,
                g,
                t,
            )
        }),
{
    let next = (s.generation + 1) as u64;
    let d = disks[n];
    let l = before_manifest(s, metadata, true);
    let w = pending(s.segments, next, s.segments.len() as int).len();
    checkpoint_keeps_every_record(s, b, g, metadata, now, disks, n);
    lemma_reached(s, metadata, true, now, disks, n);
    assert(step_at(w, metadata is Some, true, l) == CheckpointStep::WriteManifest);
    if n <= l {
        assert(old_manifest_stands(w, metadata is Some, true, n as nat));
    } else {
        assert(!old_manifest_stands(w, metadata is Some, true, n as nat));
    }
    assert(backs(d, b, g, u)) by {
        let r = restored(d, b)->0;
        assert forall|x: VectorId| #[trigger] u.entry(x) == entry_after(
            r.entry(x),
            g,
            u.metric,
            logged(d),
            x,
            logged(d).len() as int,
        ) by {
            assert(u.entry(x) == s.entry(x));
        }
    }
    logged_operation_is_backed(d, b, g, u, op, t);
}

/// The new manifest with its files and an empty log backs the index.
proof fn lemma_finished_backs(
    s: Store,
    b: Store,
    g: Model,
    metadata: Option<(Seq<char>, Seq<u8>)>,
    now: u64,
    start: Disk,
    d: Disk,
    n: int,
)
    requires
        blank(b),
        b.dim == s.dim,
        b.metric == s.metric,
        s.valid(),
        s.coherent(),
        s.described(),
        s.sealing.len() == 0,
        s.buffer.ids.len() == 0,
        s.segments.len() <= usize::MAX,
        s.generation < u64::MAX,
        snapshots(metadata, s.records.meta, (s.generation + 1) as u64),
        forall|i: int|
            0 <= i < s.segments.len() && (#[trigger] s.segments[i]).stored is None ==> restorable(
                s.segments[i],
            ),
        start.serves(s),
        n > before_manifest(s, metadata, true),
        reached(start, d, s, metadata, true, now, n as nat),
    ensures
        backs(d, b, g, s),
{
    let next = (s.generation + 1) as u64;
    let size = s.segments.len() as int;
    let w = pending(s.segments, next, size);
    let m = manifest_for(s, next, metadata, true, now);
    assert(d.manifest == Some(m));
    lemma_new_manifest_dated(start, s, metadata, true, now);
    assert forall|i: int| 0 <= i < size implies (#[trigger] m.6[i]).3 == raw_ids(s.segments[i].dead)
        && loaded(d.files[m.6[i].0]) == Ok::<Hnsw, Fault>(reopened(s.segments[i].index)) by {
        assert(m.6[i] == reference(s.segments[i], next, i));
        if s.segments[i].stored is None {
            assert(restorable(s.segments[i]));
            lemma_pending_file(s.segments, next, size, i);
            let j = choose|j: int|
                0 <= j < w.len() && (#[trigger] w[j]).1 == segment_name(next, i as usize) && w[j].2
                    == file_of(s.segments[i].index);
            assert(d.files[w[j].1] == w[j].2);
        }
    }
    lemma_checkpoint_opened(d, b, s, m, size);
    let files = Seq::new(m.6.len(), |i: int| (m.6[i].0, m.6[i].1));
    let t = reattached(b, s.segments, files, size);
    checkpoint_restores_every_vector(b, s, files, VectorId(0));
    lemma_reattached(b, s, files, size);
    let r = restored(d, b)->0;
    if let Some(f) = metadata {
        let snap = snapshot_of(f.1)->Ok_0;
        checkpoint_restores_the_metadata(snap, s.records.meta);
        assert(t.records.meta == Map::<u64, Fields>::empty());
    }
    assert(restored(d, b) is Some);
    assert(r == (Store { records: r.records, ..t }));
    assert(r.records.meta == s.records.meta);
    lemma_records_changed(t, r.records);
    assert(r.coherent() == t.coherent());
    assert forall|x: VectorId| #[trigger] r.entry(x) == s.entry(x) by {
        checkpoint_restores_every_vector(b, s, files, x);
        assert(r.vector(x) == t.vector(x));
    }
    assert forall|x: VectorId| #[trigger] r.records.meta.contains_key(x.0) implies r.live(x) by {
        checkpoint_restores_every_vector(b, s, files, x);
        assert(s.live(x));
        assert(r.live(x) == t.live(x));
    }
    assert(logged(d) =~= Seq::<Operation>::empty());
    assert forall|x: VectorId| #[trigger] s.entry(x) == entry_after(
        r.entry(x),
        g,
        s.metric,
        logged(d),
        x,
        0,
    ) by {
        assert(r.entry(x) == s.entry(x));
    }
}

/// Normalizing the vectors once more would not change them. Under the metrics
/// that do not normalize, that is always so.
pub open spec fn settled(s: Store, g: Model) -> bool {
    forall|x: VectorId| (#[trigger] s.vector(x)) matches Some(v) ==> prepared(g, s.metric, v) == v
}

/// What changes no record changes nothing about the backing.
proof fn lemma_unchanged(d: Disk, b: Store, g: Model, s: Store, t: Store)
    requires
        backs(d, b, g, s),
        t.dim == s.dim,
        t.metric == s.metric,
        t.records == s.records,
        forall|x: VectorId| #[trigger] t.vector(x) == s.vector(x),
    ensures
        backs(d, b, g, t),
{
    let r = restored(d, b)->0;
    assert forall|x: VectorId| #[trigger] t.entry(x) == entry_after(
        r.entry(x),
        g,
        t.metric,
        logged(d),
        x,
        logged(d).len() as int,
    ) by {
        assert(t.vector(x) == s.vector(x));
        assert(t.entry(x) == s.entry(x));
    }
}

/// Sealing the buffer, and putting built and merged segments in place, is backed
/// by what was on disk before.
pub proof fn background_work_is_backed(
    d: Disk,
    b: Store,
    g: Model,
    s: Store,
    i: int,
    pair: Pair,
)
    requires
        backs(d, b, g, s),
        s.valid(),
        s.coherent(),
        settled(s, g),
    ensures
        backs(d, b, g, s.sealed()),
        0 <= i < s.sealing.len() && stands_for(
            sealed_graph(g, s.params, s.sealing[i].data),
            s.sealing[i].data,
        ) ==> backs(
            d,
            b,
            g,
            s.seal_finished(s.sealing[i].tag, sealed_graph(g, s.params, s.sealing[i].data)),
        ),
        pair.fits() && pair.apart() && s.awaits(pair) && replaces(
            merged_graph(g, s.params, pair),
            pair,
        ) ==> backs(d, b, g, s.merge_finished(pair, merged_graph(g, s.params, pair))),
{
    assert forall|x: VectorId| #[trigger] s.sealed().vector(x) == s.vector(x) by {
        sealing_loses_nothing(s, x);
    }
    lemma_unchanged(d, b, g, s, s.sealed());
    if 0 <= i < s.sealing.len() && stands_for(
        sealed_graph(g, s.params, s.sealing[i].data),
        s.sealing[i].data,
    ) {
        let t = s.seal_finished(s.sealing[i].tag, sealed_graph(g, s.params, s.sealing[i].data));
        assert forall|x: VectorId| #[trigger] t.vector(x) == s.vector(x) by {
            finished_seal_keeps_every_vector(s, g, i, x);
        }
        lemma_unchanged(d, b, g, s, t);
    }
    if pair.fits() && pair.apart() && s.awaits(pair) && replaces(
        merged_graph(g, s.params, pair),
        pair,
    ) {
        let t = s.merge_finished(pair, merged_graph(g, s.params, pair));
        assert forall|x: VectorId| #[trigger] t.vector(x) == s.vector(x) by {
            finished_merge_keeps_every_vector(s, g, pair, x);
        }
        lemma_unchanged(d, b, g, s, t);
    }
}

} // verus!
