use gvector::checkpoint::CheckpointStep;
use gvector::error::IndexError;
use gvector::hnsw::HnswParams;
use gvector::meta::{Filter, MetaValue, Metadata, Predicate};
use gvector::record::WalRecord;
use gvector::segmented::SegmentedIndex;
use gvector::storage::{
    is_unreferenced, manifest_name, verify_file, Manifest, SegmentRef, StorageError,
};
use gvector::wal::{frame, replay_bytes, ReplayReport, SyncAction, SyncPolicy, WalState};
use std::collections::{BTreeMap, HashSet};
use gvector::distance::{distance_bits, distance_key, Metric};
use gvector::numerics::Numerics;
use gvector::types::{SearchResult, VectorId};
use rand::rngs::StdRng;
use rand::{Rng, SeedableRng};
use std::cell::RefCell;
use std::collections::HashMap;

/// Floating-point arithmetic for the indexes.
struct Floats {
    levels: RefCell<HashMap<(u64, usize), (StdRng, Vec<usize>)>>,
}

impl Floats {
    fn new() -> Self {
        Floats {
            levels: RefCell::new(HashMap::new()),
        }
    }
}

fn bits(v: &[f32]) -> Vec<u32> {
    v.iter().map(|x| x.to_bits()).collect()
}

fn floats(v: &[u32]) -> Vec<f32> {
    v.iter().map(|x| f32::from_bits(*x)).collect()
}

fn dot(a: &[f32], b: &[f32]) -> f32 {
    a.iter().zip(b).map(|(x, y)| x * y).sum()
}

fn normalized(v: &[f32]) -> Vec<f32> {
    let norm = dot(v, v).sqrt();
    if norm > 0.0 {
        v.iter().map(|x| x / norm).collect()
    } else {
        v.to_vec()
    }
}

impl Numerics for Floats {
    fn distance(&self, metric: Metric, a: &[u32], b: &[u32]) -> u32 {
        let pairs = a
            .iter()
            .zip(b)
            .map(|(x, y)| (f32::from_bits(*x), f32::from_bits(*y)));
        let d: f32 = match metric {
            Metric::L2 => pairs.map(|(x, y)| (x - y) * (x - y)).sum(),
            Metric::Dot | Metric::Cosine => -pairs.map(|(x, y)| x * y).sum::<f32>(),
        };
        distance_key(d.to_bits())
    }

    fn normalized(&self, v: &[u32]) -> Vec<u32> {
        bits(&normalized(&floats(v)))
    }

    fn level(&self, seed: u64, m: usize, draw: u64) -> usize {
        let mut memo = self.levels.borrow_mut();
        let (rng, drawn) = memo
            .entry((seed, m))
            .or_insert_with(|| (StdRng::seed_from_u64(seed), Vec::new()));
        while drawn.len() as u64 <= draw {
            let ml = 1.0 / (m.max(2) as f64).ln();
            let u: f64 = rng.gen_range(f64::MIN_POSITIVE..1.0);
            drawn.push((-u.ln() * ml).floor() as usize);
        }
        drawn[draw as usize]
    }

    fn worn_out(&self, threshold: u64, deleted: usize, total: usize) -> bool {
        deleted as f64 / total as f64 >= f64::from_bits(threshold)
    }

    fn bucket(&self, lo: u64, hi: u64, v: u64) -> usize {
        let (lo, hi, v) = (f64::from_bits(lo), f64::from_bits(hi), f64::from_bits(v));
        if hi <= lo {
            return 0;
        }
        (((v - lo) / (hi - lo) * 64.0) as usize).min(63)
    }

    fn widened(&self, lo: u64, hi: u64, v: u64) -> (u64, u64) {
        let (lo, hi, v) = (f64::from_bits(lo), f64::from_bits(hi), f64::from_bits(v));
        let span = (hi - lo).max(v.abs().max(1.0) * 0.01);
        (
            lo.min(v - span * 0.125).to_bits(),
            hi.max(v + span * 0.125).to_bits(),
        )
    }

    fn share(&self, fraction: u64, n: usize) -> usize {
        (f64::from_bits(fraction) * n as f64) as usize
    }

    fn overfetch(&self, beta: u64, k: usize, upper: usize, n: usize) -> usize {
        let selectivity = upper as f64 / n as f64;
        (f64::from_bits(beta) * k as f64 / selectivity) as usize
    }
}

fn random_vectors(n: usize, dim: usize, seed: u64) -> Vec<Vec<f32>> {
    let mut rng = StdRng::seed_from_u64(seed);
    (0..n)
        .map(|_| (0..dim).map(|_| rng.gen_range(-1.0..1.0)).collect())
        .collect()
}

fn distance_of(r: &SearchResult) -> f32 {
    f32::from_bits(distance_bits(r.distance))
}

const DIM: usize = 8;

/// A directory in memory.
type Disk = BTreeMap<String, Vec<u8>>;

/// An index with its files.
struct Durable {
    num: Floats,
    index: SegmentedIndex,
    disk: Disk,
    wal: Option<(String, WalState)>,
    report: ReplayReport,
}

impl Durable {
    fn open(
        disk: Disk,
        dim: usize,
        metric: Metric,
        params: HnswParams,
        seal_threshold: usize,
        policy: Option<SyncPolicy>,
    ) -> Result<Durable, StorageError> {
        let num = Floats::new();
        let manifest = match disk.get(manifest_name()) {
            Some(bytes) => Some(Manifest::from_bytes(bytes, manifest_name())?),
            None => None,
        };
        let mut index = match &manifest {
            None => SegmentedIndex::new(dim, metric, params, seal_threshold),
            Some(m) => {
                let mut index = SegmentedIndex::from_manifest(m, manifest_name())?;
                for sref in &m.segments {
                    index.attach_segment(&num, sref, &disk[&sref.file], &sref.file)?;
                }
                if let Some(file) = &m.metadata_file {
                    index.attach_metadata(&num, &disk[file], m.metadata_crc, file)?;
                }
                index
            }
        };
        let mut disk = disk;
        let mut wal = None;
        let mut report = ReplayReport::empty();
        if let Some(policy) = policy {
            let name = SegmentedIndex::log_name(manifest.as_ref());
            let file = disk.entry(name.clone()).or_default();
            let (records, rep) = replay_bytes(file);
            if let Some(cut) = rep.truncated_at {
                file.truncate(cut as usize);
            }
            index.replay_log(&num, records)?;
            wal = Some((name, WalState::open_append(policy, file.len() as u64)));
            report = rep;
        }
        Ok(Durable {
            num,
            index,
            disk,
            wal,
            report,
        })
    }

    fn log(&mut self, rec: &WalRecord) -> Result<(), String> {
        if let Some((name, state)) = &mut self.wal {
            let f = frame(rec).ok_or("record exceeds the size limit")?;
            self.disk.get_mut(name).unwrap().extend(&f);
            if state.append(f.len(), 0) == SyncAction::Sync {
                state.synced();
            }
        }
        Ok(())
    }

    fn insert_with_meta(
        &mut self,
        id: VectorId,
        v: &[f32],
        meta: Metadata,
    ) -> Result<(), IndexError> {
        let v = bits(v);
        self.index.validate_insert(&self.num, id, &v)?;
        let logged = self.log(&WalRecord::insert(id, &v, &meta));
        self.index.insert_logged(&self.num, id, &v, meta, logged)
    }

    fn insert_shared(&mut self, id: VectorId, v: &[f32]) -> Result<(), IndexError> {
        self.insert_with_meta(id, v, Metadata::new())
    }

    fn delete_shared(&mut self, id: VectorId) -> Result<(), IndexError> {
        if !self.index.contains_live(&self.num, id) {
            return Err(IndexError::NotFound(id));
        }
        let logged = self.log(&WalRecord::delete(id));
        self.index.delete_logged(&self.num, id, logged)
    }

    /// Carries out a checkpoint, or only its first `limit` steps.
    fn checkpoint_steps(&mut self, limit: usize) -> Result<u64, StorageError> {
        self.index.seal(&self.num);
        self.index.wait_for_background(&self.num);
        let now = 1_700_000_000;
        let plan = self
            .index
            .plan_checkpoint(&self.num, self.wal.is_some(), now)?;
        let before = self.wal.as_ref().map(|w| (w.0.clone(), w.1.policy()));
        for done in 0..limit {
            match plan.step(done) {
                CheckpointStep::WriteSegment(i) => {
                    let w = &plan.segments[i];
                    self.disk.insert(w.name.clone(), w.bytes.clone());
                    self.index.segment_written(&self.num, w);
                }
                CheckpointStep::WriteMetadata => {
                    let (name, bytes) = plan.metadata.clone().unwrap();
                    self.disk.insert(name, bytes);
                }
                CheckpointStep::RotateWal => {
                    let name = plan.wal_file.clone().unwrap();
                    let policy = self.wal.as_ref().unwrap().1.policy();
                    self.disk.insert(name.clone(), Vec::new());
                    self.wal = Some((name, WalState::open_append(policy, 0)));
                }
                CheckpointStep::WriteManifest => {
                    self.disk
                        .insert(manifest_name().to_string(), plan.manifest.to_bytes()?);
                }
                CheckpointStep::CollectGarbage => {
                    self.disk
                        .retain(|name, _| !is_unreferenced(&plan.manifest, name));
                }
                CheckpointStep::Finish => {
                    self.index.checkpoint_finished(&self.num, now);
                    break;
                }
            }
        }
        if let (true, Some((name, policy))) = (plan.keeps_old_log(limit), before) {
            let size = self.disk[&name].len() as u64;
            self.wal = Some((name, WalState::open_append(policy, size)));
        }
        Ok(plan.generation)
    }

    fn checkpoint(&mut self) -> Result<u64, StorageError> {
        self.checkpoint_steps(usize::MAX)
    }

    fn len(&self) -> usize {
        self.index.len_shared(&self.num)
    }

    fn search_shared(&self, q: &[f32], k: usize) -> Vec<SearchResult> {
        self.index.search_shared(&self.num, &bits(q), k)
    }

    fn search_filtered(&self, q: &[f32], k: usize, f: &Filter) -> Vec<SearchResult> {
        self.index.search_filtered(&self.num, &bits(q), k, f)
    }

    fn segment_files(&self) -> Vec<String> {
        self.disk
            .keys()
            .filter(|n| n.starts_with("segment-"))
            .cloned()
            .collect()
    }
}

fn open_or_create(disk: Disk, dim: usize, seal_threshold: usize) -> Durable {
    Durable::open(
        disk,
        dim,
        Metric::L2,
        HnswParams::default(),
        seal_threshold,
        None,
    )
    .unwrap()
}

fn open_durable(disk: Disk, seal_threshold: usize) -> Durable {
    Durable::open(
        disk,
        DIM,
        Metric::L2,
        HnswParams::default(),
        seal_threshold,
        Some(SyncPolicy::PerOp),
    )
    .expect("the directory must open")
}

fn meta_of(i: usize) -> Metadata {
    Metadata::collect(vec![
        ("grup".to_string(), MetaValue::Int((i % 4) as i64)),
        ("v".to_string(), MetaValue::Int(i as i64)),
    ])
}

fn meta_for(i: u64) -> Metadata {
    Metadata::collect(vec![("v".to_string(), MetaValue::Int(i as i64))])
}

fn equals(key: &str, value: i64) -> Filter {
    Filter {
        must: vec![Predicate::Eq {
            key: key.to_string(),
            value: MetaValue::Int(value),
        }],
    }
}

#[test]
fn checkpoint_reopen_gives_identical_results() {
    let vecs = random_vectors(800, 8, 42);
    let queries = random_vectors(15, 8, 43);
    let mut idx = open_or_create(Disk::new(), 8, 200);
    for (i, v) in vecs.iter().enumerate() {
        idx.insert_with_meta(VectorId(i as u64), v, meta_of(i))
            .unwrap();
    }
    let before: Vec<Vec<SearchResult>> = queries.iter().map(|q| idx.search_shared(q, 10)).collect();
    let gen = idx.checkpoint().unwrap();
    // the sealing done by a checkpoint must not change results
    for (q, b) in queries.iter().zip(&before) {
        assert_eq!(
            &idx.search_shared(q, 10),
            b,
            "the checkpoint corrupted the results"
        );
    }
    // reopen
    let idx = Durable::open(
        idx.disk,
        999, // a wrong dim: the manifest's value must win
        Metric::Dot,
        HnswParams::default(),
        1,
        None,
    )
    .unwrap();
    assert_eq!(idx.index.generation(), gen);
    assert_eq!(idx.index.last_checkpoint_unix(), 1_700_000_000);
    assert_eq!(idx.len(), 800);
    assert_eq!(
        idx.index.shape().1,
        0,
        "the buffer must be empty after a checkpoint"
    );
    // The same queries must give exactly the same results
    let mut fresh = open_or_create(Disk::new(), 8, 200);
    for (i, v) in vecs.iter().enumerate() {
        fresh
            .insert_with_meta(VectorId(i as u64), v, meta_of(i))
            .unwrap();
    }
    fresh.index.seal(&fresh.num);
    for q in &queries {
        assert_eq!(idx.search_shared(q, 10), fresh.search_shared(q, 10));
    }
    // the derived indexes must have been rebuilt: equality + range filters
    let f_eq = equals("grup", 2);
    let res = idx.search_filtered(&queries[0], 10, &f_eq);
    assert_eq!(res.len(), 10);
    assert!(
        res.iter().all(|r| r.id.0 % 4 == 2),
        "the posting list was not rebuilt"
    );
    let f_range = Filter {
        must: vec![Predicate::Range {
            key: "v".to_string(),
            min: 0.0f64.to_bits(),
            max: 49.0f64.to_bits(),
        }],
    };
    let res = idx.search_filtered(&queries[0], 10, &f_range);
    assert_eq!(
        idx.index.debug_plan_arm(&idx.num, &f_range, 10),
        "scan",
        "there is no numeric index"
    );
    assert!(res.iter().all(|r| r.id.0 < 50));
}

#[test]
fn segments_written_once_across_checkpoints() {
    let vecs = random_vectors(500, 4, 42);
    let mut idx = open_or_create(Disk::new(), 4, 200);
    for (i, v) in vecs.iter().take(400).enumerate() {
        idx.insert_shared(VectorId(i as u64), v).unwrap();
    }
    let g1 = idx.checkpoint().unwrap();
    let first = idx.segment_files();
    // second round: new data, a new segment; the old ones must stay in the
    // same files
    for (i, v) in vecs.iter().enumerate().skip(400) {
        idx.insert_shared(VectorId(i as u64), v).unwrap();
    }
    let g2 = idx.checkpoint().unwrap();
    assert!(g2 > g1);
    let second = idx.segment_files();
    for f in &first {
        assert!(
            second.contains(f),
            "an old segment was rewritten or deleted: {f}"
        );
    }
    assert!(second.len() > first.len(), "no new segment was written");
}

#[test]
fn reopen_restores_tombstones() {
    let vecs = random_vectors(400, 4, 42);
    let mut idx = open_or_create(Disk::new(), 4, 150);
    for (i, v) in vecs.iter().enumerate() {
        idx.insert_with_meta(VectorId(i as u64), v, meta_of(i))
            .unwrap();
    }
    idx.checkpoint().unwrap(); // everything is in segments
    idx.delete_shared(VectorId(7)).unwrap();
    idx.delete_shared(VectorId(200)).unwrap();
    idx.checkpoint().unwrap(); // the tombstones are in the manifest
    let idx = open_or_create(idx.disk, 4, 150);
    assert_eq!(idx.len(), 398);
    let all: Vec<_> = idx
        .search_shared(&vecs[7], 400)
        .iter()
        .map(|r| r.id)
        .collect();
    assert!(
        !all.contains(&VectorId(7)),
        "the tombstone was not recovered"
    );
    assert!(!all.contains(&VectorId(200)));
    // deleted metadata must not come back either
    assert!(idx
        .search_filtered(&vecs[7], 5, &equals("v", 7))
        .is_empty());
}

#[test]
fn corrupt_segment_file_is_error_not_panic() {
    let vecs = random_vectors(300, 4, 42);
    let mut idx = open_or_create(Disk::new(), 4, 100);
    for (i, v) in vecs.iter().enumerate() {
        idx.insert_shared(VectorId(i as u64), v).unwrap();
    }
    idx.checkpoint().unwrap();
    let file = idx.segment_files()[0].clone();
    let mut disk = idx.disk;
    let mut bytes = disk[&file].clone();
    let mid = bytes.len() / 2;
    bytes[mid] ^= 0xff;
    let open = |disk: &Disk| {
        Durable::open(
            disk.clone(),
            4,
            Metric::L2,
            HnswParams::default(),
            100,
            None,
        )
    };
    disk.insert(file.clone(), bytes.clone());
    assert!(
        open(&disk).is_err(),
        "a corrupt segment should have been caught"
    );
    // a truncated file must not panic either
    disk.insert(file, bytes[..bytes.len() / 3].to_vec());
    assert!(open(&disk).is_err());
}

#[test]
fn merge_output_persists_and_gc_cleans_sources() {
    let vecs = random_vectors(1_200, 4, 42);
    let mut idx = open_or_create(Disk::new(), 4, 100);
    idx.index.set_max_segments(&idx.num, 4);
    for (i, v) in vecs.iter().enumerate() {
        idx.insert_shared(VectorId(i as u64), v).unwrap();
    }
    idx.checkpoint().unwrap();
    // the merges must have kept the ceiling
    assert!(idx.index.shape().0 <= 4);
    let gen = idx.checkpoint().unwrap();
    let before_len = idx.len();
    // no segment file absent from the manifest may remain
    let manifest = Manifest::from_bytes(&idx.disk[manifest_name()], manifest_name()).unwrap();
    assert_eq!(manifest.generation, gen);
    assert_eq!(
        idx.segment_files().len(),
        manifest.segments.len(),
        "an orphaned segment file remained"
    );
    let idx = open_or_create(idx.disk, 4, 100);
    assert_eq!(idx.len(), before_len);
}

/// Wherever a checkpoint is interrupted, what is on disk opens with every
/// record.
#[test]
fn interrupted_checkpoint_loses_nothing() {
    let vecs = random_vectors(40, DIM, 3);
    for limit in 0..8 {
        let mut idx = open_durable(Disk::new(), 10);
        for (i, v) in vecs.iter().take(30).enumerate() {
            idx.insert_with_meta(VectorId(i as u64), v, meta_of(i))
                .unwrap();
        }
        idx.checkpoint().unwrap();
        for (i, v) in vecs.iter().enumerate().skip(30) {
            idx.insert_with_meta(VectorId(i as u64), v, meta_of(i))
                .unwrap();
        }
        idx.delete_shared(VectorId(4)).unwrap();
        idx.checkpoint_steps(limit).unwrap();
        let again = open_durable(idx.disk, 10);
        assert_eq!(again.len(), 39, "after {limit} steps");
        assert!(!again.index.contains_live(&again.num, VectorId(4)));
        let hit = again.search_filtered(&vecs[35], 3, &equals("v", 35));
        assert_eq!(hit.len(), 1);
        assert_eq!(hit[0].id, VectorId(35));
    }
}

#[test]
fn recovery_reports_what_is_wrong() {
    let vecs = random_vectors(20, 4, 1);
    let mut idx = open_or_create(Disk::new(), 4, 5);
    for (i, v) in vecs.iter().enumerate() {
        idx.insert_with_meta(VectorId(i as u64), v, meta_of(i))
            .unwrap();
    }
    idx.checkpoint().unwrap();
    let num = Floats::new();
    let m = Manifest::from_bytes(&idx.disk[manifest_name()], manifest_name()).unwrap();
    let sref = &m.segments[0];
    let bytes = &idx.disk[&sref.file];
    // a segment file that is not the one that the manifest lists
    let mut other = SegmentedIndex::new(3, Metric::L2, HnswParams::default(), 5);
    match other.attach_segment(&num, sref, &bytes[1..], "here") {
        Err(StorageError::Corrupt { path, reason }) => {
            assert_eq!(path, "here");
            assert!(reason.starts_with("crc mismatch: manifest "));
        }
        _ => panic!("another file must be refused"),
    }
    // a file that is not a segment, with its own checksum
    let mut fake = m.segments[0].tombstones.clone();
    fake.clear();
    let odd = gvector::storage::SegmentRef {
        file: "x".to_string(),
        crc32: crc32fast::hash(b"nonsense"),
        records: 0,
        tombstones: fake,
    };
    assert!(matches!(
        other.attach_segment(&num, &odd, b"nonsense", "x"),
        Err(StorageError::Segment(_))
    ));
    // metadata that does not match its checksum, or is not metadata
    assert!(matches!(
        other.attach_metadata(&num, b"abc", 1, "m"),
        Err(StorageError::Corrupt { .. })
    ));
    assert!(matches!(
        other.attach_metadata(&num, b"abc", crc32fast::hash(b"abc"), "m"),
        Err(StorageError::Corrupt { .. })
    ));
    // a dimension that cannot be held
    let mut huge = Manifest::from_bytes(&idx.disk[manifest_name()], manifest_name()).unwrap();
    huge.dim = u64::MAX;
    assert!(matches!(
        SegmentedIndex::from_manifest(&huge, "MANIFEST"),
        Err(StorageError::Corrupt { .. })
    ));
    // a logged insertion of another dimension
    let wrong = WalRecord::insert(VectorId(1), &bits(&[1.0]), &Metadata::new());
    assert!(matches!(
        other.replay_log(&num, vec![wrong]),
        Err(StorageError::Index(IndexError::DimensionMismatch {
            expected: 3,
            got: 1
        }))
    ));
}

#[test]
fn log_belongs_to_its_manifest() {
    assert_eq!(SegmentedIndex::log_name(None), "wal-000000.log");
    let mut idx = open_durable(Disk::new(), 10);
    idx.insert_shared(VectorId(1), &[0.5; DIM]).unwrap();
    idx.checkpoint().unwrap();
    let mut m = Manifest::from_bytes(&idx.disk[manifest_name()], manifest_name()).unwrap();
    assert_eq!(SegmentedIndex::log_name(Some(&m)), "wal-000001.log");
    m.wal_file = None;
    assert_eq!(SegmentedIndex::log_name(Some(&m)), "wal-000001.log");
    m.generation = 12;
    assert_eq!(SegmentedIndex::log_name(Some(&m)), "wal-000012.log");
}

/// The live ids expected from the intact prefix of a log. The log holds only
/// mutations that succeeded, so applying them one after the other gives the
/// reference.
fn expected_live(records: &[WalRecord], base: HashSet<u64>) -> HashSet<u64> {
    let mut s = base;
    for r in records {
        match r {
            WalRecord::Insert { id, .. } => {
                s.insert(*id);
            }
            WalRecord::Delete { id } => {
                s.remove(id);
            }
        }
    }
    s
}

fn live_ids(idx: &Durable, probe: &[f32], n: usize) -> HashSet<u64> {
    idx.search_shared(probe, n).iter().map(|r| r.id.0).collect()
}

/// Applies the operations and returns the directory.
fn build_wal(ops: &[(bool, u64)], vecs: &[Vec<f32>]) -> Disk {
    let mut idx = open_durable(Disk::new(), 10_000); // no sealing
    for (is_insert, id) in ops {
        if *is_insert {
            let _ = idx.insert_with_meta(
                VectorId(*id),
                &vecs[(*id as usize) % vecs.len()],
                meta_for(*id),
            );
        } else {
            let _ = idx.delete_shared(VectorId(*id));
        }
    }
    idx.disk
}

const LOG: &str = "wal-000000.log";

/// Reopens with a cut log and compares the state to the intact prefix.
fn assert_recovers_to_prefix(disk: &Disk, cut: usize) {
    let mut disk = disk.clone();
    let full = disk[LOG].clone();
    let cut = cut.min(full.len());
    disk.insert(LOG.to_string(), full[..cut].to_vec());
    let (prefix_records, _) = replay_bytes(&full[..cut]);
    let expected = expected_live(&prefix_records, HashSet::new());

    let idx = open_durable(disk, 10_000);
    let probe = vec![0.0f32; DIM];
    let got = live_ids(&idx, &probe, 10_000);
    assert_eq!(
        got, expected,
        "cut={cut}: the recovered state differs from the intact prefix"
    );
    assert_eq!(idx.len(), expected.len());
}

#[test]
fn crash_matrix_record_boundaries_and_midpoints() {
    let vecs = random_vectors(64, DIM, 42);
    // mixed insert/delete, including re-insertion chains
    let ops: Vec<(bool, u64)> = vec![
        (true, 1),
        (true, 2),
        (true, 3),
        (false, 2),
        (true, 4),
        (true, 2), // insert again what was deleted
        (false, 1),
        (true, 5),
    ];
    let disk = build_wal(&ops, &vecs);
    let full = disk[LOG].clone();

    // Derive the record boundaries
    let mut boundaries = vec![0usize];
    let mut off = 0usize;
    while off + 8 <= full.len() {
        let len = u32::from_le_bytes(full[off..off + 4].try_into().unwrap()) as usize;
        off += 8 + len;
        if off <= full.len() {
            boundaries.push(off);
        }
    }
    assert!(boundaries.len() >= 5, "not enough records");

    // Cut at every boundary and in the middle of every record
    let mut cuts: Vec<usize> = boundaries.clone();
    for w in boundaries.windows(2) {
        cuts.push((w[0] + w[1]) / 2); // mid-record
        cuts.push(w[1] - 1); // the last byte is missing
        cuts.push(w[0] + 3); // mid-header
    }
    for cut in cuts {
        assert_recovers_to_prefix(&disk, cut);
    }
}

#[test]
fn crash_after_checkpoint_keeps_segments_and_wal_prefix() {
    let vecs = random_vectors(64, DIM, 7);
    // data up to the checkpoint lives in segments, the rest in the log
    let mut idx = open_durable(Disk::new(), 10_000);
    for id in 0..20u64 {
        idx.insert_with_meta(VectorId(id), &vecs[id as usize % 64], meta_for(id))
            .unwrap();
    }
    let gen = idx.checkpoint().unwrap();
    // operations after the checkpoint: in the new log
    for id in 20..30u64 {
        idx.insert_with_meta(VectorId(id), &vecs[id as usize % 64], meta_for(id))
            .unwrap();
    }
    idx.delete_shared(VectorId(3)).unwrap(); // a record living in a segment
    let base_ids: HashSet<u64> = (0..20).collect();
    let log = Manifest::wal_file_name(gen);
    let full = idx.disk[&log].clone();
    for cut in [
        0,
        full.len() / 3,
        full.len() / 2,
        full.len() - 2,
        full.len(),
    ] {
        let mut disk = idx.disk.clone();
        disk.insert(log.clone(), full[..cut].to_vec());
        let (recs, _) = replay_bytes(&full[..cut]);
        let expected = expected_live(&recs, base_ids.clone());
        let again = open_durable(disk, 10_000);
        let got = live_ids(&again, &[0.0; DIM], 1000);
        assert_eq!(got, expected, "checkpoint+cut={cut}");
    }
}

#[test]
fn corrupt_wal_body_recovers_prefix_and_truncates() {
    let vecs = random_vectors(32, DIM, 9);
    let ops: Vec<(bool, u64)> = (1..=6).map(|i| (true, i)).collect();
    let mut disk = build_wal(&ops, &vecs);
    let full = disk[LOG].clone();
    // Corrupt the body of the third record
    let mut off = 0usize;
    for _ in 0..2 {
        let len = u32::from_le_bytes(full[off..off + 4].try_into().unwrap()) as usize;
        off += 8 + len;
    }
    let mut bad = full.clone();
    bad[off + 10] ^= 0xff;
    disk.insert(LOG.to_string(), bad);

    let mut idx = open_durable(disk, 10_000);
    assert_eq!(
        idx.report.applied, 2,
        "nothing after a corrupt record may be applied"
    );
    assert!(idx.report.truncated_at.is_some());
    assert_eq!(idx.len(), 2);
    // Since the file was truncated, new writes must continue cleanly
    idx.insert_with_meta(VectorId(99), &vecs[0], meta_for(99))
        .unwrap();
    let idx2 = open_durable(idx.disk, 10_000);
    assert_eq!(
        idx2.len(),
        3,
        "an append after truncation must be recovered"
    );
}

/// A process that dies while a merge is being built comes back with the source
/// segments: the merge was in no checkpoint, and the sources hold the same data.
#[test]
fn crash_during_background_merge_recovers_from_source_segments() {
    let vecs = random_vectors(1_200, DIM, 11);
    let mut idx = open_durable(Disk::new(), 200);
    idx.index.set_max_segments(&idx.num, 3);
    // First half + checkpoint: this data lives in segment files.
    for (i, v) in vecs.iter().take(600).enumerate() {
        idx.insert_with_meta(VectorId(i as u64), v, meta_for(i as u64))
            .unwrap();
    }
    idx.index.wait_for_background(&idx.num);
    idx.checkpoint().unwrap();
    // Second half: exceeds the ceiling, a merge begins. There is no checkpoint,
    // so these records live only in the log.
    for (i, v) in vecs.iter().enumerate().skip(600) {
        idx.insert_with_meta(VectorId(i as u64), v, meta_for(i as u64))
            .unwrap();
    }
    idx.index.wait_for_seal(&idx.num);
    assert!(idx.index.next_merge(&idx.num).is_some());
    idx.delete_shared(VectorId(5)).unwrap(); // a record in a segment file
    idx.delete_shared(VectorId(900)).unwrap(); // a record in the log
    assert_eq!(idx.len(), 1_198);

    let idx = open_durable(idx.disk, 200);
    assert_eq!(idx.len(), 1_198, "cutting mid-merge lost records");
    let all = live_ids(&idx, &[0.0; DIM], 2_000);
    assert!(!all.contains(&5), "a deleted segment record came back");
    assert!(!all.contains(&900), "a deleted log record came back");
    // The survivors must be findable
    for probe in [0u64, 300, 700, 1_199] {
        assert!(all.contains(&probe), "record {probe} disappeared");
    }
}

/// Random operations and a random cut: the recovered state always equals the
/// state of the intact prefix.
#[test]
fn random_operations_and_cuts_recover_the_prefix() {
    let vecs = random_vectors(16, DIM, 42);
    let mut rng = StdRng::seed_from_u64(5);
    for _ in 0..24 {
        let n = rng.gen_range(1..25);
        let ops: Vec<(bool, u64)> = (0..n)
            .map(|_| (rng.gen(), rng.gen_range(0..12)))
            .collect();
        let disk = build_wal(&ops, &vecs);
        let cut = disk[LOG].len() * rng.gen_range(0..=100) / 100;
        assert_recovers_to_prefix(&disk, cut);
    }
}

#[test]
fn garbage_log_never_panics() {
    let mut rng = StdRng::seed_from_u64(6);
    for _ in 0..50 {
        let n = rng.gen_range(0..512);
        let bytes: Vec<u8> = (0..n).map(|_| rng.gen()).collect();
        let mut disk = Disk::new();
        disk.insert(LOG.to_string(), bytes);
        assert_eq!(open_durable(disk, 10_000).len(), 0);
    }
}

#[test]
fn interrupted_checkpoint_leaves_a_complete_manifest() {
    let vecs = random_vectors(60, DIM, 7);
    let mut d = open_durable(Disk::new(), 20);
    for i in 0..40 {
        d.insert_with_meta(VectorId(i as u64), &vecs[i], meta_of(i))
            .unwrap();
    }
    d.checkpoint().unwrap();
    let old = Manifest::from_bytes(&d.disk[manifest_name()], manifest_name()).unwrap();
    for i in 40..60 {
        d.insert_with_meta(VectorId(i as u64), &vecs[i], meta_of(i))
            .unwrap();
    }
    d.delete_shared(VectorId(3)).unwrap();
    let mut replaced = false;
    for limit in 0..10 {
        let mut c = open_durable(d.disk.clone(), 20);
        c.checkpoint_steps(limit).unwrap();
        let m = Manifest::from_bytes(&c.disk[manifest_name()], manifest_name()).unwrap();
        assert!(m.generation == old.generation || m.generation == old.generation + 1);
        assert!(!replaced || m.generation == old.generation + 1);
        replaced = m.generation == old.generation + 1;
        for s in &m.segments {
            verify_file(&c.disk[&s.file], s.crc32, &s.file).unwrap();
        }
        let meta = m.metadata_file.unwrap();
        verify_file(&c.disk[&meta], m.metadata_crc, &meta).unwrap();
        assert!(c.disk.contains_key(&m.wal_file.unwrap()));
        let mut re = open_durable(c.disk, 20);
        assert_eq!(re.len(), 59);
        assert_eq!(re.search_shared(&vecs[59], 1)[0].id, VectorId(59));
        assert!(!re.index.contains_live(&re.num, VectorId(3)));
        re.checkpoint().unwrap();
        assert_eq!(open_durable(re.disk, 20).len(), 59);
    }
    assert!(replaced);
}

#[test]
fn file_names_tell_generations_and_places_apart() {
    assert_eq!(Manifest::segment_file_name(1, 2), "segment-000001-02.gvdb");
    assert_eq!(Manifest::segment_file_name(12, 100), "segment-000012-100.gvdb");
    assert_eq!(Manifest::metadata_file_name(7), "meta-000007.gvmeta");
    assert_eq!(Manifest::wal_file_name(1_234_567), "wal-1234567.log");
}

#[test]
fn a_write_after_a_failed_checkpoint_is_recovered() {
    let vecs = random_vectors(50, DIM, 8);
    let mut d = open_durable(Disk::new(), 20);
    for i in 0..25 {
        d.insert_with_meta(VectorId(i as u64), &vecs[i], meta_of(i))
            .unwrap();
    }
    d.checkpoint().unwrap();
    for i in 25..40 {
        d.insert_with_meta(VectorId(i as u64), &vecs[i], meta_of(i))
            .unwrap();
    }
    let log = Manifest::from_bytes(&d.disk[manifest_name()], manifest_name())
        .unwrap()
        .wal_file
        .unwrap();
    let mut rotated = false;
    for limit in 0..8 {
        let mut c = open_durable(d.disk.clone(), 20);
        c.checkpoint_steps(limit).unwrap();
        let m = Manifest::from_bytes(&c.disk[manifest_name()], manifest_name()).unwrap();
        let in_use = c.wal.as_ref().unwrap().0.clone();
        assert_eq!(Some(&in_use), m.wal_file.as_ref());
        rotated = in_use != log;
        c.insert_with_meta(VectorId(40), &vecs[40], meta_of(40))
            .unwrap();
        c.delete_shared(VectorId(1)).unwrap();
        let re = open_durable(c.disk, 20);
        assert_eq!(re.len(), 40);
        assert_eq!(re.search_shared(&vecs[40], 1)[0].id, VectorId(40));
        assert!(!re.index.contains_live(&re.num, VectorId(1)));
    }
    assert!(rotated);
}

/// Segments of an index with the given vectors, five in each.
fn written_segments(vecs: &[Vec<f32>]) -> Vec<(SegmentRef, Vec<u8>)> {
    let mut idx = open_or_create(Disk::new(), vecs[0].len(), 5);
    for (i, v) in vecs.iter().enumerate() {
        idx.insert_with_meta(VectorId(i as u64), v, Metadata::new())
            .unwrap();
    }
    idx.checkpoint().unwrap();
    let m = Manifest::from_bytes(&idx.disk[manifest_name()], manifest_name()).unwrap();
    m.segments
        .into_iter()
        .map(|s| {
            let bytes = idx.disk[&s.file].clone();
            (s, bytes)
        })
        .collect()
}

#[test]
fn a_segment_is_taken_as_its_file_gives_it() {
    let vecs = random_vectors(5, 4, 1);
    let (sref, bytes) = written_segments(&vecs).remove(0);
    let num = Floats::new();
    // another metric: the segment keeps its own
    let mut other = SegmentedIndex::new(4, Metric::Dot, HnswParams::default(), 5);
    other.attach_segment(&num, &sref, &bytes, "here").unwrap();
    assert_eq!(other.len_shared(&num), 5);
    assert_eq!(other.segments[0].index.metric(), Metric::L2);
    let hits = other.search_shared(&num, &bits(&vecs[2]), 1);
    assert_eq!(hits[0].id, VectorId(2));
    assert_eq!(distance_of(&hits[0]), 0.0);
    // another dimension
    let mut other = SegmentedIndex::new(3, Metric::L2, HnswParams::default(), 5);
    other.attach_segment(&num, &sref, &bytes, "here").unwrap();
    assert_eq!(other.len_shared(&num), 5);
    assert_eq!(other.segments[0].index.dim(), 4);
    assert!(other.contains_live(&num, VectorId(2)));
}

#[test]
fn the_dead_of_a_segment_are_those_of_the_manifest() {
    let vecs = random_vectors(5, 4, 2);
    let (mut sref, bytes) = written_segments(&vecs).remove(0);
    let num = Floats::new();
    sref.tombstones = vec![900, 3, 3];
    let mut idx = SegmentedIndex::new(4, Metric::L2, HnswParams::default(), 5);
    idx.attach_segment(&num, &sref, &bytes, "here").unwrap();
    assert_eq!(
        idx.segments[0].tombstones,
        vec![VectorId(3), VectorId(900)]
    );
    // both count, though the segment never held one of them
    assert!(idx.is_countable(&num));
    assert_eq!(idx.len_shared(&num), 3);
    assert_eq!(idx.search_shared(&num, &bits(&vecs[0]), 10).len(), 4);
    assert!(!idx.contains_live(&num, VectorId(3)));
    // with more dead than records there is nothing to count
    sref.tombstones = (900..906).collect();
    let mut idx = SegmentedIndex::new(4, Metric::L2, HnswParams::default(), 5);
    idx.attach_segment(&num, &sref, &bytes, "here").unwrap();
    assert!(!idx.is_countable(&num));
    assert_eq!(idx.search_shared(&num, &bits(&vecs[0]), 10).len(), 5);
}

#[test]
fn a_merged_segment_has_the_metric_of_the_index() {
    let vecs = random_vectors(15, 4, 3);
    let segments = written_segments(&vecs);
    let num = Floats::new();
    let mut idx = SegmentedIndex::new(4, Metric::Dot, HnswParams::default(), 5);
    idx.set_max_segments(&num, 2);
    for (sref, bytes) in &segments {
        idx.attach_segment(&num, sref, bytes, "here").unwrap();
    }
    assert_eq!(idx.shape().0, 3);
    let job = idx.next_merge(&num).unwrap();
    assert!(job.is_uniform());
    assert_eq!(job.metric, Metric::Dot);
    idx.wait_for_merge(&num);
    assert_eq!(idx.shape().0, 2);
    assert_eq!(idx.segments[0].index.metric(), Metric::L2);
    assert_eq!(idx.segments[1].index.metric(), Metric::Dot);
    assert_eq!(idx.len_shared(&num), 15);
    // vectors of another dimension cannot be taken over
    let mut idx = SegmentedIndex::new(3, Metric::L2, HnswParams::default(), 5);
    idx.set_max_segments(&num, 2);
    for (sref, bytes) in &segments {
        idx.attach_segment(&num, sref, bytes, "here").unwrap();
    }
    assert!(!idx.next_merge(&num).unwrap().is_uniform());
}
