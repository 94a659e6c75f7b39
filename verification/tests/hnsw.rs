use gvector::bruteforce::BruteForceIndex;
use gvector::error::IndexError;
use gvector::hnsw::{HnswIndex, HnswParams};
use gvector::hnsw_file::PersistError;
use gvector::distance::{distance_bits, distance_key, Metric};
use gvector::numerics::Numerics;
use gvector::types::{SearchResult, VectorId};
use rand::rngs::StdRng;
use rand::{Rng, SeedableRng};
use std::cell::RefCell;
use std::collections::HashMap;

/// Floating-point arithmetic for the indexes.
struct Floats {
    levels: RefCell<HashMap<(u64, usize), (StdRng, Vec<usize>)>>,
}

impl Floats {
    fn new() -> Self {
        Floats {
            levels: RefCell::new(HashMap::new()),
        }
    }
}

fn bits(v: &[f32]) -> Vec<u32> {
    v.iter().map(|x| x.to_bits()).collect()
}

fn floats(v: &[u32]) -> Vec<f32> {
    v.iter().map(|x| f32::from_bits(*x)).collect()
}

fn dot(a: &[f32], b: &[f32]) -> f32 {
    a.iter().zip(b).map(|(x, y)| x * y).sum()
}

fn normalized(v: &[f32]) -> Vec<f32> {
    let norm = dot(v, v).sqrt();
    if norm > 0.0 {
        v.iter().map(|x| x / norm).collect()
    } else {
        v.to_vec()
    }
}

impl Numerics for Floats {
    fn distance(&self, metric: Metric, a: &[u32], b: &[u32]) -> u32 {
        let pairs = a
            .iter()
            .zip(b)
            .map(|(x, y)| (f32::from_bits(*x), f32::from_bits(*y)));
        let d: f32 = match metric {
            Metric::L2 => pairs.map(|(x, y)| (x - y) * (x - y)).sum(),
            Metric::Dot | Metric::Cosine => -pairs.map(|(x, y)| x * y).sum::<f32>(),
        };
        distance_key(d.to_bits())
    }

    fn normalized(&self, v: &[u32]) -> Vec<u32> {
        bits(&normalized(&floats(v)))
    }

    fn level(&self, seed: u64, m: usize, draw: u64) -> usize {
        let mut memo = self.levels.borrow_mut();
        let (rng, drawn) = memo
            .entry((seed, m))
            .or_insert_with(|| (StdRng::seed_from_u64(seed), Vec::new()));
        while drawn.len() as u64 <= draw {
            let ml = 1.0 / (m.max(2) as f64).ln();
            let u: f64 = rng.gen_range(f64::MIN_POSITIVE..1.0);
            drawn.push((-u.ln() * ml).floor() as usize);
        }
        drawn[draw as usize]
    }

    fn worn_out(&self, threshold: u64, deleted: usize, total: usize) -> bool {
        deleted as f64 / total as f64 >= f64::from_bits(threshold)
    }

    fn bucket(&self, lo: u64, hi: u64, v: u64) -> usize {
        let (lo, hi, v) = (f64::from_bits(lo), f64::from_bits(hi), f64::from_bits(v));
        if hi <= lo {
            return 0;
        }
        (((v - lo) / (hi - lo) * 64.0) as usize).min(63)
    }

    fn widened(&self, lo: u64, hi: u64, v: u64) -> (u64, u64) {
        let (lo, hi, v) = (f64::from_bits(lo), f64::from_bits(hi), f64::from_bits(v));
        let span = (hi - lo).max(v.abs().max(1.0) * 0.01);
        (
            lo.min(v - span * 0.125).to_bits(),
            hi.max(v + span * 0.125).to_bits(),
        )
    }

    fn share(&self, fraction: u64, n: usize) -> usize {
        (f64::from_bits(fraction) * n as f64) as usize
    }

    fn overfetch(&self, beta: u64, k: usize, upper: usize, n: usize) -> usize {
        let selectivity = upper as f64 / n as f64;
        (f64::from_bits(beta) * k as f64 / selectivity) as usize
    }
}

fn random_vectors(n: usize, dim: usize, seed: u64) -> Vec<Vec<f32>> {
    let mut rng = StdRng::seed_from_u64(seed);
    (0..n)
        .map(|_| (0..dim).map(|_| rng.gen_range(-1.0..1.0)).collect())
        .collect()
}

fn distance_of(r: &SearchResult) -> f32 {
    f32::from_bits(distance_bits(r.distance))
}

fn build(num: &Floats, vecs: &[Vec<f32>], metric: Metric) -> HnswIndex {
    let mut idx = HnswIndex::new(vecs[0].len(), metric, HnswParams::default());
    for (i, v) in vecs.iter().enumerate() {
        idx.insert(num, VectorId(i as u64), &bits(v)).unwrap();
    }
    idx
}

/// Parameters with a threshold so high that nothing is compacted.
fn no_compact_params() -> HnswParams {
    HnswParams {
        tombstone_threshold: 2.0f64.to_bits(),
        ..HnswParams::default()
    }
}

fn build_with(num: &Floats, vecs: &[Vec<f32>], params: HnswParams) -> HnswIndex {
    let mut idx = HnswIndex::new(vecs[0].len(), Metric::L2, params);
    for (i, v) in vecs.iter().enumerate() {
        idx.insert(num, VectorId(i as u64), &bits(v)).unwrap();
    }
    idx
}

fn exact(num: &Floats, vecs: &[Vec<f32>]) -> BruteForceIndex {
    let mut bf = BruteForceIndex::new(vecs[0].len(), Metric::L2);
    for (i, v) in vecs.iter().enumerate() {
        bf.insert(num, VectorId(i as u64), &bits(v)).unwrap();
    }
    bf
}

fn tombstone_ratio(idx: &HnswIndex) -> f64 {
    if idx.ids.is_empty() {
        0.0
    } else {
        idx.deleted_count as f64 / idx.ids.len() as f64
    }
}

/// Bytes of vectors and ids, and of links.
fn memory_bytes(idx: &HnswIndex) -> (usize, usize) {
    let vectors = idx.vectors.iter().map(|v| v.len() * 4).sum::<usize>() + idx.ids.len() * 8;
    let links = idx
        .links
        .iter()
        .map(|levels| 24 + levels.iter().map(|l| 24 + l.len() * 8).sum::<usize>())
        .sum();
    (vectors, links)
}

#[test]
fn hnsw_empty_index_returns_empty() {
    let num = Floats::new();
    let idx = HnswIndex::new(4, Metric::L2, HnswParams::default());
    assert!(idx.is_empty());
    assert!(idx.search(&num, &bits(&[0.0; 4]), 5).is_empty());
}

#[test]
fn hnsw_single_element() {
    let num = Floats::new();
    let idx = build(&num, &[vec![1.0, 2.0]], Metric::L2);
    let res = idx.search(&num, &bits(&[0.0, 0.0]), 1);
    assert_eq!(res.len(), 1);
    assert_eq!(res[0].id, VectorId(0));
}

#[test]
fn hnsw_k_larger_than_len_returns_all() {
    let num = Floats::new();
    let idx = build(&num, &random_vectors(5, 8, 42), Metric::L2);
    assert_eq!(idx.search(&num, &bits(&[0.0; 8]), 100).len(), 5);
}

#[test]
fn hnsw_k_zero_returns_empty() {
    let num = Floats::new();
    let idx = build(&num, &random_vectors(5, 8, 42), Metric::L2);
    assert!(idx.search(&num, &bits(&[0.0; 8]), 0).is_empty());
}

#[test]
fn hnsw_duplicate_vectors_distinct_ids_both_found() {
    let num = Floats::new();
    let mut vecs = random_vectors(50, 8, 42);
    vecs[10] = vecs[3].clone();
    let idx = build(&num, &vecs, Metric::L2);
    let res = idx.search(&num, &bits(&vecs[3]), 2);
    let ids: Vec<_> = res.iter().map(|r| r.id).collect();
    assert!(ids.contains(&VectorId(3)) && ids.contains(&VectorId(10)));
}

#[test]
fn hnsw_duplicate_id_rejected() {
    let num = Floats::new();
    let mut idx = HnswIndex::new(2, Metric::L2, HnswParams::default());
    idx.insert(&num, VectorId(1), &bits(&[1.0, 2.0])).unwrap();
    assert!(matches!(
        idx.insert(&num, VectorId(1), &bits(&[3.0, 4.0])),
        Err(IndexError::DuplicateId(_))
    ));
}

#[test]
fn hnsw_dimension_mismatch_rejected() {
    let num = Floats::new();
    let mut idx = HnswIndex::new(2, Metric::L2, HnswParams::default());
    assert_eq!(
        idx.insert(&num, VectorId(1), &bits(&[1.0])),
        Err(IndexError::DimensionMismatch {
            expected: 2,
            got: 1
        })
    );
}

#[test]
fn hnsw_zero_vector_cosine_no_nan() {
    let num = Floats::new();
    let mut idx = HnswIndex::new(3, Metric::Cosine, HnswParams::default());
    idx.insert(&num, VectorId(0), &bits(&[0.0; 3])).unwrap();
    idx.insert(&num, VectorId(1), &bits(&[1.0, 0.0, 0.0]))
        .unwrap();
    let res = idx.search(&num, &bits(&[1.0, 0.0, 0.0]), 2);
    assert_eq!(res.len(), 2);
    assert!(res.iter().all(|r| !distance_of(r).is_nan()));
}

#[test]
fn deterministic_across_builds_same_seed() {
    let num = Floats::new();
    let vecs = random_vectors(200, 16, 7);
    let a = build(&num, &vecs, Metric::L2);
    let b = build(&Floats::new(), &vecs, Metric::L2);
    let q = bits(&random_vectors(1, 16, 8).pop().unwrap());
    assert_eq!(a.search(&num, &q, 10), b.search(&num, &q, 10));
    assert_eq!(a.links, b.links);
}

#[test]
fn link_counts_respect_limits() {
    let num = Floats::new();
    let idx = build(&num, &random_vectors(2_000, 16, 42), Metric::L2);
    for (slot, levels) in idx.links.iter().enumerate() {
        for (level, nbrs) in levels.iter().enumerate() {
            let limit = if level == 0 {
                idx.params.m_max0
            } else {
                idx.params.m
            };
            assert!(
                nbrs.len() <= limit,
                "slot {slot} level {level}: {} > limit",
                nbrs.len()
            );
            // Edges need not go both ways: when one side is pruned, the
            // opposite edge remains. So only this is checked: neighbour slots
            // are valid, and the neighbour has the level.
            for &nb in nbrs {
                assert!(nb < idx.links.len());
                assert!(
                    level < idx.links[nb].len(),
                    "neighbour {nb} does not have level {level}"
                );
            }
        }
    }
}

#[test]
fn recall_on_small_set_vs_bruteforce() {
    let num = Floats::new();
    let vecs = random_vectors(2_000, 32, 42);
    let queries = random_vectors(50, 32, 43);
    let hnsw = build(&num, &vecs, Metric::L2);
    let bf = exact(&num, &vecs);
    let mut hits = 0usize;
    let mut total = 0usize;
    for q in &queries {
        let truth: Vec<_> = bf
            .search(&num, &bits(q), 10)
            .iter()
            .map(|r| r.id)
            .collect();
        let got = hnsw.search_with_ef(&num, &bits(q), 10, 100);
        hits += got.iter().filter(|r| truth.contains(&r.id)).count();
        total += truth.len();
    }
    let recall = hits as f64 / total as f64;
    assert!(recall >= 0.95, "recall {recall} < 0.95");
}

#[test]
fn delete_removes_from_results_and_len() {
    let num = Floats::new();
    let vecs = random_vectors(100, 8, 42);
    let mut idx = build_with(&num, &vecs, no_compact_params());
    idx.delete(&num, VectorId(7)).unwrap();
    assert_eq!(idx.len(), 99);
    let res = idx.search(&num, &bits(&vecs[7]), 10);
    assert!(res.iter().all(|r| r.id != VectorId(7)));
    assert_eq!(
        idx.delete(&num, VectorId(7)),
        Err(IndexError::NotFound(VectorId(7)))
    );
}

#[test]
fn delete_entry_point_picks_new_entry_and_search_works() {
    let num = Floats::new();
    let vecs = random_vectors(500, 8, 42);
    let mut idx = build_with(&num, &vecs, no_compact_params());
    // find and delete the entry point
    let entry_slot = idx.entry.unwrap();
    let entry_id = idx.ids[entry_slot];
    idx.delete(&num, entry_id).unwrap();
    let new_entry = idx.entry.expect("a new entry should have been chosen");
    assert_ne!(new_entry, entry_slot);
    assert!(!idx.deleted[new_entry]);
    // the new entry must be the highest-level live node
    let max_level = (0..idx.ids.len())
        .filter(|&s| !idx.deleted[s])
        .map(|s| idx.links[s].len())
        .max()
        .unwrap();
    assert_eq!(idx.links[new_entry].len(), max_level);
    // search still works and does not return the deleted id
    let res = idx.search(&num, &bits(&vecs[0]), 10);
    assert_eq!(res.len(), 10);
    assert!(res.iter().all(|r| r.id != entry_id));
}

#[test]
fn delete_all_then_reinsert() {
    let num = Floats::new();
    let vecs = random_vectors(20, 4, 42);
    let mut idx = build_with(&num, &vecs, no_compact_params());
    for i in 0..20 {
        idx.delete(&num, VectorId(i)).unwrap();
    }
    assert_eq!(idx.len(), 0);
    assert!(idx.search(&num, &bits(&[0.0; 4]), 5).is_empty());
    assert!(idx.entry.is_none());
    // inserting into an emptied index must work like building from scratch
    idx.insert(&num, VectorId(100), &bits(&[1.0; 4])).unwrap();
    assert_eq!(
        idx.search(&num, &bits(&[1.0; 4]), 1)[0].id,
        VectorId(100)
    );
}

#[test]
fn deleted_id_can_be_reinserted_with_new_vector() {
    let num = Floats::new();
    let vecs = random_vectors(50, 4, 42);
    let mut idx = build_with(&num, &vecs, no_compact_params());
    idx.delete(&num, VectorId(5)).unwrap();
    idx.insert(&num, VectorId(5), &bits(&[9.0; 4])).unwrap();
    assert_eq!(idx.len(), 50);
    let res = idx.search(&num, &bits(&[9.0; 4]), 1);
    assert_eq!(res[0].id, VectorId(5));
}

#[test]
fn recall_stays_high_after_20pct_deletion() {
    let num = Floats::new();
    let vecs = random_vectors(2_000, 16, 42);
    let queries = random_vectors(30, 16, 43);
    let mut idx = build_with(&num, &vecs, no_compact_params());
    let mut bf = exact(&num, &vecs);
    // delete every 5th element (20%)
    for i in (0..2_000).step_by(5) {
        idx.delete(&num, VectorId(i)).unwrap();
        bf.delete(VectorId(i)).unwrap();
    }
    let mut hits = 0;
    let mut total = 0;
    for q in &queries {
        let truth: Vec<_> = bf
            .search(&num, &bits(q), 10)
            .iter()
            .map(|r| r.id)
            .collect();
        let got = idx.search_with_ef(&num, &bits(q), 10, 100);
        assert_eq!(got.len(), 10, "missing results after deletion");
        hits += got.iter().filter(|r| truth.contains(&r.id)).count();
        total += truth.len();
    }
    let recall = hits as f64 / total as f64;
    assert!(recall >= 0.95, "recall after deletion {recall} < 0.95");
}

#[test]
fn compaction_triggers_at_threshold_and_frees_memory() {
    let num = Floats::new();
    let vecs = random_vectors(1_000, 16, 42);
    let mut idx = build_with(
        &num,
        &vecs,
        HnswParams {
            tombstone_threshold: 0.3f64.to_bits(),
            ..HnswParams::default()
        },
    );
    let (vec_before, link_before) = memory_bytes(&idx);
    // delete up to just below the 30% threshold — compaction must not fire
    for i in 0..299 {
        idx.delete(&num, VectorId(i)).unwrap();
    }
    assert!(tombstone_ratio(&idx) > 0.0);
    // a deletion crossing the threshold triggers compaction
    idx.delete(&num, VectorId(299)).unwrap();
    assert_eq!(
        tombstone_ratio(&idx),
        0.0,
        "compaction must leave no tombstones"
    );
    assert_eq!(idx.len(), 700);
    let (vec_after, link_after) = memory_bytes(&idx);
    assert!(
        vec_after < vec_before && link_after < link_before,
        "memory did not drop: vec {vec_before}->{vec_after}, link {link_before}->{link_after}"
    );
    // search is healthy after compaction
    let res = idx.search(&num, &bits(&vecs[500]), 5);
    assert_eq!(res[0].id, VectorId(500));
}

#[test]
fn persist_roundtrip_with_tombstones() {
    let num = Floats::new();
    let vecs = random_vectors(200, 8, 42);
    let mut idx = build_with(&num, &vecs, no_compact_params());
    for i in (0..200).step_by(7) {
        idx.delete(&num, VectorId(i)).unwrap();
    }
    // re-insert a deleted id: the duplicate-entry-in-ids scenario
    idx.insert(&num, VectorId(0), &bits(&[0.5; 8])).unwrap();
    let loaded = HnswIndex::load_from_bytes(&idx.to_bytes().unwrap()).unwrap();
    assert_eq!(idx.len(), loaded.len());
    for q in random_vectors(10, 8, 43) {
        assert_eq!(
            idx.search(&num, &bits(&q), 10),
            loaded.search(&num, &bits(&q), 10)
        );
    }
}

#[test]
fn persist_roundtrip_identical_results() {
    let num = Floats::new();
    let vecs = random_vectors(1_000, 16, 42);
    let idx = build(&num, &vecs, Metric::L2);
    let loaded = HnswIndex::load_from_bytes(&idx.to_bytes().unwrap()).unwrap();
    for q in random_vectors(20, 16, 43) {
        assert_eq!(
            idx.search(&num, &bits(&q), 10),
            loaded.search(&num, &bits(&q), 10)
        );
    }
    assert_eq!(idx.len(), loaded.len());
}

#[test]
fn persist_roundtrip_cosine_normalized_data_preserved() {
    let num = Floats::new();
    let vecs = random_vectors(200, 8, 42);
    let idx = build(&num, &vecs, Metric::Cosine);
    let loaded = HnswIndex::load_from_bytes(&idx.to_bytes().unwrap()).unwrap();
    for q in random_vectors(5, 8, 43) {
        assert_eq!(
            idx.search(&num, &bits(&q), 5),
            loaded.search(&num, &bits(&q), 5)
        );
    }
}

#[test]
fn persist_empty_index_roundtrip() {
    let num = Floats::new();
    let idx = HnswIndex::new(4, Metric::L2, HnswParams::default());
    let loaded = HnswIndex::load_from_bytes(&idx.to_bytes().unwrap()).unwrap();
    assert!(loaded.is_empty());
    assert!(loaded.search(&num, &bits(&[0.0; 4]), 3).is_empty());
}

#[test]
fn persist_loaded_index_accepts_inserts() {
    let num = Floats::new();
    let vecs = random_vectors(100, 8, 42);
    let idx = build(&num, &vecs, Metric::L2);
    let mut loaded = HnswIndex::load_from_bytes(&idx.to_bytes().unwrap()).unwrap();
    loaded
        .insert(&num, VectorId(999), &bits(&[0.5; 8]))
        .unwrap();
    assert_eq!(loaded.len(), 101);
    let res = loaded.search(&num, &bits(&[0.5; 8]), 1);
    assert_eq!(res[0].id, VectorId(999));
}

#[test]
fn persist_truncated_file_is_error_not_panic() {
    let num = Floats::new();
    let idx = build(&num, &random_vectors(100, 8, 42), Metric::L2);
    let bytes = idx.to_bytes().unwrap();
    for cut in [0, 3, 10, bytes.len() / 2, bytes.len() - 1] {
        assert!(
            HnswIndex::load_from_bytes(&bytes[..cut]).is_err(),
            "a truncated file (cut={cut}) should have returned an error"
        );
    }
}

#[test]
fn persist_bitflip_detected_by_crc() {
    let num = Floats::new();
    let idx = build(&num, &random_vectors(100, 8, 42), Metric::L2);
    let bytes = idx.to_bytes().unwrap();
    // flip a single bit at various points after the header
    for pos in [8, 20, bytes.len() / 2, bytes.len() - 10] {
        let mut bad = bytes.clone();
        bad[pos] ^= 0x01;
        assert!(
            HnswIndex::load_from_bytes(&bad).is_err(),
            "bit flip @{pos} should have been caught"
        );
    }
}

#[test]
fn persist_wrong_magic_and_version() {
    let num = Floats::new();
    let idx = build(&num, &random_vectors(10, 4, 42), Metric::L2);
    let bytes = idx.to_bytes().unwrap();
    let mut bad = bytes.clone();
    bad[0] = b'X';
    assert!(matches!(
        HnswIndex::load_from_bytes(&bad),
        Err(PersistError::Corrupt(_))
    ));
    // change the version and fix the crc so it reaches the version check
    let mut bad = bytes.clone();
    bad[4] = 99;
    let body_len = bad.len() - 4;
    let mut h = crc32fast::Hasher::new();
    h.update(&bad[..body_len]);
    let crc = h.finalize().to_le_bytes();
    bad[body_len..].copy_from_slice(&crc);
    assert!(matches!(
        HnswIndex::load_from_bytes(&bad),
        Err(PersistError::UnsupportedVersion(99))
    ));
    assert_eq!(
        HnswIndex::load_from_bytes(&bad).err().unwrap().message(),
        "unsupported format version: 99 (this build reads 1)"
    );
}

#[test]
fn load_random_bytes_never_panics() {
    let mut rng = StdRng::seed_from_u64(11);
    for _ in 0..300 {
        let n = rng.gen_range(0..2048);
        let bytes: Vec<u8> = (0..n).map(|_| rng.gen()).collect();
        assert!(HnswIndex::load_from_bytes(&bytes).is_err());
    }
}

#[test]
fn corrupted_valid_file_is_an_error() {
    let num = Floats::new();
    let idx = build(&num, &random_vectors(20, 4, 42), Metric::L2);
    let bytes = idx.to_bytes().unwrap();
    for p in 0..500 {
        let mut bad = bytes.clone();
        let p = p % bad.len();
        bad[p] ^= (p % 254 + 1) as u8;
        // since the crc covers every byte, corruption must yield an error
        assert!(HnswIndex::load_from_bytes(&bad).is_err());
    }
}

/// The file of the graph section is what bincode reads and writes: links,
/// levels and flags survive, and the file starts with its magic and version.
#[test]
fn file_layout() {
    let num = Floats::new();
    let mut idx = build_with(&num, &random_vectors(60, 4, 5), no_compact_params());
    idx.delete(&num, VectorId(9)).unwrap();
    let bytes = idx.to_bytes().unwrap();
    assert_eq!(&bytes[..4], b"GVDB");
    assert_eq!(&bytes[4..8], &[1, 0, 0, 0]);
    let body = bytes.len() - 4;
    assert_eq!(
        crc32fast::hash(&bytes[..body]).to_le_bytes(),
        bytes[body..]
    );
    let loaded = HnswIndex::load_from_bytes(&bytes).unwrap();
    assert_eq!(loaded.links, idx.links);
    assert_eq!(loaded.vectors, idx.vectors);
    assert_eq!(loaded.deleted, idx.deleted);
    assert_eq!(loaded.ids, idx.ids);
    assert_eq!(loaded.entry, idx.entry);
    assert_eq!(loaded.params, idx.params);
    assert_eq!(loaded.deleted_count, 1);
    assert_eq!(loaded.slot_of.len(), 59);
}

#[test]
fn top1_matches_bruteforce_at_high_ef() {
    let num = Floats::new();
    for seed in [0u64, 77, 500, 999] {
        let vecs = random_vectors(300, 8, seed);
        let queries = random_vectors(20, 8, seed.wrapping_add(1));
        let hnsw = build(&num, &vecs, Metric::L2);
        let bf = exact(&num, &vecs);
        let agree = queries
            .iter()
            .filter(|q| {
                let q = bits(q);
                hnsw.search_with_ef(&num, &q, 1, 300)[0].id == bf.search(&num, &q, 1)[0].id
            })
            .count();
        assert!(agree >= 18, "top-1 agreement {agree}/20");
    }
}

/// A filter that hardly anything passes is still answered in full.
#[test]
fn filtered_search_falls_back_to_a_scan() {
    let num = Floats::new();
    let vecs = random_vectors(1_000, 8, 3);
    let idx = build(&num, &vecs, Metric::L2);
    let bf = exact(&num, &vecs);
    let rare = |id: VectorId| id.0 % 400 == 7;
    let q = bits(&random_vectors(1, 8, 4)[0]);
    let (res, stats) = idx.search_filtered_stats(&num, &q, 5, 50, &rare, None);
    assert_eq!(res, bf.search_filtered(&num, &q, 5, &rare));
    assert_eq!(res.len(), 3);
    assert!(stats.fallback_used);
    let all = |_: VectorId| true;
    let (res, stats) = idx.search_filtered_stats(&num, &q, 5, 50, &all, None);
    assert_eq!(res.len(), 5);
    assert!(!stats.fallback_used);
}

#[test]
fn live_entries_leave_out_the_deleted() {
    let num = Floats::new();
    let vecs = random_vectors(5, 2, 1);
    let mut idx = build_with(&num, &vecs, no_compact_params());
    idx.delete(&num, VectorId(2)).unwrap();
    let ids: Vec<VectorId> = idx.live_entries().iter().map(|e| e.0).collect();
    assert_eq!(
        ids,
        vec![VectorId(0), VectorId(1), VectorId(3), VectorId(4)]
    );
    assert!(idx.vector_of(VectorId(2)).is_none());
    assert_eq!(idx.vector_of(VectorId(3)).unwrap(), &bits(&vecs[3]));
    idx.compact(&num);
    assert_eq!(idx.ids.len(), 4);
    assert_eq!(idx.deleted_count, 0);
}

#[test]
fn vectors_survive_compaction() {
    let num = Floats::new();
    let vecs = random_vectors(40, 5, 23);
    let mut idx = HnswIndex::new(5, Metric::L2, HnswParams::default());
    for (i, v) in vecs.iter().enumerate() {
        idx.insert(&num, VectorId(i as u64), &bits(v)).unwrap();
    }
    for i in (0..40).step_by(4) {
        idx.delete(&num, VectorId(i)).unwrap();
    }
    idx.compact(&num);
    assert_eq!(idx.ids.len(), 30);
    for (i, v) in vecs.iter().enumerate() {
        let kept = idx.vector_of(VectorId(i as u64));
        if i % 4 == 0 {
            assert!(kept.is_none());
        } else {
            assert_eq!(*kept.unwrap(), bits(v));
        }
    }
}

#[test]
fn the_query_width_can_be_changed() {
    let num = Floats::new();
    let vecs = random_vectors(60, 5, 29);
    let mut idx = HnswIndex::new(5, Metric::L2, HnswParams::default());
    for (i, v) in vecs.iter().enumerate() {
        idx.insert(&num, VectorId(i as u64), &bits(v)).unwrap();
    }
    assert_eq!(idx.params().ef_search, 50);
    idx.set_ef_search(7);
    assert_eq!(idx.params().ef_search, 7);
    let q = bits(&vecs[3]);
    assert_eq!(idx.search(&num, &q, 5), idx.search_with_ef(&num, &q, 5, 7));
}

#[test]
fn a_graph_is_written_part_by_part() {
    let num = Floats::new();
    let params = HnswParams::default();
    let mut idx = HnswIndex::new(1, Metric::Dot, params.clone());
    idx.insert(&num, VectorId(9), &bits(&[2.0])).unwrap();
    let levels = idx.links[0].len();
    let mut want: Vec<u8> = Vec::new();
    for x in [params.m, params.m_max0, params.ef_construction, params.ef_search] {
        want.extend((x as u64).to_le_bytes());
    }
    want.extend(params.seed.to_le_bytes());
    want.extend(params.tombstone_threshold.to_le_bytes());
    want.extend(1u32.to_le_bytes());
    for x in [1u64, 1, 1, 9, 1, levels as u64] {
        want.extend(x.to_le_bytes());
    }
    for _ in 0..levels {
        want.extend(0u64.to_le_bytes());
    }
    want.push(1);
    want.extend(0u64.to_le_bytes());
    want.extend(1u64.to_le_bytes());
    want.push(0);
    let bytes = idx.to_bytes().unwrap();
    assert_eq!(&bytes[8..16], &(want.len() as u64).to_le_bytes());
    assert_eq!(&bytes[16..16 + want.len()], &want[..]);
}

#[test]
fn a_graph_that_cannot_be_read_is_told_in_the_serializers_words() {
    let num = Floats::new();
    let idx = build(&num, &random_vectors(5, 4, 1), Metric::L2);
    let good = idx.to_bytes().unwrap();
    let len = u64::from_le_bytes(good[8..16].try_into().unwrap()) as usize;
    let told = |place: usize, byte: u8| {
        let mut bad = good.clone();
        bad[place] = byte;
        let body = bad.len() - 4;
        let crc = crc32fast::hash(&bad[..body]).to_le_bytes();
        bad[body..].copy_from_slice(&crc);
        HnswIndex::load_from_bytes(&bad).err().unwrap().message()
    };
    // a metric that there is not
    assert_eq!(
        told(16 + 48, 9),
        "serialization error: invalid value: integer `9`, expected variant index 0 <= i < 3"
    );
    // the last deletion flag
    assert_eq!(
        told(16 + len - 1, 7),
        "serialization error: invalid u8 while decoding bool, expected 0 or 1, found 7"
    );
    // a section that ends too early
    assert_eq!(
        told(8, 40),
        "serialization error: io error: unexpected end of file"
    );
}

#[test]
fn the_share_of_the_dead_stays_below_the_limit() {
    let num = Floats::new();
    let vecs = random_vectors(80, 4, 9);
    let params = HnswParams::default();
    let limit = f64::from_bits(params.tombstone_threshold);
    let mut idx = HnswIndex::new(4, Metric::L2, params);
    let mut rng = StdRng::seed_from_u64(4);
    for step in 0..400 {
        let i = rng.gen_range(0..vecs.len());
        let id = VectorId(i as u64);
        if idx.contains(id) {
            idx.delete(&num, id).unwrap();
            assert!(!idx.contains(id));
            let hits = idx.search(&num, &bits(&vecs[i]), 5);
            assert!(hits.iter().all(|r| r.id != id));
        } else {
            idx.insert(&num, id, &bits(&vecs[i])).unwrap();
        }
        let dead = idx.deleted.iter().filter(|d| **d).count();
        assert!(
            idx.deleted.is_empty() || (dead as f64 / idx.deleted.len() as f64) < limit,
            "step {step}"
        );
    }
}
