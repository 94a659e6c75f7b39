use gvector::bruteforce::BruteForceIndex;
use gvector::error::IndexError;
use gvector::eval::exact_top_k;
use gvector::hnsw::HnswParams;
use gvector::meta::{Filter, MetaValue, Metadata, Predicate};
use gvector::segmented::{prealloc_records, SegmentedIndex, QUEUE_LIMIT};
use gvector::segmented_build::{build_merged, build_segment};
use std::collections::HashSet;
use gvector::distance::{distance_bits, distance_key, Metric};
use gvector::numerics::Numerics;
use gvector::types::{SearchResult, VectorId};
use rand::rngs::StdRng;
use rand::{Rng, SeedableRng};
use std::cell::RefCell;
use std::collections::HashMap;

/// Floating-point arithmetic for the indexes.
struct Floats {
    levels: RefCell<HashMap<(u64, usize), (StdRng, Vec<usize>)>>,
}

impl Floats {
    fn new() -> Self {
        Floats {
            levels: RefCell::new(HashMap::new()),
        }
    }
}

fn bits(v: &[f32]) -> Vec<u32> {
    v.iter().map(|x| x.to_bits()).collect()
}

fn floats(v: &[u32]) -> Vec<f32> {
    v.iter().map(|x| f32::from_bits(*x)).collect()
}

fn dot(a: &[f32], b: &[f32]) -> f32 {
    a.iter().zip(b).map(|(x, y)| x * y).sum()
}

fn normalized(v: &[f32]) -> Vec<f32> {
    let norm = dot(v, v).sqrt();
    if norm > 0.0 {
        v.iter().map(|x| x / norm).collect()
    } else {
        v.to_vec()
    }
}

impl Numerics for Floats {
    fn distance(&self, metric: Metric, a: &[u32], b: &[u32]) -> u32 {
        let pairs = a
            .iter()
            .zip(b)
            .map(|(x, y)| (f32::from_bits(*x), f32::from_bits(*y)));
        let d: f32 = match metric {
            Metric::L2 => pairs.map(|(x, y)| (x - y) * (x - y)).sum(),
            Metric::Dot | Metric::Cosine => -pairs.map(|(x, y)| x * y).sum::<f32>(),
        };
        distance_key(d.to_bits())
    }

    fn normalized(&self, v: &[u32]) -> Vec<u32> {
        bits(&normalized(&floats(v)))
    }

    fn level(&self, seed: u64, m: usize, draw: u64) -> usize {
        let mut memo = self.levels.borrow_mut();
        let (rng, drawn) = memo
            .entry((seed, m))
            .or_insert_with(|| (StdRng::seed_from_u64(seed), Vec::new()));
        while drawn.len() as u64 <= draw {
            let ml = 1.0 / (m.max(2) as f64).ln();
            let u: f64 = rng.gen_range(f64::MIN_POSITIVE..1.0);
            drawn.push((-u.ln() * ml).floor() as usize);
        }
        drawn[draw as usize]
    }

    fn worn_out(&self, threshold: u64, deleted: usize, total: usize) -> bool {
        deleted as f64 / total as f64 >= f64::from_bits(threshold)
    }

    fn bucket(&self, lo: u64, hi: u64, v: u64) -> usize {
        let (lo, hi, v) = (f64::from_bits(lo), f64::from_bits(hi), f64::from_bits(v));
        if hi <= lo {
            return 0;
        }
        (((v - lo) / (hi - lo) * 64.0) as usize).min(63)
    }

    fn widened(&self, lo: u64, hi: u64, v: u64) -> (u64, u64) {
        let (lo, hi, v) = (f64::from_bits(lo), f64::from_bits(hi), f64::from_bits(v));
        let span = (hi - lo).max(v.abs().max(1.0) * 0.01);
        (
            lo.min(v - span * 0.125).to_bits(),
            hi.max(v + span * 0.125).to_bits(),
        )
    }

    fn share(&self, fraction: u64, n: usize) -> usize {
        (f64::from_bits(fraction) * n as f64) as usize
    }

    fn overfetch(&self, beta: u64, k: usize, upper: usize, n: usize) -> usize {
        let selectivity = upper as f64 / n as f64;
        (f64::from_bits(beta) * k as f64 / selectivity) as usize
    }
}

fn random_vectors(n: usize, dim: usize, seed: u64) -> Vec<Vec<f32>> {
    let mut rng = StdRng::seed_from_u64(seed);
    (0..n)
        .map(|_| (0..dim).map(|_| rng.gen_range(-1.0..1.0)).collect())
        .collect()
}

fn distance_of(r: &SearchResult) -> f32 {
    f32::from_bits(distance_bits(r.distance))
}

fn build(num: &Floats, vecs: &[Vec<f32>], seal_threshold: usize) -> SegmentedIndex {
    let mut idx = SegmentedIndex::new(
        vecs[0].len(),
        Metric::L2,
        HnswParams::default(),
        seal_threshold,
    );
    for (i, v) in vecs.iter().enumerate() {
        idx.insert_shared(num, VectorId(i as u64), &bits(v))
            .unwrap();
    }
    idx
}

fn meta(pairs: &[(&str, MetaValue)]) -> Metadata {
    Metadata::collect(
        pairs
            .iter()
            .map(|(k, v)| (k.to_string(), v.clone()))
            .collect(),
    )
}

fn equals(key: &str, value: MetaValue) -> Filter {
    Filter {
        must: vec![Predicate::Eq {
            key: key.to_string(),
            value,
        }],
    }
}

fn between(key: &str, min: f64, max: f64) -> Filter {
    Filter {
        must: vec![Predicate::Range {
            key: key.to_string(),
            min: min.to_bits(),
            max: max.to_bits(),
        }],
    }
}

fn ids(rs: &[SearchResult]) -> Vec<VectorId> {
    rs.iter().map(|r| r.id).collect()
}

fn patterns(vs: &[Vec<f32>]) -> Vec<Vec<u32>> {
    vs.iter().map(|v| bits(v)).collect()
}

#[test]
fn segmented_empty_index_returns_empty() {
    let num = Floats::new();
    let idx = SegmentedIndex::new(4, Metric::L2, HnswParams::default(), 100);
    assert_eq!(idx.len_shared(&num), 0);
    assert!(idx.search_shared(&num, &bits(&[0.0; 4]), 5).is_empty());
}

#[test]
fn single_element_and_k_larger_than_len() {
    let num = Floats::new();
    let idx = build(&num, &[vec![1.0, 2.0]], 100);
    let res = idx.search_shared(&num, &bits(&[0.0, 0.0]), 10);
    assert_eq!(res.len(), 1);
    assert_eq!(res[0].id, VectorId(0));
}

#[test]
fn spans_multiple_segments_and_buffer() {
    let num = Floats::new();
    let vecs = random_vectors(1_050, 8, 42);
    let mut idx = build(&num, &vecs, 400); // 2 segments (400+400) + 250 in the buffer
    idx.wait_for_background(&num);
    let (n_seg, n_buf) = idx.shape();
    assert_eq!(n_seg, 2);
    assert_eq!(n_buf, 250);
    assert_eq!(idx.len_shared(&num), 1_050);
    // correctness: high agreement with the exact reference
    let base = patterns(&vecs);
    let queries = random_vectors(20, 8, 43);
    let mut hits = 0;
    for q in &queries {
        let q = bits(q);
        let truth = ids(&exact_top_k(&num, &base, &q, 10, Metric::L2));
        hits += idx
            .search_shared(&num, &q, 10)
            .iter()
            .filter(|r| truth.contains(&r.id))
            .count();
    }
    let recall = hits as f64 / (20 * 10) as f64;
    assert!(recall >= 0.95, "recall over segments {recall}");
}

#[test]
fn duplicate_id_rejected_across_sources() {
    let num = Floats::new();
    let vecs = random_vectors(500, 4, 42);
    let mut idx = build(&num, &vecs, 300); // ids 0..299 in a segment, 300.. in the buffer
    idx.wait_for_background(&num);
    assert!(matches!(
        idx.insert_shared(&num, VectorId(5), &bits(&[0.0; 4])),
        Err(IndexError::DuplicateId(_))
    ));
    assert!(matches!(
        idx.insert_shared(&num, VectorId(450), &bits(&[0.0; 4])),
        Err(IndexError::DuplicateId(_))
    ));
}

#[test]
fn delete_from_buffer_and_segment() {
    let num = Floats::new();
    let vecs = random_vectors(500, 4, 42);
    let mut idx = build(&num, &vecs, 300);
    idx.wait_for_background(&num);
    // a real deletion from the buffer
    idx.delete_shared(&num, VectorId(400)).unwrap();
    // a tombstone in the segment
    idx.delete_shared(&num, VectorId(5)).unwrap();
    assert_eq!(idx.len_shared(&num), 498);
    for q in random_vectors(10, 4, 43) {
        let found = ids(&idx.search_shared(&num, &bits(&q), 498));
        assert!(!found.contains(&VectorId(400)) && !found.contains(&VectorId(5)));
    }
    assert!(matches!(
        idx.delete_shared(&num, VectorId(5)),
        Err(IndexError::NotFound(_))
    ));
}

#[test]
fn reinsert_after_segment_delete_returns_new_vector() {
    let num = Floats::new();
    let vecs = random_vectors(300, 4, 42);
    let mut idx = build(&num, &vecs, 200); // id 5 in a segment
    idx.wait_for_background(&num);
    idx.delete_shared(&num, VectorId(5)).unwrap();
    idx.insert_shared(&num, VectorId(5), &bits(&[9.0; 4]))
        .unwrap();
    assert_eq!(idx.len_shared(&num), 300);
    // the new vector is found, the old copy stays shadowed
    let res = idx.search_shared(&num, &bits(&[9.0; 4]), 1);
    assert_eq!(res[0].id, VectorId(5));
    let old = idx.search_shared(&num, &bits(&vecs[5]), 3);
    // if id 5 comes back at the old position it is a resurrected old copy —
    // it must not (the new vector [9;4] is far from the old position)
    assert!(old.iter().all(|r| r.id != VectorId(5)));
}

#[test]
fn zero_vector_and_duplicate_vectors() {
    let num = Floats::new();
    let mut idx = SegmentedIndex::new(3, Metric::Cosine, HnswParams::default(), 10);
    idx.insert_shared(&num, VectorId(0), &bits(&[0.0; 3]))
        .unwrap();
    idx.insert_shared(&num, VectorId(1), &bits(&[1.0, 0.0, 0.0]))
        .unwrap();
    idx.insert_shared(&num, VectorId(2), &bits(&[1.0, 0.0, 0.0]))
        .unwrap();
    let res = idx.search_shared(&num, &bits(&[1.0, 0.0, 0.0]), 3);
    assert_eq!(res.len(), 3);
    assert!(res.iter().all(|r| !distance_of(r).is_nan()));
    assert!(res[..2].iter().all(|r| r.id != VectorId(0)));
}

/// Records are split into two categories by id parity; a filtered search must
/// return only the requested category and agree with the filtered exact
/// reference.
#[test]
fn filtered_search_matches_reference() {
    let num = Floats::new();
    let vecs = random_vectors(1_000, 8, 42);
    let mut idx = SegmentedIndex::new(8, Metric::L2, HnswParams::default(), 400);
    let mut bf = BruteForceIndex::new(8, Metric::L2);
    for (i, v) in vecs.iter().enumerate() {
        let group = if i % 2 == 0 { "even" } else { "odd" };
        let m = meta(&[("grup", MetaValue::Str(group.to_string()))]);
        idx.insert_with_meta(&num, VectorId(i as u64), &bits(v), m)
            .unwrap();
        bf.insert(&num, VectorId(i as u64), &bits(v)).unwrap();
    }
    idx.wait_for_background(&num);
    let filter = equals("grup", MetaValue::Str("even".to_string()));
    let allow = |id: VectorId| id.0 % 2 == 0;
    let queries = random_vectors(20, 8, 43);
    let mut hits = 0;
    for q in &queries {
        let q = bits(q);
        let res = idx.search_filtered(&num, &q, 10, &filter);
        assert_eq!(res.len(), 10);
        assert!(res.iter().all(|r| r.id.0 % 2 == 0), "filter leak");
        let truth = ids(&bf.search_filtered(&num, &q, 10, &allow));
        hits += res.iter().filter(|r| truth.contains(&r.id)).count();
    }
    assert!(
        hits as f64 / 200.0 >= 0.95,
        "filtered recall too low: {hits}/200"
    );
}

/// The queue takes buffers while nothing is built, and is drained by the work
/// behind the index, with no data lost.
#[test]
fn sealing_worker_is_single_and_queue_drains() {
    let num = Floats::new();
    let n = 8_000;
    let vecs = random_vectors(n, 16, 42);
    let mut idx = SegmentedIndex::new(
        16,
        Metric::L2,
        HnswParams::default(),
        200,
    );
    idx.set_max_segments(&num, 2);
    let mut max_queue = 0;
    for (i, v) in vecs.iter().enumerate() {
        idx.insert_shared(&num, VectorId(i as u64), &bits(v))
            .unwrap();
        max_queue = max_queue.max(idx.sealing_count());
        if idx.sealing_count() > 10 {
            idx.build_one(&num);
        }
    }
    assert!(
        max_queue > 0,
        "no sealing queue ever formed: the test is weak"
    );
    idx.wait_for_background(&num);
    assert_eq!(idx.sealing_count(), 0, "the queue was not drained");
    assert_eq!(idx.len_shared(&num), n, "data was lost during sealing");
    assert!(idx.shape().0 <= 2);
}

/// Backpressure bounds the queue — writes are slowed, not rejected.
#[test]
fn backpressure_bounds_the_sealing_queue() {
    let num = Floats::new();
    let n = 8_000;
    let vecs = random_vectors(n, 16, 7);
    let mut idx = SegmentedIndex::new(
        16,
        Metric::L2,
        HnswParams::default(),
        100,
    );
    idx.set_max_segments(&num, 2);
    let limit = 2;
    assert_eq!(QUEUE_LIMIT, limit);
    let mut max_queue = 0;
    let mut stalls = 0;
    for (i, v) in vecs.iter().enumerate() {
        idx.insert_shared(&num, VectorId(i as u64), &bits(v))
            .unwrap();
        max_queue = max_queue.max(idx.sealing_count());
        while idx.must_stall() {
            stalls += 1;
            idx.build_one(&num);
        }
    }
    assert!(stalls > 0, "backpressure never kicked in: the test is weak");
    // Since the wait happens after sealing, the bound can be exceeded by one.
    assert!(
        max_queue <= limit + 1,
        "queue bound exceeded: {max_queue} > {}",
        limit + 1
    );
    idx.wait_for_background(&num);
    assert_eq!(
        idx.len_shared(&num),
        n,
        "data was lost under backpressure"
    );
}

/// Room for the buffer is made up to the threshold, which may be given as
/// `usize::MAX` to mean "no sealing in practice": it is bounded in bytes.
#[test]
fn huge_seal_threshold_does_not_panic() {
    let num = Floats::new();
    let mut idx = SegmentedIndex::new(128, Metric::L2, HnswParams::default(), usize::MAX);
    let v = vec![0.1f32; 128];
    idx.insert_shared(&num, VectorId(1), &bits(&v)).unwrap();
    assert_eq!(idx.len_shared(&num), 1);
    assert_eq!(prealloc_records(100, 128), 100);
    assert_eq!(prealloc_records(usize::MAX, 128), (512 << 20) / 512);
    assert_eq!(prealloc_records(usize::MAX, 0), (512 << 20) / 4);
}

/// A highly selective filter (a single match) must find that one record.
#[test]
fn highly_selective_filter_falls_back_to_exact() {
    let num = Floats::new();
    let vecs = random_vectors(2_000, 8, 42);
    let mut idx = SegmentedIndex::new(8, Metric::L2, HnswParams::default(), 500);
    for (i, v) in vecs.iter().enumerate() {
        let m = meta(&[("nadir", MetaValue::Bool(i == 1_234))]);
        idx.insert_with_meta(&num, VectorId(i as u64), &bits(v), m)
            .unwrap();
    }
    idx.wait_for_background(&num);
    let filter = equals("nadir", MetaValue::Bool(true));
    let res = idx.search_filtered(&num, &bits(&random_vectors(1, 8, 43)[0]), 5, &filter);
    assert_eq!(res.len(), 1);
    assert_eq!(res[0].id, VectorId(1_234));
    // must return empty when there is no match at all
    let none = equals("yok", MetaValue::Bool(true));
    assert!(idx
        .search_filtered(&num, &bits(&vecs[0]), 5, &none)
        .is_empty());
}

/// A deleted record's metadata is dropped; the same id can come back with
/// new metadata.
#[test]
fn delete_drops_metadata_reinsert_gets_fresh() {
    let num = Floats::new();
    let vecs = random_vectors(100, 4, 42);
    let mut idx = SegmentedIndex::new(4, Metric::L2, HnswParams::default(), 1_000);
    for (i, v) in vecs.iter().enumerate() {
        let m = meta(&[("v", MetaValue::Int(1))]);
        idx.insert_with_meta(&num, VectorId(i as u64), &bits(v), m)
            .unwrap();
    }
    idx.delete_shared(&num, VectorId(7)).unwrap();
    idx.insert_with_meta(
        &num,
        VectorId(7),
        &bits(&vecs[7]),
        meta(&[("v", MetaValue::Int(2))]),
    )
    .unwrap();
    let f_v2 = equals("v", MetaValue::Int(2));
    let res = idx.search_filtered(&num, &bits(&vecs[7]), 1, &f_v2);
    assert_eq!(res.len(), 1);
    assert_eq!(res[0].id, VectorId(7));
}

/// While a buffer is being sealed, it and the new buffer exist side by side.
/// Search, the duplicate check and deletion all look at both.
#[test]
fn sealing_window_covers_search_duplicate_and_delete() {
    let num = Floats::new();
    let vecs = random_vectors(6_000, 16, 42);
    let mut idx = SegmentedIndex::new(
        16,
        Metric::L2,
        HnswParams::default(),
        5_000,
    );
    for (i, v) in vecs.iter().take(5_000).enumerate() {
        idx.insert_shared(&num, VectorId(i as u64), &bits(v))
            .unwrap();
    }
    // The 5,000th insert triggered sealing; a build begins.
    let job = idx.next_sealing(&num).unwrap();
    assert_eq!(
        idx.sealing_count(),
        1,
        "the buffer being sealed is not visible"
    );
    let params = idx.hnsw_params;
    let built = build_segment(&num, &params, &job);

    // (a) SEARCH: the data being sealed must stay visible.
    let res = idx.search_shared(&num, &bits(&vecs[42]), 1);
    assert_eq!(
        res[0].id,
        VectorId(42),
        "data became invisible during the sealing window"
    );
    assert_eq!(
        idx.len_shared(&num),
        5_000,
        "records being sealed dropped out of the count"
    );

    // (b) DUPLICATE-ID: an id in the buffer being sealed cannot be inserted into
    // the new buffer.
    assert!(
        matches!(
            idx.insert_shared(&num, VectorId(42), &bits(&vecs[42])),
            Err(IndexError::DuplicateId(_))
        ),
        "an id from the buffer being sealed was re-inserted"
    );

    // (c) DELETE: a record being sealed must be deletable, and the deletion
    // must be carried into the segment once the build finishes.
    idx.delete_shared(&num, VectorId(100)).unwrap();
    assert_eq!(idx.len_shared(&num), 4_999);
    // writing to the new buffer goes on
    idx.insert_shared(&num, VectorId(9_000), &bits(&vecs[5_500]))
        .unwrap();

    assert!(idx.finish_seal(&num, job.tag, built));
    assert_eq!(idx.sealing_count(), 0, "the sealing list was not drained");
    let all: HashSet<u64> = idx
        .search_shared(&num, &bits(&vecs[100]), 6_000)
        .iter()
        .map(|r| r.id.0)
        .collect();
    assert!(
        !all.contains(&100),
        "a deletion made during sealing was lost"
    );
    assert!(
        all.contains(&9_000),
        "a record from the new buffer was lost"
    );
    assert_eq!(idx.len_shared(&num), 5_000); // 5000 - 1 deletion + 1 new
}

/// Searches before, during and after the build of a segment: no record
/// disappears at any instant.
#[test]
fn searches_never_lose_data_during_sealing() {
    let num = Floats::new();
    let vecs = random_vectors(4_000, 8, 7);
    let mut idx = SegmentedIndex::new(
        8,
        Metric::L2,
        HnswParams::default(),
        3_000,
    );
    for (i, v) in vecs.iter().take(3_000).enumerate() {
        idx.insert_shared(&num, VectorId(i as u64), &bits(v))
            .unwrap();
    }
    let probes = [3usize, 1_500, 2_999];
    let all_found = |idx: &SegmentedIndex| {
        probes.iter().all(|&p| {
            let r = idx.search_shared(&num, &bits(&vecs[p]), 1);
            r.len() == 1 && r[0].id == VectorId(p as u64)
        })
    };
    assert!(all_found(&idx));
    let job = idx.next_sealing(&num).unwrap();
    assert!(all_found(&idx));
    let params = idx.hnsw_params;
    let built = build_segment(&num, &params, &job);
    assert_eq!(idx.sealing_count(), 1);
    assert!(all_found(&idx));
    idx.finish_seal(&num, job.tag, built);
    assert_eq!(idx.sealing_count(), 0);
    assert!(all_found(&idx));
}

/// What is deleted from the sources while a merge is being built stays deleted:
/// the merge copies the records that lived when it began.
#[test]
fn merge_carries_tombstones_created_during_build() {
    let num = Floats::new();
    let vecs = random_vectors(3_000, 16, 42);
    let mut idx = SegmentedIndex::new(
        16,
        Metric::L2,
        HnswParams::default(),
        500,
    );
    idx.set_max_segments(&num, 4);
    for (i, v) in vecs.iter().enumerate() {
        idx.insert_shared(&num, VectorId(i as u64), &bits(v))
            .unwrap();
    }
    idx.wait_for_seal(&num);
    // 6 segments were sealed and the ceiling is 4: a merge begins
    let job = idx.next_merge(&num).unwrap();
    let mut deleted: Vec<VectorId> = Vec::new();
    for i in 0..400u64 {
        if idx.delete_shared(&num, VectorId(i)).is_ok() {
            deleted.push(VectorId(i));
        }
    }
    let params = idx.hnsw_params;
    let merged = build_merged(&num, &params, &job);
    for i in 400..450u64 {
        if idx.delete_shared(&num, VectorId(i)).is_ok() {
            deleted.push(VectorId(i));
        }
    }
    assert!(idx.finish_merge(&num, &job, merged));
    idx.wait_for_merge(&num);

    assert!(!deleted.is_empty(), "no deletion could be performed");
    // 1) NONE of the deleted ids may come back in a search.
    let all: HashSet<u64> = idx
        .search_shared(&num, &bits(&vecs[0]), 3_000)
        .iter()
        .map(|r| r.id.0)
        .collect();
    for id in &deleted {
        assert!(
            !all.contains(&id.0),
            "deleted {id:?} came back after the merge"
        );
    }
    // 2) len must be consistent.
    assert_eq!(
        idx.len_shared(&num),
        3_000 - deleted.len(),
        "the live count is inconsistent"
    );
    // 3) The non-deleted ones must still be findable.
    let survivor = (0..3_000u64)
        .map(VectorId)
        .find(|id| !deleted.contains(id))
        .expect("nothing survived");
    let res = idx.search_shared(&num, &bits(&vecs[survivor.0 as usize]), 1);
    assert_eq!(res[0].id, survivor, "a surviving record disappeared");
}

/// While a merge is being built, and after it has been put in place, each
/// record is found by its own vector.
#[test]
fn searches_stay_consistent_during_background_merge() {
    let num = Floats::new();
    let vecs = random_vectors(2_500, 8, 42);
    let mut idx = SegmentedIndex::new(8, Metric::L2, HnswParams::default(), 400);
    idx.set_max_segments(&num, 3);
    for (i, v) in vecs.iter().enumerate() {
        idx.insert_shared(&num, VectorId(i as u64), &bits(v))
            .unwrap();
    }
    idx.wait_for_seal(&num);
    let probe = |idx: &SegmentedIndex| {
        for p in [7usize, 500, 1200, 2400] {
            let r = idx.search_shared(&num, &bits(&vecs[p]), 1);
            assert_eq!(ids(&r), vec![VectorId(p as u64)]);
        }
    };
    let params = idx.hnsw_params;
    while let Some(job) = idx.next_merge(&num) {
        probe(&idx);
        let merged = build_merged(&num, &params, &job);
        probe(&idx);
        idx.finish_merge(&num, &job, merged);
        probe(&idx);
    }
    assert_eq!(idx.len_shared(&num), 2_500);
}

#[test]
fn merge_guard_enforces_ceiling() {
    let num = Floats::new();
    let vecs = random_vectors(1_200, 8, 42);
    let mut idx = SegmentedIndex::new(8, Metric::L2, HnswParams::default(), 100);
    idx.set_max_segments(&num, 4);
    for (i, v) in vecs.iter().enumerate() {
        idx.insert_shared(&num, VectorId(i as u64), &bits(v))
            .unwrap();
    }
    idx.wait_for_background(&num);
    let (n_seg, _) = idx.shape();
    assert!(
        n_seg <= 4,
        "the ceiling must hold once merging finishes: {n_seg}"
    );
    assert_eq!(idx.len_shared(&num), 1_200, "the merge lost records");
    // correctness: agreement with the exact reference
    let base = patterns(&vecs);
    let queries = random_vectors(20, 8, 43);
    let mut hits = 0;
    for q in &queries {
        let q = bits(q);
        let truth = ids(&exact_top_k(&num, &base, &q, 10, Metric::L2));
        hits += idx
            .search_shared(&num, &q, 10)
            .iter()
            .filter(|r| truth.contains(&r.id))
            .count();
    }
    assert!(
        hits as f64 / 200.0 >= 0.95,
        "recall after merge: {hits}/200"
    );
}

#[test]
fn merge_drops_tombstones_and_preserves_reinserts() {
    let num = Floats::new();
    let vecs = random_vectors(600, 4, 42);
    let mut idx = SegmentedIndex::new(4, Metric::L2, HnswParams::default(), 100);
    idx.set_max_segments(&num, 3);
    for (i, v) in vecs.iter().take(300).enumerate() {
        idx.insert_shared(&num, VectorId(i as u64), &bits(v))
            .unwrap();
    }
    idx.wait_for_background(&num);
    // delete records that landed in segments + re-insert one with a new vector
    idx.delete_shared(&num, VectorId(5)).unwrap();
    idx.delete_shared(&num, VectorId(50)).unwrap();
    idx.insert_shared(&num, VectorId(5), &bits(&[9.0; 4]))
        .unwrap();
    // insert enough to press against the ceiling: merges are triggered
    for (i, v) in vecs.iter().enumerate().skip(300) {
        idx.insert_shared(&num, VectorId(i as u64), &bits(v))
            .unwrap();
    }
    idx.wait_for_background(&num);
    let (n_seg, _) = idx.shape();
    assert!(n_seg <= 3);
    assert_eq!(idx.len_shared(&num), 599); // 600 - 1 permanent deletion

    // the deleted id does not come back; the re-inserted one returns with its
    // new vector
    let all = ids(&idx.search_shared(&num, &bits(&[9.0; 4]), 599));
    assert!(!all.contains(&VectorId(50)));
    assert_eq!(
        idx.search_shared(&num, &bits(&[9.0; 4]), 1)[0].id,
        VectorId(5)
    );
}

/// For queries with a range, the arm chosen must agree with the arm that the
/// true cardinality would select.
#[test]
fn range_planner_arm_matches_oracle() {
    let num = Floats::new();
    let vecs = random_vectors(2_000, 4, 42);
    let mut idx = SegmentedIndex::new(4, Metric::L2, HnswParams::default(), 500);
    let mut bf = BruteForceIndex::new(4, Metric::L2);
    for (i, v) in vecs.iter().enumerate() {
        let m = meta(&[("v", MetaValue::Int(i as i64))]);
        idx.insert_with_meta(&num, VectorId(i as u64), &bits(v), m)
            .unwrap();
        bf.insert(&num, VectorId(i as u64), &bits(v)).unwrap();
    }
    idx.wait_for_background(&num);
    let k = 10;
    let n = 2_000usize;
    let scan_limit = (idx.planner.scan_factor * k)
        .max((f64::from_bits(idx.planner.scan_fraction) * n as f64) as usize);
    for m in [1usize, 50, 160, 161, 300, 800, 1500] {
        let f = between("v", 0.0, (m - 1) as f64);
        let oracle = if m <= scan_limit { "scan" } else { "post" };
        assert_eq!(idx.debug_plan_arm(&num, &f, k), oracle, "m={m}");
        // and the results are correct against the exact reference
        let allow = |id: VectorId| (id.0 as usize) < m;
        let q = bits(&vecs[m / 2]);
        let truth = ids(&bf.search_filtered(&num, &q, k, &allow));
        let got = ids(&idx.search_filtered(&num, &q, k, &f));
        let hit = got.iter().filter(|id| truth.contains(id)).count();
        assert!(hit * 10 >= truth.len() * 9, "m={m}: {hit}/{}", truth.len());
    }
    // zero matches in the range: empty
    let f_empty = between("v", 1e9, 2e9);
    assert!(idx
        .search_filtered(&num, &bits(&vecs[0]), k, &f_empty)
        .is_empty());
    let (lo, hi) = idx.debug_range_estimate(&num, "v", 0f64.to_bits(), 99f64.to_bits());
    assert!(lo <= 100 && 100 <= hi);
}

/// Posting lists stay exactly consistent with the metadata.
#[test]
fn postings_consistent_after_insert_delete_reinsert() {
    let num = Floats::new();
    let vecs = random_vectors(200, 4, 42);
    let mut idx = SegmentedIndex::new(4, Metric::L2, HnswParams::default(), 80);
    for (i, v) in vecs.iter().enumerate() {
        let m = meta(&[("g", MetaValue::Int((i % 5) as i64))]);
        idx.insert_with_meta(&num, VectorId(i as u64), &bits(v), m)
            .unwrap();
    }
    for i in (0..200).step_by(3) {
        idx.delete_shared(&num, VectorId(i)).unwrap();
    }
    // a few re-insertions, with a different group
    for i in (0..30).step_by(3) {
        idx.insert_with_meta(
            &num,
            VectorId(i),
            &bits(&vecs[i as usize]),
            meta(&[("g", MetaValue::Int(99))]),
        )
        .unwrap();
    }
    // recount and compare
    let records = idx.catalog.metadata.iter();
    assert!(!idx.catalog.postings.is_empty());
    for posting in idx.catalog.postings.iter() {
        let recount: Vec<VectorId> = records
            .iter()
            .filter(|(_, m)| {
                m.get(&posting.field)
                    .is_some_and(|v| v.key() == posting.key)
            })
            .map(|(id, _)| *id)
            .collect();
        // the order is compared too: searching the list depends on it
        assert_eq!(
            posting.ids, recount,
            "posting list inconsistent: {}/{:?}",
            posting.field, posting.key
        );
    }
    // the estimate equals the true match count (exact for a single equality)
    let f = equals("g", MetaValue::Int(99));
    let cands = idx.catalog.estimate(&num, &f).unwrap();
    assert_eq!(cands.len(), 10);
}

/// Random insertions, deletions and searches with work done in between: results
/// obey the basic consistency rules at every point (no duplicate ids, no NaN,
/// never more than k, ascending distances).
#[test]
fn stress_concurrent_readers_single_writer() {
    let num = Floats::new();
    let dim = 16;
    let mut idx = SegmentedIndex::new(
        dim,
        Metric::L2,
        HnswParams {
            ef_construction: 40,
            ..HnswParams::default()
        },
        500,
    );
    let vecs = random_vectors(4_000, dim, 42);
    for (i, v) in vecs.iter().take(1_000).enumerate() {
        idx.insert_shared(&num, VectorId(i as u64), &bits(v))
            .unwrap();
    }
    let queries = random_vectors(50, dim, 43);
    for (i, v) in vecs.iter().enumerate().skip(1_000) {
        idx.insert_shared(&num, VectorId(i as u64), &bits(v))
            .unwrap();
        if i % 7 == 0 {
            // delete a previously inserted id; it may be gone already
            let _ = idx.delete_shared(&num, VectorId((i / 2) as u64));
        }
        if i % 300 == 0 {
            idx.build_one(&num);
        }
        if i % 40 == 0 {
            let res = idx.search_shared(&num, &bits(&queries[i % queries.len()]), 10);
            assert!(res.len() <= 10);
            let mut seen = HashSet::new();
            for r in &res {
                assert!(!distance_of(r).is_nan());
                assert!(seen.insert(r.id), "duplicate id in the results");
            }
            for w in res.windows(2) {
                assert!(distance_of(&w[0]) <= distance_of(&w[1]));
            }
        }
    }
    idx.wait_for_background(&num);
    let (n_seg, _) = idx.shape();
    assert!(n_seg >= 3, "sealing was never triggered: {n_seg}");
    let res = idx.search_shared(&num, &bits(&queries[0]), 10);
    assert_eq!(res.len(), 10);
}

/// An operation that could not be logged changes nothing.
#[test]
fn refused_log_leaves_the_index_alone() {
    let num = Floats::new();
    let mut idx = build(&num, &[vec![1.0, 2.0]], 10);
    let full = || Err("disk full".to_string());
    assert_eq!(
        idx.insert_logged(
            &num,
            VectorId(1),
            &bits(&[0.0, 0.0]),
            Metadata::new(),
            full()
        ),
        Err(IndexError::Storage("disk full".to_string()))
    );
    assert!(!idx.contains_live(&num, VectorId(1)));
    assert_eq!(
        idx.delete_logged(&num, VectorId(0), full()),
        Err(IndexError::Storage("disk full".to_string()))
    );
    assert!(idx.contains_live(&num, VectorId(0)));
    // a request that is refused anyway is refused for its own reason
    assert_eq!(
        idx.insert_logged(
            &num,
            VectorId(0),
            &bits(&[0.0, 0.0]),
            Metadata::new(),
            full()
        ),
        Err(IndexError::DuplicateId(VectorId(0)))
    );
    assert_eq!(
        idx.validate_insert(&num, VectorId(5), &bits(&[1.0])),
        Err(IndexError::DimensionMismatch {
            expected: 2,
            got: 1
        })
    );
    assert_eq!(
        idx.delete_logged(&num, VectorId(9), full()),
        Err(IndexError::NotFound(VectorId(9)))
    );
}

/// A filter that every record passes changes nothing.
#[test]
fn filter_that_everything_passes_is_left_out() {
    let num = Floats::new();
    let vecs = random_vectors(300, 4, 1);
    let mut idx = SegmentedIndex::new(4, Metric::L2, HnswParams::default(), 100);
    for (i, v) in vecs.iter().enumerate() {
        let m = meta(&[("all", MetaValue::Bool(true))]);
        idx.insert_with_meta(&num, VectorId(i as u64), &bits(v), m)
            .unwrap();
    }
    idx.wait_for_background(&num);
    let f = equals("all", MetaValue::Bool(true));
    for q in random_vectors(5, 4, 2) {
        let q = bits(&q);
        assert_eq!(
            idx.search_filtered(&num, &q, 7, &f),
            idx.search_shared(&num, &q, 7)
        );
        assert_eq!(
            idx.search_filtered(&num, &q, 7, &Filter::default()),
            idx.search_shared(&num, &q, 7)
        );
    }
}

#[test]
fn arms_are_chosen_by_cardinality() {
    let num = Floats::new();
    let vecs = random_vectors(1_000, 4, 1);
    let mut idx = SegmentedIndex::new(4, Metric::L2, HnswParams::default(), 10_000);
    for (i, v) in vecs.iter().enumerate() {
        let m = meta(&[
            ("half", MetaValue::Bool(i % 2 == 0)),
            ("rare", MetaValue::Int((i / 100) as i64)),
            ("name", MetaValue::Str(format!("n{i}"))),
        ]);
        idx.insert_with_meta(&num, VectorId(i as u64), &bits(v), m)
            .unwrap();
    }
    let arm = |f: &Filter| idx.debug_plan_arm(&num, f, 10);
    assert_eq!(arm(&equals("half", MetaValue::Bool(true))), "post");
    assert_eq!(arm(&equals("rare", MetaValue::Int(3))), "scan");
    assert_eq!(arm(&equals("rare", MetaValue::Int(77))), "empty");
    assert_eq!(arm(&between("rare", 0.0, 0.0)), "scan");
    assert_eq!(arm(&between("name", 0.0, 1.0)), "legacy");
    assert_eq!(arm(&between("rare", 5.0, 1.0)), "empty");
    let q = bits(&vecs[500]);
    assert!(idx
        .search_filtered(&num, &q, 10, &between("name", 0.0, 1.0))
        .is_empty());
    let res = idx.search_filtered(&num, &q, 10, &equals("rare", MetaValue::Float(5.0f64.to_bits())));
    assert_eq!(res[0].id, VectorId(500));
    assert!(res.iter().all(|r| r.id.0 / 100 == 5));
    // two conditions hold together
    let both = Filter {
        must: vec![
            Predicate::Eq {
                key: "half".to_string(),
                value: MetaValue::Bool(true),
            },
            Predicate::Range {
                key: "rare".to_string(),
                min: 5.0f64.to_bits(),
                max: 6.0f64.to_bits(),
            },
        ],
    };
    let res = idx.search_filtered(&num, &q, 10, &both);
    assert_eq!(res.len(), 10);
    assert!(res
        .iter()
        .all(|r| r.id.0 % 2 == 0 && (5..=6).contains(&(r.id.0 / 100))));
}

#[test]
fn limits_have_a_floor() {
    let num = Floats::new();
    let mut idx = SegmentedIndex::new(4, Metric::L2, HnswParams::default(), 10);
    idx.set_max_segments(&num, 0);
    assert_eq!(idx.max_segments, 2);
    idx.set_seal_threshold(&num, 0);
    assert_eq!(idx.seal_threshold(), 1);
    assert_eq!(idx.generation(), 0);
    assert_eq!(idx.last_checkpoint_unix(), 0);
}

#[test]
fn the_two_smallest_segments_are_merged() {
    let num = Floats::new();
    let vecs = random_vectors(12, 4, 3);
    let mut idx = SegmentedIndex::new(4, Metric::L2, HnswParams::default(), 1000);
    idx.set_max_segments(&num, 2);
    let mut next = 0;
    for size in [5, 3, 4] {
        for _ in 0..size {
            idx.insert_shared(&num, VectorId(next), &bits(&vecs[next as usize]))
                .unwrap();
            next += 1;
        }
        assert!(idx.next_merge(&num).is_none());
        idx.seal(&num);
        idx.wait_for_seal(&num);
    }
    let job = idx.next_merge(&num).unwrap();
    let mut sizes = [job.a.len(), job.b.len()];
    sizes.sort();
    assert_eq!(sizes, [3, 4]);
    // Deleted records do not count.
    for id in 0..4 {
        idx.delete_shared(&num, VectorId(id)).unwrap();
    }
    let job = idx.next_merge(&num).unwrap();
    let mut sizes = [job.a.len(), job.b.len()];
    sizes.sort();
    assert_eq!(sizes, [3, 5]);
    idx.wait_for_merge(&num);
    assert_eq!(idx.shape(), (2, 0));
    assert_eq!(idx.len_shared(&num), 8);
    assert!(idx.next_merge(&num).is_none());
}

#[test]
fn skewed_values_do_not_mislead_the_choice_of_arm() {
    // One outlier stretches the histogram, so that all the rest share a bucket.
    let num = Floats::new();
    let vecs = random_vectors(2000, 4, 5);
    let mut idx = SegmentedIndex::new(4, Metric::L2, HnswParams::default(), 10_000);
    for (i, v) in vecs.iter().enumerate() {
        let value = if i == 0 { 1e12 } else { i as f64 };
        let m = meta(&[("v", MetaValue::Float(value.to_bits()))]);
        idx.insert_with_meta(&num, VectorId(i as u64), &bits(v), m)
            .unwrap();
    }
    // 10 results: up to 160 matches are scanned.
    let (_, upper) = idx.debug_range_estimate(&num, "v", 1f64.to_bits(), 160f64.to_bits());
    assert!(upper > 1000);
    assert_eq!(idx.debug_plan_arm(&num, &between("v", 1.0, 160.0), 10), "scan");
    assert_eq!(idx.debug_plan_arm(&num, &between("v", 1.0, 161.0), 10), "post");
}

#[test]
fn a_writer_does_not_wait_without_end() {
    let num = Floats::new();
    let vecs = random_vectors(3, 4, 9);
    let mut idx = SegmentedIndex::new(4, Metric::L2, HnswParams::default(), 1000);
    for (i, v) in vecs.iter().enumerate() {
        assert!(!idx.keeps_stalling(0));
        idx.insert_shared(&num, VectorId(i as u64), &bits(v)).unwrap();
        idx.seal(&num);
    }
    assert_eq!(idx.sealing_count(), 3);
    assert!(idx.must_stall());
    assert!(idx.keeps_stalling(0));
    assert!(idx.keeps_stalling(60_000));
    assert!(!idx.keeps_stalling(60_001));
    idx.wait_for_seal(&num);
    assert!(!idx.keeps_stalling(0));
}

#[test]
fn vectors_survive_sealing_and_merging() {
    let num = Floats::new();
    let vecs = random_vectors(30, 6, 17);
    for metric in [Metric::L2, Metric::Dot, Metric::Cosine] {
        let mut idx = SegmentedIndex::new(6, metric, HnswParams::default(), 10);
        idx.set_max_segments(&num, 2);
        for (i, v) in vecs.iter().enumerate() {
            idx.insert_shared(&num, VectorId(i as u64), &bits(v)).unwrap();
        }
        idx.delete_shared(&num, VectorId(4)).unwrap();
        idx.wait_for_background(&num);
        assert_eq!(idx.shape(), (2, 0));
        for (i, v) in vecs.iter().enumerate() {
            let found = idx
                .segments
                .iter()
                .filter(|s| !s.tombstones.contains(&VectorId(i as u64)))
                .find_map(|s| s.index.vector_of(VectorId(i as u64)));
            if i == 4 {
                assert!(found.is_none());
                continue;
            }
            let once = num.normalized(&bits(v));
            let twice = num.normalized(&once);
            let thrice = num.normalized(&twice);
            match metric {
                Metric::Cosine => {
                    assert!(*found.unwrap() == twice || *found.unwrap() == thrice);
                }
                _ => assert_eq!(*found.unwrap(), bits(v)),
            }
        }
    }
}

#[test]
fn a_short_answer_leaves_out_no_match() {
    let num = Floats::new();
    let vecs = random_vectors(600, 6, 23);
    let mut idx = SegmentedIndex::new(6, Metric::L2, HnswParams::default(), 250);
    for (i, v) in vecs.iter().enumerate() {
        let m = meta(&[
            ("x", MetaValue::Bool(i < 200)),
            ("y", MetaValue::Bool((190..390).contains(&i))),
        ]);
        idx.insert_with_meta(&num, VectorId(i as u64), &bits(v), m)
            .unwrap();
    }
    let mut both = equals("x", MetaValue::Bool(true));
    both.must
        .extend(equals("y", MetaValue::Bool(true)).must);
    // 200 records meet each condition, and 10 meet both.
    assert_eq!(idx.debug_plan_arm(&num, &both, 12), "post");
    for q in random_vectors(5, 6, 24) {
        let res = idx.search_filtered(&num, &bits(&q), 12, &both);
        let mut got: Vec<u64> = res.iter().map(|r| r.id.0).collect();
        got.sort();
        assert_eq!(got, (190..200).collect::<Vec<u64>>());
    }
}

#[test]
fn deleted_records_crowd_out_no_others() {
    let num = Floats::new();
    let mut idx = SegmentedIndex::new(1, Metric::L2, HnswParams::default(), 8);
    for i in 0..8u64 {
        idx.insert_shared(&num, VectorId(i), &bits(&[i as f32])).unwrap();
    }
    // In the queue, and then in a segment: four of the eight are deleted.
    assert_eq!(idx.sealing_count(), 1);
    for i in 0..4 {
        idx.delete_shared(&num, VectorId(i)).unwrap();
    }
    for _ in 0..2 {
        let res = idx.search_shared(&num, &bits(&[0.0]), 1);
        assert_eq!(res.len(), 1);
        assert_eq!(res[0].id, VectorId(4));
        assert_eq!(distance_of(&res[0]), 16.0);
        let all = idx.search_shared(&num, &bits(&[0.0]), 100);
        assert_eq!(ids(&all), (4..8).map(VectorId).collect::<Vec<_>>());
        idx.wait_for_background(&num);
    }
    assert_eq!(idx.shape(), (1, 0));

    let mut idx = SegmentedIndex::new(1, Metric::L2, HnswParams::default(), 8);
    for i in 0..8u64 {
        idx.insert_shared(&num, VectorId(i), &bits(&[i as f32])).unwrap();
    }
    idx.wait_for_background(&num);
    for i in 0..4 {
        idx.delete_shared(&num, VectorId(i)).unwrap();
    }
    let res = idx.search_shared(&num, &bits(&[0.0]), 1);
    assert_eq!(ids(&res), vec![VectorId(4)]);
    assert_eq!(distance_of(&res[0]), 16.0);
}

#[test]
fn more_dead_than_the_search_is_wide() {
    let num = Floats::new();
    let params = HnswParams {
        ef_search: 10,
        ..HnswParams::default()
    };
    let mut idx = SegmentedIndex::new(1, Metric::L2, params, 300);
    for i in 0..300u64 {
        idx.insert_shared(&num, VectorId(i), &bits(&[i as f32])).unwrap();
    }
    idx.wait_for_background(&num);
    for i in 0..250 {
        idx.delete_shared(&num, VectorId(i)).unwrap();
    }
    let res = idx.search_shared(&num, &bits(&[0.0]), 5);
    assert_eq!(ids(&res), (250..255).map(VectorId).collect::<Vec<_>>());
}

#[test]
fn a_search_may_ask_for_more_than_can_be_counted() {
    let num = Floats::new();
    let mut idx = SegmentedIndex::new(1, Metric::L2, HnswParams::default(), 4);
    for i in 0..10u64 {
        idx.insert_shared(&num, VectorId(i), &bits(&[i as f32])).unwrap();
    }
    idx.delete_shared(&num, VectorId(0)).unwrap();
    idx.wait_for_background(&num);
    let res = idx.search_shared(&num, &bits(&[0.0]), usize::MAX);
    assert_eq!(ids(&res), (1..10).map(VectorId).collect::<Vec<_>>());
}

#[test]
fn the_time_of_the_last_checkpoint_stays() {
    let num = Floats::new();
    let mut idx = SegmentedIndex::new(2, Metric::L2, HnswParams::default(), 4);
    assert_eq!(idx.last_checkpoint_unix(), 0);
    idx.checkpoint_finished(&num, 77);
    for i in 0..10u64 {
        idx.insert_shared(&num, VectorId(i), &bits(&[i as f32, 1.0])).unwrap();
    }
    idx.delete_shared(&num, VectorId(2)).unwrap();
    idx.set_max_segments(&num, 2);
    idx.wait_for_background(&num);
    assert_eq!(idx.last_checkpoint_unix(), 77);
}

#[test]
fn a_filter_for_what_is_no_number_is_passed_by_no_record() {
    let num = Floats::new();
    let vecs = random_vectors(20, 4, 5);
    let mut idx = SegmentedIndex::new(4, Metric::L2, HnswParams::default(), 10);
    for (i, v) in vecs.iter().enumerate() {
        let m = meta(&[
            ("nan", MetaValue::Float(f64::NAN.to_bits())),
            ("one", MetaValue::Float(1.0f64.to_bits())),
            ("wide", MetaValue::Int(i64::MAX)),
        ]);
        idx.insert_with_meta(&num, VectorId(i as u64), &bits(v), m)
            .unwrap();
    }
    idx.wait_for_background(&num);
    let q = bits(&vecs[3]);
    let nan = equals("nan", MetaValue::Float(f64::NAN.to_bits()));
    assert!(!nan.must[0].asks_for_a_value());
    assert!(idx.search_filtered(&num, &q, 5, &nan).is_empty());
    let one = equals("one", MetaValue::Int(1));
    assert!(one.must[0].asks_for_a_value());
    assert!(!between("one", 0.0, 2.0).must[0].asks_for_a_value());
    assert_eq!(
        ids(&idx.search_filtered(&num, &q, 5, &one)),
        ids(&idx.search_shared(&num, &q, 5))
    );
    let wide = equals("wide", MetaValue::Int(i64::MAX));
    assert_eq!(
        ids(&idx.search_filtered(&num, &q, 5, &wide)),
        ids(&idx.search_shared(&num, &q, 5))
    );
}

#[test]
fn a_deleted_record_stays_away_through_the_work_behind() {
    let num = Floats::new();
    let vecs = random_vectors(60, 4, 11);
    let mut idx = SegmentedIndex::new(4, Metric::L2, HnswParams::default(), 10);
    idx.set_max_segments(&num, 2);
    for (i, v) in vecs.iter().take(30).enumerate() {
        idx.insert_shared(&num, VectorId(i as u64), &bits(v)).unwrap();
    }
    let id = VectorId(7);
    idx.delete_shared(&num, id).unwrap();
    assert_eq!(idx.len_shared(&num), 29);
    let away = |idx: &SegmentedIndex| {
        assert!(!idx.contains_live(&num, id));
        let hits = idx.search_shared(&num, &bits(&vecs[7]), 40);
        assert!(hits.iter().all(|r| r.id != id));
    };
    away(&idx);
    while idx.build_one(&num) {
        away(&idx);
    }
    for (i, v) in vecs.iter().enumerate().skip(30) {
        idx.insert_shared(&num, VectorId(i as u64), &bits(v)).unwrap();
        away(&idx);
    }
    while idx.build_one(&num) {}
    while idx.merge_smallest_pair(&num) {
        away(&idx);
    }
    assert_eq!(
        idx.delete_shared(&num, id),
        Err(IndexError::NotFound(id))
    );
    idx.insert_shared(&num, id, &bits(&[9.0; 4])).unwrap();
    let hit = idx.search_shared(&num, &bits(&[9.0; 4]), 1);
    assert_eq!(hit[0].id, id);
    assert_eq!(distance_of(&hit[0]), 0.0);
    assert_eq!(idx.len_shared(&num), 60);
}
