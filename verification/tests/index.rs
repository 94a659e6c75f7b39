use gvector::bruteforce::BruteForceIndex;
use gvector::error::IndexError;
use gvector::hnsw::{HnswIndex, HnswParams};
use gvector::index::VectorIndex;
use gvector::segmented::SegmentedIndex;
use gvector::distance::{distance_bits, distance_key, Metric};
use gvector::numerics::Numerics;
use gvector::types::{SearchResult, VectorId};
use rand::rngs::StdRng;
use rand::{Rng, SeedableRng};
use std::cell::RefCell;
use std::collections::HashMap;
/// Floating-point arithmetic for the indexes.
struct Floats {
    levels: RefCell<HashMap<(u64, usize), (StdRng, Vec<usize>)>>,
}

impl Floats {
    fn new() -> Self {
        Floats {
            levels: RefCell::new(HashMap::new()),
        }
    }
}

fn bits(v: &[f32]) -> Vec<u32> {
    v.iter().map(|x| x.to_bits()).collect()
}

fn floats(v: &[u32]) -> Vec<f32> {
    v.iter().map(|x| f32::from_bits(*x)).collect()
}

fn dot(a: &[f32], b: &[f32]) -> f32 {
    a.iter().zip(b).map(|(x, y)| x * y).sum()
}

fn normalized(v: &[f32]) -> Vec<f32> {
    let norm = dot(v, v).sqrt();
    if norm > 0.0 {
        v.iter().map(|x| x / norm).collect()
    } else {
        v.to_vec()
    }
}

impl Numerics for Floats {
    fn distance(&self, metric: Metric, a: &[u32], b: &[u32]) -> u32 {
        let pairs = a
            .iter()
            .zip(b)
            .map(|(x, y)| (f32::from_bits(*x), f32::from_bits(*y)));
        let d: f32 = match metric {
            Metric::L2 => pairs.map(|(x, y)| (x - y) * (x - y)).sum(),
            Metric::Dot | Metric::Cosine => -pairs.map(|(x, y)| x * y).sum::<f32>(),
        };
        distance_key(d.to_bits())
    }

    fn normalized(&self, v: &[u32]) -> Vec<u32> {
        bits(&normalized(&floats(v)))
    }

    fn level(&self, seed: u64, m: usize, draw: u64) -> usize {
        let mut memo = self.levels.borrow_mut();
        let (rng, drawn) = memo
            .entry((seed, m))
            .or_insert_with(|| (StdRng::seed_from_u64(seed), Vec::new()));
        while drawn.len() as u64 <= draw {
            let ml = 1.0 / (m.max(2) as f64).ln();
            let u: f64 = rng.gen_range(f64::MIN_POSITIVE..1.0);
            drawn.push((-u.ln() * ml).floor() as usize);
        }
        drawn[draw as usize]
    }

    fn worn_out(&self, threshold: u64, deleted: usize, total: usize) -> bool {
        deleted as f64 / total as f64 >= f64::from_bits(threshold)
    }

    fn bucket(&self, lo: u64, hi: u64, v: u64) -> usize {
        let (lo, hi, v) = (f64::from_bits(lo), f64::from_bits(hi), f64::from_bits(v));
        if hi <= lo {
            return 0;
        }
        (((v - lo) / (hi - lo) * 64.0) as usize).min(63)
    }

    fn widened(&self, lo: u64, hi: u64, v: u64) -> (u64, u64) {
        let (lo, hi, v) = (f64::from_bits(lo), f64::from_bits(hi), f64::from_bits(v));
        let span = (hi - lo).max(v.abs().max(1.0) * 0.01);
        (
            lo.min(v - span * 0.125).to_bits(),
            hi.max(v + span * 0.125).to_bits(),
        )
    }

    fn share(&self, fraction: u64, n: usize) -> usize {
        (f64::from_bits(fraction) * n as f64) as usize
    }

    fn overfetch(&self, beta: u64, k: usize, upper: usize, n: usize) -> usize {
        let selectivity = upper as f64 / n as f64;
        (f64::from_bits(beta) * k as f64 / selectivity) as usize
    }
}

fn random_vectors(n: usize, dim: usize, seed: u64) -> Vec<Vec<f32>> {
    let mut rng = StdRng::seed_from_u64(seed);
    (0..n)
        .map(|_| (0..dim).map(|_| rng.gen_range(-1.0..1.0)).collect())
        .collect()
}

fn distance_of(r: &SearchResult) -> f32 {
    f32::from_bits(distance_bits(r.distance))
}

/// The same operations on any index.
fn exercise<I: VectorIndex>(mut index: I) {
    let num = Floats::new();
    let vecs = random_vectors(40, 4, 21);
    assert!(index.is_empty(&num));
    for (i, v) in vecs.iter().enumerate() {
        index.insert(&num, VectorId(i as u64), &bits(v)).unwrap();
    }
    assert_eq!(index.len(&num), 40);
    assert_eq!(
        index.insert(&num, VectorId(5), &bits(&vecs[5])),
        Err(IndexError::DuplicateId(VectorId(5)))
    );
    assert_eq!(
        index.insert(&num, VectorId(99), &bits(&vecs[5][..3])),
        Err(IndexError::DimensionMismatch {
            expected: 4,
            got: 3
        })
    );
    let out = index.search(&num, &bits(&vecs[7]), 5);
    assert_eq!(out.len(), 5);
    assert_eq!(out[0].id, VectorId(7));
    assert_eq!(distance_of(&out[0]), 0.0);
    assert!(out.windows(2).all(|w| w[0].distance <= w[1].distance));
    assert!(out.windows(2).all(|w| w[0] < w[1]));
    index.delete(&num, VectorId(7)).unwrap();
    assert_eq!(
        index.delete(&num, VectorId(7)),
        Err(IndexError::NotFound(VectorId(7)))
    );
    assert_eq!(index.len(&num), 39);
    let out = index.search(&num, &bits(&vecs[7]), 40);
    assert!(out.iter().all(|r| r.id != VectorId(7)));
    assert!(!index.is_empty(&num));
}

#[test]
fn a_scan_is_an_index() {
    exercise(BruteForceIndex::new(4, Metric::L2));
}

#[test]
fn a_graph_is_an_index() {
    exercise(HnswIndex::new(4, Metric::L2, HnswParams::default()));
}

#[test]
fn a_segmented_index_is_an_index() {
    exercise(SegmentedIndex::new(
        4,
        Metric::L2,
        HnswParams::default(),
        16,
    ));
}

#[test]
fn results_are_ordered_by_distance_and_then_by_id() {
    let mut all = vec![
        SearchResult::new(VectorId(1), distance_key(2f32.to_bits())),
        SearchResult::new(VectorId(9), distance_key((-1f32).to_bits())),
        SearchResult::new(VectorId(3), distance_key(0f32.to_bits())),
        SearchResult::new(VectorId(2), distance_key(0f32.to_bits())),
    ];
    all.sort();
    let ids: Vec<u64> = all.iter().map(|r| r.id.0).collect();
    assert_eq!(ids, [9, 2, 3, 1]);
}

#[test]
fn an_index_stores_the_vector_that_it_is_given() {
    let num = Floats::new();
    let mut scan = BruteForceIndex::new(2, Metric::L2);
    let mut graph = HnswIndex::new(2, Metric::L2, HnswParams::default());
    let mut segmented = SegmentedIndex::new(2, Metric::L2, HnswParams::default(), 2);
    stores(&num, &mut scan);
    stores(&num, &mut graph);
    stores(&num, &mut segmented);
}

fn stores<I: VectorIndex>(num: &Floats, idx: &mut I) {
    for i in 0..5u64 {
        idx.insert(num, VectorId(i), &bits(&[i as f32, 2.0])).unwrap();
        assert_eq!(idx.len(num), i as usize + 1);
    }
    for i in 0..5u64 {
        let res = idx.search(num, &bits(&[i as f32, 2.0]), 1);
        assert_eq!(res[0].id, VectorId(i));
        assert_eq!(f32::from_bits(distance_bits(res[0].distance)), 0.0);
    }
    idx.delete(num, VectorId(2)).unwrap();
    assert_eq!(idx.len(num), 4);
    let res = idx.search(num, &bits(&[3.0, 2.0]), usize::MAX);
    assert_eq!(res.len(), 4);
    assert_eq!(f32::from_bits(distance_bits(res[0].distance)), 0.0);
}
