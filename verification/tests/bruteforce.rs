use gvector::bruteforce::BruteForceIndex;
use gvector::error::IndexError;
use gvector::eval::exact_top_k;
use gvector::rank::merge_smallest;
use gvector::distance::{distance_bits, distance_key, Metric};
use gvector::numerics::Numerics;
use gvector::types::{SearchResult, VectorId};
use rand::rngs::StdRng;
use rand::{Rng, SeedableRng};
use std::cell::RefCell;
use std::collections::HashMap;

/// Floating-point arithmetic for the indexes.
struct Floats {
    levels: RefCell<HashMap<(u64, usize), (StdRng, Vec<usize>)>>,
}

impl Floats {
    fn new() -> Self {
        Floats {
            levels: RefCell::new(HashMap::new()),
        }
    }
}

fn bits(v: &[f32]) -> Vec<u32> {
    v.iter().map(|x| x.to_bits()).collect()
}

fn floats(v: &[u32]) -> Vec<f32> {
    v.iter().map(|x| f32::from_bits(*x)).collect()
}

fn dot(a: &[f32], b: &[f32]) -> f32 {
    a.iter().zip(b).map(|(x, y)| x * y).sum()
}

fn normalized(v: &[f32]) -> Vec<f32> {
    let norm = dot(v, v).sqrt();
    if norm > 0.0 {
        v.iter().map(|x| x / norm).collect()
    } else {
        v.to_vec()
    }
}

impl Numerics for Floats {
    fn distance(&self, metric: Metric, a: &[u32], b: &[u32]) -> u32 {
        let pairs = a
            .iter()
            .zip(b)
            .map(|(x, y)| (f32::from_bits(*x), f32::from_bits(*y)));
        let d: f32 = match metric {
            Metric::L2 => pairs.map(|(x, y)| (x - y) * (x - y)).sum(),
            Metric::Dot | Metric::Cosine => -pairs.map(|(x, y)| x * y).sum::<f32>(),
        };
        distance_key(d.to_bits())
    }

    fn normalized(&self, v: &[u32]) -> Vec<u32> {
        bits(&normalized(&floats(v)))
    }

    fn level(&self, seed: u64, m: usize, draw: u64) -> usize {
        let mut memo = self.levels.borrow_mut();
        let (rng, drawn) = memo
            .entry((seed, m))
            .or_insert_with(|| (StdRng::seed_from_u64(seed), Vec::new()));
        while drawn.len() as u64 <= draw {
            let ml = 1.0 / (m.max(2) as f64).ln();
            let u: f64 = rng.gen_range(f64::MIN_POSITIVE..1.0);
            drawn.push((-u.ln() * ml).floor() as usize);
        }
        drawn[draw as usize]
    }

    fn worn_out(&self, threshold: u64, deleted: usize, total: usize) -> bool {
        deleted as f64 / total as f64 >= f64::from_bits(threshold)
    }

    fn bucket(&self, lo: u64, hi: u64, v: u64) -> usize {
        let (lo, hi, v) = (f64::from_bits(lo), f64::from_bits(hi), f64::from_bits(v));
        if hi <= lo {
            return 0;
        }
        (((v - lo) / (hi - lo) * 64.0) as usize).min(63)
    }

    fn widened(&self, lo: u64, hi: u64, v: u64) -> (u64, u64) {
        let (lo, hi, v) = (f64::from_bits(lo), f64::from_bits(hi), f64::from_bits(v));
        let span = (hi - lo).max(v.abs().max(1.0) * 0.01);
        (
            lo.min(v - span * 0.125).to_bits(),
            hi.max(v + span * 0.125).to_bits(),
        )
    }

    fn share(&self, fraction: u64, n: usize) -> usize {
        (f64::from_bits(fraction) * n as f64) as usize
    }

    fn overfetch(&self, beta: u64, k: usize, upper: usize, n: usize) -> usize {
        let selectivity = upper as f64 / n as f64;
        (f64::from_bits(beta) * k as f64 / selectivity) as usize
    }
}

fn random_vectors(n: usize, dim: usize, seed: u64) -> Vec<Vec<f32>> {
    let mut rng = StdRng::seed_from_u64(seed);
    (0..n)
        .map(|_| (0..dim).map(|_| rng.gen_range(-1.0..1.0)).collect())
        .collect()
}

fn distance_of(r: &SearchResult) -> f32 {
    f32::from_bits(distance_bits(r.distance))
}

fn build(num: &Floats, vecs: &[Vec<f32>], metric: Metric) -> BruteForceIndex {
    let mut idx = BruteForceIndex::new(vecs[0].len(), metric);
    for (i, v) in vecs.iter().enumerate() {
        idx.insert(num, VectorId(i as u64), &bits(v)).unwrap();
    }
    idx
}

fn ids(rs: &[SearchResult]) -> Vec<VectorId> {
    rs.iter().map(|r| r.id).collect()
}

#[test]
fn bruteforce_empty_index_returns_empty() {
    let num = Floats::new();
    let idx = BruteForceIndex::new(4, Metric::L2);
    assert!(idx.is_empty());
    assert!(idx.search(&num, &bits(&[0.0; 4]), 5).is_empty());
}

#[test]
fn bruteforce_k_zero_returns_empty() {
    let num = Floats::new();
    let idx = build(&num, &random_vectors(10, 4, 42), Metric::L2);
    assert!(idx.search(&num, &bits(&[0.0; 4]), 0).is_empty());
}

#[test]
fn bruteforce_k_larger_than_len_returns_all() {
    let num = Floats::new();
    let idx = build(&num, &random_vectors(3, 4, 42), Metric::L2);
    assert_eq!(idx.search(&num, &bits(&[0.0; 4]), 10).len(), 3);
}

#[test]
fn bruteforce_single_element() {
    let num = Floats::new();
    let idx = build(&num, &[vec![1.0, 2.0]], Metric::L2);
    let res = idx.search(&num, &bits(&[0.0, 0.0]), 1);
    assert_eq!(res.len(), 1);
    assert_eq!(res[0].id, VectorId(0));
    assert_eq!(distance_of(&res[0]), 5.0);
}

#[test]
fn bruteforce_duplicate_vectors_distinct_ids_both_found() {
    let num = Floats::new();
    let idx = build(
        &num,
        &[vec![1.0, 1.0], vec![1.0, 1.0], vec![5.0, 5.0]],
        Metric::L2,
    );
    let ids = ids(&idx.search(&num, &bits(&[1.0, 1.0]), 2));
    assert!(ids.contains(&VectorId(0)) && ids.contains(&VectorId(1)));
}

#[test]
fn bruteforce_duplicate_id_rejected() {
    let num = Floats::new();
    let mut idx = BruteForceIndex::new(2, Metric::L2);
    idx.insert(&num, VectorId(7), &bits(&[1.0, 2.0])).unwrap();
    assert_eq!(
        idx.insert(&num, VectorId(7), &bits(&[3.0, 4.0])),
        Err(IndexError::DuplicateId(VectorId(7)))
    );
}

#[test]
fn dimension_mismatch_rejected() {
    let num = Floats::new();
    let mut idx = BruteForceIndex::new(3, Metric::L2);
    assert!(matches!(
        idx.insert(&num, VectorId(0), &bits(&[1.0, 2.0])),
        Err(IndexError::DimensionMismatch {
            expected: 3,
            got: 2
        })
    ));
}

#[test]
fn bruteforce_zero_vector_cosine_no_nan() {
    let num = Floats::new();
    let mut idx = BruteForceIndex::new(3, Metric::Cosine);
    idx.insert(&num, VectorId(0), &bits(&[0.0, 0.0, 0.0]))
        .unwrap();
    idx.insert(&num, VectorId(1), &bits(&[1.0, 0.0, 0.0]))
        .unwrap();
    let res = idx.search(&num, &bits(&[1.0, 0.0, 0.0]), 2);
    assert_eq!(res.len(), 2);
    assert!(res.iter().all(|r| !distance_of(r).is_nan()));
    assert_eq!(res[0].id, VectorId(1)); // the true match, ahead of the zero vector
}

#[test]
fn delete_then_search_and_reuse_id() {
    let num = Floats::new();
    let mut idx = build(&num, &random_vectors(10, 4, 42), Metric::L2);
    idx.delete(VectorId(3)).unwrap();
    assert_eq!(idx.len(), 9);
    assert!(idx
        .search(&num, &bits(&[0.0; 4]), 10)
        .iter()
        .all(|r| r.id != VectorId(3)));
    assert_eq!(
        idx.delete(VectorId(3)),
        Err(IndexError::NotFound(VectorId(3)))
    );
    // a deleted id can be inserted again
    idx.insert(&num, VectorId(3), &bits(&[9.0, 9.0, 9.0, 9.0]))
        .unwrap();
    assert_eq!(idx.len(), 10);
}

/// The main correctness test: results identical to the reference scan.
#[test]
fn matches_reference_exact_scan_all_metrics() {
    let num = Floats::new();
    let vecs = random_vectors(500, 16, 42);
    let queries = random_vectors(20, 16, 43);
    for metric in [Metric::L2, Metric::Dot, Metric::Cosine] {
        let idx = build(&num, &vecs, metric);
        // apply the cosine contract by hand on the reference side
        let prepare = |v: &Vec<f32>| {
            if metric.requires_normalization() {
                bits(&normalized(v))
            } else {
                bits(v)
            }
        };
        let base: Vec<Vec<u32>> = vecs.iter().map(prepare).collect();
        for q in &queries {
            let expected = exact_top_k(&num, &base, &prepare(q), 10, metric);
            let got = idx.search(&num, &bits(q), 10);
            assert_eq!(ids(&got), ids(&expected), "metric={metric:?}");
        }
    }
}

/// A large scan, and one that is split among workers, give the same result as
/// the reference scan.
#[test]
fn parallel_path_matches_serial() {
    let num = Floats::new();
    let n = 20_000 + 5_000;
    let vecs = random_vectors(n, 8, 42);
    let idx = build(&num, &vecs, Metric::L2);
    let base: Vec<Vec<u32>> = vecs.iter().map(|v| bits(v)).collect();
    for q in random_vectors(5, 8, 43) {
        let q = bits(&q);
        let expected = exact_top_k(&num, &base, &q, 10, Metric::L2);
        let got = idx.search(&num, &q, 10);
        assert_eq!(ids(&got), ids(&expected));
        let mut split = Vec::new();
        for lo in (0..n).step_by(7_000) {
            let part = idx.scan_range(&num, &q, 10, lo, (lo + 7_000).min(n));
            split = merge_smallest(split, &part, 10);
        }
        assert_eq!(ids(&split), ids(&expected));
    }
}

#[test]
fn filtered_search_gives_the_nearest_that_pass() {
    let num = Floats::new();
    let vecs: Vec<Vec<f32>> = (0..20).map(|i| vec![i as f32]).collect();
    let idx = build(&num, &vecs, Metric::L2);
    let even = |id: VectorId| id.0 % 2 == 0;
    let res = idx.search_filtered(&num, &bits(&[6.6]), 3, &even);
    assert_eq!(ids(&res), vec![VectorId(6), VectorId(8), VectorId(4)]);
    assert!(idx.search_filtered(&num, &bits(&[6.6]), 0, &even).is_empty());
}

#[test]
fn vectors_can_be_looked_up() {
    let num = Floats::new();
    let mut idx = build(&num, &[vec![1.0], vec![2.0], vec![3.0]], Metric::L2);
    idx.delete(VectorId(0)).unwrap();
    assert!(!idx.contains(VectorId(0)));
    assert!(idx.vector_of(VectorId(0)).is_none());
    assert_eq!(idx.vector_of(VectorId(2)).unwrap(), &bits(&[3.0]));
    // the last slot took the place of the one that went
    let entries: Vec<VectorId> = idx.entries().iter().map(|e| e.0).collect();
    assert_eq!(entries, vec![VectorId(2), VectorId(1)]);
}

#[test]
fn equal_distances_are_ordered_by_id() {
    let num = Floats::new();
    let idx = build(&num, &vec![vec![1.0]; 6], Metric::Dot);
    let res = idx.search(&num, &bits(&[2.0]), 4);
    assert_eq!(
        ids(&res),
        vec![VectorId(0), VectorId(1), VectorId(2), VectorId(3)]
    );
    assert_eq!(distance_of(&res[0]), -2.0);
}
