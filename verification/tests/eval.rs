use gvector::eval::{by_distance, exact_top_k, ground_truth, recall_score, spread_ids};
use gvector::distance::{distance_bits, distance_key, Metric};
use gvector::numerics::Numerics;
use gvector::types::{SearchResult, VectorId};
use rand::rngs::StdRng;
use rand::{Rng, SeedableRng};
use std::cell::RefCell;
use std::collections::HashMap;

/// Floating-point arithmetic for the indexes.
struct Floats {
    levels: RefCell<HashMap<(u64, usize), (StdRng, Vec<usize>)>>,
}

impl Floats {
    fn new() -> Self {
        Floats {
            levels: RefCell::new(HashMap::new()),
        }
    }
}

fn bits(v: &[f32]) -> Vec<u32> {
    v.iter().map(|x| x.to_bits()).collect()
}

fn floats(v: &[u32]) -> Vec<f32> {
    v.iter().map(|x| f32::from_bits(*x)).collect()
}

fn dot(a: &[f32], b: &[f32]) -> f32 {
    a.iter().zip(b).map(|(x, y)| x * y).sum()
}

fn normalized(v: &[f32]) -> Vec<f32> {
    let norm = dot(v, v).sqrt();
    if norm > 0.0 {
        v.iter().map(|x| x / norm).collect()
    } else {
        v.to_vec()
    }
}

impl Numerics for Floats {
    fn distance(&self, metric: Metric, a: &[u32], b: &[u32]) -> u32 {
        let pairs = a
            .iter()
            .zip(b)
            .map(|(x, y)| (f32::from_bits(*x), f32::from_bits(*y)));
        let d: f32 = match metric {
            Metric::L2 => pairs.map(|(x, y)| (x - y) * (x - y)).sum(),
            Metric::Dot | Metric::Cosine => -pairs.map(|(x, y)| x * y).sum::<f32>(),
        };
        distance_key(d.to_bits())
    }

    fn normalized(&self, v: &[u32]) -> Vec<u32> {
        bits(&normalized(&floats(v)))
    }

    fn level(&self, seed: u64, m: usize, draw: u64) -> usize {
        let mut memo = self.levels.borrow_mut();
        let (rng, drawn) = memo
            .entry((seed, m))
            .or_insert_with(|| (StdRng::seed_from_u64(seed), Vec::new()));
        while drawn.len() as u64 <= draw {
            let ml = 1.0 / (m.max(2) as f64).ln();
            let u: f64 = rng.gen_range(f64::MIN_POSITIVE..1.0);
            drawn.push((-u.ln() * ml).floor() as usize);
        }
        drawn[draw as usize]
    }

    fn worn_out(&self, threshold: u64, deleted: usize, total: usize) -> bool {
        deleted as f64 / total as f64 >= f64::from_bits(threshold)
    }

    fn bucket(&self, lo: u64, hi: u64, v: u64) -> usize {
        let (lo, hi, v) = (f64::from_bits(lo), f64::from_bits(hi), f64::from_bits(v));
        if hi <= lo {
            return 0;
        }
        (((v - lo) / (hi - lo) * 64.0) as usize).min(63)
    }

    fn widened(&self, lo: u64, hi: u64, v: u64) -> (u64, u64) {
        let (lo, hi, v) = (f64::from_bits(lo), f64::from_bits(hi), f64::from_bits(v));
        let span = (hi - lo).max(v.abs().max(1.0) * 0.01);
        (
            lo.min(v - span * 0.125).to_bits(),
            hi.max(v + span * 0.125).to_bits(),
        )
    }

    fn share(&self, fraction: u64, n: usize) -> usize {
        (f64::from_bits(fraction) * n as f64) as usize
    }

    fn overfetch(&self, beta: u64, k: usize, upper: usize, n: usize) -> usize {
        let selectivity = upper as f64 / n as f64;
        (f64::from_bits(beta) * k as f64 / selectivity) as usize
    }
}

fn random_vectors(n: usize, dim: usize, seed: u64) -> Vec<Vec<f32>> {
    let mut rng = StdRng::seed_from_u64(seed);
    (0..n)
        .map(|_| (0..dim).map(|_| rng.gen_range(-1.0..1.0)).collect())
        .collect()
}

fn distance_of(r: &SearchResult) -> f32 {
    f32::from_bits(distance_bits(r.distance))
}

fn patterns(vs: &[Vec<f32>]) -> Vec<Vec<u32>> {
    vs.iter().map(|v| bits(v)).collect()
}

fn recall_at_k(results: &[Vec<VectorId>], truth: &[Vec<VectorId>], k: usize) -> f64 {
    let total: f64 = results
        .iter()
        .zip(truth)
        .map(|(found, wanted)| {
            let (hits, of) = recall_score(found, wanted, k);
            hits as f64 / of as f64
        })
        .sum();
    total / results.len() as f64
}

#[test]
fn exact_top_k_orders_by_distance() {
    let base = patterns(&[vec![0.0, 10.0], vec![0.0, 1.0], vec![0.0, 5.0]]);
    let res = exact_top_k(&Floats::new(), &base, &bits(&[0.0, 0.0]), 2, Metric::L2);
    assert_eq!(res.len(), 2);
    assert_eq!(res[0].id, VectorId(1));
    assert_eq!(res[1].id, VectorId(2));
    assert!(distance_of(&res[0]) <= distance_of(&res[1]));
    assert_eq!(distance_of(&res[1]), 25.0);
}

#[test]
fn exact_top_k_k_larger_than_base() {
    let base = patterns(&[vec![1.0], vec![2.0]]);
    let res = exact_top_k(&Floats::new(), &base, &bits(&[0.0]), 10, Metric::L2);
    assert_eq!(res.len(), 2);
}

#[test]
fn exact_top_k_empty_base() {
    let res = exact_top_k(&Floats::new(), &vec![], &bits(&[0.0]), 5, Metric::L2);
    assert!(res.is_empty());
}

#[test]
fn exact_top_k_single_element() {
    let base = patterns(&[vec![3.0]]);
    let res = exact_top_k(&Floats::new(), &base, &bits(&[0.0]), 1, Metric::L2);
    assert_eq!(res.len(), 1);
    assert_eq!(res[0].id, VectorId(0));
}

#[test]
fn exact_top_k_duplicate_vectors_both_returned() {
    let base = patterns(&[vec![1.0, 1.0], vec![1.0, 1.0], vec![9.0, 9.0]]);
    let res = exact_top_k(&Floats::new(), &base, &bits(&[1.0, 1.0]), 2, Metric::L2);
    let ids: Vec<_> = res.iter().map(|r| r.id).collect();
    assert!(ids.contains(&VectorId(0)) && ids.contains(&VectorId(1)));
}

#[test]
fn recall_perfect_and_partial() {
    let truth = vec![vec![VectorId(1), VectorId(2), VectorId(3)]];
    assert_eq!(
        recall_at_k(&[vec![VectorId(1), VectorId(2), VectorId(3)]], &truth, 3),
        1.0
    );
    let r = recall_at_k(&[vec![VectorId(1), VectorId(9), VectorId(8)]], &truth, 3);
    assert!((r - 1.0 / 3.0).abs() < 1e-9);
}

#[test]
fn recall_small_index_not_penalized() {
    // with 2 elements in the index and k=10 requested, if both are correct
    // the recall is 1.0
    let truth = vec![vec![VectorId(0), VectorId(1)]];
    let res = vec![vec![VectorId(0), VectorId(1)]];
    assert_eq!(recall_at_k(&res, &truth, 10), 1.0);
}

#[test]
fn score_counts_only_the_first_k() {
    let ids = |v: &[u64]| v.iter().map(|i| VectorId(*i)).collect::<Vec<_>>();
    assert_eq!(recall_score(&ids(&[1, 2, 3]), &ids(&[3, 2, 1]), 2), (1, 2));
    assert_eq!(recall_score(&ids(&[7, 8]), &ids(&[1, 2]), 2), (0, 2));
    // with nothing to find, any answer is right
    assert_eq!(recall_score(&ids(&[7]), &ids(&[]), 5), (1, 1));
    assert_eq!(recall_score(&ids(&[]), &ids(&[1, 2]), 0), (1, 1));
}

#[test]
fn ground_truth_answers_every_query() {
    let base = patterns(&[vec![0.0], vec![10.0], vec![4.0]]);
    let queries = patterns(&[vec![9.0], vec![1.0]]);
    let truth = ground_truth(&Floats::new(), &base, &queries, 2, Metric::L2);
    assert_eq!(
        truth,
        vec![
            vec![VectorId(1), VectorId(2)],
            vec![VectorId(0), VectorId(2)]
        ]
    );
}

#[test]
fn spread_ids_are_even() {
    assert_eq!(spread_ids(10, 3), vec![0, 3, 6]);
    assert_eq!(spread_ids(5, 5), vec![0, 1, 2, 3, 4]);
    assert_eq!(spread_ids(7, 1), vec![0]);
}

#[test]
fn vectors_are_ordered_by_distance() {
    let vs = patterns(&[vec![5.0], vec![-1.0], vec![2.0], vec![-1.0]]);
    assert_eq!(
        by_distance(&Floats::new(), &vs, &bits(&[0.0]), Metric::L2),
        vec![VectorId(1), VectorId(3), VectorId(2), VectorId(0)]
    );
}
