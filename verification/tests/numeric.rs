use gvector::numeric::NumericFieldIndex;
use gvector::distance::{distance_bits, distance_key, Metric};
use gvector::numerics::Numerics;
use gvector::types::{SearchResult, VectorId};
use rand::rngs::StdRng;
use rand::{Rng, SeedableRng};
use std::cell::RefCell;
use std::collections::HashMap;

/// Floating-point arithmetic for the indexes.
struct Floats {
    levels: RefCell<HashMap<(u64, usize), (StdRng, Vec<usize>)>>,
}

impl Floats {
    fn new() -> Self {
        Floats {
            levels: RefCell::new(HashMap::new()),
        }
    }
}

fn bits(v: &[f32]) -> Vec<u32> {
    v.iter().map(|x| x.to_bits()).collect()
}

fn floats(v: &[u32]) -> Vec<f32> {
    v.iter().map(|x| f32::from_bits(*x)).collect()
}

fn dot(a: &[f32], b: &[f32]) -> f32 {
    a.iter().zip(b).map(|(x, y)| x * y).sum()
}

fn normalized(v: &[f32]) -> Vec<f32> {
    let norm = dot(v, v).sqrt();
    if norm > 0.0 {
        v.iter().map(|x| x / norm).collect()
    } else {
        v.to_vec()
    }
}

impl Numerics for Floats {
    fn distance(&self, metric: Metric, a: &[u32], b: &[u32]) -> u32 {
        let pairs = a
            .iter()
            .zip(b)
            .map(|(x, y)| (f32::from_bits(*x), f32::from_bits(*y)));
        let d: f32 = match metric {
            Metric::L2 => pairs.map(|(x, y)| (x - y) * (x - y)).sum(),
            Metric::Dot | Metric::Cosine => -pairs.map(|(x, y)| x * y).sum::<f32>(),
        };
        distance_key(d.to_bits())
    }

    fn normalized(&self, v: &[u32]) -> Vec<u32> {
        bits(&normalized(&floats(v)))
    }

    fn level(&self, seed: u64, m: usize, draw: u64) -> usize {
        let mut memo = self.levels.borrow_mut();
        let (rng, drawn) = memo
            .entry((seed, m))
            .or_insert_with(|| (StdRng::seed_from_u64(seed), Vec::new()));
        while drawn.len() as u64 <= draw {
            let ml = 1.0 / (m.max(2) as f64).ln();
            let u: f64 = rng.gen_range(f64::MIN_POSITIVE..1.0);
            drawn.push((-u.ln() * ml).floor() as usize);
        }
        drawn[draw as usize]
    }

    fn worn_out(&self, threshold: u64, deleted: usize, total: usize) -> bool {
        deleted as f64 / total as f64 >= f64::from_bits(threshold)
    }

    fn bucket(&self, lo: u64, hi: u64, v: u64) -> usize {
        let (lo, hi, v) = (f64::from_bits(lo), f64::from_bits(hi), f64::from_bits(v));
        if hi <= lo {
            return 0;
        }
        (((v - lo) / (hi - lo) * 64.0) as usize).min(63)
    }

    fn widened(&self, lo: u64, hi: u64, v: u64) -> (u64, u64) {
        let (lo, hi, v) = (f64::from_bits(lo), f64::from_bits(hi), f64::from_bits(v));
        let span = (hi - lo).max(v.abs().max(1.0) * 0.01);
        (
            lo.min(v - span * 0.125).to_bits(),
            hi.max(v + span * 0.125).to_bits(),
        )
    }

    fn share(&self, fraction: u64, n: usize) -> usize {
        (f64::from_bits(fraction) * n as f64) as usize
    }

    fn overfetch(&self, beta: u64, k: usize, upper: usize, n: usize) -> usize {
        let selectivity = upper as f64 / n as f64;
        (f64::from_bits(beta) * k as f64 / selectivity) as usize
    }
}

fn random_vectors(n: usize, dim: usize, seed: u64) -> Vec<Vec<f32>> {
    let mut rng = StdRng::seed_from_u64(seed);
    (0..n)
        .map(|_| (0..dim).map(|_| rng.gen_range(-1.0..1.0)).collect())
        .collect()
}

fn distance_of(r: &SearchResult) -> f32 {
    f32::from_bits(distance_bits(r.distance))
}

fn range(idx: &NumericFieldIndex, num: &Floats, lo: f64, hi: f64) -> (usize, usize) {
    idx.estimate(num, lo.to_bits(), hi.to_bits())
}

fn filled(num: &Floats, n: u64) -> NumericFieldIndex {
    let mut idx = NumericFieldIndex::new(num);
    for i in 0..n {
        idx.insert(num, (i as f64).to_bits(), VectorId(i));
    }
    idx
}

#[test]
fn estimate_brackets_truth() {
    let num = Floats::new();
    let idx = filled(&num, 1_000);
    for (lo, hi) in [(0.0, 99.0), (250.0, 749.0), (990.0, 2000.0), (-50.0, 10.0)] {
        let truth = (0..1_000)
            .filter(|&i| (i as f64) >= lo && (i as f64) <= hi)
            .count();
        let (l, u) = range(&idx, &num, lo, hi);
        assert!(
            l <= truth && truth <= u,
            "[{lo},{hi}]: {l} <= {truth} <= {u} does not hold"
        );
    }
}

#[test]
fn enumerate_exact_and_limited() {
    let num = Floats::new();
    let mut idx = NumericFieldIndex::new(&num);
    for i in 0..100 {
        idx.insert(&num, ((i % 10) as f64).to_bits(), VectorId(i)); // repeated values
    }
    let ids = idx
        .enumerate_up_to(2.0f64.to_bits(), 3.0f64.to_bits(), 100)
        .unwrap();
    assert_eq!(ids.len(), 20);
    assert!(idx
        .enumerate_up_to(0.0f64.to_bits(), 9.0f64.to_bits(), 50)
        .is_none()); // 100 > 50
    assert_eq!(
        idx.enumerate_all(0.0f64.to_bits(), 9.0f64.to_bits()).len(),
        100
    );
}

#[test]
fn remove_keeps_hist_consistent() {
    let num = Floats::new();
    let mut idx = filled(&num, 500);
    for i in (0..500).step_by(3) {
        idx.remove(&num, (i as f64).to_bits(), VectorId(i));
    }
    let truth = (0..500).filter(|i| i % 3 != 0).count();
    assert_eq!(idx.len(), truth);
    let (l, u) = range(&idx, &num, f64::NEG_INFINITY, f64::INFINITY);
    assert!(l <= truth && truth <= u);
    // the histogram sum must stay equal to total
    let hist_sum: usize = idx.hist.iter().sum();
    assert_eq!(hist_sum, truth);
}

#[test]
fn monotonic_inserts_amortized_widening() {
    // Thanks to the widening margin a monotone stream must not blow up
    // (behavioural test: correctness only — the histogram sum is preserved).
    let num = Floats::new();
    let idx = filled(&num, 10_000);
    let hist_sum: usize = idx.hist.iter().sum();
    assert_eq!(hist_sum, 10_000);
    let (l, u) = range(&idx, &num, 1000.0, 1999.0);
    assert!(l <= 1000 && 1000 <= u);
}

#[test]
fn values_are_found_in_order() {
    let num = Floats::new();
    let mut idx = NumericFieldIndex::new(&num);
    assert!(idx.is_empty());
    for (v, id) in [(2.5, 1), (-1.0, 2), (2.5, 3), (0.0, 4), (-0.0, 5)] {
        idx.insert(&num, f64::to_bits(v), VectorId(id));
    }
    let all = idx.enumerate_all(f64::NEG_INFINITY.to_bits(), f64::INFINITY.to_bits());
    assert_eq!(
        all,
        vec![
            VectorId(2),
            VectorId(5),
            VectorId(4),
            VectorId(1),
            VectorId(3)
        ]
    );
    // both zeros lie between zero and zero
    let zeros = idx.enumerate_all(0.0f64.to_bits(), 0.0f64.to_bits());
    assert_eq!(zeros, vec![VectorId(5), VectorId(4)]);
    // removing what is not there changes nothing
    idx.remove(&num, 9.0f64.to_bits(), VectorId(1));
    idx.remove(&num, 2.5f64.to_bits(), VectorId(9));
    assert_eq!(idx.len(), 5);
    idx.remove(&num, 2.5f64.to_bits(), VectorId(1));
    assert_eq!(
        idx.enumerate_all(2.0f64.to_bits(), 3.0f64.to_bits()),
        vec![VectorId(3)]
    );
}

#[test]
fn empty_range_holds_nothing() {
    let num = Floats::new();
    let idx = filled(&num, 50);
    assert!(idx
        .enumerate_all(30.0f64.to_bits(), 20.0f64.to_bits())
        .is_empty());
    assert_eq!(
        idx.enumerate_up_to(30.0f64.to_bits(), 20.0f64.to_bits(), 0),
        Some(vec![])
    );
    assert_eq!(range(&idx, &num, 30.0, 20.0), (0, 0));
}

#[test]
fn the_estimate_of_everything_is_everything() {
    let num = Floats::new();
    let idx = filled(&num, 500);
    assert_eq!(range(&idx, &num, f64::NEG_INFINITY, f64::INFINITY).1, 500);
    assert_eq!(range(&idx, &num, 0.0, 499.0).1, 500);
    for (lo, hi) in [(3.0, 4.0), (0.0, 250.0), (499.0, 1e9), (-5.0, -1.0)] {
        let (lower, upper) = range(&idx, &num, lo, hi);
        assert!(lower <= upper && upper <= 500);
    }
}

#[test]
fn the_cost_counts_values_ids_and_buckets() {
    let num = Floats::new();
    let mut idx = NumericFieldIndex::new(&num);
    assert_eq!(idx.memory_bytes(), 64 * 8);
    idx.insert(&num, 1.5f64.to_bits(), VectorId(1));
    idx.insert(&num, 1.5f64.to_bits(), VectorId(2));
    let header = std::mem::size_of::<Vec<VectorId>>();
    assert_eq!(idx.memory_bytes(), 48 + header + 2 * 8 + 64 * 8);
}

#[test]
fn estimates_hold_after_any_writes() {
    let num = Floats::new();
    let mut idx = NumericFieldIndex::new(&num);
    let mut pairs: Vec<(f64, VectorId)> = Vec::new();
    let mut rng = StdRng::seed_from_u64(8);
    for step in 0..300 {
        if !pairs.is_empty() && rng.gen_range(0..3) == 0 {
            let (v, id) = pairs.swap_remove(rng.gen_range(0..pairs.len()));
            idx.remove(&num, v.to_bits(), id);
        } else {
            let v = rng.gen_range(-50.0..50.0f64).round();
            let id = VectorId(rng.gen_range(0..20));
            idx.insert(&num, v.to_bits(), id);
            pairs.push((v, id));
        }
        let lo: f64 = rng.gen_range(-60.0..40.0);
        let hi: f64 = lo + rng.gen_range(0.0..30.0);
        let truth = pairs.iter().filter(|p| lo <= p.0 && p.0 <= hi).count();
        let (lower, upper) = idx.estimate(&num, lo.to_bits(), hi.to_bits());
        assert!(lower <= truth && truth <= upper, "step {step}");
        assert!(upper <= pairs.len());
        let all = idx.estimate(
            &num,
            f64::NEG_INFINITY.to_bits(),
            f64::INFINITY.to_bits(),
        );
        assert_eq!(all.1, pairs.len());
    }
}
