use gvector::error::IndexError;
use gvector::eval::exact_top_k;
use gvector::hnsw::{HnswIndex, HnswParams};
use gvector::segmented::SegmentedIndex;
use gvector::quant::{QuantizedHnsw, Quantizer};
use gvector::distance::{distance_bits, distance_key, Metric};
use gvector::numerics::Numerics;
use gvector::types::{SearchResult, VectorId};
use rand::rngs::StdRng;
use rand::{Rng, SeedableRng};
use std::cell::RefCell;
use std::collections::HashMap;

/// Floating-point arithmetic for the indexes.
struct Floats {
    levels: RefCell<HashMap<(u64, usize), (StdRng, Vec<usize>)>>,
}

impl Floats {
    fn new() -> Self {
        Floats {
            levels: RefCell::new(HashMap::new()),
        }
    }
}

fn bits(v: &[f32]) -> Vec<u32> {
    v.iter().map(|x| x.to_bits()).collect()
}

fn floats(v: &[u32]) -> Vec<f32> {
    v.iter().map(|x| f32::from_bits(*x)).collect()
}

fn dot(a: &[f32], b: &[f32]) -> f32 {
    a.iter().zip(b).map(|(x, y)| x * y).sum()
}

fn normalized(v: &[f32]) -> Vec<f32> {
    let norm = dot(v, v).sqrt();
    if norm > 0.0 {
        v.iter().map(|x| x / norm).collect()
    } else {
        v.to_vec()
    }
}

impl Numerics for Floats {
    fn distance(&self, metric: Metric, a: &[u32], b: &[u32]) -> u32 {
        let pairs = a
            .iter()
            .zip(b)
            .map(|(x, y)| (f32::from_bits(*x), f32::from_bits(*y)));
        let d: f32 = match metric {
            Metric::L2 => pairs.map(|(x, y)| (x - y) * (x - y)).sum(),
            Metric::Dot | Metric::Cosine => -pairs.map(|(x, y)| x * y).sum::<f32>(),
        };
        distance_key(d.to_bits())
    }

    fn normalized(&self, v: &[u32]) -> Vec<u32> {
        bits(&normalized(&floats(v)))
    }

    fn level(&self, seed: u64, m: usize, draw: u64) -> usize {
        let mut memo = self.levels.borrow_mut();
        let (rng, drawn) = memo
            .entry((seed, m))
            .or_insert_with(|| (StdRng::seed_from_u64(seed), Vec::new()));
        while drawn.len() as u64 <= draw {
            let ml = 1.0 / (m.max(2) as f64).ln();
            let u: f64 = rng.gen_range(f64::MIN_POSITIVE..1.0);
            drawn.push((-u.ln() * ml).floor() as usize);
        }
        drawn[draw as usize]
    }

    fn worn_out(&self, threshold: u64, deleted: usize, total: usize) -> bool {
        deleted as f64 / total as f64 >= f64::from_bits(threshold)
    }

    fn bucket(&self, lo: u64, hi: u64, v: u64) -> usize {
        let (lo, hi, v) = (f64::from_bits(lo), f64::from_bits(hi), f64::from_bits(v));
        if hi <= lo {
            return 0;
        }
        (((v - lo) / (hi - lo) * 64.0) as usize).min(63)
    }

    fn widened(&self, lo: u64, hi: u64, v: u64) -> (u64, u64) {
        let (lo, hi, v) = (f64::from_bits(lo), f64::from_bits(hi), f64::from_bits(v));
        let span = (hi - lo).max(v.abs().max(1.0) * 0.01);
        (
            lo.min(v - span * 0.125).to_bits(),
            hi.max(v + span * 0.125).to_bits(),
        )
    }

    fn share(&self, fraction: u64, n: usize) -> usize {
        (f64::from_bits(fraction) * n as f64) as usize
    }

    fn overfetch(&self, beta: u64, k: usize, upper: usize, n: usize) -> usize {
        let selectivity = upper as f64 / n as f64;
        (f64::from_bits(beta) * k as f64 / selectivity) as usize
    }
}

fn random_vectors(n: usize, dim: usize, seed: u64) -> Vec<Vec<f32>> {
    let mut rng = StdRng::seed_from_u64(seed);
    (0..n)
        .map(|_| (0..dim).map(|_| rng.gen_range(-1.0..1.0)).collect())
        .collect()
}

fn distance_of(r: &SearchResult) -> f32 {
    f32::from_bits(distance_bits(r.distance))
}

/// Eight bits per dimension, between the smallest and the largest value.
struct Scalar {
    mins: Vec<f32>,
    scales: Vec<f32>,
}

impl Scalar {
    fn fit(idx: &HnswIndex) -> Scalar {
        let dim = idx.dim;
        let mut mins = vec![f32::INFINITY; dim];
        let mut maxs = vec![f32::NEG_INFINITY; dim];
        for v in &idx.vectors {
            for (d, x) in floats(v).iter().enumerate() {
                mins[d] = mins[d].min(*x);
                maxs[d] = maxs[d].max(*x);
            }
        }
        if idx.vectors.is_empty() {
            mins.fill(0.0);
            maxs.fill(0.0);
        }
        let scales = mins
            .iter()
            .zip(&maxs)
            .map(|(lo, hi)| (hi - lo) / 255.0)
            .collect();
        Scalar { mins, scales }
    }
}

impl Quantizer for Scalar {
    fn encode(&self, v: &[u32]) -> Vec<u8> {
        floats(v)
            .iter()
            .zip(self.mins.iter().zip(&self.scales))
            .map(|(x, (lo, s))| {
                if *s == 0.0 {
                    0
                } else {
                    ((x - lo) / s).round().clamp(0.0, 255.0) as u8
                }
            })
            .collect()
    }

    fn dist(&self, metric: Metric, query: &[u32], code: &[u8]) -> u32 {
        let v: Vec<f32> = code
            .iter()
            .zip(self.mins.iter().zip(&self.scales))
            .map(|(c, (lo, s))| lo + s * *c as f32)
            .collect();
        let q = floats(query);
        let d = match metric {
            Metric::L2 => q.iter().zip(&v).map(|(x, y)| (x - y) * (x - y)).sum(),
            Metric::Dot | Metric::Cosine => -dot(&q, &v),
        };
        distance_key(d.to_bits())
    }
}

fn build(num: &Floats, vecs: &[Vec<f32>], params: HnswParams) -> HnswIndex {
    let mut idx = HnswIndex::new(vecs[0].len(), Metric::L2, params);
    for (i, v) in vecs.iter().enumerate() {
        idx.insert(num, VectorId(i as u64), &bits(v)).unwrap();
    }
    idx
}

#[test]
fn empty_and_single_and_k_over_len() {
    let num = Floats::new();
    let none = HnswIndex::new(4, Metric::L2, HnswParams::default());
    let quant = Scalar::fit(&none);
    let empty = QuantizedHnsw::from_hnsw(&none, &quant);
    assert!(empty.search(&num, &quant, &bits(&[0.0; 4]), 5).is_empty());
    assert!(empty.is_empty());

    let mut one = HnswIndex::new(2, Metric::L2, HnswParams::default());
    one.insert(&num, VectorId(0), &bits(&[1.0, 2.0])).unwrap();
    let quant = Scalar::fit(&one);
    let q = QuantizedHnsw::from_hnsw(&one, &quant);
    assert_eq!(q.search(&num, &quant, &bits(&[0.0, 0.0]), 10).len(), 1);
    assert_eq!(q.len(), 1);
}

#[test]
fn quant_zero_vector_cosine_no_nan() {
    let num = Floats::new();
    let mut idx = HnswIndex::new(3, Metric::Cosine, HnswParams::default());
    idx.insert(&num, VectorId(0), &bits(&[0.0; 3])).unwrap();
    idx.insert(&num, VectorId(1), &bits(&[1.0, 0.0, 0.0]))
        .unwrap();
    let quant = Scalar::fit(&idx);
    let q = QuantizedHnsw::from_hnsw(&idx, &quant);
    let res = q.search(&num, &quant, &bits(&[1.0, 0.0, 0.0]), 2);
    assert!(res.iter().all(|r| !distance_of(r).is_nan()));
    assert_eq!(res[0].id, VectorId(1));
}

#[test]
fn tombstones_carried_over() {
    let num = Floats::new();
    let vecs = random_vectors(200, 8, 42);
    let mut idx = build(
        &num,
        &vecs,
        HnswParams {
            tombstone_threshold: 2.0f64.to_bits(),
            ..HnswParams::default()
        },
    );
    idx.delete(&num, VectorId(3)).unwrap();
    let quant = Scalar::fit(&idx);
    let q = QuantizedHnsw::from_hnsw(&idx, &quant);
    assert_eq!(q.len(), 199);
    let res = q.search(&num, &quant, &bits(&vecs[3]), 10);
    assert!(res.iter().all(|r| r.id != VectorId(3)));
}

#[test]
fn quantized_recall_close_to_f32() {
    let num = Floats::new();
    let vecs = random_vectors(2_000, 16, 42);
    let queries = random_vectors(50, 16, 43);
    let idx = build(&num, &vecs, HnswParams::default());
    let scalar = Scalar::fit(&idx);
    let quant = QuantizedHnsw::from_hnsw(&idx, &scalar);
    let base: Vec<Vec<u32>> = vecs.iter().map(|v| bits(v)).collect();
    let mut f32_hits = 0usize;
    let mut q_hits = 0usize;
    for q in &queries {
        let q = bits(q);
        let truth: Vec<_> = exact_top_k(&num, &base, &q, 10, Metric::L2)
            .iter()
            .map(|r| r.id)
            .collect();
        f32_hits += idx
            .search_with_ef(&num, &q, 10, 100)
            .iter()
            .filter(|r| truth.contains(&r.id))
            .count();
        q_hits += quant
            .search_with_ef(&num, &scalar, &q, 10, 100)
            .iter()
            .filter(|r| truth.contains(&r.id))
            .count();
    }
    let f32_recall = f32_hits as f64 / 500.0;
    let q_recall = q_hits as f64 / 500.0;
    assert!(
        f32_recall - q_recall < 0.02,
        "quantization costs too much recall: {f32_recall} -> {q_recall}"
    );
}

#[test]
fn a_frozen_copy_takes_no_writes() {
    let num = Floats::new();
    let idx = build(&num, &[vec![1.0, 2.0]], HnswParams::default());
    let quant = Scalar::fit(&idx);
    let mut q = QuantizedHnsw::from_hnsw(&idx, &quant);
    assert!(matches!(
        q.insert(VectorId(5), &bits(&[0.0, 0.0])),
        Err(IndexError::Unsupported(_))
    ));
    assert!(matches!(
        q.delete(VectorId(0)),
        Err(IndexError::Unsupported(_))
    ));
    assert_eq!(q.len(), 1);
}

#[test]
fn every_segment_has_a_frozen_copy() {
    let num = Floats::new();
    let vecs = random_vectors(30, 8, 11);
    let mut idx = SegmentedIndex::new(8, Metric::L2, HnswParams::default(), 10);
    for (i, v) in vecs.iter().enumerate() {
        idx.insert_shared(&num, VectorId(i as u64), &bits(v)).unwrap();
    }
    idx.wait_for_seal(&num);
    let quants: Vec<Scalar> = idx.segments.iter().map(|s| Scalar::fit(&s.index)).collect();
    let copies = idx.quantize_segments(&num, &quants);
    assert_eq!(copies.len(), 3);
    for ((copy, quant), (s, v)) in copies
        .iter()
        .zip(&quants)
        .zip([(0u64, &vecs[0]), (10, &vecs[10]), (20, &vecs[20])])
    {
        assert_eq!(copy.len(), 10);
        let found = copy.search(&num, quant, &bits(v), 1);
        assert_eq!(found[0].id, VectorId(s));
        assert!(distance_of(&found[0]) < 0.01);
    }
}
