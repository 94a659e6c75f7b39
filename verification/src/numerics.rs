//! The operations on real numbers that the indexes call for.
//!
//! Vectors are sequences of `f32` bit patterns and numbers are `f64` bit
//! patterns. What has to be computed in floating point is supplied by the
//! program through [`Numerics`]; the indexes ask only that each operation be a
//! function of its arguments.

use vstd::prelude::*;
use crate::distance::Metric;

verus! {

/// Floating-point arithmetic, supplied from outside.
pub trait Numerics {
    /// The key (see [`crate::distance::distance_key`]) of the distance between
    /// two vectors.
    fn distance(&self, metric: Metric, a: &[u32], b: &[u32]) -> u32;

    /// The vector scaled to unit norm; a zero vector stays as it is.
    fn normalized(&self, v: &[u32]) -> Vec<u32>;

    /// The `draw`-th level that a generator seeded with `seed` assigns in a
    /// graph with `m` links per node.
    fn level(&self, seed: u64, m: usize, draw: u64) -> usize;

    /// Has the share of deleted nodes reached the threshold?
    fn worn_out(&self, threshold: u64, deleted: usize, total: usize) -> bool;

    /// The histogram bucket of `v` between the bounds `lo` and `hi`.
    fn bucket(&self, lo: u64, hi: u64, v: u64) -> usize;

    /// The bounds widened so that `v` falls between them.
    fn widened(&self, lo: u64, hi: u64, v: u64) -> (u64, u64);

    /// The given fraction of `n` records, rounded down.
    fn share(&self, fraction: u64, n: usize) -> usize;

    /// How many results to fetch for `k` that pass a filter matched by
    /// `upper` of `n` records: `beta` times `k`, divided by the selectivity.
    fn overfetch(&self, beta: u64, k: usize, upper: usize, n: usize) -> usize;
}

/// What the operations compute, as mathematical functions.
pub ghost struct Model {
    pub distance: spec_fn(Metric, Seq<u32>, Seq<u32>) -> u32,
    pub normalized: spec_fn(Seq<u32>) -> Seq<u32>,
    pub level: spec_fn(u64, usize, u64) -> usize,
    pub worn_out: spec_fn(u64, usize, usize) -> bool,
    pub bucket: spec_fn(u64, u64, u64) -> usize,
    pub widened: spec_fn(u64, u64, u64) -> (u64, u64),
    pub share: spec_fn(u64, usize) -> usize,
    pub overfetch: spec_fn(u64, usize, usize, usize) -> usize,
}

impl Model {
    /// Normalization keeps the dimension, a level leaves room for its
    /// successor, and there are 64 buckets.
    pub open spec fn sane(self) -> bool {
        &&& forall|v: Seq<u32>| (#[trigger] (self.normalized)(v)).len() == v.len()
        &&& forall|s: u64, m: usize, i: u64| #[trigger] (self.level)(s, m, i) < usize::MAX
        &&& forall|lo: u64, hi: u64, v: u64| #[trigger] (self.bucket)(lo, hi, v) < 64
    }
}

/// Every operation computes what the model says.
#[verifier::opaque]
pub open spec fn follows<N: Numerics>(num: &N, g: Model) -> bool {
    &&& g.sane()
    &&& forall|m: Metric, a: &[u32], b: &[u32], d: u32| #[trigger]
        call_ensures(N::distance, (num, m, a, b), d) ==> d == (g.distance)(m, a@, b@)
    &&& forall|v: &[u32], w: Vec<u32>| #[trigger]
        call_ensures(N::normalized, (num, v), w) ==> w@ == (g.normalized)(v@)
    &&& forall|s: u64, m: usize, i: u64, l: usize| #[trigger]
        call_ensures(N::level, (num, s, m, i), l) ==> l == (g.level)(s, m, i)
    &&& forall|t: u64, d: usize, n: usize, r: bool| #[trigger]
        call_ensures(N::worn_out, (num, t, d, n), r) ==> r == (g.worn_out)(t, d, n)
    &&& forall|lo: u64, hi: u64, v: u64, b: usize| #[trigger]
        call_ensures(N::bucket, (num, lo, hi, v), b) ==> b == (g.bucket)(lo, hi, v)
    &&& forall|lo: u64, hi: u64, v: u64, w: (u64, u64)| #[trigger]
        call_ensures(N::widened, (num, lo, hi, v), w) ==> w == (g.widened)(lo, hi, v)
    &&& forall|f: u64, n: usize, s: usize| #[trigger]
        call_ensures(N::share, (num, f, n), s) ==> s == (g.share)(f, n)
    &&& forall|b: u64, k: usize, u: usize, n: usize, e: usize| #[trigger]
        call_ensures(N::overfetch, (num, b, k, u, n), e) ==> e == (g.overfetch)(b, k, u, n)
}

/// The operations are functions of their arguments.
pub open spec fn functional<N: Numerics>(num: &N) -> bool {
    exists|g: Model| follows(num, g)
}

/// The functions that the operations compute.
pub open spec fn model<N: Numerics>(num: &N) -> Model {
    choose|g: Model| follows(num, g)
}

pub proof fn lemma_model_sane<N: Numerics>(num: &N)
    requires
        functional(num),
    ensures
        model(num).sane(),
{
    reveal(follows);
}

/// The vector that is stored and compared under a metric: cosine works on
/// normalized vectors, the other metrics on vectors as they are.
pub open spec fn prepared(g: Model, metric: Metric, v: Seq<u32>) -> Seq<u32> {
    if metric == Metric::Cosine {
        (g.normalized)(v)
    } else {
        v
    }
}

pub fn distance<N: Numerics>(num: &N, metric: Metric, a: &[u32], b: &[u32]) -> (d: u32)
    requires
        functional(num),
    ensures
        d == (model(num).distance)(metric, a@, b@),
{
    proof {
        reveal(follows);
    }
    num.distance(metric, a, b)
}

/// The vector that an index with this metric works on: normalized once under
/// cosine, a copy otherwise.
pub fn prepare<N: Numerics>(num: &N, metric: Metric, v: &[u32]) -> (w: Vec<u32>)
    requires
        functional(num),
    ensures
        w@ == prepared(model(num), metric, v@),
        w@.len() == v@.len(),
{
    if metric.requires_normalization() {
        proof {
            reveal(follows);
        }
        num.normalized(v)
    } else {
        let mut w: Vec<u32> = Vec::with_capacity(v.len());
        let mut i: usize = 0;
        while i < v.len()
            invariant
                i <= v.len(),
                w@ == v@.take(i as int),
            decreases v.len() - i,
        {
            w.push(v[i]);
            i = i + 1;
            assert(v@.take(i as int) =~= v@.take(i - 1).push(v@[i - 1]));
        }
        assert(v@.take(i as int) =~= v@);
        w
    }
}

pub fn level<N: Numerics>(num: &N, seed: u64, m: usize, draw: u64) -> (l: usize)
    requires
        functional(num),
    ensures
        l == (model(num).level)(seed, m, draw),
        l < usize::MAX,
{
    proof {
        reveal(follows);
    }
    num.level(seed, m, draw)
}

pub fn worn_out<N: Numerics>(num: &N, threshold: u64, deleted: usize, total: usize) -> (r: bool)
    requires
        functional(num),
    ensures
        r == (model(num).worn_out)(threshold, deleted, total),
{
    proof {
        reveal(follows);
    }
    num.worn_out(threshold, deleted, total)
}

pub fn bucket<N: Numerics>(num: &N, lo: u64, hi: u64, v: u64) -> (b: usize)
    requires
        functional(num),
    ensures
        b == (model(num).bucket)(lo, hi, v),
        b < 64,
{
    proof {
        reveal(follows);
    }
    num.bucket(lo, hi, v)
}

pub fn widened<N: Numerics>(num: &N, lo: u64, hi: u64, v: u64) -> (w: (u64, u64))
    requires
        functional(num),
    ensures
        w == (model(num).widened)(lo, hi, v),
{
    proof {
        reveal(follows);
    }
    num.widened(lo, hi, v)
}

pub fn share<N: Numerics>(num: &N, fraction: u64, n: usize) -> (s: usize)
    requires
        functional(num),
    ensures
        s == (model(num).share)(fraction, n),
{
    proof {
        reveal(follows);
    }
    num.share(fraction, n)
}

pub fn overfetch<N: Numerics>(num: &N, beta: u64, k: usize, upper: usize, n: usize) -> (e: usize)
    requires
        functional(num),
    ensures
        e == (model(num).overfetch)(beta, k, upper, n),
{
    proof {
        reveal(follows);
    }
    num.overfetch(beta, k, upper, n)
}

} // verus!
