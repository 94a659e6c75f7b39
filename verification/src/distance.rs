//! Metrics, and the integer rank that stands for a distance.
//!
//! Contract: smaller is closer. Squared L2 has no square root taken, inner
//! products are negated, and cosine is the negated inner product of vectors
//! that were normalized when they were inserted or queried.

use vstd::prelude::*;

verus! {

/// Supported metrics. Indexes take this as configuration.
#[derive(Debug, Clone, Copy, PartialEq, Eq, Structural)]
pub enum Metric {
    /// Squared L2. The caller takes the square root if the true distance is
    /// needed.
    L2,
    /// Negated inner product.
    Dot,
    /// Negated inner product over normalized vectors.
    Cosine,
}

impl Metric {
    /// Does this metric require normalization at insert and query time?
    pub fn requires_normalization(&self) -> (b: bool)
        ensures
            b == (*self == Metric::Cosine),
    {
        matches!(self, Metric::Cosine)
    }

    /// The number under which a metric is written to disk.
    pub open spec fn code(self) -> u32 {
        match self {
            Metric::L2 => 0,
            Metric::Dot => 1,
            Metric::Cosine => 2,
        }
    }

    pub fn to_code(&self) -> (c: u32)
        ensures
            c == self.code(),
    {
        match self {
            Metric::L2 => 0,
            Metric::Dot => 1,
            Metric::Cosine => 2,
        }
    }

    pub fn from_code(c: u32) -> (m: Option<Metric>)
        ensures
            m is Some <==> c <= 2,
            m matches Some(x) ==> x.code() == c,
    {
        if c == 0 {
            Some(Metric::L2)
        } else if c == 1 {
            Some(Metric::Dot)
        } else if c == 2 {
            Some(Metric::Cosine)
        } else {
            None
        }
    }
}

/// The place of an `f32` bit pattern in the IEEE total order, counted from
/// positive zero: negative numbers descend from -1.
pub open spec fn total_rank(bits: u32) -> int {
    if bits < 0x8000_0000 {
        bits as int
    } else {
        0x8000_0000 - bits - 1
    }
}

/// Maps the bit pattern of an `f32` distance to an integer of the same order.
pub fn distance_key(bits: u32) -> (key: u32)
    ensures
        key == 0x8000_0000 + total_rank(bits),
{
    if bits < 0x8000_0000 {
        0x8000_0000u32 + bits
    } else {
        0xffff_ffffu32 - bits
    }
}

/// The bit pattern that a distance key stands for.
pub fn distance_bits(key: u32) -> (bits: u32)
    ensures
        key == 0x8000_0000 + total_rank(bits),
{
    if key >= 0x8000_0000 {
        key - 0x8000_0000
    } else {
        0xffff_ffffu32 - key
    }
}

/// The key stands for what is not a number.
pub open spec fn nan_key(key: u32) -> bool {
    key < 0x007f_ffff || key > 0xff80_0000
}

/// One distance is smaller than another as numbers: the zeros are equal, and
/// what is not a number is neither smaller nor larger than anything.
pub open spec fn nearer(a: u32, b: u32) -> bool {
    !nan_key(a) && !nan_key(b) && a < b && !(a == 0x7fff_ffff && b == 0x8000_0000)
}

/// Compares the keys of two distances as numbers.
pub fn is_nearer(a: u32, b: u32) -> (r: bool)
    ensures
        r == nearer(a, b),
{
    a >= 0x007f_ffff && b <= 0xff80_0000 && a < b && !(a == 0x7fff_ffff && b == 0x8000_0000)
}

/// Among numbers, what is not nearer than one distance is not nearer than a
/// smaller one.
pub proof fn lemma_not_nearer(a: u32, b: u32, c: u32)
    requires
        !nan_key(b),
        !nan_key(a),
        !nearer(a, b),
        c <= b,
    ensures
        !nearer(a, c),
{
}

/// A distance key determines its bit pattern: [`distance_bits`] undoes
/// [`distance_key`].
pub proof fn distance_key_is_invertible(a: u32, b: u32)
    ensures
        total_rank(a) == total_rank(b) ==> a == b,
        -0x8000_0000 <= total_rank(a) < 0x8000_0000,
{
}

/// The size of a number, whatever its sign.
pub open spec fn size_bits(bits: u32) -> int {
    if bits < 0x8000_0000 {
        bits as int
    } else {
        bits - 0x8000_0000
    }
}

/// The number with its sign, in the order of numbers: both zeros are zero.
pub open spec fn signed_size(bits: u32) -> int {
    if bits < 0x8000_0000 {
        size_bits(bits)
    } else {
        -size_bits(bits)
    }
}

/// Distance keys are in the order of the numbers they stand for, the negative zero
/// below the positive one. As numbers, one is nearer than another exactly where
/// both are numbers and it is smaller.
pub proof fn distance_keys_follow_the_order_of_numbers(a: u32, b: u32, ka: u32, kb: u32)
    requires
        ka == 0x8000_0000 + total_rank(a),
        kb == 0x8000_0000 + total_rank(b),
    ensures
        signed_size(a) < signed_size(b) ==> ka < kb,
        ka < kb ==> signed_size(a) <= signed_size(b),
        ka == kb <==> a == b,
        nan_key(ka) <==> size_bits(a) > 0x7f80_0000,
        nearer(ka, kb) <==> size_bits(a) <= 0x7f80_0000 && size_bits(b) <= 0x7f80_0000
            && signed_size(a) < signed_size(b),
{
}

} // verus!
