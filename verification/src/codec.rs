//! Bytes: little-endian integers, checksums, and the places of encodings in a
//! file.

use vstd::prelude::*;
use vstd::slice::slice_subrange;

verus! {

/// The `n` low bytes of `x`, least significant first.
pub open spec fn le_bytes(x: int, n: nat) -> Seq<u8>
    decreases n,
{
    if n == 0 {
        Seq::empty()
    } else {
        seq![(x % 256) as u8] + le_bytes(x / 256, (n - 1) as nat)
    }
}

/// The integer that little-endian bytes stand for.
pub open spec fn le_value(s: Seq<u8>) -> int
    decreases s.len(),
{
    if s.len() == 0 {
        0
    } else {
        s[0] + 256 * le_value(s.drop_first())
    }
}

/// 256 to the power of `n`.
pub open spec fn byte_range(n: nat) -> int
    decreases n,
{
    if n == 0 {
        1
    } else {
        256 * byte_range((n - 1) as nat)
    }
}

pub proof fn lemma_le_bytes(x: int, n: nat)
    requires
        0 <= x < byte_range(n),
    ensures
        le_bytes(x, n).len() == n,
        le_value(le_bytes(x, n)) == x,
    decreases n,
{
    if n > 0 {
        lemma_le_bytes(x / 256, (n - 1) as nat);
        let s = le_bytes(x, n);
        assert(s.drop_first() =~= le_bytes(x / 256, (n - 1) as nat));
    }
}

pub proof fn lemma_le_value(s: Seq<u8>)
    ensures
        0 <= le_value(s) < byte_range(s.len()),
        le_bytes(le_value(s), s.len()) == s,
    decreases s.len(),
{
    if s.len() > 0 {
        let t = s.drop_first();
        lemma_le_value(t);
        let x = le_value(s);
        assert(x % 256 == s[0] && x / 256 == le_value(t));
        assert(le_bytes(x, s.len()) =~= s);
    }
}

/// The ranges of four and of eight bytes.
pub proof fn lemma_byte_ranges()
    ensures
        byte_range(4) == 0x1_0000_0000,
        byte_range(8) == 0x1_0000_0000_0000_0000,
{
    reveal_with_fuel(byte_range, 9);
}

pub open spec fn le4(x: u32) -> Seq<u8> {
    le_bytes(x as int, 4)
}

pub open spec fn le8(x: u64) -> Seq<u8> {
    le_bytes(x as int, 8)
}

pub proof fn lemma_le4(x: u32)
    ensures
        le4(x).len() == 4,
        le_value(le4(x)) == x,
{
    lemma_byte_ranges();
    lemma_le_bytes(x as int, 4);
}

pub proof fn lemma_le8(x: u64)
    ensures
        le8(x).len() == 8,
        le_value(le8(x)) == x,
{
    lemma_byte_ranges();
    lemma_le_bytes(x as int, 8);
}

/// The encoding `e` stands at the offset.
pub open spec fn at(bytes: Seq<u8>, off: int, e: Seq<u8>) -> bool {
    0 <= off && off + e.len() <= bytes.len() && bytes.subrange(off, off + e.len()) == e
}

fn push_le(buf: &mut Vec<u8>, x: u64, n: usize)
    requires
        n <= 8,
    ensures
        final(buf)@ == old(buf)@ + le_bytes(x as int, n as nat),
{
    let ghost before = buf@;
    let mut rest: u64 = x;
    let mut i: usize = 0;
    proof {
        assert(before + le_bytes(x as int, n as nat) =~= buf@ + le_bytes(x as int, n as nat));
    }
    while i < n
        invariant
            i <= n <= 8,
            buf@ + le_bytes(rest as int, (n - i) as nat) == before + le_bytes(x as int, n as nat),
        decreases n - i,
    {
        proof {
            let more = le_bytes(rest as int, (n - i) as nat);
            let tail = le_bytes((rest / 256) as int, (n - i - 1) as nat);
            assert(more == seq![(rest % 256) as u8] + tail);
            assert(buf@ + more =~= buf@.push((rest % 256) as u8) + tail);
        }
        buf.push((rest % 256) as u8);
        rest = rest / 256;
        i = i + 1;
    }
    proof {
        assert(buf@ + le_bytes(rest as int, 0) =~= buf@);
    }
}

/// Appends a `u32` in little-endian order.
pub fn push_u32(buf: &mut Vec<u8>, x: u32)
    ensures
        final(buf)@ == old(buf)@ + le4(x),
{
    push_le(buf, x as u64, 4);
}

/// Appends a `u64` in little-endian order.
pub fn push_u64(buf: &mut Vec<u8>, x: u64)
    ensures
        final(buf)@ == old(buf)@ + le8(x),
{
    push_le(buf, x, 8);
}

fn read_le(bytes: &[u8], off: usize, n: usize) -> (x: u64)
    requires
        n <= 8,
        off + n <= bytes@.len(),
    ensures
        x == le_value(bytes@.subrange(off as int, off + n)),
{
    proof {
        lemma_byte_ranges();
        lemma_le_value(bytes@.subrange(off as int, off + n));
    }
    let total: usize = bytes.len();
    let mut x: u64 = 0;
    let mut i: usize = n;
    while i > 0
        invariant
            i <= n <= 8,
            off + n <= total == bytes@.len(),
            x == le_value(bytes@.subrange(off + i, off + n)),
            byte_range(8) == 0x1_0000_0000_0000_0000,
        decreases i,
    {
        proof {
            let s = bytes@.subrange(off + i - 1, off + n);
            assert(s.drop_first() =~= bytes@.subrange(off + i, off + n));
            lemma_le_value(s);
            lemma_byte_range_grows(s.len(), 8);
        }
        x = x * 256 + bytes[off + i - 1] as u64;
        i = i - 1;
    }
    x
}

proof fn lemma_byte_range_grows(a: nat, b: nat)
    requires
        a <= b,
    ensures
        0 < byte_range(a) <= byte_range(b),
    decreases b,
{
    if a < b {
        lemma_byte_range_grows(a, (b - 1) as nat);
    } else if a > 0 {
        lemma_byte_range_grows((a - 1) as nat, (b - 1) as nat);
    }
}

/// Reads a little-endian `u32`.
pub fn read_u32(bytes: &[u8], off: usize) -> (x: u32)
    requires
        off + 4 <= bytes@.len(),
    ensures
        x == le_value(bytes@.subrange(off as int, off + 4)),
        at(bytes@, off as int, le4(x)),
{
    proof {
        lemma_byte_ranges();
        lemma_le_value(bytes@.subrange(off as int, off + 4));
    }
    read_le(bytes, off, 4) as u32
}

/// Reads a little-endian `u64`.
pub fn read_u64(bytes: &[u8], off: usize) -> (x: u64)
    requires
        off + 8 <= bytes@.len(),
    ensures
        x == le_value(bytes@.subrange(off as int, off + 8)),
        at(bytes@, off as int, le8(x)),
{
    proof {
        lemma_byte_ranges();
        lemma_le_value(bytes@.subrange(off as int, off + 8));
    }
    read_le(bytes, off, 8)
}

/// Appends bytes.
pub fn push_all(buf: &mut Vec<u8>, more: &[u8])
    ensures
        final(buf)@ == old(buf)@ + more@,
{
    let ghost before = buf@;
    let mut i: usize = 0;
    while i < more.len()
        invariant
            i <= more@.len(),
            buf@ == before + more@.take(i as int),
        decreases more@.len() - i,
    {
        buf.push(more[i]);
        i = i + 1;
        assert(more@.take(i as int) =~= more@.take(i - 1).push(more@[i - 1]));
        assert(buf@ =~= before + more@.take(i as int));
    }
    assert(more@.take(i as int) =~= more@);
}

/// Do the bytes at the offset equal the four given ones?
pub fn four_at(bytes: &[u8], off: usize, what: [u8; 4]) -> (b: bool)
    requires
        off + 4 <= bytes@.len(),
    ensures
        b == (bytes@.subrange(off as int, off + 4) == what@),
{
    let b: bool = bytes[off] == what[0] && bytes[off + 1] == what[1] && bytes[off + 2] == what[2]
        && bytes[off + 3] == what[3];
    proof {
        let s = bytes@.subrange(off as int, off + 4);
        assert(s[0] == bytes@[off as int]);
        assert(s[1] == bytes@[off + 1]);
        assert(s[2] == bytes@[off + 2]);
        assert(s[3] == bytes@[off + 3]);
        if b {
            assert(s =~= what@);
        }
    }
    b
}

/// One step of the division by the polynomial of CRC-32, lowest bit first.
pub open spec fn crc_bit(s: u32) -> u32 {
    if s & 1 == 1 {
        (s >> 1) ^ 0xEDB8_8320
    } else {
        s >> 1
    }
}

/// The eight steps that one byte takes.
pub open spec fn crc_byte(s: u32, b: u8) -> u32 {
    let x = s ^ (b as u32);
    crc_bit(crc_bit(crc_bit(crc_bit(crc_bit(crc_bit(crc_bit(crc_bit(x))))))))
}

/// The remainder after some bytes.
pub open spec fn crc_state(bytes: Seq<u8>) -> u32
    decreases bytes.len(),
{
    if bytes.len() == 0 {
        0xFFFF_FFFF
    } else {
        crc_byte(crc_state(bytes.drop_last()), bytes.last())
    }
}

/// The CRC-32 checksum (IEEE) of a byte sequence.
#[verifier::opaque]
pub open spec fn crc32_of(bytes: Seq<u8>) -> u32 {
    crc_state(bytes) ^ 0xFFFF_FFFF
}

/// The CRC-32 checksum of some bytes.
///
/// Calls `crc32fast::hash`. Trusted: the result is the CRC-32 (IEEE) of the
/// bytes, that is, with the reflected polynomial 0xEDB88320, starting from all
/// ones and inverted at the end.
#[verifier::external_body]
pub fn crc32(bytes: &[u8]) -> (r: u32)
    ensures
        r == crc32_of(bytes@),
{
    crc32fast::hash(bytes)
}

proof fn lemma_crc_bit(a: u32, b: u32)
    requires
        crc_bit(a) == crc_bit(b),
    ensures
        a == b,
{
    assert(a == b) by (bit_vector)
        requires
            (if a & 1 == 1 {
                (a >> 1) ^ 0xEDB8_8320
            } else {
                a >> 1
            }) == (if b & 1 == 1 {
                (b >> 1) ^ 0xEDB8_8320
            } else {
                b >> 1
            }),
    ;
}

/// The remainder tells remainders before a byte apart, and it tells bytes apart.
proof fn lemma_crc_byte(s: u32, t: u32, b: u8, c: u8)
    requires
        s != t || b != c,
        s == t || b == c,
    ensures
        crc_byte(s, b) != crc_byte(t, c),
{
    let x0 = s ^ (b as u32);
    let y0 = t ^ (c as u32);
    assert(x0 != y0) by (bit_vector)
        requires
            x0 == s ^ (b as u32),
            y0 == t ^ (c as u32),
            s != t || b != c,
            s == t || b == c,
    ;
    let x1 = crc_bit(x0);
    let y1 = crc_bit(y0);
    let x2 = crc_bit(x1);
    let y2 = crc_bit(y1);
    let x3 = crc_bit(x2);
    let y3 = crc_bit(y2);
    let x4 = crc_bit(x3);
    let y4 = crc_bit(y3);
    let x5 = crc_bit(x4);
    let y5 = crc_bit(y4);
    let x6 = crc_bit(x5);
    let y6 = crc_bit(y5);
    let x7 = crc_bit(x6);
    let y7 = crc_bit(y6);
    if crc_bit(x7) == crc_bit(y7) {
        lemma_crc_bit(x7, y7);
        lemma_crc_bit(x6, y6);
        lemma_crc_bit(x5, y5);
        lemma_crc_bit(x4, y4);
        lemma_crc_bit(x3, y3);
        lemma_crc_bit(x2, y2);
        lemma_crc_bit(x1, y1);
        lemma_crc_bit(x0, y0);
    }
}

proof fn lemma_crc_state(b: Seq<u8>, p: int, x: u8)
    requires
        0 <= p < b.len(),
        b[p] != x,
    ensures
        crc_state(b.update(p, x)) != crc_state(b),
    decreases b.len(),
{
    let c = b.update(p, x);
    if p == b.len() - 1 {
        assert(c.drop_last() =~= b.drop_last());
        lemma_crc_byte(crc_state(b.drop_last()), crc_state(b.drop_last()), x, b.last());
    } else {
        assert(c.drop_last() =~= b.drop_last().update(p, x));
        lemma_crc_state(b.drop_last(), p, x);
        lemma_crc_byte(crc_state(c.drop_last()), crc_state(b.drop_last()), b.last(), b.last());
    }
}

/// A changed byte changes the checksum.
pub proof fn checksum_tells_one_byte(b: Seq<u8>, p: int, x: u8)
    requires
        0 <= p < b.len(),
        b[p] != x,
    ensures
        crc32_of(b.update(p, x)) != crc32_of(b),
{
    reveal(crc32_of);
    lemma_crc_state(b, p, x);
    let s = crc_state(b);
    let t = crc_state(b.update(p, x));
    assert(s ^ 0xFFFF_FFFF != t ^ 0xFFFF_FFFF) by (bit_vector)
        requires
            s != t,
    ;
}

/// A changed byte changes the number that the bytes make.
proof fn lemma_value_apart(s: Seq<u8>, i: int, x: u8)
    requires
        0 <= i < s.len(),
        s[i] != x,
    ensures
        le_value(s.update(i, x)) != le_value(s),
    decreases s.len(),
{
    let t = s.update(i, x);
    if i == 0 {
        assert(t.drop_first() =~= s.drop_first());
    } else {
        assert(t.drop_first() =~= s.drop_first().update(i - 1, x));
        lemma_value_apart(s.drop_first(), i - 1, x);
    }
}

/// The last four bytes are the checksum of the rest.
pub open spec fn checked(b: Seq<u8>) -> bool {
    b.len() >= 4 && crc32_of(b.take(b.len() - 4)) == le_value(
        b.subrange(b.len() - 4, b.len() as int),
    )
}

/// Where one byte of a checked file changes, be it of the checksum itself, the
/// checksum does not fit any more.
pub proof fn changed_byte_is_noticed(b: Seq<u8>, p: int, x: u8)
    requires
        checked(b),
        0 <= p < b.len(),
        b[p] != x,
    ensures
        !checked(b.update(p, x)),
{
    let c = b.update(p, x);
    let n = b.len() - 4;
    let s = b.subrange(n, b.len() as int);
    let t = c.subrange(n, c.len() as int);
    if p < n {
        assert(c.take(n) =~= b.take(n).update(p, x));
        assert(t =~= s);
        checksum_tells_one_byte(b.take(n), p, x);
    } else {
        assert(c.take(n) =~= b.take(n));
        assert(t =~= s.update(p - n, x));
        lemma_value_apart(s, p - n, x);
    }
}

/// The checksum of the first `n` bytes.
pub fn crc32_prefix(bytes: &[u8], n: usize) -> (r: u32)
    requires
        n <= bytes@.len(),
    ensures
        r == crc32_of(bytes@.take(n as int)),
{
    let body: &[u8] = slice_subrange(bytes, 0, n);
    assert(body@ =~= bytes@.take(n as int));
    crc32(body)
}

} // verus!
