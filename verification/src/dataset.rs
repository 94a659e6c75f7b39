//! Datasets in the fvecs and ivecs formats.
//!
//! Vectors are laid out back to back, each as its dimension in four
//! little-endian bytes and its elements in four little-endian bytes each. There
//! is no other header. An element of an fvecs file is the bit pattern of an
//! `f32`, one of an ivecs file is an `i32`.

use vstd::prelude::*;
use vstd::string::StringExecFns;
use crate::codec::{le4, le_value, lemma_byte_ranges, lemma_le4, lemma_le_value, read_u32};
use crate::text::{decimal, push_decimal};

verus! {

/// The largest dimension that is read.
pub const MAX_DIM: usize = 0x10_0000;

#[derive(Debug)]
pub enum DatasetError {
    Malformed(String),
}

impl View for DatasetError {
    type V = Seq<char>;

    open spec fn view(&self) -> Seq<char> {
        match self {
            DatasetError::Malformed(why) => why@,
        }
    }
}

impl DatasetError {
    /// The error in words.
    pub fn message(&self) -> (s: String)
        ensures
            s@ == "malformed file: "@ + self@,
    {
        match self {
            DatasetError::Malformed(why) => {
                let mut s: String = String::from_str("malformed file: ");
                s.append(why.as_str());
                s
            },
        }
    }
}

/// The number at the front of the bytes.
pub open spec fn head(b: Seq<u8>) -> int {
    le_value(b.take(4))
}

/// The `n` numbers at the front of the bytes.
pub open spec fn numbers(b: Seq<u8>, n: nat) -> Seq<u32> {
    Seq::new(n, |i: int| le_value(b.subrange(4 * i, 4 * i + 4)) as u32)
}

pub open spec fn plausible(dim: int) -> bool {
    0 < dim <= MAX_DIM
}

/// What is wrong with the vector at the front of the bytes, where the vectors
/// before it had the dimension `expected`.
pub open spec fn flaw(b: Seq<u8>, expected: Option<int>) -> Option<Seq<char>> {
    if b.len() < 4 {
        Some("no 4 bytes left for the dimension field (truncated file)"@)
    } else {
        let dim = head(b);
        if !plausible(dim) {
            Some("implausible dimension field: "@ + decimal(dim))
        } else if expected is Some && expected->0 != dim {
            Some(
                "inconsistent dimension: expected "@ + decimal(expected->0) + ", saw "@ + decimal(
                    dim,
                ),
            )
        } else if b.len() < 4 + 4 * dim {
            Some(
                "vector data truncated: "@ + decimal(4 + 4 * dim) + " bytes needed, "@ + decimal(
                    b.len() as int,
                ) + " left"@,
            )
        } else {
            None
        }
    }
}

/// The vectors of a file; the first flaw ends it.
pub open spec fn vectors_in(b: Seq<u8>, expected: Option<int>) -> Result<Seq<Seq<u32>>, Seq<char>>
    decreases b.len(),
{
    if b.len() == 0 {
        Ok(Seq::empty())
    } else {
        match flaw(b, expected) {
            Some(why) => Err(why),
            None => {
                let dim = head(b);
                match vectors_in(b.skip(4 + 4 * dim), Some(dim)) {
                    Err(why) => Err(why),
                    Ok(rest) => Ok(seq![numbers(b.skip(4), dim as nat)] + rest),
                }
            },
        }
    }
}

/// The first `n` vectors of a file. A file that ends where a vector would begin
/// has no more; a vector that is cut off is a flaw.
pub open spec fn first_vectors(b: Seq<u8>, n: nat) -> Result<Seq<Seq<u32>>, Seq<char>>
    decreases n,
{
    if n == 0 || b.len() < 4 {
        Ok(Seq::empty())
    } else {
        let dim = head(b);
        if !plausible(dim) {
            Err("implausible dimension field: "@ + decimal(dim))
        } else if b.len() < 4 + 4 * dim {
            Err("vector data truncated (subset read)"@)
        } else {
            match first_vectors(b.skip(4 + 4 * dim), (n - 1) as nat) {
                Err(why) => Err(why),
                Ok(rest) => Ok(seq![numbers(b.skip(4), dim as nat)] + rest),
            }
        }
    }
}

pub open spec fn vectors_view(vs: Seq<Vec<u32>>) -> Seq<Seq<u32>> {
    Seq::new(vs.len(), |i: int| vs[i]@)
}

/// A result behind what was read before it.
pub open spec fn following(acc: Seq<Seq<u32>>, rest: Result<Seq<Seq<u32>>, Seq<char>>) -> Result<
    Seq<Seq<u32>>,
    Seq<char>,
> {
    match rest {
        Err(why) => Err(why),
        Ok(vs) => Ok(acc + vs),
    }
}

/// The numbers from `off` on.
fn read_numbers(bytes: &[u8], off: usize, n: usize) -> (v: Vec<u32>)
    requires
        off + 4 * n <= bytes@.len(),
    ensures
        v@ == numbers(bytes@.skip(off as int), n as nat),
{
    let total: usize = bytes.len();
    let mut v: Vec<u32> = Vec::with_capacity(n);
    let mut i: usize = 0;
    while i < n
        invariant
            i <= n,
            off + 4 * n <= bytes@.len() == total,
            v@ =~= numbers(bytes@.skip(off as int), n as nat).take(i as int),
        decreases n - i,
    {
        let w: u32 = read_u32(bytes, off + 4 * i);
        assert(bytes@.skip(off as int).subrange(4 * i, 4 * i + 4) =~= bytes@.subrange(
            off + 4 * i,
            off + 4 * i + 4,
        ));
        v.push(w);
        i = i + 1;
    }
    assert(numbers(bytes@.skip(off as int), n as nat).take(i as int) =~= numbers(
        bytes@.skip(off as int),
        n as nat,
    ));
    v
}

/// What a conversion makes of the four bytes of an element.
pub open spec fn stands_for<T, F: Fn([u8; 4]) -> T>(f: F, w: u32, x: T) -> bool {
    exists|c: [u8; 4]| c@ == le4(w) && #[trigger] call_ensures(f, (c,), x)
}

/// What a conversion makes of one vector, element by element.
pub open spec fn converts<T, F: Fn([u8; 4]) -> T>(f: F, words: Seq<u32>, v: Seq<T>) -> bool {
    &&& v.len() == words.len()
    &&& forall|j: int| 0 <= j < v.len() ==> stands_for(f, words[j], #[trigger] v[j])
}

/// What a conversion makes of several vectors.
pub open spec fn converts_all<T, F: Fn([u8; 4]) -> T>(
    f: F,
    words: Seq<Seq<u32>>,
    vs: Seq<Vec<T>>,
) -> bool {
    &&& vs.len() == words.len()
    &&& forall|i: int| 0 <= i < vs.len() ==> converts(f, words[i], (#[trigger] vs[i])@)
}

/// The elements from `off` on, each converted from its four bytes.
fn read_elements<T, F: Fn([u8; 4]) -> T>(bytes: &[u8], off: usize, n: usize, f: &F) -> (v: Vec<T>)
    requires
        off + 4 * n <= bytes@.len(),
        forall|c: [u8; 4]| #[trigger] call_requires(*f, (c,)),
    ensures
        converts(*f, numbers(bytes@.skip(off as int), n as nat), v@),
{
    let total: usize = bytes.len();
    let ghost words = numbers(bytes@.skip(off as int), n as nat);
    let mut v: Vec<T> = Vec::with_capacity(n);
    let mut i: usize = 0;
    while i < n
        invariant
            i <= n,
            off + 4 * n <= bytes@.len() == total,
            words == numbers(bytes@.skip(off as int), n as nat),
            forall|c: [u8; 4]| #[trigger] call_requires(*f, (c,)),
            v@.len() == i,
            forall|j: int| 0 <= j < i ==> stands_for(*f, words[j], #[trigger] v@[j]),
        decreases n - i,
    {
        let o: usize = off + 4 * i;
        let w: u32 = read_u32(bytes, o);
        let c: [u8; 4] = [bytes[o], bytes[o + 1], bytes[o + 2], bytes[o + 3]];
        let x: T = f(c);
        proof {
            lemma_le4(w);
            assert(bytes@.skip(off as int).subrange(4 * i, 4 * i + 4) =~= bytes@.subrange(
                o as int,
                o + 4,
            ));
            assert(words[i as int] == w);
            assert(c@ =~= bytes@.subrange(o as int, o + 4));
            assert(c@ =~= le4(w));
            assert(call_ensures(*f, (c,), x));
        }
        v.push(x);
        i = i + 1;
    }
    v
}

fn implausible(dim: usize) -> (e: DatasetError)
    ensures
        e@ == "implausible dimension field: "@ + decimal(dim as int),
{
    let mut why: String = String::from_str("implausible dimension field: ");
    push_decimal(&mut why, dim as u64);
    DatasetError::Malformed(why)
}

/// How many bytes of elements follow a dimension field.
pub fn vector_bytes(field: u32) -> (r: Result<usize, DatasetError>)
    ensures
        match r {
            Ok(n) => plausible(field as int) && n == 4 * field,
            Err(e) => !plausible(field as int) && e@ == "implausible dimension field: "@ + decimal(
                field as int,
            ),
        },
{
    let dim: usize = field as usize;
    if dim == 0 || dim > MAX_DIM {
        return Err(implausible(dim));
    }
    Ok(4 * dim)
}

/// The elements of every vector, each converted from its four bytes. Only
/// elements are converted, never a dimension field.
pub fn parse_vecs<T, F: Fn([u8; 4]) -> T>(bytes: &[u8], from_le: F) -> (r: Result<
    Vec<Vec<T>>,
    DatasetError,
>)
    requires
        forall|c: [u8; 4]| #[trigger] call_requires(from_le, (c,)),
    ensures
        match r {
            Ok(vs) => vectors_in(bytes@, None) matches Ok(words) && converts_all(
                from_le,
                words,
                vs@,
            ),
            Err(e) => vectors_in(bytes@, None) == Err::<Seq<Seq<u32>>, Seq<char>>(e@),
        },
{
    let mut out: Vec<Vec<T>> = Vec::new();
    let ghost mut acc: Seq<Seq<u32>> = Seq::empty();
    let mut expected: Option<usize> = None;
    let mut off: usize = 0;
    let ghost mut known: Option<int> = None;
    proof {
        assert(bytes@.skip(0) =~= bytes@);
        match vectors_in(bytes@, None) {
            Ok(vs) => {
                assert(acc + vs =~= vs);
            },
            Err(_) => {},
        }
    }
    while off < bytes.len()
        invariant
            off <= bytes@.len(),
            known == (match expected {
                Some(e) => Some(e as int),
                None => None,
            }),
            forall|c: [u8; 4]| #[trigger] call_requires(from_le, (c,)),
            converts_all(from_le, acc, out@),
            vectors_in(bytes@, None) == following(
                acc,
                vectors_in(bytes@.skip(off as int), known),
            ),
        decreases bytes@.len() - off,
    {
        let ghost b = bytes@.skip(off as int);
        let left: usize = bytes.len() - off;
        if left < 4 {
            return Err(
                DatasetError::Malformed(
                    String::from_str("no 4 bytes left for the dimension field (truncated file)"),
                ),
            );
        }
        let field: u32 = read_u32(bytes, off);
        assert(b.take(4) =~= bytes@.subrange(off as int, off + 4));
        let data: usize = match vector_bytes(field) {
            Ok(n) => n,
            Err(e) => {
                return Err(e);
            },
        };
        let dim: usize = field as usize;
        if let Some(e) = expected {
            if e != dim {
                let mut why: String = String::from_str("inconsistent dimension: expected ");
                push_decimal(&mut why, e as u64);
                why.append(", saw ");
                push_decimal(&mut why, dim as u64);
                assert(why@ =~= flaw(b, known)->0);
                return Err(DatasetError::Malformed(why));
            }
        }
        let need: usize = 4 + data;
        if left < need {
            let mut why: String = String::from_str("vector data truncated: ");
            push_decimal(&mut why, need as u64);
            why.append(" bytes needed, ");
            push_decimal(&mut why, left as u64);
            why.append(" left");
            assert(why@ =~= flaw(b, known)->0);
            return Err(DatasetError::Malformed(why));
        }
        let v: Vec<T> = read_elements(bytes, off + 4, dim, &from_le);
        let ghost words = numbers(bytes@.skip(off + 4), dim as nat);
        let ghost before = out@;
        out.push(v);
        proof {
            let next = bytes@.skip(off + need);
            assert(b.skip(4) =~= bytes@.skip(off + 4));
            assert(b.skip(need as int) =~= next);
            match vectors_in(next, Some(dim as int)) {
                Ok(rest) => {
                    assert(acc + (seq![words] + rest) =~= acc.push(words) + rest);
                },
                Err(_) => {},
            }
            acc = acc.push(words);
            assert forall|i: int| 0 <= i < out@.len() implies converts(
                from_le,
                acc[i],
                (#[trigger] out@[i])@,
            ) by {
                if i < before.len() {
                    assert(out@[i] == before[i]);
                }
            }
            known = Some(dim as int);
        }
        expected = Some(dim);
        off = off + need;
    }
    proof {
        assert(bytes@.skip(off as int).len() == 0);
        assert(acc + Seq::empty() =~= acc);
    }
    Ok(out)
}

/// The bit pattern that four bytes hold.
fn word(c: [u8; 4]) -> (w: u32)
    ensures
        w == le_value(c@),
{
    let w: u32 = read_u32(c.as_slice(), 0);
    assert(c@.subrange(0, 4) =~= c@);
    w
}

/// Reads the vectors of an fvecs file, as bit patterns. Every vector has to have
/// the dimension of the first.
pub fn parse_fvecs(bytes: &[u8]) -> (r: Result<Vec<Vec<u32>>, DatasetError>)
    ensures
        match r {
            Ok(vs) => vectors_in(bytes@, None) == Ok::<Seq<Seq<u32>>, Seq<char>>(
                vectors_view(vs@),
            ),
            Err(e) => vectors_in(bytes@, None) == Err::<Seq<Seq<u32>>, Seq<char>>(e@),
        },
{
    let f = |c: [u8; 4]| -> (w: u32)
        ensures
            w == le_value(c@),
        { word(c) };
    let r = parse_vecs(bytes, f);
    proof {
        if let Ok(vs) = &r {
            let words = vectors_in(bytes@, None)->Ok_0;
            assert forall|i: int| 0 <= i < words.len() implies words[i] =~= (#[trigger] vs@[i])@ by {
                assert(converts(f, words[i], vs@[i]@));
                assert forall|j: int| 0 <= j < words[i].len() implies words[i][j] == vs@[i]@[j] by {
                    assert(stands_for(f, words[i][j], vs@[i]@[j]));
                    lemma_le4(words[i][j]);
                }
            }
            assert(vectors_view(vs@) =~= words);
        }
    }
    r
}

/// What a conversion gives is a function of the four bytes.
pub open spec fn computes<T, F: Fn([u8; 4]) -> T>(f: F, h: spec_fn(Seq<u8>) -> T) -> bool {
    forall|c: [u8; 4], x: T| #[trigger] call_ensures(f, (c,), x) ==> x == h(c@)
}

/// A conversion changes the elements and nothing else: as many vectors come out
/// as without it, each as long, and each element is what the conversion makes of
/// its bytes. So two conversions of the same file differ only there; where the
/// file is refused, no conversion is asked.
///
/// Here `raw` is what comes out when the bytes are handed through.
pub proof fn conversion_changes_only_the_elements<
    T,
    F: Fn([u8; 4]) -> T,
    I: Fn([u8; 4]) -> [u8; 4],
>(
    bytes: Seq<u8>,
    f: F,
    h: spec_fn(Seq<u8>) -> T,
    vs: Seq<Vec<T>>,
    same: I,
    raw: Seq<Vec<[u8; 4]>>,
)
    requires
        computes(f, h),
        forall|c: [u8; 4], x: [u8; 4]| #[trigger] call_ensures(same, (c,), x) ==> x == c,
        vectors_in(bytes, None) matches Ok(words) && converts_all(f, words, vs) && converts_all(
            same,
            words,
            raw,
        ),
    ensures
        vs.len() == raw.len(),
        forall|i: int| 0 <= i < vs.len() ==> (#[trigger] vs[i])@.len() == raw[i]@.len(),
        forall|i: int, j: int|
            0 <= i < vs.len() && 0 <= j < vs[i]@.len() ==> #[trigger] vs[i]@[j] == h(
                raw[i]@[j]@,
            ),
{
    let words = vectors_in(bytes, None)->Ok_0;
    assert forall|i: int| 0 <= i < vs.len() implies (#[trigger] vs[i])@.len() == raw[i]@.len() by {
        assert(converts(f, words[i], vs[i]@));
        assert(converts(same, words[i], raw[i]@));
    }
    assert forall|i: int, j: int|
        0 <= i < vs.len() && 0 <= j < vs[i]@.len() implies #[trigger] vs[i]@[j] == h(
        raw[i]@[j]@,
    ) by {
        assert(converts(f, words[i], vs[i]@));
        assert(converts(same, words[i], raw[i]@));
        assert(stands_for(f, words[i][j], vs[i]@[j]));
        assert(stands_for(same, words[i][j], raw[i]@[j]));
    }
}

/// The number in two's complement that a bit pattern stands for.
pub open spec fn signed(w: u32) -> int {
    if w < 0x8000_0000 {
        w as int
    } else {
        w - 0x1_0000_0000
    }
}

fn to_signed(w: u32) -> (x: i32)
    ensures
        x == signed(w),
{
    if w < 0x8000_0000 {
        w as i32
    } else {
        -((0xffff_ffff - w) as i32) - 1
    }
}

/// Vectors of signed numbers as they stand for bit patterns.
pub open spec fn same_vectors(out: Seq<Vec<i32>>, vs: Seq<Seq<u32>>) -> bool {
    &&& out.len() == vs.len()
    &&& forall|i: int|
        0 <= i < vs.len() ==> (#[trigger] out[i])@.len() == vs[i].len() && forall|j: int|
            0 <= j < vs[i].len() ==> #[trigger] out[i]@[j] == signed(vs[i][j])
}

/// Reads the vectors of an ivecs file. Every vector has to have the dimension
/// of the first.
pub fn parse_ivecs(bytes: &[u8]) -> (r: Result<Vec<Vec<i32>>, DatasetError>)
    ensures
        match r {
            Ok(out) => vectors_in(bytes@, None) matches Ok(vs) && same_vectors(out@, vs),
            Err(e) => vectors_in(bytes@, None) == Err::<Seq<Seq<u32>>, Seq<char>>(e@),
        },
{
    let f = |c: [u8; 4]| -> (x: i32)
        ensures
            x == signed(le_value(c@) as u32),
        { to_signed(word(c)) };
    let r = parse_vecs(bytes, f);
    proof {
        if let Ok(vs) = &r {
            let words = vectors_in(bytes@, None)->Ok_0;
            assert forall|i: int| 0 <= i < words.len() implies (#[trigger] vs@[i])@.len()
                == words[i].len() && forall|j: int|
                0 <= j < words[i].len() ==> #[trigger] vs@[i]@[j] == signed(words[i][j]) by {
                assert(converts(f, words[i], vs@[i]@));
                assert forall|j: int| 0 <= j < words[i].len() implies #[trigger] vs@[i]@[j]
                    == signed(words[i][j]) by {
                    assert(stands_for(f, words[i][j], vs@[i]@[j]));
                    lemma_le4(words[i][j]);
                }
            }
        }
    }
    r
}

/// Reads the first `n` vectors of an fvecs file, or all where there are fewer.
pub fn read_fvecs_subset(bytes: &[u8], n: usize) -> (r: Result<Vec<Vec<u32>>, DatasetError>)
    ensures
        match r {
            Ok(vs) => first_vectors(bytes@, n as nat) == Ok::<Seq<Seq<u32>>, Seq<char>>(
                vectors_view(vs@),
            ),
            Err(e) => first_vectors(bytes@, n as nat) == Err::<Seq<Seq<u32>>, Seq<char>>(e@),
        },
{
    let mut out: Vec<Vec<u32>> = Vec::new();
    let mut off: usize = 0;
    let mut want: usize = n;
    proof {
        assert(bytes@.skip(0) =~= bytes@);
        match first_vectors(bytes@, n as nat) {
            Ok(vs) => {
                assert(vectors_view(out@) + vs =~= vs);
            },
            Err(_) => {},
        }
    }
    while want > 0 && bytes.len() - off >= 4
        invariant
            off <= bytes@.len(),
            first_vectors(bytes@, n as nat) == following(
                vectors_view(out@),
                first_vectors(bytes@.skip(off as int), want as nat),
            ),
        decreases want,
    {
        let ghost b = bytes@.skip(off as int);
        let field: u32 = read_u32(bytes, off);
        assert(b.take(4) =~= bytes@.subrange(off as int, off + 4));
        let data: usize = match vector_bytes(field) {
            Ok(n) => n,
            Err(e) => {
                return Err(e);
            },
        };
        let need: usize = 4 + data;
        if bytes.len() - off < need {
            return Err(
                DatasetError::Malformed(String::from_str("vector data truncated (subset read)")),
            );
        }
        let v: Vec<u32> = read_numbers(bytes, off + 4, field as usize);
        let ghost before = vectors_view(out@);
        out.push(v);
        proof {
            let next = bytes@.skip(off + need);
            assert(b.skip(4) =~= bytes@.skip(off + 4));
            assert(b.skip(need as int) =~= next);
            assert(vectors_view(out@) =~= before.push(v@));
            match first_vectors(next, (want - 1) as nat) {
                Ok(rest) => {
                    assert(before + (seq![v@] + rest) =~= vectors_view(out@) + rest);
                },
                Err(_) => {},
            }
        }
        off = off + need;
        want = want - 1;
    }
    assert(vectors_view(out@) + Seq::empty() =~= vectors_view(out@));
    Ok(out)
}

/// The elements of a vector in a file.
pub open spec fn elements(v: Seq<u32>) -> Seq<u8>
    decreases v.len(),
{
    if v.len() == 0 {
        Seq::empty()
    } else {
        le4(v[0]) + elements(v.drop_first())
    }
}

/// The file of some vectors.
pub open spec fn file_of(vs: Seq<Seq<u32>>) -> Seq<u8>
    decreases vs.len(),
{
    if vs.len() == 0 {
        Seq::empty()
    } else {
        le4(vs[0].len() as u32) + elements(vs[0]) + file_of(vs.drop_first())
    }
}

proof fn lemma_elements(v: Seq<u32>, more: Seq<u8>)
    ensures
        elements(v).len() == 4 * v.len(),
        numbers(elements(v) + more, v.len()) == v,
    decreases v.len(),
{
    if v.len() > 0 {
        let t = v.drop_first();
        lemma_elements(t, more);
        lemma_le4(v[0]);
        let b = elements(v) + more;
        let c = elements(t) + more;
        assert forall|i: int| 0 <= i < v.len() implies #[trigger] numbers(b, v.len())[i] == v[i] by {
            if i == 0 {
                assert(b.subrange(0, 4) =~= le4(v[0]));
            } else {
                assert(b.subrange(4 * i, 4 * i + 4) =~= c.subrange(4 * (i - 1), 4 * (i - 1) + 4));
                assert(numbers(c, t.len())[i - 1] == t[i - 1]);
            }
        }
        assert(numbers(b, v.len()) =~= v);
    } else {
        assert(numbers(elements(v) + more, v.len()) =~= v);
    }
}

/// Reading a file of vectors of one dimension gives them back, and so does
/// reading the first few.
pub proof fn written_vectors_read_back(vs: Seq<Seq<u32>>, dim: nat, n: nat)
    requires
        plausible(dim as int),
        forall|i: int| 0 <= i < vs.len() ==> (#[trigger] vs[i]).len() == dim,
    ensures
        vectors_in(file_of(vs), None) == Ok::<Seq<Seq<u32>>, Seq<char>>(vs),
        first_vectors(file_of(vs), n) == Ok::<Seq<Seq<u32>>, Seq<char>>(
            if n < vs.len() {
                vs.take(n as int)
            } else {
                vs
            },
        ),
{
    lemma_written(vs, dim, None);
    lemma_written_first(vs, dim, n);
}

proof fn lemma_front(vs: Seq<Seq<u32>>, dim: nat)
    requires
        plausible(dim as int),
        vs.len() > 0,
        vs[0].len() == dim,
    ensures
        ({
            let b = file_of(vs);
            &&& b.len() >= 4 + 4 * dim
            &&& head(b) == dim
            &&& numbers(b.skip(4), dim) == vs[0]
            &&& b.skip(4 + 4 * dim as int) == file_of(vs.drop_first())
        }),
{
    let b = file_of(vs);
    let rest = file_of(vs.drop_first());
    lemma_le4(dim as u32);
    lemma_elements(vs[0], rest);
    assert(b.take(4) =~= le4(dim as u32));
    assert(b.skip(4) =~= elements(vs[0]) + rest);
    assert(b.skip(4 + 4 * dim as int) =~= rest);
}

proof fn lemma_written(vs: Seq<Seq<u32>>, dim: nat, expected: Option<int>)
    requires
        plausible(dim as int),
        expected is None || expected == Some(dim as int),
        forall|i: int| 0 <= i < vs.len() ==> (#[trigger] vs[i]).len() == dim,
    ensures
        vectors_in(file_of(vs), expected) == Ok::<Seq<Seq<u32>>, Seq<char>>(vs),
    decreases vs.len(),
{
    if vs.len() > 0 {
        let t = vs.drop_first();
        lemma_front(vs, dim);
        assert forall|i: int| 0 <= i < t.len() implies (#[trigger] t[i]).len() == dim by {
            assert(t[i] == vs[i + 1]);
        }
        lemma_written(t, dim, Some(dim as int));
        assert(flaw(file_of(vs), expected) is None);
        assert(seq![vs[0]] + t =~= vs);
    } else {
        assert(vs =~= Seq::empty());
    }
}

proof fn lemma_written_first(vs: Seq<Seq<u32>>, dim: nat, n: nat)
    requires
        plausible(dim as int),
        forall|i: int| 0 <= i < vs.len() ==> (#[trigger] vs[i]).len() == dim,
    ensures
        first_vectors(file_of(vs), n) == Ok::<Seq<Seq<u32>>, Seq<char>>(
            if n < vs.len() {
                vs.take(n as int)
            } else {
                vs
            },
        ),
    decreases vs.len(),
{
    if vs.len() == 0 {
        assert(vs =~= Seq::empty());
    } else if n == 0 {
        assert(vs.take(0) =~= Seq::empty());
    } else {
        let t = vs.drop_first();
        lemma_front(vs, dim);
        assert forall|i: int| 0 <= i < t.len() implies (#[trigger] t[i]).len() == dim by {
            assert(t[i] == vs[i + 1]);
        }
        lemma_written_first(t, dim, (n - 1) as nat);
        assert(seq![vs[0]] + t =~= vs);
        if n < vs.len() {
            assert(seq![vs[0]] + t.take(n - 1) =~= vs.take(n as int));
        }
    }
}

/// How many bytes the first `n` vectors take.
pub open spec fn subset_length(b: Seq<u8>, n: nat) -> nat
    decreases n,
{
    if n == 0 || b.len() < 4 {
        0
    } else {
        let size = 4 + 4 * head(b);
        (size + subset_length(b.skip(size), (n - 1) as nat)) as nat
    }
}

pub open spec fn first_of(vs: Seq<Seq<u32>>, n: nat) -> Seq<Seq<u32>> {
    if n < vs.len() {
        vs.take(n as int)
    } else {
        vs
    }
}

/// Of a file that is in order, the first `n` vectors come first, or all where
/// there are fewer. Reading on behind them gives the ones that follow.
pub proof fn subsets_follow_one_another(
    b: Seq<u8>,
    expected: Option<int>,
    vs: Seq<Seq<u32>>,
    n: nat,
    m: nat,
)
    requires
        vectors_in(b, expected) == Ok::<Seq<Seq<u32>>, Seq<char>>(vs),
    ensures
        first_vectors(b, n) == Ok::<Seq<Seq<u32>>, Seq<char>>(first_of(vs, n)),
        subset_length(b, n) <= b.len(),
        first_vectors(b.skip(subset_length(b, n) as int), m) == Ok::<Seq<Seq<u32>>, Seq<char>>(
            first_of(vs.skip(first_of(vs, n).len() as int), m),
        ),
    decreases b.len(), n,
{
    if b.len() == 0 {
        assert(first_of(vs, n) =~= vs);
        assert(b.skip(0) =~= b);
        assert(first_of(vs.skip(0), m) =~= vs);
    } else {
        let dim = head(b);
        let size = 4 + 4 * dim;
        let rest = b.skip(size);
        let more = vectors_in(rest, Some(dim))->Ok_0;
        assert(vs.drop_first() =~= more);
        assert(b.len() >= 4);
        if n == 0 {
            assert(first_of(vs, n) =~= Seq::empty());
            assert(b.skip(0) =~= b);
            assert(vs.skip(0) =~= vs);
            if m > 0 {
                subsets_follow_one_another(rest, Some(dim), more, (m - 1) as nat, 0);
                assert(seq![vs[0]] + first_of(more, (m - 1) as nat) =~= first_of(vs, m));
            } else {
                assert(first_of(vs, m) =~= Seq::empty());
            }
        } else {
            subsets_follow_one_another(rest, Some(dim), more, (n - 1) as nat, m);
            let taken = subset_length(rest, (n - 1) as nat) as int;
            assert(seq![vs[0]] + first_of(more, (n - 1) as nat) =~= first_of(vs, n));
            assert(b.skip(size + taken) =~= rest.skip(taken));
            assert(vs.skip(first_of(vs, n).len() as int) =~= more.skip(
                first_of(more, (n - 1) as nat).len() as int,
            ));
        }
    }
}

/// The bytes of numbers that were read are the bytes that they were read from.
proof fn lemma_numbers(b: Seq<u8>, n: nat)
    requires
        b.len() >= 4 * n,
    ensures
        elements(numbers(b, n)) == b.take(4 * n as int),
    decreases n,
{
    let v = numbers(b, n);
    if n == 0 {
        assert(elements(v) =~= b.take(0));
    } else {
        let rest = b.skip(4);
        lemma_numbers(rest, (n - 1) as nat);
        let front = b.subrange(0, 4);
        lemma_le_value(front);
        lemma_byte_ranges();
        assert(v[0] == le_value(front));
        assert(le4(v[0]) == front);
        assert forall|i: int| 0 <= i < n - 1 implies #[trigger] v.drop_first()[i] == numbers(
            rest,
            (n - 1) as nat,
        )[i] by {
            assert(b.subrange(4 * (i + 1), 4 * (i + 1) + 4) =~= rest.subrange(4 * i, 4 * i + 4));
        }
        assert(v.drop_first() =~= numbers(rest, (n - 1) as nat));
        assert(front + rest.take(4 * (n - 1)) =~= b.take(4 * n as int));
    }
}

/// A file is accepted only as what it is: it is the file of the vectors that were
/// read, they have one dimension, and a plausible one. So nothing in a file is
/// passed over, and what is not such a file is refused.
pub proof fn accepted_file_is_the_file_of_its_vectors(
    b: Seq<u8>,
    expected: Option<int>,
    vs: Seq<Seq<u32>>,
)
    requires
        vectors_in(b, expected) == Ok::<Seq<Seq<u32>>, Seq<char>>(vs),
    ensures
        file_of(vs) == b,
        forall|i: int|
            0 <= i < vs.len() ==> plausible((#[trigger] vs[i]).len() as int) && vs[i].len()
                == vs[0].len() && (expected matches Some(d) ==> vs[i].len() == d),
    decreases b.len(),
{
    if b.len() == 0 {
        assert(file_of(vs) =~= b);
    } else {
        let dim = head(b);
        let size = 4 + 4 * dim;
        let rest = b.skip(size);
        let more = vectors_in(rest, Some(dim))->Ok_0;
        assert(vs.drop_first() =~= more);
        accepted_file_is_the_file_of_its_vectors(rest, Some(dim), more);
        lemma_numbers(b.skip(4), dim as nat);
        lemma_le_value(b.take(4));
        lemma_byte_ranges();
        assert(vs[0] == numbers(b.skip(4), dim as nat));
        assert(le4(dim as u32) == b.take(4));
        assert(b.take(4) + b.skip(4).take(4 * dim) + rest =~= b);
        assert forall|i: int| 0 <= i < vs.len() implies plausible(
            (#[trigger] vs[i]).len() as int,
        ) && vs[i].len() == vs[0].len() && (expected matches Some(d) ==> vs[i].len() == d) by {
            if i > 0 {
                assert(vs[i] == more[i - 1]);
            }
        }
    }
}

} // verus!
