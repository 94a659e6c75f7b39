//! The encoding of records: what a log record and a metadata snapshot hold.
//!
//! ```text
//! number    four or eight bytes, little-endian
//! flag      one byte, 0 or 1
//! text      length (8), then that many bytes of UTF-8
//! words     count (8), then four bytes each
//! value     tag (4): 0 flag, 1 integer (8), 2 double (8), 3 text
//! fields    count (8), then a text and a value each
//! record    tag (4): 0 insertion: id (8), words, fields; 1 deletion: id (8)
//! ```
//!
//! Bytes behind the end of a record are not looked at.

use vstd::prelude::*;
use vstd::string::StringExecFns;
use vstd::utf8::{decode_utf8, encode_utf8, valid_utf8};
use crate::codec::{at, le4, le8, le_value, lemma_le4, lemma_le8, push_all};
use crate::meta::{fields_view, MetaValue, Value};
use crate::text::{decimal, push_decimal};

verus! {

/// Named values in the order in which they are written.
pub type MetaRepr = Vec<(String, MetaValue)>;

/// A [`MetaRepr`] as a value.
pub type Named = Seq<(Seq<char>, Value)>;

/// What was read, and where it ends.
pub type Taken<T> = Option<(T, int)>;

pub open spec fn take4(b: Seq<u8>, off: int) -> Taken<u32> {
    if off + 4 <= b.len() {
        Some((le_value(b.subrange(off, off + 4)) as u32, off + 4))
    } else {
        None
    }
}

pub open spec fn take8(b: Seq<u8>, off: int) -> Taken<u64> {
    if off + 8 <= b.len() {
        Some((le_value(b.subrange(off, off + 8)) as u64, off + 8))
    } else {
        None
    }
}

pub open spec fn take_flag(b: Seq<u8>, off: int) -> Taken<bool> {
    if off + 1 <= b.len() && b[off] <= 1 {
        Some((b[off] == 1, off + 1))
    } else {
        None
    }
}

pub open spec fn take_text(b: Seq<u8>, off: int) -> Taken<Seq<char>> {
    match take8(b, off) {
        Some((n, o)) => if o + n <= b.len() && valid_utf8(b.subrange(o, o + n)) {
            Some((decode_utf8(b.subrange(o, o + n)), o + n))
        } else {
            None
        },
        None => None,
    }
}

/// The four-byte number at place `i` of a list.
pub open spec fn word_at(b: Seq<u8>, off: int, i: int) -> u32 {
    le_value(b.subrange(off + 4 * i, off + 4 * i + 4)) as u32
}

pub open spec fn take_words(b: Seq<u8>, off: int) -> Taken<Seq<u32>> {
    match take8(b, off) {
        Some((n, o)) => if o + 4 * n <= b.len() {
            Some((Seq::new(n as nat, |i: int| word_at(b, o, i)), o + 4 * n))
        } else {
            None
        },
        None => None,
    }
}

pub open spec fn take_value(b: Seq<u8>, off: int) -> Taken<Value> {
    match take4(b, off) {
        Some((0, o)) => match take_flag(b, o) {
            Some((x, e)) => Some((Value::Bool(x), e)),
            None => None,
        },
        Some((1, o)) => match take8(b, o) {
            Some((x, e)) => Some((Value::Int(x as i64), e)),
            None => None,
        },
        Some((2, o)) => match take8(b, o) {
            Some((x, e)) => Some((Value::Float(x), e)),
            None => None,
        },
        Some((3, o)) => match take_text(b, o) {
            Some((x, e)) => Some((Value::Str(x), e)),
            None => None,
        },
        _ => None,
    }
}

pub open spec fn take_field(b: Seq<u8>, off: int) -> Taken<(Seq<char>, Value)> {
    match take_text(b, off) {
        Some((name, o)) => match take_value(b, o) {
            Some((v, e)) => Some(((name, v), e)),
            None => None,
        },
        None => None,
    }
}

/// The next `n` fields.
pub open spec fn take_some_fields(b: Seq<u8>, off: int, n: int) -> Taken<Named>
    decreases n,
{
    if n <= 0 {
        Some((Seq::empty(), off))
    } else {
        match take_field(b, off) {
            Some((f, o)) => match take_some_fields(b, o, n - 1) {
                Some((fs, e)) => Some((seq![f] + fs, e)),
                None => None,
            },
            None => None,
        }
    }
}

pub open spec fn take_fields(b: Seq<u8>, off: int) -> Taken<Named> {
    match take8(b, off) {
        Some((n, o)) => take_some_fields(b, o, n as int),
        None => None,
    }
}

// Why something cannot be read, in the words of the bincode library. The first
// thing that is not there decides.

/// What the bincode library says of bytes that are too few for a `u32`.
pub uninterp spec fn u32_fault(bytes: Seq<u8>) -> Seq<char>;

/// What the bincode library says of bytes that are too few for a `u64`.
pub uninterp spec fn u64_fault(bytes: Seq<u8>) -> Seq<char>;

/// What the bincode library says of bytes that are too few for a `bool`.
pub uninterp spec fn bool_fault(bytes: Seq<u8>) -> Seq<char>;

/// What the bincode library says of bytes that do not begin with a text.
pub uninterp spec fn string_fault(bytes: Seq<u8>) -> Seq<char>;

/// The tag names none of so many variants.
pub open spec fn unknown_variant(tag: u32, count: int) -> Seq<char> {
    "invalid value: integer `"@ + decimal(tag as int) + "`, expected variant index 0 <= i < "@
        + decimal(count)
}

pub open spec fn flag_fault(b: Seq<u8>, off: int) -> Seq<char> {
    if off < b.len() {
        "invalid u8 while decoding bool, expected 0 or 1, found "@ + decimal(b[off] as int)
    } else {
        bool_fault(b.skip(off))
    }
}

pub open spec fn value_fault(b: Seq<u8>, off: int) -> Seq<char> {
    match take4(b, off) {
        Some((0, o)) => flag_fault(b, o),
        Some((1, o)) => u64_fault(b.skip(o)),
        Some((2, o)) => u64_fault(b.skip(o)),
        Some((3, o)) => string_fault(b.skip(o)),
        Some((tag, _)) => unknown_variant(tag, 4),
        None => u32_fault(b.skip(off)),
    }
}

pub open spec fn field_fault(b: Seq<u8>, off: int) -> Seq<char> {
    match take_text(b, off) {
        Some((_, o)) => value_fault(b, o),
        None => string_fault(b.skip(off)),
    }
}

/// Of the next `n` fields, the first that cannot be read.
pub open spec fn some_fields_fault(b: Seq<u8>, off: int, n: int) -> Seq<char>
    decreases n,
{
    if n <= 0 {
        Seq::empty()
    } else {
        match take_field(b, off) {
            Some((_, o)) => some_fields_fault(b, o, n - 1),
            None => field_fault(b, off),
        }
    }
}

pub open spec fn fields_fault(b: Seq<u8>, off: int) -> Seq<char> {
    match take8(b, off) {
        Some((n, o)) => some_fields_fault(b, o, n as int),
        None => u64_fault(b.skip(off)),
    }
}

/// The tag names none of so many variants.
pub fn variant_message(tag: u32, count: u32) -> (s: String)
    ensures
        s@ == unknown_variant(tag, count as int),
{
    let mut s: String = String::from_str("invalid value: integer `");
    push_decimal(&mut s, tag as u64);
    s.append("`, expected variant index 0 <= i < ");
    push_decimal(&mut s, count as u64);
    s
}

/// An operation on the index, as it is logged.
#[derive(Debug, PartialEq, Eq)]
pub enum WalRecord {
    Insert { id: u64, vector: Vec<u32>, meta: MetaRepr },
    Delete { id: u64 },
}

/// A [`WalRecord`] as a value.
pub ghost enum Operation {
    Insert { id: u64, vector: Seq<u32>, meta: Named },
    Delete { id: u64 },
}

impl View for WalRecord {
    type V = Operation;

    open spec fn view(&self) -> Operation {
        match self {
            WalRecord::Insert { id, vector, meta } => Operation::Insert {
                id: *id,
                vector: vector@,
                meta: fields_view(meta@),
            },
            WalRecord::Delete { id } => Operation::Delete { id: *id },
        }
    }
}

pub open spec fn take_record(b: Seq<u8>) -> Option<Operation> {
    match take4(b, 0) {
        Some((0, o)) => match take8(b, o) {
            Some((id, p)) => match take_words(b, p) {
                Some((vector, q)) => match take_fields(b, q) {
                    Some((meta, _)) => Some(Operation::Insert { id, vector, meta }),
                    None => None,
                },
                None => None,
            },
            None => None,
        },
        Some((1, o)) => match take8(b, o) {
            Some((id, _)) => Some(Operation::Delete { id }),
            None => None,
        },
        _ => None,
    }
}

pub open spec fn flag_bytes(x: bool) -> Seq<u8> {
    seq![if x { 1u8 } else { 0u8 }]
}

pub open spec fn text_bytes(s: Seq<char>) -> Seq<u8> {
    le8(encode_utf8(s).len() as u64) + encode_utf8(s)
}

/// Four bytes of each number.
pub open spec fn words(s: Seq<u32>) -> Seq<u8>
    decreases s.len(),
{
    if s.len() == 0 {
        Seq::empty()
    } else {
        words(s.drop_last()) + le4(s.last())
    }
}

pub open spec fn words_bytes(s: Seq<u32>) -> Seq<u8> {
    le8(s.len() as u64) + words(s)
}

pub open spec fn value_bytes(v: Value) -> Seq<u8> {
    match v {
        Value::Bool(x) => le4(0) + flag_bytes(x),
        Value::Int(x) => le4(1) + le8(x as u64),
        Value::Float(x) => le4(2) + le8(x),
        Value::Str(s) => le4(3) + text_bytes(s),
    }
}

pub open spec fn field_bytes(f: (Seq<char>, Value)) -> Seq<u8> {
    text_bytes(f.0) + value_bytes(f.1)
}

pub open spec fn some_fields_bytes(fs: Named) -> Seq<u8>
    decreases fs.len(),
{
    if fs.len() == 0 {
        Seq::empty()
    } else {
        some_fields_bytes(fs.drop_last()) + field_bytes(fs.last())
    }
}

pub open spec fn fields_bytes(fs: Named) -> Seq<u8> {
    le8(fs.len() as u64) + some_fields_bytes(fs)
}

pub open spec fn record_bytes(op: Operation) -> Seq<u8> {
    match op {
        Operation::Insert { id, vector, meta } => le4(0) + le8(id) + words_bytes(vector)
            + fields_bytes(meta),
        Operation::Delete { id } => le4(1) + le8(id),
    }
}

/// The lengths fit into their eight bytes.
pub open spec fn value_fits(v: Value) -> bool {
    match v {
        Value::Str(s) => encode_utf8(s).len() <= u64::MAX,
        _ => true,
    }
}

pub open spec fn fields_fit(fs: Named) -> bool {
    &&& fs.len() <= u64::MAX
    &&& forall|i: int|
        0 <= i < fs.len() ==> encode_utf8((#[trigger] fs[i]).0).len() <= u64::MAX && value_fits(
            fs[i].1,
        )
}

pub open spec fn fits(op: Operation) -> bool {
    match op {
        Operation::Insert { vector, meta, .. } => vector.len() <= u64::MAX && fields_fit(meta),
        Operation::Delete { .. } => true,
    }
}

// What stands at a place is read from there.

pub proof fn lemma_take4(b: Seq<u8>, off: int, x: u32)
    requires
        at(b, off, le4(x)),
    ensures
        take4(b, off) == Some((x, off + 4)),
{
    lemma_le4(x);
}

proof fn lemma_take8(b: Seq<u8>, off: int, x: u64)
    requires
        at(b, off, le8(x)),
    ensures
        take8(b, off) == Some((x, off + 8)),
{
    lemma_le8(x);
}

/// Two encodings behind each other stand one after the other.
pub proof fn lemma_at_split(b: Seq<u8>, off: int, x: Seq<u8>, y: Seq<u8>)
    requires
        at(b, off, x + y),
    ensures
        at(b, off, x),
        at(b, off + x.len(), y),
{
    let w = b.subrange(off, off + x.len() + y.len());
    assert(w == x + y);
    assert(b.subrange(off, off + x.len()) =~= w.subrange(0, x.len() as int));
    assert(b.subrange(off + x.len(), off + x.len() + y.len()) =~= w.subrange(
        x.len() as int,
        w.len() as int,
    ));
    assert((x + y).subrange(0, x.len() as int) =~= x);
    assert((x + y).subrange(x.len() as int, (x + y).len() as int) =~= y);
}

pub proof fn lemma_take_text(b: Seq<u8>, off: int, s: Seq<char>)
    requires
        at(b, off, text_bytes(s)),
        encode_utf8(s).len() <= u64::MAX,
    ensures
        take_text(b, off) == Some((s, off + text_bytes(s).len())),
{
    broadcast use vstd::utf8::encode_utf8_valid_utf8;
    broadcast use vstd::utf8::encode_utf8_decode_utf8;

    let n = encode_utf8(s).len() as u64;
    lemma_le8(n);
    lemma_at_split(b, off, le8(n), encode_utf8(s));
    lemma_take8(b, off, n);
}

proof fn lemma_words(s: Seq<u32>)
    ensures
        words(s).len() == 4 * s.len(),
        forall|i: int|
            0 <= i < s.len() ==> words(s).subrange(4 * i, 4 * i + 4) == le4(#[trigger] s[i]),
    decreases s.len(),
{
    if s.len() > 0 {
        let t = s.drop_last();
        lemma_words(t);
        lemma_le4(s.last());
        assert forall|i: int| 0 <= i < s.len() implies words(s).subrange(4 * i, 4 * i + 4) == le4(
            #[trigger] s[i],
        ) by {
            if i < t.len() {
                assert(t[i] == s[i]);
                assert(words(s).subrange(4 * i, 4 * i + 4) =~= words(t).subrange(4 * i, 4 * i + 4));
            } else {
                assert(words(s).subrange(4 * i, 4 * i + 4) =~= le4(s[i]));
            }
        }
    }
}

proof fn lemma_take_words(b: Seq<u8>, off: int, s: Seq<u32>)
    requires
        at(b, off, words_bytes(s)),
        s.len() <= u64::MAX,
    ensures
        take_words(b, off) == Some((s, off + words_bytes(s).len())),
{
    let n = s.len() as u64;
    lemma_le8(n);
    lemma_at_split(b, off, le8(n), words(s));
    lemma_take8(b, off, n);
    lemma_words(s);
    let o = off + 8;
    let got = Seq::new(n as nat, |i: int| word_at(b, o, i));
    assert forall|i: int| 0 <= i < n implies got[i] == s[i] by {
        assert(b.subrange(o + 4 * i, o + 4 * i + 4) =~= words(s).subrange(4 * i, 4 * i + 4)) by {
            assert(b.subrange(o, o + words(s).len()) == words(s));
        }
        lemma_le4(s[i]);
    }
    assert(got =~= s);
}

proof fn lemma_take_value(b: Seq<u8>, off: int, v: Value)
    requires
        at(b, off, value_bytes(v)),
        value_fits(v),
    ensures
        take_value(b, off) == Some((v, off + value_bytes(v).len())),
{
    match v {
        Value::Bool(x) => {
            lemma_le4(0);
            lemma_at_split(b, off, le4(0), flag_bytes(x));
            lemma_take4(b, off, 0);
            assert(b.subrange(off + 4, off + 5)[0] == b[off + 4]);
        },
        Value::Int(x) => {
            lemma_le4(1);
            lemma_le8(x as u64);
            lemma_at_split(b, off, le4(1), le8(x as u64));
            lemma_take4(b, off, 1);
            lemma_take8(b, off + 4, x as u64);
            assert((x as u64) as i64 == x) by (bit_vector);
        },
        Value::Float(x) => {
            lemma_le4(2);
            lemma_le8(x);
            lemma_at_split(b, off, le4(2), le8(x));
            lemma_take4(b, off, 2);
            lemma_take8(b, off + 4, x);
        },
        Value::Str(s) => {
            lemma_le4(3);
            lemma_at_split(b, off, le4(3), text_bytes(s));
            lemma_take4(b, off, 3);
            lemma_take_text(b, off + 4, s);
        },
    }
}

proof fn lemma_take_field(b: Seq<u8>, off: int, f: (Seq<char>, Value))
    requires
        at(b, off, field_bytes(f)),
        encode_utf8(f.0).len() <= u64::MAX,
        value_fits(f.1),
    ensures
        take_field(b, off) == Some((f, off + field_bytes(f).len())),
{
    lemma_at_split(b, off, text_bytes(f.0), value_bytes(f.1));
    lemma_take_text(b, off, f.0);
    lemma_take_value(b, off + text_bytes(f.0).len(), f.1);
}

/// The last field can be split off instead of the first.
proof fn lemma_take_last(b: Seq<u8>, off: int, n: int)
    requires
        n > 0,
    ensures
        take_some_fields(b, off, n) == (match take_some_fields(b, off, n - 1) {
            Some((fs, o)) => match take_field(b, o) {
                Some((f, e)) => Some((fs.push(f), e)),
                None => None,
            },
            None => None,
        }),
    decreases n,
{
    reveal_with_fuel(take_some_fields, 2);
    match take_field(b, off) {
        Some((f, o)) => {
            if n == 1 {
                assert(seq![f] + Seq::empty() =~= Seq::<(Seq<char>, Value)>::empty().push(f));
            } else {
                lemma_take_last(b, o, n - 1);
                match take_some_fields(b, o, n - 2) {
                    Some((fs, p)) => {
                        match take_field(b, p) {
                            Some((g, e)) => {
                                assert(seq![f] + fs.push(g) =~= (seq![f] + fs).push(g));
                            },
                            None => {},
                        }
                    },
                    None => {},
                }
            }
        },
        None => {},
    }
}

proof fn lemma_take_some_fields(b: Seq<u8>, off: int, fs: Named)
    requires
        at(b, off, some_fields_bytes(fs)),
        fields_fit(fs),
    ensures
        take_some_fields(b, off, fs.len() as int) == Some((fs, off + some_fields_bytes(fs).len())),
    decreases fs.len(),
{
    if fs.len() == 0 {
        assert(fs =~= Seq::empty());
    } else {
        let t = fs.drop_last();
        assert forall|i: int| 0 <= i < t.len() implies encode_utf8((#[trigger] t[i]).0).len()
            <= u64::MAX && value_fits(t[i].1) by {
            assert(t[i] == fs[i]);
        }
        assert(fs.last() == fs[fs.len() - 1]);
        lemma_at_split(b, off, some_fields_bytes(t), field_bytes(fs.last()));
        lemma_take_some_fields(b, off, t);
        lemma_take_field(b, off + some_fields_bytes(t).len(), fs.last());
        lemma_take_last(b, off, fs.len() as int);
        assert(t.push(fs.last()) =~= fs);
    }
}

pub proof fn lemma_take_fields(b: Seq<u8>, off: int, fs: Named)
    requires
        at(b, off, fields_bytes(fs)),
        fields_fit(fs),
    ensures
        take_fields(b, off) == Some((fs, off + fields_bytes(fs).len())),
{
    let n = fs.len() as u64;
    lemma_le8(n);
    lemma_at_split(b, off, le8(n), some_fields_bytes(fs));
    lemma_take8(b, off, n);
    lemma_take_some_fields(b, off + 8, fs);
}

/// An operation is read back from its encoding, whatever follows it.
pub proof fn encoded_record_reads_back(op: Operation, more: Seq<u8>)
    requires
        fits(op),
    ensures
        take_record(record_bytes(op) + more) == Some(op),
{
    let b = record_bytes(op) + more;
    let e = record_bytes(op);
    assert(b.subrange(0, e.len() as int) =~= e);
    assert(at(b, 0, e));
    match op {
        Operation::Insert { id, vector, meta } => {
            let w = words_bytes(vector);
            let f = fields_bytes(meta);
            lemma_le4(0);
            lemma_le8(id);
            lemma_at_split(b, 0, le4(0) + le8(id) + w, f);
            lemma_at_split(b, 0, le4(0) + le8(id), w);
            lemma_at_split(b, 0, le4(0), le8(id));
            lemma_take4(b, 0, 0);
            lemma_take8(b, 4, id);
            lemma_take_words(b, 12, vector);
            lemma_take_fields(b, 12 + w.len() as int, meta);
        },
        Operation::Delete { id } => {
            lemma_le4(1);
            lemma_le8(id);
            lemma_at_split(b, 0, le4(1), le8(id));
            lemma_take4(b, 0, 1);
            lemma_take8(b, 4, id);
        },
    }
}

/// Calls `bincode::serialize` on a `u32`. Trusted: it succeeds and gives the
/// four little-endian bytes.
#[verifier::external_body]
fn serialize_u32(x: u32) -> (r: Result<Vec<u8>, bincode::Error>)
    ensures
        r is Ok,
        r->Ok_0@ == le4(x),
{
    bincode::serialize(&x)
}

/// Calls `bincode::serialize` on a `u64`. Trusted: it succeeds and gives the
/// eight little-endian bytes.
#[verifier::external_body]
fn serialize_u64(x: u64) -> (r: Result<Vec<u8>, bincode::Error>)
    ensures
        r is Ok,
        r->Ok_0@ == le8(x),
{
    bincode::serialize(&x)
}

/// Calls `bincode::serialize` on a `bool`. Trusted: it succeeds and gives one
/// byte, 0 or 1.
#[verifier::external_body]
fn serialize_bool(x: bool) -> (r: Result<Vec<u8>, bincode::Error>)
    ensures
        r is Ok,
        r->Ok_0@ == flag_bytes(x),
{
    bincode::serialize(&x)
}

/// Calls `bincode::serialize` on a `String`. Trusted: it succeeds and gives the
/// length in eight bytes and the UTF-8 bytes.
#[verifier::external_body]
fn serialize_text(s: &String) -> (r: Result<Vec<u8>, bincode::Error>)
    ensures
        r is Ok,
        r->Ok_0@ == text_bytes(s@),
{
    bincode::serialize(s)
}

/// Calls `bincode::serialize` on a `Vec<u32>`. Trusted: it succeeds and gives
/// the count in eight bytes and four bytes of each number.
#[verifier::external_body]
fn serialize_words(v: &Vec<u32>) -> (r: Result<Vec<u8>, bincode::Error>)
    ensures
        r is Ok,
        r->Ok_0@ == words_bytes(v@),
{
    bincode::serialize(v)
}

/// Calls `bincode::deserialize` for a `u32`. Trusted: it succeeds where four
/// bytes are left and reads them as a little-endian number; what follows is
/// not looked at. What it says where there are fewer has a name.
#[verifier::external_body]
fn deserialize_u32(b: &[u8], off: usize) -> (r: Result<u32, String>)
    requires
        off <= b@.len(),
    ensures
        take4(b@, off as int) == (match r {
            Ok(x) => Some((x, off + 4)),
            Err(_) => None,
        }),
        r matches Err(e) ==> e@ == u32_fault(b@.skip(off as int)),
{
    match bincode::deserialize(&b[off..]) {
        Ok(x) => Ok(x),
        Err(e) => Err(e.to_string()),
    }
}

/// Calls `bincode::deserialize` for a `u64`. Trusted: it succeeds where eight
/// bytes are left and reads them as a little-endian number; what follows is
/// not looked at. What it says where there are fewer has a name.
#[verifier::external_body]
fn deserialize_u64(b: &[u8], off: usize) -> (r: Result<u64, String>)
    requires
        off <= b@.len(),
    ensures
        take8(b@, off as int) == (match r {
            Ok(x) => Some((x, off + 8)),
            Err(_) => None,
        }),
        r matches Err(e) ==> e@ == u64_fault(b@.skip(off as int)),
{
    match bincode::deserialize(&b[off..]) {
        Ok(x) => Ok(x),
        Err(e) => Err(e.to_string()),
    }
}

/// Calls `bincode::deserialize` for a `bool`. Trusted: it succeeds where a byte
/// 0 or 1 is next; what follows is not looked at. Otherwise the error gives the
/// byte; what it says where there is none has a name.
#[verifier::external_body]
fn deserialize_bool(b: &[u8], off: usize) -> (r: Result<bool, String>)
    requires
        off <= b@.len(),
    ensures
        take_flag(b@, off as int) == (match r {
            Ok(x) => Some((x, off + 1)),
            Err(_) => None,
        }),
        r matches Err(e) ==> e@ == (if off < b@.len() {
            "invalid u8 while decoding bool, expected 0 or 1, found "@ + decimal(
                b@[off as int] as int,
            )
        } else {
            bool_fault(b@.skip(off as int))
        }),
{
    match bincode::deserialize(&b[off..]) {
        Ok(x) => Ok(x),
        Err(e) => Err(e.to_string()),
    }
}

/// Calls `bincode::deserialize` for a `String`. Trusted: it succeeds where a
/// length and that many bytes of valid UTF-8 are next, and gives the text that
/// the bytes encode; what follows is not looked at. What it says of other bytes
/// has a name.
#[verifier::external_body]
fn deserialize_text(b: &[u8], off: usize) -> (r: Result<String, String>)
    requires
        off <= b@.len(),
    ensures
        match r {
            Ok(s) => take_text(b@, off as int) == Some((s@, off + text_bytes(s@).len())),
            Err(e) => take_text(b@, off as int) is None && e@ == string_fault(b@.skip(off as int)),
        },
{
    match bincode::deserialize(&b[off..]) {
        Ok(x) => Ok(x),
        Err(e) => Err(e.to_string()),
    }
}

/// Calls `bincode::deserialize` for a `Vec<u32>`. Trusted: it succeeds where a
/// count and four bytes for each number are next; what follows is not looked
/// at.
#[verifier::external_body]
fn deserialize_words(b: &[u8], off: usize) -> (r: Result<Vec<u32>, bincode::Error>)
    requires
        off <= b@.len(),
    ensures
        match r {
            Ok(v) => take_words(b@, off as int) == Some((v@, off + 8 + 4 * v@.len())),
            Err(_) => take_words(b@, off as int) is None,
        },
{
    bincode::deserialize(&b[off..])
}

fn push_number4(buf: &mut Vec<u8>, x: u32)
    ensures
        final(buf)@ == old(buf)@ + le4(x),
{
    if let Ok(b) = serialize_u32(x) {
        push_all(buf, b.as_slice());
    }
}

fn push_number8(buf: &mut Vec<u8>, x: u64)
    ensures
        final(buf)@ == old(buf)@ + le8(x),
{
    if let Ok(b) = serialize_u64(x) {
        push_all(buf, b.as_slice());
    }
}

fn push_text(buf: &mut Vec<u8>, s: &String)
    ensures
        final(buf)@ == old(buf)@ + text_bytes(s@),
        encode_utf8(s@).len() <= u64::MAX,
{
    if let Ok(b) = serialize_text(s) {
        let n: usize = b.len();
        push_all(buf, b.as_slice());
    }
}

fn push_value(buf: &mut Vec<u8>, v: &MetaValue)
    ensures
        final(buf)@ == old(buf)@ + value_bytes(v@),
        value_fits(v@),
{
    let ghost before = buf@;
    match v {
        MetaValue::Bool(x) => {
            push_number4(buf, 0);
            if let Ok(b) = serialize_bool(*x) {
                push_all(buf, b.as_slice());
            }
        },
        MetaValue::Int(x) => {
            push_number4(buf, 1);
            push_number8(buf, *x as u64);
        },
        MetaValue::Float(x) => {
            push_number4(buf, 2);
            push_number8(buf, *x);
        },
        MetaValue::Str(s) => {
            push_number4(buf, 3);
            push_text(buf, s);
        },
    }
    assert(buf@ =~= before + value_bytes(v@));
}

/// Appends the encoding of named values.
pub fn push_fields(buf: &mut Vec<u8>, fields: &Vec<(String, MetaValue)>)
    ensures
        final(buf)@ == old(buf)@ + fields_bytes(fields_view(fields@)),
        fields_fit(fields_view(fields@)),
{
    let ghost before = buf@;
    let ghost fs = fields_view(fields@);
    let n: usize = fields.len();
    push_number8(buf, n as u64);
    let mut i: usize = 0;
    assert(some_fields_bytes(fs.take(0)) =~= Seq::empty());
    while i < n
        invariant
            i <= n == fields@.len(),
            fs == fields_view(fields@),
            buf@ =~= before + le8(n as u64) + some_fields_bytes(fs.take(i as int)),
            forall|j: int|
                0 <= j < i ==> encode_utf8((#[trigger] fs[j]).0).len() <= u64::MAX && value_fits(
                    fs[j].1,
                ),
        decreases n - i,
    {
        push_text(buf, &fields[i].0);
        push_value(buf, &fields[i].1);
        proof {
            assert(fs.take(i + 1).drop_last() =~= fs.take(i as int));
            assert(fs.take(i + 1).last() == fs[i as int]);
            assert(fs[i as int] == (fields@[i as int].0@, fields@[i as int].1@));
        }
        i = i + 1;
    }
    assert(fs.take(n as int) =~= fs);
    assert(buf@ =~= before + fields_bytes(fs));
}

/// Appends an id.
pub fn push_id(buf: &mut Vec<u8>, id: u64)
    ensures
        final(buf)@ == old(buf)@ + le8(id),
{
    push_number8(buf, id);
}

/// Appends a count.
pub fn push_count(buf: &mut Vec<u8>, n: usize)
    ensures
        final(buf)@ == old(buf)@ + le8(n as u64),
{
    push_number8(buf, n as u64);
}

/// The encoding of a record.
pub fn encode_record(rec: &WalRecord) -> (b: Vec<u8>)
    ensures
        b@ == record_bytes(rec@),
        fits(rec@),
{
    let mut buf: Vec<u8> = Vec::new();
    match rec {
        WalRecord::Insert { id, vector, meta } => {
            let n: usize = vector.len();
            push_number4(&mut buf, 0);
            push_number8(&mut buf, *id);
            if let Ok(b) = serialize_words(vector) {
                push_all(&mut buf, b.as_slice());
            }
            push_fields(&mut buf, meta);
        },
        WalRecord::Delete { id } => {
            push_number4(&mut buf, 1);
            push_number8(&mut buf, *id);
        },
    }
    assert(buf@ =~= record_bytes(rec@));
    buf
}

fn read_value(b: &[u8], off: usize) -> (r: Result<(MetaValue, usize), String>)
    requires
        off <= b@.len(),
    ensures
        match r {
            Ok((v, e)) => take_value(b@, off as int) == Some((v@, e as int)) && e <= b@.len(),
            Err(why) => take_value(b@, off as int) is None && why@ == value_fault(b@, off as int),
        },
{
    let total: usize = b.len();
    match deserialize_u32(b, off) {
        Ok(0) => match deserialize_bool(b, off + 4) {
            Ok(x) => Ok((MetaValue::Bool(x), off + 5)),
            Err(e) => Err(e),
        },
        Ok(1) => match deserialize_u64(b, off + 4) {
            Ok(x) => Ok((MetaValue::Int(x as i64), off + 12)),
            Err(e) => Err(e),
        },
        Ok(2) => match deserialize_u64(b, off + 4) {
            Ok(x) => Ok((MetaValue::Float(x), off + 12)),
            Err(e) => Err(e),
        },
        Ok(3) => match read_text(b, off + 4) {
            Ok((s, e)) => Ok((MetaValue::Str(s), e)),
            Err(e) => Err(e),
        },
        Ok(tag) => Err(variant_message(tag, 4)),
        Err(e) => Err(e),
    }
}

fn read_text(b: &[u8], off: usize) -> (r: Result<(String, usize), String>)
    requires
        off <= b@.len(),
    ensures
        match r {
            Ok((s, e)) => take_text(b@, off as int) == Some((s@, e as int)) && e <= b@.len(),
            Err(why) => take_text(b@, off as int) is None && why@ == string_fault(
                b@.skip(off as int),
            ),
        },
{
    let total: usize = b.len();
    match deserialize_text(b, off) {
        Ok(s) => match deserialize_u64(b, off) {
            Ok(n) => Ok((s, off + 8 + n as usize)),
            Err(e) => Err(e),
        },
        Err(e) => Err(e),
    }
}

/// What is left to read, behind what has been read.
pub open spec fn behind(acc: Named, rest: Taken<Named>) -> Taken<Named> {
    match rest {
        Some((fs, e)) => Some((acc + fs, e)),
        None => None,
    }
}

/// Reads named values.
pub fn read_fields(b: &[u8], off: usize) -> (r: Result<(MetaRepr, usize), String>)
    requires
        off <= b@.len(),
    ensures
        match r {
            Ok((fs, e)) => take_fields(b@, off as int) == Some((fields_view(fs@), e as int)) && e
                <= b@.len(),
            Err(why) => take_fields(b@, off as int) is None && why@ == fields_fault(b@, off as int),
        },
{
    let total: usize = b.len();
    let n: u64 = match deserialize_u64(b, off) {
        Ok(n) => n,
        Err(e) => {
            return Err(e);
        },
    };
    let mut fields: MetaRepr = Vec::new();
    let mut at_byte: usize = off + 8;
    let mut i: u64 = 0;
    let ghost all = take_fields(b@, off as int);
    assert(fields_view(fields@) =~= Seq::empty());
    assert(behind(Seq::empty(), all) == all) by {
        match all {
            Some((fs, e)) => {
                assert(Seq::empty() + fs =~= fs);
            },
            None => {},
        }
    }
    while i < n
        invariant
            i <= n,
            at_byte <= b@.len(),
            all == take_fields(b@, off as int),
            all == behind(
                fields_view(fields@),
                take_some_fields(b@, at_byte as int, n - i),
            ),
            fields_fault(b@, off as int) == some_fields_fault(b@, at_byte as int, n - i),
        decreases n - i,
    {
        let ghost before = fields@;
        match read_text(b, at_byte) {
            Ok((name, o)) => match read_value(b, o) {
                Ok((v, e)) => {
                    let ghost f = (name@, v@);
                    fields.push((name, v));
                    proof {
                        assert(fields_view(fields@) =~= fields_view(before).push(f));
                        match take_some_fields(b@, e as int, n - i - 1) {
                            Some((fs, _)) => {
                                assert(fields_view(before) + (seq![f] + fs) =~= fields_view(
                                    before,
                                ).push(f) + fs);
                            },
                            None => {},
                        }
                    }
                    at_byte = e;
                },
                Err(why) => {
                    return Err(why);
                },
            },
            Err(why) => {
                return Err(why);
            },
        }
        i = i + 1;
    }
    assert(fields_view(fields@) + Seq::empty() =~= fields_view(fields@));
    Ok((fields, at_byte))
}

/// Reads an id or a count.
pub fn read_number(b: &[u8], off: usize) -> (r: Result<u64, String>)
    requires
        off <= b@.len(),
    ensures
        match r {
            Ok(x) => take8(b@, off as int) == Some((x, off + 8)),
            Err(why) => take8(b@, off as int) is None && why@ == u64_fault(b@.skip(off as int)),
        },
{
    deserialize_u64(b, off)
}

/// Reads a record.
pub fn decode_record(b: &[u8]) -> (r: Option<WalRecord>)
    ensures
        take_record(b@) == (match r {
            Some(rec) => Some(rec@),
            None => None,
        }),
{
    let total: usize = b.len();
    match deserialize_u32(b, 0) {
        Ok(0) => match deserialize_u64(b, 4) {
            Ok(id) => match deserialize_words(b, 12) {
                Ok(vector) => {
                    let end: usize = 20 + 4 * vector.len();
                    match read_fields(b, end) {
                        Ok((meta, _)) => Some(WalRecord::Insert { id, vector, meta }),
                        Err(_) => None,
                    }
                },
                Err(_) => None,
            },
            Err(_) => None,
        },
        Ok(1) => match deserialize_u64(b, 4) {
            Ok(id) => Some(WalRecord::Delete { id }),
            Err(_) => None,
        },
        _ => None,
    }
}

} // verus!
