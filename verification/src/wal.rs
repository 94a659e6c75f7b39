//! The write-ahead log: every operation goes to the log first, to memory after.
//!
//! A record is framed as `[length: 4][checksum of the payload: 4][payload]`.
//! Reading a log stops at the first inconsistency: a truncated frame, an
//! implausible length, a checksum that does not match, a payload that cannot be
//! decoded. What follows is dropped and the file is cut there, so that the next
//! append continues an intact log. No operation is ever made up.

use vstd::prelude::*;
use vstd::slice::slice_subrange;
use vstd::string::StringExecFns;
use crate::codec::{crc32, crc32_of, le4, le_value, lemma_le4, push_all, push_u32, read_u32};
use crate::meta::{fields_view, Metadata};
use crate::record::{
    decode_record, encode_record, encoded_record_reads_back, fits, record_bytes, take_record,
    Operation,
};
use crate::text::{
    decimal, decimal_reads_back, number_of, parse_number, push_decimal, same_text, starts_with,
};
use crate::types::VectorId;

pub use crate::record::{MetaRepr, WalRecord};

verus! {

/// Upper bound for a payload, so that a damaged length cannot ask for gigabytes.
pub const MAX_RECORD_BYTES: u32 = 0x0400_0000;

/// When the log is forced to disk.
#[derive(Debug, Clone, Copy, PartialEq, Eq, Structural)]
pub enum SyncPolicy {
    /// Never: a record survives the process, not the machine.
    NoSync,
    /// After every record.
    PerOp,
    /// Records of a time window share one forced write.
    Group { window_ms: u64 },
}

/// The policy that a text names.
pub open spec fn policy_of(s: Seq<char>) -> Option<SyncPolicy> {
    if s == "none"@ {
        Some(SyncPolicy::NoSync)
    } else if s == "per_op"@ || s == "per-op"@ {
        Some(SyncPolicy::PerOp)
    } else if s.len() >= 6 && s.take(6) == "group:"@ {
        match number_of(s.skip(6)) {
            Some(ms) => Some(SyncPolicy::Group { window_ms: ms }),
            None => None,
        }
    } else {
        None
    }
}

pub open spec fn policy_label(p: SyncPolicy) -> Seq<char> {
    match p {
        SyncPolicy::NoSync => "none"@,
        SyncPolicy::PerOp => "per_op"@,
        SyncPolicy::Group { window_ms } => "group:"@ + decimal(window_ms as int),
    }
}

/// A policy's label names the policy.
pub proof fn label_parses_back(p: SyncPolicy)
    ensures
        policy_of(policy_label(p)) == Some(p),
{
    reveal_strlit("none");
    reveal_strlit("per_op");
    reveal_strlit("per-op");
    reveal_strlit("group:");
    match p {
        SyncPolicy::NoSync => {},
        SyncPolicy::PerOp => {
            assert("per_op"@[0] != "none"@[0]);
        },
        SyncPolicy::Group { window_ms } => {
            let s = policy_label(p);
            assert(s[0] == 'g');
            assert(s.take(6) =~= "group:"@);
            assert(s.skip(6) =~= decimal(window_ms as int));
            decimal_reads_back(window_ms as int);
            assert("none"@[0] == 'n');
            assert("per_op"@[0] == 'p');
            assert("per-op"@[0] == 'p');
        },
    }
}

impl SyncPolicy {
    /// Reads `none`, `per_op`, `per-op` or `group:` and a number of
    /// milliseconds.
    pub fn parse(s: &str) -> (r: Option<SyncPolicy>)
        ensures
            r == policy_of(s@),
    {
        proof {
            reveal_strlit("group:");
        }
        if same_text(s, "none") {
            return Some(SyncPolicy::NoSync);
        }
        if same_text(s, "per_op") || same_text(s, "per-op") {
            return Some(SyncPolicy::PerOp);
        }
        if starts_with(s, "group:") {
            match parse_number(s, 6) {
                Some(window_ms) => Some(SyncPolicy::Group { window_ms }),
                None => None,
            }
        } else {
            None
        }
    }

    pub fn label(&self) -> (s: String)
        ensures
            s@ == policy_label(*self),
    {
        match self {
            SyncPolicy::NoSync => String::from_str("none"),
            SyncPolicy::PerOp => String::from_str("per_op"),
            SyncPolicy::Group { window_ms } => {
                let mut s: String = String::from_str("group:");
                push_decimal(&mut s, *window_ms);
                s
            },
        }
    }
}

impl WalRecord {
    /// The record of an insertion.
    pub fn insert(id: VectorId, vector: &[u32], meta: &Metadata) -> (r: WalRecord)
        ensures
            r@ == (Operation::Insert { id: id.0, vector: vector@, meta: meta@ }),
    {
        let mut copy: Vec<u32> = Vec::with_capacity(vector.len());
        let mut i: usize = 0;
        while i < vector.len()
            invariant
                i <= vector@.len(),
                copy@ == vector@.take(i as int),
            decreases vector@.len() - i,
        {
            copy.push(vector[i]);
            i = i + 1;
            assert(vector@.take(i as int) =~= vector@.take(i - 1).push(vector@[i - 1]));
        }
        assert(vector@.take(i as int) =~= vector@);
        WalRecord::Insert { id: id.0, vector: copy, meta: meta.to_fields() }
    }

    /// The record of a deletion.
    pub fn delete(id: VectorId) -> (r: WalRecord)
        ensures
            r@ == (Operation::Delete { id: id.0 }),
    {
        WalRecord::Delete { id: id.0 }
    }
}

/// The metadata of a record.
pub fn record_meta(meta: MetaRepr) -> (m: Metadata)
    ensures
        m.wf(),
        m@ == crate::meta::collected(fields_view(meta@)),
{
    Metadata::collect(meta)
}

pub open spec fn frame_bytes(payload: Seq<u8>) -> Seq<u8> {
    le4(payload.len() as u32) + le4(crc32_of(payload)) + payload
}

/// The frame of a record, or nothing where the record exceeds the size limit.
pub fn frame(rec: &WalRecord) -> (r: Option<Vec<u8>>)
    ensures
        fits(rec@),
        match r {
            Some(b) => record_bytes(rec@).len() <= MAX_RECORD_BYTES && b@ == frame_bytes(
                record_bytes(rec@),
            ),
            None => record_bytes(rec@).len() > MAX_RECORD_BYTES,
        },
{
    let payload: Vec<u8> = encode_record(rec);
    if payload.len() > MAX_RECORD_BYTES as usize {
        return None;
    }
    let mut b: Vec<u8> = Vec::with_capacity(payload.len() + 8);
    push_u32(&mut b, payload.len() as u32);
    push_u32(&mut b, crc32(payload.as_slice()));
    push_all(&mut b, payload.as_slice());
    assert(b@ =~= frame_bytes(payload@));
    Some(b)
}

/// What reading a log gave: how many records, where the intact part ends, and
/// why reading stopped there.
#[derive(Debug, PartialEq, Eq)]
pub struct ReplayReport {
    pub applied: usize,
    pub bytes_ok: u64,
    /// Where the intact part ends, if anything follows it.
    pub truncated_at: Option<u64>,
    pub reason: Option<String>,
}

impl ReplayReport {
    /// The report of a log that does not exist.
    pub fn empty() -> (r: Self)
        ensures
            r.applied == 0,
            r.bytes_ok == 0,
            r.truncated_at is None,
            r.reason is None,
    {
        ReplayReport { applied: 0, bytes_ok: 0, truncated_at: None, reason: None }
    }
}

/// Reading as a value.
#[verifier::ext_equal]
pub ghost struct Replay {
    pub records: Seq<Operation>,
    pub end: int,
    pub reason: Option<Seq<char>>,
}

pub open spec fn stopped(end: int, reason: Seq<char>) -> Replay {
    Replay { records: Seq::empty(), end, reason: Some(reason) }
}

/// What the log holds from the offset on.
pub open spec fn replayed(b: Seq<u8>, off: int) -> Replay
    decreases b.len() - off,
{
    if off >= b.len() {
        Replay { records: Seq::empty(), end: off, reason: None }
    } else if b.len() - off < 8 {
        stopped(off, "truncated record header"@)
    } else {
        let len = le_value(b.subrange(off, off + 4)) as u32;
        let crc = le_value(b.subrange(off + 4, off + 8)) as u32;
        let end = off + 8 + len;
        if len == 0 || len > MAX_RECORD_BYTES {
            stopped(off, "implausible record length"@)
        } else if end > b.len() {
            stopped(off, "truncated record body"@)
        } else if crc32_of(b.subrange(off + 8, end)) != crc {
            stopped(off, "crc mismatch"@)
        } else {
            match take_record(b.subrange(off + 8, end)) {
                None => stopped(off, "record could not be decoded"@),
                Some(op) => {
                    let rest = replayed(b, end);
                    Replay { records: seq![op] + rest.records, ..rest }
                },
            }
        }
    }
}

pub open spec fn records_view(records: Seq<WalRecord>) -> Seq<Operation> {
    Seq::new(records.len(), |i: int| records[i]@)
}

/// The report of a reading.
pub open spec fn reported(r: Replay, report: ReplayReport) -> bool {
    &&& report.applied == r.records.len()
    &&& report.bytes_ok == r.end
    &&& match r.reason {
        None => report.truncated_at is None && report.reason is None,
        Some(why) => {
            &&& report.truncated_at == Some(r.end as u64)
            &&& report.reason matches Some(s) && s@ == why
        },
    }
}

/// Reads a log.
pub fn replay_bytes(bytes: &[u8]) -> (r: (Vec<WalRecord>, ReplayReport))
    ensures
        records_view(r.0@) == replayed(bytes@, 0).records,
        reported(replayed(bytes@, 0), r.1),
{
    let total: usize = bytes.len();
    let ghost all = replayed(bytes@, 0);
    let mut out: Vec<WalRecord> = Vec::new();
    let mut off: usize = 0;
    assert(records_view(out@) + all.records =~= all.records);
    while off < total
        invariant
            off <= total == bytes@.len(),
            out@.len() <= off,
            all == replayed(bytes@, 0),
            all.records == records_view(out@) + replayed(bytes@, off as int).records,
            all.end == replayed(bytes@, off as int).end,
            all.reason == replayed(bytes@, off as int).reason,
        decreases total - off,
    {
        if total - off < 8 {
            return cut_off(out, off, "truncated record header", Ghost(bytes@));
        }
        let len: u32 = read_u32(bytes, off);
        let crc: u32 = read_u32(bytes, off + 4);
        if len == 0 || len > MAX_RECORD_BYTES {
            return cut_off(out, off, "implausible record length", Ghost(bytes@));
        }
        if len as usize > total - off - 8 {
            return cut_off(out, off, "truncated record body", Ghost(bytes@));
        }
        let end: usize = off + 8 + len as usize;
        let payload: &[u8] = slice_subrange(bytes, off + 8, end);
        assert(payload@ =~= bytes@.subrange(off + 8, end as int));
        if crc32(payload) != crc {
            return cut_off(out, off, "crc mismatch", Ghost(bytes@));
        }
        match decode_record(payload) {
            Some(rec) => {
                let ghost before = out@;
                let ghost rest = replayed(bytes@, end as int).records;
                let ghost op = rec@;
                out.push(rec);
                assert(records_view(out@) =~= records_view(before).push(op));
                assert(records_view(before) + (seq![op] + rest) =~= records_view(out@) + rest);
                off = end;
            },
            None => {
                return cut_off(out, off, "record could not be decoded", Ghost(bytes@));
            },
        }
    }
    assert(records_view(out@) + Seq::empty() =~= records_view(out@));
    let report = ReplayReport {
        applied: out.len(),
        bytes_ok: off as u64,
        truncated_at: None,
        reason: None,
    };
    (out, report)
}

fn cut_off(out: Vec<WalRecord>, off: usize, reason: &str, Ghost(b): Ghost<Seq<u8>>) -> (r: (
    Vec<WalRecord>,
    ReplayReport,
))
    requires
        replayed(b, off as int) == stopped(off as int, reason@),
        replayed(b, 0).records == records_view(out@) + replayed(b, off as int).records,
        replayed(b, 0).end == off,
        replayed(b, 0).reason == Some(reason@),
    ensures
        records_view(r.0@) == replayed(b, 0).records,
        reported(replayed(b, 0), r.1),
{
    assert(records_view(out@) + Seq::empty() =~= records_view(out@));
    let report = ReplayReport {
        applied: out.len(),
        bytes_ok: off as u64,
        truncated_at: Some(off as u64),
        reason: Some(String::from_str(reason)),
    };
    (out, report)
}

/// The frames of some operations, one behind the other.
pub open spec fn log_bytes(ops: Seq<Operation>) -> Seq<u8>
    decreases ops.len(),
{
    if ops.len() == 0 {
        Seq::empty()
    } else {
        log_bytes(ops.drop_last()) + frame_bytes(record_bytes(ops.last()))
    }
}

/// An operation that can be logged.
pub open spec fn loggable(op: Operation) -> bool {
    fits(op) && record_bytes(op).len() <= MAX_RECORD_BYTES
}

proof fn lemma_replayed_bounds(b: Seq<u8>, off: int)
    requires
        0 <= off <= b.len(),
    ensures
        off <= replayed(b, off).end <= b.len(),
        replayed(b, off).reason is None ==> replayed(b, off).end == b.len(),
    decreases b.len() - off,
{
    if off < b.len() && b.len() - off >= 8 {
        let len = le_value(b.subrange(off, off + 4)) as u32;
        let end = off + 8 + len;
        if end <= b.len() {
            lemma_replayed_bounds(b, end);
        }
    }
}

/// Reading `b` up to its end goes on with what follows `b`.
proof fn lemma_replayed_extend(b: Seq<u8>, c: Seq<u8>, off: int)
    requires
        0 <= off <= b.len(),
        replayed(b, off).reason is None,
    ensures
        replayed(b + c, off) == (Replay {
            records: replayed(b, off).records + replayed(b + c, b.len() as int).records,
            ..replayed(b + c, b.len() as int)
        }),
    decreases b.len() - off,
{
    let w = b + c;
    if off < b.len() {
        assert(w.subrange(off, off + 4) =~= b.subrange(off, off + 4));
        assert(w.subrange(off + 4, off + 8) =~= b.subrange(off + 4, off + 8));
        let len = le_value(b.subrange(off, off + 4)) as u32;
        let end = off + 8 + len;
        assert(w.subrange(off + 8, end) =~= b.subrange(off + 8, end));
        lemma_replayed_extend(b, c, end);
        let op = take_record(b.subrange(off + 8, end))->0;
        assert(replayed(w, off).records == seq![op] + replayed(w, end).records);
        assert(replayed(w, off).records =~= replayed(b, off).records + replayed(
            w,
            b.len() as int,
        ).records);
    } else {
        assert(replayed(w, off).records =~= replayed(b, off).records + replayed(w, off).records);
    }
}

/// A frame at the end of a log is read, and the log ends there.
proof fn lemma_replayed_frame(b: Seq<u8>, op: Operation)
    requires
        loggable(op),
    ensures
        replayed(b + frame_bytes(record_bytes(op)), b.len() as int) == (Replay {
            records: seq![op],
            end: (b + frame_bytes(record_bytes(op))).len() as int,
            reason: None,
        }),
{
    let payload = record_bytes(op);
    let n = payload.len() as u32;
    let f = frame_bytes(payload);
    let w = b + f;
    let off = b.len() as int;
    lemma_le4(n);
    lemma_le4(crc32_of(payload));
    lemma_le4(0);
    lemma_le4(1);
    assert(payload.len() >= 4);
    assert(w.subrange(off, off + 4) =~= le4(n));
    assert(w.subrange(off + 4, off + 8) =~= le4(crc32_of(payload)));
    assert(w.subrange(off + 8, off + 8 + n) =~= payload);
    encoded_record_reads_back(op, Seq::empty());
    assert(payload + Seq::empty() =~= payload);
    assert(replayed(w, w.len() as int).records =~= Seq::empty());
    assert(seq![op] + Seq::empty() =~= seq![op]);
}

/// An operation appended to an intact log is read back behind what was there.
pub proof fn appended_record_replays(b: Seq<u8>, op: Operation)
    requires
        loggable(op),
        replayed(b, 0).reason is None,
    ensures
        replayed(b + frame_bytes(record_bytes(op)), 0) == (Replay {
            records: replayed(b, 0).records.push(op),
            end: (b + frame_bytes(record_bytes(op))).len() as int,
            reason: None,
        }),
{
    let f = frame_bytes(record_bytes(op));
    lemma_replayed_extend(b, f, 0);
    lemma_replayed_frame(b, op);
    assert(replayed(b, 0).records + seq![op] =~= replayed(b, 0).records.push(op));
}

/// A log gives back exactly the operations that were written to it.
pub proof fn written_log_replays(ops: Seq<Operation>)
    requires
        forall|i: int| 0 <= i < ops.len() ==> loggable(#[trigger] ops[i]),
    ensures
        replayed(log_bytes(ops), 0) == (Replay {
            records: ops,
            end: log_bytes(ops).len() as int,
            reason: None,
        }),
    decreases ops.len(),
{
    if ops.len() == 0 {
        assert(replayed(log_bytes(ops), 0).records =~= ops);
    } else {
        let t = ops.drop_last();
        assert forall|i: int| 0 <= i < t.len() implies loggable(#[trigger] t[i]) by {
            assert(t[i] == ops[i]);
        }
        assert(ops.last() == ops[ops.len() - 1]);
        written_log_replays(t);
        appended_record_replays(log_bytes(t), ops.last());
        assert(t.push(ops.last()) =~= ops);
    }
}

/// Where the frame at the offset ends.
spec fn frame_end(b: Seq<u8>, off: int) -> int {
    off + 8 + le_value(b.subrange(off, off + 4)) as u32
}

/// An intact frame stands at the offset.
spec fn intact(b: Seq<u8>, off: int) -> bool {
    &&& off + 8 <= b.len()
    &&& 8 < frame_end(b, off) - off <= 8 + MAX_RECORD_BYTES
    &&& frame_end(b, off) <= b.len()
    &&& crc32_of(b.subrange(off + 8, frame_end(b, off))) == le_value(
        b.subrange(off + 4, off + 8),
    ) as u32
    &&& take_record(b.subrange(off + 8, frame_end(b, off))) is Some
}

proof fn lemma_replayed_cases(b: Seq<u8>, off: int)
    requires
        0 <= off < b.len(),
    ensures
        intact(b, off) ==> {
            let rest = replayed(b, frame_end(b, off));
            &&& replayed(b, off).records == seq![
                take_record(b.subrange(off + 8, frame_end(b, off)))->0,
            ] + rest.records
            &&& replayed(b, off).end == rest.end
            &&& replayed(b, off).reason == rest.reason
        },
        !intact(b, off) ==> replayed(b, off).records.len() == 0 && replayed(b, off).end == off
            && replayed(b, off).reason is Some,
{
}

proof fn lemma_intact_cut(b: Seq<u8>, n: int, off: int)
    requires
        0 <= off < n <= b.len(),
    ensures
        intact(b.take(n), off) <==> intact(b, off) && frame_end(b, off) <= n,
        intact(b.take(n), off) ==> frame_end(b.take(n), off) == frame_end(b, off) && b.take(
            n,
        ).subrange(off + 8, frame_end(b, off)) == b.subrange(off + 8, frame_end(b, off)),
{
    let c = b.take(n);
    if off + 8 <= n {
        assert(c.subrange(off, off + 4) =~= b.subrange(off, off + 4));
        assert(c.subrange(off + 4, off + 8) =~= b.subrange(off + 4, off + 8));
        let end = frame_end(b, off);
        if end <= n && off + 8 <= end {
            assert(c.subrange(off + 8, end) =~= b.subrange(off + 8, end));
        }
    }
}

proof fn lemma_cut(b: Seq<u8>, n: int, off: int)
    requires
        0 <= off <= n <= b.len(),
    ensures
        replayed(b.take(n), off).records.is_prefix_of(replayed(b, off).records),
        n == replayed(b, off).end ==> replayed(b.take(n), off) == (Replay {
            records: replayed(b, off).records,
            end: n,
            reason: None,
        }),
    decreases b.len() - off,
{
    let c = b.take(n);
    lemma_replayed_bounds(b, off);
    if off < n {
        lemma_replayed_cases(b, off);
        lemma_replayed_cases(c, off);
        lemma_intact_cut(b, n, off);
        let end = frame_end(b, off);
        if intact(c, off) {
            lemma_cut(b, n, end);
        } else if intact(b, off) {
            lemma_replayed_bounds(b, end);
        }
    } else {
        assert(replayed(c, off).records =~= Seq::empty());
        if off < b.len() {
            lemma_replayed_cases(b, off);
            if intact(b, off) {
                lemma_replayed_bounds(b, frame_end(b, off));
            }
        }
        if n == replayed(b, off).end {
            assert(replayed(b, off).records =~= Seq::empty());
        }
    }
}

/// However a log is cut short, reading it gives the first of its operations
/// and no others.
pub proof fn cut_log_gives_a_prefix(b: Seq<u8>, n: int)
    requires
        0 <= n <= b.len(),
    ensures
        replayed(b.take(n), 0).records.is_prefix_of(replayed(b, 0).records),
{
    lemma_cut(b, n, 0);
}

/// A log that was cut where its intact part ends gives the same operations, and
/// nothing is left to cut.
pub proof fn repaired_log_is_clean(b: Seq<u8>)
    ensures
        0 <= replayed(b, 0).end <= b.len(),
        replayed(b.take(replayed(b, 0).end), 0) == (Replay {
            records: replayed(b, 0).records,
            end: replayed(b, 0).end,
            reason: None,
        }),
{
    lemma_replayed_bounds(b, 0);
    lemma_cut(b, replayed(b, 0).end, 0);
}

/// What is left of a log's file when it is cut to a length.
pub open spec fn cut_to(b: Seq<u8>, cut: Option<u64>) -> Seq<u8> {
    match cut {
        Some(n) => b.take(n as int),
        None => b,
    }
}

/// Reads the contents of a log's file; one that does not exist is an empty log.
/// Comes with the length to which the file has to be cut, where something behind
/// the intact part has to go.
pub fn replay(contents: Option<&[u8]>) -> (r: (Vec<WalRecord>, ReplayReport, Option<u64>))
    ensures
        match contents {
            None => r.0@.len() == 0 && r.1.applied == 0 && r.1.bytes_ok == 0
                && r.1.truncated_at is None && r.1.reason is None && r.2 is None,
            Some(b) => {
                let all = replayed(b@, 0);
                &&& records_view(r.0@) == all.records
                &&& reported(all, r.1)
                &&& r.2 == r.1.truncated_at
                &&& cut_to(b@, r.2) == b@.take(all.end)
            },
        },
{
    match contents {
        None => (Vec::new(), ReplayReport::empty(), None),
        Some(b) => {
            let total: usize = b.len();
            let (records, report) = replay_bytes(b);
            proof {
                lemma_replayed_bounds(b@, 0);
                lemma_intact_end(b@, 0);
                assert(b@.take(total as int) =~= b@);
            }
            let cut: Option<u64> = report.truncated_at;
            (records, report, cut)
        },
    }
}

/// A log in which nothing is damaged is intact to its end.
proof fn lemma_intact_end(b: Seq<u8>, off: int)
    requires
        0 <= off <= b.len(),
    ensures
        replayed(b, off).reason is None ==> replayed(b, off).end == b.len(),
    decreases b.len() - off,
{
    if off < b.len() && replayed(b, off).reason is None {
        lemma_intact_end(b, frame_end(b, off));
    }
}

/// A log that has been read once is clean: the file as it is left holds exactly
/// the intact part, and reading it again gives the same operations, with nothing
/// to cut.
pub proof fn replay_leaves_a_clean_log(b: Seq<u8>, cut: Option<u64>)
    requires
        cut_to(b, cut) == b.take(replayed(b, 0).end),
    ensures
        replayed(cut_to(b, cut), 0) == (Replay {
            records: replayed(b, 0).records,
            end: replayed(b, 0).end,
            reason: None,
        }),
        cut_to(b, cut).len() == replayed(b, 0).end,
{
    repaired_log_is_clean(b);
}

/// What to do with the bytes that were handed to the log's file.
#[derive(Debug, Clone, Copy, PartialEq, Eq, Structural)]
pub enum SyncAction {
    /// Leave them buffered.
    Hold,
    /// Hand them to the operating system.
    Flush,
    /// Hand them to the operating system and force them to disk.
    Sync,
}

/// The books of an open log.
#[derive(Debug, Clone, Copy, PartialEq, Eq, Structural)]
pub struct WalState {
    pub policy: SyncPolicy,
    /// Size of the file.
    pub bytes: u64,
    /// Records appended since it was opened.
    pub records: u64,
    /// Are there records that have not been forced to disk?
    pub dirty: bool,
}

impl WalState {
    /// A log opened for appending to a file of the given size.
    pub fn open_append(policy: SyncPolicy, bytes: u64) -> (r: Self)
        ensures
            r == (WalState { policy, bytes, records: 0, dirty: false }),
    {
        WalState { policy, bytes, records: 0, dirty: false }
    }

    /// Accounts for a frame and says what to do with it, when the last forced
    /// write was `elapsed_ms` ago.
    pub fn append(&mut self, frame_len: usize, elapsed_ms: u64) -> (a: SyncAction)
        requires
            old(self).bytes + frame_len <= u64::MAX,
            old(self).records < u64::MAX,
        ensures
            *final(self) == (WalState {
                bytes: (old(self).bytes + frame_len) as u64,
                records: (old(self).records + 1) as u64,
                dirty: true,
                ..*old(self)
            }),
            a == (match old(self).policy {
                SyncPolicy::PerOp => SyncAction::Sync,
                SyncPolicy::Group { window_ms } => if elapsed_ms >= window_ms {
                    SyncAction::Sync
                } else {
                    SyncAction::Hold
                },
                SyncPolicy::NoSync => SyncAction::Flush,
            }),
    {
        self.bytes = self.bytes + frame_len as u64;
        self.records = self.records + 1;
        self.dirty = true;
        match self.policy {
            SyncPolicy::PerOp => SyncAction::Sync,
            SyncPolicy::Group { window_ms } => if elapsed_ms >= window_ms {
                SyncAction::Sync
            } else {
                SyncAction::Hold
            },
            SyncPolicy::NoSync => SyncAction::Flush,
        }
    }

    /// What a requested write to disk takes: a clean log only needs its buffer
    /// flushed.
    pub fn sync(&self) -> (a: SyncAction)
        ensures
            a == (if self.dirty {
                SyncAction::Sync
            } else {
                SyncAction::Flush
            }),
    {
        if self.dirty {
            SyncAction::Sync
        } else {
            SyncAction::Flush
        }
    }

    /// Notes that everything has reached the disk.
    pub fn synced(&mut self)
        ensures
            *final(self) == (WalState { dirty: false, ..*old(self) }),
    {
        self.dirty = false;
    }

    /// Has the window of a group run out with records waiting?
    pub fn sync_if_due(&self, elapsed_ms: u64) -> (due: bool)
        ensures
            due == (self.dirty && (self.policy matches SyncPolicy::Group { window_ms }
                && elapsed_ms >= window_ms)),
    {
        match self.policy {
            SyncPolicy::Group { window_ms } => self.dirty && elapsed_ms >= window_ms,
            _ => false,
        }
    }

    /// What the end of a batch takes to give the durability that the policy
    /// promises.
    pub fn commit(&self) -> (a: SyncAction)
        ensures
            a == (if self.policy == SyncPolicy::NoSync || !self.dirty {
                SyncAction::Flush
            } else {
                SyncAction::Sync
            }),
    {
        match self.policy {
            SyncPolicy::NoSync => SyncAction::Flush,
            _ => self.sync(),
        }
    }

    pub fn is_dirty(&self) -> (b: bool)
        ensures
            b == self.dirty,
    {
        self.dirty
    }

    pub fn len_bytes(&self) -> (n: u64)
        ensures
            n == self.bytes,
    {
        self.bytes
    }

    pub fn policy(&self) -> (p: SyncPolicy)
        ensures
            p == self.policy,
    {
        self.policy
    }
}

} // verus!
