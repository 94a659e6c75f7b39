//! Persistence: framed files, the manifest, the metadata snapshot, and which
//! files may go.
//!
//! Segment files are immutable: their names carry the generation in which they
//! were written, and they are never overwritten. The manifest is the only
//! source of truth and is replaced in one step. What can be derived from the
//! metadata is not written at all.
//!
//! A framed file is `[magic: 4][version: 4][length: 8][payload][checksum: 4]`.
//! The checksum covers all that precedes it and is verified before the payload
//! is looked at.

use vstd::prelude::*;
use vstd::slice::slice_subrange;
use vstd::string::StringExecFns;
use crate::codec::{
    at, changed_byte_is_noticed, crc32, crc32_of, crc32_prefix, four_at, le4, le8, le_value,
    lemma_le4, lemma_le8, push_all, push_u32, push_u64, read_u32, read_u64,
};
use crate::distance::Metric;
use crate::error::{error_message, IndexError};
use crate::hnsw::HnswParams;
use crate::hnsw_file::{
    fault_message, find_oversized, find_unknown_metric, lemma_same_params, oversized,
    params_bytes, params_parts, size_message, too_large, unknown_metric, ParamsParts, PersistError,
};
use crate::layout::{
    eight, lemma_eight, lemma_same4, lemma_same8, lemma_same_list, lemma_same_option,
    lemma_same_text, lemma_text, list_bytes, option_bytes, text, unambiguous,
};
use crate::meta::{collected, fields_view, lemma_collected_same, Fields, Metadata};
use crate::record::{
    fields_bytes, fields_fault, fields_fit, lemma_at_split, lemma_take4, lemma_take_fields,
    push_count, push_fields, push_id, read_fields, read_number, take4, take8, take_fields,
    text_bytes, u64_fault, unknown_variant, variant_message, Named, Taken,
};
use crate::text::{decimal, digits, ends_with, padded, push_decimal, push_padded, starts_with};
use crate::types::VectorId;

verus! {

/// The version of framed files.
pub const STORAGE_VERSION: u32 = 2;

/// The name of the manifest's file.
pub fn manifest_name() -> (s: &'static str)
    ensures
        s@ == "MANIFEST"@,
{
    "MANIFEST"
}

pub open spec fn manifest_magic() -> Seq<u8> {
    seq![71u8, 86u8, 77u8, 70u8]
}

pub open spec fn metadata_magic() -> Seq<u8> {
    seq![71u8, 86u8, 77u8, 68u8]
}

/// Why something could not be stored or recovered.
#[derive(Debug)]
pub enum StorageError {
    /// A file is damaged.
    Corrupt { path: String, reason: String },
    /// A file has a version that is not read here.
    UnsupportedVersion(u32),
    /// A payload could not be encoded or decoded; what the serializer says.
    Encode(String),
    /// A replayed operation was refused.
    Index(IndexError),
    /// A segment could not be written or read.
    Segment(PersistError),
}

/// A [`StorageError`] in words.
pub open spec fn storage_message(e: StorageError) -> Seq<char> {
    match e {
        StorageError::Corrupt { path, reason } => "bozuk dosya ("@ + path@ + "): "@ + reason@,
        StorageError::UnsupportedVersion(v) => "unsupported format version: "@ + decimal(v as int)
            + " (this build reads "@ + decimal(STORAGE_VERSION as int) + ")"@,
        StorageError::Encode(why) => "serialization error: "@ + why@,
        StorageError::Index(e) => "index error: "@ + error_message(e),
        StorageError::Segment(e) => "segment load error: "@ + fault_message(e@),
    }
}

impl StorageError {
    /// The error in words.
    pub fn message(&self) -> (s: String)
        ensures
            s@ == storage_message(*self),
    {
        match self {
            StorageError::Corrupt { path, reason } => {
                let mut s: String = String::from_str("bozuk dosya (");
                s.append(path.as_str());
                s.append("): ");
                s.append(reason.as_str());
                s
            },
            StorageError::UnsupportedVersion(v) => {
                let mut s: String = String::from_str("unsupported format version: ");
                push_decimal(&mut s, *v as u64);
                s.append(" (this build reads ");
                push_decimal(&mut s, STORAGE_VERSION as u64);
                s.append(")");
                s
            },
            StorageError::Encode(why) => {
                let mut s: String = String::from_str("serialization error: ");
                s.append(why.as_str());
                s
            },
            StorageError::Index(e) => {
                let mut s: String = String::from_str("index error: ");
                s.append(e.message().as_str());
                s
            },
            StorageError::Segment(e) => {
                let mut s: String = String::from_str("segment load error: ");
                s.append(e.message().as_str());
                s
            },
        }
    }
}

/// What is wrong with a framed file.
pub ghost enum FrameFault {
    Corrupt(Seq<char>),
    UnsupportedVersion(u32),
    Encode(Seq<char>),
}

/// The error reports the fault of the file.
pub open spec fn reports(e: StorageError, path: Seq<char>, fault: FrameFault) -> bool {
    match fault {
        FrameFault::Corrupt(why) => e matches StorageError::Corrupt { path: p, reason }
            && p@ == path && reason@ == why,
        FrameFault::UnsupportedVersion(v) => e == StorageError::UnsupportedVersion(v),
        FrameFault::Encode(why) => e matches StorageError::Encode(w) && w@ == why,
    }
}

pub(crate) fn corrupt(path: &str, reason: &str) -> (e: StorageError)
    ensures
        reports(e, path@, FrameFault::Corrupt(reason@)),
{
    StorageError::Corrupt { path: String::from_str(path), reason: String::from_str(reason) }
}

pub open spec fn frame_body(magic: Seq<u8>, payload: Seq<u8>) -> Seq<u8> {
    magic + le4(STORAGE_VERSION) + le8(payload.len() as u64) + payload
}

pub open spec fn framed(magic: Seq<u8>, payload: Seq<u8>) -> Seq<u8> {
    frame_body(magic, payload) + le4(crc32_of(frame_body(magic, payload)))
}

/// The payload of a framed file.
pub open spec fn unframed(magic: Seq<u8>, b: Seq<u8>) -> Result<Seq<u8>, FrameFault> {
    if b.len() < 20 {
        Err(FrameFault::Corrupt("file too short even for the header"@))
    } else if b.subrange(0, 4) != magic {
        Err(FrameFault::Corrupt("magic mismatch"@))
    } else if le_value(b.subrange(4, 8)) != STORAGE_VERSION {
        Err(FrameFault::UnsupportedVersion(le_value(b.subrange(4, 8)) as u32))
    } else if crc32_of(b.take(b.len() - 4)) != le_value(b.subrange(b.len() - 4, b.len() as int)) {
        Err(FrameFault::Corrupt("crc32 mismatch (corrupt/truncated file)"@))
    } else {
        let end = 16 + le_value(b.subrange(8, 16));
        if end > usize::MAX {
            Err(FrameFault::Corrupt("payload length overflows"@))
        } else if end > b.len() - 4 {
            Err(FrameFault::Corrupt("payload length exceeds the file"@))
        } else {
            Ok(b.subrange(16, end))
        }
    }
}

/// Where one byte of a readable file changes, the file is refused: no byte lies
/// outside the checks.
pub proof fn changed_frame_is_refused(magic: Seq<u8>, b: Seq<u8>, p: int, x: u8)
    requires
        unframed(magic, b) is Ok,
        0 <= p < b.len(),
        b[p] != x,
    ensures
        unframed(magic, b.update(p, x)) is Err,
{
    changed_byte_is_noticed(b, p, x);
}

/// A framed payload is read back.
pub proof fn framed_payload_reads_back(magic: Seq<u8>, payload: Seq<u8>)
    requires
        magic.len() == 4,
        framed(magic, payload).len() <= usize::MAX,
    ensures
        unframed(magic, framed(magic, payload)) == Ok::<Seq<u8>, FrameFault>(payload),
{
    let body = frame_body(magic, payload);
    let b = framed(magic, payload);
    let n = payload.len() as u64;
    lemma_le4(STORAGE_VERSION);
    lemma_le8(n);
    lemma_le4(crc32_of(body));
    assert(b.subrange(0, 4) =~= magic);
    assert(b.subrange(4, 8) =~= le4(STORAGE_VERSION));
    assert(b.subrange(8, 16) =~= le8(n));
    assert(b.take(b.len() - 4) =~= body);
    assert(b.subrange(b.len() - 4, b.len() as int) =~= le4(crc32_of(body)));
    assert(b.subrange(16, 16 + payload.len() as int) =~= payload);
}

fn encode_framed(magic: [u8; 4], payload: &Vec<u8>) -> (b: Vec<u8>)
    ensures
        b@ == framed(magic@, payload@),
{
    let mut b: Vec<u8> = Vec::new();
    push_all(&mut b, magic.as_slice());
    push_u32(&mut b, STORAGE_VERSION);
    push_u64(&mut b, payload.len() as u64);
    push_all(&mut b, payload.as_slice());
    assert(b@ =~= frame_body(magic@, payload@));
    let crc: u32 = crc32(b.as_slice());
    push_u32(&mut b, crc);
    b
}

fn decode_framed<'a>(magic: [u8; 4], bytes: &'a [u8], path: &str) -> (r: Result<
    &'a [u8],
    StorageError,
>)
    ensures
        match r {
            Ok(p) => unframed(magic@, bytes@) == Ok::<Seq<u8>, FrameFault>(p@),
            Err(e) => unframed(magic@, bytes@) matches Err(fault) && reports(e, path@, fault),
        },
{
    let total: usize = bytes.len();
    if total < 20 {
        return Err(corrupt(path, "file too short even for the header"));
    }
    if !four_at(bytes, 0, magic) {
        return Err(corrupt(path, "magic mismatch"));
    }
    let version: u32 = read_u32(bytes, 4);
    if version != STORAGE_VERSION {
        return Err(StorageError::UnsupportedVersion(version));
    }
    let stored: u32 = read_u32(bytes, total - 4);
    if crc32_prefix(bytes, total - 4) != stored {
        return Err(corrupt(path, "crc32 mismatch (corrupt/truncated file)"));
    }
    let len: u64 = read_u64(bytes, 8);
    if len > (usize::MAX - 16) as u64 {
        return Err(corrupt(path, "payload length overflows"));
    }
    let end: usize = 16 + len as usize;
    if end > total - 4 {
        return Err(corrupt(path, "payload length exceeds the file"));
    }
    let payload: &'a [u8] = slice_subrange(bytes, 16, end);
    assert(payload@ =~= bytes@.subrange(16, end as int));
    Ok(payload)
}

/// The metadata of records as it is written: id and fields.
pub type Snapshot = Seq<(u64, Fields)>;

pub open spec fn entry_bytes(e: (u64, Fields)) -> Seq<u8> {
    le8(e.0) + fields_bytes(e.1)
}

pub open spec fn some_entries_bytes(s: Snapshot) -> Seq<u8>
    decreases s.len(),
{
    if s.len() == 0 {
        Seq::empty()
    } else {
        some_entries_bytes(s.drop_last()) + entry_bytes(s.last())
    }
}

pub open spec fn snapshot_bytes(s: Snapshot) -> Seq<u8> {
    le8(s.len() as u64) + some_entries_bytes(s)
}

pub open spec fn take_entry(b: Seq<u8>, off: int) -> Taken<(u64, Named)> {
    match take8(b, off) {
        Some((id, o)) => match take_fields(b, o) {
            Some((fs, e)) => Some(((id, fs), e)),
            None => None,
        },
        None => None,
    }
}

/// The next `n` entries.
pub open spec fn take_some_entries(b: Seq<u8>, off: int, n: int) -> Taken<Seq<(u64, Named)>>
    decreases n,
{
    if n <= 0 {
        Some((Seq::empty(), off))
    } else {
        match take_some_entries(b, off, n - 1) {
            Some((es, o)) => match take_entry(b, o) {
                Some((e, p)) => Some((es.push(e), p)),
                None => None,
            },
            None => None,
        }
    }
}

pub open spec fn take_snapshot(b: Seq<u8>) -> Option<Seq<(u64, Named)>> {
    match take8(b, 0) {
        Some((n, o)) => match take_some_entries(b, o, n as int) {
            Some((es, _)) => Some(es),
            None => None,
        },
        None => None,
    }
}

pub open spec fn entry_fault(b: Seq<u8>, off: int) -> Seq<char> {
    match take8(b, off) {
        Some((_, o)) => fields_fault(b, o),
        None => u64_fault(b.skip(off)),
    }
}

/// Of the next `n` entries, the first that cannot be read.
pub open spec fn some_entries_fault(b: Seq<u8>, off: int, n: int) -> Seq<char>
    decreases n,
{
    if n <= 0 {
        Seq::empty()
    } else {
        match take_some_entries(b, off, n - 1) {
            Some((_, o)) => entry_fault(b, o),
            None => some_entries_fault(b, off, n - 1),
        }
    }
}

/// Why a snapshot cannot be read.
pub open spec fn snapshot_fault(b: Seq<u8>) -> Seq<char> {
    match take8(b, 0) {
        Some((n, o)) => some_entries_fault(b, o, n as int),
        None => u64_fault(b),
    }
}

pub open spec fn collected_all(es: Seq<(u64, Named)>) -> Snapshot {
    Seq::new(es.len(), |i: int| (es[i].0, collected(es[i].1)))
}

/// What a snapshot file holds.
pub open spec fn snapshot_of(b: Seq<u8>) -> Result<Snapshot, FrameFault> {
    match unframed(metadata_magic(), b) {
        Err(f) => Err(f),
        Ok(p) => match take_snapshot(p) {
            None => Err(FrameFault::Encode(snapshot_fault(p))),
            Some(es) => Ok(collected_all(es)),
        },
    }
}

pub open spec fn entries_view(s: Seq<(VectorId, Metadata)>) -> Snapshot {
    Seq::new(s.len(), |i: int| (s[i].0.0, s[i].1@))
}

proof fn lemma_take_some_entries(b: Seq<u8>, off: int, s: Snapshot)
    requires
        at(b, off, some_entries_bytes(s)),
        forall|i: int| 0 <= i < s.len() ==> fields_fit((#[trigger] s[i]).1),
    ensures
        take_some_entries(b, off, s.len() as int) == Some((s, off + some_entries_bytes(s).len())),
    decreases s.len(),
{
    if s.len() == 0 {
        assert(s =~= Seq::empty());
    } else {
        let t = s.drop_last();
        assert forall|i: int| 0 <= i < t.len() implies fields_fit((#[trigger] t[i]).1) by {
            assert(t[i] == s[i]);
        }
        let e = s.last();
        assert(e == s[s.len() - 1]);
        lemma_at_split(b, off, some_entries_bytes(t), entry_bytes(e));
        lemma_take_some_entries(b, off, t);
        let o = off + some_entries_bytes(t).len();
        lemma_le8(e.0);
        lemma_at_split(b, o, le8(e.0), fields_bytes(e.1));
        lemma_take_fields(b, o + 8, e.1);
        assert(t.push(e) =~= s);
    }
}

/// A written snapshot is read back.
pub proof fn written_snapshot_reads_back(s: Snapshot)
    requires
        s.len() <= u64::MAX,
        forall|i: int|
            0 <= i < s.len() ==> fields_fit((#[trigger] s[i]).1) && crate::meta::ascending(s[i].1),
        framed(metadata_magic(), snapshot_bytes(s)).len() <= usize::MAX,
    ensures
        snapshot_of(framed(metadata_magic(), snapshot_bytes(s))) == Ok::<Snapshot, FrameFault>(s),
{
    let p = snapshot_bytes(s);
    let n = s.len() as u64;
    framed_payload_reads_back(metadata_magic(), p);
    lemma_le8(n);
    assert(p.subrange(0, p.len() as int) =~= p);
    lemma_at_split(p, 0, le8(n), some_entries_bytes(s));
    lemma_take_some_entries(p, 8, s);
    assert(collected_all(s) =~= s) by {
        assert forall|i: int| 0 <= i < s.len() implies #[trigger] collected_all(s)[i] == s[i] by {
            lemma_collected_same(s[i].1);
        }
    }
}

/// The file of a metadata snapshot.
pub fn encode_metadata(entries: &Vec<(VectorId, Metadata)>) -> (b: Vec<u8>)
    requires
        forall|i: int| 0 <= i < entries@.len() ==> (#[trigger] entries@[i]).1.wf(),
    ensures
        b@ == framed(metadata_magic(), snapshot_bytes(entries_view(entries@))),
        snapshot_of(b@) == Ok::<Snapshot, FrameFault>(entries_view(entries@)),
{
    let ghost s = entries_view(entries@);
    let n: usize = entries.len();
    let mut p: Vec<u8> = Vec::new();
    push_count(&mut p, n);
    assert(some_entries_bytes(s.take(0)) =~= Seq::empty());
    let mut i: usize = 0;
    while i < n
        invariant
            i <= n == entries@.len(),
            s == entries_view(entries@),
            p@ =~= le8(n as u64) + some_entries_bytes(s.take(i as int)),
            forall|j: int| 0 <= j < i ==> fields_fit((#[trigger] s[j]).1),
        decreases n - i,
    {
        push_id(&mut p, entries[i].0.0);
        push_fields(&mut p, &entries[i].1.fields);
        proof {
            assert(s.take(i + 1).drop_last() =~= s.take(i as int));
            assert(s.take(i + 1).last() == s[i as int]);
            assert(s[i as int] == (entries@[i as int].0.0, entries@[i as int].1@));
        }
        i = i + 1;
    }
    assert(s.take(n as int) =~= s);
    let b: Vec<u8> = encode_framed([71, 86, 77, 68], &p);
    let total: usize = b.len();
    proof {
        assert([71u8, 86u8, 77u8, 68u8]@ =~= metadata_magic());
        assert forall|j: int| 0 <= j < s.len() implies fields_fit((#[trigger] s[j]).1)
            && crate::meta::ascending(s[j].1) by {
            assert(entries@[j].1.wf());
        }
        written_snapshot_reads_back(s);
    }
    b
}

/// Reads the file of a metadata snapshot.
pub fn decode_metadata(bytes: &[u8], path: &str) -> (r: Result<
    Vec<(VectorId, Metadata)>,
    StorageError,
>)
    ensures
        match r {
            Ok(out) => {
                &&& snapshot_of(bytes@) == Ok::<Snapshot, FrameFault>(entries_view(out@))
                &&& forall|i: int| 0 <= i < out@.len() ==> (#[trigger] out@[i]).1.wf()
            },
            Err(e) => snapshot_of(bytes@) matches Err(fault) && reports(e, path@, fault),
        },
{
    assert([71u8, 86u8, 77u8, 68u8]@ =~= metadata_magic());
    let p: &[u8] = match decode_framed([71, 86, 77, 68], bytes, path) {
        Ok(p) => p,
        Err(e) => {
            return Err(e);
        },
    };
    let total: usize = p.len();
    assert(p@.skip(0) =~= p@);
    let n: u64 = match read_number(p, 0) {
        Ok(n) => n,
        Err(why) => {
            return Err(StorageError::Encode(why));
        },
    };
    let mut out: Vec<(VectorId, Metadata)> = Vec::new();
    let ghost mut raw: Seq<(u64, Named)> = Seq::empty();
    let mut off: usize = 8;
    let mut i: u64 = 0;
    while i < n
        invariant
            i <= n,
            off <= p@.len() == total,
            take8(p@, 0) == Some((n, 8int)),
            snapshot_of(bytes@) == (match take_snapshot(p@) {
                None => Err(FrameFault::Encode(snapshot_fault(p@))),
                Some(es) => Ok(collected_all(es)),
            }),
            take_some_entries(p@, 8, i as int) == Some((raw, off as int)),
            entries_view(out@) =~= collected_all(raw),
            forall|j: int| 0 <= j < out@.len() ==> (#[trigger] out@[j]).1.wf(),
        decreases n - i,
    {
        proof {
            if take_entry(p@, off as int) is None {
                assert(take_some_entries(p@, 8, i + 1) is None);
                lemma_entries_fail(p@, 8, i + 1, n as int);
            }
        }
        match read_number(p, off) {
            Ok(id) => match read_fields(p, off + 8) {
                Ok((fields, e)) => {
                    let ghost before = out@;
                    proof {
                        raw = raw.push((id, fields_view(fields@)));
                    }
                    out.push((VectorId(id), Metadata::collect(fields)));
                    assert(entries_view(out@) =~= entries_view(before).push(
                        (id, collected(raw.last().1)),
                    ));
                    off = e;
                },
                Err(why) => {
                    return Err(StorageError::Encode(why));
                },
            },
            Err(why) => {
                return Err(StorageError::Encode(why));
            },
        }
        i = i + 1;
    }
    Ok(out)
}

proof fn lemma_entries_fail(b: Seq<u8>, off: int, i: int, n: int)
    requires
        0 < i <= n,
        take_some_entries(b, off, i) is None,
    ensures
        take_some_entries(b, off, n) is None,
        some_entries_fault(b, off, n) == some_entries_fault(b, off, i),
    decreases n - i,
{
    if i < n {
        lemma_entries_fail(b, off, i + 1, n);
    }
}

/// What the manifest says of one segment.
#[derive(Debug)]
pub struct SegmentRef {
    /// Name of the segment's file.
    pub file: String,
    /// Checksum of the file.
    pub crc32: u32,
    /// How many records the segment holds, deleted ones too.
    pub records: u64,
    /// The records that were deleted since the file was written.
    pub tombstones: Vec<u64>,
}

/// What is on disk.
#[derive(Debug)]
pub struct Manifest {
    pub generation: u64,
    pub dim: u64,
    pub metric: Metric,
    pub hnsw_params: HnswParams,
    pub seal_threshold: u64,
    pub max_segments: u64,
    pub segments: Vec<SegmentRef>,
    pub metadata_file: Option<String>,
    pub metadata_crc: u32,
    /// The log; absent where operations are not logged.
    pub wal_file: Option<String>,
    pub created_unix_secs: u64,
}

/// A segment as it is written: file, checksum, records, tombstones.
pub type SegmentImage = (Seq<char>, u32, u64, Seq<u64>);

/// The manifest as it is written.
pub type ManifestImage = (
    u64,
    u64,
    u32,
    ParamsParts,
    u64,
    u64,
    Seq<SegmentImage>,
    Option<Seq<char>>,
    u32,
    Option<Seq<char>>,
    u64,
);

pub type SegmentParts = (String, u32, u64, Vec<u64>);

pub type ManifestParts = (
    u64,
    u64,
    u32,
    ParamsParts,
    u64,
    u64,
    Vec<SegmentParts>,
    Option<String>,
    u32,
    Option<String>,
    u64,
);

pub open spec fn text_view(s: Option<String>) -> Option<Seq<char>> {
    match s {
        Some(t) => Some(t@),
        None => None,
    }
}

pub open spec fn segment_parts_view(s: Seq<SegmentParts>) -> Seq<SegmentImage> {
    Seq::new(s.len(), |i: int| (s[i].0@, s[i].1, s[i].2, s[i].3@))
}

pub open spec fn manifest_parts_view(p: ManifestParts) -> ManifestImage {
    (
        p.0,
        p.1,
        p.2,
        p.3,
        p.4,
        p.5,
        segment_parts_view(p.6@),
        text_view(p.7),
        p.8,
        text_view(p.9),
        p.10,
    )
}

pub open spec fn segment_refs_view(s: Seq<SegmentRef>) -> Seq<SegmentImage> {
    Seq::new(s.len(), |i: int| (s[i].file@, s[i].crc32, s[i].records, s[i].tombstones@))
}

impl View for Manifest {
    type V = ManifestImage;

    open spec fn view(&self) -> ManifestImage {
        (
            self.generation,
            self.dim,
            self.metric.code(),
            params_parts(self.hnsw_params),
            self.seal_threshold,
            self.max_segments,
            segment_refs_view(self.segments@),
            text_view(self.metadata_file),
            self.metadata_crc,
            text_view(self.wal_file),
            self.created_unix_secs,
        )
    }
}

pub open spec fn segment_bytes(s: SegmentImage) -> Seq<u8> {
    text_bytes(s.0) + le4(s.1) + le8(s.2) + list_bytes(s.3, eight())
}

/// How references to segments are laid out.
pub open spec fn segment() -> spec_fn(SegmentImage) -> Seq<u8> {
    |s: SegmentImage| segment_bytes(s)
}

/// The bytes of a manifest: its parts one after the other.
#[verifier::opaque]
pub open spec fn manifest_bytes(m: ManifestImage) -> Seq<u8> {
    le8(m.0) + le8(m.1) + le4(m.2) + params_bytes(m.3) + le8(m.4) + le8(m.5) + list_bytes(
        m.6,
        segment(),
    ) + option_bytes(m.7, text()) + le4(m.8) + option_bytes(m.9, text()) + le8(m.10)
}

proof fn lemma_segment_parts(b: Seq<u8>, off: int, s: SegmentImage)
    requires
        at(b, off, segment_bytes(s)),
    ensures
        at(b, off, text_bytes(s.0)),
        at(b, off + text_bytes(s.0).len(), le4(s.1)),
        at(b, off + text_bytes(s.0).len() + 4, le8(s.2)),
        at(b, off + text_bytes(s.0).len() + 12, list_bytes(s.3, eight())),
{
    lemma_le4(s.1);
    lemma_le8(s.2);
    let two = text_bytes(s.0) + le4(s.1);
    lemma_at_split(b, off, two + le8(s.2), list_bytes(s.3, eight()));
    lemma_at_split(b, off, two, le8(s.2));
    lemma_at_split(b, off, text_bytes(s.0), le4(s.1));
}

proof fn lemma_segment()
    ensures
        unambiguous(segment()),
{
    let f = segment();
    lemma_eight();
    assert forall|x: SegmentImage| (#[trigger] f(x)).len() > 0 by {
        lemma_le4(x.1);
    }
    assert forall|b: Seq<u8>, off: int, x: SegmentImage, y: SegmentImage|
        b.len() <= u64::MAX && #[trigger] at(b, off, f(x)) && #[trigger] at(
            b,
            off,
            f(y),
        ) implies x == y by {
        lemma_segment_parts(b, off, x);
        lemma_segment_parts(b, off, y);
        lemma_same_text(b, off, x.0, y.0);
        let n = text_bytes(x.0).len();
        lemma_same4(b, off + n, x.1, y.1);
        lemma_same8(b, off + n + 4, x.2, y.2);
        lemma_same_list(b, off + n + 12, x.3, y.3, eight());
    }
}

proof fn lemma_manifest_parts(b: Seq<u8>, m: ManifestImage)
    requires
        at(b, 0, manifest_bytes(m)),
    ensures
        ({
            let s = list_bytes(m.6, segment());
            let f = option_bytes(m.7, text());
            let w = option_bytes(m.9, text());
            &&& at(b, 0, le8(m.0))
            &&& at(b, 8, le8(m.1))
            &&& at(b, 16, le4(m.2))
            &&& at(b, 20, params_bytes(m.3))
            &&& params_bytes(m.3).len() == 48
            &&& at(b, 68, le8(m.4))
            &&& at(b, 76, le8(m.5))
            &&& at(b, 84, s)
            &&& at(b, 84int + s.len(), f)
            &&& at(b, 84int + s.len() + f.len(), le4(m.8))
            &&& at(b, 88int + s.len() + f.len(), w)
            &&& at(b, 88int + s.len() + f.len() + w.len(), le8(m.10))
        }),
{
    reveal(manifest_bytes);
    lemma_le8(m.0);
    lemma_le8(m.1);
    lemma_le4(m.2);
    lemma_le8(m.4);
    lemma_le8(m.5);
    lemma_le4(m.8);
    let two = le8(m.0) + le8(m.1);
    let three = two + le4(m.2);
    let four = three + params_bytes(m.3);
    let five = four + le8(m.4);
    let six = five + le8(m.5);
    let seven = six + list_bytes(m.6, segment());
    let eight_parts = seven + option_bytes(m.7, text());
    let nine = eight_parts + le4(m.8);
    let ten = nine + option_bytes(m.9, text());
    lemma_at_split(b, 0, ten, le8(m.10));
    lemma_at_split(b, 0, nine, option_bytes(m.9, text()));
    lemma_at_split(b, 0, eight_parts, le4(m.8));
    lemma_at_split(b, 0, seven, option_bytes(m.7, text()));
    lemma_at_split(b, 0, six, list_bytes(m.6, segment()));
    lemma_at_split(b, 0, five, le8(m.5));
    lemma_at_split(b, 0, four, le8(m.4));
    lemma_at_split(b, 0, three, params_bytes(m.3));
    lemma_at_split(b, 0, two, le4(m.2));
    lemma_at_split(b, 0, le8(m.0), le8(m.1));
    lemma_same_params(b, 20, m.3, m.3);
}

/// The manifest that stands at the front of some bytes; what follows is not
/// looked at.
#[verifier::opaque]
pub open spec fn manifest_decoding(b: Seq<u8>) -> Option<ManifestImage> {
    if exists|m: ManifestImage| at(b, 0, #[trigger] manifest_bytes(m)) {
        Some(choose|m: ManifestImage| at(b, 0, #[trigger] manifest_bytes(m)))
    } else {
        None
    }
}

/// Only one manifest stands at the front of some bytes, so reading what was
/// written gives it back.
pub proof fn written_manifest_reads_back(m: ManifestImage)
    requires
        manifest_bytes(m).len() <= u64::MAX,
    ensures
        manifest_decoding(manifest_bytes(m)) == Some(m),
        take4(manifest_bytes(m), 16) == Some((m.2, 20int)),
{
    reveal(manifest_decoding);
    let b = manifest_bytes(m);
    assert(b.subrange(0, b.len() as int) =~= b);
    assert(at(b, 0, manifest_bytes(m)));
    let k = choose|k: ManifestImage| at(b, 0, #[trigger] manifest_bytes(k));
    lemma_manifest_parts(b, m);
    lemma_manifest_parts(b, k);
    lemma_take4(b, 16, m.2);
    lemma_segment();
    lemma_text();
    lemma_same8(b, 0, m.0, k.0);
    lemma_same8(b, 8, m.1, k.1);
    lemma_same4(b, 16, m.2, k.2);
    lemma_same_params(b, 20, m.3, k.3);
    lemma_same8(b, 68, m.4, k.4);
    lemma_same8(b, 76, m.5, k.5);
    lemma_same_list(b, 84, m.6, k.6, segment());
    let s = list_bytes(m.6, segment()).len();
    let f = option_bytes(m.7, text()).len();
    let w = option_bytes(m.9, text()).len();
    lemma_same_option(b, 84int + s, m.7, k.7, text());
    lemma_same4(b, 84int + s + f, m.8, k.8);
    lemma_same_option(b, 88int + s + f, m.9, k.9, text());
    lemma_same8(b, 88int + s + f + w, m.10, k.10);
}

/// Writes the parts of a manifest.
///
/// Calls `bincode::serialize`. Trusted: it succeeds and gives the parts one
/// after the other, numbers in little-endian bytes, texts and lists with their
/// length in front, and what may be absent behind a byte that says whether it is
/// there.
#[verifier::external_body]
fn serialize_manifest(m: &ManifestParts) -> (r: Result<Vec<u8>, String>)
    ensures
        r is Ok,
        r->Ok_0@ == manifest_bytes(manifest_parts_view(*m)),
{
    match bincode::serialize(m) {
        Ok(b) => Ok(b),
        Err(e) => Err(e.to_string()),
    }
}

/// What the bincode library says of bytes that should be the parts of a manifest
/// and are not.
pub uninterp spec fn manifest_fault(bytes: Seq<u8>) -> Seq<char>;

/// Reads the parts of a manifest.
///
/// Calls `bincode::deserialize`. Trusted: it succeeds where the bytes of a
/// manifest are next, and gives that manifest; what follows is not looked at.
/// What it says of other bytes has a name.
#[verifier::external_body]
fn deserialize_manifest(b: &[u8]) -> (r: Result<ManifestParts, String>)
    ensures
        manifest_decoding(b@) == (match r {
            Ok(m) => Some(manifest_parts_view(m)),
            Err(_) => None,
        }),
        r matches Err(e) ==> e@ == manifest_fault(b@),
{
    match bincode::deserialize(b) {
        Ok(m) => Ok(m),
        Err(e) => Err(e.to_string()),
    }
}

/// What a manifest file holds.
pub open spec fn manifest_of(b: Seq<u8>) -> Result<ManifestImage, FrameFault> {
    match unframed(manifest_magic(), b) {
        Err(f) => Err(f),
        Ok(p) => match unknown_metric(p, 16) {
            Some(code) => Err(FrameFault::Encode(unknown_variant(code, 3))),
            None => match manifest_decoding(p) {
                None => Err(FrameFault::Encode(manifest_fault(p))),
                Some(m) => match oversized(m.3) {
                    Some(x) => Err(FrameFault::Encode(too_large(x))),
                    None => Ok(m),
                },
            },
        },
    }
}

fn copy_text(s: &Option<String>) -> (r: Option<String>)
    ensures
        text_view(r) == text_view(*s),
{
    match s {
        Some(t) => Some(t.clone()),
        None => None,
    }
}

fn copy_ids(s: &Vec<u64>) -> (r: Vec<u64>)
    ensures
        r@ == s@,
{
    let mut out: Vec<u64> = Vec::with_capacity(s.len());
    let mut i: usize = 0;
    while i < s.len()
        invariant
            i <= s@.len(),
            out@ == s@.take(i as int),
        decreases s@.len() - i,
    {
        out.push(s[i]);
        i = i + 1;
        assert(s@.take(i as int) =~= s@.take(i - 1).push(s@[i - 1]));
    }
    assert(s@.take(i as int) =~= s@);
    out
}

pub open spec fn segment_name(generation: u64, idx: usize) -> Seq<char> {
    "segment-"@ + padded(decimal(generation as int), 6) + "-"@ + padded(decimal(idx as int), 2)
        + ".gvdb"@
}

pub open spec fn metadata_name(generation: u64) -> Seq<char> {
    "meta-"@ + padded(decimal(generation as int), 6) + ".gvmeta"@
}

pub open spec fn wal_name(generation: u64) -> Seq<char> {
    "wal-"@ + padded(decimal(generation as int), 6) + ".log"@
}

/// Files of different generations, places or kinds have different names.
pub proof fn file_names_are_distinct(g: u64, i: usize, h: u64, j: usize)
    ensures
        segment_name(g, i) == segment_name(h, j) ==> g == h && i == j,
        metadata_name(g) == metadata_name(h) ==> g == h,
        wal_name(g) == wal_name(h) ==> g == h,
        segment_name(g, i) != metadata_name(h),
        segment_name(g, i) != wal_name(h),
        metadata_name(g) != wal_name(h),
{
    reveal_strlit("segment-");
    reveal_strlit("-");
    reveal_strlit(".gvdb");
    reveal_strlit("meta-");
    reveal_strlit(".gvmeta");
    reveal_strlit("wal-");
    reveal_strlit(".log");
    assert(segment_name(g, i)[0] == 's');
    assert(metadata_name(g)[0] == 'm' && metadata_name(h)[0] == 'm');
    assert(wal_name(h)[0] == 'w');
    if segment_name(g, i) == segment_name(h, j) {
        let x = "-"@ + padded(decimal(i as int), 2) + ".gvdb"@;
        let y = "-"@ + padded(decimal(j as int), 2) + ".gvdb"@;
        assert(segment_name(g, i).skip(8) =~= padded(decimal(g as int), 6) + x);
        assert(segment_name(h, j).skip(8) =~= padded(decimal(h as int), 6) + y);
        crate::text::lemma_number_then_text(g as int, h as int, 6, x, y);
        assert(x.skip(1) =~= padded(decimal(i as int), 2) + ".gvdb"@);
        assert(y.skip(1) =~= padded(decimal(j as int), 2) + ".gvdb"@);
        crate::text::lemma_number_then_text(i as int, j as int, 2, ".gvdb"@, ".gvdb"@);
    }
    if metadata_name(g) == metadata_name(h) {
        assert(metadata_name(g).skip(5) =~= padded(decimal(g as int), 6) + ".gvmeta"@);
        assert(metadata_name(h).skip(5) =~= padded(decimal(h as int), 6) + ".gvmeta"@);
        crate::text::lemma_number_then_text(g as int, h as int, 6, ".gvmeta"@, ".gvmeta"@);
    }
    if wal_name(g) == wal_name(h) {
        assert(wal_name(g).skip(4) =~= padded(decimal(g as int), 6) + ".log"@);
        assert(wal_name(h).skip(4) =~= padded(decimal(h as int), 6) + ".log"@);
        crate::text::lemma_number_then_text(g as int, h as int, 6, ".log"@, ".log"@);
    }
}

pub open spec fn texts_view(s: Seq<String>) -> Seq<Seq<char>> {
    Seq::new(s.len(), |i: int| s[i]@)
}

/// The files that a manifest refers to: segments, metadata, log, and itself.
pub open spec fn referenced(m: ManifestImage) -> Seq<Seq<char>> {
    let segments = Seq::new(m.6.len(), |i: int| m.6[i].0);
    let metadata = match m.7 {
        Some(f) => segments.push(f),
        None => segments,
    };
    let wal = match m.9 {
        Some(f) => metadata.push(f),
        None => metadata,
    };
    wal.push("MANIFEST"@)
}

impl Manifest {
    pub fn segment_file_name(generation: u64, idx: usize) -> (s: String)
        ensures
            s@ == segment_name(generation, idx),
    {
        let mut s: String = String::from_str("segment-");
        push_padded(&mut s, generation, 10, 6);
        s.append("-");
        push_padded(&mut s, idx as u64, 10, 2);
        s.append(".gvdb");
        assert(s@ =~= segment_name(generation, idx));
        s
    }

    pub fn metadata_file_name(generation: u64) -> (s: String)
        ensures
            s@ == metadata_name(generation),
    {
        let mut s: String = String::from_str("meta-");
        push_padded(&mut s, generation, 10, 6);
        s.append(".gvmeta");
        assert(s@ =~= metadata_name(generation));
        s
    }

    pub fn wal_file_name(generation: u64) -> (s: String)
        ensures
            s@ == wal_name(generation),
    {
        let mut s: String = String::from_str("wal-");
        push_padded(&mut s, generation, 10, 6);
        s.append(".log");
        assert(s@ =~= wal_name(generation));
        s
    }

    /// The file of the manifest.
    pub fn to_bytes(&self) -> (r: Result<Vec<u8>, StorageError>)
        ensures
            match r {
                Ok(b) => {
                    &&& b@ == framed(manifest_magic(), manifest_bytes(self@))
                    &&& manifest_of(b@) == Ok::<ManifestImage, FrameFault>(self@)
                },
                Err(_) => false,
            },
    {
        let mut segments: Vec<SegmentParts> = Vec::new();
        let mut i: usize = 0;
        while i < self.segments.len()
            invariant
                i <= self.segments@.len(),
                segment_parts_view(segments@) =~= segment_refs_view(self.segments@).take(i as int),
            decreases self.segments@.len() - i,
        {
            let ghost before = segments@;
            let s: &SegmentRef = &self.segments[i];
            segments.push((s.file.clone(), s.crc32, s.records, copy_ids(&s.tombstones)));
            assert(segment_parts_view(segments@) =~= segment_parts_view(before).push(
                segment_refs_view(self.segments@)[i as int],
            ));
            i = i + 1;
        }
        assert(segment_refs_view(self.segments@).take(i as int) =~= segment_refs_view(
            self.segments@,
        ));
        let p = &self.hnsw_params;
        let parts: ManifestParts = (
            self.generation,
            self.dim,
            self.metric.to_code(),
            (
                p.m as u64,
                p.m_max0 as u64,
                p.ef_construction as u64,
                p.ef_search as u64,
                p.seed,
                p.tombstone_threshold,
            ),
            self.seal_threshold,
            self.max_segments,
            segments,
            copy_text(&self.metadata_file),
            self.metadata_crc,
            copy_text(&self.wal_file),
            self.created_unix_secs,
        );
        assert(manifest_parts_view(parts) == self@);
        match serialize_manifest(&parts) {
            Ok(payload) => {
                let b: Vec<u8> = encode_framed([71, 86, 77, 70], &payload);
                let total: usize = b.len();
                proof {
                    assert([71u8, 86u8, 77u8, 70u8]@ =~= manifest_magic());
                    framed_payload_reads_back(manifest_magic(), payload@);
                    written_manifest_reads_back(self@);
                }
                Ok(b)
            },
            Err(why) => Err(StorageError::Encode(why)),
        }
    }

    /// Reads the file of a manifest.
    pub fn from_bytes(bytes: &[u8], path: &str) -> (r: Result<Manifest, StorageError>)
        ensures
            match r {
                Ok(m) => manifest_of(bytes@) == Ok::<ManifestImage, FrameFault>(m@),
                Err(e) => manifest_of(bytes@) matches Err(fault) && reports(e, path@, fault),
            },
    {
        assert([71u8, 86u8, 77u8, 70u8]@ =~= manifest_magic());
        let payload: &[u8] = match decode_framed([71, 86, 77, 70], bytes, path) {
            Ok(p) => p,
            Err(e) => {
                return Err(e);
            },
        };
        if let Some(code) = find_unknown_metric(payload, 16) {
            return Err(StorageError::Encode(variant_message(code, 3)));
        }
        let parts: ManifestParts = match deserialize_manifest(payload) {
            Ok(p) => p,
            Err(why) => {
                return Err(StorageError::Encode(why));
            },
        };
        proof {
            reveal(manifest_decoding);
            lemma_manifest_parts(payload@, manifest_parts_view(parts));
            lemma_take4(payload@, 16, parts.2);
        }
        let metric: Metric = match Metric::from_code(parts.2) {
            Some(m) => m,
            None => {
                return Err(StorageError::Encode(variant_message(parts.2, 3)));
            },
        };
        let p: ParamsParts = parts.3;
        if let Some(x) = find_oversized(p) {
            return Err(StorageError::Encode(size_message(x)));
        }
        let mut segments: Vec<SegmentRef> = Vec::new();
        let mut i: usize = 0;
        while i < parts.6.len()
            invariant
                i <= parts.6@.len(),
                segment_refs_view(segments@) =~= segment_parts_view(parts.6@).take(i as int),
            decreases parts.6@.len() - i,
        {
            let ghost before = segments@;
            let s: &SegmentParts = &parts.6[i];
            segments.push(
                SegmentRef {
                    file: s.0.clone(),
                    crc32: s.1,
                    records: s.2,
                    tombstones: copy_ids(&s.3),
                },
            );
            assert(segment_refs_view(segments@) =~= segment_refs_view(before).push(
                segment_parts_view(parts.6@)[i as int],
            ));
            i = i + 1;
        }
        assert(segment_parts_view(parts.6@).take(i as int) =~= segment_parts_view(parts.6@));
        Ok(
            Manifest {
                generation: parts.0,
                dim: parts.1,
                metric,
                hnsw_params: HnswParams {
                    m: p.0 as usize,
                    m_max0: p.1 as usize,
                    ef_construction: p.2 as usize,
                    ef_search: p.3 as usize,
                    seed: p.4,
                    tombstone_threshold: p.5,
                },
                seal_threshold: parts.4,
                max_segments: parts.5,
                segments,
                metadata_file: copy_text(&parts.7),
                metadata_crc: parts.8,
                wal_file: copy_text(&parts.9),
                created_unix_secs: parts.10,
            },
        )
    }

    /// The files that the manifest refers to.
    pub fn referenced_files(&self) -> (out: Vec<String>)
        ensures
            texts_view(out@) == referenced(self@),
    {
        let mut out: Vec<String> = Vec::new();
        let mut i: usize = 0;
        let ghost files = Seq::new(self@.6.len(), |j: int| self@.6[j].0);
        while i < self.segments.len()
            invariant
                i <= self.segments@.len(),
                files == Seq::new(self@.6.len(), |j: int| self@.6[j].0),
                texts_view(out@) =~= files.take(i as int),
            decreases self.segments@.len() - i,
        {
            let ghost before = out@;
            out.push(self.segments[i].file.clone());
            assert(texts_view(out@) =~= texts_view(before).push(files[i as int]));
            i = i + 1;
        }
        assert(files.take(i as int) =~= files);
        if let Some(f) = &self.metadata_file {
            let ghost before = out@;
            out.push(f.clone());
            assert(texts_view(out@) =~= texts_view(before).push(f@));
        }
        if let Some(f) = &self.wal_file {
            let ghost before = out@;
            out.push(f.clone());
            assert(texts_view(out@) =~= texts_view(before).push(f@));
        }
        let ghost before = out@;
        out.push(String::from_str("MANIFEST"));
        assert(texts_view(out@) =~= texts_view(before).push("MANIFEST"@));
        out
    }
}

pub open spec fn has_prefix(name: Seq<char>, p: Seq<char>) -> bool {
    p.len() <= name.len() && name.take(p.len() as int) == p
}

pub open spec fn has_suffix(name: Seq<char>, p: Seq<char>) -> bool {
    p.len() <= name.len() && name.skip(name.len() - p.len()) == p
}

/// Is it one of the store's files, by its name?
pub open spec fn ours(name: Seq<char>) -> bool {
    has_prefix(name, "segment-"@) || has_prefix(name, "meta-"@) || has_prefix(name, "wal-"@)
        || has_suffix(name, ".tmp"@)
}

/// A file of the store that the manifest does not refer to may go.
pub open spec fn collectable(m: ManifestImage, name: Seq<char>) -> bool {
    ours(name) && !referenced(m).contains(name)
}

/// May the file go?
pub fn is_unreferenced(manifest: &Manifest, name: &str) -> (b: bool)
    ensures
        b == collectable(manifest@, name@),
{
    if !(starts_with(name, "segment-") || starts_with(name, "meta-") || starts_with(name, "wal-")
        || ends_with(name, ".tmp")) {
        return false;
    }
    let keep: Vec<String> = manifest.referenced_files();
    let wanted: String = String::from_str(name);
    let mut i: usize = 0;
    while i < keep.len()
        invariant
            i <= keep@.len(),
            wanted@ == name@,
            texts_view(keep@) == referenced(manifest@),
            forall|j: int| 0 <= j < i ==> (#[trigger] texts_view(keep@)[j]) != name@,
        decreases keep@.len() - i,
    {
        if keep[i] == wanted {
            assert(texts_view(keep@)[i as int] == name@);
            return false;
        }
        i = i + 1;
    }
    true
}

/// Collecting garbage leaves every file that the manifest refers to, the
/// manifest itself, and every file that is not the store's.
pub proof fn collection_is_safe(m: ManifestImage, name: Seq<char>)
    ensures
        referenced(m).contains(name) ==> !collectable(m, name),
        !ours(name) ==> !collectable(m, name),
        !collectable(m, "MANIFEST"@),
        forall|i: int| 0 <= i < m.6.len() ==> !collectable(m, (#[trigger] m.6[i]).0),
        m.7 matches Some(f) ==> !collectable(m, f),
        m.9 matches Some(f) ==> !collectable(m, f),
{
    let r = referenced(m);
    assert(r.last() == "MANIFEST"@ && r[r.len() - 1] == "MANIFEST"@);
    assert forall|i: int| 0 <= i < m.6.len() implies !collectable(m, (#[trigger] m.6[i]).0) by {
        assert(r[i] == m.6[i].0);
    }
    if let Some(f) = m.7 {
        assert(r[m.6.len() as int] == f);
    }
    if let Some(f) = m.9 {
        assert(r[r.len() - 2] == f);
    }
}

pub open spec fn crc_fault(expected: u32, actual: u32) -> Seq<char> {
    "crc mismatch: manifest "@ + padded(digits(expected as int, 16), 8) + ", file "@ + padded(
        digits(actual as int, 16),
        8,
    )
}

/// Do a file's bytes have the checksum that the manifest gives?
pub fn verify_file(bytes: &[u8], expected: u32, path: &str) -> (r: Result<(), StorageError>)
    ensures
        match r {
            Ok(_) => crc32_of(bytes@) == expected,
            Err(e) => crc32_of(bytes@) != expected && reports(
                e,
                path@,
                FrameFault::Corrupt(crc_fault(expected, crc32_of(bytes@))),
            ),
        },
{
    let actual: u32 = crc32(bytes);
    if actual == expected {
        return Ok(());
    }
    let mut reason: String = String::from_str("crc mismatch: manifest ");
    push_padded(&mut reason, expected as u64, 16, 8);
    reason.append(", file ");
    push_padded(&mut reason, actual as u64, 16, 8);
    assert(reason@ =~= crc_fault(expected, actual));
    Err(StorageError::Corrupt { path: String::from_str(path), reason })
}

/// The seconds since the Unix epoch, where the clock stands after it.
///
/// Calls `std::time::SystemTime::now`. Nothing is promised of what the clock
/// shows.
#[verifier::external_body]
fn clock() -> (r: Option<u64>) {
    std::time::SystemTime::now().duration_since(std::time::UNIX_EPOCH).map(|d| d.as_secs()).ok()
}

/// What the clock may show.
pub closed spec fn shown(reading: Option<u64>) -> bool {
    call_ensures(clock, (), reading)
}

/// The Unix time that a clock reading stands for: zero before the epoch.
pub open spec fn unix_time(reading: Option<u64>) -> u64 {
    match reading {
        Some(s) => s,
        None => 0,
    }
}

/// The Unix time that a clock reading stands for.
pub fn unix_secs(reading: Option<u64>) -> (t: u64)
    ensures
        t == unix_time(reading),
{
    match reading {
        Some(s) => s,
        None => 0,
    }
}

/// The current Unix time: that of a reading of the clock.
pub fn now_unix_secs() -> (t: u64)
    ensures
        exists|reading: Option<u64>| #[trigger] shown(reading) && t == unix_time(reading),
{
    let reading: Option<u64> = clock();
    assert(shown(reading));
    unix_secs(reading)
}

/// The manifest speaks of a file of this name.
pub open spec fn spoken_of(m: ManifestImage, name: Seq<char>) -> bool {
    ||| exists|i: int| 0 <= i < m.6.len() && (#[trigger] m.6[i]).0 == name
    ||| m.7 == Some(name)
    ||| m.9 == Some(name)
    ||| name == "MANIFEST"@
}

/// What a checkpoint leaves behind is collected: every file of a segment, of
/// metadata or of a log that the manifest does not speak of, and every file that
/// was not finished.
pub proof fn leftovers_are_collected(
    m: ManifestImage,
    generation: u64,
    idx: usize,
    unfinished: Seq<char>,
)
    ensures
        !spoken_of(m, segment_name(generation, idx)) ==> collectable(
            m,
            segment_name(generation, idx),
        ),
        !spoken_of(m, metadata_name(generation)) ==> collectable(m, metadata_name(generation)),
        !spoken_of(m, wal_name(generation)) ==> collectable(m, wal_name(generation)),
        !spoken_of(m, unfinished + ".tmp"@) ==> collectable(m, unfinished + ".tmp"@),
{
    reveal_strlit("segment-");
    reveal_strlit("meta-");
    reveal_strlit("wal-");
    reveal_strlit(".tmp");
    let a = segment_name(generation, idx);
    let b = metadata_name(generation);
    let c = wal_name(generation);
    let d = unfinished + ".tmp"@;
    assert(a.take(8) =~= "segment-"@);
    assert(b.take(5) =~= "meta-"@);
    assert(c.take(4) =~= "wal-"@);
    assert(d.skip(d.len() - 4) =~= ".tmp"@);
    lemma_referenced(m, a);
    lemma_referenced(m, b);
    lemma_referenced(m, c);
    lemma_referenced(m, d);
}

proof fn lemma_referenced(m: ManifestImage, name: Seq<char>)
    ensures
        referenced(m).contains(name) ==> spoken_of(m, name),
{
    let r = referenced(m);
    if r.contains(name) {
        let i = choose|i: int| 0 <= i < r.len() && r[i] == name;
        if i < m.6.len() {
            assert(m.6[i].0 == name);
        }
    }
}

} // verus!
