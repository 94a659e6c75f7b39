//! The file of an HNSW index.
//!
//! ```text
//! [0..4)            magic "GVDB"
//! [4..8)            format version
//! [8..16)           length of the graph section
//! [16..16+len)      the graph section: everything but the vectors
//! ..                zeros up to a multiple of four
//! ..                the vectors, four bytes per component
//! [last four bytes) checksum of everything before it
//! ```
//!
//! All numbers are little-endian. The checksum is verified before anything
//! else is read, and every reference in the graph section is checked, so that a
//! damaged file gives an error.

use std::collections::HashMap;
use vstd::prelude::*;
use vstd::slice::slice_subrange;
use vstd::string::StringExecFns;
use crate::codec::{
    at, changed_byte_is_noticed, crc32, crc32_of, crc32_prefix, four_at, le4, le8, le_value,
    lemma_le4, lemma_le8, push_all, push_u32, push_u64, read_u32, read_u64,
};
use crate::distance::Metric;
use crate::graph::{
    count_set, grounded, lemma_count_set, levels_view, linked, links_view, on_level, Links,
};
use crate::hnsw::{maps_live, vectors_view, Hnsw, HnswIndex, HnswParams};
use crate::layout::{
    eight, flag, lemma_eight, lemma_flag, lemma_lists, lemma_same4, lemma_same8, lemma_same_list,
    lemma_same_option, list_bytes, lists, option_bytes,
};
use crate::record::{lemma_at_split, lemma_take4, take4, unknown_variant, variant_message};
use crate::text::{decimal, push_decimal};
use crate::types::VectorId;

verus! {

pub const FORMAT_VERSION: u32 = 1;

/// The magic bytes at the start of a file.
pub open spec fn magic() -> Seq<u8> {
    seq![71u8, 86u8, 68u8, 66u8]
}

/// Why a file could not be written or read.
#[derive(Debug)]
pub enum PersistError {
    /// The file is damaged; the text says where.
    Corrupt(String),
    /// The file has a format version that is not read here.
    UnsupportedVersion(u32),
    /// The graph section could not be encoded or decoded; what the serializer
    /// says.
    Encode(String),
}

/// A [`PersistError`] as a value.
pub ghost enum Fault {
    Corrupt(Seq<char>),
    UnsupportedVersion(u32),
    Encode(Seq<char>),
}

impl View for PersistError {
    type V = Fault;

    open spec fn view(&self) -> Fault {
        match self {
            PersistError::Corrupt(s) => Fault::Corrupt(s@),
            PersistError::UnsupportedVersion(v) => Fault::UnsupportedVersion(*v),
            PersistError::Encode(why) => Fault::Encode(why@),
        }
    }
}

/// A [`PersistError`] in words.
pub open spec fn fault_message(f: Fault) -> Seq<char> {
    match f {
        Fault::Corrupt(why) => "bozuk dosya: "@ + why,
        Fault::UnsupportedVersion(v) => "unsupported format version: "@ + decimal(v as int)
            + " (this build reads "@ + decimal(FORMAT_VERSION as int) + ")"@,
        Fault::Encode(why) => "serialization error: "@ + why,
    }
}

impl PersistError {
    /// The error in words.
    pub fn message(&self) -> (s: String)
        ensures
            s@ == fault_message(self@),
    {
        match self {
            PersistError::Corrupt(why) => {
                let mut s: String = String::from_str("bozuk dosya: ");
                s.append(why.as_str());
                s
            },
            PersistError::UnsupportedVersion(v) => {
                let mut s: String = String::from_str("unsupported format version: ");
                push_decimal(&mut s, *v as u64);
                s.append(" (this build reads ");
                push_decimal(&mut s, FORMAT_VERSION as u64);
                s.append(")");
                s
            },
            PersistError::Encode(why) => {
                let mut s: String = String::from_str("serialization error: ");
                s.append(why.as_str());
                s
            },
        }
    }
}

fn corrupt(msg: &str) -> (e: PersistError)
    ensures
        e@ == Fault::Corrupt(msg@),
{
    PersistError::Corrupt(String::from_str(msg))
}

/// The parameters, as written: the three link and width parameters, the query
/// width, the seed and the bits of the threshold.
pub type ParamsParts = (u64, u64, u64, u64, u64, u64);

/// The graph section: parameters, metric, dimension, number of slots, ids,
/// links, entry point and deletion flags.
pub type MetaParts = (
    ParamsParts,
    u32,
    u64,
    u64,
    Vec<u64>,
    Vec<Vec<Vec<u64>>>,
    Option<u64>,
    Vec<bool>,
);

/// The graph section as a value.
pub type MetaImage = (
    ParamsParts,
    u32,
    u64,
    u64,
    Seq<u64>,
    Seq<Seq<Seq<u64>>>,
    Option<u64>,
    Seq<bool>,
);

pub open spec fn lists_view(levels: Vec<Vec<u64>>) -> Seq<Seq<u64>> {
    Seq::new(levels@.len(), |l: int| levels@[l]@)
}

pub open spec fn wide_view(links: Seq<Vec<Vec<u64>>>) -> Seq<Seq<Seq<u64>>> {
    Seq::new(links.len(), |s: int| lists_view(links[s]))
}

pub open spec fn meta_view(p: MetaParts) -> MetaImage {
    (p.0, p.1, p.2, p.3, p.4@, wide_view(p.5@), p.6, p.7@)
}

/// The bincode library's error.
#[verifier::external_type_specification]
#[verifier::external_body]
pub struct ExBincodeError(bincode::ErrorKind);

pub open spec fn params_bytes(p: ParamsParts) -> Seq<u8> {
    le8(p.0) + le8(p.1) + le8(p.2) + le8(p.3) + le8(p.4) + le8(p.5)
}

/// The bytes of a graph section: its parts one after the other.
#[verifier::opaque]
pub open spec fn meta_bytes(meta: MetaImage) -> Seq<u8> {
    params_bytes(meta.0) + le4(meta.1) + le8(meta.2) + le8(meta.3) + list_bytes(meta.4, eight())
        + list_bytes(meta.5, lists()) + option_bytes(meta.6, eight()) + list_bytes(meta.7, flag())
}

pub proof fn lemma_same_params(b: Seq<u8>, off: int, p: ParamsParts, q: ParamsParts)
    requires
        at(b, off, params_bytes(p)),
        at(b, off, params_bytes(q)),
    ensures
        p == q,
        params_bytes(p).len() == 48,
{
    lemma_params_parts(b, off, p);
    lemma_params_parts(b, off, q);
    lemma_same8(b, off, p.0, q.0);
    lemma_same8(b, off + 8, p.1, q.1);
    lemma_same8(b, off + 16, p.2, q.2);
    lemma_same8(b, off + 24, p.3, q.3);
    lemma_same8(b, off + 32, p.4, q.4);
    lemma_same8(b, off + 40, p.5, q.5);
}

proof fn lemma_params_parts(b: Seq<u8>, off: int, p: ParamsParts)
    requires
        at(b, off, params_bytes(p)),
    ensures
        at(b, off, le8(p.0)),
        at(b, off + 8, le8(p.1)),
        at(b, off + 16, le8(p.2)),
        at(b, off + 24, le8(p.3)),
        at(b, off + 32, le8(p.4)),
        at(b, off + 40, le8(p.5)),
        params_bytes(p).len() == 48,
{
    lemma_le8(p.0);
    lemma_le8(p.1);
    lemma_le8(p.2);
    lemma_le8(p.3);
    lemma_le8(p.4);
    lemma_le8(p.5);
    let two = le8(p.0) + le8(p.1);
    let three = two + le8(p.2);
    let four = three + le8(p.3);
    lemma_at_split(b, off, four + le8(p.4), le8(p.5));
    lemma_at_split(b, off, four, le8(p.4));
    lemma_at_split(b, off, three, le8(p.3));
    lemma_at_split(b, off, two, le8(p.2));
    lemma_at_split(b, off, le8(p.0), le8(p.1));
}

proof fn lemma_meta_parts(b: Seq<u8>, m: MetaImage)
    requires
        at(b, 0, meta_bytes(m)),
    ensures
        ({
            let e = list_bytes(m.4, eight());
            let f = list_bytes(m.5, lists());
            let g = option_bytes(m.6, eight());
            &&& at(b, 0, params_bytes(m.0))
            &&& at(b, 48, le4(m.1))
            &&& at(b, 52, le8(m.2))
            &&& at(b, 60, le8(m.3))
            &&& at(b, 68, e)
            &&& at(b, 68int + e.len(), f)
            &&& at(b, 68int + e.len() + f.len(), g)
            &&& at(b, 68int + e.len() + f.len() + g.len(), list_bytes(m.7, flag()))
        }),
{
    reveal(meta_bytes);
    lemma_le4(m.1);
    lemma_le8(m.2);
    lemma_le8(m.3);
    let one = params_bytes(m.0);
    let two = one + le4(m.1);
    let three = two + le8(m.2);
    let four = three + le8(m.3);
    let five = four + list_bytes(m.4, eight());
    let six = five + list_bytes(m.5, lists());
    let seven = six + option_bytes(m.6, eight());
    lemma_at_split(b, 0, seven, list_bytes(m.7, flag()));
    lemma_at_split(b, 0, six, option_bytes(m.6, eight()));
    lemma_at_split(b, 0, five, list_bytes(m.5, lists()));
    lemma_at_split(b, 0, four, list_bytes(m.4, eight()));
    lemma_at_split(b, 0, three, le8(m.3));
    lemma_at_split(b, 0, two, le8(m.2));
    lemma_at_split(b, 0, one, le4(m.1));
    lemma_params_parts(b, 0, m.0);
}

/// Only one graph section stands at the front of some bytes, so reading what
/// was written gives it back.
pub proof fn written_section_reads_back(m: MetaImage)
    requires
        meta_bytes(m).len() <= u64::MAX,
    ensures
        meta_decoding(meta_bytes(m)) == Some(m),
        take4(meta_bytes(m), 48) == Some((m.1, 52int)),
{
    reveal(meta_decoding);
    let b = meta_bytes(m);
    assert(b.subrange(0, b.len() as int) =~= b);
    assert(at(b, 0, meta_bytes(m)));
    let k = choose|k: MetaImage| at(b, 0, #[trigger] meta_bytes(k));
    lemma_meta_parts(b, m);
    lemma_meta_parts(b, k);
    lemma_take4(b, 48, m.1);
    lemma_eight();
    lemma_flag();
    lemma_lists();
    lemma_same_params(b, 0, m.0, k.0);
    lemma_same4(b, 48, m.1, k.1);
    lemma_same8(b, 52, m.2, k.2);
    lemma_same8(b, 60, m.3, k.3);
    let e = list_bytes(m.4, eight());
    let f = list_bytes(m.5, lists());
    let g = option_bytes(m.6, eight());
    lemma_same_list(b, 68, m.4, k.4, eight());
    lemma_same_list(b, 68int + e.len(), m.5, k.5, lists());
    lemma_same_option(b, 68int + e.len() + f.len(), m.6, k.6, eight());
    lemma_same_list(b, 68int + e.len() + f.len() + g.len(), m.7, k.7, flag());
}

/// The graph section that stands at the front of some bytes; what follows is not
/// looked at.
#[verifier::opaque]
pub open spec fn meta_decoding(bytes: Seq<u8>) -> Option<MetaImage> {
    if exists|m: MetaImage| at(bytes, 0, #[trigger] meta_bytes(m)) {
        Some(choose|m: MetaImage| at(bytes, 0, #[trigger] meta_bytes(m)))
    } else {
        None
    }
}

/// Writes a graph section.
///
/// Calls `bincode::serialize`. Trusted: it succeeds and gives the parts one
/// after the other, numbers in little-endian bytes, lists with their count in
/// front, and the entry point behind a byte that says whether there is one.
#[verifier::external_body]
fn serialize_meta(meta: &MetaParts) -> (r: Result<Vec<u8>, String>)
    ensures
        r is Ok,
        r->Ok_0@ == meta_bytes(meta_view(*meta)),
{
    match bincode::serialize(meta) {
        Ok(b) => Ok(b),
        Err(e) => Err(e.to_string()),
    }
}

/// What the bincode library says of bytes that should be a graph section and are
/// not.
pub uninterp spec fn meta_fault(bytes: Seq<u8>) -> Seq<char>;

/// Reads a graph section.
///
/// Calls `bincode::deserialize`. Trusted: it succeeds where the bytes of a graph
/// section are next, and gives that section; what follows is not looked at. What
/// it says of other bytes has a name.
#[verifier::external_body]
fn deserialize_meta(bytes: &[u8]) -> (r: Result<MetaParts, String>)
    ensures
        meta_decoding(bytes@) == (match r {
            Ok(m) => Some(meta_view(m)),
            Err(_) => None,
        }),
        r matches Err(e) ==> e@ == meta_fault(bytes@),
{
    match bincode::deserialize(bytes) {
        Ok(m) => Ok(m),
        Err(e) => Err(e.to_string()),
    }
}

/// The code of the metric at an offset, where it is none of the three. The codes
/// come before what follows them: nothing behind an unknown one is read.
pub open spec fn unknown_metric(bytes: Seq<u8>, off: int) -> Option<u32> {
    match take4(bytes, off) {
        Some((code, _)) => if code > 2 {
            Some(code)
        } else {
            None
        },
        None => None,
    }
}

pub fn find_unknown_metric(bytes: &[u8], off: usize) -> (r: Option<u32>)
    ensures
        r == unknown_metric(bytes@, off as int),
{
    let total: usize = bytes.len();
    if total < 4 || off > total - 4 {
        return None;
    }
    let code: u32 = read_u32(bytes, off);
    if code > 2 {
        Some(code)
    } else {
        None
    }
}

/// The first of the link and width parameters that the machine cannot count to.
pub open spec fn oversized(p: ParamsParts) -> Option<u64> {
    if p.0 > usize::MAX {
        Some(p.0)
    } else if p.1 > usize::MAX {
        Some(p.1)
    } else if p.2 > usize::MAX {
        Some(p.2)
    } else if p.3 > usize::MAX {
        Some(p.3)
    } else {
        None
    }
}

pub fn find_oversized(p: ParamsParts) -> (r: Option<u64>)
    ensures
        r == oversized(p),
{
    let most: u64 = usize::MAX as u64;
    if p.0 > most {
        Some(p.0)
    } else if p.1 > most {
        Some(p.1)
    } else if p.2 > most {
        Some(p.2)
    } else if p.3 > most {
        Some(p.3)
    } else {
        None
    }
}

pub open spec fn too_large(x: u64) -> Seq<char> {
    "invalid value: integer `"@ + decimal(x as int) + "`, expected usize"@
}

pub fn size_message(x: u64) -> (s: String)
    ensures
        s@ == too_large(x),
{
    let mut s: String = String::from_str("invalid value: integer `");
    push_decimal(&mut s, x);
    s.append("`, expected usize");
    s
}

pub open spec fn params_parts(p: HnswParams) -> ParamsParts {
    (
        p.m as u64,
        p.m_max0 as u64,
        p.ef_construction as u64,
        p.ef_search as u64,
        p.seed,
        p.tombstone_threshold,
    )
}

pub open spec fn widened(links: Links) -> Seq<Seq<Seq<u64>>> {
    Seq::new(
        links.len(),
        |s: int|
            Seq::new(
                links[s].len(),
                |l: int| Seq::new(links[s][l].len(), |i: int| links[s][l][i] as u64),
            ),
    )
}

/// The graph section of an index.
pub open spec fn image_of(h: Hnsw) -> MetaImage {
    (
        params_parts(h.params),
        h.metric.code(),
        h.dim as u64,
        h.ids.len() as u64,
        Seq::new(h.ids.len(), |s: int| h.ids[s].0),
        widened(h.links),
        match h.entry {
            Some(e) => Some(e as u64),
            None => None,
        },
        h.deleted,
    )
}

pub open spec fn vector_bytes(v: Seq<u32>) -> Seq<u8>
    decreases v.len(),
{
    if v.len() == 0 {
        Seq::empty()
    } else {
        vector_bytes(v.drop_last()) + le4(v.last())
    }
}

pub open spec fn section_bytes(vectors: Seq<Seq<u32>>) -> Seq<u8>
    decreases vectors.len(),
{
    if vectors.len() == 0 {
        Seq::empty()
    } else {
        section_bytes(vectors.drop_last()) + vector_bytes(vectors.last())
    }
}

/// The least multiple of four that is not below `n`.
pub open spec fn aligned(n: int) -> int {
    (n + 3) / 4 * 4
}

pub open spec fn zeros(n: int) -> Seq<u8> {
    Seq::new(n as nat, |i: int| 0u8)
}

/// The file before its checksum.
pub open spec fn file_body(meta: Seq<u8>, vectors: Seq<Seq<u32>>) -> Seq<u8> {
    let end = 16 + meta.len() as int;
    magic() + le4(FORMAT_VERSION) + le8(meta.len() as u64) + meta + zeros(aligned(end) - end)
        + section_bytes(vectors)
}

/// A whole file.
pub open spec fn file_bytes(meta: Seq<u8>, vectors: Seq<Seq<u32>>) -> Seq<u8> {
    file_body(meta, vectors) + le4(crc32_of(file_body(meta, vectors)))
}

pub open spec fn section_fault(expected: int, found: int) -> Seq<char> {
    "the vector section should have been "@ + decimal(expected) + " bytes, found "@ + decimal(found)
}

/// The graph section of a file, and where its vectors start: the header and the
/// checksum are in order, and the lengths add up.
pub open spec fn opened(bytes: Seq<u8>) -> Result<(MetaImage, int), Fault> {
    let body = bytes.take(bytes.len() - 4);
    let version = le_value(bytes.subrange(4, 8)) as u32;
    let end = 16 + le_value(bytes.subrange(8, 16));
    if bytes.len() < 20 {
        Err(Fault::Corrupt("file too short even for the header"@))
    } else if bytes.subrange(0, 4) != magic() {
        Err(Fault::Corrupt("magic mismatch (this is not a GVDB file)"@))
    } else if version != FORMAT_VERSION {
        Err(Fault::UnsupportedVersion(version))
    } else if crc32_of(body) != le_value(bytes.subrange(bytes.len() - 4, bytes.len() as int)) {
        Err(Fault::Corrupt("crc32 mismatch (file corrupted/truncated)"@))
    } else if end > usize::MAX {
        Err(Fault::Corrupt("meta_len overflows"@))
    } else if end > body.len() {
        Err(Fault::Corrupt("meta_len exceeds the file size"@))
    } else {
        let section = bytes.subrange(16, end);
        match (unknown_metric(section, 48), meta_decoding(section)) {
            (Some(code), _) => Err(Fault::Encode(unknown_variant(code, 3))),
            (None, None) => Err(Fault::Encode(meta_fault(section))),
            (None, Some(meta)) => match oversized(meta.0) {
                Some(x) => Err(Fault::Encode(too_large(x))),
                None => {
                    let expected = meta.3 * meta.2 * 4;
                    let found = if body.len() < aligned(end) {
                        0
                    } else {
                        body.len() - aligned(end)
                    };
                    if expected > usize::MAX {
                        Err(Fault::Corrupt("n*dim overflows"@))
                    } else if body.len() < aligned(end) || found != expected {
                        Err(Fault::Corrupt(section_fault(expected, found)))
                    } else {
                        Ok((meta, aligned(end)))
                    }
                },
            },
        }
    }
}

/// The metric is one of the three, and the sizes fit the machine.
pub open spec fn readable(meta: MetaImage) -> bool {
    &&& meta.1 <= 2
    &&& meta.0.0 <= usize::MAX
    &&& meta.0.1 <= usize::MAX
    &&& meta.0.2 <= usize::MAX
    &&& meta.0.3 <= usize::MAX
}

/// What is opened is readable.
proof fn lemma_opened_readable(bytes: Seq<u8>)
    ensures
        opened(bytes) matches Ok((m, _)) ==> readable(m),
{
    if let Ok((m, _)) = opened(bytes) {
        let end = 16 + le_value(bytes.subrange(8, 16));
        let section = bytes.subrange(16, end);
        reveal(meta_decoding);
        lemma_meta_parts(section, m);
        lemma_take4(section, 48, m.1);
    }
}

/// A link leads to a slot that has the level.
pub open spec fn leads(links: Seq<Seq<Seq<u64>>>, level: int, x: u64) -> bool {
    x < links.len() && level < links[x as int].len()
}

pub open spec fn node_sound(links: Seq<Seq<Seq<u64>>>, s: int) -> bool {
    forall|l: int, i: int|
        0 <= l < links[s].len() && 0 <= i < links[s][l].len() ==> leads(
            links,
            l,
            #[trigger] links[s][l][i],
        )
}

/// What is wrong with the first node that something is wrong with, among the
/// first `n`.
pub open spec fn links_fault(links: Seq<Seq<Seq<u64>>>, n: int) -> Option<Fault>
    decreases n,
{
    if n <= 0 {
        None
    } else if links_fault(links, n - 1) is Some {
        links_fault(links, n - 1)
    } else if links[n - 1].len() == 0 {
        Some(Fault::Corrupt("node has no levels at all"@))
    } else if !node_sound(links, n - 1) {
        Some(Fault::Corrupt("neighbour slot out of bounds"@))
    } else {
        None
    }
}

pub open spec fn unique_live(ids: Seq<u64>, deleted: Seq<bool>, n: int) -> bool {
    forall|s: int, t: int|
        0 <= s < n && 0 <= t < n && !deleted[s] && !deleted[t] && #[trigger] ids[s]
            == #[trigger] ids[t] ==> s == t
}

/// What is wrong with a graph section, if anything.
pub open spec fn image_fault(meta: MetaImage) -> Option<Fault> {
    let n = meta.3;
    if meta.2 == 0 || meta.2 > 1048576 {
        Some(Fault::Corrupt("implausible dim"@))
    } else if meta.4.len() != n || meta.5.len() != n {
        Some(Fault::Corrupt("ids/links length does not match n"@))
    } else if links_fault(meta.5, n as int) is Some {
        links_fault(meta.5, n as int)
    } else if meta.7.len() != n {
        Some(Fault::Corrupt("deleted length does not match n"@))
    } else if meta.6 matches Some(e) && e >= n {
        Some(Fault::Corrupt("entry point out of bounds"@))
    } else if meta.6 is None && count_set(meta.7) != n {
        Some(Fault::Corrupt("there are live elements but no entry"@))
    } else if !unique_live(meta.4, meta.7, n as int) {
        Some(Fault::Corrupt("duplicate live VectorId"@))
    } else {
        None
    }
}

pub open spec fn narrowed(links: Seq<Seq<Seq<u64>>>) -> Links {
    Seq::new(
        links.len(),
        |s: int|
            Seq::new(
                links[s].len(),
                |l: int| Seq::new(links[s][l].len(), |i: int| links[s][l][i] as usize),
            ),
    )
}

pub open spec fn metric_of(code: u32) -> Metric {
    if code == 0 {
        Metric::L2
    } else if code == 1 {
        Metric::Dot
    } else {
        Metric::Cosine
    }
}

/// The vectors that a file holds from an offset on.
pub open spec fn vectors_at(bytes: Seq<u8>, off: int, n: nat, dim: nat) -> Seq<Seq<u32>> {
    Seq::new(
        n,
        |s: int|
            Seq::new(
                dim,
                |j: int|
                    le_value(
                        bytes.subrange(off + (s * dim + j) * 4, off + (s * dim + j) * 4 + 4),
                    ) as u32,
            ),
    )
}

/// The index of a graph section and its vectors. The level generator starts
/// over, seeded by the seed and the number of slots.
pub open spec fn index_of(meta: MetaImage, vectors: Seq<Seq<u32>>) -> Hnsw {
    Hnsw {
        params: HnswParams {
            m: meta.0.0 as usize,
            m_max0: meta.0.1 as usize,
            ef_construction: meta.0.2 as usize,
            ef_search: meta.0.3 as usize,
            seed: meta.0.4,
            tombstone_threshold: meta.0.5,
        },
        metric: metric_of(meta.1),
        dim: meta.2 as nat,
        vectors,
        ids: Seq::new(meta.4.len(), |s: int| VectorId(meta.4[s])),
        links: narrowed(meta.5),
        entry: match meta.6 {
            Some(e) => Some(e as usize),
            None => None,
        },
        deleted: meta.7,
        level_seed: meta.0.4 ^ meta.3,
        level_m: if meta.0.0 < 2 {
            2
        } else {
            meta.0.0 as usize
        },
        loaded: meta.3 as nat,
    }
}

/// What reading a file gives.
pub open spec fn loaded(bytes: Seq<u8>) -> Result<Hnsw, Fault> {
    match opened(bytes) {
        Err(f) => Err(f),
        Ok((meta, off)) => match image_fault(meta) {
            Some(f) => Err(f),
            None => Ok(
                index_of(meta, vectors_at(bytes, off, meta.3 as nat, meta.2 as nat)),
            ),
        },
    }
}

/// Where one byte of a readable file changes, padding and checksum not excepted,
/// the file is refused. So is what is shorter than a header.
pub proof fn changed_file_is_refused(b: Seq<u8>, p: int, x: u8)
    requires
        0 <= p < b.len(),
        b[p] != x,
    ensures
        loaded(b) is Ok ==> loaded(b.update(p, x)) is Err,
        b.len() < 20 ==> loaded(b) == Err::<Hnsw, Fault>(
            Fault::Corrupt("file too short even for the header"@),
        ),
{
    if loaded(b) is Ok {
        changed_byte_is_noticed(b, p, x);
    }
}

/// What reading back a written index gives: the same index with its level
/// generator started over.
pub open spec fn reopened(h: Hnsw) -> Hnsw {
    Hnsw {
        level_seed: h.params.seed ^ (h.ids.len() as u64),
        level_m: if h.params.m < 2 {
            2
        } else {
            h.params.m
        },
        loaded: h.ids.len(),
        ..h
    }
}

proof fn lemma_vector_bytes(v: Seq<u32>)
    ensures
        vector_bytes(v).len() == 4 * v.len(),
        forall|j: int|
            0 <= j < v.len() ==> vector_bytes(v).subrange(4 * j, 4 * j + 4) == le4(#[trigger] v[j]),
    decreases v.len(),
{
    if v.len() > 0 {
        let t = v.drop_last();
        lemma_vector_bytes(t);
        lemma_le4(v.last());
        let b = vector_bytes(v);
        assert forall|j: int| 0 <= j < v.len() implies b.subrange(4 * j, 4 * j + 4) == le4(
            #[trigger] v[j],
        ) by {
            if j < t.len() {
                assert(b.subrange(4 * j, 4 * j + 4) =~= vector_bytes(t).subrange(
                    4 * j,
                    4 * j + 4,
                ));
                assert(t[j] == v[j]);
            } else {
                assert(b.subrange(4 * j, 4 * j + 4) =~= le4(v.last()));
            }
        }
    }
}

/// Component `j` of vector `s` is `x`.
spec fn holds_component(section: Seq<u8>, dim: int, s: int, j: int, x: u32) -> bool {
    let o = (s * dim + j) * 4;
    0 <= o && o + 4 <= section.len() && section.subrange(o, o + 4) == le4(x)
}

proof fn lemma_section_bytes(vectors: Seq<Seq<u32>>, dim: int)
    requires
        forall|s: int| 0 <= s < vectors.len() ==> (#[trigger] vectors[s]).len() == dim,
    ensures
        section_bytes(vectors).len() == vectors.len() * dim * 4,
        forall|s: int, j: int|
            0 <= s < vectors.len() && 0 <= j < dim ==> #[trigger] holds_component(
                section_bytes(vectors),
                dim,
                s,
                j,
                vectors[s][j],
            ),
    decreases vectors.len(),
{
    if vectors.len() > 0 {
        let t = vectors.drop_last();
        let n = t.len() as int;
        assert forall|s: int| 0 <= s < t.len() implies (#[trigger] t[s]).len() == dim by {
            assert(t[s] == vectors[s]);
        }
        lemma_section_bytes(t, dim);
        let last = vectors.last();
        lemma_vector_bytes(last);
        assert(vectors[n].len() == dim);
        let b = section_bytes(vectors);
        let head = section_bytes(t);
        assert((n + 1) * dim * 4 == n * dim * 4 + 4 * dim) by (nonlinear_arith);
        assert forall|s: int, j: int|
            0 <= s < vectors.len() && 0 <= j < dim implies #[trigger] holds_component(
            b,
            dim,
            s,
            j,
            vectors[s][j],
        ) by {
            let o = (s * dim + j) * 4;
            if s < n {
                assert(t[s][j] == vectors[s][j]);
                assert(holds_component(head, dim, s, j, t[s][j]));
                assert(b.subrange(o, o + 4) =~= head.subrange(o, o + 4));
            } else {
                assert(o == n * dim * 4 + 4 * j) by (nonlinear_arith)
                    requires
                        o == (s * dim + j) * 4,
                        s == n,
                ;
                assert(0 <= n * dim) by (nonlinear_arith)
                    requires
                        0 <= n,
                        0 <= dim,
                ;
                assert(b.subrange(o, o + 4) =~= vector_bytes(last).subrange(4 * j, 4 * j + 4));
                assert(last[j] == vectors[s][j]);
            }
        }
    } else {
        assert(0 * dim * 4 == 0) by (nonlinear_arith);
    }
}

/// The parts of a file stand where the header says.
proof fn lemma_file_parts(meta: Seq<u8>, vectors: Seq<Seq<u32>>)
    requires
        meta.len() <= u64::MAX,
    ensures
        ({
            let b = file_bytes(meta, vectors);
            let end = 16 + meta.len() as int;
            let body = file_body(meta, vectors);
            &&& b.len() == body.len() + 4
            &&& body.len() == aligned(end) + section_bytes(vectors).len()
            &&& b.take(b.len() - 4) == body
            &&& b.subrange(0, 4) == magic()
            &&& b.subrange(4, 8) == le4(FORMAT_VERSION)
            &&& b.subrange(8, 16) == le8(meta.len() as u64)
            &&& b.subrange(16, end) == meta
            &&& b.subrange(b.len() - 4, b.len() as int) == le4(crc32_of(body))
            &&& b.subrange(aligned(end), body.len() as int) == section_bytes(vectors)
        }),
{
    lemma_le4(FORMAT_VERSION);
    lemma_le8(meta.len() as u64);
    let body = file_body(meta, vectors);
    lemma_le4(crc32_of(body));
    let b = file_bytes(meta, vectors);
    let end = 16 + meta.len() as int;
    assert(b.take(b.len() - 4) =~= body);
    assert(b.subrange(0, 4) =~= magic());
    assert(b.subrange(4, 8) =~= le4(FORMAT_VERSION));
    assert(b.subrange(8, 16) =~= le8(meta.len() as u64));
    assert(b.subrange(16, end) =~= meta);
    assert(b.subrange(b.len() - 4, b.len() as int) =~= le4(crc32_of(body)));
    assert(b.subrange(aligned(end), body.len() as int) =~= section_bytes(vectors));
}

/// A graph section that came from a sound index has nothing wrong with it.
proof fn lemma_image_sound(h: Hnsw)
    requires
        h.valid(),
        0 < h.dim <= 1048576,
        h.ids.len() <= usize::MAX,
        forall|s: int| 0 <= s < h.links.len() ==> (#[trigger] h.links[s]).len() <= usize::MAX,
    ensures
        image_fault(image_of(h)) is None,
        readable(image_of(h)),
        narrowed(widened(h.links)) == h.links,
{
    let meta = image_of(h);
    let w = widened(h.links);
    let n = h.ids.len() as int;
    assert(meta.3 == n);
    assert forall|k: int| 0 <= k <= n implies links_fault(w, k) is None by {
        lemma_links_sound(h, k);
    }
    lemma_count_set(h.deleted);
    if h.entry is None {
        lemma_all_set(h.deleted);
    }
    assert forall|s: int, t: int|
        0 <= s < n && 0 <= t < n && !meta.7[s] && !meta.7[t] && #[trigger] meta.4[s]
            == #[trigger] meta.4[t] implies s == t by {
        assert(h.ids[s] == h.ids[t]);
    }
    assert(narrowed(w) =~= h.links) by {
        assert forall|s: int| 0 <= s < n implies #[trigger] narrowed(w)[s] == h.links[s] by {
            assert forall|l: int| 0 <= l < h.links[s].len() implies #[trigger] narrowed(w)[s][l]
                == h.links[s][l] by {
                assert(narrowed(w)[s][l] =~= h.links[s][l]);
            }
            assert(narrowed(w)[s] =~= h.links[s]);
        }
    }
}

proof fn lemma_links_sound(h: Hnsw, k: int)
    requires
        h.valid(),
        0 <= k <= h.ids.len(),
    ensures
        links_fault(widened(h.links), k) is None,
    decreases k,
{
    if k > 0 {
        lemma_links_sound(h, k - 1);
        let w = widened(h.links);
        let s = k - 1;
        assert(h.links[s].len() > 0);
        assert forall|l: int, i: int|
            0 <= l < w[s].len() && 0 <= i < w[s][l].len() implies leads(
            w,
            l,
            #[trigger] w[s][l][i],
        ) by {
            assert(on_level(h.links, h.links[s][l][i], l));
        }
    }
}

proof fn lemma_all_set(flags: Seq<bool>)
    requires
        forall|i: int| 0 <= i < flags.len() ==> flags[i],
    ensures
        count_set(flags) == flags.len(),
    decreases flags.len(),
{
    if flags.len() > 0 {
        lemma_all_set(flags.drop_last());
    }
}

/// Reading a written file gives the index back.
pub proof fn written_index_reads_back(h: Hnsw)
    requires
        h.valid(),
        0 < h.dim <= 1048576,
        h.ids.len() <= usize::MAX,
        forall|s: int| 0 <= s < h.links.len() ==> (#[trigger] h.links[s]).len() <= usize::MAX,
        file_bytes(meta_bytes(image_of(h)), h.vectors).len() <= usize::MAX,
    ensures
        loaded(file_bytes(meta_bytes(image_of(h)), h.vectors)) == Ok::<Hnsw, Fault>(reopened(h)),
{
    let meta = meta_bytes(image_of(h));
    let b = file_bytes(meta, h.vectors);
    written_section_reads_back(image_of(h));
    let n = h.ids.len();
    let end = 16 + meta.len() as int;
    assert(meta.len() <= file_body(meta, h.vectors).len() <= b.len());
    lemma_file_parts(meta, h.vectors);
    lemma_le4(FORMAT_VERSION);
    lemma_le8(meta.len() as u64);
    lemma_le4(crc32_of(file_body(meta, h.vectors)));
    lemma_image_sound(h);
    lemma_section_bytes(h.vectors, h.dim as int);
    let img = image_of(h);
    assert(img.2 == h.dim && img.3 == n);
    assert(opened(b) == Ok::<(MetaImage, int), Fault>((img, aligned(end))));
    let off = aligned(end);
    let vs = vectors_at(b, off, n, h.dim);
    assert(vs =~= h.vectors) by {
        assert forall|s: int| 0 <= s < n implies #[trigger] vs[s] == h.vectors[s] by {
            assert(h.vectors[s].len() == h.dim);
            assert forall|j: int| 0 <= j < h.dim implies #[trigger] vs[s][j]
                == h.vectors[s][j] by {
                let o = (s * h.dim + j) * 4;
                let sec = section_bytes(h.vectors);
                assert(holds_component(sec, h.dim as int, s, j, h.vectors[s][j]));
                assert(b.subrange(off + o, off + o + 4) =~= sec.subrange(o, o + 4)) by {
                    assert(sec == b.subrange(off, off + sec.len()));
                }
                lemma_le4(h.vectors[s][j]);
            }
            assert(vs[s] =~= h.vectors[s]);
        }
    }
    let back = index_of(img, vs);
    assert(back.ids =~= h.ids);
    assert(back.links == h.links);
}

fn widen_list(list: &Vec<usize>) -> (out: Vec<u64>)
    ensures
        out@ == Seq::new(list@.len(), |i: int| list@[i] as u64),
{
    let mut out: Vec<u64> = Vec::new();
    let mut i: usize = 0;
    while i < list.len()
        invariant
            i <= list@.len(),
            out@ =~= Seq::new(i as nat, |j: int| list@[j] as u64),
        decreases list@.len() - i,
    {
        out.push(list[i] as u64);
        i = i + 1;
    }
    out
}

fn widen_levels(levels: &Vec<Vec<usize>>) -> (out: Vec<Vec<u64>>)
    ensures
        lists_view(out) == Seq::new(
            levels@.len(),
            |l: int| Seq::new(levels@[l]@.len(), |i: int| levels@[l]@[i] as u64),
        ),
{
    let mut out: Vec<Vec<u64>> = Vec::new();
    let mut l: usize = 0;
    while l < levels.len()
        invariant
            l <= levels@.len(),
            out@.len() == l,
            forall|k: int|
                0 <= k < l ==> (#[trigger] out@[k])@ == Seq::new(
                    levels@[k]@.len(),
                    |i: int| levels@[k]@[i] as u64,
                ),
        decreases levels@.len() - l,
    {
        out.push(widen_list(&levels[l]));
        l = l + 1;
    }
    assert(lists_view(out) =~= Seq::new(
        levels@.len(),
        |l: int| Seq::new(levels@[l]@.len(), |i: int| levels@[l]@[i] as u64),
    ));
    out
}

fn widen_links(links: &Vec<Vec<Vec<usize>>>) -> (out: Vec<Vec<Vec<u64>>>)
    ensures
        wide_view(out@) == widened(links_view(links@)),
{
    let ghost lv = links_view(links@);
    let mut out: Vec<Vec<Vec<u64>>> = Vec::new();
    let mut s: usize = 0;
    while s < links.len()
        invariant
            s <= links@.len(),
            lv == links_view(links@),
            out@.len() == s,
            forall|k: int| 0 <= k < s ==> lists_view(#[trigger] out@[k]) == widened(lv)[k],
        decreases links@.len() - s,
    {
        let w: Vec<Vec<u64>> = widen_levels(&links[s]);
        assert(lists_view(w) =~= widened(lv)[s as int]) by {
            assert forall|l: int| 0 <= l < lv[s as int].len() implies #[trigger] lists_view(w)[l]
                == widened(lv)[s as int][l] by {
                assert(lists_view(w)[l] =~= widened(lv)[s as int][l]);
            }
        }
        out.push(w);
        s = s + 1;
    }
    assert(wide_view(out@) =~= widened(lv));
    out
}

fn push_vector(buf: &mut Vec<u8>, v: &Vec<u32>)
    ensures
        final(buf)@ == old(buf)@ + vector_bytes(v@),
{
    let ghost before = buf@;
    let mut i: usize = 0;
    while i < v.len()
        invariant
            i <= v@.len(),
            buf@ =~= before + vector_bytes(v@.take(i as int)),
        decreases v@.len() - i,
    {
        proof {
            assert(v@.take(i + 1).drop_last() =~= v@.take(i as int));
        }
        push_u32(buf, v[i]);
        i = i + 1;
    }
    assert(v@.take(i as int) =~= v@);
}

impl HnswIndex {
    /// The file of the index.
    pub fn to_bytes(&self) -> (r: Result<Vec<u8>, PersistError>)
        requires
            self.wf(),
        ensures
            match r {
                Ok(b) => {
                    &&& b@ == file_bytes(meta_bytes(image_of(self@)), self@.vectors)
                    &&& 0 < self@.dim <= 1048576 ==> loaded(b@) == Ok::<Hnsw, Fault>(
                        reopened(self@),
                    )
                },
                Err(_) => false,
            },
    {
        let n: usize = self.ids.len();
        let mut ids: Vec<u64> = Vec::new();
        let mut i: usize = 0;
        while i < n
            invariant
                i <= n == self.ids@.len(),
                ids@ =~= Seq::new(i as nat, |j: int| self.ids@[j].0),
            decreases n - i,
        {
            ids.push(self.ids[i].0);
            i = i + 1;
        }
        let mut deleted: Vec<bool> = Vec::new();
        let mut d: usize = 0;
        while d < self.deleted.len()
            invariant
                d <= self.deleted@.len(),
                deleted@ =~= self.deleted@.take(d as int),
            decreases self.deleted@.len() - d,
        {
            deleted.push(self.deleted[d]);
            d = d + 1;
        }
        assert(deleted@ =~= self.deleted@);
        let params: ParamsParts = (
            self.params.m as u64,
            self.params.m_max0 as u64,
            self.params.ef_construction as u64,
            self.params.ef_search as u64,
            self.params.seed,
            self.params.tombstone_threshold,
        );
        let entry: Option<u64> = match self.entry {
            Some(e) => Some(e as u64),
            None => None,
        };
        let parts: MetaParts = (
            params,
            self.metric.to_code(),
            self.dim as u64,
            n as u64,
            ids,
            widen_links(&self.links),
            entry,
            deleted,
        );
        assert(meta_view(parts) == image_of(self@));
        let meta: Vec<u8> = match serialize_meta(&parts) {
            Ok(b) => b,
            Err(why) => {
                return Err(PersistError::Encode(why));
            },
        };
        let mut buf: Vec<u8> = Vec::new();
        buf.push(71);
        buf.push(86);
        buf.push(68);
        buf.push(66);
        assert(buf@ =~= magic());
        push_u32(&mut buf, FORMAT_VERSION);
        push_u64(&mut buf, meta.len() as u64);
        proof {
            lemma_le4(FORMAT_VERSION);
            lemma_le8(meta@.len() as u64);
        }
        push_all(&mut buf, meta.as_slice());
        let ghost head = buf@;
        let ghost end = 16 + meta@.len();
        assert(head.len() == end);
        while buf.len() % 4 != 0
            invariant
                end <= buf@.len() <= aligned(end as int),
                end == head.len(),
                buf@ =~= head + zeros(buf@.len() - end),
            decreases aligned(end as int) - buf@.len(),
        {
            buf.push(0);
        }
        assert(buf@.len() == aligned(end as int));
        let ghost padded = buf@;
        let mut s: usize = 0;
        while s < self.vectors.len()
            invariant
                s <= self.vectors@.len(),
                buf@ =~= padded + section_bytes(vectors_view(self.vectors@).take(s as int)),
            decreases self.vectors@.len() - s,
        {
            proof {
                let vs = vectors_view(self.vectors@);
                assert(vs.take(s + 1).drop_last() =~= vs.take(s as int));
                assert(vs.take(s + 1).last() == self.vectors@[s as int]@);
            }
            push_vector(&mut buf, &self.vectors[s]);
            s = s + 1;
        }
        proof {
            assert(vectors_view(self.vectors@).take(s as int) =~= self@.vectors);
            assert(buf@ =~= file_body(meta@, self@.vectors));
        }
        let crc: u32 = crc32(buf.as_slice());
        push_u32(&mut buf, crc);
        proof {
            assert(buf@ == file_bytes(meta@, self@.vectors));
            let total = buf.len();
            if 0 < self@.dim <= 1048576 {
                assert forall|t: int| 0 <= t < self@.links.len() implies (
                #[trigger] self@.links[t]).len() <= usize::MAX by {
                    assert(self@.links[t].len() == self.links@[t].len());
                }
                written_index_reads_back(self@);
            }
        }
        Ok(buf)
    }
}

/// Checks header, checksum and lengths, and reads the graph section. Returns it
/// with the offset of the vectors.
fn parse(bytes: &[u8]) -> (r: Result<(MetaParts, usize), PersistError>)
    ensures
        opened(bytes@) == (match r {
            Ok(p) => Ok::<(MetaImage, int), Fault>((meta_view(p.0), p.1 as int)),
            Err(e) => Err(e@),
        }),
{
    let total: usize = bytes.len();
    if total < 20 {
        return Err(corrupt("file too short even for the header"));
    }
    let expect: [u8; 4] = [71, 86, 68, 66];
    proof {
        assert(expect@ =~= magic());
    }
    if !four_at(bytes, 0, expect) {
        return Err(corrupt("magic mismatch (this is not a GVDB file)"));
    }
    let version: u32 = read_u32(bytes, 4);
    if version != FORMAT_VERSION {
        return Err(PersistError::UnsupportedVersion(version));
    }
    let body: usize = total - 4;
    let stored: u32 = read_u32(bytes, body);
    if crc32_prefix(bytes, body) != stored {
        return Err(corrupt("crc32 mismatch (file corrupted/truncated)"));
    }
    let meta_len: u64 = read_u64(bytes, 8);
    if meta_len > (usize::MAX - 16) as u64 {
        return Err(corrupt("meta_len overflows"));
    }
    let end: usize = 16 + meta_len as usize;
    if end > body {
        return Err(corrupt("meta_len exceeds the file size"));
    }
    let section: &[u8] = slice_subrange(bytes, 16, end);
    if let Some(code) = find_unknown_metric(section, 48) {
        return Err(PersistError::Encode(variant_message(code, 3)));
    }
    let meta: MetaParts = match deserialize_meta(section) {
        Ok(m) => m,
        Err(why) => {
            return Err(PersistError::Encode(why));
        },
    };
    if let Some(x) = find_oversized(meta.0) {
        return Err(PersistError::Encode(size_message(x)));
    }
    let off: usize = (end + 3) / 4 * 4;
    let ghost want = meta.3 * meta.2 * 4;
    let expected: usize = match section_size(meta.3, meta.2) {
        Some(x) => x,
        None => {
            return Err(corrupt("n*dim overflows"));
        },
    };
    let found: usize = if body < off { 0 } else { body - off };
    if body < off || found != expected {
        let mut msg: String = String::from_str("the vector section should have been ");
        push_decimal(&mut msg, expected as u64);
        msg.append(" bytes, found ");
        push_decimal(&mut msg, found as u64);
        return Err(PersistError::Corrupt(msg));
    }
    Ok((meta, off))
}

/// The size of a section of `n` vectors, where it fits the machine.
fn section_size(n: u64, dim: u64) -> (r: Option<usize>)
    ensures
        match r {
            Some(x) => x == n * dim * 4,
            None => n * dim * 4 > usize::MAX,
        },
{
    match n.checked_mul(dim) {
        None => {
            assert(n * dim * 4 > usize::MAX);
            None
        },
        Some(p) => match p.checked_mul(4) {
            None => None,
            Some(q) => if q > usize::MAX as u64 {
                None
            } else {
                Some(q as usize)
            },
        },
    }
}

/// Checks the links of every node and narrows them to slot numbers.
fn narrow_links(links: &Vec<Vec<Vec<u64>>>) -> (r: Result<Vec<Vec<Vec<usize>>>, PersistError>)
    ensures
        match r {
            Ok(out) => links_fault(wide_view(links@), links@.len() as int) is None && links_view(
                out@,
            ) == narrowed(wide_view(links@)),
            Err(e) => links_fault(wide_view(links@), links@.len() as int) == Some(e@),
        },
{
    let ghost w = wide_view(links@);
    let n: usize = links.len();
    let mut out: Vec<Vec<Vec<usize>>> = Vec::new();
    let mut s: usize = 0;
    while s < n
        invariant
            s <= n == links@.len(),
            w == wide_view(links@),
            links_fault(w, s as int) is None,
            out@.len() == s,
            forall|k: int| 0 <= k < s ==> levels_view(#[trigger] out@[k]) == narrowed(w)[k],
        decreases n - s,
    {
        let levels: &Vec<Vec<u64>> = &links[s];
        if levels.len() == 0 {
            proof {
                lemma_fault_persists(w, s + 1, n as int);
            }
            return Err(corrupt("node has no levels at all"));
        }
        let mut narrow: Vec<Vec<usize>> = Vec::new();
        let mut l: usize = 0;
        while l < levels.len()
            invariant
                s < n == links@.len(),
                w == wide_view(links@),
                *levels == links@[s as int],
                levels@.len() > 0,
                l <= levels@.len(),
                links_fault(w, s as int) is None,
                narrow@.len() == l,
                forall|k: int|
                    0 <= k < l ==> (#[trigger] narrow@[k])@ == narrowed(w)[s as int][k],
                forall|k: int, i: int|
                    0 <= k < l && 0 <= i < w[s as int][k].len() ==> leads(
                        w,
                        k,
                        #[trigger] w[s as int][k][i],
                    ),
            decreases levels@.len() - l,
        {
            let list: &Vec<u64> = &levels[l];
            let mut slots: Vec<usize> = Vec::new();
            let mut i: usize = 0;
            while i < list.len()
                invariant
                    s < n == links@.len(),
                    w == wide_view(links@),
                    *levels == links@[s as int],
                    l < levels@.len(),
                    *list == levels@[l as int],
                    i <= list@.len(),
                    links_fault(w, s as int) is None,
                    slots@ =~= Seq::new(i as nat, |j: int| list@[j] as usize),
                    forall|j: int|
                        0 <= j < i ==> leads(w, l as int, #[trigger] w[s as int][l as int][j]),
                decreases list@.len() - i,
            {
                let x: u64 = list[i];
                assert(w[s as int][l as int][i as int] == x);
                if x >= n as u64 || links[x as usize].len() <= l {
                    proof {
                        assert(!leads(w, l as int, w[s as int][l as int][i as int]));
                        lemma_fault_persists(w, s + 1, n as int);
                    }
                    return Err(corrupt("neighbour slot out of bounds"));
                }
                slots.push(x as usize);
                i = i + 1;
            }
            assert(slots@ =~= narrowed(w)[s as int][l as int]);
            narrow.push(slots);
            l = l + 1;
        }
        assert(node_sound(w, s as int));
        assert(levels_view(narrow) =~= narrowed(w)[s as int]);
        out.push(narrow);
        s = s + 1;
    }
    assert(links_view(out@) =~= narrowed(w));
    Ok(out)
}

/// The first thing wrong stays the first thing wrong.
proof fn lemma_fault_persists(links: Seq<Seq<Seq<u64>>>, a: int, b: int)
    requires
        0 <= a <= b,
        links_fault(links, a) is Some,
    ensures
        links_fault(links, b) == links_fault(links, a),
    decreases b,
{
    if a < b {
        lemma_fault_persists(links, a, b - 1);
    }
}

/// Reads the vectors of a file.
fn read_vectors(bytes: &[u8], off: usize, n: usize, dim: usize) -> (out: Vec<Vec<u32>>)
    requires
        off + n * dim * 4 <= bytes@.len(),
    ensures
        vectors_view(out@) == vectors_at(bytes@, off as int, n as nat, dim as nat),
{
    let ghost target = vectors_at(bytes@, off as int, n as nat, dim as nat);
    let total: usize = bytes.len();
    let mut out: Vec<Vec<u32>> = Vec::new();
    let mut pos: usize = off;
    let mut s: usize = 0;
    while s < n
        invariant
            s <= n,
            total == bytes@.len(),
            off + n * dim * 4 <= bytes@.len(),
            pos == off + s * dim * 4,
            target == vectors_at(bytes@, off as int, n as nat, dim as nat),
            out@.len() == s,
            forall|k: int| 0 <= k < s ==> (#[trigger] out@[k])@ == target[k],
        decreases n - s,
    {
        let mut v: Vec<u32> = Vec::new();
        let mut j: usize = 0;
        let ghost base = pos as int;
        while j < dim
            invariant
                j <= dim,
                s < n,
                total == bytes@.len(),
                off + n * dim * 4 <= bytes@.len(),
                base == off + s * dim * 4,
                pos == base + j * 4,
                v@ =~= Seq::new(
                    j as nat,
                    |i: int|
                        le_value(
                            bytes@.subrange(
                                off + (s * dim + i) * 4,
                                off + (s * dim + i) * 4 + 4,
                            ),
                        ) as u32,
                ),
            decreases dim - j,
        {
            proof {
                assert(off + (s * dim + j) * 4 == pos && pos + 4 <= off + n * dim * 4)
                    by (nonlinear_arith)
                    requires
                        s < n,
                        j < dim,
                        pos == off + s * dim * 4 + j * 4,
                ;
            }
            v.push(read_u32(bytes, pos));
            pos = pos + 4;
            j = j + 1;
        }
        proof {
            assert(pos == off + (s + 1) * dim * 4) by (nonlinear_arith)
                requires
                    pos == off + s * dim * 4 + dim * 4,
            ;
            assert(v@ =~= target[s as int]);
        }
        out.push(v);
        s = s + 1;
    }
    assert(vectors_view(out@) =~= target);
    out
}

/// The number of flags that are set.
fn count_flags(flags: &Vec<bool>) -> (n: usize)
    ensures
        n == count_set(flags@),
{
    let mut n: usize = 0;
    let mut i: usize = 0;
    while i < flags.len()
        invariant
            i <= flags@.len(),
            n == count_set(flags@.take(i as int)),
            n <= i,
        decreases flags@.len() - i,
    {
        proof {
            assert(flags@.take(i + 1).drop_last() =~= flags@.take(i as int));
        }
        if flags[i] {
            n = n + 1;
        }
        i = i + 1;
    }
    assert(flags@.take(i as int) =~= flags@);
    n
}

proof fn lemma_full_count(flags: Seq<bool>)
    requires
        count_set(flags) == flags.len(),
    ensures
        forall|i: int| 0 <= i < flags.len() ==> flags[i],
    decreases flags.len(),
{
    if flags.len() > 0 {
        lemma_count_set(flags.drop_last());
        lemma_full_count(flags.drop_last());
        assert forall|i: int| 0 <= i < flags.len() implies flags[i] by {
            if i < flags.len() - 1 {
                assert(flags.drop_last()[i]);
            }
        }
    }
}

/// The ids of the live slots with their slots; `None` where an id is live
/// twice.
fn map_live(ids: &Vec<VectorId>, deleted: &Vec<bool>) -> (r: Option<HashMap<u64, usize>>)
    requires
        ids@.len() == deleted@.len(),
    ensures
        match r {
            Some(m) => maps_live(m@, ids@, deleted@),
            None => exists|s: int, t: int|
                0 <= s < t < ids@.len() && !deleted@[s] && !deleted@[t] && #[trigger] ids@[s]
                    == #[trigger] ids@[t],
        },
{
    broadcast use vstd::std_specs::hash::group_hash_axioms;

    let mut m: HashMap<u64, usize> = HashMap::new();
    let mut s: usize = 0;
    while s < ids.len()
        invariant
            s <= ids@.len() == deleted@.len(),
            forall|id: u64| #[trigger]
                m@.contains_key(id) ==> m@[id] < s && ids@[m@[id] as int].0 == id
                    && !deleted@[m@[id] as int],
            forall|k: int|
                0 <= k < s && !deleted@[k] ==> m@.contains_key((#[trigger] ids@[k]).0)
                    && m@[ids@[k].0] == k,
        decreases ids@.len() - s,
    {
        if !deleted[s] {
            let ghost before = m@;
            match m.insert(ids[s].0, s) {
                Some(other) => {
                    proof {
                        assert(before.contains_key(ids@[s as int].0));
                        assert(ids@[other as int] == ids@[s as int]);
                    }
                    return None;
                },
                None => {},
            }
            proof {
                assert(!before.contains_key(ids@[s as int].0));
            }
        }
        s = s + 1;
    }
    Some(m)
}

/// Builds an index from a graph section and the bytes of its file.
fn rebuild(meta: MetaParts, bytes: &[u8], off: usize) -> (r: Result<HnswIndex, PersistError>)
    requires
        readable(meta_view(meta)),
        off + meta.3 * meta.2 * 4 <= bytes@.len(),
    ensures
        match r {
            Ok(h) => h.wf() && image_fault(meta_view(meta)) is None && h@ == index_of(
                meta_view(meta),
                vectors_at(bytes@, off as int, meta.3 as nat, meta.2 as nat),
            ),
            Err(e) => image_fault(meta_view(meta)) == Some(e@),
        },
{
    let ghost img = meta_view(meta);
    if meta.2 == 0 || meta.2 > 1048576 {
        return Err(corrupt("implausible dim"));
    }
    if meta.4.len() as u64 != meta.3 || meta.5.len() as u64 != meta.3 {
        return Err(corrupt("ids/links length does not match n"));
    }
    let n: usize = meta.3 as usize;
    let dim: usize = meta.2 as usize;
    let links: Vec<Vec<Vec<usize>>> = match narrow_links(&meta.5) {
        Ok(l) => l,
        Err(e) => {
            return Err(e);
        },
    };
    if meta.7.len() as u64 != meta.3 {
        return Err(corrupt("deleted length does not match n"));
    }
    let deleted_count: usize = count_flags(&meta.7);
    let entry: Option<usize> = match meta.6 {
        Some(e) => {
            if e >= meta.3 {
                return Err(corrupt("entry point out of bounds"));
            }
            Some(e as usize)
        },
        None => {
            if deleted_count != n {
                return Err(corrupt("there are live elements but no entry"));
            }
            None
        },
    };
    let mut ids: Vec<VectorId> = Vec::new();
    let mut i: usize = 0;
    while i < n
        invariant
            i <= n == meta.4@.len(),
            ids@ =~= Seq::new(i as nat, |j: int| VectorId(meta.4@[j])),
        decreases n - i,
    {
        ids.push(VectorId(meta.4[i]));
        i = i + 1;
    }
    let slot_of: HashMap<u64, usize> = match map_live(&ids, &meta.7) {
        Some(m) => m,
        None => {
            proof {
                let (s, t) = choose|s: int, t: int|
                    0 <= s < t < ids@.len() && !meta.7@[s] && !meta.7@[t] && #[trigger] ids@[s]
                        == #[trigger] ids@[t];
                assert(img.4[s] == img.4[t]);
            }
            return Err(corrupt("duplicate live VectorId"));
        },
    };
    proof {
        assert(n * dim == meta.3 * meta.2);
    }
    let vectors: Vec<Vec<u32>> = read_vectors(bytes, off, n, dim);
    let metric: Metric = match Metric::from_code(meta.1) {
        Some(m) => m,
        None => Metric::L2,
    };
    let m: usize = meta.0.0 as usize;
    let h = HnswIndex {
        params: HnswParams {
            m,
            m_max0: meta.0.1 as usize,
            ef_construction: meta.0.2 as usize,
            ef_search: meta.0.3 as usize,
            seed: meta.0.4,
            tombstone_threshold: meta.0.5,
        },
        metric,
        dim,
        vectors,
        ids,
        slot_of,
        links,
        entry,
        deleted: meta.7,
        deleted_count,
        level_seed: meta.0.4 ^ meta.3,
        level_m: if m < 2 { 2 } else { m },
        loaded: n,
    };
    proof {
        let back = index_of(img, vectors_at(bytes@, off as int, n as nat, dim as nat));
        assert(h@.ids =~= back.ids);
        assert(h@ == back);
        lemma_links_narrowed(img.5);
        assert(unique_live(img.4, img.7, n as int)) by {
            assert forall|s: int, t: int|
                0 <= s < n && 0 <= t < n && !img.7[s] && !img.7[t] && #[trigger] img.4[s]
                    == #[trigger] img.4[t] implies s == t by {
                assert(h.slot_of@[h.ids@[s].0] == s);
                assert(h.slot_of@[h.ids@[t].0] == t);
            }
        }
        assert forall|s: int, t: int|
            0 <= s < n && 0 <= t < n && !h@.deleted[s] && !h@.deleted[t] && #[trigger] h@.ids[s]
                == #[trigger] h@.ids[t] implies s == t by {
            assert(img.4[s] == img.4[t]);
        }
        if entry is None {
            lemma_full_count(img.7);
        }
    }
    Ok(h)
}

/// Links with nothing wrong make a sound graph.
proof fn lemma_links_narrowed(links: Seq<Seq<Seq<u64>>>)
    requires
        links_fault(links, links.len() as int) is None,
        links.len() <= usize::MAX,
    ensures
        linked(narrowed(links)),
        grounded(narrowed(links)),
{
    let t = narrowed(links);
    assert forall|s: int, l: int, i: int|
        0 <= s < t.len() && 0 <= l < t[s].len() && 0 <= i < t[s][l].len() implies on_level(
        t,
        #[trigger] t[s][l][i],
        l,
    ) by {
        lemma_node_sound(links, links.len() as int, s);
        assert(leads(links, l, links[s][l][i]));
    }
    assert forall|s: int| 0 <= s < t.len() implies (#[trigger] t[s]).len() > 0 by {
        lemma_node_sound(links, links.len() as int, s);
    }
}

proof fn lemma_node_sound(links: Seq<Seq<Seq<u64>>>, n: int, s: int)
    requires
        0 <= s < n,
        links_fault(links, n) is None,
    ensures
        links[s].len() > 0,
        node_sound(links, s),
    decreases n,
{
    if s < n - 1 {
        lemma_node_sound(links, n - 1, s);
    }
}

impl HnswIndex {
    /// Reads an index from the bytes of a file. The index is ready to search.
    pub fn load_from_bytes(bytes: &[u8]) -> (r: Result<HnswIndex, PersistError>)
        ensures
            loaded(bytes@) == (match r {
                Ok(h) => Ok::<Hnsw, Fault>(h@),
                Err(e) => Err(e@),
            }),
            r matches Ok(h) ==> h.wf(),
    {
        let (meta, off) = match parse(bytes) {
            Ok(p) => p,
            Err(e) => {
                return Err(e);
            },
        };
        proof {
            lemma_opened_readable(bytes@);
        }
        rebuild(meta, bytes, off)
    }
}

} // verus!
