use gvector::codec::crc32;
use gvector::distance::Metric;
use gvector::error::IndexError;
use gvector::hnsw::HnswParams;
use gvector::hnsw_file::PersistError;
use gvector::meta::{MetaValue, Metadata};
use gvector::storage::{
    decode_metadata, encode_metadata, is_unreferenced, manifest_name, now_unix_secs, unix_secs,
    verify_file, Manifest, SegmentRef, StorageError, STORAGE_VERSION,
};
use gvector::types::VectorId;

fn sample_manifest() -> Manifest {
    Manifest {
        generation: 3,
        dim: 8,
        metric: Metric::L2,
        hnsw_params: HnswParams::default(),
        seal_threshold: 100,
        max_segments: 8,
        segments: vec![SegmentRef {
            file: Manifest::segment_file_name(3, 0),
            crc32: 0xdead_beef,
            records: 42,
            tombstones: vec![1, 2, 3],
        }],
        metadata_file: Some(Manifest::metadata_file_name(3)),
        metadata_crc: 0x1234_5678,
        wal_file: Some(Manifest::wal_file_name(3)),
        created_unix_secs: 1_700_000_000,
    }
}

#[test]
fn manifest_roundtrip() {
    let m = sample_manifest();
    let bytes = m.to_bytes().unwrap();
    let back = Manifest::from_bytes(&bytes, manifest_name()).unwrap();
    assert_eq!(back.generation, 3);
    assert_eq!(back.segments.len(), 1);
    assert_eq!(back.segments[0].tombstones, vec![1, 2, 3]);
    assert_eq!(back.wal_file.as_deref(), Some("wal-000003.log"));
    assert_eq!(back.segments[0].crc32, 0xdead_beef);
    assert_eq!(back.segments[0].records, 42);
    assert_eq!(back.hnsw_params, HnswParams::default());
    assert_eq!(back.metric, Metric::L2);
    assert_eq!(back.metadata_crc, 0x1234_5678);
    assert_eq!(back.created_unix_secs, 1_700_000_000);
}

#[test]
fn manifest_corruption_detected_not_panic() {
    let good = sample_manifest().to_bytes().unwrap();
    for pos in [0, 5, good.len() / 2, good.len() - 1] {
        let mut bad = good.clone();
        bad[pos] ^= 0x01;
        assert!(
            Manifest::from_bytes(&bad, manifest_name()).is_err(),
            "corruption @{pos} must be caught"
        );
    }
    // a file that was cut
    for cut in [0, 10, good.len() / 2] {
        assert!(
            Manifest::from_bytes(&good[..cut], manifest_name()).is_err(),
            "truncation @{cut} must be caught"
        );
    }
}

#[test]
fn metadata_snapshot_roundtrip_all_value_kinds() {
    // every kind of value must come back from disk as it was
    let m = Metadata::collect(vec![
        ("b".to_string(), MetaValue::Bool(true)),
        ("i".to_string(), MetaValue::Int(-7)),
        ("f".to_string(), MetaValue::Float(2.5f64.to_bits())),
        ("s".to_string(), MetaValue::Str("value".to_string())),
    ]);
    let bytes = encode_metadata(&vec![(VectorId(9), m.clone())]);
    let back = decode_metadata(&bytes, "test").unwrap();
    assert_eq!(back.len(), 1);
    assert_eq!(back[0].0, VectorId(9));
    assert_eq!(back[0].1, m);
}

#[test]
fn gc_removes_only_unreferenced() {
    let m = sample_manifest();
    let dir = [
        manifest_name().to_string(),
        m.segments[0].file.clone(),
        "segment-000001-00.gvdb".to_string(),
        "meta-000001.gvmeta".to_string(),
        "other.txt".to_string(),
    ];
    let left: Vec<&String> = dir.iter().filter(|f| !is_unreferenced(&m, f)).collect();
    assert_eq!(dir.len() - left.len(), 2);
    assert!(left.contains(&&m.segments[0].file));
    assert!(
        left.contains(&&"other.txt".to_string()),
        "foreign files must not be touched"
    );
    assert!(left.contains(&&manifest_name().to_string()));
}

#[test]
fn read_verified_catches_wrong_crc() {
    let good = crc32(b"veri");
    assert_eq!(good, crc32fast::hash(b"veri"));
    assert!(verify_file(b"veri", good, "segment-000001-00.gvdb").is_ok());
    assert!(verify_file(b"veri", good ^ 1, "segment-000001-00.gvdb").is_err());
    match verify_file(b"", 0x1f, "x") {
        Err(StorageError::Corrupt { path, reason }) => {
            assert_eq!(path, "x");
            assert_eq!(reason, "crc mismatch: manifest 0000001f, file 00000000");
        }
        _ => panic!("a wrong checksum must be reported"),
    }
}

#[test]
fn names_are_numbered() {
    assert_eq!(Manifest::segment_file_name(3, 0), "segment-000003-00.gvdb");
    assert_eq!(
        Manifest::segment_file_name(1_234_567, 100),
        "segment-1234567-100.gvdb"
    );
    assert_eq!(Manifest::metadata_file_name(12), "meta-000012.gvmeta");
    assert_eq!(Manifest::wal_file_name(0), "wal-000000.log");
    let files = sample_manifest().referenced_files();
    for name in [
        "segment-000003-00.gvdb",
        "meta-000003.gvmeta",
        "wal-000003.log",
        manifest_name(),
    ] {
        assert!(files.iter().any(|f| f == name), "{name} is referenced");
    }
}

#[test]
fn version_of_a_frame_is_checked() {
    let mut bytes = sample_manifest().to_bytes().unwrap();
    bytes[4] = 77;
    let body = bytes.len() - 4;
    let crc = crc32fast::hash(&bytes[..body]).to_le_bytes();
    bytes[body..].copy_from_slice(&crc);
    let e = Manifest::from_bytes(&bytes, "m").err().unwrap();
    assert!(matches!(e, StorageError::UnsupportedVersion(77)));
    assert_eq!(
        e.message(),
        "unsupported format version: 77 (this build reads 2)"
    );
    assert_eq!(STORAGE_VERSION, 2);
}

#[test]
fn payload_that_cannot_be_decoded_is_reported() {
    // a valid frame around an empty payload
    let manifest = sample_manifest().to_bytes().unwrap();
    let mut bytes = manifest[..8].to_vec();
    bytes.extend(0u64.to_le_bytes());
    bytes.extend(crc32fast::hash(&bytes).to_le_bytes());
    match Manifest::from_bytes(&bytes, "m") {
        Err(StorageError::Encode(why)) => assert_eq!(why, "io error: unexpected end of file"),
        _ => panic!("an empty payload must be reported"),
    }
    // a metadata file is not a manifest
    let meta = encode_metadata(&vec![]);
    match Manifest::from_bytes(&meta, "some/path") {
        Err(StorageError::Corrupt { path, .. }) => assert_eq!(path, "some/path"),
        _ => panic!("another magic must be reported"),
    }
    assert!(decode_metadata(&manifest, "m").is_err());
}

#[test]
fn later_value_of_a_name_wins_on_reading() {
    let m = Metadata::collect(vec![
        ("x".to_string(), MetaValue::Int(1)),
        ("x".to_string(), MetaValue::Int(2)),
    ]);
    assert_eq!(m.len(), 1);
    assert_eq!(m.get("x"), Some(&MetaValue::Int(2)));
}

#[test]
fn errors_have_words() {
    assert_eq!(
        StorageError::Corrupt {
            path: "p".to_string(),
            reason: "r".to_string()
        }
        .message(),
        "bozuk dosya (p): r"
    );
    assert_eq!(
        StorageError::Encode("why".to_string()).message(),
        "serialization error: why"
    );
    assert_eq!(
        StorageError::Index(IndexError::NotFound(VectorId(4))).message(),
        "index error: id not found: VectorId(4)"
    );
    assert_eq!(
        StorageError::Segment(PersistError::Corrupt("bad".to_string())).message(),
        "segment load error: bozuk dosya: bad"
    );
    assert_eq!(
        IndexError::DimensionMismatch {
            expected: 3,
            got: 10
        }
        .message(),
        "dimension mismatch: index expects 3, got 10"
    );
    assert_eq!(
        IndexError::DuplicateId(VectorId(7)).message(),
        "id already exists: VectorId(7)"
    );
    assert_eq!(
        IndexError::Unsupported("writes").message(),
        "unsupported: writes"
    );
    assert_eq!(
        IndexError::Storage("disk full".to_string()).message(),
        "persistence error: disk full"
    );
}

#[test]
fn clock_is_read_in_seconds() {
    assert_eq!(unix_secs(None), 0);
    assert_eq!(unix_secs(Some(17)), 17);
    // the year 2020 has passed
    assert!(now_unix_secs() > 1_577_836_800);
}

#[test]
fn the_checksum_is_the_usual_one() {
    assert_eq!(crc32(b"123456789"), 0xcbf4_3926);
    assert_eq!(crc32(b""), 0);
    assert_eq!(crc32(&[0]), 0xd202_ef8d);
}

#[test]
fn one_changed_byte_of_a_snapshot_is_refused() {
    let entries = vec![(
        VectorId(7),
        Metadata::collect(vec![("a".to_string(), MetaValue::Bool(true))]),
    )];
    let good = encode_metadata(&entries);
    assert!(decode_metadata(&good, "m").is_ok());
    for p in 0..good.len() {
        for x in [1u8, 0x80, 0xff] {
            let mut bad = good.clone();
            bad[p] ^= x;
            assert!(decode_metadata(&bad, "m").is_err());
        }
    }
}

#[test]
fn a_manifest_is_written_part_by_part() {
    let m = sample_manifest();
    let mut want: Vec<u8> = Vec::new();
    want.extend(3u64.to_le_bytes());
    want.extend(8u64.to_le_bytes());
    want.extend(0u32.to_le_bytes());
    let p = HnswParams::default();
    for x in [p.m, p.m_max0, p.ef_construction, p.ef_search] {
        want.extend((x as u64).to_le_bytes());
    }
    want.extend(p.seed.to_le_bytes());
    want.extend(p.tombstone_threshold.to_le_bytes());
    want.extend(100u64.to_le_bytes());
    want.extend(8u64.to_le_bytes());
    want.extend(1u64.to_le_bytes());
    text(&mut want, "segment-000003-00.gvdb");
    want.extend(0xdead_beefu32.to_le_bytes());
    want.extend(42u64.to_le_bytes());
    want.extend(3u64.to_le_bytes());
    for id in [1u64, 2, 3] {
        want.extend(id.to_le_bytes());
    }
    want.push(1);
    text(&mut want, "meta-000003.gvmeta");
    want.extend(0x1234_5678u32.to_le_bytes());
    want.push(1);
    text(&mut want, "wal-000003.log");
    want.extend(1_700_000_000u64.to_le_bytes());
    let bytes = m.to_bytes().unwrap();
    assert_eq!(&bytes[16..bytes.len() - 4], &want[..]);
}

fn text(out: &mut Vec<u8>, s: &str) {
    out.extend((s.len() as u64).to_le_bytes());
    out.extend(s.as_bytes());
}

/// A frame with the given magic around a payload.
fn frame_around(magic: &[u8], payload: &[u8]) -> Vec<u8> {
    let mut bytes = magic.to_vec();
    bytes.extend(STORAGE_VERSION.to_le_bytes());
    bytes.extend((payload.len() as u64).to_le_bytes());
    bytes.extend(payload);
    bytes.extend(crc32fast::hash(&bytes).to_le_bytes());
    bytes
}

/// What is said of a metadata file with the payload.
fn metadata_fault(payload: &[u8]) -> String {
    match decode_metadata(&frame_around(b"GVMD", payload), "m") {
        Err(StorageError::Encode(why)) => why,
        _ => panic!("the payload must be reported"),
    }
}

/// What is said of a manifest with the payload.
fn manifest_fault(payload: &[u8]) -> String {
    match Manifest::from_bytes(&frame_around(b"GVMF", payload), "m") {
        Err(StorageError::Encode(why)) => why,
        _ => panic!("the payload must be reported"),
    }
}

fn unknown_variant(tag: u64, expected: &'static str) -> String {
    <bincode::Error as serde::de::Error>::invalid_value(
        serde::de::Unexpected::Unsigned(tag),
        &expected,
    )
    .to_string()
}

#[test]
fn metadata_that_cannot_be_read_is_told_in_the_serializers_words() {
    // one record with one field of the name "a"; the field's value follows
    let mut head = 1u64.to_le_bytes().to_vec();
    head.extend(7u64.to_le_bytes());
    head.extend(1u64.to_le_bytes());
    head.extend(1u64.to_le_bytes());
    head.push(b'a');
    let with = |tag: u32, value: &[u8]| {
        let mut p = head.clone();
        p.extend(tag.to_le_bytes());
        p.extend(value);
        metadata_fault(&p)
    };
    let cut = bincode::deserialize::<u64>(&[]).unwrap_err().to_string();
    assert_eq!(cut, "io error: unexpected end of file");
    for n in [0, 7, 8, 15, 16, 23, 24, 31] {
        assert_eq!(metadata_fault(&head[..n]), cut, "{n} bytes");
    }
    let name_missing = bincode::deserialize::<String>(&head[24..32])
        .unwrap_err()
        .to_string();
    assert_eq!(name_missing, "io error: ");
    assert_eq!(metadata_fault(&head[..32]), name_missing);
    assert_eq!(metadata_fault(&head), cut);
    assert_eq!(with(9, &[]), unknown_variant(9, "variant index 0 <= i < 4"));
    assert_eq!(
        with(9, &[]),
        "invalid value: integer `9`, expected variant index 0 <= i < 4"
    );
    assert_eq!(with(0, &[]), cut);
    assert_eq!(
        with(0, &[7]),
        bincode::deserialize::<bool>(&[7]).unwrap_err().to_string()
    );
    assert_eq!(
        with(0, &[7]),
        "invalid u8 while decoding bool, expected 0 or 1, found 7"
    );
    assert_eq!(with(1, &[0; 7]), cut);
    assert_eq!(with(2, &[0; 7]), cut);
    assert_eq!(with(3, &[0; 7]), cut);
    assert_eq!(with(3, &[5, 0, 0, 0, 0, 0, 0, 0, 65]), "io error: ");
    let no_text = [2u8, 0, 0, 0, 0, 0, 0, 0, 65, 0xff];
    assert_eq!(
        with(3, &no_text),
        bincode::deserialize::<String>(&no_text).unwrap_err().to_string()
    );
    // the first record is in order, the second is not there
    let mut two = 2u64.to_le_bytes().to_vec();
    two.extend(7u64.to_le_bytes());
    two.extend(0u64.to_le_bytes());
    assert_eq!(metadata_fault(&two), cut);
}

#[test]
fn a_manifest_that_cannot_be_read_is_told_in_the_serializers_words() {
    let file = sample_manifest().to_bytes().unwrap();
    let good = file[16..file.len() - 4].to_vec();
    assert!(Manifest::from_bytes(&frame_around(b"GVMF", &good), "m").is_ok());
    for n in [0, 19, 20, 83, good.len() - 1] {
        assert_eq!(
            manifest_fault(&good[..n]),
            "io error: unexpected end of file",
            "{n} bytes"
        );
    }
    // a metric that there is not, whatever follows
    let mut odd = good.clone();
    odd[16] = 9;
    assert_eq!(manifest_fault(&odd), unknown_variant(9, "variant index 0 <= i < 3"));
    assert_eq!(
        manifest_fault(&odd[..20]),
        "invalid value: integer `9`, expected variant index 0 <= i < 3"
    );
    assert_eq!(manifest_fault(&odd[..19]), "io error: unexpected end of file");
    // a flag for something that may be absent
    let name = Manifest::metadata_file_name(3);
    let place = good
        .windows(name.len())
        .position(|w| w == name.as_bytes())
        .unwrap();
    let mut odd = good.clone();
    odd[place - 9] = 3;
    assert_eq!(manifest_fault(&odd), "tag for enum is not valid, found 3");
    let e = Manifest::from_bytes(&frame_around(b"GVMF", &odd), "m").err().unwrap();
    assert_eq!(
        e.message(),
        "serialization error: tag for enum is not valid, found 3"
    );
}
