use gvector::meta::{MetaValue, Metadata};
use gvector::record::{decode_record, encode_record, WalRecord};
use gvector::types::VectorId;
use gvector::wal::{
    frame, record_meta, replay, replay_bytes, ReplayReport, SyncAction, SyncPolicy, WalState,
    MAX_RECORD_BYTES,
};

fn bits(v: &[f32]) -> Vec<u32> {
    v.iter().map(|x| x.to_bits()).collect()
}

fn sample_records() -> Vec<WalRecord> {
    let meta = Metadata::collect(vec![
        ("renk".to_string(), MetaValue::Str("mavi".to_string())),
        ("yil".to_string(), MetaValue::Int(2020)),
    ]);
    vec![
        WalRecord::insert(VectorId(1), &bits(&[1.0, 2.0, 3.0]), &meta),
        WalRecord::insert(VectorId(2), &bits(&[4.0, 5.0, 6.0]), &Metadata::new()),
        WalRecord::delete(VectorId(1)),
    ]
}

/// A log in memory: what was written, how much of it has been handed to the
/// operating system, and how much has been synced.
struct Log {
    state: WalState,
    bytes: Vec<u8>,
    synced: usize,
}

impl Log {
    fn open_append(bytes: Vec<u8>, policy: SyncPolicy) -> Log {
        Log {
            state: WalState::open_append(policy, bytes.len() as u64),
            synced: bytes.len(),
            bytes,
        }
    }

    fn perform(&mut self, action: SyncAction) {
        if action == SyncAction::Sync {
            self.synced = self.bytes.len();
            self.state.synced();
        }
    }

    fn append(&mut self, rec: &WalRecord, elapsed_ms: u64) {
        let f = frame(rec).unwrap();
        self.bytes.extend(&f);
        let action = self.state.append(f.len(), elapsed_ms);
        self.perform(action);
    }

    fn sync(&mut self) {
        let action = self.state.sync();
        self.perform(action);
    }
}

fn write_all(policy: SyncPolicy) -> Vec<u8> {
    let mut log = Log::open_append(Vec::new(), policy);
    for r in sample_records() {
        log.append(&r, 0);
    }
    log.sync();
    assert_eq!(log.synced, log.bytes.len());
    log.bytes
}

#[test]
fn roundtrip_all_policies() {
    for policy in [
        SyncPolicy::NoSync,
        SyncPolicy::PerOp,
        SyncPolicy::Group { window_ms: 5 },
    ] {
        let log = write_all(policy);
        let (recs, rep) = replay_bytes(&log);
        assert_eq!(recs, sample_records(), "policy {policy:?}");
        assert_eq!(rep.applied, 3);
        assert!(rep.truncated_at.is_none(), "a clean file is not cut");
    }
}

#[test]
fn append_after_reopen_preserves_records() {
    let log = write_all(SyncPolicy::PerOp);
    let mut log = Log::open_append(log, SyncPolicy::PerOp);
    log.append(&WalRecord::delete(VectorId(2)), 0);
    log.sync();
    let (recs, _) = replay_bytes(&log.bytes);
    assert_eq!(recs.len(), 4);
    assert_eq!(recs[3], WalRecord::delete(VectorId(2)));
}

#[test]
fn truncated_tail_stops_at_prefix_and_file_is_cut() {
    let good = write_all(SyncPolicy::PerOp);
    // Cut in the middle of a record
    for cut in [good.len() - 1, good.len() - 5, good.len() / 2] {
        let mut file = good[..cut].to_vec();
        let (recs, rep) = replay_bytes(&file);
        assert!(
            recs.len() < 3,
            "a full record came out of a truncated file: {cut}"
        );
        assert!(rep.truncated_at.is_some());
        // the file is truncated at the intact prefix
        assert_eq!(rep.truncated_at, Some(rep.bytes_ok));
        file.truncate(rep.bytes_ok as usize);
        // a second replay must give the same result and no longer truncate
        let (recs2, rep2) = replay_bytes(&file);
        assert_eq!(recs2, recs);
        assert!(
            rep2.truncated_at.is_none(),
            "the second replay must be clean"
        );
    }
}

#[test]
fn record_boundary_truncation_keeps_all_prior() {
    let good = write_all(SyncPolicy::PerOp);
    // Cut exactly at the boundary of the first record
    let first_len = u32::from_le_bytes(good[0..4].try_into().unwrap()) as usize;
    let boundary = 8 + first_len;
    let (recs, rep) = replay_bytes(&good[..boundary]);
    assert_eq!(
        recs.len(),
        1,
        "a cut at the boundary must preserve the full record"
    );
    assert!(
        rep.truncated_at.is_none(),
        "a boundary counts as a clean end"
    );
}

#[test]
fn corrupt_payload_stops_without_ghost_ops() {
    let good = write_all(SyncPolicy::PerOp);
    // Corrupt the body of the second record
    let first_len = u32::from_le_bytes(good[0..4].try_into().unwrap()) as usize;
    let second_body = 8 + first_len + 8;
    let mut bad = good.clone();
    bad[second_body + 1] ^= 0xff;
    let (recs, rep) = replay_bytes(&bad);
    assert_eq!(
        recs.len(),
        1,
        "nothing after a corrupt record may be applied"
    );
    assert_eq!(rep.reason.as_deref(), Some("crc mismatch"));
    assert_eq!(rep.truncated_at, Some(8 + first_len as u64));
}

#[test]
fn garbage_length_header_is_rejected() {
    // A gigantic length header: must be rejected without attempting to allocate
    let mut bytes = u32::MAX.to_le_bytes().to_vec();
    bytes.extend(0u32.to_le_bytes());
    let (recs, rep) = replay_bytes(&bytes);
    assert!(recs.is_empty());
    assert_eq!(rep.reason.as_deref(), Some("implausible record length"));
}

#[test]
fn empty_and_missing_files_are_clean() {
    let rep = ReplayReport::empty();
    assert!(rep.applied == 0 && rep.truncated_at.is_none());
    let (recs, rep) = replay_bytes(b"");
    assert!(recs.is_empty() && rep.truncated_at.is_none());
}

#[test]
fn policy_parse_roundtrip() {
    for s in ["none", "per_op", "group:20"] {
        let p = SyncPolicy::parse(s).unwrap();
        assert_eq!(SyncPolicy::parse(&p.label()).unwrap(), p);
    }
    assert!(SyncPolicy::parse("nonsense").is_none());
}

#[test]
fn policies_are_read_exactly() {
    assert_eq!(SyncPolicy::parse("none"), Some(SyncPolicy::NoSync));
    assert_eq!(SyncPolicy::parse("per_op"), Some(SyncPolicy::PerOp));
    assert_eq!(
        SyncPolicy::parse("group:20"),
        Some(SyncPolicy::Group { window_ms: 20 })
    );
    assert_eq!(SyncPolicy::parse("group:"), None);
    assert_eq!(SyncPolicy::parse("group:x"), None);
    assert_eq!(SyncPolicy::parse("group:99999999999999999999"), None);
    assert_eq!(SyncPolicy::parse("None"), None);
    assert_eq!(SyncPolicy::Group { window_ms: 7 }.label(), "group:7");
    assert_eq!(SyncPolicy::NoSync.label(), "none");
    assert_eq!(SyncPolicy::PerOp.label(), "per_op");
}

/// A record is what bincode makes of the same fields, one after the other.
#[test]
fn payload_layout() {
    let del = encode_record(&WalRecord::delete(VectorId(7)));
    let mut expected = bincode::serialize(&1u32).unwrap();
    expected.extend(bincode::serialize(&7u64).unwrap());
    assert_eq!(del, expected);

    let meta = Metadata::collect(vec![
        ("b".to_string(), MetaValue::Bool(true)),
        ("f".to_string(), MetaValue::Float(2.5f64.to_bits())),
        ("i".to_string(), MetaValue::Int(-7)),
        ("s".to_string(), MetaValue::Str("ş".to_string())),
    ]);
    let ins = encode_record(&WalRecord::insert(VectorId(9), &bits(&[1.5, -2.0]), &meta));
    let mut expected = bincode::serialize(&0u32).unwrap();
    expected.extend(bincode::serialize(&9u64).unwrap());
    expected.extend(bincode::serialize(&vec![1.5f32, -2.0]).unwrap());
    expected.extend(bincode::serialize(&4u64).unwrap());
    expected.extend(bincode::serialize(&("b", 0u32, true)).unwrap());
    expected.extend(bincode::serialize(&("f", 2u32, 2.5f64)).unwrap());
    expected.extend(bincode::serialize(&("i", 1u32, -7i64)).unwrap());
    expected.extend(bincode::serialize(&("s", 3u32, "ş")).unwrap());
    assert_eq!(ins, expected);
    let back = decode_record(&ins).unwrap();
    assert_eq!(
        back,
        WalRecord::insert(VectorId(9), &bits(&[1.5, -2.0]), &meta)
    );
    match back {
        WalRecord::Insert { meta: fields, .. } => assert_eq!(record_meta(fields), meta),
        WalRecord::Delete { .. } => panic!("an insertion was written"),
    }
}

#[test]
fn records_that_are_cut_or_odd_are_refused() {
    let ins = encode_record(&sample_records()[0]);
    for cut in 0..ins.len() {
        assert!(decode_record(&ins[..cut]).is_none(), "cut at {cut}");
    }
    // bytes behind the record are not looked at
    let mut more = ins.clone();
    more.push(0);
    assert_eq!(decode_record(&more).unwrap(), sample_records()[0]);
    // no such operation
    assert!(decode_record(&[2, 0, 0, 0, 1, 0, 0, 0, 0, 0, 0, 0]).is_none());
}

#[test]
fn unreadable_payload_with_a_valid_checksum_stops_replay() {
    let mut log = write_all(SyncPolicy::NoSync);
    let end = log.len() as u64;
    let payload = [9u8; 4];
    log.extend((payload.len() as u32).to_le_bytes());
    log.extend(crc32fast::hash(&payload).to_le_bytes());
    log.extend(payload);
    let (recs, rep) = replay_bytes(&log);
    assert_eq!(recs.len(), 3);
    assert_eq!(rep.bytes_ok, end);
    assert_eq!(rep.truncated_at, Some(end));
    assert!(rep.reason.is_some());
}

#[test]
fn frames_carry_length_and_checksum() {
    let rec = WalRecord::delete(VectorId(3));
    let payload = encode_record(&rec);
    let f = frame(&rec).unwrap();
    assert_eq!(&f[..4], &(payload.len() as u32).to_le_bytes());
    assert_eq!(&f[4..8], &crc32fast::hash(&payload).to_le_bytes());
    assert_eq!(&f[8..], &payload[..]);
    assert_eq!(MAX_RECORD_BYTES, 64 << 20);
}

#[test]
fn per_op_syncs_every_record() {
    let mut log = Log::open_append(Vec::new(), SyncPolicy::PerOp);
    for r in sample_records() {
        log.append(&r, 0);
        assert_eq!(log.synced, log.bytes.len());
    }
    assert!(!log.state.is_dirty());
    assert_eq!(log.state.len_bytes(), log.bytes.len() as u64);
}

#[test]
fn group_syncs_when_its_window_has_passed() {
    let mut log = Log::open_append(Vec::new(), SyncPolicy::Group { window_ms: 20 });
    let recs = sample_records();
    log.append(&recs[0], 5);
    assert_eq!(log.synced, 0);
    assert!(log.state.is_dirty());
    assert!(!log.state.sync_if_due(19));
    assert!(log.state.sync_if_due(20));
    log.append(&recs[1], 25);
    assert_eq!(log.synced, log.bytes.len());
    assert!(!log.state.sync_if_due(1000), "nothing is left to sync");
    log.append(&recs[2], 0);
    assert_eq!(log.state.commit(), SyncAction::Sync);
}

#[test]
fn no_sync_only_hands_over() {
    let mut log = Log::open_append(Vec::new(), SyncPolicy::NoSync);
    log.append(&sample_records()[0], 1_000_000);
    assert_eq!(log.synced, 0);
    assert!(!log.state.sync_if_due(1_000_000));
    assert_eq!(log.state.commit(), SyncAction::Flush);
    // a forced sync is one whatever the policy
    assert_eq!(log.state.sync(), SyncAction::Sync);
    assert_eq!(log.state.policy(), SyncPolicy::NoSync);
}

#[test]
fn a_log_that_was_read_is_clean() {
    let (recs, rep, cut) = replay(None);
    assert!(recs.is_empty() && cut.is_none());
    assert_eq!(rep.applied, 0);
    assert!(rep.truncated_at.is_none());

    let good = write_all(SyncPolicy::PerOp);
    let (all, _, cut) = replay(Some(&good[..]));
    assert_eq!((all.len(), cut), (3, None));
    for n in 0..good.len() {
        let mut file = good[..n].to_vec();
        let (recs, rep, cut) = replay(Some(&file[..]));
        if let Some(len) = cut {
            file.truncate(len as usize);
        }
        assert_eq!(file.len() as u64, rep.bytes_ok);
        let (again, rep2, cut2) = replay(Some(&file[..]));
        assert_eq!((again, cut2), (recs, None));
        assert_eq!(rep2.bytes_ok, rep.bytes_ok);
    }
}
