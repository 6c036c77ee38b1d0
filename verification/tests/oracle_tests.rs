use txn_oracle::{
    open, AccessKind, ConflictChecker, CreateCommitTimestampResult, Error, Oracle, ReadTsOutcome,
    WaterMarkError,
};

fn pinned_ts(outcome: &ReadTsOutcome) -> u64 {
    match outcome {
        ReadTsOutcome::Ready(t) => *t,
        ReadTsOutcome::Blocked(t) => *t,
    }
}

/// Runs one full transaction: begin, record the given accesses, commit and
/// finalize.  Panics on a conflict.
fn commit_txn(oracle: &mut Oracle, reads: &[&[u8]], writes: &[&[u8]]) -> u64 {
    let (outcome, mut fp) = oracle.begin_transaction().unwrap();
    let read_ts = pinned_ts(&outcome);
    for key in reads {
        fp.record_access(key.to_vec(), AccessKind::Read);
    }
    for key in writes {
        fp.record_access(key.to_vec(), AccessKind::Write);
    }
    let mut done_read = false;
    match oracle.try_commit(&mut done_read, read_ts, fp).unwrap() {
        CreateCommitTimestampResult::Timestamp(ts) => {
            oracle.finalize_commit(ts).unwrap();
            ts
        },
        CreateCommitTimestampResult::Conflict(_) => panic!("unexpected conflict"),
    }
}

#[test]
fn commit_timestamps_strictly_increase() {
    let mut oracle = open(1);
    let t1 = commit_txn(&mut oracle, &[], &[b"a"]);
    let t2 = commit_txn(&mut oracle, &[], &[b"b"]);
    let t3 = commit_txn(&mut oracle, &[], &[b"c"]);
    assert_eq!((t1, t2, t3), (1, 2, 3));
    assert!(t1 < t2 && t2 < t3);
}

#[test]
fn open_seeds_the_clock_from_the_recovered_sequence_number() {
    let mut oracle = open(42);
    // everything below the recovered counter counts as visible
    let (outcome, _fp) = oracle.begin_transaction().unwrap();
    assert!(matches!(outcome, ReadTsOutcome::Ready(41)));
    let ts = commit_txn(&mut oracle, &[], &[b"x"]);
    assert_eq!(ts, 42);
}

#[test]
fn conflict_reported_when_a_read_key_was_written_after_the_snapshot() {
    let mut oracle = open(1);
    for key in [&b"f1"[..], b"f2", b"f3", b"f4", b"f5"] {
        commit_txn(&mut oracle, &[], &[key]);
    }
    // transaction A pins its snapshot at read_ts = 5 and reads key K
    let (outcome_a, mut fp_a) = oracle.begin_transaction().unwrap();
    let read_a = pinned_ts(&outcome_a);
    assert_eq!(read_a, 5);
    fp_a.record_access(b"K".to_vec(), AccessKind::Read);
    // transaction B commits a write to K after A's snapshot
    let ts_b = commit_txn(&mut oracle, &[], &[b"K"]);
    assert!(ts_b > read_a);
    // A's commit attempt must report the conflict and hand the
    // fingerprint back for retry
    let mut done_read_a = false;
    match oracle.try_commit(&mut done_read_a, read_a, fp_a).unwrap() {
        CreateCommitTimestampResult::Conflict(returned) => {
            assert!(returned.is_some());
        },
        CreateCommitTimestampResult::Timestamp(_) => panic!("conflict was missed"),
    }
}

#[test]
fn settled_commits_never_trigger_a_conflict() {
    let mut oracle = open(1);
    let ts_writer = commit_txn(&mut oracle, &[], &[b"K"]);
    // a transaction that starts after the write committed reads K freely
    let (outcome, mut fp) = oracle.begin_transaction().unwrap();
    let read_ts = pinned_ts(&outcome);
    assert!(read_ts >= ts_writer);
    fp.record_access(b"K".to_vec(), AccessKind::Read);
    let mut done_read = false;
    match oracle.try_commit(&mut done_read, read_ts, fp).unwrap() {
        CreateCommitTimestampResult::Timestamp(ts) => {
            oracle.finalize_commit(ts).unwrap();
        },
        CreateCommitTimestampResult::Conflict(_) => {
            panic!("record at or below the snapshot triggered a conflict")
        },
    }
}

#[test]
fn read_blocks_until_pending_commit_is_finalized() {
    let mut oracle = open(1);
    // a writer reserves commit slot 1 but has not persisted yet
    let (outcome_w, mut fp_w) = oracle.begin_transaction().unwrap();
    fp_w.record_access(b"a".to_vec(), AccessKind::Write);
    let mut done_read_w = false;
    let ts_w = match oracle.try_commit(&mut done_read_w, pinned_ts(&outcome_w), fp_w).unwrap() {
        CreateCommitTimestampResult::Timestamp(ts) => ts,
        CreateCommitTimestampResult::Conflict(_) => panic!("unexpected conflict"),
    };
    assert_eq!(ts_w, 1);
    // a new reader would observe snapshot 1, which is begun but not done:
    // the read suspends
    let (outcome_r, _fp_r) = oracle.begin_transaction().unwrap();
    assert!(matches!(outcome_r, ReadTsOutcome::Blocked(1)));
    assert!(!oracle.snapshot_visible(1));
    // once the commit is finalized the reader is unblocked
    oracle.finalize_commit(ts_w).unwrap();
    assert!(oracle.snapshot_visible(1));
}

#[test]
fn records_survive_garbage_collection_while_a_reader_is_pinned() {
    let mut oracle = open(1);
    for key in [&b"f1"[..], b"f2", b"f3"] {
        commit_txn(&mut oracle, &[], &[key]);
    }
    // a long-lived reader pins read_ts = 3
    let (outcome_r, fp_r) = oracle.begin_transaction().unwrap();
    let read_r = pinned_ts(&outcome_r);
    assert_eq!(read_r, 3);
    // commits at 4, 5 and 6 while the reader is still pinned
    for key in [&b"f4"[..], b"f5", b"f6"] {
        commit_txn(&mut oracle, &[], &[key]);
    }
    let retained = oracle.retained_commit_timestamps();
    assert!(retained.contains(&4) && retained.contains(&5) && retained.contains(&6));
    // the reader finishes: its read mark is released and cleanup may evict
    let mut done_read_r = false;
    match oracle.try_commit(&mut done_read_r, read_r, fp_r).unwrap() {
        CreateCommitTimestampResult::Timestamp(ts) => oracle.finalize_commit(ts).unwrap(),
        CreateCommitTimestampResult::Conflict(_) => panic!("unexpected conflict"),
    }
    let retained_after_release = oracle.retained_commit_timestamps();
    assert!(!retained_after_release.contains(&4));
    assert!(!retained_after_release.contains(&5));
    assert!(retained_after_release.contains(&6));
}

#[test]
fn disabled_fingerprint_is_never_retained() {
    let mut oracle = open(1);
    let mut fp = ConflictChecker::disabled();
    assert!(!fp.tracks());
    // accesses recorded on a disabled fingerprint are ignored
    fp.record_access(b"K".to_vec(), AccessKind::Write);
    let (outcome, _unused_fp) = oracle.begin_transaction().unwrap();
    let mut done_read = false;
    match oracle.try_commit(&mut done_read, pinned_ts(&outcome), fp).unwrap() {
        CreateCommitTimestampResult::Timestamp(ts) => oracle.finalize_commit(ts).unwrap(),
        CreateCommitTimestampResult::Conflict(_) => panic!("unexpected conflict"),
    }
    assert_eq!(oracle.retained_commit_timestamps(), Vec::<u64>::new());
    // a tracking fingerprint is retained
    let ts = commit_txn(&mut oracle, &[], &[b"K"]);
    assert_eq!(oracle.retained_commit_timestamps(), vec![ts]);
}

#[test]
fn fingerprint_conflict_is_read_against_write() {
    let mut a = ConflictChecker::new();
    let mut b = ConflictChecker::new();
    a.record_access(b"K".to_vec(), AccessKind::Read);
    b.record_access(b"K".to_vec(), AccessKind::Write);
    assert!(a.has_conflict(&b));
    // b read nothing, so it does not conflict with a's writes
    assert!(!b.has_conflict(&a));
    let mut c = ConflictChecker::new();
    c.record_access(b"other".to_vec(), AccessKind::Write);
    assert!(!a.has_conflict(&c));
}

#[test]
fn increment_next_ts_reserves_a_commit_slot() {
    let mut oracle = open(1);
    oracle.increment_next_ts().unwrap();
    // the reserved slot 1 was never begun, so a fresh snapshot at 1 blocks
    let (outcome, _fp) = oracle.begin_transaction().unwrap();
    assert!(matches!(outcome, ReadTsOutcome::Blocked(1)));
    let mut done_read = false;
    match oracle.try_commit(&mut done_read, pinned_ts(&outcome), ConflictChecker::new()).unwrap() {
        CreateCommitTimestampResult::Timestamp(ts) => assert_eq!(ts, 2),
        CreateCommitTimestampResult::Conflict(_) => panic!("unexpected conflict"),
    }
}

#[test]
fn shutdown_is_idempotent_and_operations_report_closed() {
    let mut oracle = open(1);
    assert!(!oracle.is_stopped());
    oracle.shutdown();
    assert!(oracle.is_stopped());
    assert!(matches!(
        oracle.read_ts(),
        Err(Error::WaterMark(WaterMarkError::Closed))
    ));
    let mut done_read = false;
    assert!(matches!(
        oracle.try_commit(&mut done_read, 0, ConflictChecker::new()),
        Err(Error::WaterMark(WaterMarkError::Closed))
    ));
    assert!(matches!(
        oracle.finalize_commit(1),
        Err(Error::WaterMark(WaterMarkError::Closed))
    ));
    // a second shutdown changes nothing and does not fail
    oracle.shutdown();
}

#[test]
fn blocked_reader_resolves_after_shutdown() {
    let mut oracle = open(1);
    // reserve a commit slot that is never finalized
    let (outcome_w, fp_w) = oracle.begin_transaction().unwrap();
    let mut done_read_w = false;
    match oracle.try_commit(&mut done_read_w, pinned_ts(&outcome_w), fp_w).unwrap() {
        CreateCommitTimestampResult::Timestamp(_ts) => {},
        CreateCommitTimestampResult::Conflict(_) => panic!("unexpected conflict"),
    }
    let (outcome_r, _fp_r) = oracle.begin_transaction().unwrap();
    assert!(matches!(outcome_r, ReadTsOutcome::Blocked(1)));
    // shutdown resolves the blocked reader within bounded time: the poll
    // reports the closed condition instead of hanging
    oracle.shutdown();
    assert!(matches!(
        oracle.read_ts(),
        Err(Error::WaterMark(WaterMarkError::Closed))
    ));
}

/// A tiny multi-version store standing in for the storage engine: rows carry
/// the commit sequence number that wrote them, and a lookup under a snapshot
/// sees only rows at or below its read timestamp.
struct MiniStore {
    rows: Vec<(Vec<u8>, Vec<u8>, u64)>,
}

impl MiniStore {
    fn new() -> MiniStore {
        MiniStore { rows: Vec::new() }
    }

    fn insert(&mut self, key: &[u8], value: &[u8], seqno: u64) {
        self.rows.push((key.to_vec(), value.to_vec(), seqno));
    }

    fn lookup(&self, key: &[u8], read_ts: u64) -> Option<Vec<u8>> {
        let mut best: Option<(u64, Vec<u8>)> = None;
        for (k, v, s) in &self.rows {
            if k == key && *s <= read_ts {
                match &best {
                    Some((bs, _)) if *bs >= *s => {},
                    _ => best = Some((*s, v.clone())),
                }
            }
        }
        best.map(|(_, v)| v)
    }
}

#[test]
fn end_to_end_snapshot_isolation() {
    let mut store = MiniStore::new();
    let mut oracle = open(1);
    // T1 pins its snapshot before any commit
    let (outcome_1, _fp_1) = oracle.begin_transaction().unwrap();
    assert!(matches!(outcome_1, ReadTsOutcome::Ready(0)));
    let read_1 = pinned_ts(&outcome_1);
    // T2 writes key "a" and commits at timestamp 1
    let (outcome_2, mut fp_2) = oracle.begin_transaction().unwrap();
    fp_2.record_access(b"a".to_vec(), AccessKind::Write);
    let mut done_read_2 = false;
    let ts_2 = match oracle.try_commit(&mut done_read_2, pinned_ts(&outcome_2), fp_2).unwrap() {
        CreateCommitTimestampResult::Timestamp(ts) => ts,
        CreateCommitTimestampResult::Conflict(_) => panic!("unexpected conflict"),
    };
    assert_eq!(ts_2, 1);
    store.insert(b"a", b"value", ts_2);
    oracle.finalize_commit(ts_2).unwrap();
    // T1's snapshot predates the commit: it must not observe "a"
    assert_eq!(store.lookup(b"a", read_1), None);
    // a fresh T3 started after finalize observes "a"
    let (outcome_3, _fp_3) = oracle.begin_transaction().unwrap();
    let read_3 = pinned_ts(&outcome_3);
    assert!(matches!(outcome_3, ReadTsOutcome::Ready(1)));
    assert_eq!(store.lookup(b"a", read_3), Some(b"value".to_vec()));
}
