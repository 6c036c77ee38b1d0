//! Transaction Oracle: timestamp allocation, conflict detection and commit
//! visibility.
//!
//! The Oracle owns a single logical clock `next_txn_ts`, the retained list of
//! recently committed transactions, and two watermarks over the same
//! timestamp space: `read_mark` tracks reader liveness (which snapshots are
//! still pinned) and `txn_mark` tracks commit visibility (which allocated
//! commit timestamps have finished applying).  Both watermarks share one
//! [`Closer`] so that shutdown stops them together.
//!
//! All operations take the Oracle exclusively, which models the single
//! exclusive lock of the protocol: commit timestamps are handed out in the
//! order the callers arrive, and begin events reach each watermark in
//! timestamp order.

use vstd::prelude::*;

use crate::closer::Closer;
use crate::conflict::{spec_has_conflict, ConflictChecker};
use crate::watermark::{
    lemma_outstanding_in_absent, outstanding_in, ts_present, waiters_above, WaterMark,
    WaterMarkError,
};

verus! {

/// Error surface of Oracle operations.
#[derive(Clone, Copy, Debug, PartialEq, Eq)]
pub enum Error {
    /// Watermark-related error: the operation arrived after shutdown.
    WaterMark(WaterMarkError),
    /// The exclusive state was left inconsistent by a failed holder.
    Poisoned,
}

/// One retained committed transaction: its commit timestamp and the
/// fingerprint of the keys it wrote.
pub struct CommittedTxn {
    pub ts: u64,
    pub conflict_checker: ConflictChecker,
}

/// Outcome of a commit-timestamp request.
pub enum CreateCommitTimestampResult {
    /// The allocated commit timestamp.
    Timestamp(u64),
    /// A retained transaction conflicts; the caller's fingerprint is handed
    /// back for reuse on retry.
    Conflict(Option<ConflictChecker>),
}

/// Outcome of pinning a read snapshot.
pub enum ReadTsOutcome {
    /// Every commit at or below the pinned timestamp is visible.
    Ready(u64),
    /// The snapshot is pinned, but some commit at or below it has not
    /// finished applying: the caller must wait for `finalize_commit` on that
    /// timestamp before reading.
    Blocked(u64),
}

/// Some retained record committed after `read_ts` and conflicts with `fp`.
pub open spec fn has_conflicting(
    committed: Seq<CommittedTxn>,
    read_ts: u64,
    fp: ConflictChecker,
) -> bool {
    exists|i: int|
        0 <= i < committed.len() && (#[trigger] committed[i]).ts > read_ts && spec_has_conflict(
            fp,
            committed[i].conflict_checker,
        )
}

/// Retained records strictly above the garbage-collection floor, in order.
pub open spec fn retained_after(s: Seq<CommittedTxn>, floor: u64) -> Seq<CommittedTxn>
    decreases s.len(),
{
    if s.len() == 0 {
        Seq::empty()
    } else {
        let rest = retained_after(s.drop_first(), floor);
        if s[0].ts > floor {
            seq![s[0]] + rest
        } else {
            rest
        }
    }
}

/// Commit timestamps of the retained list strictly increase.
pub open spec fn commits_ordered(s: Seq<CommittedTxn>) -> bool {
    forall|i: int, j: int| 0 <= i < j < s.len() ==> s[i].ts < s[j].ts
}

/// No settled commit ever triggers a conflict report: a record whose commit
/// timestamp is at or below the snapshot cannot make the conflict scan fire.
pub proof fn lemma_settled_commits_never_conflict(
    committed: Seq<CommittedTxn>,
    read_ts: u64,
    fp: ConflictChecker,
)
    requires
        forall|i: int| 0 <= i < committed.len() ==> (#[trigger] committed[i]).ts <= read_ts,
    ensures
        !has_conflicting(committed, read_ts, fp),
{
}

/// Monotonicity law: across any sequence of successful commits, the returned
/// timestamps strictly increase.  `commit_assigned(pre, post, ts)` is exactly
/// what `try_commit` guarantees of a successful call, and every Oracle
/// operation keeps `next_txn_ts` non-decreasing, so the premise holds of any
/// two successful commits in completion order.
pub open spec fn commit_assigned(pre: Oracle, post: Oracle, ts: u64) -> bool {
    ts == pre.spec_next_txn_ts() && post.spec_next_txn_ts() == ts + 1
}

pub proof fn lemma_commit_timestamps_strictly_increase(
    pre1: Oracle,
    post1: Oracle,
    ts1: u64,
    pre2: Oracle,
    post2: Oracle,
    ts2: u64,
)
    requires
        commit_assigned(pre1, post1, ts1),
        post1.spec_next_txn_ts() <= pre2.spec_next_txn_ts(),
        commit_assigned(pre2, post2, ts2),
    ensures
        ts2 > ts1,
{
}

/// Garbage-collection safety: every retained record whose commit timestamp
/// lies above the floor survives cleanup.  Together with the watermark law
/// that the reader frontier never passes a still-pinned read timestamp, no
/// record a pinned reader may still need is ever evicted.
pub proof fn lemma_gc_keeps_records_above_floor(s: Seq<CommittedTxn>, floor: u64, i: int)
    requires
        0 <= i < s.len(),
        s[i].ts > floor,
    ensures
        retained_after(s, floor).contains(s[i]),
    decreases s.len(),
{
    let rest = retained_after(s.drop_first(), floor);
    if i == 0 {
        assert(retained_after(s, floor)[0] == s[0]);
    } else {
        lemma_gc_keeps_records_above_floor(s.drop_first(), floor, i - 1);
        let j = choose|j: int| 0 <= j < rest.len() && rest[j] == s.drop_first()[i - 1];
        if s[0].ts > floor {
            assert(retained_after(s, floor)[j + 1] == rest[j]);
        } else {
            assert(retained_after(s, floor)[j] == rest[j]);
        }
    }
}

proof fn lemma_retained_after_id(s: Seq<CommittedTxn>, floor: u64)
    requires
        forall|i: int| 0 <= i < s.len() ==> (#[trigger] s[i]).ts > floor,
    ensures
        retained_after(s, floor) == s,
    decreases s.len(),
{
    if s.len() > 0 {
        assert forall|i: int| 0 <= i < s.drop_first().len() implies (#[trigger] s.drop_first()[i]).ts
            > floor by {
            assert(s[i + 1].ts > floor);
        }
        lemma_retained_after_id(s.drop_first(), floor);
        assert(retained_after(s, floor) =~= s);
    } else {
        assert(retained_after(s, floor) =~= s);
    }
}

proof fn lemma_retained_after_props(s: Seq<CommittedTxn>, floor: u64)
    ensures
        forall|i: int|
            0 <= i < retained_after(s, floor).len() ==> (#[trigger] retained_after(s, floor)[i]).ts
                > floor,
        forall|i: int|
            0 <= i < retained_after(s, floor).len() ==> s.contains(retained_after(s, floor)[i]),
        commits_ordered(s) ==> commits_ordered(retained_after(s, floor)),
    decreases s.len(),
{
    let ret = retained_after(s, floor);
    if s.len() == 0 {
        assert(ret.len() == 0);
    } else {
        lemma_retained_after_props(s.drop_first(), floor);
        let rest = retained_after(s.drop_first(), floor);
        assert forall|i: int| 0 <= i < ret.len() implies (#[trigger] ret[i]).ts > floor
            && s.contains(ret[i]) by {
            if s[0].ts > floor {
                if i == 0 {
                    assert(ret[0] == s[0]);
                } else {
                    assert(ret[i] == rest[i - 1]);
                    let j = choose|j: int|
                        0 <= j < s.drop_first().len() && s.drop_first()[j] == rest[i - 1];
                    assert(s[j + 1] == ret[i]);
                }
            } else {
                assert(ret[i] == rest[i]);
                let j = choose|j: int| 0 <= j < s.drop_first().len() && s.drop_first()[j] == rest[i];
                assert(s[j + 1] == ret[i]);
            }
        }
        if commits_ordered(s) {
            assert forall|a: int, b: int|
                0 <= a < b < s.drop_first().len() implies s.drop_first()[a].ts
                < s.drop_first()[b].ts by {
                assert(s[a + 1].ts < s[b + 1].ts);
            }
            assert forall|a: int, b: int| 0 <= a < b < ret.len() implies ret[a].ts < ret[b].ts by {
                if s[0].ts > floor {
                    if a == 0 {
                        assert(ret[b] == rest[b - 1]);
                        let j = choose|j: int|
                            0 <= j < s.drop_first().len() && s.drop_first()[j] == rest[b - 1];
                        assert(s[0].ts < s[j + 1].ts);
                    } else {
                        assert(ret[a] == rest[a - 1] && ret[b] == rest[b - 1]);
                    }
                } else {
                    assert(ret[a] == rest[a] && ret[b] == rest[b]);
                }
            }
        }
    }
}

/// Shared coordinator for timestamp allocation, conflict detection and
/// commit visibility.
pub struct Oracle {
    /// The next commit timestamp to hand out; also defines the read snapshot
    /// `next_txn_ts - 1`.
    next_txn_ts: u64,
    /// Reader-watermark frontier at the time of the last cleanup.
    last_cleanup_ts: u64,
    /// Recently committed transactions, retained in commit order for the
    /// conflict scan.
    committed_txns: Vec<CommittedTxn>,
    /// Tracks reader liveness: which read snapshots are still pinned.
    read_mark: WaterMark,
    /// Tracks commit visibility: which allocated commit timestamps have
    /// finished applying.
    txn_mark: WaterMark,
    /// Stops both watermarks together.
    closer: Closer,
}

impl Oracle {
    pub closed spec fn spec_next_txn_ts(self) -> u64 {
        self.next_txn_ts
    }

    pub closed spec fn spec_last_cleanup_ts(self) -> u64 {
        self.last_cleanup_ts
    }

    pub closed spec fn committed_view(self) -> Seq<CommittedTxn> {
        self.committed_txns@
    }

    pub closed spec fn spec_read_mark(self) -> WaterMark {
        self.read_mark
    }

    pub closed spec fn spec_txn_mark(self) -> WaterMark {
        self.txn_mark
    }

    pub closed spec fn spec_closer(self) -> Closer {
        self.closer
    }

    /// Shutdown has been signalled: every later watermark operation reports
    /// `WaterMarkClosed`.
    pub open spec fn is_shut_down(self) -> bool {
        self.spec_closer().spec_signaled()
    }

    /// The candidate read snapshot: the most recently allocated commit
    /// position.
    pub open spec fn read_snapshot(self) -> u64 {
        (self.spec_next_txn_ts() - 1) as u64
    }

    /// One more reader can be pinned at the current snapshot without
    /// overflowing its pending counter.
    pub open spec fn can_pin_reader(self) -> bool {
        self.spec_read_mark().outstanding(self.read_snapshot()) < u64::MAX
    }

    /// Well-formedness of the coordinator state.
    pub open spec fn wf(self) -> bool {
        &&& self.spec_read_mark().wf()
        &&& self.spec_txn_mark().wf()
        &&& self.spec_closer().wf()
        &&& self.spec_next_txn_ts() >= 1
        &&& self.spec_last_cleanup_ts() <= self.spec_read_mark().spec_done_until()
        &&& self.spec_read_mark().spec_done_until() < self.spec_next_txn_ts()
        &&& self.spec_txn_mark().spec_done_until() < self.spec_next_txn_ts()
        &&& commits_ordered(self.committed_view())
        &&& forall|i: int|
            0 <= i < self.committed_view().len() ==> self.spec_last_cleanup_ts() < (
            #[trigger] self.committed_view()[i]).ts < self.spec_next_txn_ts()
        &&& forall|u: u64|
            #[trigger] ts_present(self.spec_read_mark().entries(), u) ==> u
                < self.spec_next_txn_ts()
        &&& forall|u: u64|
            #[trigger] ts_present(self.spec_txn_mark().entries(), u) ==> u
                < self.spec_next_txn_ts()
        // visibility gating: the frontier never reaches a commit that is
        // begun but not yet finalized, so a snapshot at the frontier never
        // references an allocated-but-unapplied commit
        &&& forall|u: u64|
            #[trigger] self.spec_txn_mark().outstanding(u) > 0
                ==> self.spec_txn_mark().spec_done_until() < u
        // the reader frontier never passes a pinned snapshot (a reader may
        // legitimately pin the snapshot the frontier already sits on, so
        // this bound is not strict)
        &&& forall|u: u64|
            #[trigger] self.spec_read_mark().outstanding(u) > 0
                ==> self.spec_read_mark().spec_done_until() <= u
        &&& self.spec_read_mark().spec_closed() == self.spec_closer().spec_signaled()
        &&& self.spec_txn_mark().spec_closed() == self.spec_closer().spec_signaled()
        &&& self.spec_closer().spec_participants() == 2
        &&& self.spec_closer().spec_acknowledged() == (if self.spec_closer().spec_signaled() {
            2u64
        } else {
            0u64
        })
    }

    /// Creates an Oracle whose clock starts at `next_txn_ts`.
    ///
    /// The clock must start at 1 or later: the read snapshot is always
    /// `next_txn_ts - 1`, the position of the most recently allocated commit.
    /// Every commit position below the starting clock belongs to a previous
    /// run and is already durable, so the visibility watermark is seeded with
    /// the whole range `[1, next_txn_ts - 1]` as done.
    pub fn new(read_mark_name: String, txn_mark_name: String, next_txn_ts: u64) -> (o: Oracle)
        requires
            next_txn_ts >= 1,
        ensures
            o.wf(),
            !o.is_shut_down(),
            o.spec_next_txn_ts() == next_txn_ts,
            o.spec_last_cleanup_ts() == 0,
            o.committed_view().len() == 0,
            o.spec_read_mark().spec_name() == read_mark_name@,
            o.spec_txn_mark().spec_name() == txn_mark_name@,
            o.spec_read_mark().entries().len() == 0,
            o.spec_read_mark().spec_done_until() == 0,
            o.spec_txn_mark().spec_done_until() == next_txn_ts - 1,
            forall|u: u64| #[trigger] o.spec_txn_mark().outstanding(u) == 0,
            o.spec_read_mark().spec_waiters().len() == 0,
            o.spec_txn_mark().spec_waiters().len() == 0,
    {
        let boot: u64 = next_txn_ts - 1;
        let mut orc = Oracle {
            next_txn_ts,
            last_cleanup_ts: 0,
            committed_txns: Vec::new(),
            read_mark: WaterMark::new(read_mark_name),
            txn_mark: WaterMark::new(txn_mark_name),
            closer: Closer::new(2),
        };
        let ghost fresh = orc.txn_mark;
        match orc.txn_mark.done_range(0, boot) {
            Err(e) => {
                proof {
                    assert(false);
                }
            },
            Ok(()) => {},
        }
        proof {
            assert(fresh.entries().len() == 0);
            assert forall|u: u64| #[trigger] orc.txn_mark.outstanding(u) == 0 by {
                assert(fresh.outstanding(u) == 0);
            }
            assert forall|u: u64| #[trigger]
                ts_present(orc.txn_mark.entries(), u) implies u < next_txn_ts by {
                assert(!ts_present(fresh.entries(), u));
            }
            if boot > 0 {
                assert(forall|x: u64| x <= boot ==> #[trigger] orc.txn_mark.outstanding(x) == 0);
                assert(orc.txn_mark.spec_done_until() >= boot);
            }
            assert(orc.txn_mark.spec_done_until() <= boot);
            assert(orc.txn_mark.spec_waiters() =~= Seq::<u64>::empty());
        }
        orc
    }

    /// Pins a read snapshot at the most recently allocated commit position.
    ///
    /// The snapshot is registered as in-flight in the reader watermark.  The
    /// result is `Ready` exactly when every commit at or below the snapshot
    /// is already visible; otherwise the caller is registered as a waiter on
    /// the visibility watermark and must wait for the blocking commit to be
    /// finalized (`Blocked` models the suspension of this call).
    #[verifier::rlimit(100)]
    pub fn read_ts(&mut self) -> (r: Result<ReadTsOutcome, Error>)
        requires
            old(self).wf(),
            old(self).can_pin_reader(),
        ensures
            final(self).wf(),
            final(self).spec_next_txn_ts() == old(self).spec_next_txn_ts(),
            final(self).spec_last_cleanup_ts() == old(self).spec_last_cleanup_ts(),
            final(self).committed_view() == old(self).committed_view(),
            final(self).is_shut_down() == old(self).is_shut_down(),
            old(self).is_shut_down() ==> r == Err::<ReadTsOutcome, Error>(Error::WaterMark(
                WaterMarkError::Closed,
            )) && *final(self) == *old(self),
            !old(self).is_shut_down() ==> {
                &&& (r == Ok::<ReadTsOutcome, Error>(ReadTsOutcome::Ready(old(self).read_snapshot()))
                    <==> old(self).spec_txn_mark().spec_done_until() >= old(self).read_snapshot())
                &&& (r == Ok::<ReadTsOutcome, Error>(ReadTsOutcome::Blocked(
                    old(self).read_snapshot(),
                )) <==> old(self).spec_txn_mark().spec_done_until() < old(self).read_snapshot())
                &&& forall|ts0: u64|
                    #[trigger] old(self).spec_txn_mark().outstanding(ts0) > 0 && ts0 <= old(self).read_snapshot() ==> r == Ok::<ReadTsOutcome, Error>(ReadTsOutcome::Blocked(
                        old(self).read_snapshot(),
                    ))
                &&& forall|u: u64|
                    #[trigger] final(self).spec_read_mark().outstanding(u) == old(self).spec_read_mark().outstanding(u) + (if u == old(self).read_snapshot() {
                        1nat
                    } else {
                        0nat
                    })
                &&& final(self).spec_read_mark().spec_done_until() == old(self).spec_read_mark().spec_done_until()
                &&& final(self).spec_txn_mark().entries() == old(self).spec_txn_mark().entries()
                &&& final(self).spec_txn_mark().spec_done_until() == old(self).spec_txn_mark().spec_done_until()
                &&& (r == Ok::<ReadTsOutcome, Error>(ReadTsOutcome::Blocked(
                    old(self).read_snapshot(),
                )) ==> final(self).spec_txn_mark().spec_waiters() == old(self).spec_txn_mark().spec_waiters().push(old(self).read_snapshot()))
            },
    {
        let snapshot: u64 = self.next_txn_ts - 1;
        match self.read_mark.begin(snapshot) {
            Err(e) => {
                return Err(Error::WaterMark(e));
            },
            Ok(()) => {},
        }
        proof {
            assert forall|u: u64| #[trigger]
                self.read_mark.outstanding(u) > 0 implies self.read_mark.spec_done_until()
                <= u by {
                if u != snapshot {
                    assert(old(self).spec_read_mark().outstanding(u) > 0);
                }
            }
        }
        let wait = self.txn_mark.wait_for_mark(snapshot);
        proof {
            assert forall|u: u64| #[trigger]
                self.txn_mark.outstanding(u) > 0 implies self.txn_mark.spec_done_until() < u by {
                assert(outstanding_in(self.txn_mark.entries(), u) == outstanding_in(
                    old(self).spec_txn_mark().entries(),
                    u,
                ));
                assert(old(self).spec_txn_mark().outstanding(u) > 0);
            }
        }
        match wait {
            Ok(true) => Ok(ReadTsOutcome::Ready(snapshot)),
            Ok(false) => Ok(ReadTsOutcome::Blocked(snapshot)),
            Err(e) => {
                proof {
                    assert(false);
                }
                Err(Error::WaterMark(e))
            },
        }
    }

    /// Begins a transaction: pins a read snapshot and hands out a fresh,
    /// empty conflict fingerprint.
    pub fn begin_transaction(&mut self) -> (r: Result<(ReadTsOutcome, ConflictChecker), Error>)
        requires
            old(self).wf(),
            old(self).can_pin_reader(),
        ensures
            final(self).wf(),
            final(self).spec_next_txn_ts() == old(self).spec_next_txn_ts(),
            final(self).committed_view() == old(self).committed_view(),
            final(self).is_shut_down() == old(self).is_shut_down(),
            old(self).is_shut_down() ==> r == Err::<(ReadTsOutcome, ConflictChecker), Error>(
                Error::WaterMark(WaterMarkError::Closed),
            ),
            !old(self).is_shut_down() ==> match r {
                Ok((outcome, fp)) => {
                    &&& fp.is_tracking()
                    &&& fp.reads_view().len() == 0
                    &&& fp.writes_view().len() == 0
                    &&& (outcome == ReadTsOutcome::Ready(old(self).read_snapshot()) <==> old(self).spec_txn_mark().spec_done_until() >= old(self).read_snapshot())
                    &&& (outcome == ReadTsOutcome::Blocked(old(self).read_snapshot()) <==> old(self).spec_txn_mark().spec_done_until() < old(self).read_snapshot())
                },
                Err(_) => false,
            },
    {
        match self.read_ts() {
            Ok(outcome) => Ok((outcome, ConflictChecker::new())),
            Err(e) => Err(e),
        }
    }

    /// Whether every commit at or below `read_ts` has finished applying: a
    /// reader whose `read_ts` call reported `Blocked` polls this after the
    /// blocking commit is finalized.
    pub fn snapshot_visible(&self, read_ts: u64) -> (r: bool)
        ensures
            r == (self.spec_txn_mark().spec_done_until() >= read_ts),
    {
        self.txn_mark.current_mark() >= read_ts
    }

    /// The next commit timestamp the Oracle would hand out.
    pub fn next_ts(&self) -> (r: u64)
        ensures
            r == self.spec_next_txn_ts(),
    {
        self.next_txn_ts
    }

    /// Whether shutdown has been signalled.
    pub fn is_stopped(&self) -> (r: bool)
        ensures
            r == self.is_shut_down(),
    {
        self.closer.is_signaled()
    }

    /// The commit timestamps of the retained records, in commit order.
    pub fn retained_commit_timestamps(&self) -> (r: Vec<u64>)
        ensures
            r@.len() == self.committed_view().len(),
            forall|i: int|
                0 <= i < r@.len() ==> r@[i] == (#[trigger] self.committed_view()[i]).ts,
    {
        let mut out: Vec<u64> = Vec::new();
        let n: usize = self.committed_txns.len();
        let mut i: usize = 0;
        while i < n
            invariant
                n == self.committed_txns.len(),
                i <= n,
                out@.len() == i,
                forall|k: int| 0 <= k < i ==> out@[k] == (#[trigger] self.committed_txns@[k]).ts,
            decreases n - i,
        {
            out.push(self.committed_txns[i].ts);
            i = i + 1;
        }
        out
    }

    /// Discards retained records at or below the reader watermark's
    /// frontier: no in-flight reader can need them for a conflict scan.
    fn cleanup_committed_transactions(&mut self, detect_conflicts: bool) -> (r: Result<(), Error>)
        requires
            old(self).wf(),
        ensures
            final(self).wf(),
            final(self).spec_next_txn_ts() == old(self).spec_next_txn_ts(),
            final(self).spec_read_mark() == old(self).spec_read_mark(),
            final(self).spec_txn_mark() == old(self).spec_txn_mark(),
            final(self).spec_closer() == old(self).spec_closer(),
            !detect_conflicts ==> r == Ok::<(), Error>(()) && *final(self) == *old(self),
            detect_conflicts && old(self).is_shut_down() ==> r == Err::<(), Error>(
                Error::WaterMark(WaterMarkError::Closed),
            ) && *final(self) == *old(self),
            detect_conflicts && !old(self).is_shut_down() ==> {
                &&& r == Ok::<(), Error>(())
                &&& final(self).spec_last_cleanup_ts() == old(self).spec_read_mark().spec_done_until()
                &&& final(self).committed_view() == retained_after(
                    old(self).committed_view(),
                    final(self).spec_last_cleanup_ts(),
                )
            },
    {
        if !detect_conflicts {
            return Ok(());
        }
        let max_read_ts: u64 = match self.read_mark.done_until() {
            Err(e) => {
                return Err(Error::WaterMark(e));
            },
            Ok(du) => du,
        };
        // the reader frontier never regresses below the last cleanup point
        assert(max_read_ts >= self.last_cleanup_ts);
        if max_read_ts == self.last_cleanup_ts {
            proof {
                lemma_retained_after_id(self.committed_txns@, max_read_ts);
            }
            return Ok(());
        }
        self.last_cleanup_ts = max_read_ts;
        let ghost orig = self.committed_txns@;
        let mut kept: Vec<CommittedTxn> = Vec::new();
        while self.committed_txns.len() > 0
            invariant
                orig == old(self).committed_view(),
                self.next_txn_ts == old(self).spec_next_txn_ts(),
                self.last_cleanup_ts == max_read_ts,
                self.read_mark == old(self).spec_read_mark(),
                self.txn_mark == old(self).spec_txn_mark(),
                self.closer == old(self).spec_closer(),
                retained_after(orig, max_read_ts) == kept@ + retained_after(
                    self.committed_txns@,
                    max_read_ts,
                ),
            decreases self.committed_txns.len(),
        {
            let ghost before = self.committed_txns@;
            let ghost kept_before = kept@;
            let rec = self.committed_txns.remove(0);
            proof {
                assert(before.drop_first() =~= self.committed_txns@);
            }
            if rec.ts > max_read_ts {
                kept.push(rec);
                proof {
                    assert(kept@ =~= kept_before + seq![before[0]]);
                    assert(kept_before + (seq![before[0]] + retained_after(
                        self.committed_txns@,
                        max_read_ts,
                    )) =~= kept@ + retained_after(self.committed_txns@, max_read_ts));
                }
            }
        }
        proof {
            assert(kept@ + retained_after(self.committed_txns@, max_read_ts) =~= kept@);
        }
        self.committed_txns = kept;
        proof {
            lemma_retained_after_props(orig, max_read_ts);
            assert forall|i: int|
                0 <= i < self.committed_txns@.len() implies self.last_cleanup_ts < (
            #[trigger] self.committed_txns@[i]).ts < self.next_txn_ts by {
                assert(orig.contains(self.committed_txns@[i]));
                let j = choose|j: int| 0 <= j < orig.len() && orig[j] == self.committed_txns@[i];
                assert(old(self).committed_view()[j].ts < old(self).spec_next_txn_ts());
            }
        }
        Ok(())
    }

    /// Requests a commit timestamp for a transaction that read at `read_ts`.
    ///
    /// Under the caller-held serialization order, this scans every retained
    /// record that committed after `read_ts` for a conflict; on the first
    /// conflict it reports `Conflict` and hands the fingerprint back for
    /// retry.  Otherwise it releases the read mark (once per transaction,
    /// guarded by `done_read`), garbage-collects settled records, allocates
    /// the next timestamp, registers it as in-flight-but-not-yet-visible in
    /// the visibility watermark, and retains the fingerprint (a disabled
    /// fingerprint is never retained, so the list cannot grow without
    /// conflict detection).
    #[verifier::rlimit(100)]
    pub fn try_commit(
        &mut self,
        done_read: &mut bool,
        read_ts: u64,
        fingerprint: ConflictChecker,
    ) -> (r: Result<CreateCommitTimestampResult, Error>)
        requires
            old(self).wf(),
            read_ts < old(self).spec_next_txn_ts(),
            old(self).spec_next_txn_ts() < u64::MAX,
        ensures
            final(self).wf(),
            final(self).spec_next_txn_ts() >= old(self).spec_next_txn_ts(),
            final(self).is_shut_down() == old(self).is_shut_down(),
            has_conflicting(old(self).committed_view(), read_ts, fingerprint) ==> {
                &&& r == Ok::<CreateCommitTimestampResult, Error>(
                    CreateCommitTimestampResult::Conflict(Some(fingerprint)),
                )
                &&& *final(self) == *old(self)
                &&& *final(done_read) == *old(done_read)
            },
            !has_conflicting(old(self).committed_view(), read_ts, fingerprint) && old(self).is_shut_down() ==> {
                &&& r == Err::<CreateCommitTimestampResult, Error>(Error::WaterMark(
                    WaterMarkError::Closed,
                ))
                &&& *final(self) == *old(self)
                &&& *final(done_read) == *old(done_read)
            },
            !has_conflicting(old(self).committed_view(), read_ts, fingerprint) && !old(self).is_shut_down() ==> {
                &&& r == Ok::<CreateCommitTimestampResult, Error>(
                    CreateCommitTimestampResult::Timestamp(old(self).spec_next_txn_ts()),
                )
                &&& final(self).spec_next_txn_ts() == old(self).spec_next_txn_ts() + 1
                &&& *final(done_read) == true
                &&& (*old(done_read) ==> final(self).spec_read_mark() == old(self).spec_read_mark())
                &&& (!*old(done_read) ==> {
                    &&& forall|u: u64|
                        #[trigger] final(self).spec_read_mark().outstanding(u) == (if u == read_ts
                            && old(self).spec_read_mark().outstanding(read_ts) > 0 {
                            (old(self).spec_read_mark().outstanding(u) - 1) as nat
                        } else {
                            old(self).spec_read_mark().outstanding(u)
                        })
                    &&& final(self).spec_read_mark().spec_done_until() >= old(self).spec_read_mark().spec_done_until()
                    &&& forall|x: u64|
                        old(self).spec_read_mark().spec_done_until() <= x && #[trigger] final(self).spec_read_mark().outstanding(x) > 0 ==> final(self).spec_read_mark().spec_done_until() <= x
                })
                &&& final(self).spec_last_cleanup_ts() == final(self).spec_read_mark().spec_done_until()
                &&& forall|r0: u64|
                    #[trigger] final(self).spec_read_mark().outstanding(r0) > 0 ==> final(self).spec_last_cleanup_ts() <= r0
                &&& final(self).committed_view() == retained_after(
                    old(self).committed_view(),
                    final(self).spec_last_cleanup_ts(),
                ) + (if fingerprint.is_tracking() {
                    seq![
                        (CommittedTxn {
                            ts: old(self).spec_next_txn_ts(),
                            conflict_checker: fingerprint,
                        }),
                    ]
                } else {
                    Seq::empty()
                })
                &&& forall|u: u64|
                    #[trigger] final(self).spec_txn_mark().outstanding(u) == old(self).spec_txn_mark().outstanding(u) + (if u == old(self).spec_next_txn_ts() {
                        1nat
                    } else {
                        0nat
                    })
                &&& final(self).spec_txn_mark().spec_done_until() == old(self).spec_txn_mark().spec_done_until()
            },
    {
        // conflict scan over every record that committed after the snapshot
        let n: usize = self.committed_txns.len();
        let mut i: usize = 0;
        while i < n
            invariant
                n == self.committed_txns.len(),
                i <= n,
                *self == *old(self),
                self.wf(),
                forall|k: int|
                    0 <= k < i ==> !((#[trigger] self.committed_txns@[k]).ts > read_ts
                        && spec_has_conflict(
                        fingerprint,
                        self.committed_txns@[k].conflict_checker,
                    )),
            decreases n - i,
        {
            if self.committed_txns[i].ts > read_ts {
                if fingerprint.has_conflict(&self.committed_txns[i].conflict_checker) {
                    return Ok(CreateCommitTimestampResult::Conflict(Some(fingerprint)));
                }
            }
            i = i + 1;
        }
        // release the read mark once per transaction
        if !*done_read {
            match self.read_mark.done(read_ts) {
                Err(e) => {
                    return Err(Error::WaterMark(e));
                },
                Ok(()) => {},
            }
            *done_read = true;
        }
        proof {
            // the reader frontier stays below the clock, so the state is
            // still well formed for cleanup
            if self.read_mark.spec_done_until() != old(self).spec_read_mark().spec_done_until() {
                assert(ts_present(
                    old(self).spec_read_mark().entries(),
                    self.read_mark.spec_done_until(),
                ));
            }
            assert(self.read_mark.spec_done_until() < self.next_txn_ts);
            assert forall|u: u64| #[trigger]
                ts_present(self.read_mark.entries(), u) implies u < self.next_txn_ts by {
                assert(ts_present(old(self).spec_read_mark().entries(), u));
            }
        }
        match self.cleanup_committed_transactions(true) {
            Err(e) => {
                return Err(e);
            },
            Ok(()) => {},
        }
        // allocate the commit timestamp; it never regresses below the floor
        let ts: u64 = self.next_txn_ts;
        proof {
            assert(ts >= self.last_cleanup_ts);
        }
        self.next_txn_ts = ts + 1;
        proof {
            if ts_present(self.txn_mark.entries(), ts) {
            } else {
                lemma_outstanding_in_absent(self.txn_mark.entries(), ts);
            }
            assert(self.txn_mark.outstanding(ts) == 0);
        }
        match self.txn_mark.begin(ts) {
            Err(e) => {
                proof {
                    assert(false);
                }
                return Err(Error::WaterMark(e));
            },
            Ok(()) => {},
        }
        proof {
            assert forall|u: u64| #[trigger]
                ts_present(self.txn_mark.entries(), u) implies u < self.next_txn_ts by {
                if u != ts {
                    assert(ts_present(old(self).spec_txn_mark().entries(), u));
                }
            }
            lemma_retained_after_props(old(self).committed_view(), self.last_cleanup_ts);
            assert forall|i: int|
                0 <= i < self.committed_txns@.len() implies self.last_cleanup_ts < (
            #[trigger] self.committed_txns@[i]).ts < ts by {
                assert(old(self).committed_view().contains(self.committed_txns@[i]));
                let j = choose|j: int|
                    0 <= j < old(self).committed_view().len() && old(self).committed_view()[j]
                        == self.committed_txns@[i];
                assert(old(self).committed_view()[j].ts < old(self).spec_next_txn_ts());
            }
        }
        // retain the fingerprint in its serial-order slot; a disabled
        // fingerprint is never retained
        let ghost before_push = self.committed_txns@;
        if fingerprint.tracks() {
            self.committed_txns.push(CommittedTxn { ts, conflict_checker: fingerprint });
            proof {
                assert(self.committed_txns@ =~= before_push + seq![
                    (CommittedTxn { ts, conflict_checker: fingerprint }),
                ]);
            }
        } else {
            proof {
                assert(self.committed_txns@ =~= before_push + Seq::<CommittedTxn>::empty());
            }
        }
        Ok(CreateCommitTimestampResult::Timestamp(ts))
    }

    /// Makes the commit at `commit_ts` visible to future readers: called
    /// strictly after durable persistence.  Retires the timestamp in the
    /// visibility watermark, unblocking every reader waiting on a target at
    /// or above it.
    pub fn finalize_commit(&mut self, commit_ts: u64) -> (r: Result<(), Error>)
        requires
            old(self).wf(),
        ensures
            final(self).wf(),
            final(self).spec_next_txn_ts() == old(self).spec_next_txn_ts(),
            final(self).spec_last_cleanup_ts() == old(self).spec_last_cleanup_ts(),
            final(self).committed_view() == old(self).committed_view(),
            final(self).spec_read_mark() == old(self).spec_read_mark(),
            final(self).is_shut_down() == old(self).is_shut_down(),
            old(self).is_shut_down() ==> r == Err::<(), Error>(Error::WaterMark(
                WaterMarkError::Closed,
            )) && *final(self) == *old(self),
            !old(self).is_shut_down() ==> {
                &&& r == Ok::<(), Error>(())
                &&& forall|u: u64|
                    #[trigger] final(self).spec_txn_mark().outstanding(u) == (if u == commit_ts
                        && old(self).spec_txn_mark().outstanding(commit_ts) > 0 {
                        (old(self).spec_txn_mark().outstanding(u) - 1) as nat
                    } else {
                        old(self).spec_txn_mark().outstanding(u)
                    })
                &&& final(self).spec_txn_mark().spec_done_until() >= old(self).spec_txn_mark().spec_done_until()
                &&& old(self).spec_txn_mark().outstanding(commit_ts) == 0 ==> final(self).spec_txn_mark() == old(self).spec_txn_mark()
                &&& forall|x: u64|
                    old(self).spec_txn_mark().spec_done_until() <= x && #[trigger] final(self).spec_txn_mark().outstanding(x) > 0 ==> final(self).spec_txn_mark().spec_done_until() <= x
                &&& forall|x: u64|
                    old(self).spec_txn_mark().spec_done_until() < x && #[trigger] final(self).spec_txn_mark().outstanding(x) > 0 ==> final(self).spec_txn_mark().spec_done_until() < x
                &&& final(self).spec_txn_mark().spec_waiters() == waiters_above(
                    old(self).spec_txn_mark().spec_waiters(),
                    final(self).spec_txn_mark().spec_done_until(),
                )
                &&& (ts_present(old(self).spec_txn_mark().entries(), commit_ts) && (forall|x: u64|
                    x <= commit_ts && ts_present(old(self).spec_txn_mark().entries(), x)
                        ==> #[trigger] final(self).spec_txn_mark().outstanding(x) == 0))
                    ==> final(self).spec_txn_mark().spec_done_until() >= commit_ts
            },
    {
        match self.txn_mark.done(commit_ts) {
            Err(e) => Err(Error::WaterMark(e)),
            Ok(()) => Ok(()),
        }
    }

    /// Bumps the clock without allocating a commit slot.
    pub fn increment_next_ts(&mut self) -> (r: Result<(), Error>)
        requires
            old(self).wf(),
            old(self).spec_next_txn_ts() < u64::MAX,
        ensures
            final(self).wf(),
            r == Ok::<(), Error>(()),
            final(self).spec_next_txn_ts() == old(self).spec_next_txn_ts() + 1,
            final(self).spec_last_cleanup_ts() == old(self).spec_last_cleanup_ts(),
            final(self).committed_view() == old(self).committed_view(),
            final(self).spec_read_mark() == old(self).spec_read_mark(),
            final(self).spec_txn_mark() == old(self).spec_txn_mark(),
            final(self).is_shut_down() == old(self).is_shut_down(),
    {
        self.next_txn_ts = self.next_txn_ts + 1;
        Ok(())
    }

    /// Stops both watermarks and waits until both have acknowledged the
    /// shutdown signal; every waiter still registered on either watermark is
    /// resolved now.  Idempotent: a second shutdown changes nothing.
    #[verifier::rlimit(100)]
    pub fn shutdown(&mut self)
        requires
            old(self).wf(),
        ensures
            final(self).wf(),
            final(self).is_shut_down(),
            final(self).spec_closer().spec_all_acknowledged(),
            final(self).spec_next_txn_ts() == old(self).spec_next_txn_ts(),
            final(self).spec_last_cleanup_ts() == old(self).spec_last_cleanup_ts(),
            final(self).committed_view() == old(self).committed_view(),
            final(self).spec_read_mark().spec_waiters().len() == 0,
            final(self).spec_txn_mark().spec_waiters().len() == 0,
            final(self).spec_read_mark().entries() == old(self).spec_read_mark().entries(),
            final(self).spec_txn_mark().entries() == old(self).spec_txn_mark().entries(),
            final(self).spec_read_mark().spec_done_until() == old(self).spec_read_mark().spec_done_until(),
            final(self).spec_txn_mark().spec_done_until() == old(self).spec_txn_mark().spec_done_until(),
            old(self).is_shut_down() ==> *final(self) == *old(self),
    {
        if self.closer.is_signaled() {
            return;
        }
        self.closer.signal();
        let _resolved_readers = self.read_mark.close();
        let _counted_first = self.closer.acknowledge();
        let _resolved_waiters = self.txn_mark.close();
        let _counted_second = self.closer.acknowledge();
        proof {
            assert forall|u: u64| #[trigger]
                self.txn_mark.outstanding(u) > 0 implies self.txn_mark.spec_done_until() < u by {
                assert(outstanding_in(self.txn_mark.entries(), u) == outstanding_in(
                    old(self).spec_txn_mark().entries(),
                    u,
                ));
                assert(old(self).spec_txn_mark().outstanding(u) > 0);
            }
            assert forall|u: u64| #[trigger]
                self.read_mark.outstanding(u) > 0 implies self.read_mark.spec_done_until()
                <= u by {
                assert(outstanding_in(self.read_mark.entries(), u) == outstanding_in(
                    old(self).spec_read_mark().entries(),
                    u,
                ));
                assert(old(self).spec_read_mark().outstanding(u) > 0);
            }
        }
    }
}

} // verus!
