//! Watermark over a stream of begin/done events.
//!
//! A [`WaterMark`] tracks, per timestamp, how many begin events have not yet
//! been retired by a matching done event, and derives `done_until`: the
//! largest timestamp below which every registered operation has completed.
//! The pending set is kept as a list of per-timestamp counters and the
//! frontier is advanced by repeatedly retiring the minimum pending timestamp
//! once its counter reaches zero, so events may arrive in any order without
//! the frontier ever skipping over an outstanding timestamp.
//!
//! Waiters registered through [`WaterMark::wait_for_mark`] are recorded until
//! the frontier reaches their target; closing the watermark resolves every
//! remaining waiter so that no wait can hang past shutdown.  Any operation
//! invoked after the watermark has been closed reports
//! [`WaterMarkError::Closed`] instead of touching the state.

use vstd::prelude::*;

verus! {

/// Error surface of watermark operations.
#[derive(Clone, Copy, Debug, PartialEq, Eq)]
pub enum WaterMarkError {
    /// The operation arrived after shutdown had been signalled.
    Closed,
}

/// One pending timestamp together with the number of begin events for it
/// that have not yet been retired by a done event.
#[derive(Clone, Copy)]
pub struct PendingEntry {
    pub ts: u64,
    pub outstanding: u64,
}

/// How much entry `e` contributes to the pending count of timestamp `t`.
pub open spec fn entry_contrib(e: PendingEntry, t: u64) -> nat {
    if e.ts == t {
        e.outstanding as nat
    } else {
        0
    }
}

/// Pending count of timestamp `t` over the entry list `s`.
pub open spec fn outstanding_in(s: Seq<PendingEntry>, t: u64) -> nat
    decreases s.len(),
{
    if s.len() == 0 {
        0
    } else {
        entry_contrib(s[0], t) + outstanding_in(s.drop_first(), t)
    }
}

/// Whether some entry for timestamp `t` exists in `s`.
pub open spec fn ts_present(s: Seq<PendingEntry>, t: u64) -> bool {
    exists|i: int| 0 <= i < s.len() && s[i].ts == t
}

/// Entry timestamps are pairwise distinct.
pub open spec fn unique_ts(s: Seq<PendingEntry>) -> bool {
    forall|i: int, j: int| 0 <= i < j < s.len() ==> s[i].ts != s[j].ts
}

/// Every fully retired entry is stuck behind some smaller timestamp that is
/// still outstanding: the frontier has advanced as far as it can go.
pub open spec fn frontier_settled(s: Seq<PendingEntry>) -> bool {
    forall|i: int|
        0 <= i < s.len() && (#[trigger] s[i]).outstanding == 0 ==> exists|j: int|
            0 <= j < s.len() && (#[trigger] s[j]).ts < s[i].ts && s[j].outstanding > 0
}

/// The waiter targets of `ws` that are still above the frontier `du`,
/// in registration order.
pub open spec fn waiters_above(ws: Seq<u64>, du: u64) -> Seq<u64>
    decreases ws.len(),
{
    if ws.len() == 0 {
        Seq::empty()
    } else {
        let rest = waiters_above(ws.drop_last(), du);
        if ws.last() > du {
            rest.push(ws.last())
        } else {
            rest
        }
    }
}

proof fn lemma_waiters_above_bounds(ws: Seq<u64>, du: u64)
    ensures
        forall|i: int|
            0 <= i < waiters_above(ws, du).len() ==> #[trigger] waiters_above(ws, du)[i] > du,
    decreases ws.len(),
{
    if ws.len() > 0 {
        lemma_waiters_above_bounds(ws.drop_last(), du);
        let rest = waiters_above(ws.drop_last(), du);
        assert forall|i: int|
            0 <= i < waiters_above(ws, du).len() implies #[trigger] waiters_above(ws, du)[i]
            > du by {
            if ws.last() > du {
                assert(waiters_above(ws, du) == rest.push(ws.last()));
                if i < rest.len() {
                    assert(waiters_above(ws, du)[i] == rest[i]);
                } else {
                    assert(waiters_above(ws, du)[i] == ws.last());
                }
            } else {
                assert(waiters_above(ws, du) == rest);
            }
        }
    }
}

proof fn lemma_waiters_above_id(ws: Seq<u64>, du: u64)
    requires
        forall|i: int| 0 <= i < ws.len() ==> #[trigger] ws[i] > du,
    ensures
        waiters_above(ws, du) == ws,
    decreases ws.len(),
{
    if ws.len() > 0 {
        lemma_waiters_above_id(ws.drop_last(), du);
        assert(waiters_above(ws, du) =~= ws);
    } else {
        assert(waiters_above(ws, du) =~= ws);
    }
}

proof fn lemma_outstanding_in_update(s: Seq<PendingEntry>, i: int, e: PendingEntry, u: u64)
    requires
        0 <= i < s.len(),
    ensures
        outstanding_in(s.update(i, e), u) == outstanding_in(s, u) - entry_contrib(s[i], u)
            + entry_contrib(e, u),
    decreases s.len(),
{
    if i == 0 {
        assert(s.update(0, e)[0] == e);
        assert(s.update(0, e).drop_first() =~= s.drop_first());
    } else {
        assert(s.update(i, e)[0] == s[0]);
        assert(s.update(i, e).drop_first() =~= s.drop_first().update(i - 1, e));
        lemma_outstanding_in_update(s.drop_first(), i - 1, e, u);
    }
}

proof fn lemma_outstanding_in_remove(s: Seq<PendingEntry>, i: int, u: u64)
    requires
        0 <= i < s.len(),
    ensures
        outstanding_in(s.remove(i), u) == outstanding_in(s, u) - entry_contrib(s[i], u),
    decreases s.len(),
{
    if i == 0 {
        assert(s.remove(0) =~= s.drop_first());
    } else {
        assert(s.remove(i)[0] == s[0]);
        assert(s.remove(i).drop_first() =~= s.drop_first().remove(i - 1));
        lemma_outstanding_in_remove(s.drop_first(), i - 1, u);
    }
}

proof fn lemma_outstanding_in_push(s: Seq<PendingEntry>, e: PendingEntry, u: u64)
    ensures
        outstanding_in(s.push(e), u) == outstanding_in(s, u) + entry_contrib(e, u),
    decreases s.len(),
{
    if s.len() == 0 {
        assert(s.push(e)[0] == e);
        assert(s.push(e).drop_first() =~= Seq::<PendingEntry>::empty());
        assert(outstanding_in(Seq::<PendingEntry>::empty(), u) == 0);
        assert(outstanding_in(s, u) == 0);
        assert(outstanding_in(s.push(e), u) == entry_contrib(e, u) + outstanding_in(
            s.push(e).drop_first(),
            u,
        ));
    } else {
        assert(s.push(e)[0] == s[0]);
        assert(s.push(e).drop_first() =~= s.drop_first().push(e));
        lemma_outstanding_in_push(s.drop_first(), e, u);
    }
}

pub proof fn lemma_outstanding_in_absent(s: Seq<PendingEntry>, t: u64)
    requires
        !ts_present(s, t),
    ensures
        outstanding_in(s, t) == 0,
    decreases s.len(),
{
    if s.len() > 0 {
        assert(s[0].ts != t);
        assert forall|i: int| 0 <= i < s.drop_first().len() implies s.drop_first()[i].ts != t by {
            assert(s[i + 1].ts != t);
        }
        lemma_outstanding_in_absent(s.drop_first(), t);
    }
}

proof fn lemma_outstanding_in_at(s: Seq<PendingEntry>, i: int)
    requires
        unique_ts(s),
        0 <= i < s.len(),
    ensures
        outstanding_in(s, s[i].ts) == s[i].outstanding,
    decreases s.len(),
{
    if i == 0 {
        assert forall|k: int| 0 <= k < s.drop_first().len() implies s.drop_first()[k].ts
            != s[0].ts by {
            assert(s[k + 1].ts != s[0].ts);
        }
        assert(!ts_present(s.drop_first(), s[0].ts));
        lemma_outstanding_in_absent(s.drop_first(), s[0].ts);
    } else {
        assert(s[0].ts != s[i].ts);
        assert(unique_ts(s.drop_first())) by {
            assert forall|a: int, b: int|
                0 <= a < b < s.drop_first().len() implies s.drop_first()[a].ts
                != s.drop_first()[b].ts by {
                assert(s[a + 1].ts != s[b + 1].ts);
            }
        }
        assert(s.drop_first()[i - 1] == s[i]);
        lemma_outstanding_in_at(s.drop_first(), i - 1);
    }
}

/// Watermark over a stream of begin/done events on a shared timestamp space.
pub struct WaterMark {
    /// Label used to tell the marks of one coordinator apart.
    name: String,
    /// Per-timestamp counters of begin events not yet retired.
    pending: Vec<PendingEntry>,
    /// Largest timestamp below which every registered operation is complete.
    done_until: u64,
    /// Targets of waiters whose mark has not been reached yet.
    waiters: Vec<u64>,
    /// Whether shutdown has been signalled for this watermark.
    closed: bool,
}

impl WaterMark {
    pub closed spec fn spec_name(self) -> Seq<char> {
        self.name@
    }

    pub closed spec fn entries(self) -> Seq<PendingEntry> {
        self.pending@
    }

    pub closed spec fn spec_done_until(self) -> u64 {
        self.done_until
    }

    pub closed spec fn spec_waiters(self) -> Seq<u64> {
        self.waiters@
    }

    pub closed spec fn spec_closed(self) -> bool {
        self.closed
    }

    /// Pending count of timestamp `t`: begin events not yet retired.
    pub open spec fn outstanding(self, t: u64) -> nat {
        outstanding_in(self.entries(), t)
    }

    /// Well-formedness: one counter per timestamp, the frontier cannot be
    /// advanced further, unresolved waiters sit strictly above the frontier,
    /// and a closed watermark has no unresolved waiter left.
    pub open spec fn wf(self) -> bool {
        &&& unique_ts(self.entries())
        &&& frontier_settled(self.entries())
        &&& forall|i: int|
            0 <= i < self.spec_waiters().len() ==> #[trigger] self.spec_waiters()[i]
                > self.spec_done_until()
        &&& self.spec_closed() ==> self.spec_waiters().len() == 0
    }

    /// Creates an open watermark with an empty pending set and frontier 0.
    pub fn new(name: String) -> (wm: WaterMark)
        ensures
            wm.wf(),
            wm.spec_name() == name@,
            wm.entries().len() == 0,
            wm.spec_done_until() == 0,
            wm.spec_waiters().len() == 0,
            !wm.spec_closed(),
    {
        WaterMark { name, pending: Vec::new(), done_until: 0, waiters: Vec::new(), closed: false }
    }

    /// The label this watermark was created with.
    pub fn name(&self) -> (r: &String)
        ensures
            r@ == self.spec_name(),
    {
        &self.name
    }

    /// Unguarded read of the frontier, usable even while the watermark is
    /// shutting down: polling a mark is always safe.
    pub fn current_mark(&self) -> (r: u64)
        ensures
            r == self.spec_done_until(),
    {
        self.done_until
    }

    /// The largest timestamp below which every registered operation is
    /// complete, or `WaterMarkError::Closed` after shutdown.
    pub fn done_until(&self) -> (r: Result<u64, WaterMarkError>)
        ensures
            self.spec_closed() ==> r == Err::<u64, WaterMarkError>(WaterMarkError::Closed),
            !self.spec_closed() ==> r == Ok::<u64, WaterMarkError>(self.spec_done_until()),
    {
        if self.closed {
            Err(WaterMarkError::Closed)
        } else {
            Ok(self.done_until)
        }
    }

    /// Registers one more pending operation at timestamp `t`.
    ///
    /// The frontier never moves on a begin event; only the pending count of
    /// `t` grows by one.
    #[verifier::rlimit(100)]
    pub fn begin(&mut self, t: u64) -> (r: Result<(), WaterMarkError>)
        requires
            old(self).wf(),
            old(self).outstanding(t) < u64::MAX,
        ensures
            final(self).wf(),
            final(self).spec_name() == old(self).spec_name(),
            final(self).spec_done_until() == old(self).spec_done_until(),
            final(self).spec_waiters() == old(self).spec_waiters(),
            final(self).spec_closed() == old(self).spec_closed(),
            old(self).spec_closed() ==> r == Err::<(), WaterMarkError>(WaterMarkError::Closed)
                && *final(self) == *old(self),
            !old(self).spec_closed() ==> {
                &&& r == Ok::<(), WaterMarkError>(())
                &&& forall|u: u64|
                    #[trigger] final(self).outstanding(u) == old(self).outstanding(u) + (
                    if u == t {
                        1nat
                    } else {
                        0nat
                    })
                &&& forall|u: u64|
                    #[trigger] ts_present(final(self).entries(), u) <==> (ts_present(
                        old(self).entries(),
                        u,
                    ) || u == t)
            },
    {
        if self.closed {
            return Err(WaterMarkError::Closed);
        }
        let ghost s0 = self.pending@;
        let n: usize = self.pending.len();
        let mut i: usize = 0;
        let mut found: bool = false;
        let mut idx: usize = 0;
        while i < n
            invariant
                n == self.pending.len(),
                i <= n,
                *self == *old(self),
                !found ==> forall|k: int| 0 <= k < i ==> self.pending@[k].ts != t,
                found ==> idx < n && self.pending@[idx as int].ts == t,
                found ==> i == n,
            decreases n - i,
        {
            if self.pending[i].ts == t {
                found = true;
                idx = i;
                i = n;
            } else {
                i = i + 1;
            }
        }
        if found {
            let c: u64 = self.pending[idx].outstanding;
            proof {
                lemma_outstanding_in_at(s0, idx as int);
            }
            let e = PendingEntry { ts: t, outstanding: c + 1 };
            self.pending[idx] = e;
            proof {
                assert forall|u: u64|
                    #[trigger] outstanding_in(self.pending@, u) == outstanding_in(s0, u) + (
                    if u == t {
                        1nat
                    } else {
                        0nat
                    }) by {
                    lemma_outstanding_in_update(s0, idx as int, e, u);
                }
                assert forall|u: u64| #[trigger]
                    ts_present(self.pending@, u) <==> (ts_present(s0, u) || u == t) by {
                    if ts_present(s0, u) {
                        let k = choose|k: int| 0 <= k < s0.len() && s0[k].ts == u;
                        assert(self.pending@[k].ts == u);
                    }
                    if ts_present(self.pending@, u) {
                        let k = choose|k: int|
                            0 <= k < self.pending@.len() && self.pending@[k].ts == u;
                        assert(s0[k].ts == u);
                    }
                }
                assert(unique_ts(self.pending@)) by {
                    assert forall|a: int, b: int|
                        0 <= a < b < self.pending@.len() implies self.pending@[a].ts
                        != self.pending@[b].ts by {
                        assert(s0[a].ts != s0[b].ts);
                    }
                }
                assert(frontier_settled(self.pending@)) by {
                    assert forall|a: int|
                        0 <= a < self.pending@.len() && (#[trigger] self.pending@[a]).outstanding
                            == 0 implies exists|j: int|
                        0 <= j < self.pending@.len() && (#[trigger] self.pending@[j]).ts
                            < self.pending@[a].ts && self.pending@[j].outstanding > 0 by {
                        assert(a != idx);
                        assert(s0[a].outstanding == 0);
                        let j = choose|j: int|
                            0 <= j < s0.len() && (#[trigger] s0[j]).ts < s0[a].ts
                                && s0[j].outstanding > 0;
                        assert(
                            self.pending@[j].ts < self.pending@[a].ts
                                && self.pending@[j].outstanding > 0
                        );
                    }
                }
                assert forall|i: int|
                    0 <= i < self.spec_waiters().len() implies #[trigger] self.spec_waiters()[i]
                    > self.spec_done_until() by {
                    assert(self.spec_waiters() == old(self).spec_waiters());
                    assert(old(self).spec_waiters()[i] > old(self).spec_done_until());
                }
            }
            Ok(())
        } else {
            let e = PendingEntry { ts: t, outstanding: 1 };
            self.pending.push(e);
            proof {
                assert(!ts_present(s0, t));
                lemma_outstanding_in_absent(s0, t);
                assert forall|u: u64|
                    #[trigger] outstanding_in(self.pending@, u) == outstanding_in(s0, u) + (
                    if u == t {
                        1nat
                    } else {
                        0nat
                    }) by {
                    lemma_outstanding_in_push(s0, e, u);
                }
                assert forall|u: u64| #[trigger]
                    ts_present(self.pending@, u) <==> (ts_present(s0, u) || u == t) by {
                    if ts_present(s0, u) {
                        let k = choose|k: int| 0 <= k < s0.len() && s0[k].ts == u;
                        assert(self.pending@[k].ts == u);
                    }
                    if u == t {
                        assert(self.pending@[s0.len() as int].ts == u);
                    }
                    if ts_present(self.pending@, u) {
                        let k = choose|k: int|
                            0 <= k < self.pending@.len() && self.pending@[k].ts == u;
                        if k < s0.len() {
                            assert(s0[k].ts == u);
                        }
                    }
                }
                assert(unique_ts(self.pending@)) by {
                    assert forall|a: int, b: int|
                        0 <= a < b < self.pending@.len() implies self.pending@[a].ts
                        != self.pending@[b].ts by {
                        if b < s0.len() {
                            assert(s0[a].ts != s0[b].ts);
                        } else {
                            assert(self.pending@[b].ts == t);
                            assert(s0[a].ts != t);
                        }
                    }
                }
                assert(frontier_settled(self.pending@)) by {
                    assert forall|a: int|
                        0 <= a < self.pending@.len() && (#[trigger] self.pending@[a]).outstanding
                            == 0 implies exists|j: int|
                        0 <= j < self.pending@.len() && (#[trigger] self.pending@[j]).ts
                            < self.pending@[a].ts && self.pending@[j].outstanding > 0 by {
                        assert(a < s0.len());
                        assert(s0[a].outstanding == 0);
                        let j = choose|j: int|
                            0 <= j < s0.len() && (#[trigger] s0[j]).ts < s0[a].ts
                                && s0[j].outstanding > 0;
                        assert(
                            self.pending@[j].ts < self.pending@[a].ts
                                && self.pending@[j].outstanding > 0
                        );
                    }
                }
                assert forall|i: int|
                    0 <= i < self.spec_waiters().len() implies #[trigger] self.spec_waiters()[i]
                    > self.spec_done_until() by {
                    assert(self.spec_waiters() == old(self).spec_waiters());
                    assert(old(self).spec_waiters()[i] > old(self).spec_done_until());
                }
            }
            Ok(())
        }
    }

    /// Retires pending timestamps with a zero counter, in increasing order,
    /// moving the frontier to the largest timestamp retired this way.
    #[verifier::rlimit(100)]
    fn advance(&mut self)
        requires
            unique_ts(old(self).entries()),
        ensures
            final(self).spec_name() == old(self).spec_name(),
            final(self).spec_waiters() == old(self).spec_waiters(),
            final(self).spec_closed() == old(self).spec_closed(),
            unique_ts(final(self).entries()),
            frontier_settled(final(self).entries()),
            forall|u: u64|
                #[trigger] outstanding_in(final(self).entries(), u) == outstanding_in(
                    old(self).entries(),
                    u,
                ),
            forall|u: u64|
                #[trigger] ts_present(final(self).entries(), u) ==> ts_present(
                    old(self).entries(),
                    u,
                ),
            forall|u: u64|
                #[trigger] ts_present(old(self).entries(), u) ==> ts_present(
                    final(self).entries(),
                    u,
                ) || final(self).spec_done_until() >= u,
            final(self).spec_done_until() >= old(self).spec_done_until(),
            forall|x: u64|
                old(self).spec_done_until() <= x && #[trigger] outstanding_in(
                    old(self).entries(),
                    x,
                ) > 0 ==> final(self).spec_done_until() <= x,
            forall|x: u64|
                old(self).spec_done_until() < x && #[trigger] outstanding_in(
                    old(self).entries(),
                    x,
                ) > 0 ==> final(self).spec_done_until() < x,
            final(self).spec_done_until() == old(self).spec_done_until() || ts_present(
                old(self).entries(),
                final(self).spec_done_until(),
            ),
            frontier_settled(old(self).entries()) ==> *final(self) == *old(self),
    {
        loop
            invariant
                unique_ts(self.pending@),
                self.name == old(self).name,
                self.waiters == old(self).waiters,
                self.closed == old(self).closed,
                self.done_until >= old(self).done_until,
                forall|u: u64|
                    #[trigger] outstanding_in(self.pending@, u) == outstanding_in(
                        old(self).pending@,
                        u,
                    ),
                forall|u: u64|
                    #[trigger] ts_present(self.pending@, u) ==> ts_present(old(self).pending@, u),
                forall|u: u64|
                    #[trigger] ts_present(old(self).pending@, u) ==> ts_present(self.pending@, u)
                        || self.done_until >= u,
                forall|x: u64|
                    old(self).done_until <= x && #[trigger] outstanding_in(old(self).pending@, x)
                        > 0 ==> self.done_until <= x,
                forall|x: u64|
                    old(self).done_until < x && #[trigger] outstanding_in(old(self).pending@, x)
                        > 0 ==> self.done_until < x,
                self.done_until == old(self).done_until || ts_present(
                    old(self).pending@,
                    self.done_until,
                ),
                frontier_settled(old(self).pending@) ==> (self.pending == old(self).pending
                    && self.done_until == old(self).done_until),
            ensures
                frontier_settled(self.pending@),
            decreases self.pending.len(),
        {
            if self.pending.len() == 0 {
                break;
            }
            let n: usize = self.pending.len();
            let mut min_i: usize = 0;
            let mut k: usize = 1;
            while k < n
                invariant
                    n == self.pending.len(),
                    min_i < n,
                    k <= n,
                    forall|j: int|
                        0 <= j < k ==> self.pending@[min_i as int].ts <= (
                        #[trigger] self.pending@[j]).ts,
                decreases n - k,
            {
                if self.pending[k].ts < self.pending[min_i].ts {
                    min_i = k;
                }
                k = k + 1;
            }
            if self.pending[min_i].outstanding > 0 {
                proof {
                    assert forall|i: int|
                        0 <= i < self.pending@.len() && (#[trigger] self.pending@[i]).outstanding
                            == 0 implies exists|j: int|
                        0 <= j < self.pending@.len() && (#[trigger] self.pending@[j]).ts
                            < self.pending@[i].ts && self.pending@[j].outstanding > 0 by {
                        assert(i != min_i);
                        assert(self.pending@[min_i as int].ts <= self.pending@[i].ts);
                        assert(self.pending@[min_i as int].ts != self.pending@[i].ts);
                        assert(
                            self.pending@[min_i as int].ts < self.pending@[i].ts
                                && self.pending@[min_i as int].outstanding > 0
                        );
                    }
                }
                break;
            }
            proof {
                if frontier_settled(old(self).pending@) {
                    assert(self.pending@ == old(self).pending@);
                    assert(self.pending@[min_i as int].outstanding == 0);
                    let j = choose|j: int|
                        0 <= j < self.pending@.len() && (#[trigger] self.pending@[j]).ts
                            < self.pending@[min_i as int].ts && self.pending@[j].outstanding > 0;
                    assert(self.pending@[min_i as int].ts <= self.pending@[j].ts);
                    assert(false);
                }
            }
            let ghost s_pre = self.pending@;
            let e = self.pending.remove(min_i);
            proof {
                assert forall|u: u64|
                    #[trigger] outstanding_in(self.pending@, u) == outstanding_in(s_pre, u) by {
                    lemma_outstanding_in_remove(s_pre, min_i as int, u);
                    assert(entry_contrib(s_pre[min_i as int], u) == 0);
                }
                assert forall|u: u64| #[trigger]
                    ts_present(self.pending@, u) implies ts_present(s_pre, u) by {
                    let k2 = choose|k2: int|
                        0 <= k2 < self.pending@.len() && self.pending@[k2].ts == u;
                    if k2 < min_i as int {
                        assert(s_pre[k2].ts == u);
                    } else {
                        assert(s_pre[k2 + 1].ts == u);
                    }
                }
                assert forall|u: u64| #[trigger]
                    ts_present(s_pre, u) && u != e.ts implies ts_present(self.pending@, u) by {
                    let k2 = choose|k2: int| 0 <= k2 < s_pre.len() && s_pre[k2].ts == u;
                    assert(k2 != min_i as int);
                    if k2 < min_i as int {
                        assert(self.pending@[k2].ts == u);
                    } else {
                        assert(self.pending@[k2 - 1].ts == u);
                    }
                }
                assert(unique_ts(self.pending@)) by {
                    assert forall|a: int, b: int|
                        0 <= a < b < self.pending@.len() implies self.pending@[a].ts
                        != self.pending@[b].ts by {
                        let a2 = if a < min_i as int {
                            a
                        } else {
                            a + 1
                        };
                        let b2 = if b < min_i as int {
                            b
                        } else {
                            b + 1
                        };
                        assert(s_pre[a2].ts != s_pre[b2].ts);
                    }
                }
                // the minimum pending timestamp bounds the frontier step;
                // the retired minimum is never itself a timestamp with an
                // outstanding begin, so the bound is strict
                assert forall|x: u64|
                    old(self).done_until <= x && #[trigger] outstanding_in(old(self).pending@, x)
                        > 0 implies e.ts <= x && e.ts != x by {
                    assert(outstanding_in(s_pre, x) > 0);
                    if !ts_present(s_pre, x) {
                        lemma_outstanding_in_absent(s_pre, x);
                    }
                    let k2 = choose|k2: int| 0 <= k2 < s_pre.len() && s_pre[k2].ts == x;
                    assert(s_pre[min_i as int].ts <= s_pre[k2].ts);
                    if e.ts == x {
                        lemma_outstanding_in_at(s_pre, min_i as int);
                        assert(outstanding_in(s_pre, x) == 0);
                    }
                }
            }
            if e.ts > self.done_until {
                self.done_until = e.ts;
                proof {
                    assert(ts_present(s_pre, e.ts)) by {
                        assert(s_pre[min_i as int].ts == e.ts);
                    }
                }
            }
        }
    }

    /// Rebuilds the waiter list, dropping every target the frontier has
    /// reached: those waiters are resolved.
    fn drop_reached_waiters(&mut self)
        ensures
            final(self).spec_name() == old(self).spec_name(),
            final(self).entries() == old(self).entries(),
            final(self).spec_done_until() == old(self).spec_done_until(),
            final(self).spec_closed() == old(self).spec_closed(),
            final(self).spec_waiters() == waiters_above(
                old(self).spec_waiters(),
                old(self).spec_done_until(),
            ),
    {
        let ghost w0 = self.waiters@;
        let mut kept: Vec<u64> = Vec::new();
        let n: usize = self.waiters.len();
        let mut i: usize = 0;
        while i < n
            invariant
                n == self.waiters.len(),
                i <= n,
                *self == *old(self),
                w0 == self.waiters@,
                kept@ == waiters_above(w0.subrange(0, i as int), self.done_until),
            decreases n - i,
        {
            let w = self.waiters[i];
            proof {
                assert(w0.subrange(0, i as int + 1).drop_last() =~= w0.subrange(0, i as int));
                assert(w0.subrange(0, i as int + 1).last() == w0[i as int]);
            }
            if w > self.done_until {
                kept.push(w);
            }
            i = i + 1;
        }
        proof {
            assert(w0.subrange(0, n as int) =~= w0);
        }
        self.waiters = kept;
    }

    /// Retires one pending operation at timestamp `t` and advances the
    /// frontier as far as the remaining pending set allows, resolving every
    /// waiter whose target has been reached.
    ///
    /// A done event for a timestamp with no outstanding begin is a no-op, so
    /// a duplicate done cannot corrupt the frontier.  The frontier never
    /// passes a timestamp that still has an outstanding begin.
    #[verifier::rlimit(100)]
    pub fn done(&mut self, t: u64) -> (r: Result<(), WaterMarkError>)
        requires
            old(self).wf(),
        ensures
            final(self).wf(),
            final(self).spec_name() == old(self).spec_name(),
            final(self).spec_closed() == old(self).spec_closed(),
            old(self).spec_closed() ==> r == Err::<(), WaterMarkError>(WaterMarkError::Closed)
                && *final(self) == *old(self),
            !old(self).spec_closed() ==> {
                &&& r == Ok::<(), WaterMarkError>(())
                &&& forall|u: u64|
                    #[trigger] final(self).outstanding(u) == (if u == t && old(self).outstanding(t)
                        > 0 {
                        (old(self).outstanding(u) - 1) as nat
                    } else {
                        old(self).outstanding(u)
                    })
                &&& old(self).outstanding(t) == 0 ==> *final(self) == *old(self)
                &&& final(self).spec_done_until() >= old(self).spec_done_until()
                &&& forall|u: u64|
                    #[trigger] ts_present(final(self).entries(), u) ==> ts_present(
                        old(self).entries(),
                        u,
                    )
                &&& forall|u: u64|
                    #[trigger] ts_present(old(self).entries(), u) ==> ts_present(
                        final(self).entries(),
                        u,
                    ) || final(self).spec_done_until() >= u
                &&& forall|x: u64|
                    old(self).spec_done_until() <= x && #[trigger] final(self).outstanding(x) > 0
                        ==> final(self).spec_done_until() <= x
                &&& forall|x: u64|
                    old(self).spec_done_until() < x && #[trigger] final(self).outstanding(x) > 0
                        ==> final(self).spec_done_until() < x
                &&& (final(self).spec_done_until() == old(self).spec_done_until() || ts_present(
                    old(self).entries(),
                    final(self).spec_done_until(),
                ))
                &&& final(self).spec_waiters() == waiters_above(
                    old(self).spec_waiters(),
                    final(self).spec_done_until(),
                )
                &&& (ts_present(old(self).entries(), t) && (forall|x: u64|
                    x <= t && ts_present(old(self).entries(), x)
                        ==> #[trigger] final(self).outstanding(x) == 0))
                    ==> final(self).spec_done_until() >= t
            },
    {
        if self.closed {
            return Err(WaterMarkError::Closed);
        }
        let ghost s0 = self.pending@;
        let du0 = self.done_until;
        let n: usize = self.pending.len();
        let mut i: usize = 0;
        let mut found: bool = false;
        let mut idx: usize = 0;
        while i < n
            invariant
                n == self.pending.len(),
                i <= n,
                *self == *old(self),
                !found ==> forall|k: int| 0 <= k < i ==> self.pending@[k].ts != t,
                found ==> idx < n && self.pending@[idx as int].ts == t,
                found ==> i == n,
            decreases n - i,
        {
            if self.pending[i].ts == t {
                found = true;
                idx = i;
                i = n;
            } else {
                i = i + 1;
            }
        }
        proof {
            if !found {
                assert(!ts_present(s0, t));
                lemma_outstanding_in_absent(s0, t);
            } else {
                lemma_outstanding_in_at(s0, idx as int);
            }
        }
        if found && self.pending[idx].outstanding > 0 {
            let c: u64 = self.pending[idx].outstanding;
            let e = PendingEntry { ts: t, outstanding: c - 1 };
            self.pending[idx] = e;
            proof {
                assert forall|u: u64|
                    #[trigger] outstanding_in(self.pending@, u) == (if u == t {
                        (outstanding_in(s0, u) - 1) as nat
                    } else {
                        outstanding_in(s0, u)
                    }) by {
                    lemma_outstanding_in_update(s0, idx as int, e, u);
                }
                assert forall|u: u64| #[trigger]
                    ts_present(self.pending@, u) <==> ts_present(s0, u) by {
                    if ts_present(s0, u) {
                        let k = choose|k: int| 0 <= k < s0.len() && s0[k].ts == u;
                        assert(self.pending@[k].ts == u);
                    }
                    if ts_present(self.pending@, u) {
                        let k = choose|k: int|
                            0 <= k < self.pending@.len() && self.pending@[k].ts == u;
                        assert(s0[k].ts == u);
                    }
                }
                assert(unique_ts(self.pending@)) by {
                    assert forall|a: int, b: int|
                        0 <= a < b < self.pending@.len() implies self.pending@[a].ts
                        != self.pending@[b].ts by {
                        assert(s0[a].ts != s0[b].ts);
                    }
                }
            }
        }
        let ghost s_dec = self.pending@;
        self.advance();
        proof {
            if found && outstanding_in(s0, t) > 0 {
                // counts after the decrement, seen through the advance
                assert forall|u: u64| #[trigger]
                    outstanding_in(self.pending@, u) == (if u == t && outstanding_in(s0, t) > 0 {
                        (outstanding_in(s0, u) - 1) as nat
                    } else {
                        outstanding_in(s0, u)
                    }) by {
                    assert(outstanding_in(self.pending@, u) == outstanding_in(s_dec, u));
                }
            } else {
                assert(s_dec == s0);
                assert(frontier_settled(s_dec));
            }
        }
        let ghost mid_entries = self.pending@;
        let ghost mid_du = self.done_until;
        if self.done_until > du0 {
            self.drop_reached_waiters();
            proof {
                lemma_waiters_above_bounds(old(self).waiters@, self.done_until);
            }
        } else {
            proof {
                assert forall|i: int|
                    0 <= i < self.waiters@.len() implies #[trigger] self.waiters@[i]
                    > self.done_until by {
                    assert(old(self).spec_waiters()[i] > old(self).spec_done_until());
                }
                lemma_waiters_above_id(self.waiters@, self.done_until);
            }
        }
        proof {
            assert(self.pending@ == mid_entries);
            assert(self.done_until == mid_du);
            assert forall|u: u64| #[trigger]
                ts_present(s0, u) implies ts_present(self.pending@, u) || self.done_until >= u by {
                assert(ts_present(s_dec, u));
            }
            // once every recorded timestamp at or below t is fully retired,
            // the frontier has passed t
            if ts_present(s0, t) && (forall|x: u64|
                x <= t && ts_present(s0, x) ==> #[trigger] self.outstanding(x) == 0) {
                if ts_present(self.pending@, t) {
                    let k = choose|k: int|
                        0 <= k < self.pending@.len() && self.pending@[k].ts == t;
                    lemma_outstanding_in_at(self.pending@, k);
                    assert(self.outstanding(t) == 0);
                    assert(self.pending@[k].outstanding == 0);
                    let j = choose|j: int|
                        0 <= j < self.pending@.len() && (#[trigger] self.pending@[j]).ts
                            < self.pending@[k].ts && self.pending@[j].outstanding > 0;
                    lemma_outstanding_in_at(self.pending@, j);
                    assert(self.outstanding(self.pending@[j].ts) > 0);
                    assert(ts_present(self.pending@, self.pending@[j].ts));
                    assert(ts_present(s_dec, self.pending@[j].ts));
                    assert(ts_present(s0, self.pending@[j].ts));
                    assert(self.pending@[j].ts <= t);
                    assert(false);
                }
                assert(ts_present(s_dec, t));
                assert(self.done_until >= t);
            }
        }
        Ok(())
    }

    /// Registers the closed range `(prev, up_to]` as done in one call: every
    /// timestamp in the range retires one outstanding begin if it has one and
    /// otherwise counts as fully done, letting the frontier jump over
    /// timestamps that were never begun when the counter advances by more
    /// than one.
    #[verifier::rlimit(100)]
    pub fn done_range(&mut self, prev: u64, up_to: u64) -> (r: Result<(), WaterMarkError>)
        requires
            old(self).wf(),
            prev <= up_to,
        ensures
            final(self).wf(),
            final(self).spec_name() == old(self).spec_name(),
            final(self).spec_closed() == old(self).spec_closed(),
            old(self).spec_closed() ==> r == Err::<(), WaterMarkError>(WaterMarkError::Closed)
                && *final(self) == *old(self),
            !old(self).spec_closed() ==> {
                &&& r == Ok::<(), WaterMarkError>(())
                &&& forall|x: u64|
                    #[trigger] final(self).outstanding(x) == (if prev < x <= up_to
                        && old(self).outstanding(x) > 0 {
                        (old(self).outstanding(x) - 1) as nat
                    } else {
                        old(self).outstanding(x)
                    })
                &&& final(self).spec_done_until() >= old(self).spec_done_until()
                &&& forall|x: u64|
                    old(self).spec_done_until() <= x && #[trigger] final(self).outstanding(x) > 0
                        ==> final(self).spec_done_until() <= x
                &&& forall|x: u64|
                    old(self).spec_done_until() < x && #[trigger] final(self).outstanding(x) > 0
                        ==> final(self).spec_done_until() < x
                &&& forall|x: u64|
                    #[trigger] ts_present(final(self).entries(), x) ==> ts_present(
                        old(self).entries(),
                        x,
                    ) || prev < x <= up_to
                &&& final(self).spec_waiters() == waiters_above(
                    old(self).spec_waiters(),
                    final(self).spec_done_until(),
                )
                &&& (final(self).spec_done_until() == old(self).spec_done_until() || ts_present(
                    old(self).entries(),
                    final(self).spec_done_until(),
                ) || (prev < final(self).spec_done_until() <= up_to))
                &&& (prev < up_to && old(self).spec_done_until() >= prev && (forall|x: u64|
                    x <= up_to ==> #[trigger] final(self).outstanding(x) == 0))
                    ==> final(self).spec_done_until() >= up_to
            },
    {
        if self.closed {
            return Err(WaterMarkError::Closed);
        }
        let ghost s0 = self.pending@;
        let du0 = self.done_until;
        let mut u: u64 = prev;
        while u < up_to
            invariant
                prev <= u <= up_to,
                self.name == old(self).name,
                self.waiters == old(self).waiters,
                self.closed == old(self).closed,
                self.done_until == du0,
                du0 == old(self).done_until,
                s0 == old(self).pending@,
                unique_ts(self.pending@),
                forall|x: u64|
                    #[trigger] outstanding_in(self.pending@, x) == (if prev < x <= u
                        && outstanding_in(s0, x) > 0 {
                        (outstanding_in(s0, x) - 1) as nat
                    } else {
                        outstanding_in(s0, x)
                    }),
                forall|x: u64|
                    #[trigger] ts_present(self.pending@, x) <==> (ts_present(s0, x) || prev < x
                        <= u),
            decreases up_to - u,
        {
            u = u + 1;
            let ghost s_pre = self.pending@;
            let n: usize = self.pending.len();
            let mut i: usize = 0;
            let mut found: bool = false;
            let mut idx: usize = 0;
            while i < n
                invariant
                    n == self.pending.len(),
                    i <= n,
                    s_pre == self.pending@,
                    !found ==> forall|k: int| 0 <= k < i ==> self.pending@[k].ts != u,
                    found ==> idx < n && self.pending@[idx as int].ts == u,
                    found ==> i == n,
                decreases n - i,
            {
                if self.pending[i].ts == u {
                    found = true;
                    idx = i;
                    i = n;
                } else {
                    i = i + 1;
                }
            }
            if found {
                proof {
                    lemma_outstanding_in_at(s_pre, idx as int);
                }
                let c: u64 = self.pending[idx].outstanding;
                if c > 0 {
                    let e = PendingEntry { ts: u, outstanding: c - 1 };
                    self.pending[idx] = e;
                    proof {
                        assert forall|x: u64|
                            #[trigger] outstanding_in(self.pending@, x) == (if x == u {
                                (outstanding_in(s_pre, x) - 1) as nat
                            } else {
                                outstanding_in(s_pre, x)
                            }) by {
                            lemma_outstanding_in_update(s_pre, idx as int, e, x);
                        }
                        assert forall|x: u64| #[trigger]
                            ts_present(self.pending@, x) <==> ts_present(s_pre, x) by {
                            if ts_present(s_pre, x) {
                                let k = choose|k: int| 0 <= k < s_pre.len() && s_pre[k].ts == x;
                                assert(self.pending@[k].ts == x);
                            }
                            if ts_present(self.pending@, x) {
                                let k = choose|k: int|
                                    0 <= k < self.pending@.len() && self.pending@[k].ts == x;
                                assert(s_pre[k].ts == x);
                            }
                        }
                        assert(unique_ts(self.pending@)) by {
                            assert forall|a: int, b: int|
                                0 <= a < b < self.pending@.len() implies self.pending@[a].ts
                                != self.pending@[b].ts by {
                                assert(s_pre[a].ts != s_pre[b].ts);
                            }
                        }
                    }
                }
            } else {
                proof {
                    assert(!ts_present(s_pre, u));
                    lemma_outstanding_in_absent(s_pre, u);
                }
                let e = PendingEntry { ts: u, outstanding: 0 };
                self.pending.push(e);
                proof {
                    assert forall|x: u64|
                        #[trigger] outstanding_in(self.pending@, x) == outstanding_in(
                            s_pre,
                            x,
                        ) by {
                        lemma_outstanding_in_push(s_pre, e, x);
                    }
                    assert forall|x: u64| #[trigger]
                        ts_present(self.pending@, x) <==> (ts_present(s_pre, x) || x == u) by {
                        if ts_present(s_pre, x) {
                            let k = choose|k: int| 0 <= k < s_pre.len() && s_pre[k].ts == x;
                            assert(self.pending@[k].ts == x);
                        }
                        if x == u {
                            assert(self.pending@[s_pre.len() as int].ts == x);
                        }
                        if ts_present(self.pending@, x) {
                            let k = choose|k: int|
                                0 <= k < self.pending@.len() && self.pending@[k].ts == x;
                            if k < s_pre.len() {
                                assert(s_pre[k].ts == x);
                            }
                        }
                    }
                    assert(unique_ts(self.pending@)) by {
                        assert forall|a: int, b: int|
                            0 <= a < b < self.pending@.len() implies self.pending@[a].ts
                            != self.pending@[b].ts by {
                            if b < s_pre.len() {
                                assert(s_pre[a].ts != s_pre[b].ts);
                            } else {
                                assert(self.pending@[b].ts == u);
                                assert(s_pre[a].ts != u);
                            }
                        }
                    }
                }
            }
        }
        let ghost s_marked = self.pending@;
        self.advance();
        proof {
            assert forall|x: u64| #[trigger]
                outstanding_in(self.pending@, x) == (if prev < x <= up_to && outstanding_in(s0, x)
                    > 0 {
                    (outstanding_in(s0, x) - 1) as nat
                } else {
                    outstanding_in(s0, x)
                }) by {
                assert(outstanding_in(self.pending@, x) == outstanding_in(s_marked, x));
            }
            // a timestamp of the range is either still recorded or the
            // frontier has reached it
            assert forall|x: u64| prev < x <= up_to implies ts_present(self.pending@, x)
                || self.done_until >= x by {
                assert(ts_present(s_marked, x));
            }
            assert(self.done_until == du0 || ts_present(s_marked, self.done_until));
        }
        let ghost mid_entries = self.pending@;
        let ghost mid_du = self.done_until;
        let du_now = self.done_until;
        if du_now > du0 {
            self.drop_reached_waiters();
            proof {
                lemma_waiters_above_bounds(old(self).waiters@, self.done_until);
            }
        } else {
            proof {
                assert forall|i: int|
                    0 <= i < self.waiters@.len() implies #[trigger] self.waiters@[i]
                    > self.done_until by {
                    assert(old(self).spec_waiters()[i] > old(self).spec_done_until());
                }
                lemma_waiters_above_id(self.waiters@, self.done_until);
            }
        }
        proof {
            assert(self.pending@ == mid_entries);
            assert(self.done_until == mid_du);
            if prev < up_to && du0 >= prev && (forall|x: u64|
                x <= up_to ==> #[trigger] self.outstanding(x) == 0) {
                if ts_present(self.pending@, up_to) {
                    let k = choose|k: int|
                        0 <= k < self.pending@.len() && self.pending@[k].ts == up_to;
                    lemma_outstanding_in_at(self.pending@, k);
                    assert(self.outstanding(up_to) == self.pending@[k].outstanding);
                    assert(self.pending@[k].outstanding == 0);
                    let j = choose|j: int|
                        0 <= j < self.pending@.len() && (#[trigger] self.pending@[j]).ts
                            < self.pending@[k].ts && self.pending@[j].outstanding > 0;
                    lemma_outstanding_in_at(self.pending@, j);
                    assert(self.outstanding(self.pending@[j].ts) > 0);
                    assert(self.pending@[j].ts <= up_to);
                    assert(false);
                }
                assert(ts_present(mid_entries, up_to) || mid_du >= up_to);
                assert(self.done_until >= up_to);
            }
        }
        Ok(())
    }

    /// Waits for the frontier to reach `t`.  Returns `Ok(true)` when the mark
    /// is already reached, and `Ok(false)` after registering a waiter that
    /// will be resolved once the frontier reaches `t` or the watermark is
    /// closed.  After shutdown it reports `WaterMarkError::Closed` at once,
    /// so a wait can never hang.
    pub fn wait_for_mark(&mut self, t: u64) -> (r: Result<bool, WaterMarkError>)
        requires
            old(self).wf(),
        ensures
            final(self).wf(),
            final(self).spec_name() == old(self).spec_name(),
            final(self).entries() == old(self).entries(),
            final(self).spec_done_until() == old(self).spec_done_until(),
            final(self).spec_closed() == old(self).spec_closed(),
            old(self).spec_closed() ==> r == Err::<bool, WaterMarkError>(WaterMarkError::Closed)
                && *final(self) == *old(self),
            !old(self).spec_closed() && old(self).spec_done_until() >= t ==> r == Ok::<
                bool,
                WaterMarkError,
            >(true) && *final(self) == *old(self),
            !old(self).spec_closed() && old(self).spec_done_until() < t ==> r == Ok::<
                bool,
                WaterMarkError,
            >(false) && final(self).spec_waiters() == old(self).spec_waiters().push(t),
    {
        if self.closed {
            return Err(WaterMarkError::Closed);
        }
        if self.done_until >= t {
            Ok(true)
        } else {
            self.waiters.push(t);
            proof {
                assert forall|i: int|
                    0 <= i < self.spec_waiters().len() implies #[trigger] self.spec_waiters()[i]
                    > self.spec_done_until() by {
                    if i < old(self).spec_waiters().len() {
                        assert(self.spec_waiters()[i] == old(self).spec_waiters()[i]);
                        assert(old(self).spec_waiters()[i] > old(self).spec_done_until());
                    } else {
                        assert(self.spec_waiters()[i] == t);
                    }
                }
            }
            Ok(false)
        }
    }

    /// Closes the watermark: every waiter still registered is resolved now
    /// (their targets are returned), and every later operation reports
    /// `WaterMarkError::Closed`.  Closing twice is a no-op.
    pub fn close(&mut self) -> (resolved: Vec<u64>)
        requires
            old(self).wf(),
        ensures
            final(self).wf(),
            final(self).spec_name() == old(self).spec_name(),
            final(self).entries() == old(self).entries(),
            final(self).spec_done_until() == old(self).spec_done_until(),
            final(self).spec_closed(),
            final(self).spec_waiters().len() == 0,
            resolved@ == old(self).spec_waiters(),
            old(self).spec_closed() ==> *final(self) == *old(self),
    {
        let mut resolved: Vec<u64> = Vec::new();
        if self.closed {
            proof {
                assert(resolved@ =~= old(self).waiters@);
            }
            return resolved;
        }
        let n: usize = self.waiters.len();
        let mut i: usize = 0;
        while i < n
            invariant
                n == self.waiters.len(),
                i <= n,
                *self == *old(self),
                resolved@ == self.waiters@.subrange(0, i as int),
            decreases n - i,
        {
            resolved.push(self.waiters[i]);
            proof {
                assert(resolved@ =~= self.waiters@.subrange(0, i as int + 1));
            }
            i = i + 1;
        }
        proof {
            assert(self.waiters@.subrange(0, n as int) =~= self.waiters@);
        }
        self.waiters = Vec::new();
        self.closed = true;
        resolved
    }
}

} // verus!
