//! Storage-facing boundary of the transaction coordinator.
//!
//! The on-disk keyspace — directory layout, marker files, journal and the
//! log-structured merge tree itself — is an external collaborator.  What the
//! coordinator needs from it is a single number: the recovered next sequence
//! number, which seeds the Oracle's logical clock at open.

use vstd::prelude::*;

use crate::oracle::Oracle;

verus! {

/// Configuration of one keyspace partition.  Partition tuning lives entirely
/// in the storage layer; nothing is configurable from the transaction side.
pub struct PartitionConfig {}

/// Opens the transaction coordinator over a storage engine whose recovered
/// next sequence number is `starting_seqno`.
///
/// The read snapshot convention is `next_txn_ts - 1` (the most recently
/// allocated commit position), so the clock must start at 1 or later; a
/// fresh store hands in 1.  Commit positions below the starting clock belong
/// to a previous run and are treated as already visible.
pub fn open(starting_seqno: u64) -> (o: Oracle)
    requires
        starting_seqno >= 1,
    ensures
        o.wf(),
        !o.is_shut_down(),
        o.spec_next_txn_ts() == starting_seqno,
        o.spec_last_cleanup_ts() == 0,
        o.committed_view().len() == 0,
        o.spec_read_mark().entries().len() == 0,
        o.spec_read_mark().spec_done_until() == 0,
        o.spec_txn_mark().spec_done_until() == starting_seqno - 1,
        forall|u: u64| #[trigger] o.spec_txn_mark().outstanding(u) == 0,
{
    Oracle::new("oracle-read-mark".to_string(), "oracle-txn-mark".to_string(), starting_seqno)
}

} // verus!
