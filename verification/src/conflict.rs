//! Conflict fingerprints for snapshot-isolated transactions.
//!
//! A [`ConflictChecker`] is the accumulated access record of one transaction:
//! the keys it read and the keys it wrote.  Two transactions conflict when
//! one read a key the other wrote, which is the only comparison the Oracle
//! ever performs.  A disabled fingerprint records nothing, reports no
//! conflict and is never retained, so conflict detection can be switched off
//! without growing the retained-transaction list.

use vstd::prelude::*;

verus! {

/// Whether a recorded access was a read or a write.
#[derive(Clone, Copy, Debug, PartialEq, Eq)]
pub enum AccessKind {
    Read,
    Write,
}

/// Accumulated access fingerprint of one transaction.
pub struct ConflictChecker {
    /// Whether accesses are recorded at all.
    tracking: bool,
    /// The keys this transaction read.
    reads: Vec<Vec<u8>>,
    /// The keys this transaction wrote.
    writes: Vec<Vec<u8>>,
}

/// Some read key equals some written key.
pub open spec fn key_sets_intersect(rs: Seq<Seq<u8>>, ws: Seq<Seq<u8>>) -> bool {
    exists|i: int, j: int| 0 <= i < rs.len() && 0 <= j < ws.len() && rs[i] == ws[j]
}

/// Whether `a`'s reads overlap `b`'s writes: `b` committed a write to a key
/// that `a` observed, which threatens serializability.
pub open spec fn spec_has_conflict(a: ConflictChecker, b: ConflictChecker) -> bool {
    key_sets_intersect(a.reads_view(), b.writes_view())
}

/// Byte-wise equality of two keys.
fn keys_equal(a: &Vec<u8>, b: &Vec<u8>) -> (r: bool)
    ensures
        r == (a@ == b@),
{
    if a.len() != b.len() {
        return false;
    }
    let n: usize = a.len();
    let mut i: usize = 0;
    while i < n
        invariant
            n == a.len() == b.len(),
            i <= n,
            forall|k: int| 0 <= k < i ==> a@[k] == b@[k],
        decreases n - i,
    {
        if a[i] != b[i] {
            return false;
        }
        i = i + 1;
    }
    proof {
        assert(a@ =~= b@);
    }
    true
}

impl ConflictChecker {
    /// Whether this fingerprint records accesses at all.
    pub closed spec fn is_tracking(self) -> bool {
        self.tracking
    }

    /// The keys this transaction read, as byte strings.
    pub closed spec fn reads_view(self) -> Seq<Seq<u8>> {
        if self.tracking {
            self.reads@.map_values(|k: Vec<u8>| k@)
        } else {
            Seq::empty()
        }
    }

    /// The keys this transaction wrote, as byte strings.
    pub closed spec fn writes_view(self) -> Seq<Seq<u8>> {
        if self.tracking {
            self.writes@.map_values(|k: Vec<u8>| k@)
        } else {
            Seq::empty()
        }
    }

    /// A fresh, empty tracking fingerprint for a new transaction.
    pub fn new() -> (c: ConflictChecker)
        ensures
            c.is_tracking(),
            c.reads_view().len() == 0,
            c.writes_view().len() == 0,
    {
        ConflictChecker { tracking: true, reads: Vec::new(), writes: Vec::new() }
    }

    /// A fingerprint with conflict detection switched off: it records
    /// nothing and never reports a conflict.
    pub fn disabled() -> (c: ConflictChecker)
        ensures
            !c.is_tracking(),
            c.reads_view().len() == 0,
            c.writes_view().len() == 0,
    {
        ConflictChecker { tracking: false, reads: Vec::new(), writes: Vec::new() }
    }

    /// Whether this fingerprint records accesses at all.
    pub fn tracks(&self) -> (r: bool)
        ensures
            r == self.is_tracking(),
    {
        self.tracking
    }

    /// Records one key access of the given kind.  A disabled fingerprint
    /// ignores it.
    pub fn record_access(&mut self, key: Vec<u8>, kind: AccessKind)
        ensures
            final(self).is_tracking() == old(self).is_tracking(),
            old(self).is_tracking() && kind == AccessKind::Read ==> {
                &&& final(self).reads_view() == old(self).reads_view().push(key@)
                &&& final(self).writes_view() == old(self).writes_view()
            },
            old(self).is_tracking() && kind == AccessKind::Write ==> {
                &&& final(self).reads_view() == old(self).reads_view()
                &&& final(self).writes_view() == old(self).writes_view().push(key@)
            },
            !old(self).is_tracking() ==> *final(self) == *old(self),
    {
        if self.tracking {
            match kind {
                AccessKind::Read => {
                    let ghost r0 = self.reads@;
                    self.reads.push(key);
                    proof {
                        assert(self.reads_view() =~= r0.map_values(|k: Vec<u8>| k@).push(key@));
                    }
                },
                AccessKind::Write => {
                    let ghost w0 = self.writes@;
                    self.writes.push(key);
                    proof {
                        assert(self.writes_view() =~= w0.map_values(|k: Vec<u8>| k@).push(key@));
                    }
                },
            }
        }
    }

    /// Whether this transaction's reads overlap `other`'s writes.
    pub fn has_conflict(&self, other: &ConflictChecker) -> (r: bool)
        ensures
            r == spec_has_conflict(*self, *other),
    {
        if !self.tracking || !other.tracking {
            return false;
        }
        let nr: usize = self.reads.len();
        let nw: usize = other.writes.len();
        let mut i: usize = 0;
        while i < nr
            invariant
                self.tracking,
                other.tracking,
                nr == self.reads.len(),
                nw == other.writes.len(),
                i <= nr,
                forall|a: int, b: int|
                    0 <= a < i && 0 <= b < nw ==> (#[trigger] self.reads@[a])@ != (
                    #[trigger] other.writes@[b])@,
            decreases nr - i,
        {
            let mut j: usize = 0;
            while j < nw
                invariant
                    self.tracking,
                    other.tracking,
                    nr == self.reads.len(),
                    nw == other.writes.len(),
                    i < nr,
                    j <= nw,
                    forall|b: int|
                        0 <= b < j ==> self.reads@[i as int]@ != (#[trigger] other.writes@[b])@,
                decreases nw - j,
            {
                if keys_equal(&self.reads[i], &other.writes[j]) {
                    proof {
                        assert(self.reads_view()[i as int] == other.writes_view()[j as int]);
                    }
                    return true;
                }
                j = j + 1;
            }
            i = i + 1;
        }
        proof {
            assert forall|a: int, b: int|
                0 <= a < self.reads_view().len() && 0 <= b
                    < other.writes_view().len() implies self.reads_view()[a]
                != other.writes_view()[b] by {
                assert(self.reads@[a]@ != other.writes@[b]@);
            }
        }
        false
    }
}

} // verus!
