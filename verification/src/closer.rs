//! Cooperative shutdown signalling.
//!
//! A [`Closer`] is a countdown latch shared by a fixed number of background
//! processors: the owner raises the shutdown signal once, every participant
//! acknowledges it, and teardown is complete only when all acknowledgements
//! are in.  Nothing here is persisted; the handle lives purely in memory.

use vstd::prelude::*;

verus! {

/// Shutdown signal and countdown latch for a fixed set of participants.
pub struct Closer {
    /// How many participants must acknowledge the signal.
    participants: u64,
    /// Whether the shutdown signal has been raised.
    signaled: bool,
    /// How many participants have acknowledged so far.
    acknowledged: u64,
}

impl Closer {
    pub closed spec fn spec_participants(self) -> u64 {
        self.participants
    }

    pub closed spec fn spec_signaled(self) -> bool {
        self.signaled
    }

    pub closed spec fn spec_acknowledged(self) -> u64 {
        self.acknowledged
    }

    /// Basic well-formedness: acknowledgements never outnumber participants
    /// and can only exist once the signal has been raised.
    pub open spec fn wf(self) -> bool {
        &&& self.spec_acknowledged() <= self.spec_participants()
        &&& !self.spec_signaled() ==> self.spec_acknowledged() == 0
    }

    /// All participants have acknowledged the shutdown signal.
    pub open spec fn spec_all_acknowledged(self) -> bool {
        self.spec_acknowledged() == self.spec_participants()
    }

    /// Creates a latch waiting for `participants` acknowledgements.
    pub fn new(participants: u64) -> (c: Closer)
        ensures
            c.wf(),
            c.spec_participants() == participants,
            !c.spec_signaled(),
            c.spec_acknowledged() == 0,
    {
        Closer { participants, signaled: false, acknowledged: 0 }
    }

    /// Raises the shutdown signal.  Idempotent: raising it twice is a no-op.
    pub fn signal(&mut self)
        requires
            old(self).wf(),
        ensures
            final(self).wf(),
            final(self).spec_signaled(),
            final(self).spec_participants() == old(self).spec_participants(),
            final(self).spec_acknowledged() == old(self).spec_acknowledged(),
            old(self).spec_signaled() ==> *final(self) == *old(self),
    {
        self.signaled = true;
    }

    /// Whether the shutdown signal has been raised.
    pub fn is_signaled(&self) -> (r: bool)
        ensures
            r == self.spec_signaled(),
    {
        self.signaled
    }

    /// One participant acknowledges the shutdown signal.  Returns whether the
    /// acknowledgement was counted: it is refused before the signal is raised
    /// and once every participant has already acknowledged.
    pub fn acknowledge(&mut self) -> (counted: bool)
        requires
            old(self).wf(),
        ensures
            final(self).wf(),
            final(self).spec_participants() == old(self).spec_participants(),
            final(self).spec_signaled() == old(self).spec_signaled(),
            counted == (old(self).spec_signaled()
                && old(self).spec_acknowledged() < old(self).spec_participants()),
            counted ==> final(self).spec_acknowledged()
                == old(self).spec_acknowledged() + 1,
            !counted ==> *final(self) == *old(self),
    {
        if self.signaled && self.acknowledged < self.participants {
            self.acknowledged = self.acknowledged + 1;
            true
        } else {
            false
        }
    }

    /// Whether every participant has acknowledged the shutdown signal.
    pub fn all_acknowledged(&self) -> (r: bool)
        ensures
            r == self.spec_all_acknowledged(),
    {
        self.acknowledged == self.participants
    }
}

} // verus!
