//! Read-set bookkeeping, one implementation per kind of isolation level.

use vstd::prelude::*;

use crate::time::{Timestamp, TxnId};

verus! {

/// Opaque handle to a version slot, used as the identity of a read.
#[derive(Clone, Copy, PartialEq, Eq, Hash, Debug, Structural)]
pub struct SlotRef(pub usize);

/// Read bookkeeping of one transaction.
pub trait ReadTracker: Sized {
    /// Whether this tracker records anything at all.
    spec fn tracks() -> bool;

    /// The slots read so far, each with the snapshot it was read at.
    spec fn observed(&self) -> Seq<(SlotRef, Timestamp)>;

    /// A concurrent transaction wrote something this one read.
    spec fn inbound(&self) -> bool;

    /// This transaction wrote something a concurrent transaction read.
    spec fn outbound(&self) -> bool;

    /// Record that the version of `slot` valid at `snapshot` was observed.
    fn observe(&mut self, slot: SlotRef, snapshot: Timestamp)
        ensures
            final(self).observed() == if Self::tracks() {
                old(self).observed().push((slot, snapshot))
            } else {
                old(self).observed()
            },
            final(self).inbound() == old(self).inbound(),
            final(self).outbound() == old(self).outbound(),
    ;

    /// Record that a concurrent transaction overwrote something this one read.
    fn note_inbound_conflict(&mut self, writer: TxnId)
        ensures
            final(self).observed() == old(self).observed(),
            final(self).inbound() == (Self::tracks() || old(self).inbound()),
            final(self).outbound() == old(self).outbound(),
    ;

    /// Record that this transaction overwrote something a concurrent one read.
    fn note_outbound_conflict(&mut self, reader: TxnId)
        ensures
            final(self).observed() == old(self).observed(),
            final(self).inbound() == old(self).inbound(),
            final(self).outbound() == (Self::tracks() || old(self).outbound()),
    ;

    /// Called at commit. `false` means the transaction must abort: it is a
    /// pivot, with a conflict in both directions.
    fn validate(&self) -> (ok: bool)
        ensures
            ok == !(self.inbound() && self.outbound()),
    ;
}

/// The tracker of every level below `Serializable`: it records nothing.
#[derive(Default, Clone, Copy, Debug)]
pub struct NoTracking;

impl ReadTracker for NoTracking {
    open spec fn tracks() -> bool {
        false
    }

    open spec fn observed(&self) -> Seq<(SlotRef, Timestamp)> {
        Seq::empty()
    }

    open spec fn inbound(&self) -> bool {
        false
    }

    open spec fn outbound(&self) -> bool {
        false
    }

    fn observe(&mut self, slot: SlotRef, snapshot: Timestamp) {
    }

    fn note_inbound_conflict(&mut self, writer: TxnId) {
    }

    fn note_outbound_conflict(&mut self, reader: TxnId) {
    }

    fn validate(&self) -> (ok: bool) {
        true
    }
}

/// Read-set tracking for serializable snapshot isolation.
///
/// Every anomaly under snapshot isolation contains a transaction with a
/// read/write conflict coming in and one going out, a pivot. Pivots must abort.
#[derive(Debug)]
pub struct SsiTracker {
    pub reads: Vec<(SlotRef, Timestamp)>,
    pub in_conflict: bool,
    pub out_conflict: bool,
}

impl Default for SsiTracker {
    fn default() -> (t: Self)
        ensures
            t.observed() == Seq::<(SlotRef, Timestamp)>::empty(),
            !t.inbound(),
            !t.outbound(),
    {
        SsiTracker { reads: Vec::new(), in_conflict: false, out_conflict: false }
    }
}

impl SsiTracker {
    /// The slots read so far.
    pub fn reads(&self) -> (r: &[(SlotRef, Timestamp)])
        ensures
            r@ == self.observed(),
    {
        self.reads.as_slice()
    }

    /// True when this transaction is a pivot in a dangerous structure.
    pub fn is_pivot(&self) -> (r: bool)
        ensures
            r == (self.inbound() && self.outbound()),
    {
        self.in_conflict && self.out_conflict
    }
}

impl ReadTracker for SsiTracker {
    open spec fn tracks() -> bool {
        true
    }

    open spec fn observed(&self) -> Seq<(SlotRef, Timestamp)> {
        self.reads@
    }

    open spec fn inbound(&self) -> bool {
        self.in_conflict
    }

    open spec fn outbound(&self) -> bool {
        self.out_conflict
    }

    fn observe(&mut self, slot: SlotRef, snapshot: Timestamp) {
        self.reads.push((slot, snapshot));
    }

    fn note_inbound_conflict(&mut self, writer: TxnId) {
        self.in_conflict = true;
    }

    fn note_outbound_conflict(&mut self, reader: TxnId) {
        self.out_conflict = true;
    }

    fn validate(&self) -> (ok: bool) {
        !self.is_pivot()
    }
}

/// A tracker keeps every read in order, notices a conflict in either direction, and
/// refuses to commit once it has noticed both. Below `Serializable` none is kept,
/// none noticed, and nothing refused.
pub proof fn law_trackers_refuse_pivots(slot: SlotRef, snapshot: Timestamp, other: TxnId)
    ensures
        forall|t: &mut SsiTracker| #[trigger]
            call_ensures(SsiTracker::observe, (t, slot, snapshot), ()) ==> final(t).reads@
                == t.reads@.push((slot, snapshot)) && final(t).in_conflict == t.in_conflict
                && final(t).out_conflict == t.out_conflict,
        forall|t: &mut SsiTracker| #[trigger]
            call_ensures(SsiTracker::note_inbound_conflict, (t, other), ()) ==> final(t).reads@
                == t.reads@ && final(t).in_conflict && final(t).out_conflict == t.out_conflict,
        forall|t: &mut SsiTracker| #[trigger]
            call_ensures(SsiTracker::note_outbound_conflict, (t, other), ()) ==> final(t).reads@
                == t.reads@ && final(t).in_conflict == t.in_conflict && final(t).out_conflict,
        forall|t: SsiTracker, ok: bool| #[trigger]
            call_ensures(SsiTracker::validate, (&t,), ok) ==> ok == !(t.in_conflict
                && t.out_conflict),
        forall|t: SsiTracker, p: bool| #[trigger]
            call_ensures(SsiTracker::is_pivot, (&t,), p) ==> p == (t.in_conflict
                && t.out_conflict),
        forall|t: NoTracking, ok: bool| #[trigger]
            call_ensures(NoTracking::validate, (&t,), ok) ==> ok,
{
}

} // verus!
