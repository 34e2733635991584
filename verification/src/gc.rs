//! Version reclamation.
//!
//! A version is dead when it ended at or before the oldest snapshot that any
//! running transaction reads at. Chains are pruned on the write path, by the
//! commit that just made one longer; a sweep that rides on other commits covers
//! the records nobody writes any more; and compaction, which needs a database
//! nobody is using, gives back the slots of keys that are gone.
//!
//! Pruning goes by a hint of that watermark rather than by the watermark itself.
//! A stale hint prunes less than it could, never more.

use vstd::prelude::*;

use crate::time::Timestamp;

verus! {

/// A snapshot of reclamation state.
///
/// These two are what version reclamation is gated on, which is why they are
/// the pair to watch: a watermark that stays flat while writes continue, usually
/// alongside a count of transactions that only climbs.
#[derive(Clone, Copy, Debug)]
pub struct GcStats {
    /// The oldest snapshot any running transaction still reads at, or the read
    /// watermark when there are none. Versions superseded at or before this are
    /// reclaimable.
    pub watermark: Timestamp,
    /// Running transactions. A number that only grows is the leak.
    pub active_transactions: usize,
}

} // verus!
