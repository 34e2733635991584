//! The timestamp oracle.
//!
//! Every transaction takes a snapshot when it begins and a timestamp when it
//! commits. The snapshot is the read watermark, the largest `t` such that every
//! commit at or below `t` has finished installing its versions. A reader that
//! used the newest timestamp handed out could see a commit that is still being
//! stamped, and so only half of it.
//!
//! Keeping the watermark is a sequence-completion problem, solved with a ring:
//!
//! ```text
//!   completed[ts % RING] = ts        once `ts` has finished installing
//!   watermark            advances    while completed[watermark + 1] == watermark + 1
//! ```
//!
//! A commit still installing leaves a hole and the watermark stops there. This
//! needs commit timestamps to be dense, so transaction ids have counters of
//! their own. The two may coincide numerically: the tag bit tells them apart.

use vstd::multiset::Multiset;
use vstd::prelude::*;

use crate::time::{Timestamp, TxnId, FOREVER, IN_FLIGHT};

verus! {

/// Slots in the completion ring: how many commits may be installing at once.
pub const RING: u64 = 4096;

/// Independent shards for the live-snapshot set and the transaction-id counter.
pub const SHARDS: u64 = 16;

/// How many ids one shard can hand out.
pub const IDS_PER_SHARD: u64 = 0x07ff_ffff_ffff_ffff;

/// How timestamps are handed out.
#[derive(Clone, Copy, Debug, PartialEq, Eq, Structural)]
#[non_exhaustive]
pub enum OracleConfig {
    /// One counter for commit timestamps, exact and totally ordered.
    Centralised,
}

impl Default for OracleConfig {
    fn default() -> (c: Self)
        ensures
            c == OracleConfig::Centralised,
    {
        OracleConfig::Centralised
    }
}

/// The oracle's state as a mathematical value.
#[verifier::ext_equal]
pub struct OracleView {
    pub config: OracleConfig,
    /// The next commit timestamp to hand out.
    pub next: u64,
    /// Every commit at or below this one has finished installing.
    pub watermark: u64,
    /// Commits above the watermark that have finished installing.
    pub published: Set<u64>,
    /// How many transaction ids each shard has handed out.
    pub issued: Seq<u64>,
    /// The snapshots of the live transactions of each shard.
    pub active: Seq<Multiset<u64>>,
}

impl OracleView {
    /// A commit that has a timestamp and has not finished installing.
    pub open spec fn installing(self, ts: u64) -> bool {
        self.watermark < ts < self.next && !self.published.contains(ts)
    }

    /// What holds of every oracle.
    pub open spec fn valid(self) -> bool {
        &&& self.watermark < self.next <= FOREVER
        &&& self.next - self.watermark <= RING
        &&& forall|ts: u64| #[trigger]
            self.published.contains(ts) ==> self.watermark + 1 < ts < self.next
        &&& self.issued.len() == SHARDS
        &&& self.active.len() == SHARDS
        &&& forall|i: int| 0 <= i < SHARDS ==> #[trigger] self.issued[i] <= IDS_PER_SHARD
    }

    /// Whether some live transaction reads at `ts`.
    pub open spec fn is_active(self, ts: u64) -> bool {
        exists|i: int| 0 <= i < self.active.len() && #[trigger] self.active[i].contains(ts)
    }

    /// The oldest snapshot a live transaction still reads at, or the read
    /// watermark when there is none.
    pub open spec fn is_gc_watermark(self, ts: u64) -> bool {
        &&& forall|s: u64| self.is_active(s) ==> ts <= s
        &&& self.is_active(ts) || (ts == self.watermark && forall|s: u64| !self.is_active(s))
    }
}

/// The shard that transaction `id` belongs to.
pub open spec fn shard_of(id: u64) -> int {
    (id % SHARDS) as int
}

/// The `n`-th id handed out through shard `slot`.
pub open spec fn nth_id(slot: int, n: int) -> int {
    1 + slot + SHARDS * n
}

/// How many snapshots the shards hold together.
pub open spec fn total(active: Seq<Multiset<u64>>) -> nat
    decreases active.len(),
{
    if active.len() == 0 {
        0
    } else {
        total(active.drop_last()) + active.last().len()
    }
}

/// Hands out transaction ids and commit timestamps, and maintains the two
/// watermarks.
pub struct Oracle {
    config: OracleConfig,
    /// Commit timestamps. Dense, because the completion ring depends on it.
    next_ts: u64,
    /// Transaction ids, one counter per shard. They need only be unique.
    next_id: Vec<u64>,
    /// Highest timestamp below which every commit is fully installed.
    read_watermark: u64,
    /// `completed[ts % RING] == ts` once `ts` has finished installing.
    completed: Vec<u64>,
    /// Snapshots of the live transactions of each shard. A multiset: several
    /// live transactions may share a snapshot, and one finishing must not
    /// deregister the others.
    active: Vec<Vec<u64>>,
}

impl View for Oracle {
    type V = OracleView;

    closed spec fn view(&self) -> OracleView {
        OracleView {
            config: self.config,
            next: self.next_ts,
            watermark: self.read_watermark,
            published: Set::new(
                |ts: u64|
                    self.read_watermark < ts < self.next_ts && self.completed@[(ts % RING) as int]
                        == ts,
            ),
            issued: self.next_id@,
            active: self.active@.map_values(|v: Vec<u64>| v@.to_multiset()),
        }
    }
}

impl Oracle {
    /// The ring holds no timestamp that was never handed out, and the slot
    /// after the watermark is a hole.
    closed spec fn ring_ok(&self) -> bool {
        &&& self.completed@.len() == RING
        &&& forall|i: int| 0 <= i < RING ==> #[trigger] self.completed@[i] < self.next_ts
        &&& self.completed@[((self.read_watermark + 1) % RING as int)] != self.read_watermark + 1
    }

    pub closed spec fn wf(&self) -> bool {
        &&& self.ring_ok()
        &&& self@.valid()
    }

    /// What [`Oracle::wf`] says of the view.
    pub proof fn lemma_wf(&self)
        requires
            self.wf(),
        ensures
            self@.valid(),
    {
    }

    pub fn new(config: OracleConfig) -> (o: Self)
        ensures
            o.wf(),
            o@ == (OracleView {
                config,
                next: 1,
                watermark: 0,
                published: Set::empty(),
                issued: Seq::new(SHARDS as nat, |i: int| 0u64),
                active: Seq::new(SHARDS as nat, |i: int| Multiset::<u64>::empty()),
            }),
    {
        let mut next_id: Vec<u64> = Vec::new();
        let mut active: Vec<Vec<u64>> = Vec::new();
        let mut i: u64 = 0;
        while i < SHARDS
            invariant
                i <= SHARDS,
                next_id@.len() == i,
                active@.len() == i,
                forall|j: int| 0 <= j < i ==> next_id@[j] == 0,
                forall|j: int|
                    0 <= j < i ==> (#[trigger] active@[j])@.to_multiset() =~= Multiset::<
                        u64,
                    >::empty(),
            decreases SHARDS - i,
        {
            next_id.push(0);
            let empty: Vec<u64> = Vec::new();
            assert(empty@.to_multiset() =~= Multiset::<u64>::empty()) by {
                broadcast use vstd::seq_lib::group_to_multiset_ensures;

            }
            active.push(empty);
            i = i + 1;
        }
        let mut completed: Vec<u64> = Vec::new();
        let mut n: u64 = 0;
        while n < RING
            invariant
                n <= RING,
                completed@.len() == n,
                forall|j: int| 0 <= j < n ==> completed@[j] == 0,
            decreases RING - n,
        {
            completed.push(0);
            n = n + 1;
        }
        let o = Oracle { config, next_ts: 1, next_id, read_watermark: 0, completed, active };
        assert(o@ =~= (OracleView {
            config,
            next: 1,
            watermark: 0,
            published: Set::empty(),
            issued: Seq::new(SHARDS as nat, |i: int| 0u64),
            active: Seq::new(SHARDS as nat, |i: int| Multiset::<u64>::empty()),
        }));
        o
    }

    pub fn config(&self) -> (c: OracleConfig)
        ensures
            c == self@.config,
    {
        self.config
    }

    /// Restart the counter above `ts`.
    ///
    /// A timestamp must not be used twice, so `ts` may not lie below one
    /// already handed out, and no commit may be installing.
    pub fn resume_after(&mut self, ts: Timestamp)
        requires
            old(self).wf(),
            old(self)@.next == old(self)@.watermark + 1,
            old(self)@.next <= ts.0 + 1 <= FOREVER,
        ensures
            final(self).wf(),
            final(self)@ == (OracleView {
                next: (ts.0 + 1) as u64,
                watermark: ts.0,
                ..old(self)@
            }),
    {
        self.next_ts = ts.0 + 1;
        self.read_watermark = ts.0;
        assert(self@ =~= (OracleView {
            next: (ts.0 + 1) as u64,
            watermark: ts.0,
            ..old(self)@
        }));
    }

    /// Whether shard `slot` exists and has ids left.
    pub fn has_ids(&self, slot: usize) -> (r: bool)
        requires
            self.wf(),
        ensures
            r == (slot < SHARDS && self@.issued[slot as int] < IDS_PER_SHARD),
    {
        slot < self.next_id.len() && self.next_id[slot] < IDS_PER_SHARD
    }

    /// Whether there are commit timestamps left.
    pub fn has_timestamps(&self) -> (r: bool)
        ensures
            r == (self@.next < FOREVER),
    {
        self.next_ts < FOREVER
    }

    /// Allocate a transaction id through shard `slot`.
    ///
    /// Striding by the number of shards keeps ids of different shards distinct
    /// without coordination, and `0` is never handed out: it belongs to nobody.
    pub fn next_txn_id(&mut self, slot: usize) -> (id: TxnId)
        requires
            old(self).wf(),
            slot < SHARDS,
            old(self)@.issued[slot as int] < IDS_PER_SHARD,
        ensures
            final(self).wf(),
            id.0 == nth_id(slot as int, old(self)@.issued[slot as int] as int),
            0 < id.0 < IN_FLIGHT,
            final(self)@ == (OracleView {
                issued: old(self)@.issued.update(
                    slot as int,
                    (old(self)@.issued[slot as int] + 1) as u64,
                ),
                ..old(self)@
            }),
    {
        let n: u64 = self.next_id[slot];
        self.next_id[slot] = n + 1;
        assert(self@ =~= (OracleView {
            issued: old(self)@.issued.update(
                slot as int,
                (old(self)@.issued[slot as int] + 1) as u64,
            ),
            ..old(self)@
        }));
        TxnId(1 + slot as u64 + SHARDS * n)
    }

    /// Take a snapshot for a beginning transaction and register it as live.
    ///
    /// Returns the read watermark, so a transaction cannot see a commit whose
    /// versions are still being stamped.
    pub fn begin_snapshot(&mut self, id: TxnId) -> (ts: Timestamp)
        requires
            old(self).wf(),
        ensures
            final(self).wf(),
            ts.0 == old(self)@.watermark,
            final(self)@ == (OracleView {
                active: old(self)@.active.update(
                    shard_of(id.0),
                    old(self)@.active[shard_of(id.0)].insert(ts.0),
                ),
                ..old(self)@
            }),
    {
        let ts: u64 = self.read_watermark;
        let shard: usize = (id.0 % SHARDS) as usize;
        self.active[shard].push(ts);
        proof {
            broadcast use vstd::seq_lib::group_to_multiset_ensures;

            assert(self@.active =~= old(self)@.active.update(
                shard_of(id.0),
                old(self)@.active[shard_of(id.0)].insert(ts),
            ));
            assert(self@.published =~= old(self)@.published);
        }
        Timestamp(ts)
    }

    /// A snapshot for one statement of a `ReadCommitted` transaction, and for
    /// commit-time revalidation. Registers nothing: the caller's begin snapshot
    /// already holds reclamation back.
    pub fn statement_snapshot(&self) -> (ts: Timestamp)
        ensures
            ts.0 == self@.watermark,
    {
        Timestamp(self.read_watermark)
    }

    /// Drop a transaction's registration when it commits or aborts.
    ///
    /// Removes one entry, not every equal one: several live transactions may
    /// share this snapshot.
    pub fn release_snapshot(&mut self, id: TxnId, ts: Timestamp)
        requires
            old(self).wf(),
        ensures
            final(self).wf(),
            final(self)@ == (OracleView {
                active: old(self)@.active.update(
                    shard_of(id.0),
                    old(self)@.active[shard_of(id.0)].remove(ts.0),
                ),
                ..old(self)@
            }),
    {
        let shard: usize = (id.0 % SHARDS) as usize;
        let n: usize = self.active[shard].len();
        let mut at: usize = 0;
        while at < n && self.active[shard][at] != ts.0
            invariant
                *self == *old(self),
                shard < self.active@.len(),
                n == self.active@[shard as int]@.len(),
                at <= n,
                forall|j: int| 0 <= j < at ==> self.active@[shard as int]@[j] != ts.0,
            decreases n - at,
        {
            at = at + 1;
        }
        let ghost before = self.active@[shard as int]@;
        if at < n {
            self.active[shard].swap_remove(at);
            proof {
                lemma_swap_remove(before, at as int);
            }
        } else {
            proof {
                broadcast use vstd::seq_lib::group_to_multiset_ensures;

                assert(!before.contains(ts.0));
                assert(before.to_multiset().remove(ts.0) =~= before.to_multiset());
            }
        }
        assert(self@.active =~= old(self)@.active.update(
            shard_of(id.0),
            old(self)@.active[shard_of(id.0)].remove(ts.0),
        ));
        assert(self@.published =~= old(self)@.published);
    }

    /// Allocate a commit timestamp.
    ///
    /// Must be paired with [`Oracle::publish`], or the read watermark stops at
    /// this timestamp. At most a ring's worth of commits may be installing at
    /// once.
    pub fn begin_commit(&mut self) -> (ts: Timestamp)
        requires
            old(self).wf(),
            old(self)@.next < FOREVER,
            old(self)@.next - old(self)@.watermark < RING,
        ensures
            final(self).wf(),
            ts.0 == old(self)@.next,
            final(self)@ == (OracleView { next: (old(self)@.next + 1) as u64, ..old(self)@ }),
    {
        let ts: u64 = self.next_ts;
        self.next_ts = ts + 1;
        assert(self@.published =~= old(self)@.published) by {
            assert(self.completed@[(ts % RING) as int] < ts);
        }
        Timestamp(ts)
    }

    /// Publish that `ts` is fully installed.
    ///
    /// The watermark then covers every contiguous run of installed commits, and
    /// nothing beyond the first that is still installing.
    pub fn publish(&mut self, ts: Timestamp)
        requires
            old(self).wf(),
            old(self)@.installing(ts.0),
        ensures
            final(self).wf(),
            final(self)@.watermark >= old(self)@.watermark,
            forall|t: u64|
                old(self)@.watermark < t <= final(self)@.watermark ==> #[trigger] old(self)@.published.insert(ts.0).contains(t),
            final(self)@ == (OracleView {
                watermark: final(self)@.watermark,
                published: old(self)@.published.insert(ts.0).filter(
                    |t: u64| t > final(self)@.watermark,
                ),
                ..old(self)@
            }),
            !final(self)@.published.contains((final(self)@.watermark + 1) as u64),
    {
        let ghost all = self@.published.insert(ts.0);
        let at: usize = (ts.0 % RING) as usize;
        self.completed[at] = ts.0;
        assert forall|t: u64| self.read_watermark < t < self.next_ts implies (self.completed@[(t
            % RING) as int] == t <==> all.contains(t)) by {
            if t != ts.0 {
                assert(t % RING != ts.0 % RING) by (nonlinear_arith)
                    requires
                        t != ts.0,
                        -4096 < t - ts.0 < 4096,
                        RING == 4096,
                ;
            }
        }
        if self.read_watermark + 1 == ts.0 {
            self.advance(Ghost(all));
        }
        assert(self@.published =~= all.filter(|t: u64| t > self@.watermark));
        assert(self@ =~= (OracleView {
            watermark: self@.watermark,
            published: all.filter(|t: u64| t > self@.watermark),
            ..old(self)@
        }));
    }

    /// Move the read watermark over any contiguous run of completed commits.
    fn advance(&mut self, Ghost(all): Ghost<Set<u64>>)
        requires
            old(self).completed@.len() == RING,
            old(self).read_watermark < old(self).next_ts <= FOREVER,
            forall|i: int| 0 <= i < RING ==> #[trigger] old(self).completed@[i] < old(self).next_ts,
            forall|t: u64|
                old(self).read_watermark < t < old(self).next_ts ==> (old(self).completed@[(t
                    % RING) as int] == t <==> #[trigger] all.contains(t)),
        ensures
            final(self).read_watermark >= old(self).read_watermark,
            final(self).read_watermark < final(self).next_ts,
            forall|t: u64|
                old(self).read_watermark < t <= final(self).read_watermark ==> #[trigger] all.contains(
                    t,
                ),
            final(self).completed@[((final(self).read_watermark + 1) % RING as int)] != final(self).read_watermark + 1,
            *final(self) == (Oracle {
                read_watermark: final(self).read_watermark,
                ..*old(self)
            }),
    {
        loop
            invariant
                *self == (Oracle { read_watermark: self.read_watermark, ..*old(self) }),
                self.completed@.len() == RING,
                old(self).read_watermark <= self.read_watermark < self.next_ts <= FOREVER,
                forall|i: int| 0 <= i < RING ==> #[trigger] self.completed@[i] < self.next_ts,
                forall|t: u64|
                    old(self).read_watermark < t < self.next_ts ==> (self.completed@[(t
                        % RING) as int] == t <==> #[trigger] all.contains(t)),
                forall|t: u64|
                    old(self).read_watermark < t <= self.read_watermark ==> #[trigger] all.contains(
                        t,
                    ),
            decreases self.next_ts - self.read_watermark,
        {
            let candidate: u64 = self.read_watermark + 1;
            if self.completed[(candidate % RING) as usize] != candidate {
                return ;  // a hole: some earlier commit is still installing
            }
            assert(self.completed@[(candidate % RING) as int] < self.next_ts);
            self.read_watermark = candidate;
        }
    }

    /// The oldest snapshot any live transaction can still see, or the read
    /// watermark if there is none. Versions that end at or below it are
    /// unreachable.
    pub fn gc_watermark(&self) -> (ts: Timestamp)
        requires
            self.wf(),
        ensures
            self@.is_gc_watermark(ts.0),
    {
        let mut oldest: Option<u64> = None;
        let mut i: usize = 0;
        while i < self.active.len()
            invariant
                i <= self.active@.len(),
                self@.active.len() == self.active@.len(),
                match oldest {
                    Some(o) => (exists|j: int, k: int|
                        0 <= j < i && 0 <= k < self.active@[j]@.len() && #[trigger] self.active@[j]@[k]
                            == o) && (forall|j: int, k: int|
                        0 <= j < i && 0 <= k < self.active@[j]@.len() ==> o
                            <= #[trigger] self.active@[j]@[k]),
                    None => forall|j: int|
                        0 <= j < i ==> (#[trigger] self.active@[j])@.len() == 0,
                },
            decreases self.active@.len() - i,
        {
            let mut k: usize = 0;
            while k < self.active[i].len()
                invariant
                    i < self.active@.len(),
                    k <= self.active@[i as int]@.len(),
                    match oldest {
                        Some(o) => (exists|a: int, b: int|
                            0 <= a < self.active@.len() && 0 <= b < self.active@[a]@.len() && (a < i
                                || (a == i && b < k)) && #[trigger] self.active@[a]@[b] == o) && (
                        forall|a: int, b: int|
                            0 <= a < self.active@.len() && 0 <= b < self.active@[a]@.len() && (a < i
                                || (a == i && b < k)) ==> o <= #[trigger] self.active@[a]@[b]),
                        None => k == 0 && forall|j: int|
                            0 <= j < i ==> (#[trigger] self.active@[j])@.len() == 0,
                    },
                decreases self.active@[i as int]@.len() - k,
            {
                let s: u64 = self.active[i][k];
                assert(self.active@[i as int]@[k as int] == s);
                match oldest {
                    Some(o) => {
                        if s < o {
                            oldest = Some(s);
                        }
                    },
                    None => {
                        oldest = Some(s);
                    },
                }
                k = k + 1;
            }
            i = i + 1;
        }
        proof {
            broadcast use vstd::seq_lib::group_to_multiset_ensures;

            assert forall|s: u64| self@.is_active(s) implies exists|j: int, k: int|
                0 <= j < self.active@.len() && 0 <= k < self.active@[j]@.len()
                    && #[trigger] self.active@[j]@[k] == s by {
                let j = choose|j: int|
                    0 <= j < self@.active.len() && #[trigger] self@.active[j].contains(s);
                assert(self.active@[j]@.to_multiset().contains(s));
                assert(self.active@[j]@.contains(s));
            }
            match oldest {
                Some(o) => {
                    let (j, k) = choose|j: int, k: int|
                        0 <= j < self.active@.len() && 0 <= k < self.active@[j]@.len()
                            && #[trigger] self.active@[j]@[k] == o;
                    assert(self.active@[j]@.contains(o));
                    assert(self@.active[j].contains(o));
                },
                None => {},
            }
        }
        match oldest {
            Some(ts) => Timestamp(ts),
            None => Timestamp(self.read_watermark),
        }
    }

    /// Number of live transactions.
    pub fn active_count(&self) -> (n: usize)
        requires
            self.wf(),
            total(self@.active) <= usize::MAX,
        ensures
            n == total(self@.active),
    {
        let mut n: usize = 0;
        let mut i: usize = 0;
        assert(self@.active.take(0) =~= Seq::<Multiset<u64>>::empty());
        while i < self.active.len()
            invariant
                i <= self.active@.len(),
                self@.active.len() == self.active@.len(),
                n == total(self@.active.take(i as int)),
                total(self@.active) <= usize::MAX,
            decreases self.active@.len() - i,
        {
            proof {
                broadcast use vstd::seq_lib::group_to_multiset_ensures;

                lemma_total_prefix(self@.active, i + 1);
                assert(self@.active.take(i + 1).drop_last() =~= self@.active.take(i as int));
                assert(self@.active.take(i + 1).last() == self.active@[i as int]@.to_multiset());
            }
            n = n + self.active[i].len();
            i = i + 1;
        }
        assert(self@.active.take(i as int) =~= self@.active);
        n
    }
}

proof fn lemma_total_prefix(active: Seq<Multiset<u64>>, i: int)
    requires
        0 <= i <= active.len(),
    ensures
        total(active.take(i)) <= total(active),
    decreases active.len() - i,
{
    if i == active.len() {
        assert(active.take(i) =~= active);
    } else {
        lemma_total_prefix(active, i + 1);
        assert(active.take(i + 1).drop_last() =~= active.take(i));
    }
}

/// Changing one shard changes the total by what that shard gained or lost.
pub proof fn lemma_total_update(active: Seq<Multiset<u64>>, i: int, m: Multiset<u64>)
    requires
        0 <= i < active.len(),
    ensures
        total(active.update(i, m)) == total(active) - active[i].len() + m.len(),
    decreases active.len(),
{
    let changed = active.update(i, m);
    if i == active.len() - 1 {
        assert(changed.drop_last() =~= active.drop_last());
    } else {
        lemma_total_update(active.drop_last(), i, m);
        assert(changed.drop_last() =~= active.drop_last().update(i, m));
    }
}

proof fn lemma_swap_remove(s: Seq<u64>, i: int)
    requires
        0 <= i < s.len(),
    ensures
        s.update(i, s.last()).drop_last().to_multiset() == s.to_multiset().remove(s[i]),
{
    broadcast use vstd::seq_lib::group_to_multiset_ensures;

    let t = s.update(i, s.last());
    assert(t.drop_last().push(t.last()) =~= t);
    vstd::seq_lib::to_multiset_update(s, i, s.last());
    assert(t.to_multiset() =~= s.to_multiset().insert(s.last()).remove(s[i]));
    assert(t.drop_last().to_multiset().insert(s.last()) =~= t.to_multiset()) by {
        vstd::seq_lib::to_multiset_build(t.drop_last(), t.last());
    }
    assert(s.contains(s[i]));
    assert forall|x: u64| t.drop_last().to_multiset().count(x) == s.to_multiset().remove(
        s[i],
    ).count(x) by {
        assert(t.to_multiset().count(x) == t.drop_last().to_multiset().insert(s.last()).count(x));
    }
    assert(t.drop_last().to_multiset() =~= s.to_multiset().remove(s[i]));
}

/// Ids of different shards, and of one shard at different times, are different.
pub proof fn law_txn_ids_are_unique(slot1: int, n1: int, slot2: int, n2: int)
    requires
        0 <= slot1 < SHARDS,
        0 <= slot2 < SHARDS,
        nth_id(slot1, n1) == nth_id(slot2, n2),
    ensures
        slot1 == slot2,
        n1 == n2,
{
}

/// Transactions of different shards register in different shards.
pub proof fn law_id_recovers_its_shard(slot1: int, n1: int, slot2: int, n2: int)
    requires
        0 <= slot1 < SHARDS,
        0 <= slot2 < SHARDS,
        0 <= n1,
        0 <= n2,
    ensures
        nth_id(slot1, n1) % (SHARDS as int) == nth_id(slot2, n2) % (SHARDS as int) <==> slot1
            == slot2,
{
}

/// The watermark never passes a commit that is still installing, and stops only
/// at one: it is the largest timestamp with nothing unfinished at or below it.
pub proof fn law_watermark_waits_for_installing_commits(o: OracleView)
    requires
        o.valid(),
    ensures
        forall|ts: u64| #[trigger] o.installing(ts) ==> o.watermark < ts,
        o.watermark + 1 < o.next ==> o.installing((o.watermark + 1) as u64),
{
}

/// Ids are never handed out twice: two calls give different ids, unless they are on the
/// same shard with the same count, and every call raises that count.
pub proof fn law_ids_are_handed_out_once(slot1: usize, slot2: usize)
    ensures
        forall|a: &mut Oracle, id1: TxnId, b: &mut Oracle, id2: TxnId|
            #[trigger] call_ensures(Oracle::next_txn_id, (a, slot1), id1)
                && #[trigger] call_ensures(Oracle::next_txn_id, (b, slot2), id2) && a.wf()
                && b.wf() && slot1 < 16 && slot2 < 16 && a@.issued[slot1 as int]
                < IDS_PER_SHARD && b@.issued[slot2 as int] < IDS_PER_SHARD && (slot1 != slot2
                || a@.issued[slot1 as int] != b@.issued[slot2 as int]) ==> id1 != id2,
        forall|a: &mut Oracle, id: TxnId| #[trigger]
            call_ensures(Oracle::next_txn_id, (a, slot1), id) && a.wf() && slot1 < 16
                && a@.issued[slot1 as int] < IDS_PER_SHARD ==> {
                &&& 0 < id.0 < 0x8000_0000_0000_0000
                &&& final(a)@.issued.len() == a@.issued.len()
                &&& forall|i: int|
                    0 <= i < a@.issued.len() ==> #[trigger] final(a)@.issued[i] == a@.issued[i]
                        + if i == slot1 {
                        1int
                    } else {
                        0
                    }
                &&& final(a)@.next == a@.next && final(a)@.watermark == a@.watermark
                &&& final(a)@.published == a@.published && final(a)@.active == a@.active
            },
{
}

/// How many live transactions read at `ts`.
pub open spec fn reading_at(active: Seq<Multiset<u64>>, ts: u64) -> nat
    decreases active.len(),
{
    if active.len() == 0 {
        0
    } else {
        reading_at(active.drop_last(), ts) + active.last().count(ts)
    }
}

proof fn lemma_reading_at(active: Seq<Multiset<u64>>, i: int, m: Multiset<u64>, ts: u64)
    requires
        0 <= i < active.len(),
    ensures
        reading_at(active.update(i, m), ts) == reading_at(active, ts) - active[i].count(ts)
            + m.count(ts),
    decreases active.len(),
{
    let changed = active.update(i, m);
    if i == active.len() - 1 {
        assert(changed.drop_last() =~= active.drop_last());
    } else {
        lemma_reading_at(active.drop_last(), i, m, ts);
        assert(changed.drop_last() =~= active.drop_last().update(i, m));
    }
}

/// A transaction reads as of the watermark, and is counted from then on, at that time
/// and at no other.
pub proof fn law_snapshots_are_counted(id: TxnId)
    ensures
        forall|o: &mut Oracle, ts: Timestamp| #[trigger]
            call_ensures(Oracle::begin_snapshot, (o, id), ts) && o.wf() ==> {
                &&& ts.0 == o@.watermark
                &&& forall|s: u64|
                    #![trigger reading_at(final(o)@.active, s)]
                    reading_at(final(o)@.active, s) == reading_at(o@.active, s) + if s == ts.0 {
                        1int
                    } else {
                        0
                    }
                &&& total(final(o)@.active) == total(o@.active) + 1
                &&& final(o)@.next == o@.next && final(o)@.watermark == o@.watermark
                &&& final(o)@.published == o@.published && final(o)@.issued == o@.issued
            },
{
    assert forall|o: &mut Oracle, ts: Timestamp| #[trigger]
        call_ensures(Oracle::begin_snapshot, (o, id), ts) && o.wf() implies {
        &&& ts.0 == o@.watermark
        &&& forall|s: u64|
            #![trigger reading_at(final(o)@.active, s)]
            reading_at(final(o)@.active, s) == reading_at(o@.active, s) + if s == ts.0 {
                1int
            } else {
                0
            }
        &&& total(final(o)@.active) == total(o@.active) + 1
        &&& final(o)@.next == o@.next && final(o)@.watermark == o@.watermark
        &&& final(o)@.published == o@.published && final(o)@.issued == o@.issued
    } by {
        let i = shard_of(id.0);
        let m = o@.active[i].insert(ts.0);
        lemma_total_update(o@.active, i, m);
        assert forall|s: u64|
            #![trigger reading_at(final(o)@.active, s)]
            reading_at(final(o)@.active, s) == reading_at(o@.active, s) + if s == ts.0 {
                1int
            } else {
                0
            } by {
            lemma_reading_at(o@.active, i, m, s);
        }
    }
}

/// The watermark moves over every commit that is installed and stops before the first
/// that is not. It never moves back, and a commit is installing until it is published.
pub proof fn law_the_watermark_stops_at_the_first_hole(ts: Timestamp)
    ensures
        forall|o: &mut Oracle| #[trigger]
            call_ensures(Oracle::publish, (o, ts), ()) && o.wf() && o@.watermark < ts.0 < o@.next
                && !o@.published.contains(ts.0) ==> {
                let w = final(o)@.watermark;
                &&& o@.watermark <= w
                &&& forall|t: u64|
                    #![trigger o@.published.contains(t)]
                    o@.watermark < t <= w ==> t == ts.0 || o@.published.contains(t)
                &&& w + 1 < o@.next ==> w + 1 != ts.0 && !o@.published.contains((w + 1) as u64)
                &&& forall|t: u64|
                    #![trigger final(o)@.published.contains(t)]
                    final(o)@.published.contains(t) <==> w < t && (t == ts.0
                        || o@.published.contains(t))
                &&& final(o)@.next == o@.next && final(o)@.issued == o@.issued
                &&& final(o)@.active == o@.active
            },
        forall|o: &mut Oracle, t: Timestamp| #[trigger]
            call_ensures(Oracle::begin_commit, (o,), t) && o.wf() && o@.next < FOREVER && o@.next
                - o@.watermark < RING ==> {
                &&& t.0 == o@.next
                &&& final(o)@.next == o@.next + 1
                &&& final(o)@.watermark == o@.watermark && final(o)@.published == o@.published
                &&& final(o)@.issued == o@.issued && final(o)@.active == o@.active
            },
        forall|o: Oracle, t: Timestamp| #[trigger]
            call_ensures(Oracle::statement_snapshot, (&o,), t) ==> t.0 == o@.watermark,
{
    assert forall|o: &mut Oracle| #[trigger]
        call_ensures(Oracle::publish, (o, ts), ()) && o.wf() && o@.watermark < ts.0 < o@.next
            && !o@.published.contains(ts.0) implies {
        let w = final(o)@.watermark;
        &&& o@.watermark <= w
        &&& forall|t: u64|
            #![trigger o@.published.contains(t)]
            o@.watermark < t <= w ==> t == ts.0 || o@.published.contains(t)
        &&& w + 1 < o@.next ==> w + 1 != ts.0 && !o@.published.contains((w + 1) as u64)
        &&& forall|t: u64|
            #![trigger final(o)@.published.contains(t)]
            final(o)@.published.contains(t) <==> w < t && (t == ts.0 || o@.published.contains(t))
        &&& final(o)@.next == o@.next && final(o)@.issued == o@.issued
        &&& final(o)@.active == o@.active
    } by {
        o.lemma_wf();
        assert(o@.installing(ts.0));
        let w = final(o)@.watermark;
        let all = o@.published.insert(ts.0);
        assert forall|t: u64|
            #![trigger o@.published.contains(t)]
            o@.watermark < t <= w implies t == ts.0 || o@.published.contains(t) by {
            assert(all.contains(t));
        }
        if w + 1 < o@.next {
            let next = (w + 1) as u64;
            assert(!final(o)@.published.contains(next));
            assert(all.contains(next) <==> next == ts.0 || o@.published.contains(next));
        }
    }
}

/// The reclamation watermark is the oldest time at which anyone reads, or the read
/// watermark if nobody does.
pub proof fn law_reclamation_waits_for_the_oldest_snapshot(o: Oracle)
    requires
        o.wf(),
    ensures
        forall|ts: Timestamp| #[trigger]
            call_ensures(Oracle::gc_watermark, (&o,), ts) ==> {
                &&& forall|i: int, s: u64|
                    0 <= i < o@.active.len() && #[trigger] o@.active[i].count(s) > 0 ==> ts.0 <= s
                &&& ts.0 == o@.watermark || exists|i: int|
                    0 <= i < o@.active.len() && #[trigger] o@.active[i].count(ts.0) > 0
                &&& (exists|i: int, s: u64|
                    0 <= i < o@.active.len() && #[trigger] o@.active[i].count(s) > 0) ==> exists|
                    i: int,
                |
                    0 <= i < o@.active.len() && #[trigger] o@.active[i].count(ts.0) > 0
            },
{
    o.lemma_wf();
    assert forall|i: int, s: u64|
        0 <= i < o@.active.len() && #[trigger] o@.active[i].count(s) > 0 implies o@.is_active(
        s,
    ) by {
        assert(o@.active[i].contains(s));
    }
    assert forall|s: u64| #[trigger] o@.is_active(s) implies exists|i: int|
        0 <= i < o@.active.len() && #[trigger] o@.active[i].count(s) > 0 by {
        let i = choose|i: int| 0 <= i < o@.active.len() && #[trigger] o@.active[i].contains(s);
        assert(o@.active[i].count(s) > 0);
    }
}

/// Letting a snapshot go uncounts one transaction that reads at that time, if there is
/// one, and no other.
pub proof fn law_snapshots_are_let_go_one_by_one(id: TxnId, ts: Timestamp)
    ensures
        forall|o: &mut Oracle| #[trigger]
            call_ensures(Oracle::release_snapshot, (o, id, ts), ()) && o.wf() ==> {
                let there = o@.active[(id.0 % 16) as int].count(ts.0) > 0;
                &&& forall|s: u64|
                    #![trigger reading_at(final(o)@.active, s)]
                    reading_at(final(o)@.active, s) == reading_at(o@.active, s) - if s == ts.0
                        && there {
                        1int
                    } else {
                        0
                    }
                &&& final(o)@.next == o@.next && final(o)@.watermark == o@.watermark
                &&& final(o)@.published == o@.published && final(o)@.issued == o@.issued
            },
{
    assert forall|o: &mut Oracle| #[trigger]
        call_ensures(Oracle::release_snapshot, (o, id, ts), ()) && o.wf() implies {
        let there = o@.active[(id.0 % 16) as int].count(ts.0) > 0;
        &&& forall|s: u64|
            #![trigger reading_at(final(o)@.active, s)]
            reading_at(final(o)@.active, s) == reading_at(o@.active, s) - if s == ts.0 && there {
                1int
            } else {
                0
            }
        &&& final(o)@.next == o@.next && final(o)@.watermark == o@.watermark
        &&& final(o)@.published == o@.published && final(o)@.issued == o@.issued
    } by {
        let i = shard_of(id.0);
        let m = o@.active[i].remove(ts.0);
        assert forall|s: u64|
            #![trigger reading_at(final(o)@.active, s)]
            reading_at(final(o)@.active, s) == reading_at(o@.active, s) - if s == ts.0
                && o@.active[i].count(ts.0) > 0 {
                1int
            } else {
                0
            } by {
            lemma_reading_at(o@.active, i, m, s);
        }
    }
}

} // verus!
