//! Versions and the chains they form.
//!
//! Each record is a [`Slot`] with a chain of versions. An update adds a version
//! at the newest end and leaves the older ones in place, so a reader picks the
//! version that was current at its snapshot, whatever has been written since.

use std::sync::Arc;

use vstd::prelude::*;

use crate::ssi::{expired, Readers, TxnState};
use crate::time::{
    is_in_flight, passed, tag, Timestamp, TxnId, Visibility, FOREVER, IN_FLIGHT, NOBODY,
};

verus! {

/// One version of a record.
///
/// `value` is `None` for a tombstone: a delete installs a version like any other
/// write, so that a reader at an older snapshot still finds the record alive
/// behind it.
pub struct Version<T> {
    /// When the version became visible, or who is still writing it.
    pub begin: u64,
    /// When a successor replaced it.
    pub end: u64,
    pub value: Option<Arc<T>>,
    /// The serializable transaction that wrote this version, if it was one.
    pub writer: Option<TxnId>,
}

/// Whether `v` is part of what `reader` sees at `snapshot`.
pub open spec fn visible<T>(v: Version<T>, snapshot: u64, reader: u64) -> bool {
    passed(v.begin, snapshot, reader) && !passed(v.end, snapshot, reader)
}

/// Whether `v` is committed, at whatever time, or written by `reader` itself.
pub open spec fn committed_or_own<T>(v: Version<T>, reader: u64) -> bool {
    !is_in_flight(v.begin) || v.begin - IN_FLIGHT == reader
}

/// The position of the newest version that satisfies `p`, or -1.
pub open spec fn newest_index<T>(chain: Seq<Version<T>>, p: spec_fn(Version<T>) -> bool) -> int
    decreases chain.len(),
{
    if chain.len() == 0 {
        -1
    } else if p(chain.last()) {
        chain.len() - 1
    } else {
        newest_index(chain.drop_last(), p)
    }
}

/// The newest version that satisfies `p`.
pub open spec fn newest<T>(chain: Seq<Version<T>>, p: spec_fn(Version<T>) -> bool) -> Option<
    Version<T>,
> {
    let i = newest_index(chain, p);
    if i < 0 {
        None
    } else {
        Some(chain[i])
    }
}

/// The version of the record that `reader` sees at `snapshot`.
pub open spec fn read_at<T>(chain: Seq<Version<T>>, snapshot: u64, reader: u64) -> Option<
    Version<T>,
> {
    newest(chain, |v: Version<T>| visible(v, snapshot, reader))
}

/// The version that stands in the committed database, with `reader`'s own
/// writes on top, at no snapshot in particular.
pub open spec fn current<T>(chain: Seq<Version<T>>, reader: u64) -> Option<Version<T>> {
    newest(chain, |v: Version<T>| committed_or_own(v, reader))
}

/// The record in a version, if there is a version and it is no tombstone.
pub open spec fn live_value<T>(v: Option<Version<T>>) -> Option<T> {
    match v {
        Some(v) => match v.value {
            Some(x) => Some(*x),
            None => None,
        },
        None => None,
    }
}

/// `newest_index` finds a version that satisfies `p` with none newer that does,
/// and there is only one such position.
pub proof fn lemma_newest_index<T>(chain: Seq<Version<T>>, p: spec_fn(Version<T>) -> bool)
    ensures
        -1 <= newest_index(chain, p) < chain.len(),
        newest_index(chain, p) >= 0 ==> p(chain[newest_index(chain, p)]),
        forall|j: int| newest_index(chain, p) < j < chain.len() ==> !p(#[trigger] chain[j]),
    decreases chain.len(),
{
    if chain.len() > 0 && !p(chain.last()) {
        lemma_newest_index(chain.drop_last(), p);
        assert forall|j: int| newest_index(chain, p) < j < chain.len() implies !p(
            #[trigger] chain[j],
        ) by {
            if j < chain.len() - 1 {
                assert(chain.drop_last()[j] == chain[j]);
            }
        }
    }
}

/// The position `newest_index` finds is the only one of its kind.
pub proof fn lemma_newest_is<T>(chain: Seq<Version<T>>, p: spec_fn(Version<T>) -> bool, i: int)
    requires
        -1 <= i < chain.len(),
        i >= 0 ==> p(chain[i]),
        forall|j: int| i < j < chain.len() ==> !p(#[trigger] chain[j]),
    ensures
        newest_index(chain, p) == i,
{
    lemma_newest_index(chain, p);
}

/// How many versions at the old end of the chain are no in-flight ones.
pub open spec fn settled<T>(chain: Seq<Version<T>>) -> nat
    decreases chain.len(),
{
    if chain.len() == 0 {
        0
    } else if is_in_flight(chain.last().begin) {
        settled(chain.drop_last())
    } else {
        chain.len()
    }
}

pub proof fn lemma_settled<T>(chain: Seq<Version<T>>)
    ensures
        settled(chain) <= chain.len(),
        forall|i: int| settled(chain) <= i < chain.len() ==> is_in_flight(
            (#[trigger] chain[i]).begin,
        ),
        settled(chain) > 0 ==> !is_in_flight(chain[settled(chain) - 1].begin),
    decreases chain.len(),
{
    if chain.len() > 0 && is_in_flight(chain.last().begin) {
        lemma_settled(chain.drop_last());
        assert forall|i: int| settled(chain) <= i < chain.len() implies is_in_flight(
            (#[trigger] chain[i]).begin,
        ) by {
            if i < chain.len() - 1 {
                assert(chain.drop_last()[i] == chain[i]);
            }
        }
    }
}

/// A position below which nothing is in flight and above which everything is
/// can only be the settled length.
pub proof fn lemma_settled_is<T>(chain: Seq<Version<T>>, n: nat)
    requires
        n <= chain.len(),
        forall|i: int| n <= i < chain.len() ==> is_in_flight((#[trigger] chain[i]).begin),
        n > 0 ==> !is_in_flight(chain[n - 1].begin),
    ensures
        settled(chain) == n,
{
    lemma_settled(chain);
}

/// The state of a slot as a mathematical value. Versions run from the oldest to
/// the newest.
#[verifier::ext_equal]
pub struct SlotView<T> {
    pub chain: Seq<Version<T>>,
    /// Transaction id currently writing this slot, or 0 if free.
    pub lock: u64,
    /// Serializable transactions that have read this slot.
    pub readers: Set<u64>,
}

/// `v` as it stands once its author `txn` has committed at `ts`, given whether
/// the next newer version is `txn`'s too.
pub open spec fn stamped_version<T>(v: Version<T>, txn: u64, ts: u64, replaced: bool) -> Version<
    T,
> {
    Version {
        begin: if v.begin == tag(txn) {
            ts
        } else {
            v.begin
        },
        end: if replaced {
            ts
        } else {
            v.end
        },
        value: v.value,
        writer: v.writer,
    }
}

/// The chain once `txn` has committed at `ts`: its versions begin at `ts`, and
/// the versions they replace end there.
pub open spec fn stamped<T>(chain: Seq<Version<T>>, txn: u64, ts: u64) -> Seq<Version<T>> {
    Seq::new(
        chain.len(),
        |i: int|
            stamped_version(
                chain[i],
                txn,
                ts,
                i + 1 < chain.len() && chain[i + 1].begin == tag(txn),
            ),
    )
}

/// The chain without the versions that are in flight.
pub open spec fn rolled_back<T>(chain: Seq<Version<T>>) -> Seq<Version<T>> {
    chain.take(settled(chain) as int)
}

/// How many versions at the old end of the chain ended at or before `watermark`.
pub open spec fn dead<T>(chain: Seq<Version<T>>, watermark: u64) -> nat
    decreases chain.len(),
{
    if chain.len() > 0 && chain[0].end <= watermark {
        1 + dead(chain.drop_first(), watermark)
    } else {
        0
    }
}

pub proof fn lemma_dead<T>(chain: Seq<Version<T>>, watermark: u64)
    ensures
        dead(chain, watermark) <= chain.len(),
        forall|i: int|
            0 <= i < dead(chain, watermark) ==> (#[trigger] chain[i]).end <= watermark,
        dead(chain, watermark) < chain.len() ==> chain[dead(chain, watermark) as int].end
            > watermark,
    decreases chain.len(),
{
    if chain.len() > 0 && chain[0].end <= watermark {
        let rest = chain.drop_first();
        lemma_dead(rest, watermark);
        assert forall|i: int| 0 <= i < dead(chain, watermark) implies (
        #[trigger] chain[i]).end <= watermark by {
            if i > 0 {
                assert(rest[i - 1] == chain[i]);
            }
        }
    }
}

/// Whether all that is left of the record is a tombstone no snapshot at or above
/// `watermark` can look behind.
pub open spec fn only_a_tombstone<T>(chain: Seq<Version<T>>, watermark: u64) -> bool {
    chain.len() == 1 && chain[0].value is None && chain[0].begin <= watermark
}

/// The chain without what no snapshot at or above `watermark` can reach.
pub open spec fn pruned<T>(chain: Seq<Version<T>>, watermark: u64) -> Seq<Version<T>> {
    let live = chain.skip(dead(chain, watermark) as int);
    if only_a_tombstone(live, watermark) {
        Seq::empty()
    } else {
        live
    }
}

impl<T> SlotView<T> {
    /// A slot nothing was ever written to or read from.
    pub open spec fn empty() -> Self {
        SlotView { chain: Seq::empty(), lock: 0, readers: Set::empty() }
    }

    /// The committed versions are in commit order, each ending where the next
    /// begins; above them stand only versions of the transaction that holds the
    /// lock.
    pub open spec fn ok(self) -> bool {
        let n = settled(self.chain);
        &&& self.lock < IN_FLIGHT
        &&& self.lock == 0 <==> n == self.chain.len()
        &&& forall|i: int|
            #![trigger self.chain[i]]
            0 <= i < n ==> 0 < self.chain[i].begin < FOREVER && (i == n - 1 ==> self.chain[i].end
                == FOREVER)
        &&& forall|i: int, j: int|
            #![trigger self.chain[i], self.chain[j]]
            0 <= i < j < n ==> self.chain[i].begin <= self.chain[i].end && self.chain[i].end
                <= self.chain[j].begin
        &&& forall|i: int|
            #![trigger self.chain[i + 1]]
            0 <= i && i + 1 < n ==> self.chain[i].end == self.chain[i + 1].begin
        &&& forall|i: int|
            #![trigger self.chain[i]]
            n <= i < self.chain.len() ==> self.chain[i].begin == tag(self.lock)
                && self.chain[i].end == FOREVER
    }

    /// The slot after a sweep at `watermark`, which leaves slots in use alone.
    pub open spec fn swept(self, watermark: u64) -> Self {
        if self.lock == 0 {
            SlotView { chain: pruned(self.chain, watermark), ..self }
        } else {
            self
        }
    }

    /// The slot once its writer `txn` has committed at `ts`, pruned at
    /// `watermark`.
    pub open spec fn committed(self, txn: u64, ts: u64, watermark: u64) -> Self {
        SlotView {
            chain: pruned(stamped(self.chain, txn, ts), watermark),
            lock: 0,
            readers: self.readers,
        }
    }

    /// The slot once its writer has aborted.
    pub open spec fn aborted(self) -> Self {
        SlotView { chain: rolled_back(self.chain), lock: 0, readers: self.readers }
    }

    /// The slot once `txn` has read it.
    pub open spec fn with_reader(self, txn: u64) -> Self {
        SlotView { readers: self.readers.insert(txn), ..self }
    }

    /// The slot without readers that no longer matter.
    pub open spec fn purged(self, states: Map<u64, TxnState>, gc_watermark: u64) -> Self {
        SlotView {
            readers: self.readers.filter(|r: u64| !expired(states, r, gc_watermark)),
            ..self
        }
    }

    /// The slot once empty ones have been given back.
    pub open spec fn compacted(self) -> Self {
        if self.chain.len() == 0 {
            Self::empty()
        } else {
            self
        }
    }

    /// Nothing here is committed after `now`.
    pub open spec fn ok_by(self, now: u64) -> bool {
        &&& self.ok()
        &&& forall|i: int|
            #![trigger self.chain[i]]
            0 <= i < settled(self.chain) ==> self.chain[i].begin <= now
    }
}

/// The stable identity of a logical record.
pub struct Slot<T> {
    /// The versions, oldest first.
    pub chain: Vec<Version<T>>,
    /// Transaction id currently writing this slot, or 0 if free.
    pub lock: u64,
    /// Read locks: serializable transactions that have read this slot and may
    /// still conflict with a future writer.
    pub readers: Readers,
}

impl<T> View for Slot<T> {
    type V = SlotView<T>;

    open spec fn view(&self) -> SlotView<T> {
        SlotView { chain: self.chain@, lock: self.lock, readers: self.readers@ }
    }
}

impl<T> Version<T> {
    /// Whether this version is the one visible at `snapshot` to `reader`.
    pub fn visible_to(&self, snapshot: Timestamp, reader: TxnId) -> (r: bool)
        ensures
            r == visible(*self, snapshot.0, reader.0),
    {
        let begin = Visibility::decode(self.begin);
        let end = Visibility::decode(self.end);
        begin.reached(snapshot, reader) && !end.reached(snapshot, reader)
    }

    /// A version that shares this one's value.
    pub fn share(&self) -> (v: Version<T>)
        ensures
            v == *self,
    {
        Version {
            begin: self.begin,
            end: self.end,
            value: match &self.value {
                Some(x) => Some(x.clone()),
                None => None,
            },
            writer: self.writer,
        }
    }
}

impl<T> Slot<T> {
    pub open spec fn wf(&self) -> bool {
        self.readers.wf()
    }

    pub fn new() -> (s: Self)
        ensures
            s.wf(),
            s@ == SlotView::<T>::empty(),
    {
        let s = Slot { chain: Vec::new(), lock: 0, readers: Readers::new() };
        assert(s@ =~= SlotView::<T>::empty());
        s
    }

    /// Walk the chain for the version visible at `snapshot`.
    pub fn read(&self, snapshot: Timestamp, reader: TxnId) -> (v: Option<&Version<T>>)
        ensures
            match v {
                Some(v) => read_at(self@.chain, snapshot.0, reader.0) == Some(*v),
                None => read_at(self@.chain, snapshot.0, reader.0) is None,
            },
    {
        let ghost p = |v: Version<T>| visible(v, snapshot.0, reader.0);
        let mut i: usize = self.chain.len();
        while i > 0
            invariant
                i <= self.chain@.len(),
                p == (|v: Version<T>| visible(v, snapshot.0, reader.0)),
                forall|j: int| i <= j < self.chain@.len() ==> !p(#[trigger] self.chain@[j]),
            decreases i,
        {
            if self.chain[i - 1].visible_to(snapshot, reader) {
                proof {
                    lemma_newest_is(self.chain@, p, i - 1);
                }
                return Some(&self.chain[i - 1]);
            }
            i = i - 1;
        }
        proof {
            lemma_newest_is(self.chain@, p, -1);
        }
        None
    }

    /// The versions visible at `snapshot` to `reader` and to nobody, from a
    /// single descent.
    ///
    /// A serializable scan needs both: the first is what the caller gets back,
    /// the second goes into the read set, so that a transaction's own
    /// uncommitted writes stay out of it. One walk suffices because the second
    /// answer can only sit at or below the first: the two disagree only about
    /// versions `reader` wrote, and those are the newest.
    pub fn read_pair(&self, snapshot: Timestamp, reader: TxnId) -> (r: (
        Option<&Version<T>>,
        Option<&Version<T>>,
    ))
        requires
            self@.ok(),
        ensures
            match r.0 {
                Some(v) => read_at(self@.chain, snapshot.0, reader.0) == Some(*v),
                None => read_at(self@.chain, snapshot.0, reader.0) is None,
            },
            match r.1 {
                Some(v) => read_at(self@.chain, snapshot.0, NOBODY) == Some(*v),
                None => read_at(self@.chain, snapshot.0, NOBODY) is None,
            },
    {
        let ghost p = |v: Version<T>| visible(v, snapshot.0, reader.0);
        let ghost q = |v: Version<T>| visible(v, snapshot.0, NOBODY);
        let mut seen: Option<usize> = None;
        let mut i: usize = self.chain.len();
        while i > 0
            invariant
                i <= self.chain@.len(),
                self@.ok(),
                p == (|v: Version<T>| visible(v, snapshot.0, reader.0)),
                q == (|v: Version<T>| visible(v, snapshot.0, NOBODY)),
                match seen {
                    Some(k) => i <= k < self.chain@.len() && newest_index(self.chain@, p) == k,
                    None => forall|j: int|
                        i <= j < self.chain@.len() ==> !p(#[trigger] self.chain@[j]),
                },
                forall|j: int| i <= j < self.chain@.len() ==> !q(#[trigger] self.chain@[j]),
            decreases i,
        {
            if seen.is_none() && self.chain[i - 1].visible_to(snapshot, reader) {
                proof {
                    lemma_newest_is(self.chain@, p, i - 1);
                }
                seen = Some(i - 1);
            }
            if self.chain[i - 1].visible_to(snapshot, TxnId::none()) {
                proof {
                    lemma_settled(self.chain@);
                    lemma_newest_is(self.chain@, q, i - 1);
                    assert(p(self.chain@[i - 1]));
                }
                return (
                    match seen {
                        Some(k) => Some(&self.chain[k]),
                        None => None,
                    },
                    Some(&self.chain[i - 1]),
                );
            }
            i = i - 1;
        }
        proof {
            lemma_newest_is(self.chain@, q, -1);
            if seen is None {
                lemma_newest_is(self.chain@, p, -1);
            }
        }
        (
            match seen {
                Some(k) => Some(&self.chain[k]),
                None => None,
            },
            None,
        )
    }

    /// The newest version that is committed, or written by `reader` itself, at
    /// no snapshot in particular.
    ///
    /// For unique index enforcement: a constraint is a property of the database,
    /// not of one transaction's view of it, so a row committed after the
    /// caller's snapshot collides all the same.
    pub fn read_committed_now(&self, reader: TxnId) -> (v: Option<&Version<T>>)
        ensures
            match v {
                Some(v) => current(self@.chain, reader.0) == Some(*v),
                None => current(self@.chain, reader.0) is None,
            },
    {
        let ghost p = |v: Version<T>| committed_or_own(v, reader.0);
        let mut i: usize = self.chain.len();
        while i > 0
            invariant
                i <= self.chain@.len(),
                p == (|v: Version<T>| committed_or_own(v, reader.0)),
                forall|j: int| i <= j < self.chain@.len() ==> !p(#[trigger] self.chain@[j]),
            decreases i,
        {
            let take: bool = match Visibility::decode(self.chain[i - 1].begin) {
                Visibility::CommittedAt(_) => true,
                Visibility::InFlight(id) => id.0 == reader.0,
            };
            if take {
                proof {
                    lemma_newest_is(self.chain@, p, i - 1);
                }
                return Some(&self.chain[i - 1]);
            }
            i = i - 1;
        }
        proof {
            lemma_newest_is(self.chain@, p, -1);
        }
        None
    }

    /// Take the write lock, first updater wins.
    ///
    /// Returns `false` if another transaction holds it. The caller fails rather
    /// than waits: waiting would bring deadlocks back.
    pub fn try_lock(&mut self, txn: TxnId) -> (r: bool)
        ensures
            r == (old(self)@.lock == 0 || old(self)@.lock == txn.0),
            *final(self) == (if r {
                Slot { lock: txn.0, ..*old(self) }
            } else {
                *old(self)
            }),
    {
        if self.lock == 0 {
            self.lock = txn.0;
            true
        } else {
            self.lock == txn.0
        }
    }

    /// Release the lock if `txn` holds it.
    pub fn unlock(&mut self, txn: TxnId)
        ensures
            *final(self) == (if old(self)@.lock == txn.0 {
                Slot { lock: 0, ..*old(self) }
            } else {
                *old(self)
            }),
    {
        if self.lock == txn.0 {
            self.lock = 0;
        }
    }

    /// Add a version on top of the chain.
    pub fn install(&mut self, version: Version<T>)
        ensures
            final(self)@ == (SlotView { chain: old(self)@.chain.push(version), ..old(self)@ }),
            final(self).readers == old(self).readers,
    {
        self.chain.push(version);
        assert(self@ =~= (SlotView { chain: old(self)@.chain.push(version), ..old(self)@ }));
    }

    /// Make `txn`'s versions visible from `ts` on, end the one they replace
    /// there, and release the lock.
    pub fn commit(&mut self, txn: TxnId, ts: Timestamp)
        requires
            old(self)@.ok(),
            old(self)@.lock == txn.0,
            txn.0 != 0,
        ensures
            final(self)@ == (SlotView {
                chain: stamped(old(self)@.chain, txn.0, ts.0),
                lock: 0,
                readers: old(self)@.readers,
            }),
            final(self).readers == old(self).readers,
    {
        let word: u64 = txn.tagged();
        let ghost before = self.chain@;
        let ghost after = stamped(before, txn.0, ts.0);
        proof {
            lemma_settled(before);
        }
        let mut i: usize = self.chain.len();
        while i > 0 && self.chain[i - 1].begin == word
            invariant
                i <= self.chain@.len() == before.len(),
                word == tag(txn.0),
                after == stamped(before, txn.0, ts.0),
                forall|j: int| i <= j < before.len() ==> before[j].begin == word,
                forall|j: int|
                    i <= j < before.len() ==> #[trigger] self.chain@[j] == after[j],
                forall|j: int| 0 <= j < i - 1 ==> #[trigger] self.chain@[j] == before[j],
                i > 0 ==> self.chain@[i - 1] == stamped_version(
                    before[i - 1],
                    NOBODY,
                    ts.0,
                    i < before.len(),
                ) || before[i - 1].begin == tag(NOBODY),
                forall|j: int| 0 <= j < before.len() ==> before[j].begin != tag(NOBODY),
                self.lock == old(self).lock,
                self.readers == old(self).readers,
            decreases i,
        {
            self.chain[i - 1].begin = ts.0;
            if i > 1 {
                self.chain[i - 2].end = ts.0;
            }
            i = i - 1;
        }
        proof {
            assert forall|j: int| 0 <= j < i implies #[trigger] self.chain@[j] == after[j] by {
                assert(before[j].begin != word);
                if j + 1 < before.len() {
                    assert(before[j + 1].begin == word <==> j + 1 >= i);
                }
            }
            assert(self.chain@ =~= after);
        }
        self.unlock(txn);
        assert(self@ =~= (SlotView { chain: after, lock: 0, readers: old(self)@.readers }));
    }

    /// Take `txn`'s versions off the chain and release the lock.
    pub fn abort(&mut self, txn: TxnId)
        requires
            old(self)@.ok(),
            old(self)@.lock == txn.0,
            txn.0 != 0,
        ensures
            final(self)@ == (SlotView {
                chain: rolled_back(old(self)@.chain),
                lock: 0,
                readers: old(self)@.readers,
            }),
            final(self).readers == old(self).readers,
    {
        let word: u64 = txn.tagged();
        let ghost before = self.chain@;
        proof {
            lemma_settled(before);
        }
        let mut n: usize = self.chain.len();
        while n > 0 && self.chain[n - 1].begin == word
            invariant
                n <= self.chain@.len(),
                self.chain@ == before,
                settled(before) <= n,
                settled(before) <= before.len(),
                settled(before) > 0 ==> !is_in_flight(before[settled(before) - 1].begin),
                is_in_flight(word),
            decreases n,
        {
            n = n - 1;
        }
        assert(n == settled(before));
        self.chain.truncate(n);
        assert(self.chain@ =~= rolled_back(before));
        self.unlock(txn);
        assert(self@ =~= (SlotView {
            chain: rolled_back(before),
            lock: 0,
            readers: old(self)@.readers,
        }));
    }

    /// Drop what no snapshot at or above `watermark` can reach.
    ///
    /// Dead versions are always the oldest ones: a version ends where its
    /// successor begins. A record that is deleted for every such snapshot is
    /// emptied, tombstone and all.
    pub fn prune(&mut self, watermark: Timestamp)
        ensures
            final(self)@ == (SlotView {
                chain: pruned(old(self)@.chain, watermark.0),
                ..old(self)@
            }),
            final(self).readers == old(self).readers,
    {
        let ghost before = self.chain@;
        let mut k: usize = 0;
        assert(before.skip(0) =~= before);
        while k < self.chain.len() && self.chain[k].end <= watermark.0
            invariant
                k <= self.chain@.len(),
                self.chain@ == before,
                k + dead(before.skip(k as int), watermark.0) == dead(before, watermark.0),
            decreases self.chain@.len() - k,
        {
            assert(before.skip(k as int).drop_first() =~= before.skip(k + 1));
            k = k + 1;
        }
        if k > 0 {
            let live = self.chain.split_off(k);
            self.chain = live;
        }
        assert(self.chain@ =~= before.skip(dead(before, watermark.0) as int));
        if self.chain.len() == 1 && self.chain[0].value.is_none() && self.chain[0].begin
            <= watermark.0 {
            self.chain.clear();
        }
        assert(self@ =~= (SlotView { chain: pruned(before, watermark.0), ..old(self)@ }));
    }

    /// Whether pruning at `watermark` would remove anything.
    pub fn needs_prune(&self, watermark: Timestamp) -> (r: bool)
        ensures
            r == (pruned(self@.chain, watermark.0) != self@.chain),
    {
        if self.chain.len() == 0 {
            assert(pruned(self@.chain, watermark.0) =~= self@.chain);
            return false;
        }
        if self.chain[0].end <= watermark.0 {
            proof {
                lemma_dead(self@.chain, watermark.0);
                assert(pruned(self@.chain, watermark.0).len() < self@.chain.len());
            }
            return true;
        }
        assert(self@.chain.skip(0) =~= self@.chain);
        self.chain.len() == 1 && self.chain[0].value.is_none() && self.chain[0].begin
            <= watermark.0
    }
}

} // verus!
