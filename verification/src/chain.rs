//! What the operations on a slot do to what readers see of it.

use std::sync::Arc;

use vstd::prelude::*;

use crate::slot::{
    committed_or_own, current, dead, lemma_dead, lemma_newest_index, lemma_newest_is, lemma_settled,
    lemma_settled_is, live_value, newest, newest_index, only_a_tombstone, pruned, read_at,
    rolled_back, settled, stamped, visible, Slot, SlotView, Version,
};
use crate::table::installed;
use crate::time::{behind, is_in_flight, tag, Timestamp, TxnId, FOREVER, IN_FLIGHT, NOBODY};

verus! {

/// The writer of a slot reads its own newest version, at every snapshot.
pub proof fn lemma_read_own<T>(slot: SlotView<T>, s: u64, r: u64)
    requires
        slot.ok(),
        slot.lock == r,
        r != 0,
        s < FOREVER,
    ensures
        slot.chain.len() > 0,
        read_at(slot.chain, s, r) == Some(slot.chain.last()),
{
    lemma_settled(slot.chain);
    lemma_newest_is(
        slot.chain,
        |v: Version<T>| visible(v, s, r),
        slot.chain.len() - 1,
    );
}

/// Everyone but its writer reads a slot as if the writer were not there.
pub proof fn lemma_read_other<T>(slot: SlotView<T>, s: u64, r: u64)
    requires
        slot.ok(),
        slot.lock != r || r == 0,
    ensures
        read_at(slot.chain, s, r) == read_at(rolled_back(slot.chain), s, NOBODY),
        read_at(rolled_back(slot.chain), s, r) == read_at(rolled_back(slot.chain), s, NOBODY),
{
    let n = settled(slot.chain);
    lemma_settled(slot.chain);
    let base = rolled_back(slot.chain);
    let p = |v: Version<T>| visible(v, s, r);
    let q = |v: Version<T>| visible(v, s, NOBODY);
    lemma_newest_index(base, q);
    let i = newest_index(base, q);
    assert forall|j: int| 0 <= j < n implies p(#[trigger] slot.chain[j]) == q(base[j]) by {
        assert(base[j] == slot.chain[j]);
    }
    assert forall|j: int| i < j < slot.chain.len() implies !p(#[trigger] slot.chain[j]) by {
        if j < n {
            assert(base[j] == slot.chain[j]);
        } else {
            assert(slot.chain[j].begin == tag(slot.lock));
        }
    }
    if i >= 0 {
        assert(base[i] == slot.chain[i]);
    }
    lemma_newest_is(slot.chain, p, i);
    assert forall|j: int| i < j < base.len() implies !p(#[trigger] base[j]) by {
        assert(base[j] == slot.chain[j]);
    }
    lemma_newest_is(base, p, i);
}

/// What stands in a slot for `r`: the newest version for its writer, the newest
/// committed one for everyone else.
pub proof fn lemma_current<T>(slot: SlotView<T>, r: u64)
    requires
        slot.ok(),
    ensures
        slot.lock == r && r != 0 ==> slot.chain.len() > 0 && current(slot.chain, r) == Some(
            slot.chain.last(),
        ),
        slot.lock != r || r == 0 ==> current(slot.chain, r) == (if settled(slot.chain) == 0 {
            None
        } else {
            Some(slot.chain[settled(slot.chain) - 1])
        }),
{
    lemma_settled(slot.chain);
    let p = |v: Version<T>| committed_or_own(v, r);
    if slot.lock == r && r != 0 {
        lemma_newest_is(slot.chain, p, slot.chain.len() - 1);
    } else {
        lemma_newest_is(slot.chain, p, settled(slot.chain) - 1);
    }
}

/// Of a chain in order, the newest committed version is what a snapshot at or
/// after every commit reads.
pub proof fn lemma_read_latest<T>(slot: SlotView<T>, now: u64, s: u64)
    requires
        slot.ok_by(now),
        now <= s < FOREVER,
    ensures
        read_at(slot.chain, s, NOBODY) == current(slot.chain, NOBODY),
{
    lemma_settled(slot.chain);
    lemma_current(slot, NOBODY);
    lemma_newest_is(
        slot.chain,
        |v: Version<T>| visible(v, s, NOBODY),
        settled(slot.chain) - 1,
    );
}

/// A version put on top keeps the chain in order.
pub proof fn lemma_installed<T>(
    slot: SlotView<T>,
    id: u64,
    value: Option<Arc<T>>,
    writer: Option<TxnId>,
    now: u64,
)
    requires
        slot.ok_by(now),
        slot.lock == 0 || slot.lock == id,
        0 < id < IN_FLIGHT,
    ensures
        installed(slot, id, value, writer).ok_by(now),
        settled(installed(slot, id, value, writer).chain) == settled(slot.chain),
        rolled_back(installed(slot, id, value, writer).chain) == rolled_back(slot.chain),
{
    let after = installed(slot, id, value, writer);
    lemma_settled(slot.chain);
    assert forall|i: int| settled(slot.chain) <= i < after.chain.len() implies is_in_flight(
        (#[trigger] after.chain[i]).begin,
    ) by {
        if i < slot.chain.len() {
            assert(after.chain[i] == slot.chain[i]);
        }
    }
    if settled(slot.chain) > 0 {
        assert(after.chain[settled(slot.chain) - 1] == slot.chain[settled(slot.chain) - 1]);
    }
    lemma_settled_is(after.chain, settled(slot.chain));
    assert(rolled_back(after.chain) =~= rolled_back(slot.chain));
    let n = settled(slot.chain);
    assert forall|i: int|
        #![trigger after.chain[i + 1]]
        0 <= i && i + 1 < n implies after.chain[i].end == after.chain[i + 1].begin by {
        assert(slot.chain[i + 1] == after.chain[i + 1]);
    }
}

/// Taking the versions in flight off keeps the chain in order.
pub proof fn lemma_aborted<T>(slot: SlotView<T>, now: u64)
    requires
        slot.ok_by(now),
    ensures
        slot.aborted().ok_by(now),
        settled(slot.aborted().chain) == settled(slot.chain),
        slot.aborted().chain.len() == settled(slot.chain),
{
    let after = slot.aborted();
    lemma_settled(slot.chain);
    let n = settled(slot.chain);
    lemma_settled_is(after.chain, n);
    assert forall|i: int|
        #![trigger after.chain[i + 1]]
        0 <= i && i + 1 < n implies after.chain[i].end == after.chain[i + 1].begin by {
        assert(slot.chain[i + 1] == after.chain[i + 1]);
    }
}

/// A committed chain is in order, and nothing in it is in flight.
pub proof fn lemma_stamped<T>(slot: SlotView<T>, id: u64, ts: u64, now: u64)
    requires
        slot.ok_by(now),
        slot.lock == id,
        0 < id,
        now < ts < FOREVER,
    ensures
        ({
            let after = SlotView {
                chain: stamped(slot.chain, id, ts),
                lock: 0,
                readers: slot.readers,
            };
            &&& after.ok_by(ts)
            &&& settled(after.chain) == after.chain.len()
            &&& after.chain.len() > 0
            &&& after.chain.last().value == slot.chain.last().value
            &&& after.chain.last().begin == ts
        }),
{
    let after = SlotView { chain: stamped(slot.chain, id, ts), lock: 0, readers: slot.readers };
    lemma_settled(slot.chain);
    let n = settled(slot.chain);
    let m = slot.chain.len();
    assert forall|i: int| 0 <= i < m implies !is_in_flight((#[trigger] after.chain[i]).begin)
        && after.chain[i].begin <= ts && 0 < after.chain[i].begin && (i >= n ==> after.chain[i].begin
        == ts) && (i < n ==> after.chain[i].begin == slot.chain[i].begin) by {
        if i < n {
            assert(slot.chain[i].begin <= now);
        }
    }
    assert forall|i: int| 0 <= i < m - 1 implies (#[trigger] after.chain[i]).end == (if i + 1 < n {
        slot.chain[i].end
    } else {
        ts
    }) by {
        let x = slot.chain[i + 1];
        if i + 1 < n {
            assert(x.begin <= now);
        } else {
            assert(x.begin == tag(id));
        }
    }
    lemma_settled_is(after.chain, m);
    assert forall|i: int, j: int|
        #![trigger after.chain[i], after.chain[j]]
        0 <= i < j < m implies after.chain[i].begin <= after.chain[i].end && after.chain[i].end
        <= after.chain[j].begin by {
        if i + 1 < n {
            let y = slot.chain[i + 1];
            assert(slot.chain[i].begin <= slot.chain[i].end);
            if j < n {
                assert(slot.chain[i].end <= slot.chain[j].begin);
            } else {
                assert(slot.chain[i].end <= slot.chain[i + 1].begin);
            }
        } else {
            assert(j >= n);
        }
    }
    assert forall|i: int|
        #![trigger after.chain[i + 1]]
        0 <= i && i + 1 < m implies after.chain[i].end == after.chain[i + 1].begin by {
        if i + 1 < n {
            assert(slot.chain[i].end == slot.chain[i + 1].begin);
        }
    }
    let last = after.chain[m - 1];
    assert(last.end == FOREVER);
}

/// Before its commit time, a commit changes nothing for anyone but its author.
pub proof fn lemma_read_stamped_before<T>(slot: SlotView<T>, id: u64, ts: u64, s: u64, now: u64)
    requires
        slot.ok_by(now),
        slot.lock == id,
        0 < id,
        now < ts < FOREVER,
        s < ts,
    ensures
        same_record(
            read_at(stamped(slot.chain, id, ts), s, NOBODY),
            read_at(slot.chain, s, NOBODY),
        ),
{
    lemma_settled(slot.chain);
    let after = stamped(slot.chain, id, ts);
    let n = settled(slot.chain);
    let q = |v: Version<T>| visible(v, s, NOBODY);
    lemma_newest_index(slot.chain, q);
    let i = newest_index(slot.chain, q);
    assert forall|j: int| 0 <= j < after.len() implies q(#[trigger] after[j]) == q(
        slot.chain[j],
    ) by {
        if j < n {
            assert(slot.chain[j].begin <= now);
            if j + 1 < n {
                assert(slot.chain[j + 1].begin <= now);
            } else if j + 1 < after.len() {
                assert(slot.chain[j + 1].begin == tag(id));
            }
        } else {
            assert(slot.chain[j].begin == tag(id));
        }
    }
    lemma_newest_is(after, q, i);
}

/// From its commit time on, everyone sees a commit's newest version.
pub proof fn lemma_read_stamped_after<T>(slot: SlotView<T>, id: u64, ts: u64, s: u64, now: u64)
    requires
        slot.ok_by(now),
        slot.lock == id,
        0 < id,
        now < ts <= s < FOREVER,
    ensures
        slot.chain.len() > 0,
        read_at(stamped(slot.chain, id, ts), s, NOBODY) == Some(
            Version { begin: ts, end: FOREVER, ..slot.chain.last() },
        ),
{
    lemma_stamped(slot, id, ts, now);
    let after = stamped(slot.chain, id, ts);
    lemma_settled(slot.chain);
    let x = slot.chain[slot.chain.len() - 1];
    lemma_newest_is(after, |v: Version<T>| visible(v, s, NOBODY), after.len() - 1);
}

/// The same version, but for when it ends.
pub open spec fn same_record<T>(a: Option<Version<T>>, b: Option<Version<T>>) -> bool {
    match (a, b) {
        (Some(a), Some(b)) => a.begin == b.begin && a.value == b.value && a.writer == b.writer,
        (None, None) => true,
        _ => false,
    }
}

/// Pruning keeps the chain in order.
pub proof fn lemma_pruned<T>(slot: SlotView<T>, w: u64, now: u64)
    requires
        slot.ok_by(now),
        slot.lock == 0,
        w < FOREVER,
    ensures
        (SlotView { chain: pruned(slot.chain, w), ..slot }).ok_by(now),
        live_value(current(pruned(slot.chain, w), NOBODY)) == live_value(
            current(slot.chain, NOBODY),
        ),
        settled(pruned(slot.chain, w)) == pruned(slot.chain, w).len(),
{
    lemma_settled(slot.chain);
    lemma_dead(slot.chain, w);
    let d = dead(slot.chain, w) as int;
    let m = slot.chain.len() as int;
    let rest = slot.chain.skip(d);
    let after = SlotView { chain: pruned(slot.chain, w), ..slot };
    if m > 0 {
        assert(slot.chain[m - 1].end == FOREVER);
        assert(d < m) by {
            if d == m {
                assert(slot.chain[m - 1].end <= w);
            }
        }
    }
    lemma_settled_is(rest, rest.len());
    lemma_settled_is(after.chain, after.chain.len());
    assert forall|i: int| 0 <= i < after.chain.len() implies #[trigger] after.chain[i]
        == slot.chain[i + d] by {}
    assert forall|i: int|
        #![trigger after.chain[i + 1]]
        0 <= i && i + 1 < after.chain.len() implies after.chain[i].end
        == after.chain[i + 1].begin by {
        assert(slot.chain[(i + d) + 1] == after.chain[i + 1]);
        assert(after.chain[i] == slot.chain[i + d]);
    }
    assert(after.ok_by(now));
    lemma_current(slot, NOBODY);
    lemma_current(after, NOBODY);
    if m > 0 {
        assert(rest.last() == slot.chain.last());
    }
}

/// Pruning at `w` changes nothing for a snapshot at or above `w`, but that what
/// was a tombstone may be gone.
pub proof fn lemma_read_pruned<T>(slot: SlotView<T>, w: u64, s: u64)
    requires
        slot.ok(),
        slot.lock == 0,
        w <= s < FOREVER,
    ensures
        live_value(read_at(pruned(slot.chain, w), s, NOBODY)) == live_value(
            read_at(slot.chain, s, NOBODY),
        ),
        read_at(pruned(slot.chain, w), s, NOBODY) == read_at(slot.chain, s, NOBODY) || (read_at(
            pruned(slot.chain, w),
            s,
            NOBODY,
        ) is None && live_value(read_at(slot.chain, s, NOBODY)) is None),
{
    lemma_settled(slot.chain);
    lemma_dead(slot.chain, w);
    let d = dead(slot.chain, w) as int;
    let rest = slot.chain.skip(d);
    let q = |v: Version<T>| visible(v, s, NOBODY);
    lemma_newest_index(slot.chain, q);
    let i = newest_index(slot.chain, q);
    if i >= 0 && i < d {
        assert(slot.chain[i].end <= w);
        assert(false);
    }
    assert forall|j: int| 0 <= j < rest.len() implies #[trigger] rest[j] == slot.chain[j + d] by {}
    let k = if i >= d {
        i - d
    } else {
        -1
    };
    lemma_newest_is(rest, q, k);
    if only_a_tombstone(rest, w) {
        lemma_newest_is(pruned(slot.chain, w), q, -1);
    }
}

/// What a commit wrote is what stands there right after it, pruned and swept or
/// not.
pub proof fn lemma_commit_shows<T>(slot: SlotView<T>, id: u64, ts: u64, w1: u64, w2: u64, now: u64)
    requires
        slot.ok_by(now),
        slot.lock == id,
        0 < id,
        now < ts < FOREVER,
        w1 < ts,
        w2 < ts,
    ensures
        ({
            let after = slot.committed(id, ts, w1);
            let v = read_at(after.chain, ts, NOBODY);
            let w = read_at(after.swept(w2).chain, ts, NOBODY);
            &&& v is Some && v->Some_0.begin == ts && v->Some_0.value == slot.chain.last().value
            &&& v->Some_0.writer == slot.chain.last().writer
            &&& w == v
        }),
{
    let mid = SlotView { chain: stamped(slot.chain, id, ts), lock: 0, readers: slot.readers };
    let after = slot.committed(id, ts, w1);
    lemma_stamped(slot, id, ts, now);
    lemma_read_stamped_after(slot, id, ts, ts, now);
    lemma_pruned(mid, w1, ts);
    lemma_recent_survives(mid, w1, ts);
    lemma_recent_survives(after, w2, ts);
}

/// Pruning leaves what was committed after the watermark.
pub proof fn lemma_recent_survives<T>(slot: SlotView<T>, w: u64, s: u64)
    requires
        slot.ok(),
        slot.lock == 0,
        w <= s < FOREVER,
        read_at(slot.chain, s, NOBODY) is Some,
        read_at(slot.chain, s, NOBODY)->Some_0.begin > w,
    ensures
        read_at(pruned(slot.chain, w), s, NOBODY) == read_at(slot.chain, s, NOBODY),
{
    let q = |v: Version<T>| visible(v, s, NOBODY);
    lemma_newest_index(slot.chain, q);
    let i = newest_index(slot.chain, q);
    let d = dead(slot.chain, w) as int;
    lemma_dead(slot.chain, w);
    lemma_settled(slot.chain);
    let rest = slot.chain.skip(d);
    assert(i >= d) by {
        if i < d {
            assert(slot.chain[i].end <= w);
        }
    }
    assert forall|j: int| 0 <= j < rest.len() implies #[trigger] rest[j] == slot.chain[j + d] by {}
    if only_a_tombstone(rest, w) {
        assert(rest[0] == slot.chain[i]);
    }
    lemma_newest_is(rest, q, i - d);
}

/// Whether `reader` sees `v` at `snapshot`: it has begun there and has not ended.
pub open spec fn stands_at<T>(v: Version<T>, snapshot: u64, reader: u64) -> bool {
    behind(v.begin, snapshot, reader) && !behind(v.end, snapshot, reader)
}

/// Whether `found` is what stands at the newest place in `chain` that `p` picks.
pub open spec fn picked<T>(
    chain: Seq<Version<T>>,
    p: spec_fn(Version<T>) -> bool,
    found: Option<&Version<T>>,
) -> bool {
    match found {
        Some(v) => exists|i: int|
            #![trigger chain[i]]
            0 <= i < chain.len() && chain[i] == *v && p(chain[i]) && forall|j: int|
                i < j < chain.len() ==> !p(#[trigger] chain[j]),
        None => forall|i: int| 0 <= i < chain.len() ==> !p(#[trigger] chain[i]),
    }
}

proof fn lemma_picked<T>(
    chain: Seq<Version<T>>,
    p: spec_fn(Version<T>) -> bool,
    q: spec_fn(Version<T>) -> bool,
    found: Option<&Version<T>>,
)
    requires
        forall|v: Version<T>| #[trigger] p(v) == q(v),
        match found {
            Some(v) => newest(chain, p) == Some(*v),
            None => newest(chain, p) is None,
        },
    ensures
        picked(chain, q, found),
{
    lemma_newest_index(chain, p);
    let i = newest_index(chain, p);
    if found is Some {
        assert(chain[i] == *found->Some_0);
        assert forall|j: int| i < j < chain.len() implies !q(#[trigger] chain[j]) by {
            assert(!p(chain[j]));
        }
    } else {
        assert forall|j: int| 0 <= j < chain.len() implies !q(#[trigger] chain[j]) by {
            assert(!p(chain[j]));
        }
    }
}

/// A read finds the newest version that has begun for the reader and not ended:
/// one committed at or before its snapshot, or its own. Without one it finds
/// nothing.
pub proof fn law_reads_find_the_newest_version<T>(slot: Slot<T>, snapshot: Timestamp, reader: TxnId)
    ensures
        forall|v: Option<&Version<T>>| #[trigger]
            call_ensures(Slot::<T>::read, (&slot, snapshot, reader), v) ==> picked(
                slot.chain@,
                |x: Version<T>| stands_at(x, snapshot.0, reader.0),
                v,
            ),
        forall|r: (Option<&Version<T>>, Option<&Version<T>>)| #[trigger]
            call_ensures(Slot::<T>::read_pair, (&slot, snapshot, reader), r) && slot@.ok() ==> {
                &&& picked(
                    slot.chain@,
                    |x: Version<T>| stands_at(x, snapshot.0, reader.0),
                    r.0,
                )
                &&& picked(slot.chain@, |x: Version<T>| stands_at(x, snapshot.0, 0), r.1)
            },
        forall|x: Version<T>, r: bool| #[trigger]
            call_ensures(Version::<T>::visible_to, (&x, snapshot, reader), r) ==> r == stands_at(
                x,
                snapshot.0,
                reader.0,
            ),
{
    let p = |x: Version<T>| visible(x, snapshot.0, reader.0);
    let q = |x: Version<T>| stands_at(x, snapshot.0, reader.0);
    let p0 = |x: Version<T>| visible(x, snapshot.0, NOBODY);
    let q0 = |x: Version<T>| stands_at(x, snapshot.0, 0);
    assert forall|v: Option<&Version<T>>| #[trigger]
        call_ensures(Slot::<T>::read, (&slot, snapshot, reader), v) implies picked(
        slot.chain@,
        q,
        v,
    ) by {
        lemma_picked(slot.chain@, p, q, v);
    }
    assert forall|r: (Option<&Version<T>>, Option<&Version<T>>)| #[trigger]
        call_ensures(Slot::<T>::read_pair, (&slot, snapshot, reader), r) && slot@.ok() implies {
        &&& picked(slot.chain@, q, r.0)
        &&& picked(slot.chain@, q0, r.1)
    } by {
        lemma_picked(slot.chain@, p, q, r.0);
        lemma_picked(slot.chain@, p0, q0, r.1);
    }
}

/// What stands in the database now is the newest version that is committed, at
/// whatever time, or the reader's own.
pub proof fn law_constraints_look_at_what_is_committed_now<T>(slot: Slot<T>, reader: TxnId)
    ensures
        forall|v: Option<&Version<T>>| #[trigger]
            call_ensures(Slot::<T>::read_committed_now, (&slot, reader), v) ==> picked(
                slot.chain@,
                |x: Version<T>|
                    x.begin < 0x8000_0000_0000_0000 || x.begin - 0x8000_0000_0000_0000 == reader.0,
                v,
            ),
{
    assert forall|v: Option<&Version<T>>| #[trigger]
        call_ensures(Slot::<T>::read_committed_now, (&slot, reader), v) implies picked(
        slot.chain@,
        |x: Version<T>|
            x.begin < 0x8000_0000_0000_0000 || x.begin - 0x8000_0000_0000_0000 == reader.0,
        v,
    ) by {
        lemma_picked(
            slot.chain@,
            |x: Version<T>| committed_or_own(x, reader.0),
            |x: Version<T>|
                x.begin < 0x8000_0000_0000_0000 || x.begin - 0x8000_0000_0000_0000 == reader.0,
            v,
        );
    }
}

/// A commit dates the writer's versions, ends each version one of them replaces
/// at that date, and changes nothing else. An abort takes the writer's versions
/// off again. Either way the slot is free for others.
pub proof fn law_slots_commit_or_forget<T>(txn: TxnId, ts: Timestamp)
    requires
        0 < txn.0 < 0x8000_0000_0000_0000,
    ensures
        forall|slot: &mut Slot<T>| #[trigger]
            call_ensures(Slot::<T>::commit, (slot, txn, ts), ()) && slot@.ok() && slot.lock
                == txn.0 ==> {
                let word = txn.0 + 0x8000_0000_0000_0000;
                &&& final(slot).lock == 0
                &&& final(slot).readers == slot.readers
                &&& final(slot).chain@.len() == slot.chain@.len()
                &&& forall|i: int|
                    #![trigger slot.chain@[i]]
                    #![trigger final(slot).chain@[i]]
                    0 <= i < slot.chain@.len() ==> {
                        let was = slot.chain@[i];
                        let now = final(slot).chain@[i];
                        &&& now.value == was.value
                        &&& now.writer == was.writer
                        &&& now.begin == if was.begin == word {
                            ts.0
                        } else {
                            was.begin
                        }
                        &&& now.end == if i + 1 < slot.chain@.len() && slot.chain@[i + 1].begin
                            == word {
                            ts.0
                        } else {
                            was.end
                        }
                    }
            },
        forall|slot: &mut Slot<T>| #[trigger]
            call_ensures(Slot::<T>::abort, (slot, txn), ()) && slot@.ok() && slot.lock == txn.0
                ==> {
                let word = txn.0 + 0x8000_0000_0000_0000;
                let n = final(slot).chain@.len();
                &&& final(slot).lock == 0
                &&& final(slot).readers == slot.readers
                &&& n <= slot.chain@.len()
                &&& final(slot).chain@ == slot.chain@.take(n as int)
                &&& forall|i: int|
                    #![trigger slot.chain@[i]]
                    0 <= i < slot.chain@.len() ==> (slot.chain@[i].begin == word <==> n <= i)
            },
{
    assert forall|slot: &mut Slot<T>| #[trigger]
        call_ensures(Slot::<T>::abort, (slot, txn), ()) && slot@.ok() && slot.lock
            == txn.0 implies {
        let word = txn.0 + 0x8000_0000_0000_0000;
        let n = final(slot).chain@.len();
        &&& final(slot).lock == 0
        &&& final(slot).readers == slot.readers
        &&& n <= slot.chain@.len()
        &&& final(slot).chain@ == slot.chain@.take(n as int)
        &&& forall|i: int|
            #![trigger slot.chain@[i]]
            0 <= i < slot.chain@.len() ==> (slot.chain@[i].begin == word <==> n <= i)
    } by {
        lemma_settled(slot@.chain);
    }
}

/// Pruning removes exactly what no snapshot from `watermark` on can see: the
/// versions that ended by then, and a deletion with nothing behind it. Asking
/// first tells whether there is anything to remove.
pub proof fn law_pruning_removes_what_nobody_can_see<T>(watermark: Timestamp)
    requires
        watermark.0 < FOREVER,
    ensures
        forall|slot: &mut Slot<T>| #[trigger]
            call_ensures(Slot::<T>::prune, (slot, watermark), ()) && slot@.ok() && slot.lock == 0
                ==> {
                let d = slot.chain@.len() - final(slot).chain@.len();
                &&& final(slot).lock == 0
                &&& final(slot).readers == slot.readers
                &&& d >= 0
                &&& final(slot).chain@ == slot.chain@.skip(d)
                &&& forall|i: int|
                    #![trigger slot.chain@[i]]
                    0 <= i < slot.chain@.len() ==> {
                        let v = slot.chain@[i];
                        i < d <==> v.end <= watermark.0 || (i == slot.chain@.len() - 1
                            && v.value is None && v.begin <= watermark.0)
                    }
            },
        forall|slot: Slot<T>, r: bool| #[trigger]
            call_ensures(Slot::<T>::needs_prune, (&slot, watermark), r) && slot@.ok() && slot.lock
                == 0 ==> (r <==> exists|i: int|
                #![trigger slot.chain@[i]]
                0 <= i < slot.chain@.len() && (slot.chain@[i].end <= watermark.0 || (i
                    == slot.chain@.len() - 1 && slot.chain@[i].value is None
                    && slot.chain@[i].begin <= watermark.0))),
{
    assert forall|slot: &mut Slot<T>| #[trigger]
        call_ensures(Slot::<T>::prune, (slot, watermark), ()) && slot@.ok() && slot.lock
            == 0 implies {
        let d = slot.chain@.len() - final(slot).chain@.len();
        &&& final(slot).lock == 0
        &&& final(slot).readers == slot.readers
        &&& d >= 0
        &&& final(slot).chain@ == slot.chain@.skip(d)
        &&& forall|i: int|
            #![trigger slot.chain@[i]]
            0 <= i < slot.chain@.len() ==> {
                let v = slot.chain@[i];
                i < d <==> v.end <= watermark.0 || (i == slot.chain@.len() - 1 && v.value is None
                    && v.begin <= watermark.0)
            }
    } by {
        lemma_removed(slot@, watermark.0);
        let d = slot.chain@.len() - pruned(slot@.chain, watermark.0).len();
        assert(final(slot).chain@ =~= slot.chain@.skip(d));
    }
    assert forall|slot: Slot<T>, r: bool| #[trigger]
        call_ensures(Slot::<T>::needs_prune, (&slot, watermark), r) && slot@.ok() && slot.lock
            == 0 implies (r <==> exists|i: int|
        #![trigger slot.chain@[i]]
        0 <= i < slot.chain@.len() && (slot.chain@[i].end <= watermark.0 || (i
            == slot.chain@.len() - 1 && slot.chain@[i].value is None && slot.chain@[i].begin
            <= watermark.0))) by {
        lemma_removed(slot@, watermark.0);
        let d = slot.chain@.len() - pruned(slot@.chain, watermark.0).len();
        if d > 0 {
            assert(slot.chain@[0] == slot@.chain[0]);
        } else {
            assert(pruned(slot@.chain, watermark.0) =~= slot@.chain);
        }
    }
}

/// What pruning keeps of a chain nobody is writing.
pub proof fn lemma_removed<T>(slot: SlotView<T>, w: u64)
    requires
        slot.ok(),
        slot.lock == 0,
        w < FOREVER,
    ensures
        ({
            let d = slot.chain.len() - pruned(slot.chain, w).len();
            &&& 0 <= d <= slot.chain.len()
            &&& pruned(slot.chain, w) == slot.chain.skip(d)
            &&& forall|i: int|
                #![trigger slot.chain[i]]
                0 <= i < slot.chain.len() ==> (i < d <==> slot.chain[i].end <= w || (i
                    == slot.chain.len() - 1 && slot.chain[i].value is None && slot.chain[i].begin
                    <= w))
        }),
{
    lemma_settled(slot.chain);
    lemma_dead(slot.chain, w);
    let d = dead(slot.chain, w) as int;
    let m = slot.chain.len() as int;
    let live = slot.chain.skip(d);
    if m > 0 {
        assert(slot.chain[m - 1].end == FOREVER);
        assert(d < m);
        assert(live.last() == slot.chain[m - 1]);
        if slot.chain[m - 1].value is None && slot.chain[m - 1].begin <= w && d < m - 1 {
            assert(slot.chain[d].end <= slot.chain[m - 1].begin);
        }
        assert forall|i: int| d <= i < m - 1 implies #[trigger] slot.chain[i].end > w by {
            if i > d {
                assert(slot.chain[d].end <= slot.chain[i].begin);
            }
        }
    }
    let gone = m - pruned(slot.chain, w).len();
    assert(pruned(slot.chain, w) =~= slot.chain.skip(gone));
}

} // verus!
