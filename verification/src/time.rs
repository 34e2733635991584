//! Logical time: transaction ids, commit timestamps, and the tagged word that
//! holds either of them.
//!
//! A version carries two such words, the moments at which it begins and ends.
//! While its author is still running, `begin` names the author; once the author
//! has committed, it holds the commit timestamp. The high bit tells the two
//! apart:
//!
//! ```text
//!   0b0_xxxx…xxx   committed, the value is a commit timestamp
//!   0b1_xxxx…xxx   in flight, the low 63 bits are the writing transaction's id
//! ```

use vstd::prelude::*;

verus! {

/// Marks a word as holding the id of a transaction that is still running.
pub const IN_FLIGHT: u64 = 0x8000_0000_0000_0000;

/// The bits of a word below the tag.
pub const ID_MASK: u64 = 0x7fff_ffff_ffff_ffff;

/// The largest timestamp, later than every possible commit.
pub const FOREVER: u64 = 0x7fff_ffff_ffff_ffff;

/// A point on the logical commit timeline.
///
/// Snapshots are taken as a single `Timestamp`; a version is visible to a
/// snapshot `s` if `begin <= s < end`.
#[derive(Clone, Copy, PartialEq, Eq, PartialOrd, Ord, Hash, Debug, Structural)]
pub struct Timestamp(pub u64);

impl Timestamp {
    /// Before every possible commit.
    pub fn zero() -> (t: Timestamp)
        ensures
            t.0 == 0,
    {
        Timestamp(0)
    }

    /// After every possible commit. The `end` of a version nothing has replaced.
    pub fn max_value() -> (t: Timestamp)
        ensures
            t.0 == FOREVER,
    {
        Timestamp(FOREVER)
    }

    pub fn raw(self) -> (r: u64)
        ensures
            r == self.0,
    {
        self.0
    }
}

/// The raw id that belongs to no transaction.
pub const NOBODY: u64 = 0;

/// Identifies a running transaction.
#[derive(Clone, Copy, PartialEq, Eq, PartialOrd, Ord, Hash, Debug, Structural)]
pub struct TxnId(pub u64);

/// The word that stands for "being written by transaction `id`".
pub open spec fn tag(id: u64) -> u64 {
    if id < IN_FLIGHT {
        (id + IN_FLIGHT) as u64
    } else {
        id
    }
}

/// Whether a word names a running transaction rather than a commit.
pub open spec fn is_in_flight(raw: u64) -> bool {
    raw >= IN_FLIGHT
}

impl TxnId {
    /// The id that belongs to no transaction.
    ///
    /// Reading with it makes every in-flight version invisible, including the
    /// reader's own. Commit-time read validation wants exactly that: it
    /// compares against what other transactions have committed, never against
    /// uncommitted writes of its own. The oracle never hands out `0`.
    pub fn none() -> (id: TxnId)
        ensures
            id.0 == NOBODY,
    {
        TxnId(NOBODY)
    }

    /// Encode this id into the tagged form stored in a version's `begin` field
    /// while the transaction is still in flight.
    pub fn tagged(self) -> (r: u64)
        ensures
            r == tag(self.0),
            is_in_flight(r),
    {
        let id = self.0;
        assert(id | 0x8000_0000_0000_0000u64 == if id < 0x8000_0000_0000_0000u64 {
            (id + 0x8000_0000_0000_0000u64) as u64
        } else {
            id
        }) by (bit_vector);
        id | IN_FLIGHT
    }
}

/// Decoded form of a version's tagged `begin` or `end` field.
#[derive(Clone, Copy, PartialEq, Eq, Debug, Structural)]
pub enum Visibility {
    /// The version was committed at this timestamp.
    CommittedAt(Timestamp),
    /// The version is still being written by this transaction. Only that
    /// transaction may read it; everyone else follows the chain to the version
    /// before it.
    InFlight(TxnId),
}

/// What a tagged word means.
pub open spec fn decoded(raw: u64) -> Visibility {
    if is_in_flight(raw) {
        Visibility::InFlight(TxnId((raw - IN_FLIGHT) as u64))
    } else {
        Visibility::CommittedAt(Timestamp(raw))
    }
}

/// Whether a reader at `snapshot` belonging to transaction `reader` counts the
/// moment in `raw` as already passed.
pub open spec fn passed(raw: u64, snapshot: u64, reader: u64) -> bool {
    if is_in_flight(raw) {
        raw - IN_FLIGHT == reader
    } else {
        raw <= snapshot
    }
}

impl Visibility {
    /// Decode a raw tagged field read out of a version.
    pub fn decode(raw: u64) -> (v: Visibility)
        ensures
            v == decoded(raw),
    {
        assert((raw & 0x8000_0000_0000_0000u64 != 0) == (raw >= 0x8000_0000_0000_0000u64))
            by (bit_vector);
        assert(raw >= 0x8000_0000_0000_0000u64 ==> raw & 0x7fff_ffff_ffff_ffffu64 == raw
            - 0x8000_0000_0000_0000u64) by (bit_vector);
        if raw & IN_FLIGHT != 0 {
            Visibility::InFlight(TxnId(raw & ID_MASK))
        } else {
            Visibility::CommittedAt(Timestamp(raw))
        }
    }

    /// Whether a reader at `snapshot` belonging to transaction `reader` should
    /// treat this endpoint as already passed.
    ///
    /// This is the single visibility predicate of the engine: a version is
    /// visible when its `begin` has been reached and its `end` has not. The
    /// isolation levels differ only in which snapshot they pass in.
    pub fn reached(self, snapshot: Timestamp, reader: TxnId) -> (r: bool)
        ensures
            r == match self {
                Visibility::CommittedAt(ts) => ts.0 <= snapshot.0,
                Visibility::InFlight(id) => id == reader,
            },
            forall|raw: u64| self == decoded(raw) ==> r == #[trigger] passed(
                raw,
                snapshot.0,
                reader.0,
            ),
    {
        match self {
            Visibility::CommittedAt(ts) => ts.0 <= snapshot.0,
            Visibility::InFlight(id) => id.0 == reader.0,
        }
    }
}

/// A tagged transaction id decodes to that transaction, in flight.
pub proof fn law_tagged_ids_round_trip(id: u64)
    requires
        id < IN_FLIGHT,
    ensures
        decoded(tag(id)) == Visibility::InFlight(TxnId(id)),
{
}

/// A commit timestamp decodes to itself, and [`FOREVER`] is one.
pub proof fn law_timestamps_round_trip(ts: u64)
    requires
        ts <= FOREVER,
    ensures
        decoded(ts) == Visibility::CommittedAt(Timestamp(ts)),
{
}

/// No in-flight word equals a committed one: whatever their values, a running
/// transaction's id and a commit timestamp are never mistaken for each other.
pub proof fn law_ids_and_timestamps_never_collide(id: u64, ts: u64)
    requires
        ts <= FOREVER,
    ensures
        tag(id) != ts,
{
}

/// An uncommitted version is visible to its author at every snapshot, and to
/// nobody else at any.
pub proof fn law_own_writes_are_visible_to_their_author(id: u64, snapshot: u64, reader: u64)
    requires
        id < IN_FLIGHT,
    ensures
        passed(tag(id), snapshot, reader) <==> reader == id,
{
}

/// Whether a reader at `snapshot`, or `reader` itself, has the moment in `word`
/// behind it: a commit at or before the snapshot, or a write of its own.
pub open spec fn behind(word: u64, snapshot: u64, reader: u64) -> bool {
    if word < 0x8000_0000_0000_0000 {
        word <= snapshot
    } else {
        word - 0x8000_0000_0000_0000 == reader
    }
}

/// The high bit of a word tells a running transaction's id from a commit
/// timestamp, and the other bits are that id or that timestamp.
pub proof fn law_words_hold_an_id_or_a_timestamp(word: u64, id: u64)
    ensures
        forall|v: Visibility| #[trigger]
            call_ensures(Visibility::decode, (word,), v) ==> match v {
                Visibility::CommittedAt(ts) => word < 0x8000_0000_0000_0000 && ts.0 == word,
                Visibility::InFlight(id) => id.0 + 0x8000_0000_0000_0000 == word,
            },
        forall|r: u64| #[trigger]
            call_ensures(TxnId::tagged, (TxnId(id),), r) && id < 0x8000_0000_0000_0000 ==> r == id
                + 0x8000_0000_0000_0000,
{
}

/// A reader has a moment behind it when it is a commit at or before its snapshot
/// or a write of its own.
pub proof fn law_moments_pass(word: u64, snapshot: Timestamp, reader: TxnId)
    ensures
        forall|v: Visibility, r: bool|
            call_ensures(Visibility::decode, (word,), v) && #[trigger] call_ensures(
                Visibility::reached,
                (v, snapshot, reader),
                r,
            ) ==> r == behind(word, snapshot.0, reader.0),
{
}

/// Every commit is later than zero and earlier than the largest timestamp, and no
/// transaction has the id that belongs to nobody.
pub proof fn law_the_timeline_has_ends()
    ensures
        forall|t: Timestamp| #[trigger] call_ensures(Timestamp::zero, (), t) ==> t.0 == 0,
        forall|t: Timestamp| #[trigger]
            call_ensures(Timestamp::max_value, (), t) ==> t.0 == 0x7fff_ffff_ffff_ffff,
        forall|id: TxnId| #[trigger] call_ensures(TxnId::none, (), id) ==> id.0 == 0,
{
}

} // verus!
