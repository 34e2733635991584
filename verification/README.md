# mvcc

Multi-version concurrency control for ordinary Rust structs: transactions,
isolation levels and unique constraints over records held in memory. The engine
is written and proved in Verus; every executable function of `src/` carries a
contract that says what it returns and what it changes.

## Layout

| where | what |
| --- | --- |
| `src/time.rs`, `src/order.rs`, `src/schema.rs`, `src/hash.rs` | timestamps and ids, byte order, order-preserving keys, the hash of a key |
| `src/isolation.rs`, `src/tracker.rs` | the isolation levels as types, and what each keeps of a read |
| `src/oracle.rs` | commit timestamps, snapshots, and the two watermarks |
| `src/slot.rs`, `src/slotmap.rs`, `src/ordered.rs`, `src/table.rs`, `src/filter.rs` | version chains, the map from keys to chains, tables with their indexes, filters |
| `src/ssi.rs` | conflict flags and read locks of serializable transactions |
| `src/state.rs` | the database as a mathematical value, and every operation as a function on it |
| `src/database.rs`, `src/database/` | the executable database and its transactions, proved against `state.rs` |
| `src/chain.rs`, `src/integrity.rs`, `src/claims.rs`, `src/keep.rs` | what holds of every chain, table and state, and that each operation keeps it |
| `src/laws.rs` | what the engine promises as a whole |
| `src/history.rs`, `src/execution.rs` | histories of commits, and that those of serializable transactions have a serial order |
| `src/retry.rs`, `src/attempt.rs` | when a failed transaction is run again, and what a run of attempts leaves behind |
| `src/attribute.rs`, `src/derive.rs` | what the attributes of a record declaration mean |
| `app/` | the engine for several threads, and the derive macro's tokens |

## How it works

Nothing is overwritten, and no reader waits for a transaction that is writing. An
update installs a new version in front of the old one; a version is visible to a
snapshot that lies between the timestamp it began at and the one it was replaced
at. The levels differ only in which snapshot they read at and in what they check.

- `ReadCommitted` takes a fresh snapshot per statement.
- `RepeatableRead` and `Snapshot` keep one snapshot, and the first committer wins.
- `Serializable` also records what it read. At commit a transaction whose reads
  have changed, and whose writes somebody else has read, is refused. A statement
  that finds nothing to write, or is refused, has read the record it was about.

`src/execution.rs` proves that the transactions that committed are serializable:
all that wrote something, and all others but these. A transaction that wrote
nothing is never refused, so one that missed a commit which had itself missed
another may see an order that nobody else does.

Unique indexes are checked against the committed database at every level. That a
key of one is taken can therefore tell of a commit that the snapshot does not
have.

A transaction names the database in each of its calls. `app/` puts the database
behind a lock and gives transactions a reference to it, so that threads can share
it and dropping a transaction rolls it back. Statements take the lock one at a
time; what a caller does between two of them, and the closure of an update, runs
without it.

## Declaring records

A record type implements `Versioned`. In Verus it also says, in specification
functions, what its methods return; a type declared in ordinary Rust writes the
methods alone.
