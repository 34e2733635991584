//! Multi-version concurrency control for ordinary Rust structs, verified.
//!
//! A [`Database`] keeps records in memory, in versions. A [`Transaction`] reads
//! them as of a snapshot and writes new versions, which others see once it has
//! committed. The isolation level is a type parameter: see [`isolation`].
//!
//! What an operation does is said twice. [`state`] has the database as a
//! mathematical value and each operation as a function on it, and the contracts
//! in [`database`] say that the executable operations are these functions.
//! [`laws`] and [`execution`] say what holds of them together.
//!
//! What can be relied on is said once more, of the calls themselves and without those
//! functions: [`promises`] of reading, [`writing`] of writing, [`refusals`] of what
//! cannot start, [`outcomes`] and [`aftermath`] of how a transaction begins and ends,
//! [`upkeep`] of the database around it, and [`declarations`] of how a table is
//! declared. There a record is no more than its versions, and who is writing it.

pub mod aftermath;
pub mod attempt;
pub mod attribute;
pub mod chain;
pub mod claims;
pub mod config;
pub mod database;
pub mod declarations;
pub mod derive;
pub mod error;
pub mod execution;
pub mod filter;
pub mod gc;
pub mod hash;
pub mod history;
pub mod integrity;
pub mod isolation;
pub mod keep;
pub mod laws;
pub mod oracle;
pub mod order;
pub mod ordered;
pub mod outcomes;
pub mod promises;
pub mod refusals;
pub mod retry;
pub mod schema;
pub mod slot;
pub mod slotmap;
pub mod ssi;
pub mod state;
pub mod stats;
pub mod table;
pub mod time;
pub mod tracker;
pub mod upkeep;
pub mod versioned;
pub mod writing;

pub use crate::database::transaction::{Ref, Transaction};
pub use crate::database::{Config, Database};
pub use crate::error::{Error, Result};
pub use crate::isolation::{IsolationLevel, ReadCommitted, RepeatableRead, Serializable, Snapshot};
pub use crate::schema::Index;
pub use crate::time::{Timestamp, TxnId};
pub use crate::versioned::Versioned;
