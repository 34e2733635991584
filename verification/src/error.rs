//! Errors surfaced to user code.

use vstd::prelude::*;
use vstd::string::*;

verus! {

/// Everything an engine operation can fail with.
///
/// The split that matters is [`Error::is_retriable`]: a write conflict and a
/// serialization failure report that two transactions could not both happen,
/// and re-running is the correct response. The rest are programming mistakes
/// that will fail again identically.
#[derive(Debug)]
#[non_exhaustive]
pub enum Error {
    /// Another transaction wrote this record, or claimed this unique key,
    /// first. Retriable: re-run the transaction.
    WriteConflict {
        /// The table whose record was contended.
        table: &'static str,
    },
    /// Committing would not have been serializable. Retriable, and expected
    /// under contention.
    SerializationFailure,
    /// A unique index, or the primary key, already holds this value.
    DuplicateKey {
        /// The table the value would have been written to.
        table: &'static str,
        /// The index that already holds it, or the primary key.
        index: &'static str,
    },
    /// The transaction is finished and can no longer be used.
    Aborted,
    /// The table was never registered.
    TableNotRegistered {
        /// The unregistered table's name.
        table: &'static str,
    },
    /// An update tried to change the primary key. Delete and re-insert instead.
    PrimaryKeyChanged {
        /// The table whose primary key the update tried to change.
        table: &'static str,
    },
}

/// `Result` with this crate's [`Error`].
pub type Result<T> = core::result::Result<T, Error>;

impl Error {
    pub open spec fn retriable(self) -> bool {
        self is WriteConflict || self is SerializationFailure
    }

    /// The text of [`Error::message`].
    pub open spec fn text(self) -> Seq<char> {
        match self {
            Error::WriteConflict { table } => "write-write conflict on table `"@ + table@ + "`"@,
            Error::SerializationFailure =>
                "could not serialize access due to read/write dependencies"@,
            Error::DuplicateKey { table, index } => "duplicate key on `"@ + table@ + "`.`"@ + index@
                + "`"@,
            Error::Aborted => "transaction is aborted"@,
            Error::TableNotRegistered { table } => "`"@ + table@
                + "` was not registered: call `db.register::<"@ + table@ + ">()` at startup"@,
            Error::PrimaryKeyChanged { table } =>
                "an update may not change the primary key of `"@ + table@
                + "`; delete and insert instead"@,
        }
    }

    /// Whether re-running the transaction from the top is a reasonable
    /// response.
    pub fn is_retriable(&self) -> (r: bool)
        ensures
            r == self.retriable(),
    {
        matches!(self, Error::WriteConflict { .. } | Error::SerializationFailure)
    }

    /// A one-line description for people.
    pub fn message(&self) -> (m: String)
        ensures
            m@ == self.text(),
    {
        match self {
            Error::WriteConflict { table } => {
                let mut m = "write-write conflict on table `".to_owned();
                m.append(table);
                m.append("`");
                m
            },
            Error::SerializationFailure => {
                "could not serialize access due to read/write dependencies".to_owned()
            },
            Error::DuplicateKey { table, index } => {
                let mut m = "duplicate key on `".to_owned();
                m.append(table);
                m.append("`.`");
                m.append(index);
                m.append("`");
                m
            },
            Error::Aborted => "transaction is aborted".to_owned(),
            Error::TableNotRegistered { table } => {
                let mut m = "`".to_owned();
                m.append(table);
                m.append("` was not registered: call `db.register::<");
                m.append(table);
                m.append(">()` at startup");
                m
            },
            Error::PrimaryKeyChanged { table } => {
                let mut m = "an update may not change the primary key of `".to_owned();
                m.append(table);
                m.append("`; delete and insert instead");
                m
            },
        }
    }
}

/// Running a transaction again is worth it after a conflict with another one,
/// and after nothing else.
pub proof fn law_conflicts_are_worth_another_try(e: Error)
    ensures
        forall|r: bool| #[trigger]
            call_ensures(Error::is_retriable, (&e,), r) ==> r == match e {
                Error::WriteConflict { .. } | Error::SerializationFailure => true,
                Error::DuplicateKey { .. }
                | Error::Aborted
                | Error::TableNotRegistered { .. }
                | Error::PrimaryKeyChanged { .. } => false,
            },
{
}

/// A message names the table it is about, and the index.
pub proof fn law_messages_say_what_went_wrong(e: Error)
    ensures
        forall|m: String| #[trigger]
            call_ensures(Error::message, (&e,), m) ==> m@ == match e {
                Error::WriteConflict { table } => "write-write conflict on table `"@ + table@
                    + "`"@,
                Error::SerializationFailure =>
                    "could not serialize access due to read/write dependencies"@,
                Error::DuplicateKey { table, index } => "duplicate key on `"@ + table@ + "`.`"@
                    + index@ + "`"@,
                Error::Aborted => "transaction is aborted"@,
                Error::TableNotRegistered { table } => "`"@ + table@
                    + "` was not registered: call `db.register::<"@ + table@ + ">()` at startup"@,
                Error::PrimaryKeyChanged { table } =>
                    "an update may not change the primary key of `"@ + table@
                    + "`; delete and insert instead"@,
            },
{
}

} // verus!
