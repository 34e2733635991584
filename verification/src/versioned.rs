//! The trait of everything the engine can store.

use vstd::prelude::*;

use crate::schema::{Encodable, IndexKey};

verus! {

/// A record type that the engine can store and version.
///
/// An update copies the record before changing it into a new version, which is
/// what `Clone` is for. Fields are otherwise unconstrained: nothing is
/// serialised.
///
/// A database that holds several kinds of records stores an enum of them, each
/// kind in a table of its own.
///
/// The specification functions say what the methods return. A type declared in
/// Verus gives them bodies, and its methods are held to them. They are left open
/// by default, so that a type declared in ordinary Rust has only the methods to
/// write; its methods must be pure functions of the record.
pub trait Versioned: Sized + Clone {
    /// The primary key type.
    type Key: Encodable;

    /// The conditions this type's records can be filtered by.
    type Predicate;

    /// The encoded primary key.
    open spec fn spec_key(&self) -> Seq<u8> {
        arbitrary()
    }

    /// The encoded key of this record in the index at `position`.
    open spec fn spec_index_key(&self, position: int) -> Seq<u8> {
        arbitrary()
    }

    /// Whether this record satisfies `predicate`.
    open spec fn spec_satisfies(&self, predicate: &Self::Predicate) -> bool {
        arbitrary()
    }

    /// Extract the primary key.
    fn key(&self) -> (k: Self::Key)
        ensures
            k.encoded() == self.spec_key(),
    ;

    /// The primary key in byte order, for the primary index.
    fn key_bytes(&self) -> (k: IndexKey)
        ensures
            k@ == self.spec_key(),
    ;

    /// Project this record to its key in the index at `position`.
    fn index_key(&self, position: usize) -> (k: IndexKey)
        ensures
            k@ == self.spec_index_key(position as int),
    ;

    /// Evaluate `predicate` on this record. It is evaluated more than once, and
    /// on rows no scan returns, so it must be a pure function of the record.
    fn satisfies(&self, predicate: &Self::Predicate) -> (r: bool)
        ensures
            r == self.spec_satisfies(predicate),
    ;
}

} // verus!
