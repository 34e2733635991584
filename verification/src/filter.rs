//! Conditions a scan puts on the records it returns.

use vstd::prelude::*;

use crate::order::{lemma_lex_asymmetric, lex_le, lex_lt, relate, Relation};
use crate::schema::{Encodable, IndexKey};
use crate::versioned::Versioned;

verus! {

/// One end of a range.
pub enum Bound<K> {
    Included(K),
    Excluded(K),
    Unbounded,
}

impl<K: Encodable> Bound<K> {
    /// The same end over encoded keys.
    pub fn encode(&self) -> (b: Bound<IndexKey>)
        ensures
            match (*self, b) {
                (Bound::Included(k), Bound::Included(e)) => e@ == k.encoded(),
                (Bound::Excluded(k), Bound::Excluded(e)) => e@ == k.encoded(),
                (Bound::Unbounded, Bound::Unbounded) => true,
                _ => false,
            },
    {
        match self {
            Bound::Included(k) => Bound::Included(k.encode()),
            Bound::Excluded(k) => Bound::Excluded(k.encode()),
            Bound::Unbounded => Bound::Unbounded,
        }
    }
}

/// Whether `key` is not below the lower end `lo`.
pub open spec fn above(lo: Bound<IndexKey>, key: Seq<u8>) -> bool {
    match lo {
        Bound::Included(b) => lex_le(b@, key),
        Bound::Excluded(b) => lex_lt(b@, key),
        Bound::Unbounded => true,
    }
}

/// Whether `key` is not above the upper end `hi`.
pub open spec fn below(hi: Bound<IndexKey>, key: Seq<u8>) -> bool {
    match hi {
        Bound::Included(b) => lex_le(key, b@),
        Bound::Excluded(b) => lex_lt(key, b@),
        Bound::Unbounded => true,
    }
}

/// Whether `key` lies between the two ends.
pub open spec fn in_range(lo: Bound<IndexKey>, hi: Bound<IndexKey>, key: Seq<u8>) -> bool {
    above(lo, key) && below(hi, key)
}

impl Bound<IndexKey> {
    /// Whether `key` is not below this lower end.
    pub fn admits_from(&self, key: &IndexKey) -> (r: bool)
        ensures
            r == above(*self, key@),
    {
        match self {
            Bound::Included(b) => match relate(&b.0, &key.0) {
                Relation::Greater => {
                    proof {
                        lemma_lex_asymmetric(key@, b@);
                    }
                    false
                },
                _ => true,
            },
            Bound::Excluded(b) => match relate(&b.0, &key.0) {
                Relation::Less => true,
                Relation::Equal => {
                    proof {
                        crate::order::lemma_lex_irreflexive(key@);
                    }
                    false
                },
                Relation::Greater => {
                    proof {
                        lemma_lex_asymmetric(key@, b@);
                    }
                    false
                },
            },
            Bound::Unbounded => true,
        }
    }

    /// Whether `key` is not above this upper end.
    pub fn admits_to(&self, key: &IndexKey) -> (r: bool)
        ensures
            r == below(*self, key@),
    {
        match self {
            Bound::Included(b) => match relate(&key.0, &b.0) {
                Relation::Greater => {
                    proof {
                        lemma_lex_asymmetric(b@, key@);
                    }
                    false
                },
                _ => true,
            },
            Bound::Excluded(b) => match relate(&key.0, &b.0) {
                Relation::Less => true,
                Relation::Equal => {
                    proof {
                        crate::order::lemma_lex_irreflexive(key@);
                    }
                    false
                },
                Relation::Greater => {
                    proof {
                        lemma_lex_asymmetric(b@, key@);
                    }
                    false
                },
            },
            Bound::Unbounded => true,
        }
    }
}

/// What a scan asks for.
pub enum Filter<P> {
    /// Every record.
    All,
    /// The records that satisfy a predicate.
    Where(P),
    /// The records whose key in the index at `position` lies in a range.
    Range { position: usize, lo: Bound<IndexKey>, hi: Bound<IndexKey> },
}

/// Whether `record` passes `filter`.
pub open spec fn passes<T: Versioned>(filter: Filter<T::Predicate>, record: T) -> bool {
    match filter {
        Filter::All => true,
        Filter::Where(p) => record.spec_satisfies(&p),
        Filter::Range { position, lo, hi } => in_range(
            lo,
            hi,
            record.spec_index_key(position as int),
        ),
    }
}

/// Evaluate `filter` on `record`.
pub fn check_filter<T: Versioned>(filter: &Filter<T::Predicate>, record: &T) -> (r: bool)
    ensures
        r == passes(*filter, *record),
{
    match filter {
        Filter::All => true,
        Filter::Where(p) => record.satisfies(p),
        Filter::Range { position, lo, hi } => {
            let key = record.index_key(*position);
            lo.admits_from(&key) && hi.admits_to(&key)
        },
    }
}

} // verus!
