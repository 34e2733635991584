//! Claiming the unique index keys of a record that is about to be written.

use vstd::prelude::*;

use crate::error::Error;
use crate::schema::IndexKey;
use crate::state::unique_conflict;
use crate::table::{Claim, Table, TableView};
use crate::time::TxnId;
use crate::versioned::Versioned;

verus! {

/// The claims in `base` with those that a statement of `id` has acquired.
pub open spec fn claims_with(
    base: Seq<Map<Seq<u8>, u64>>,
    acquired: Seq<(usize, IndexKey)>,
    id: u64,
) -> Seq<Map<Seq<u8>, u64>>
    decreases acquired.len(),
{
    if acquired.len() == 0 {
        base
    } else {
        let before = claims_with(base, acquired.drop_last(), id);
        let (p, ik) = acquired.last();
        before.update(p as int, before[p as int].insert(ik@, id))
    }
}

/// What was acquired was free before, and at most one key per index.
pub open spec fn newly(base: Seq<Map<Seq<u8>, u64>>, acquired: Seq<(usize, IndexKey)>) -> bool {
    &&& forall|i: int|
        0 <= i < acquired.len() ==> (#[trigger] acquired[i]).0 < base.len()
            && !base[acquired[i].0 as int].contains_key(acquired[i].1@)
    &&& forall|i: int, j: int|
        0 <= i < j < acquired.len() ==> (#[trigger] acquired[i]).0 < (#[trigger] acquired[j]).0
}

/// Whether a statement has acquired this claim.
pub open spec fn acquired_here(acquired: Seq<(usize, IndexKey)>, p: int, ik: Seq<u8>) -> bool {
    exists|i: int|
        0 <= i < acquired.len() && (#[trigger] acquired[i]).0 == p && acquired[i].1@ == ik
}

/// The claims once the unique keys of `x` below position `n` are `id`'s.
spec fn claims_below<T: Versioned>(tv: TableView<T>, id: u64, x: T, n: int) -> Seq<
    Map<Seq<u8>, u64>,
> {
    Seq::new(
        tv.claims.len(),
        |p: int|
            if p < n && tv.indexes[p].unique {
                tv.claims[p].insert(x.spec_index_key(p), id)
            } else {
                tv.claims[p]
            },
    )
}

proof fn lemma_claims_with(
    base: Seq<Map<Seq<u8>, u64>>,
    acquired: Seq<(usize, IndexKey)>,
    id: u64,
)
    requires
        newly(base, acquired),
    ensures
        claims_with(base, acquired, id).len() == base.len(),
        forall|q: int|
            #![trigger claims_with(base, acquired, id)[q]]
            0 <= q < base.len() && (forall|i: int|
                0 <= i < acquired.len() ==> (#[trigger] acquired[i]).0 != q) ==> claims_with(
                base,
                acquired,
                id,
            )[q] == base[q],
    decreases acquired.len(),
{
    if acquired.len() > 0 {
        let rest = acquired.drop_last();
        assert(newly(base, rest)) by {
            assert forall|i: int, j: int| 0 <= i < j < rest.len() implies (#[trigger] rest[i]).0 < (
            #[trigger] rest[j]).0 by {
                assert(acquired[i].0 < acquired[j].0);
            }
            assert forall|i: int| 0 <= i < rest.len() implies (#[trigger] rest[i]).0 < base.len()
                && !base[rest[i].0 as int].contains_key(rest[i].1@) by {
                assert(acquired[i] == rest[i]);
            }
        }
        lemma_claims_with(base, rest, id);
        let last = acquired[acquired.len() - 1];
        assert forall|q: int|
            #![trigger claims_with(base, acquired, id)[q]]
            0 <= q < base.len() && (forall|i: int|
                0 <= i < acquired.len() ==> (#[trigger] acquired[i]).0 != q) implies claims_with(
            base,
            acquired,
            id,
        )[q] == base[q] by {
            assert(last.0 != q);
            assert forall|i: int| 0 <= i < rest.len() implies (#[trigger] rest[i]).0 != q by {
                assert(acquired[i].0 != q);
            }
        }
    }
}

/// Give back the claims a failed statement has acquired.
pub(crate) fn unclaim<T: Versioned>(
    table: &mut Table<T>,
    acquired: Vec<(usize, IndexKey)>,
    txn: TxnId,
    Ghost(base): Ghost<Seq<Map<Seq<u8>, u64>>>,
)
    requires
        old(table).wf(),
        newly(base, acquired@),
        old(table)@.claims == claims_with(base, acquired@, txn.0),
    ensures
        final(table).wf(),
        final(table)@ == (TableView { claims: base, ..old(table)@ }),
{
    let mut acquired = acquired;
    let ghost tv = table@;
    proof {
        table.lemma_wf();
        lemma_claims_with(base, acquired@, txn.0);
    }
    while acquired.len() > 0
        invariant
            table.wf(),
            newly(base, acquired@),
            base.len() == tv.indexes.len(),
            table@ == (TableView { claims: claims_with(base, acquired@, txn.0), ..tv }),
        decreases acquired@.len(),
    {
        let ghost before = acquired@;
        let (p, ik) = acquired.pop().unwrap();
        proof {
            assert(before.drop_last() =~= acquired@);
            assert(before[before.len() - 1] == (p, ik));
            assert(newly(base, acquired@)) by {
                assert forall|i: int, j: int| 0 <= i < j < acquired@.len() implies (
                #[trigger] acquired@[i]).0 < (#[trigger] acquired@[j]).0 by {
                    assert(before[i].0 < before[j].0);
                }
                assert forall|i: int| 0 <= i < acquired@.len() implies (#[trigger] acquired@[i]).0
                    < base.len() && !base[acquired@[i].0 as int].contains_key(acquired@[i].1@) by {
                    assert(acquired@[i] == before[i]);
                }
            }
            lemma_claims_with(base, acquired@, txn.0);
            assert forall|i: int| 0 <= i < acquired@.len() implies (#[trigger] acquired@[i]).0
                != p by {
                assert(before[i].0 < before[before.len() - 1].0);
            }
            assert(claims_with(base, acquired@, txn.0)[p as int] == base[p as int]);
        }
        table.release_unique(p, &ik, txn);
        proof {
            let rest = claims_with(base, acquired@, txn.0);
            assert(rest[p as int].insert(ik@, txn.0).remove(ik@) =~= rest[p as int]);
            assert(table@.claims =~= rest);
            assert(table@ =~= (TableView { claims: rest, ..tv }));
        }
    }
}

/// Claim every unique index key of `x` for `txn`, and check that no other
/// record holds one. Fails on the first index that refuses, and then leaves the
/// table as it was.
pub(crate) fn claim_all<T: Versioned>(table: &mut Table<T>, key: &IndexKey, x: &T, txn: TxnId) -> (r:
    core::result::Result<Vec<(usize, IndexKey)>, Error>)
    requires
        old(table).wf(),
    ensures
        final(table).wf(),
        match r {
            Ok(acquired) => {
                &&& unique_conflict(old(table)@, txn.0, key@, *x, 0) is None
                &&& newly(old(table)@.claims, acquired@)
                &&& final(table)@.claims == claims_with(old(table)@.claims, acquired@, txn.0)
                &&& final(table)@ == (TableView {
                    claims: old(table)@.claims_for(txn.0, *x),
                    ..old(table)@
                })
                &&& forall|p: int, ik: Seq<u8>| #[trigger]
                    acquired_here(acquired@, p, ik) <==> 0 <= p < old(table)@.indexes.len()
                        && old(table)@.indexes[p].unique && ik == x.spec_index_key(p)
                        && !old(table)@.claims[p].contains_key(ik)
            },
            Err(e) => {
                &&& unique_conflict(old(table)@, txn.0, key@, *x, 0) == Some(e)
                &&& final(table)@ == old(table)@
            },
        },
{
    let ghost tv = table@;
    let n: usize = table.indexes().len();
    let mut acquired: Vec<(usize, IndexKey)> = Vec::new();
    let mut p: usize = 0;
    proof {
        table.lemma_wf();
        assert(claims_below(tv, txn.0, *x, 0) =~= tv.claims);
    }
    while p < n
        invariant
            table.wf(),
            n == tv.indexes.len(),
            tv.claims.len() == n,
            tv == old(table)@,
            p <= n,
            newly(tv.claims, acquired@),
            forall|i: int| 0 <= i < acquired@.len() ==> (#[trigger] acquired@[i]).0 < p,
            table@ == (TableView { claims: claims_below(tv, txn.0, *x, p as int), ..tv }),
            claims_below(tv, txn.0, *x, p as int) == claims_with(tv.claims, acquired@, txn.0),
            unique_conflict(tv, txn.0, key@, *x, 0) == unique_conflict(
                tv,
                txn.0,
                key@,
                *x,
                p as int,
            ),
            forall|q: int, ik: Seq<u8>| #[trigger]
                acquired_here(acquired@, q, ik) <==> 0 <= q < p && tv.indexes[q].unique && ik
                    == x.spec_index_key(q) && !tv.claims[q].contains_key(ik),
        decreases n - p,
    {
        if table.indexes()[p].unique {
            let ik = x.index_key(p);
            let ghost before = acquired@;
            let ghost claims = claims_below(tv, txn.0, *x, p as int);
            assert(claims[p as int] == tv.claims[p as int]);
            match table.try_claim_unique(p, &ik, txn) {
                Claim::Contended => {
                    unclaim(table, acquired, txn, Ghost(tv.claims));
                    assert(table@ =~= tv);
                    return Err(Error::WriteConflict { table: table.name() });
                },
                Claim::Held => {
                    proof {
                        assert(tv.claims[p as int].insert(ik@, txn.0) =~= tv.claims[p as int]);
                        assert(claims_below(tv, txn.0, *x, p + 1) =~= claims);
                    }
                },
                Claim::Acquired => {
                    acquired.push((p, ik.duplicate()));
                    proof {
                        assert(acquired@.drop_last() =~= before);
                        assert(acquired@[before.len() as int] == acquired@.last());
                        assert forall|i: int| 0 <= i < before.len() implies acquired@[i]
                            == before[i] by {}
                        assert(claims_below(tv, txn.0, *x, p + 1) =~= claims.update(
                            p as int,
                            claims[p as int].insert(ik@, txn.0),
                        ));
                    }
                },
            }
            proof {
                assert(table@.claims =~= claims_below(tv, txn.0, *x, p + 1));
                assert forall|q: int, ik2: Seq<u8>| #[trigger]
                    acquired_here(acquired@, q, ik2) <==> 0 <= q < p + 1 && tv.indexes[q].unique
                        && ik2 == x.spec_index_key(q) && !tv.claims[q].contains_key(ik2) by {
                    if acquired_here(acquired@, q, ik2) {
                        let i = choose|i: int|
                            0 <= i < acquired@.len() && (#[trigger] acquired@[i]).0 == q
                                && acquired@[i].1@ == ik2;
                        if i < before.len() {
                            assert(before[i] == acquired@[i]);
                            assert(acquired_here(before, q, ik2));
                        }
                    }
                    if acquired_here(before, q, ik2) {
                        let i = choose|i: int|
                            0 <= i < before.len() && (#[trigger] before[i]).0 == q
                                && before[i].1@ == ik2;
                        assert(acquired@[i] == before[i]);
                    }
                    if q == p && ik2 == ik@ && !tv.claims[q].contains_key(ik2) {
                        assert(acquired@[before.len() as int].0 == p);
                    }
                }
            }
            if table.unique_key_taken(p, &ik, key, txn) {
                let index = table.indexes()[p].name;
                let name = table.name();
                unclaim(table, acquired, txn, Ghost(tv.claims));
                assert(table@ =~= tv);
                return Err(Error::DuplicateKey { table: name, index });
            }
        } else {
            proof {
                assert(claims_below(tv, txn.0, *x, p + 1) =~= claims_below(
                    tv,
                    txn.0,
                    *x,
                    p as int,
                ));
            }
        }
        p = p + 1;
    }
    proof {
        assert(claims_below(tv, txn.0, *x, n as int) =~= tv.claims_for(txn.0, *x));
        assert(table@ =~= (TableView { claims: tv.claims_for(txn.0, *x), ..tv }));
    }
    Ok(acquired)
}

} // verus!
