//! A map from encoded keys, kept in key order.

use vstd::prelude::*;

use crate::order::{
    lemma_lex_asymmetric, lemma_lex_irreflexive, lemma_lex_transitive, lex_le, lex_lt, relate,
    same_bytes, Relation,
};
use crate::schema::IndexKey;

verus! {

/// A map from encoded keys to `V`, as a list of entries in strictly ascending
/// key order.
pub struct Ordered<V> {
    pub items: Vec<(IndexKey, V)>,
}

/// Entries in strictly ascending key order.
pub open spec fn ascending<V>(items: Seq<(IndexKey, V)>) -> bool {
    forall|i: int, j: int|
        0 <= i < j < items.len() ==> lex_lt((#[trigger] items[i]).0@, (#[trigger] items[j]).0@)
}

impl<V> View for Ordered<V> {
    type V = Map<Seq<u8>, V>;

    open spec fn view(&self) -> Map<Seq<u8>, V> {
        Map::new(|k: Seq<u8>| self.holds(k), |k: Seq<u8>| self.items@[self.position(k)].1)
    }
}

impl<V> Ordered<V> {
    pub open spec fn wf(&self) -> bool {
        ascending(self.items@)
    }

    pub open spec fn holds(&self, k: Seq<u8>) -> bool {
        exists|i: int| 0 <= i < self.items@.len() && (#[trigger] self.items@[i]).0@ == k
    }

    pub open spec fn position(&self, k: Seq<u8>) -> int {
        choose|i: int| 0 <= i < self.items@.len() && (#[trigger] self.items@[i]).0@ == k
    }

    pub proof fn lemma_position(&self, i: int)
        requires
            self.wf(),
            0 <= i < self.items@.len(),
        ensures
            self.holds(self.items@[i].0@),
            self.position(self.items@[i].0@) == i,
            self@.contains_key(self.items@[i].0@),
            self@[self.items@[i].0@] == self.items@[i].1,
    {
        let k = self.items@[i].0@;
        let j = self.position(k);
        lemma_lex_irreflexive(k);
        if i < j {
            assert(lex_lt(self.items@[i].0@, self.items@[j].0@));
        } else if j < i {
            assert(lex_lt(self.items@[j].0@, self.items@[i].0@));
        }
    }

    pub fn new() -> (m: Self)
        ensures
            m.wf(),
            m@ == Map::<Seq<u8>, V>::empty(),
            m.items@.len() == 0,
    {
        let m = Ordered { items: Vec::new() };
        assert(m@ =~= Map::<Seq<u8>, V>::empty());
        m
    }

    /// The number of entries below `key`, by binary search.
    pub fn seek(&self, key: &IndexKey) -> (at: usize)
        requires
            self.wf(),
        ensures
            at <= self.items@.len(),
            forall|i: int| 0 <= i < at ==> lex_lt((#[trigger] self.items@[i]).0@, key@),
            forall|i: int|
                at <= i < self.items@.len() ==> lex_le(key@, (#[trigger] self.items@[i]).0@),
    {
        let mut lo: usize = 0;
        let mut hi: usize = self.items.len();
        while lo < hi
            invariant
                self.wf(),
                lo <= hi <= self.items@.len(),
                forall|i: int| 0 <= i < lo ==> lex_lt((#[trigger] self.items@[i]).0@, key@),
                forall|i: int|
                    hi <= i < self.items@.len() ==> lex_le(key@, (#[trigger] self.items@[i]).0@),
            decreases hi - lo,
        {
            let mid: usize = lo + (hi - lo) / 2;
            match relate(&self.items[mid].0.0, &key.0) {
                Relation::Less => {
                    assert forall|i: int| 0 <= i < mid + 1 implies lex_lt(
                        (#[trigger] self.items@[i]).0@,
                        key@,
                    ) by {
                        if i < mid {
                            lemma_lex_transitive(
                                self.items@[i].0@,
                                self.items@[mid as int].0@,
                                key@,
                            );
                        }
                    }
                    lo = mid + 1;
                },
                Relation::Equal => {
                    assert forall|i: int| mid <= i < self.items@.len() implies lex_le(
                        key@,
                        (#[trigger] self.items@[i]).0@,
                    ) by {
                        if i > mid {
                            assert(lex_lt(self.items@[mid as int].0@, self.items@[i].0@));
                        }
                    }
                    hi = mid;
                },
                Relation::Greater => {
                    assert forall|i: int| mid <= i < self.items@.len() implies lex_le(
                        key@,
                        (#[trigger] self.items@[i]).0@,
                    ) by {
                        if i > mid {
                            lemma_lex_transitive(
                                key@,
                                self.items@[mid as int].0@,
                                self.items@[i].0@,
                            );
                        }
                    }
                    hi = mid;
                },
            }
        }
        lo
    }

    /// Where `key` is, or where it would go.
    pub fn find(&self, key: &IndexKey) -> (r: (usize, bool))
        requires
            self.wf(),
        ensures
            r.0 <= self.items@.len(),
            r.1 == self@.contains_key(key@),
            r.1 ==> r.0 < self.items@.len() && self.items@[r.0 as int].0@ == key@
                && self@[key@] == self.items@[r.0 as int].1,
            forall|i: int| 0 <= i < r.0 ==> lex_lt((#[trigger] self.items@[i]).0@, key@),
            forall|i: int|
                r.0 <= i < self.items@.len() ==> lex_le(key@, (#[trigger] self.items@[i]).0@),
    {
        let at: usize = self.seek(key);
        if at < self.items.len() && same_bytes(self.items[at].0.as_bytes(), key.as_bytes()) {
            proof {
                self.lemma_position(at as int);
            }
            (at, true)
        } else {
            proof {
                if self.holds(key@) {
                    let i = self.position(key@);
                    lemma_lex_irreflexive(key@);
                    if i > at {
                        assert(lex_lt(self.items@[at as int].0@, key@));
                        assert(lex_le(key@, self.items@[at as int].0@));
                        lemma_lex_asymmetric(self.items@[at as int].0@, key@);
                    }
                }
            }
            (at, false)
        }
    }

    pub fn get(&self, key: &IndexKey) -> (v: Option<&V>)
        requires
            self.wf(),
        ensures
            match v {
                Some(v) => self@.contains_key(key@) && *v == self@[key@],
                None => !self@.contains_key(key@),
            },
    {
        let (at, here) = self.find(key);
        if here {
            Some(&self.items[at].1)
        } else {
            None
        }
    }

    /// Put `value` under `key`, in place of what was there.
    pub fn insert(&mut self, key: IndexKey, value: V)
        requires
            old(self).wf(),
        ensures
            final(self).wf(),
            final(self)@ == old(self)@.insert(key@, value),
    {
        let (at, here) = self.find(&key);
        if here {
            self.items[at].1 = value;
        } else {
            self.items.insert(at, (key, value));
        }
        proof {
            lemma_inserted(old(self).items@, self.items@, at as int, here, key@);
            lemma_view_by_items(*self);
            lemma_view_by_items(*old(self));
            assert forall|k: Seq<u8>| #[trigger] self@.contains_key(k) == old(self)@.insert(
                key@,
                value,
            ).contains_key(k) by {
                if old(self).holds(k) {
                    let i = old(self).position(k);
                    let j = if !here && i >= at {
                        i + 1
                    } else {
                        i
                    };
                    assert(self.items@[j].0@ == k);
                }
                assert(self.items@[at as int].0@ == key@);
                if self.holds(k) && k != key@ {
                    let j = self.position(k);
                    let i = if !here && j > at {
                        j - 1
                    } else {
                        j
                    };
                    assert(old(self).items@[i].0@ == k);
                }
            }
            assert forall|k: Seq<u8>| self@.contains_key(k) implies #[trigger] self@[k] == old(
                self,
            )@.insert(key@, value)[k] by {
                let j = self.position(k);
                if k != key@ {
                    let i = if !here && j > at {
                        j - 1
                    } else {
                        j
                    };
                    assert(old(self).items@[i].0@ == k);
                    old(self).lemma_position(i);
                } else {
                    self.lemma_position(at as int);
                }
            }
            assert(self@ =~= old(self)@.insert(key@, value));
        }
    }

    /// Take the entry of `key` out, if there is one.
    pub fn remove(&mut self, key: &IndexKey) -> (v: Option<V>)
        requires
            old(self).wf(),
        ensures
            final(self).wf(),
            final(self)@ == old(self)@.remove(key@),
            v == if old(self)@.contains_key(key@) {
                Some(old(self)@[key@])
            } else {
                None
            },
    {
        let (at, here) = self.find(key);
        if here {
            let (_, value) = self.items.remove(at);
            proof {
                let a = old(self).items@;
                let b = self.items@;
                assert forall|i: int, j: int| 0 <= i < j < b.len() implies lex_lt(
                    (#[trigger] b[i]).0@,
                    (#[trigger] b[j]).0@,
                ) by {
                    let i2 = if i >= at {
                        i + 1
                    } else {
                        i
                    };
                    let j2 = if j >= at {
                        j + 1
                    } else {
                        j
                    };
                    assert(lex_lt(a[i2].0@, a[j2].0@));
                }
                assert forall|k: Seq<u8>| #[trigger] self@.contains_key(k) == old(self)@.remove(
                    key@,
                ).contains_key(k) by {
                    if old(self).holds(k) && k != key@ {
                        let i = old(self).position(k);
                        let j = if i > at {
                            i - 1
                        } else {
                            i
                        };
                        assert(b[j].0@ == k);
                    }
                    if self.holds(k) {
                        let j = self.position(k);
                        let i = if j >= at {
                            j + 1
                        } else {
                            j
                        };
                        assert(a[i].0@ == k);
                        old(self).lemma_position(i);
                        old(self).lemma_position(at as int);
                    }
                }
                assert forall|k: Seq<u8>| self@.contains_key(k) implies #[trigger] self@[k]
                    == old(self)@[k] by {
                    let j = self.position(k);
                    let i = if j >= at {
                        j + 1
                    } else {
                        j
                    };
                    assert(a[i].0@ == k);
                    old(self).lemma_position(i);
                }
                assert(self@ =~= old(self)@.remove(key@));
            }
            Some(value)
        } else {
            assert(self@ =~= old(self)@.remove(key@));
            None
        }
    }
}

proof fn lemma_view_by_items<V>(m: Ordered<V>)
    ensures
        forall|k: Seq<u8>| #[trigger] m@.contains_key(k) == m.holds(k),
{
}

proof fn lemma_inserted<V>(
    a: Seq<(IndexKey, V)>,
    b: Seq<(IndexKey, V)>,
    at: int,
    here: bool,
    key: Seq<u8>,
)
    requires
        ascending(a),
        0 <= at <= a.len(),
        forall|i: int| 0 <= i < at ==> lex_lt((#[trigger] a[i]).0@, key),
        forall|i: int| at <= i < a.len() ==> lex_le(key, (#[trigger] a[i]).0@),
        if here {
            &&& at < a.len()
            &&& a[at].0@ == key
            &&& b == a.update(at, b[at])
            &&& b[at].0@ == key
        } else {
            &&& forall|i: int| 0 <= i < a.len() ==> (#[trigger] a[i]).0@ != key
            &&& b == a.insert(at, b[at])
            &&& b[at].0@ == key
        },
    ensures
        ascending(b),
{
    assert forall|i: int, j: int| 0 <= i < j < b.len() implies lex_lt(
        (#[trigger] b[i]).0@,
        (#[trigger] b[j]).0@,
    ) by {
        if here {
            assert(lex_lt(a[i].0@, a[j].0@));
        } else {
            if j < at {
                assert(lex_lt(a[i].0@, a[j].0@));
            } else if j == at {
                assert(b[i] == a[i]);
            } else if i < at {
                assert(lex_lt(a[i].0@, a[j - 1].0@));
            } else if i == at {
                assert(b[j] == a[j - 1]);
                assert(lex_le(key, a[j - 1].0@));
            } else {
                assert(lex_lt(a[i - 1].0@, a[j - 1].0@));
            }
        }
    }
}

} // verus!
