//! Histories of commits, and the serial orders they are equivalent to.
//!
//! A history lists the transactions that have committed, in that order, each
//! with what it read and what it wrote. A transaction sees the commits before it
//! began, and none after: it *misses* a later commit that changed what it read.
//! Whoever misses a commit has to come before it in any serial order.
//!
//! What a transaction read may still be what is there when it commits, though it
//! changed in between. Then it can be taken to have begun only when it committed.

use vstd::prelude::*;
use vstd::set_lib::{lemma_int_range, lemma_len_subset, set_int_range};

use crate::filter::passes;
use crate::state::{ReadView, ScopeView};
use crate::versioned::Versioned;

verus! {

/// A transaction that has committed.
#[verifier::reject_recursive_types(T)]
pub struct Done<T: Versioned> {
    pub id: u64,
    /// How many commits of the history it saw.
    pub start: int,
    pub reads: Seq<ReadView<T>>,
    /// The records it left behind, by table and key. `None` where it deleted.
    pub writes: Map<(int, Seq<u8>), Option<T>>,
    /// Whether something it read had changed when it committed.
    pub stale: bool,
}

/// The record under `k` of table `t` after the first `n` commits.
pub open spec fn after<T: Versioned>(
    base: spec_fn(int, Seq<u8>) -> Option<T>,
    h: Seq<Done<T>>,
    n: int,
    t: int,
    k: Seq<u8>,
) -> Option<T>
    decreases n,
{
    if n <= 0 {
        base(t, k)
    } else if h[n - 1].writes.contains_key((t, k)) {
        h[n - 1].writes[(t, k)]
    } else {
        after(base, h, n - 1, t, k)
    }
}

/// The last of the first `n` commits that wrote under `k` of table `t`, or -1.
pub open spec fn last_writer<T: Versioned>(h: Seq<Done<T>>, n: int, t: int, k: Seq<u8>) -> int
    decreases n,
{
    if n <= 0 {
        -1
    } else if h[n - 1].writes.contains_key((t, k)) {
        n - 1
    } else {
        last_writer(h, n - 1, t, k)
    }
}

/// What a read of `scope` shows of the record under `k`.
pub open spec fn shows<T: Versioned>(
    scope: ScopeView<T>,
    k: Seq<u8>,
    record: Option<T>,
) -> Option<T> {
    match scope {
        ScopeView::Row(j) => if j == k {
            record
        } else {
            None
        },
        ScopeView::Rows(filter) => match record {
            Some(x) => if passes(*filter, x) {
                Some(x)
            } else {
                None
            },
            None => None,
        },
    }
}

/// Whether commit `j` wrote under `k` something that matters to this read: the
/// record it asked for, or one it returns before or after the write.
pub open spec fn affects<T: Versioned>(
    base: spec_fn(int, Seq<u8>) -> Option<T>,
    h: Seq<Done<T>>,
    j: int,
    read: ReadView<T>,
    k: Seq<u8>,
) -> bool {
    h[j].writes.contains_key((read.table, k)) && match read.scope {
        ScopeView::Row(x) => x == k,
        ScopeView::Rows(_) => shows(read.scope, k, after(base, h, j, read.table, k)) is Some
            || shows(read.scope, k, h[j].writes[(read.table, k)]) is Some,
    }
}

/// Whether commit `i` misses commit `j`: it does not see `j`, which changed what
/// it read.
pub open spec fn misses<T: Versioned>(
    base: spec_fn(int, Seq<u8>) -> Option<T>,
    h: Seq<Done<T>>,
    i: int,
    j: int,
) -> bool {
    i != j && h[i].start <= j && exists|r: int, k: Seq<u8>|
        0 <= r < h[i].reads.len() && #[trigger] affects(base, h, j, h[i].reads[r], k)
}

/// Whether `i` has to come before `j` in a serial order: `j` sees it, or it
/// misses `j`.
pub open spec fn precedes<T: Versioned>(
    base: spec_fn(int, Seq<u8>) -> Option<T>,
    h: Seq<Done<T>>,
    i: int,
    j: int,
) -> bool {
    i != j && (i < h[j].start || misses(base, h, i, j))
}

/// The commits that wrote something.
pub open spec fn writers<T: Versioned>(h: Seq<Done<T>>) -> Set<int> {
    Set::new(|i: int| 0 <= i < h.len() && wrote_any(h[i]))
}

/// Whether the transaction wrote something.
pub open spec fn wrote_any<T: Versioned>(d: Done<T>) -> bool {
    exists|x: (int, Seq<u8>)| #[trigger] d.writes.contains_key(x)
}

/// Whether everything commit `i` read is the same when it commits.
pub open spec fn fresh<T: Versioned>(
    base: spec_fn(int, Seq<u8>) -> Option<T>,
    h: Seq<Done<T>>,
    i: int,
) -> bool {
    forall|r: int, k: Seq<u8>|
        #![trigger shows(h[i].reads[r].scope, k, after(base, h, i, h[i].reads[r].table, k))]
        0 <= r < h[i].reads.len() ==> shows(
            h[i].reads[r].scope,
            k,
            after(base, h, i, h[i].reads[r].table, k),
        ) == shows(
            h[i].reads[r].scope,
            k,
            after(base, h, h[i].start, h[i].reads[r].table, k),
        )
}

/// The history in which those began when they committed to whom that makes no
/// difference.
pub open spec fn postponed<T: Versioned>(
    base: spec_fn(int, Seq<u8>) -> Option<T>,
    h: Seq<Done<T>>,
) -> Seq<Done<T>> {
    Seq::new(
        h.len(),
        |i: int|
            if fresh(base, h, i) {
                Done { start: i, ..h[i] }
            } else {
                h[i]
            },
    )
}

/// The commits that a serial order accounts for: those that wrote something, and
/// those of the others that missed no commit which had itself missed one.
pub open spec fn accounted<T: Versioned>(
    base: spec_fn(int, Seq<u8>) -> Option<T>,
    h: Seq<Done<T>>,
) -> Set<int> {
    Set::new(
        |i: int|
            0 <= i < h.len() && (wrote_any(h[i]) || forall|j: int|
                0 <= j < h.len() && #[trigger] misses(base, postponed(base, h), i, j)
                    ==> !h[j].stale),
    )
}

/// The commits of a history in another order.
pub open spec fn reordered<T: Versioned>(h: Seq<Done<T>>, order: Seq<int>) -> Seq<Done<T>> {
    Seq::new(order.len(), |p: int| h[order[p]])
}

/// Whether the commit at `p` of the serial execution `g` reads there what it read
/// in the history `h`: every read shows the same records, and so does every
/// record that it goes on to write.
pub open spec fn reads_alike<T: Versioned>(
    base: spec_fn(int, Seq<u8>) -> Option<T>,
    h: Seq<Done<T>>,
    g: Seq<Done<T>>,
    p: int,
) -> bool {
    &&& forall|r: int, k: Seq<u8>|
        #![trigger shows(g[p].reads[r].scope, k, after(base, g, p, g[p].reads[r].table, k))]
        0 <= r < g[p].reads.len() ==> shows(
            g[p].reads[r].scope,
            k,
            after(base, g, p, g[p].reads[r].table, k),
        ) == shows(
            g[p].reads[r].scope,
            k,
            after(base, h, g[p].start, g[p].reads[r].table, k),
        )
    &&& forall|t: int, k: Seq<u8>| #[trigger]
        g[p].writes.contains_key((t, k)) ==> after(base, g, p, t, k) == after(
            base,
            h,
            g[p].start,
            t,
            k,
        )
}

/// Whether running the transactions in `s` one after another, in this order,
/// gives each what it read in the history, and leaves the same records behind.
pub open spec fn serial_order<T: Versioned>(
    base: spec_fn(int, Seq<u8>) -> Option<T>,
    h: Seq<Done<T>>,
    s: Set<int>,
    order: Seq<int>,
) -> bool {
    let g = reordered(h, order);
    &&& order.no_duplicates()
    &&& order.to_set() == s
    &&& forall|p: int| 0 <= p < g.len() ==> #[trigger] reads_alike(base, h, g, p)
    &&& forall|t: int, k: Seq<u8>| #[trigger]
        after(base, g, g.len() as int, t, k) == after(base, h, h.len() as int, t, k)
}

/// The history can be explained by running the transactions in `s` one after
/// another.
pub open spec fn serializable<T: Versioned>(
    base: spec_fn(int, Seq<u8>) -> Option<T>,
    h: Seq<Done<T>>,
    s: Set<int>,
) -> bool {
    exists|order: Seq<int>| serial_order(base, h, s, order)
}

/// Nobody sees itself or a later commit.
pub open spec fn starts_ok<T: Versioned>(h: Seq<Done<T>>) -> bool {
    forall|i: int| 0 <= i < h.len() ==> 0 <= (#[trigger] h[i]).start <= i
}

/// The first committer wins: whoever overwrites a record sees the commit that
/// wrote it before.
pub open spec fn first_committer_won<T: Versioned>(h: Seq<Done<T>>) -> bool {
    forall|i: int, j: int, t: int, k: Seq<u8>|
        #![trigger h[i].writes.contains_key((t, k)), h[j].writes.contains_key((t, k))]
        0 <= i < j < h.len() && h[i].writes.contains_key((t, k)) && h[j].writes.contains_key((t, k))
            ==> i < h[j].start
}

/// Three commits of `s` that miss one another in a row, the last of which was the
/// first to commit. The first and the last may be the same.
pub open spec fn dangerous<T: Versioned>(
    base: spec_fn(int, Seq<u8>) -> Option<T>,
    h: Seq<Done<T>>,
    s: Set<int>,
    i: int,
    j: int,
    k: int,
) -> bool {
    &&& s.contains(i) && s.contains(j) && s.contains(k)
    &&& misses(base, h, i, j)
    &&& misses(base, h, j, k)
    &&& k <= i
    &&& k < j
}

/// No three commits of `s` miss one another in a row.
pub open spec fn harmless<T: Versioned>(
    base: spec_fn(int, Seq<u8>) -> Option<T>,
    h: Seq<Done<T>>,
    s: Set<int>,
) -> bool {
    forall|i: int, j: int, k: int| !#[trigger] dangerous(base, h, s, i, j, k)
}

/// `s` are commits of the history, among them all that wrote something.
pub open spec fn among<T: Versioned>(h: Seq<Done<T>>, s: Set<int>) -> bool {
    &&& writers(h).subset_of(s)
    &&& forall|i: int| s.contains(i) ==> 0 <= i < h.len()
}

// --- the order --------------------------------------------------------------

/// A nonempty set of positions has a smallest.
proof fn lemma_smallest(s: Set<int>, lo: int, x: int) -> (m: int)
    requires
        s.contains(x),
        forall|y: int| s.contains(y) ==> lo <= y,
    ensures
        s.contains(m),
        forall|y: int| s.contains(y) ==> m <= y,
    decreases x - lo,
{
    if exists|y: int| s.contains(y) && y < x {
        let y = choose|y: int| s.contains(y) && y < x;
        lemma_smallest(s, lo, y)
    } else {
        x
    }
}

/// Among some commits there is one that none of the others has to come before: the
/// first to commit, or one that misses it.
proof fn lemma_first<T: Versioned>(
    base: spec_fn(int, Seq<u8>) -> Option<T>,
    h: Seq<Done<T>>,
    all: Set<int>,
    s: Set<int>,
    x: int,
) -> (m: int)
    requires
        starts_ok(h),
        among(h, all),
        harmless(base, h, all),
        s.subset_of(all),
        s.contains(x),
    ensures
        s.contains(m),
        forall|i: int| s.contains(i) ==> !precedes(base, h, i, m),
{
    let k = lemma_smallest(s, 0, x);
    if exists|j: int| s.contains(j) && precedes(base, h, j, k) {
        let j = choose|j: int| s.contains(j) && precedes(base, h, j, k);
        assert(all.contains(j) && all.contains(k));
        assert(misses(base, h, j, k));
        assert forall|i: int| s.contains(i) implies !precedes(base, h, i, j) by {
            if precedes(base, h, i, j) {
                assert(all.contains(i));
                assert(k <= i);
                assert(h[j].start <= k);
                assert(misses(base, h, i, j));
                assert(dangerous(base, h, all, i, j, k));
            }
        }
        j
    } else {
        k
    }
}

/// The commits of `s` in an order in which nobody comes before whoever has to
/// precede it.
proof fn lemma_order<T: Versioned>(
    base: spec_fn(int, Seq<u8>) -> Option<T>,
    h: Seq<Done<T>>,
    all: Set<int>,
    s: Set<int>,
) -> (order: Seq<int>)
    requires
        starts_ok(h),
        among(h, all),
        harmless(base, h, all),
        s.subset_of(all),
        s.finite(),
    ensures
        order.no_duplicates(),
        order.to_set() == s,
        forall|p: int, q: int|
            #![trigger order[p], order[q]]
            0 <= p < q < order.len() ==> !precedes(base, h, order[q], order[p]),
    decreases s.len(),
{
    if s.len() == 0 {
        let order = Seq::<int>::empty();
        assert(order.to_set() =~= s);
        order
    } else {
        let x = s.choose();
        let m = lemma_first(base, h, all, s, x);
        let rest = lemma_order(base, h, all, s.remove(m));
        let order = seq![m] + rest;
        assert forall|y: int| order.to_set().contains(y) <==> s.contains(y) by {
            if s.contains(y) {
                if y == m {
                    assert(order[0] == y);
                } else {
                    assert(rest.to_set().contains(y));
                    let q = choose|q: int| 0 <= q < rest.len() && rest[q] == y;
                    assert(order[q + 1] == y);
                }
            }
            if order.to_set().contains(y) {
                let q = choose|q: int| 0 <= q < order.len() && order[q] == y;
                if q > 0 {
                    assert(rest[q - 1] == y);
                    assert(rest.to_set().contains(y));
                }
            }
        }
        assert(order.to_set() =~= s);
        assert forall|p: int, q: int|
            #![trigger order[p], order[q]]
            0 <= p < q < order.len() implies !precedes(base, h, order[q], order[p])
            && order[p] != order[q] by {
            assert(rest[q - 1] == order[q]);
            assert(rest.to_set().contains(order[q]));
            if p > 0 {
                assert(rest[p - 1] == order[p]);
            }
        }
        order
    }
}

// --- what is read ---------------------------------------------------------------

/// The last writer wrote, nobody wrote after it, and what it wrote is what there
/// is.
pub proof fn lemma_last_writer<T: Versioned>(
    base: spec_fn(int, Seq<u8>) -> Option<T>,
    h: Seq<Done<T>>,
    n: int,
    t: int,
    k: Seq<u8>,
)
    requires
        0 <= n <= h.len(),
    ensures
        ({
            let a = last_writer(h, n, t, k);
            &&& -1 <= a < n
            &&& a >= 0 ==> h[a].writes.contains_key((t, k)) && after(base, h, n, t, k)
                == h[a].writes[(t, k)]
            &&& a < 0 ==> after(base, h, n, t, k) == base(t, k)
            &&& forall|b: int| a < b < n ==> !(#[trigger] h[b]).writes.contains_key((t, k))
        }),
    decreases n,
{
    if n > 0 && !h[n - 1].writes.contains_key((t, k)) {
        lemma_last_writer(base, h, n - 1, t, k);
    }
}

/// Where nobody wrote in between, nothing has changed.
pub proof fn lemma_unchanged<T: Versioned>(
    base: spec_fn(int, Seq<u8>) -> Option<T>,
    h: Seq<Done<T>>,
    m: int,
    n: int,
    t: int,
    k: Seq<u8>,
)
    requires
        0 <= m <= n <= h.len(),
        forall|b: int| m <= b < n ==> !(#[trigger] h[b]).writes.contains_key((t, k)),
    ensures
        after(base, h, n, t, k) == after(base, h, m, t, k),
        last_writer(h, n, t, k) == last_writer(h, m, t, k),
    decreases n - m,
{
    if m < n {
        lemma_unchanged(base, h, m, n - 1, t, k);
    }
}

/// What a commit reads of one record in the serial execution.
///
/// Every writer it sees comes before it there, and one that it does not see comes
/// before it only if that writer changes nothing in what it reads.
proof fn lemma_reads_record<T: Versioned>(
    base: spec_fn(int, Seq<u8>) -> Option<T>,
    h: Seq<Done<T>>,
    order: Seq<int>,
    p: int,
    t: int,
    k: Seq<u8>,
) -> (a: int)
    requires
        starts_ok(h),
        first_committer_won(h),
        order.no_duplicates(),
        among(h, order.to_set()),
        forall|x: int, y: int|
            #![trigger order[x], order[y]]
            0 <= x < y < order.len() ==> !precedes(base, h, order[y], order[x]),
        0 <= p < order.len(),
    ensures
        ({
            let i = order[p];
            let s = h[i].start;
            let g = reordered(h, order);
            ||| after(base, g, p, t, k) == after(base, h, s, t, k)
            ||| {
                &&& s <= a < h.len()
                &&& h[a].writes.contains_key((t, k))
                &&& after(base, g, p, t, k) == h[a].writes[(t, k)]
                &&& !precedes(base, h, i, a)
                &&& a != i
                &&& exists|u: int|
                    s <= u <= a && u != i && #[trigger] h[u].writes.contains_key((t, k))
                        && !precedes(base, h, i, u) && after(base, h, u, t, k) == after(
                        base,
                        h,
                        s,
                        t,
                        k,
                    )
            }
        }),
{
    let i = order[p];
    assert(order.to_set().contains(i));
    let s = h[i].start;
    let g = reordered(h, order);
    let q = last_writer(g, p, t, k);
    lemma_last_writer(base, g, p, t, k);
    let b = last_writer(h, s, t, k);
    lemma_last_writer(base, h, s, t, k);
    if b >= 0 {
        lemma_placed(base, h, order, p, b, t, k);
    }
    if q < 0 {
        if b >= 0 {
            let x = choose|x: int| 0 <= x < p && #[trigger] order[x] == b;
            assert(g[x].writes.contains_key((t, k)));
        }
        -1
    } else {
        let a = order[q];
        assert(g[q] == h[a]);
        assert(order.to_set().contains(a));
        if b >= 0 {
            let x = choose|x: int| 0 <= x < p && #[trigger] order[x] == b;
            assert(g[x].writes.contains_key((t, k)));
            assert(x <= q);
            if a < b {
                assert(a < h[b].start);
                assert(precedes(base, h, a, b));
                assert(x != q);
                assert(false);
            }
        }
        if a == b {
            a
        } else {
            if a < s {
                assert(a <= b) by {
                    if a > b {
                        assert(!h[a].writes.contains_key((t, k)));
                    }
                }
                assert(false);
            }
            let between = Set::new(
                |y: int| s <= y <= a && h[y].writes.contains_key((t, k)),
            );
            assert(between.contains(a));
            let u = lemma_smallest(between, s, a);
            assert(!precedes(base, h, i, a));
            if u < a {
                assert(u < h[a].start);
                assert(precedes(base, h, u, a));
                assert(writers(h).contains(u)) by {
                    assert(wrote_any(h[u]));
                }
                assert(order.to_set().contains(u));
                let x = choose|x: int| 0 <= x < order.len() && order[x] == u;
                assert(x < q) by {
                    if q < x {
                        assert(!precedes(base, h, order[x], order[q]));
                    }
                }
                assert(!precedes(base, h, order[p], order[x]));
            }
            assert forall|y: int| s <= y < u implies !(#[trigger] h[y]).writes.contains_key(
                (t, k),
            ) by {
                if h[y].writes.contains_key((t, k)) {
                    assert(between.contains(y));
                }
            }
            lemma_unchanged(base, h, s, u, t, k);
            assert(h[u].writes.contains_key((t, k)));
            a
        }
    }
}

/// A writer that a commit sees comes before it.
proof fn lemma_placed<T: Versioned>(
    base: spec_fn(int, Seq<u8>) -> Option<T>,
    h: Seq<Done<T>>,
    order: Seq<int>,
    p: int,
    b: int,
    t: int,
    k: Seq<u8>,
)
    requires
        starts_ok(h),
        among(h, order.to_set()),
        forall|x: int, y: int|
            #![trigger order[x], order[y]]
            0 <= x < y < order.len() ==> !precedes(base, h, order[y], order[x]),
        0 <= p < order.len(),
        0 <= b < h[order[p]].start,
        h[b].writes.contains_key((t, k)),
    ensures
        exists|x: int| 0 <= x < p && #[trigger] order[x] == b,
{
    assert(order.to_set().contains(order[p]));
    assert(b < h.len());
    assert(writers(h).contains(b)) by {
        assert(wrote_any(h[b]));
    }
    assert(order.to_set().contains(b));
    let x = choose|x: int| 0 <= x < order.len() && order[x] == b;
    assert(precedes(base, h, b, order[p]));
    if x > p {
        assert(!precedes(base, h, order[x], order[p]));
    }
}

/// A history in which the first committer wins is serializable: the commits of
/// `s` have a serial order, if all that wrote something are among them and no
/// three of them miss one another in a row with the last one first.
pub proof fn law_harmless_histories_are_serializable<T: Versioned>(
    base: spec_fn(int, Seq<u8>) -> Option<T>,
    h: Seq<Done<T>>,
    s: Set<int>,
)
    requires
        starts_ok(h),
        first_committer_won(h),
        among(h, s),
        harmless(base, h, s),
    ensures
        serializable(base, h, s),
{
    let all = set_int_range(0, h.len() as int);
    lemma_int_range(0, h.len() as int);
    assert(s.subset_of(all));
    lemma_len_subset(s, all);
    let order = lemma_order(base, h, s, s);
    let g = reordered(h, order);
    assert forall|p: int| 0 <= p < g.len() implies #[trigger] reads_alike(base, h, g, p) by {
        let i = order[p];
        assert(order.to_set().contains(i));
        assert(g[p] == h[i]);
        assert forall|r: int, k: Seq<u8>|
            #![trigger shows(g[p].reads[r].scope, k, after(base, g, p, g[p].reads[r].table, k))]
            0 <= r < g[p].reads.len() implies shows(
            g[p].reads[r].scope,
            k,
            after(base, g, p, g[p].reads[r].table, k),
        ) == shows(
            g[p].reads[r].scope,
            k,
            after(base, h, g[p].start, g[p].reads[r].table, k),
        ) by {
            let read = h[i].reads[r];
            let a = lemma_reads_record(base, h, order, p, read.table, k);
            if after(base, g, p, read.table, k) != after(base, h, h[i].start, read.table, k) {
                let u = choose|u: int|
                    h[i].start <= u <= a && u != i && #[trigger] h[u].writes.contains_key(
                        (read.table, k),
                    ) && !precedes(base, h, i, u) && after(base, h, u, read.table, k) == after(
                        base,
                        h,
                        h[i].start,
                        read.table,
                        k,
                    );
                assert(!affects(base, h, a, read, k));
                assert(!affects(base, h, u, read, k));
            }
        }
        assert forall|t: int, k: Seq<u8>| #[trigger] g[p].writes.contains_key((t, k)) implies after(
            base,
            g,
            p,
            t,
            k,
        ) == after(base, h, g[p].start, t, k) by {
            let a = lemma_reads_record(base, h, order, p, t, k);
            if after(base, g, p, t, k) != after(base, h, h[i].start, t, k) {
                assert(h[a].writes.contains_key((t, k)) && h[i].writes.contains_key((t, k)));
            }
        }
    }
    assert forall|t: int, k: Seq<u8>| #[trigger]
        after(base, g, g.len() as int, t, k) == after(base, h, h.len() as int, t, k) by {
        let q = last_writer(g, g.len() as int, t, k);
        lemma_last_writer(base, g, g.len() as int, t, k);
        let b = last_writer(h, h.len() as int, t, k);
        lemma_last_writer(base, h, h.len() as int, t, k);
        if b >= 0 {
            assert(writers(h).contains(b)) by {
                assert(wrote_any(h[b]));
            }
            assert(order.to_set().contains(b));
            let x = choose|x: int| 0 <= x < order.len() && order[x] == b;
            assert(g[x].writes.contains_key((t, k)));
            assert(q >= x);
            let a = order[q];
            assert(order.to_set().contains(a));
            assert(g[q] == h[a]);
            if a != b {
                assert(a < b);
                assert(a < h[b].start);
                assert(precedes(base, h, a, b));
                assert(!precedes(base, h, order[q], order[x]));
            }
        } else if q >= 0 {
            assert(order.to_set().contains(order[q]));
            assert(g[q] == h[order[q]]);
        }
    }
    assert(serial_order(base, h, s, order));
}

// --- postponing ------------------------------------------------------------------

/// What there is depends on what was written alone.
proof fn lemma_same_writes<T: Versioned>(
    base: spec_fn(int, Seq<u8>) -> Option<T>,
    a: Seq<Done<T>>,
    b: Seq<Done<T>>,
    n: int,
    t: int,
    k: Seq<u8>,
)
    requires
        forall|i: int| 0 <= i < n ==> (#[trigger] a[i]).writes == b[i].writes,
    ensures
        after(base, a, n, t, k) == after(base, b, n, t, k),
    decreases n,
{
    if n > 0 {
        assert(a[n - 1].writes == b[n - 1].writes);
        lemma_same_writes(base, a, b, n - 1, t, k);
    }
}

/// Who misses a commit in the postponed history misses it.
pub proof fn lemma_postponed_misses<T: Versioned>(
    base: spec_fn(int, Seq<u8>) -> Option<T>,
    h: Seq<Done<T>>,
    i: int,
    j: int,
)
    requires
        starts_ok(h),
        0 <= i < h.len(),
        0 <= j < h.len(),
        misses(base, postponed(base, h), i, j),
    ensures
        misses(base, h, i, j),
        j < i ==> !fresh(base, h, i),
{
    let g = postponed(base, h);
    let (r, k) = choose|r: int, k: Seq<u8>|
        0 <= r < g[i].reads.len() && #[trigger] affects(base, g, j, g[i].reads[r], k);
    lemma_same_writes(base, g, h, j, g[i].reads[r].table, k);
    assert(h[i].start <= i);
    assert(affects(base, h, j, h[i].reads[r], k));
}

/// A history in which the first committer wins is serializable, if it is harmless
/// once postponed.
pub proof fn law_postponed_histories_are_serializable<T: Versioned>(
    base: spec_fn(int, Seq<u8>) -> Option<T>,
    h: Seq<Done<T>>,
    s: Set<int>,
)
    requires
        starts_ok(h),
        first_committer_won(h),
        among(h, s),
        harmless(base, postponed(base, h), s),
    ensures
        serializable(base, h, s),
{
    let late = postponed(base, h);
    assert(starts_ok(late)) by {
        assert forall|i: int| 0 <= i < late.len() implies 0 <= (#[trigger] late[i]).start <= i by {
            assert(h[i].start <= i);
        }
    }
    assert forall|i: int, j: int, t: int, k: Seq<u8>|
        #![trigger late[i].writes.contains_key((t, k)), late[j].writes.contains_key((t, k))]
        0 <= i < j < late.len() && late[i].writes.contains_key((t, k))
            && late[j].writes.contains_key((t, k)) implies i < late[j].start by {
        assert(h[i].writes.contains_key((t, k)) && h[j].writes.contains_key((t, k)));
    }
    assert(among(late, s)) by {
        assert forall|i: int| #[trigger] writers(late).contains(i) implies s.contains(i) by {
            let x = choose|x: (int, Seq<u8>)| #[trigger] late[i].writes.contains_key(x);
            assert(h[i].writes.contains_key(x));
            assert(wrote_any(h[i]));
            assert(writers(h).contains(i));
        }
    }
    law_harmless_histories_are_serializable(base, late, s);
    let order = choose|order: Seq<int>| serial_order(base, late, s, order);
    let g = reordered(h, order);
    let m = reordered(late, order);
    assert forall|p: int| 0 <= p < order.len() implies s.contains(#[trigger] order[p]) && (
    #[trigger] g[p]).writes == m[p].writes && g[p].reads == m[p].reads by {
        assert(order.to_set().contains(order[p]));
    }
    assert forall|p: int| 0 <= p < g.len() implies #[trigger] reads_alike(base, h, g, p) by {
        let i = order[p];
        assert(s.contains(i));
        assert(g[p].writes == m[p].writes);
        assert(reads_alike(base, late, m, p));
        assert forall|r: int, k: Seq<u8>|
            #![trigger shows(g[p].reads[r].scope, k, after(base, g, p, g[p].reads[r].table, k))]
            0 <= r < g[p].reads.len() implies shows(
            g[p].reads[r].scope,
            k,
            after(base, g, p, g[p].reads[r].table, k),
        ) == shows(
            g[p].reads[r].scope,
            k,
            after(base, h, g[p].start, g[p].reads[r].table, k),
        ) by {
            let read = g[p].reads[r];
            lemma_same_writes(base, g, m, p, read.table, k);
            lemma_same_writes(base, h, late, m[p].start, read.table, k);
            assert(shows(m[p].reads[r].scope, k, after(base, m, p, m[p].reads[r].table, k))
                == shows(
                m[p].reads[r].scope,
                k,
                after(base, late, m[p].start, m[p].reads[r].table, k),
            ));
            if fresh(base, h, i) {
                assert(shows(h[i].reads[r].scope, k, after(base, h, i, h[i].reads[r].table, k))
                    == shows(
                    h[i].reads[r].scope,
                    k,
                    after(base, h, h[i].start, h[i].reads[r].table, k),
                ));
            }
        }
        assert forall|t: int, k: Seq<u8>| #[trigger] g[p].writes.contains_key((t, k)) implies after(
            base,
            g,
            p,
            t,
            k,
        ) == after(base, h, g[p].start, t, k) by {
            lemma_same_writes(base, g, m, p, t, k);
            lemma_same_writes(base, h, late, m[p].start, t, k);
            assert(m[p].writes.contains_key((t, k)));
            assert(h[i].start <= i);
            assert forall|b: int| h[i].start <= b < i implies !(
            #[trigger] h[b]).writes.contains_key((t, k)) by {
                assert(h[i].writes.contains_key((t, k)));
            }
            lemma_unchanged(base, h, h[i].start, i, t, k);
        }
    }
    assert forall|t: int, k: Seq<u8>| #[trigger]
        after(base, g, g.len() as int, t, k) == after(base, h, h.len() as int, t, k) by {
        lemma_same_writes(base, g, m, g.len() as int, t, k);
        lemma_same_writes(base, h, late, h.len() as int, t, k);
        assert(after(base, m, m.len() as int, t, k) == after(base, late, late.len() as int, t, k));
    }
    assert(serial_order(base, h, s, order));
}

} // verus!
