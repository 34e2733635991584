//! Lexicographic order on byte strings, the order in which keys are compared.

use vstd::prelude::*;

verus! {

/// How one byte string stands to another.
#[derive(Clone, Copy, PartialEq, Eq, Debug, Structural)]
pub enum Relation {
    Less,
    Equal,
    Greater,
}

/// `a` and `b` agree below position `i`, where `a` ends or has the smaller byte.
pub open spec fn diverges(a: Seq<u8>, b: Seq<u8>, i: int) -> bool {
    &&& 0 <= i <= a.len()
    &&& i < b.len()
    &&& forall|j: int| 0 <= j < i ==> a[j] == b[j]
    &&& i == a.len() || a[i] < b[i]
}

/// Whether `a` comes before `b`.
pub open spec fn lex_lt(a: Seq<u8>, b: Seq<u8>) -> bool {
    exists|i: int| diverges(a, b, i)
}

/// Whether `a` comes before `b` or equals it.
pub open spec fn lex_le(a: Seq<u8>, b: Seq<u8>) -> bool {
    a == b || lex_lt(a, b)
}

/// No byte string comes before itself.
pub proof fn lemma_lex_irreflexive(a: Seq<u8>)
    ensures
        !lex_lt(a, a),
{
    if lex_lt(a, a) {
        let i = choose|i: int| diverges(a, a, i);
        assert(diverges(a, a, i));
    }
}

/// Of two byte strings at most one comes before the other.
pub proof fn lemma_lex_asymmetric(a: Seq<u8>, b: Seq<u8>)
    requires
        lex_lt(a, b),
    ensures
        !lex_lt(b, a),
        a != b,
{
    let i = choose|i: int| diverges(a, b, i);
    assert(diverges(a, b, i));
    if lex_lt(b, a) {
        let j = choose|j: int| diverges(b, a, j);
        assert(diverges(b, a, j));
        if i < j {
            assert(a[i] == b[i]);
        } else if j < i {
            assert(a[j] == b[j]);
        }
    }
    if a == b {
        assert(a[i] == b[i]);
    }
}

/// The order is transitive.
pub proof fn lemma_lex_transitive(a: Seq<u8>, b: Seq<u8>, c: Seq<u8>)
    requires
        lex_lt(a, b),
        lex_lt(b, c),
    ensures
        lex_lt(a, c),
{
    let i = choose|i: int| diverges(a, b, i);
    let j = choose|j: int| diverges(b, c, j);
    assert(diverges(a, b, i));
    assert(diverges(b, c, j));
    let k = if i < j {
        i
    } else {
        j
    };
    assert forall|l: int| 0 <= l < k implies a[l] == c[l] by {
        assert(a[l] == b[l]);
        assert(b[l] == c[l]);
    }
    if i < j {
        assert(b[i] == c[i]);
    } else if j < i {
        assert(a[j] == b[j]);
    }
    assert(diverges(a, c, k));
}

/// Two byte strings that agree up to the end of the shorter are equal when
/// their lengths are.
proof fn lemma_lex_total_from(a: Seq<u8>, b: Seq<u8>, i: int)
    requires
        0 <= i <= a.len(),
        i <= b.len(),
        forall|j: int| 0 <= j < i ==> a[j] == b[j],
    ensures
        a == b || lex_lt(a, b) || lex_lt(b, a),
    decreases a.len() - i,
{
    if i == a.len() && i == b.len() {
        assert(a =~= b);
    } else if i == a.len() {
        assert(diverges(a, b, i));
    } else if i == b.len() {
        assert(diverges(b, a, i));
    } else if a[i] < b[i] {
        assert(diverges(a, b, i));
    } else if b[i] < a[i] {
        assert(diverges(b, a, i));
    } else {
        lemma_lex_total_from(a, b, i + 1);
    }
}

/// Of two different byte strings one comes before the other.
pub proof fn lemma_lex_total(a: Seq<u8>, b: Seq<u8>)
    ensures
        a == b || lex_lt(a, b) || lex_lt(b, a),
{
    lemma_lex_total_from(a, b, 0);
}

/// Compare two byte strings.
pub fn relate(a: &Vec<u8>, b: &Vec<u8>) -> (r: Relation)
    ensures
        match r {
            Relation::Less => lex_lt(a@, b@),
            Relation::Equal => a@ == b@,
            Relation::Greater => lex_lt(b@, a@),
        },
{
    let mut i: usize = 0;
    while i < a.len() && i < b.len()
        invariant
            i <= a@.len(),
            i <= b@.len(),
            forall|j: int| 0 <= j < i ==> a@[j] == b@[j],
        decreases a@.len() - i,
    {
        if a[i] < b[i] {
            assert(diverges(a@, b@, i as int));
            return Relation::Less;
        }
        if b[i] < a[i] {
            assert(diverges(b@, a@, i as int));
            return Relation::Greater;
        }
        i = i + 1;
    }
    if i < b.len() {
        assert(diverges(a@, b@, i as int));
        Relation::Less
    } else if i < a.len() {
        assert(diverges(b@, a@, i as int));
        Relation::Greater
    } else {
        assert(a@ =~= b@);
        Relation::Equal
    }
}

/// Whether two byte slices hold the same bytes.
pub fn same_bytes(a: &[u8], b: &[u8]) -> (r: bool)
    ensures
        r == (a@ == b@),
{
    if a.len() != b.len() {
        return false;
    }
    let mut i: usize = 0;
    while i < a.len()
        invariant
            i <= a@.len(),
            a@.len() == b@.len(),
            forall|j: int| 0 <= j < i ==> a@[j] == b@[j],
        decreases a@.len() - i,
    {
        if a[i] != b[i] {
            return false;
        }
        i = i + 1;
    }
    assert(a@ =~= b@);
    true
}

/// Whether two strings hold the same characters.
pub fn same_text(a: &str, b: &str) -> (r: bool)
    ensures
        r == (a@ == b@),
{
    proof {
        vstd::utf8::encode_utf8_decode_utf8(a@);
        vstd::utf8::encode_utf8_decode_utf8(b@);
    }
    same_bytes(a.as_bytes(), b.as_bytes())
}

/// The first difference decides, and where there is none up to the end of one of
/// them the longer comes last; however they go on.
pub proof fn law_the_first_difference_decides(
    p: Seq<u8>,
    x: u8,
    y: u8,
    a: Seq<u8>,
    b: Seq<u8>,
)
    ensures
        lex_lt(p + seq![x] + a, p + seq![y] + b) <==> x < y || (x == y && lex_lt(a, b)),
        lex_lt(p, p + seq![x] + a),
        !lex_lt(p + seq![x] + a, p),
        !lex_lt(p, p),
{
    let u = p + seq![x] + a;
    let v = p + seq![y] + b;
    let n = p.len() as int;
    assert(u[n] == x && v[n] == y);
    assert(diverges(p, u, n));
    lemma_lex_asymmetric(p, u);
    lemma_lex_irreflexive(p);
    if x < y {
        assert(diverges(u, v, n));
    } else if y < x {
        assert(diverges(v, u, n));
        lemma_lex_asymmetric(v, u);
    } else {
        if lex_lt(a, b) {
            let i = choose|i: int| diverges(a, b, i);
            assert(diverges(u, v, n + 1 + i)) by {
                assert forall|j: int| 0 <= j < n + 1 + i implies u[j] == v[j] by {
                    if j > n {
                        assert(u[j] == a[j - n - 1] && v[j] == b[j - n - 1]);
                    }
                }
            }
        }
        if lex_lt(u, v) {
            let i = choose|i: int| diverges(u, v, i);
            assert(i > n);
            assert(diverges(a, b, i - n - 1)) by {
                assert forall|j: int| 0 <= j < i - n - 1 implies a[j] == b[j] by {
                    assert(u[j + n + 1] == a[j] && v[j + n + 1] == b[j]);
                }
            }
        }
    }
}

/// Comparing says which of two byte strings comes first.
pub proof fn law_comparing_tells_which_comes_first(a: Vec<u8>, b: Vec<u8>, r: Relation)
    requires
        call_ensures(relate, (&a, &b), r),
    ensures
        r is Less <==> lex_lt(a@, b@),
        r is Equal <==> a@ == b@,
        r is Greater <==> lex_lt(b@, a@),
{
    lemma_lex_irreflexive(a@);
    if lex_lt(a@, b@) {
        lemma_lex_asymmetric(a@, b@);
    }
    if lex_lt(b@, a@) {
        lemma_lex_asymmetric(b@, a@);
    }
}

} // verus!
