//! Table descriptions and order-preserving key encoding.

use std::marker::PhantomData;

use vstd::arithmetic::power::{lemma_pow0, pow};
use vstd::prelude::*;
use vstd::string::*;

use crate::order::{diverges, lemma_lex_asymmetric, lemma_lex_irreflexive, lemma_lex_total, lex_lt};

verus! {

/// Dense identifier for a table, assigned at registration.
#[derive(Clone, Copy, PartialEq, Eq, PartialOrd, Ord, Hash, Debug, Structural)]
pub struct TableId(pub u16);

/// An order-preserving encoding of a key.
///
/// Keys are flattened to bytes whose byte-wise order matches the logical order
/// of the values themselves, so that one index implementation serves every key
/// type and range scans work on composite keys.
#[derive(Clone, PartialEq, Eq, PartialOrd, Ord, Hash, Debug, Default)]
pub struct IndexKey(pub Vec<u8>);

impl View for IndexKey {
    type V = Seq<u8>;

    open spec fn view(&self) -> Seq<u8> {
        self.0@
    }
}

impl IndexKey {
    pub fn as_bytes(&self) -> (b: &[u8])
        ensures
            b@ == self@,
    {
        self.0.as_slice()
    }

    /// A key with the same bytes.
    pub fn duplicate(&self) -> (k: IndexKey)
        ensures
            k@ == self@,
    {
        let mut out: Vec<u8> = Vec::new();
        out.extend_from_slice(self.0.as_slice());
        assert(out@ =~= self@);
        IndexKey(out)
    }
}

/// A handle to one of the secondary indexes of a table, naming the field it
/// covers and carrying the type of that field.
///
/// Scans take the handle rather than a string, so a range whose type does not
/// match the indexed field fails to compile instead of matching nothing.
pub struct Index<T, K> {
    /// Position in the table's list of indexes.
    pub position: usize,
    /// The indexed field's name, for diagnostics.
    pub name: &'static str,
    /// Ties the handle to its record and key type without owning either.
    pub record: PhantomData<(T, K)>,
}

impl<T, K> Index<T, K> {
    pub fn new(position: usize, name: &'static str) -> (i: Self)
        ensures
            i.position == position,
            i.name == name,
    {
        Index { position, name, record: PhantomData }
    }
}

impl<T, K> Clone for Index<T, K> {
    fn clone(&self) -> (i: Self)
        ensures
            i == *self,
    {
        *self
    }
}

impl<T, K> Copy for Index<T, K> {

}

/// A secondary index of a table.
#[derive(Clone, Copy, Debug)]
pub struct IndexDesc {
    /// The indexed field's name. Used in `DuplicateKey` errors.
    pub name: &'static str,
    /// Whether inserts must fail on a duplicate.
    pub unique: bool,
}

/// Which type the records of a table are of. Tables are told apart by it, not by
/// their names.
#[derive(Clone, Copy, Debug, PartialEq, Eq, Structural)]
pub struct RecordType(pub u64);

/// A handle to a registered table.
#[derive(Clone, Copy, Debug)]
pub struct TableRef {
    pub id: TableId,
    pub of: RecordType,
    /// The table's name, used in error messages.
    pub name: &'static str,
}

/// Types usable as keys, encoded to bytes that compare byte by byte.
pub trait Encodable {
    /// The bytes this value is encoded to. Left open by default, for types
    /// declared in ordinary Rust.
    open spec fn encoded(&self) -> Seq<u8> {
        arbitrary()
    }

    /// Append the encoding to `out`.
    fn encode_to(&self, out: &mut Vec<u8>)
        ensures
            final(out)@ == old(out)@ + self.encoded(),
    ;

    fn encode(&self) -> (k: IndexKey)
        ensures
            k@ == self.encoded(),
    {
        let mut out: Vec<u8> = Vec::new();
        self.encode_to(&mut out);
        assert(out@ =~= self.encoded());
        IndexKey(out)
    }
}

/// `v` as `width` bytes, most significant first.
pub open spec fn big_endian(v: nat, width: nat) -> Seq<u8>
    decreases width,
{
    if width == 0 {
        Seq::empty()
    } else {
        big_endian(v / 256, (width - 1) as nat).push((v % 256) as u8)
    }
}

/// Append `v` as `width` bytes, most significant first.
fn put_big_endian(v: u128, width: usize, out: &mut Vec<u8>)
    ensures
        final(out)@ == old(out)@ + big_endian(v as nat, width as nat),
    decreases width,
{
    if width > 0 {
        put_big_endian(v / 256, width - 1, out);
        out.push((v % 256) as u8);
    }
    assert(out@ =~= old(out)@ + big_endian(v as nat, width as nat));
}

impl Encodable for u8 {
    open spec fn encoded(&self) -> Seq<u8> {
        big_endian(*self as nat, 1)
    }

    fn encode_to(&self, out: &mut Vec<u8>) {
        put_big_endian(*self as u128, 1, out);
    }
}

impl Encodable for u16 {
    open spec fn encoded(&self) -> Seq<u8> {
        big_endian(*self as nat, 2)
    }

    fn encode_to(&self, out: &mut Vec<u8>) {
        put_big_endian(*self as u128, 2, out);
    }
}

impl Encodable for u32 {
    open spec fn encoded(&self) -> Seq<u8> {
        big_endian(*self as nat, 4)
    }

    fn encode_to(&self, out: &mut Vec<u8>) {
        put_big_endian(*self as u128, 4, out);
    }
}

impl Encodable for u64 {
    open spec fn encoded(&self) -> Seq<u8> {
        big_endian(*self as nat, 8)
    }

    fn encode_to(&self, out: &mut Vec<u8>) {
        put_big_endian(*self as u128, 8, out);
    }
}

impl Encodable for u128 {
    open spec fn encoded(&self) -> Seq<u8> {
        big_endian(*self as nat, 16)
    }

    fn encode_to(&self, out: &mut Vec<u8>) {
        put_big_endian(*self, 16, out);
    }
}

impl Encodable for i8 {
    /// Biased so that negatives sort below positives.
    open spec fn encoded(&self) -> Seq<u8> {
        big_endian((*self + 0x80) as nat, 1)
    }

    fn encode_to(&self, out: &mut Vec<u8>) {
        put_big_endian((*self as i128 + 0x80) as u128, 1, out);
    }
}

impl Encodable for i16 {
    /// Biased so that negatives sort below positives.
    open spec fn encoded(&self) -> Seq<u8> {
        big_endian((*self + 0x8000) as nat, 2)
    }

    fn encode_to(&self, out: &mut Vec<u8>) {
        put_big_endian((*self as i128 + 0x8000) as u128, 2, out);
    }
}

impl Encodable for i32 {
    /// Biased so that negatives sort below positives.
    open spec fn encoded(&self) -> Seq<u8> {
        big_endian((*self + 0x8000_0000) as nat, 4)
    }

    fn encode_to(&self, out: &mut Vec<u8>) {
        put_big_endian((*self as i128 + 0x8000_0000) as u128, 4, out);
    }
}

impl Encodable for i64 {
    /// Biased so that negatives sort below positives.
    open spec fn encoded(&self) -> Seq<u8> {
        big_endian((*self + 0x8000_0000_0000_0000) as nat, 8)
    }

    fn encode_to(&self, out: &mut Vec<u8>) {
        put_big_endian((*self as i128 + 0x8000_0000_0000_0000) as u128, 8, out);
    }
}

impl Encodable for i128 {
    /// Biased so that negatives sort below positives.
    open spec fn encoded(&self) -> Seq<u8> {
        big_endian((*self + 0x8000_0000_0000_0000_0000_0000_0000_0000) as nat, 16)
    }

    fn encode_to(&self, out: &mut Vec<u8>) {
        let biased: u128 = if *self < 0 {
            ((*self + 0x7fff_ffff_ffff_ffff_ffff_ffff_ffff_ffff) + 1) as u128
        } else {
            (*self as u128) + 0x8000_0000_0000_0000_0000_0000_0000_0000
        };
        put_big_endian(biased, 16, out);
    }
}

/// How one byte of a string is encoded: a zero byte is escaped, so that no
/// value can forge the terminator.
pub open spec fn escaped_byte(b: u8) -> Seq<u8> {
    if b == 0 {
        seq![0u8, 0xffu8]
    } else {
        seq![b]
    }
}

/// The bytes of a string, each escaped.
pub open spec fn escaped(bytes: Seq<u8>) -> Seq<u8>
    decreases bytes.len(),
{
    if bytes.len() == 0 {
        Seq::empty()
    } else {
        escaped(bytes.drop_last()) + escaped_byte(bytes.last())
    }
}

/// The escaped bytes, closed by a terminator that no escape contains.
pub open spec fn terminated(bytes: Seq<u8>) -> Seq<u8> {
    escaped(bytes) + seq![0u8, 0u8]
}

/// Append the encoding of a string's bytes.
fn put_terminated(bytes: &[u8], out: &mut Vec<u8>)
    ensures
        final(out)@ == old(out)@ + terminated(bytes@),
{
    let mut i: usize = 0;
    assert(bytes@.take(0) =~= Seq::<u8>::empty());
    assert(out@ =~= old(out)@ + escaped(bytes@.take(0)));
    while i < bytes.len()
        invariant
            i <= bytes@.len(),
            out@ == old(out)@ + escaped(bytes@.take(i as int)),
        decreases bytes@.len() - i,
    {
        let b: u8 = bytes[i];
        assert(bytes@.take(i + 1).drop_last() =~= bytes@.take(i as int));
        if b == 0 {
            out.push(0u8);
            out.push(0xffu8);
        } else {
            out.push(b);
        }
        i = i + 1;
        assert(out@ =~= old(out)@ + escaped(bytes@.take(i as int)));
    }
    assert(bytes@.take(i as int) =~= bytes@);
    out.push(0u8);
    out.push(0u8);
    assert(out@ =~= old(out)@ + terminated(bytes@));
}

impl Encodable for str {
    open spec fn encoded(&self) -> Seq<u8> {
        terminated(self.spec_bytes())
    }

    fn encode_to(&self, out: &mut Vec<u8>) {
        put_terminated(self.as_bytes(), out);
    }
}

impl Encodable for String {
    open spec fn encoded(&self) -> Seq<u8> {
        terminated(vstd::utf8::encode_utf8(self@))
    }

    fn encode_to(&self, out: &mut Vec<u8>) {
        self.as_str().encode_to(out);
    }
}

impl<T: Encodable> Encodable for &T {
    open spec fn encoded(&self) -> Seq<u8> {
        (**self).encoded()
    }

    fn encode_to(&self, out: &mut Vec<u8>) {
        (**self).encode_to(out);
    }
}

proof fn lemma_big_endian_len(v: nat, width: nat)
    ensures
        big_endian(v, width).len() == width,
    decreases width,
{
    if width > 0 {
        lemma_big_endian_len(v / 256, (width - 1) as nat);
    }
}

/// Of two byte strings of one length, the last byte decides only where all
/// before it agree.
proof fn lemma_lex_push(a: Seq<u8>, b: Seq<u8>, x: u8, y: u8)
    requires
        a.len() == b.len(),
        lex_lt(a, b) || (a == b && x < y),
    ensures
        lex_lt(a.push(x), b.push(y)),
{
    if lex_lt(a, b) {
        let i = choose|i: int| diverges(a, b, i);
        assert(diverges(a, b, i));
        assert(diverges(a.push(x), b.push(y), i));
    } else {
        assert(diverges(a.push(x), b.push(y), a.len() as int));
    }
}

proof fn lemma_pow_step(width: nat)
    requires
        width > 0,
    ensures
        pow(256, width) == 256 * pow(256, (width - 1) as nat),
{
    reveal(pow);
}

/// Big-endian bytes of one width compare as the numbers they stand for.
pub proof fn law_big_endian_preserves_order(v: nat, w: nat, width: nat)
    requires
        v < w,
        w < pow(256, width),
    ensures
        lex_lt(big_endian(v, width), big_endian(w, width)),
    decreases width,
{
    if width == 0 {
        lemma_pow0(256);
    } else {
        let n = (width - 1) as nat;
        lemma_pow_step(width);
        lemma_big_endian_len(v / 256, n);
        lemma_big_endian_len(w / 256, n);
        if v / 256 < w / 256 {
            law_big_endian_preserves_order(v / 256, w / 256, n);
        }
        lemma_lex_push(
            big_endian(v / 256, n),
            big_endian(w / 256, n),
            (v % 256) as u8,
            (w % 256) as u8,
        );
    }
}

proof fn lemma_widths()
    ensures
        pow(256, 1) == 0x100,
        pow(256, 2) == 0x1_0000,
        pow(256, 4) == 0x1_0000_0000,
        pow(256, 8) == 0x1_0000_0000_0000_0000,
        pow(256, 16) == 0x1_0000_0000_0000_0000_0000_0000_0000_0000,
{
    reveal_with_fuel(pow, 17);
}

/// Unsigned keys sort numerically, at every width.
pub proof fn law_unsigned_keys_sort_numerically(
    a8: u8,
    b8: u8,
    a16: u16,
    b16: u16,
    a32: u32,
    b32: u32,
    a64: u64,
    b64: u64,
    a128: u128,
    b128: u128,
)
    ensures
        a8 < b8 <==> lex_lt(a8.encoded(), b8.encoded()),
        a16 < b16 <==> lex_lt(a16.encoded(), b16.encoded()),
        a32 < b32 <==> lex_lt(a32.encoded(), b32.encoded()),
        a64 < b64 <==> lex_lt(a64.encoded(), b64.encoded()),
        a128 < b128 <==> lex_lt(a128.encoded(), b128.encoded()),
{
    lemma_widths();
    lemma_sorts(a8 as nat, b8 as nat, 1);
    lemma_sorts(a16 as nat, b16 as nat, 2);
    lemma_sorts(a32 as nat, b32 as nat, 4);
    lemma_sorts(a64 as nat, b64 as nat, 8);
    lemma_sorts(a128 as nat, b128 as nat, 16);
}

/// Signed keys sort numerically with negatives first, at every width.
pub proof fn law_signed_keys_sort_numerically(
    a8: i8,
    b8: i8,
    a16: i16,
    b16: i16,
    a32: i32,
    b32: i32,
    a64: i64,
    b64: i64,
    a128: i128,
    b128: i128,
)
    ensures
        a8 < b8 <==> lex_lt(a8.encoded(), b8.encoded()),
        a16 < b16 <==> lex_lt(a16.encoded(), b16.encoded()),
        a32 < b32 <==> lex_lt(a32.encoded(), b32.encoded()),
        a64 < b64 <==> lex_lt(a64.encoded(), b64.encoded()),
        a128 < b128 <==> lex_lt(a128.encoded(), b128.encoded()),
{
    lemma_widths();
    lemma_sorts((a8 + 0x80) as nat, (b8 + 0x80) as nat, 1);
    lemma_sorts((a16 + 0x8000) as nat, (b16 + 0x8000) as nat, 2);
    lemma_sorts((a32 + 0x8000_0000) as nat, (b32 + 0x8000_0000) as nat, 4);
    lemma_sorts(
        (a64 + 0x8000_0000_0000_0000) as nat,
        (b64 + 0x8000_0000_0000_0000) as nat,
        8,
    );
    lemma_sorts(
        (a128 + 0x8000_0000_0000_0000_0000_0000_0000_0000) as nat,
        (b128 + 0x8000_0000_0000_0000_0000_0000_0000_0000) as nat,
        16,
    );
}

proof fn lemma_sorts(v: nat, w: nat, width: nat)
    requires
        v < pow(256, width),
        w < pow(256, width),
    ensures
        v < w <==> lex_lt(big_endian(v, width), big_endian(w, width)),
{
    if v < w {
        law_big_endian_preserves_order(v, w, width);
    } else if w < v {
        law_big_endian_preserves_order(w, v, width);
        lemma_lex_asymmetric(big_endian(w, width), big_endian(v, width));
    } else {
        lemma_lex_irreflexive(big_endian(v, width));
    }
}

proof fn lemma_escaped_concat(a: Seq<u8>, b: Seq<u8>)
    ensures
        escaped(a + b) == escaped(a) + escaped(b),
    decreases b.len(),
{
    if b.len() == 0 {
        assert(a + b =~= a);
        assert(escaped(a) + escaped(b) =~= escaped(a));
    } else {
        lemma_escaped_concat(a, b.drop_last());
        assert((a + b).drop_last() =~= a + b.drop_last());
        assert(escaped(a) + (escaped(b.drop_last()) + escaped_byte(b.last())) =~= (escaped(a)
            + escaped(b.drop_last())) + escaped_byte(b.last()));
    }
}

/// What stands after the first `i` bytes in the encoding of `a`.
proof fn lemma_terminated_split(a: Seq<u8>, i: int)
    requires
        0 <= i <= a.len(),
    ensures
        terminated(a) == escaped(a.take(i)) + terminated(a.skip(i)),
        i == a.len() ==> terminated(a.skip(i)) == seq![0u8, 0u8],
        i < a.len() ==> terminated(a.skip(i)).len() >= escaped_byte(a[i]).len() + 2,
        i < a.len() ==> terminated(a.skip(i)).take(escaped_byte(a[i]).len() as int)
            == escaped_byte(a[i]),
{
    assert(a =~= a.take(i) + a.skip(i));
    lemma_escaped_concat(a.take(i), a.skip(i));
    assert(terminated(a) =~= escaped(a.take(i)) + terminated(a.skip(i)));
    if i == a.len() {
        assert(a.skip(i) =~= Seq::<u8>::empty());
        assert(terminated(a.skip(i)) =~= seq![0u8, 0u8]);
    } else {
        let rest = a.skip(i);
        let head = seq![a[i]];
        assert(rest =~= head + rest.skip(1));
        lemma_escaped_concat(head, rest.skip(1));
        assert(head.drop_last() =~= Seq::<u8>::empty());
        assert(escaped(Seq::<u8>::empty()) =~= Seq::<u8>::empty());
        assert(escaped(head) =~= escaped_byte(a[i]));
        assert(terminated(rest).take(escaped_byte(a[i]).len() as int) =~= escaped_byte(a[i]));
    }
}

/// Where two strings first differ, their encodings differ inside both.
proof fn lemma_terminated_diverges(a: Seq<u8>, b: Seq<u8>) -> (at: int)
    requires
        lex_lt(a, b),
    ensures
        diverges(terminated(a), terminated(b), at),
        at < terminated(a).len(),
{
    let i = choose|i: int| diverges(a, b, i);
    assert(diverges(a, b, i));
    lemma_terminated_split(a, i);
    lemma_terminated_split(b, i);
    assert(a.take(i) =~= b.take(i));
    let p = escaped(a.take(i));
    let x = terminated(a.skip(i));
    let y = terminated(b.skip(i));
    let eb = escaped_byte(b[i]);
    assert(y[0] == eb[0]) by {
        assert(y.take(eb.len() as int)[0] == eb[0]);
    }
    let d = if i == a.len() && b[i] == 0 {
        assert(y[1] == eb[1]) by {
            assert(y.take(eb.len() as int)[1] == eb[1]);
        }
        1int
    } else {
        if i < a.len() {
            let ea = escaped_byte(a[i]);
            assert(x[0] == ea[0]) by {
                assert(x.take(ea.len() as int)[0] == ea[0]);
            }
        }
        0int
    };
    assert(diverges(x, y, d));
    let at = p.len() + d;
    assert(diverges(p + x, p + y, at));
    at
}

/// Encoded strings sort as the strings' bytes do, and a string sorts before
/// everything that extends it.
pub proof fn law_string_keys_sort_bytewise(a: Seq<u8>, b: Seq<u8>)
    ensures
        lex_lt(a, b) <==> lex_lt(terminated(a), terminated(b)),
{
    lemma_lex_total(a, b);
    if lex_lt(a, b) {
        let at = lemma_terminated_diverges(a, b);
    } else if lex_lt(b, a) {
        let at = lemma_terminated_diverges(b, a);
        lemma_lex_asymmetric(terminated(b), terminated(a));
    } else {
        lemma_lex_irreflexive(terminated(a));
    }
}

/// In a composite key no string can forge the boundary to what follows it: the
/// encodings of two pairs are equal only where both halves are.
pub proof fn law_composite_keys_are_unambiguous(a: Seq<u8>, x: Seq<u8>, b: Seq<u8>, y: Seq<u8>)
    requires
        terminated(a) + x == terminated(b) + y,
    ensures
        a == b,
        x == y,
{
    lemma_lex_total(a, b);
    if lex_lt(a, b) {
        let at = lemma_terminated_diverges(a, b);
        assert((terminated(a) + x)[at] == terminated(a)[at]);
        assert((terminated(b) + y)[at] == terminated(b)[at]);
    } else if lex_lt(b, a) {
        let at = lemma_terminated_diverges(b, a);
        assert((terminated(a) + x)[at] == terminated(a)[at]);
        assert((terminated(b) + y)[at] == terminated(b)[at]);
    }
    let n = terminated(a).len() as int;
    assert((terminated(a) + x).skip(n) =~= x);
    assert((terminated(b) + y).skip(n) =~= y);
}

proof fn lemma_composite_before(a: Seq<u8>, x: Seq<u8>, b: Seq<u8>, y: Seq<u8>)
    requires
        lex_lt(a, b) || (a == b && lex_lt(x, y)),
    ensures
        lex_lt(terminated(a) + x, terminated(b) + y),
{
    if lex_lt(a, b) {
        let at = lemma_terminated_diverges(a, b);
        assert(diverges(terminated(a) + x, terminated(b) + y, at));
    } else {
        let i = choose|i: int| diverges(x, y, i);
        assert(diverges(terminated(a) + x, terminated(b) + y, terminated(a).len() + i));
    }
}

/// Composite keys sort by their first part, and where that is equal by what
/// follows, so a range over a prefix of the parts is a range of keys.
pub proof fn law_composite_keys_sort_by_their_parts(
    a: Seq<u8>,
    x: Seq<u8>,
    b: Seq<u8>,
    y: Seq<u8>,
)
    ensures
        lex_lt(terminated(a) + x, terminated(b) + y) <==> lex_lt(a, b) || (a == b && lex_lt(x, y)),
{
    lemma_lex_total(a, b);
    lemma_lex_total(x, y);
    if lex_lt(a, b) || (a == b && lex_lt(x, y)) {
        lemma_composite_before(a, x, b, y);
    } else if lex_lt(b, a) || (b == a && lex_lt(y, x)) {
        lemma_composite_before(b, y, a, x);
        lemma_lex_asymmetric(terminated(b) + y, terminated(a) + x);
        if a == b {
            lemma_lex_asymmetric(y, x);
        } else {
            lemma_lex_asymmetric(b, a);
        }
    } else {
        lemma_lex_irreflexive(terminated(a) + x);
    }
}

/// Two strings have the same encoding only if they are the same string.
pub proof fn law_string_keys_are_injective(a: String, b: String)
    requires
        a.encoded() == b.encoded(),
    ensures
        a@ == b@,
{
    let x = vstd::utf8::encode_utf8(a@);
    let y = vstd::utf8::encode_utf8(b@);
    law_composite_keys_are_unambiguous(x, Seq::empty(), y, Seq::empty());
    vstd::utf8::encode_utf8_decode_utf8(a@);
    vstd::utf8::encode_utf8_decode_utf8(b@);
}

/// Strings sort as their bytes do when they are encoded, and so do string slices:
/// one key comes before another if and only if the one string does. Equal keys are
/// those of equal strings.
pub proof fn law_encoded_strings_sort_as_their_bytes(a: String, b: String)
    ensures
        lex_lt(a.encoded(), b.encoded()) <==> lex_lt(
            vstd::utf8::encode_utf8(a@),
            vstd::utf8::encode_utf8(b@),
        ),
        a.encoded() == b.encoded() <==> a@ == b@,
        forall|x: IndexKey, y: IndexKey|
            #[trigger] call_ensures(<String as Encodable>::encode, (&a,), x)
                && #[trigger] call_ensures(<String as Encodable>::encode, (&b,), y) ==> {
                &&& lex_lt(x@, y@) <==> lex_lt(
                    vstd::utf8::encode_utf8(a@),
                    vstd::utf8::encode_utf8(b@),
                )
                &&& x@ == y@ <==> a@ == b@
            },
{
    law_string_keys_sort_bytewise(vstd::utf8::encode_utf8(a@), vstd::utf8::encode_utf8(b@));
    if a.encoded() == b.encoded() {
        law_string_keys_are_injective(a, b);
    }
}

/// The same of string slices, and that these have the keys of the strings they are
/// slices of.
pub proof fn law_encoded_slices_sort_as_their_bytes(a: &str, b: &str, s: String)
    ensures
        lex_lt(a.encoded(), b.encoded()) <==> lex_lt(
            vstd::utf8::encode_utf8(a@),
            vstd::utf8::encode_utf8(b@),
        ),
        a.encoded() == b.encoded() <==> a@ == b@,
        a@ == s@ ==> a.encoded() == s.encoded(),
{
    law_string_keys_sort_bytewise(vstd::utf8::encode_utf8(a@), vstd::utf8::encode_utf8(b@));
    if a.encoded() == b.encoded() {
        law_composite_keys_are_unambiguous(
            vstd::utf8::encode_utf8(a@),
            Seq::empty(),
            vstd::utf8::encode_utf8(b@),
            Seq::empty(),
        );
        vstd::utf8::encode_utf8_decode_utf8(a@);
        vstd::utf8::encode_utf8_decode_utf8(b@);
    }
}

/// A key that begins with a string sorts by the string first, and then by what
/// follows it; and it can be told where the string ends.
pub proof fn law_encoded_strings_can_be_followed(a: String, x: Seq<u8>, b: String, y: Seq<u8>)
    ensures
        lex_lt(a.encoded() + x, b.encoded() + y) <==> lex_lt(
            vstd::utf8::encode_utf8(a@),
            vstd::utf8::encode_utf8(b@),
        ) || (a@ == b@ && lex_lt(x, y)),
        a.encoded() + x == b.encoded() + y ==> a@ == b@ && x == y,
{
    let u = vstd::utf8::encode_utf8(a@);
    let v = vstd::utf8::encode_utf8(b@);
    law_composite_keys_sort_by_their_parts(u, x, v, y);
    vstd::utf8::encode_utf8_decode_utf8(a@);
    vstd::utf8::encode_utf8_decode_utf8(b@);
    if a.encoded() + x == b.encoded() + y {
        law_composite_keys_are_unambiguous(u, x, v, y);
    }
}

/// The key of an integer has as many bytes as the integer, so a composite key can be
/// taken apart.
pub proof fn law_integer_keys_have_a_width(
    a8: u8,
    a16: u16,
    a32: u32,
    a64: u64,
    a128: u128,
    i8_: i8,
    i16_: i16,
    i32_: i32,
    i64_: i64,
    i128_: i128,
)
    ensures
        a8.encoded().len() == 1 && i8_.encoded().len() == 1,
        a16.encoded().len() == 2 && i16_.encoded().len() == 2,
        a32.encoded().len() == 4 && i32_.encoded().len() == 4,
        a64.encoded().len() == 8 && i64_.encoded().len() == 8,
        a128.encoded().len() == 16 && i128_.encoded().len() == 16,
{
    lemma_big_endian_len(a8 as nat, 1);
    lemma_big_endian_len(a16 as nat, 2);
    lemma_big_endian_len(a32 as nat, 4);
    lemma_big_endian_len(a64 as nat, 8);
    lemma_big_endian_len(a128 as nat, 16);
    lemma_big_endian_len((i8_ + 0x80) as nat, 1);
    lemma_big_endian_len((i16_ + 0x8000) as nat, 2);
    lemma_big_endian_len((i32_ + 0x8000_0000) as nat, 4);
    lemma_big_endian_len((i64_ + 0x8000_0000_0000_0000) as nat, 8);
    lemma_big_endian_len((i128_ + 0x8000_0000_0000_0000_0000_0000_0000_0000) as nat, 16);
}

/// Encoding appends: what is there stays, and the key of the value follows. A reference
/// has the key of what it refers to.
pub proof fn law_encoding_appends<K: Encodable>(k: K)
    ensures
        (&k).encoded() == k.encoded(),
        forall|out: &mut Vec<u8>| #[trigger]
            call_ensures(K::encode_to, (&k, out), ()) ==> final(out)@ == out@ + k.encoded(),
        forall|r: IndexKey| #[trigger] call_ensures(K::encode, (&k,), r) ==> r@ == k.encoded(),
{
}

proof fn lemma_escaped_as_is(a: Seq<u8>)
    requires
        !a.contains(0),
    ensures
        escaped(a) == a,
    decreases a.len(),
{
    if a.len() > 0 {
        let rest = a.drop_last();
        assert(!rest.contains(0)) by {
            if rest.contains(0) {
                let i = choose|i: int| 0 <= i < rest.len() && rest[i] == 0;
                assert(a[i] == 0);
            }
        }
        lemma_escaped_as_is(rest);
        assert(a.last() != 0) by {
            assert(a.contains(a.last()));
        }
        assert(escaped(a) =~= a);
    }
}

/// The key of a string without zero bytes is its bytes and two zeros. Every zero byte of
/// a string stands in its key as a zero and 255, and the rest of the key is what it
/// would be of the parts.
pub proof fn law_string_keys_are_their_bytes(a: String, x: String, y: String)
    ensures
        !vstd::utf8::encode_utf8(a@).contains(0) ==> a.encoded() == vstd::utf8::encode_utf8(a@)
            + seq![0u8, 0u8],
        vstd::utf8::encode_utf8(a@) == vstd::utf8::encode_utf8(x@) + seq![0u8]
            + vstd::utf8::encode_utf8(y@) ==> a.encoded() == x.encoded().take(
            x.encoded().len() - 2,
        ) + seq![0u8, 0xffu8] + y.encoded(),
{
    let u = vstd::utf8::encode_utf8(a@);
    let p = vstd::utf8::encode_utf8(x@);
    let q = vstd::utf8::encode_utf8(y@);
    if !u.contains(0) {
        lemma_escaped_as_is(u);
    }
    if u == p + seq![0u8] + q {
        let zero = seq![0u8];
        lemma_escaped_concat(p + zero, q);
        lemma_escaped_concat(p, zero);
        assert(zero.drop_last() =~= Seq::empty());
        reveal_with_fuel(escaped, 2);
        assert(escaped(zero) =~= seq![0u8, 0xffu8]);
        assert(x.encoded().take(x.encoded().len() - 2) =~= escaped(p));
        assert(a.encoded() =~= x.encoded().take(x.encoded().len() - 2) + seq![0u8, 0xffu8]
            + y.encoded());
    }
}

} // verus!
