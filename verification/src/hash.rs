//! A fast, non-cryptographic hasher for the engine's key map.
//!
//! Keys come from the application's own records, so resistance against chosen
//! collisions would do no work here. The construction is multiply-xor-rotate, a
//! few instructions per word.

use vstd::arithmetic::power::{lemma_pow0, lemma_pow_increases, pow};
use vstd::prelude::*;
use vstd::string::*;

use crate::schema::IndexKey;

verus! {

/// The odd multiplier that spreads the entropy of a word.
pub const SEED: u64 = 0x517c_c1b7_2722_0a95;

/// The hash `h` after one more word.
pub open spec fn mixed(h: u64, word: u64) -> u64 {
    (((h << 5u64) | (h >> 59u64)) ^ word).wrapping_mul(SEED)
}

/// The number that `bytes` stand for, least significant byte first.
pub open spec fn little_endian(bytes: Seq<u8>) -> nat
    decreases bytes.len(),
{
    if bytes.len() == 0 {
        0
    } else {
        bytes[0] as nat + 256 * little_endian(bytes.drop_first())
    }
}

/// The hash `h` after `bytes`, taken eight at a time and the rest as one word.
pub open spec fn absorbed_bytes(h: u64, bytes: Seq<u8>) -> u64
    decreases bytes.len(),
{
    if bytes.len() == 0 {
        h
    } else if bytes.len() < 8 {
        mixed(h, little_endian(bytes) as u64)
    } else {
        absorbed_bytes(mixed(h, little_endian(bytes.take(8)) as u64), bytes.skip(8))
    }
}

#[derive(Clone, Copy, Debug)]
pub struct FxHasher {
    pub hash: u64,
}

impl Default for FxHasher {
    fn default() -> (h: Self)
        ensures
            h.hash == 0,
    {
        FxHasher { hash: 0 }
    }
}

/// The word in the `n` bytes from `start`, least significant first.
fn word_at(bytes: &[u8], start: usize, n: usize) -> (w: u64)
    requires
        n <= 8,
        start + n <= bytes@.len(),
    ensures
        w == little_endian(bytes@.subrange(start as int, start + n)),
{
    let mut w: u64 = 0;
    let mut k: usize = 0;
    let len: usize = bytes.len();
    proof {
        lemma_pow0(256);
        assert(bytes@.subrange(start + n, start + n) =~= Seq::<u8>::empty());
    }
    while k < n
        invariant
            k <= n <= 8,
            start + n <= bytes@.len() == len,
            w == little_endian(bytes@.subrange(start + n - k, start + n)),
            w < pow(256, k as nat),
        decreases n - k,
    {
        let b: u8 = bytes[start + (n - 1 - k)];
        proof {
            let s = bytes@.subrange(start + n - (k + 1), start + n);
            assert(s.drop_first() =~= bytes@.subrange(start + n - k, start + n));
            assert(pow(256, (k + 1) as nat) == 256 * pow(256, k as nat)) by {
                reveal(pow);
            }
            lemma_pow_increases(256, (k + 1) as nat, 8);
            assert(pow(256, 8) == 0x1_0000_0000_0000_0000) by {
                reveal_with_fuel(pow, 9);
            }
        }
        w = w * 256 + b as u64;
        k = k + 1;
    }
    w
}

impl FxHasher {
    /// Mix in one word.
    fn mix(&mut self, word: u64)
        ensures
            final(self).hash == mixed(old(self).hash, word),
    {
        let h: u64 = self.hash;
        self.hash = (((h << 5u64) | (h >> 59u64)) ^ word).wrapping_mul(SEED);
    }

    pub fn finish(&self) -> (h: u64)
        ensures
            h == self.hash,
    {
        self.hash
    }

    pub fn write(&mut self, bytes: &[u8])
        ensures
            final(self).hash == absorbed_bytes(old(self).hash, bytes@),
    {
        let mut i: usize = 0;
        assert(bytes@.skip(0) =~= bytes@);
        while bytes.len() - i >= 8
            invariant
                i <= bytes@.len(),
                absorbed_bytes(self.hash, bytes@.skip(i as int)) == absorbed_bytes(
                    old(self).hash,
                    bytes@,
                ),
            decreases bytes@.len() - i,
        {
            assert(bytes@.skip(i as int).take(8) =~= bytes@.subrange(i as int, i + 8));
            assert(bytes@.skip(i as int).skip(8) =~= bytes@.skip(i + 8));
            let w: u64 = word_at(bytes, i, 8);
            self.mix(w);
            i = i + 8;
        }
        let rest: usize = bytes.len() - i;
        if rest > 0 {
            assert(bytes@.skip(i as int) =~= bytes@.subrange(i as int, i + rest));
            let w: u64 = word_at(bytes, i, rest);
            self.mix(w);
        }
    }

    pub fn write_u8(&mut self, n: u8)
        ensures
            final(self).hash == mixed(old(self).hash, n as u64),
    {
        self.mix(n as u64)
    }

    pub fn write_u16(&mut self, n: u16)
        ensures
            final(self).hash == mixed(old(self).hash, n as u64),
    {
        self.mix(n as u64)
    }

    pub fn write_u32(&mut self, n: u32)
        ensures
            final(self).hash == mixed(old(self).hash, n as u64),
    {
        self.mix(n as u64)
    }

    pub fn write_u64(&mut self, n: u64)
        ensures
            final(self).hash == mixed(old(self).hash, n),
    {
        self.mix(n)
    }

    pub fn write_u128(&mut self, n: u128)
        ensures
            final(self).hash == mixed(
                mixed(old(self).hash, #[verifier::truncate] (n as u64)),
                #[verifier::truncate] ((n >> 64u128) as u64),
            ),
    {
        self.mix(#[verifier::truncate] (n as u64));
        self.mix(#[verifier::truncate] ((n >> 64u128) as u64));
    }

    pub fn write_usize(&mut self, n: usize)
        ensures
            final(self).hash == mixed(old(self).hash, n as u64),
    {
        self.mix(n as u64)
    }

    pub fn write_i8(&mut self, n: i8)
        ensures
            final(self).hash == mixed(old(self).hash, #[verifier::truncate] (n as u64)),
    {
        self.mix(#[verifier::truncate] (n as u64))
    }

    pub fn write_i16(&mut self, n: i16)
        ensures
            final(self).hash == mixed(old(self).hash, #[verifier::truncate] (n as u64)),
    {
        self.mix(#[verifier::truncate] (n as u64))
    }

    pub fn write_i32(&mut self, n: i32)
        ensures
            final(self).hash == mixed(old(self).hash, #[verifier::truncate] (n as u64)),
    {
        self.mix(#[verifier::truncate] (n as u64))
    }

    pub fn write_i64(&mut self, n: i64)
        ensures
            final(self).hash == mixed(old(self).hash, #[verifier::truncate] (n as u64)),
    {
        self.mix(#[verifier::truncate] (n as u64))
    }

    pub fn write_isize(&mut self, n: isize)
        ensures
            final(self).hash == mixed(old(self).hash, #[verifier::truncate] (n as u64)),
    {
        self.mix(#[verifier::truncate] (n as u64))
    }
}

/// Types the hasher accepts.
pub trait HashKey {
    /// The hash `h` after this value.
    spec fn absorbed(&self, h: u64) -> u64;

    fn hash_into(&self, hasher: &mut FxHasher)
        ensures
            final(hasher).hash == self.absorbed(old(hasher).hash),
    ;
}

impl HashKey for u64 {
    open spec fn absorbed(&self, h: u64) -> u64 {
        mixed(h, *self)
    }

    fn hash_into(&self, hasher: &mut FxHasher) {
        hasher.write_u64(*self);
    }
}

impl HashKey for str {
    /// The bytes, closed by one that no text contains.
    open spec fn absorbed(&self, h: u64) -> u64 {
        mixed(absorbed_bytes(h, self.spec_bytes()), 0xff)
    }

    fn hash_into(&self, hasher: &mut FxHasher) {
        hasher.write(self.as_bytes());
        hasher.write_u8(0xff);
    }
}

impl HashKey for IndexKey {
    /// The length, then the bytes.
    open spec fn absorbed(&self, h: u64) -> u64 {
        absorbed_bytes(mixed(h, self@.len() as u64), self@)
    }

    fn hash_into(&self, hasher: &mut FxHasher) {
        hasher.write_usize(self.0.len());
        hasher.write(self.as_bytes());
    }
}

/// Hash one key.
pub fn hash_one<K: HashKey + ?Sized>(key: &K) -> (h: u64)
    ensures
        h == key.absorbed(0),
{
    let mut hasher = FxHasher { hash: 0 };
    key.hash_into(&mut hasher);
    hasher.finish()
}

/// Multiplying by the seed can be undone.
proof fn lemma_seed(a: u64, b: u64)
    requires
        (a * SEED) % 0x1_0000_0000_0000_0000 == (b * SEED) % 0x1_0000_0000_0000_0000,
    ensures
        a == b,
{
    let m: int = 0x1_0000_0000_0000_0000;
    let inverse: int = 0x2040003d780970bdint;
    assert((SEED * inverse) % m == 1) by (nonlinear_arith)
        requires
            inverse == 0x2040003d780970bdint,
            m == 0x1_0000_0000_0000_0000,
            SEED == 0x517c_c1b7_2722_0a95u64,
    ;
    vstd::arithmetic::div_mod::lemma_mul_mod_noop(a * SEED, inverse, m);
    vstd::arithmetic::div_mod::lemma_mul_mod_noop(b * SEED, inverse, m);
    vstd::arithmetic::mul::lemma_mul_is_associative(a as int, SEED as int, inverse);
    vstd::arithmetic::mul::lemma_mul_is_associative(b as int, SEED as int, inverse);
    vstd::arithmetic::div_mod::lemma_mul_mod_noop(a as int, SEED * inverse, m);
    vstd::arithmetic::div_mod::lemma_mul_mod_noop(b as int, SEED * inverse, m);
    vstd::arithmetic::div_mod::lemma_small_mod(a as nat, m as nat);
    vstd::arithmetic::div_mod::lemma_small_mod(b as nat, m as nat);
}

/// The hash `h` with one more word stirred in: turned left by five bits, crossed with the
/// word, and multiplied by the seed.
pub open spec fn stirred(h: u64, word: int) -> int {
    let turned = ((h % 0x0800_0000_0000_0000) * 32 + h / 0x0800_0000_0000_0000) as u64;
    ((turned ^ (word as u64)) * 0x517c_c1b7_2722_0a95) % 0x1_0000_0000_0000_0000
}

/// A number as a word of 64 bits, a negative one from the top.
pub open spec fn wide(n: int) -> int {
    if n < 0 {
        n + 0x1_0000_0000_0000_0000
    } else {
        n
    }
}

proof fn lemma_stirred(h: u64, word: u64)
    ensures
        mixed(h, word) == stirred(h, word as int),
{
    assert(((h << 5u64) | (h >> 59u64)) == (h % 0x0800_0000_0000_0000u64) * 32 + h
        / 0x0800_0000_0000_0000u64) by (bit_vector);
    let x = ((h << 5u64) | (h >> 59u64)) ^ word;
    vstd::arithmetic::div_mod::lemma_mod_bound(x * SEED, 0x1_0000_0000_0000_0000);
}

/// Hashing a number stirs it in as one word, whatever its type.
pub proof fn law_numbers_are_stirred_in_as_words()
    ensures
        forall|h: &mut FxHasher, n: u8| #[trigger]
            call_ensures(FxHasher::write_u8, (h, n), ()) ==> final(h).hash == stirred(
                h.hash,
                n as int,
            ),
        forall|h: &mut FxHasher, n: u16| #[trigger]
            call_ensures(FxHasher::write_u16, (h, n), ()) ==> final(h).hash == stirred(
                h.hash,
                n as int,
            ),
        forall|h: &mut FxHasher, n: u32| #[trigger]
            call_ensures(FxHasher::write_u32, (h, n), ()) ==> final(h).hash == stirred(
                h.hash,
                n as int,
            ),
        forall|h: &mut FxHasher, n: u64| #[trigger]
            call_ensures(FxHasher::write_u64, (h, n), ()) ==> final(h).hash == stirred(
                h.hash,
                n as int,
            ),
        forall|h: &mut FxHasher, n: usize| #[trigger]
            call_ensures(FxHasher::write_usize, (h, n), ()) ==> final(h).hash == stirred(
                h.hash,
                n as int,
            ),
        forall|h: &mut FxHasher, n: i8| #[trigger]
            call_ensures(FxHasher::write_i8, (h, n), ()) ==> final(h).hash == stirred(
                h.hash,
                wide(n as int),
            ),
        forall|h: &mut FxHasher, n: i16| #[trigger]
            call_ensures(FxHasher::write_i16, (h, n), ()) ==> final(h).hash == stirred(
                h.hash,
                wide(n as int),
            ),
        forall|h: &mut FxHasher, n: i32| #[trigger]
            call_ensures(FxHasher::write_i32, (h, n), ()) ==> final(h).hash == stirred(
                h.hash,
                wide(n as int),
            ),
        forall|h: &mut FxHasher, n: i64| #[trigger]
            call_ensures(FxHasher::write_i64, (h, n), ()) ==> final(h).hash == stirred(
                h.hash,
                wide(n as int),
            ),
        forall|h: &mut FxHasher, n: isize| #[trigger]
            call_ensures(FxHasher::write_isize, (h, n), ()) ==> final(h).hash == stirred(
                h.hash,
                wide(n as int),
            ),
        forall|h: &mut FxHasher, n: u128| #[trigger]
            call_ensures(FxHasher::write_u128, (h, n), ()) ==> final(h).hash == stirred(
                stirred(h.hash, n as int % 0x1_0000_0000_0000_0000) as u64,
                n as int / 0x1_0000_0000_0000_0000,
            ),
{
    assert forall|h: &mut FxHasher, n: u8| #[trigger]
        call_ensures(FxHasher::write_u8, (h, n), ()) implies final(h).hash == stirred(
        h.hash,
        n as int,
    ) by {
        lemma_stirred(h.hash, n as u64);
    }
    assert forall|h: &mut FxHasher, n: u16| #[trigger]
        call_ensures(FxHasher::write_u16, (h, n), ()) implies final(h).hash == stirred(
        h.hash,
        n as int,
    ) by {
        lemma_stirred(h.hash, n as u64);
    }
    assert forall|h: &mut FxHasher, n: u32| #[trigger]
        call_ensures(FxHasher::write_u32, (h, n), ()) implies final(h).hash == stirred(
        h.hash,
        n as int,
    ) by {
        lemma_stirred(h.hash, n as u64);
    }
    assert forall|h: &mut FxHasher, n: u64| #[trigger]
        call_ensures(FxHasher::write_u64, (h, n), ()) implies final(h).hash == stirred(
        h.hash,
        n as int,
    ) by {
        lemma_stirred(h.hash, n as u64);
    }
    assert forall|h: &mut FxHasher, n: usize| #[trigger]
        call_ensures(FxHasher::write_usize, (h, n), ()) implies final(h).hash == stirred(
        h.hash,
        n as int,
    ) by {
        lemma_stirred(h.hash, n as u64);
    }
    assert forall|h: &mut FxHasher, n: i8| #[trigger]
        call_ensures(FxHasher::write_i8, (h, n), ()) implies final(h).hash == stirred(
        h.hash,
        wide(n as int),
    ) by {
        assert((#[verifier::truncate] (n as u64)) == if n < 0 {
            n + 0x1_0000_0000_0000_0000
        } else {
            n as int
        }) by (bit_vector);
        lemma_stirred(h.hash, #[verifier::truncate] (n as u64));
    }
    assert forall|h: &mut FxHasher, n: i16| #[trigger]
        call_ensures(FxHasher::write_i16, (h, n), ()) implies final(h).hash == stirred(
        h.hash,
        wide(n as int),
    ) by {
        assert((#[verifier::truncate] (n as u64)) == if n < 0 {
            n + 0x1_0000_0000_0000_0000
        } else {
            n as int
        }) by (bit_vector);
        lemma_stirred(h.hash, #[verifier::truncate] (n as u64));
    }
    assert forall|h: &mut FxHasher, n: i32| #[trigger]
        call_ensures(FxHasher::write_i32, (h, n), ()) implies final(h).hash == stirred(
        h.hash,
        wide(n as int),
    ) by {
        assert((#[verifier::truncate] (n as u64)) == if n < 0 {
            n + 0x1_0000_0000_0000_0000
        } else {
            n as int
        }) by (bit_vector);
        lemma_stirred(h.hash, #[verifier::truncate] (n as u64));
    }
    assert forall|h: &mut FxHasher, n: i64| #[trigger]
        call_ensures(FxHasher::write_i64, (h, n), ()) implies final(h).hash == stirred(
        h.hash,
        wide(n as int),
    ) by {
        assert((#[verifier::truncate] (n as u64)) == if n < 0 {
            n + 0x1_0000_0000_0000_0000
        } else {
            n as int
        }) by (bit_vector);
        lemma_stirred(h.hash, #[verifier::truncate] (n as u64));
    }
    assert forall|h: &mut FxHasher, n: isize| #[trigger]
        call_ensures(FxHasher::write_isize, (h, n), ()) implies final(h).hash == stirred(
        h.hash,
        wide(n as int),
    ) by {
        assert((#[verifier::truncate] (n as u64)) == if n < 0 {
            n + 0x1_0000_0000_0000_0000
        } else {
            n as int
        }) by (bit_vector);
        lemma_stirred(h.hash, #[verifier::truncate] (n as u64));
    }
    assert forall|h: &mut FxHasher, n: u128| #[trigger]
        call_ensures(FxHasher::write_u128, (h, n), ()) implies final(h).hash == stirred(
        stirred(h.hash, n as int % 0x1_0000_0000_0000_0000) as u64,
        n as int / 0x1_0000_0000_0000_0000,
    ) by {
        let low = #[verifier::truncate] (n as u64);
        let high = #[verifier::truncate] ((n >> 64u128) as u64);
        assert((#[verifier::truncate] (n as u64)) == n % 0x1_0000_0000_0000_0000u128)
            by (bit_vector);
        assert((#[verifier::truncate] ((n >> 64u128) as u64)) == n / 0x1_0000_0000_0000_0000u128)
            by (bit_vector);
        lemma_stirred(h.hash, low);
        lemma_stirred(mixed(h.hash, low), high);
    }
}

/// Two words leave the same hash only if they are the same.
pub proof fn law_different_words_leave_different_hashes(h: u64, a: u64, b: u64)
    requires
        stirred(h, a as int) == stirred(h, b as int),
    ensures
        a == b,
{
    let turned = ((h % 0x0800_0000_0000_0000) * 32 + h / 0x0800_0000_0000_0000) as u64;
    lemma_seed(turned ^ a, turned ^ b);
    assert(turned ^ a == turned ^ b ==> a == b) by (bit_vector);
}

/// The word that eight bytes stand for, the least significant first.
pub open spec fn word_of(b: Seq<u8>) -> int {
    b[0] + 0x100 * b[1] + 0x1_0000 * b[2] + 0x100_0000 * b[3] + 0x1_0000_0000 * b[4]
        + 0x100_0000_0000 * b[5] + 0x1_0000_0000_0000 * b[6] + 0x100_0000_0000_0000 * b[7]
}

proof fn lemma_word_of(b: Seq<u8>)
    requires
        b.len() == 8,
    ensures
        little_endian(b) == word_of(b),
{
    reveal_with_fuel(little_endian, 9);
    let c1 = b.drop_first();
    let c2 = c1.drop_first();
    let c3 = c2.drop_first();
    let c4 = c3.drop_first();
    let c5 = c4.drop_first();
    let c6 = c5.drop_first();
    let c7 = c6.drop_first();
    let c8 = c7.drop_first();
    assert(c7[0] == b[7] && c6[0] == b[6] && c5[0] == b[5] && c4[0] == b[4]);
    assert(c3[0] == b[3] && c2[0] == b[2] && c1[0] == b[1]);
    assert(little_endian(c8) == 0);
}

proof fn lemma_padded(b: Seq<u8>, n: nat)
    ensures
        little_endian(b + Seq::new(n, |i: int| 0u8)) == little_endian(b),
    decreases b.len(), n,
{
    let zeros = Seq::new(n, |i: int| 0u8);
    if b.len() > 0 {
        lemma_padded(b.drop_first(), n);
        assert((b + zeros).drop_first() =~= b.drop_first() + zeros);
    } else if n > 0 {
        lemma_padded(b, (n - 1) as nat);
        assert((b + zeros).drop_first() =~= b + Seq::new((n - 1) as nat, |i: int| 0u8));
    }
}

/// Hashing bytes stirs in eight at a time as one word, and what is left over as if it
/// were filled up with zeros.
pub proof fn law_bytes_are_stirred_in_by_eights(bytes: &[u8])
    ensures
        forall|h: &mut FxHasher| #[trigger]
            call_ensures(FxHasher::write, (h, bytes), ()) ==> {
                &&& bytes@.len() == 0 ==> final(h).hash == h.hash
                &&& 0 < bytes@.len() <= 8 ==> final(h).hash == stirred(
                    h.hash,
                    word_of(bytes@ + Seq::new((8 - bytes@.len()) as nat, |i: int| 0u8)),
                )
            },
        forall|h: &mut FxHasher, first: &mut FxHasher, rest: &mut FxHasher, a: &[u8], b: &[u8]|
            #[trigger] call_ensures(FxHasher::write, (h, bytes), ())
                && #[trigger] call_ensures(FxHasher::write, (first, a), ())
                && #[trigger] call_ensures(FxHasher::write, (rest, b), ()) && first.hash == h.hash
                && final(first).hash == rest.hash && a@.len() == 8 && bytes@ == a@ + b@
                ==> final(h).hash == final(rest).hash,
{
    assert forall|h: &mut FxHasher| #[trigger]
        call_ensures(FxHasher::write, (h, bytes), ()) implies {
        &&& bytes@.len() == 0 ==> final(h).hash == h.hash
        &&& 0 < bytes@.len() <= 8 ==> final(h).hash == stirred(
            h.hash,
            word_of(bytes@ + Seq::new((8 - bytes@.len()) as nat, |i: int| 0u8)),
        )
    } by {
        if 0 < bytes@.len() <= 8 {
            let n = (8 - bytes@.len()) as nat;
            let full = bytes@ + Seq::new(n, |i: int| 0u8);
            lemma_padded(bytes@, n);
            lemma_word_of(full);
            lemma_stirred(h.hash, little_endian(bytes@) as u64);
            if bytes@.len() == 8 {
                assert(bytes@.take(8) =~= bytes@);
                assert(bytes@.skip(8) =~= Seq::empty());
                assert(absorbed_bytes(mixed(h.hash, little_endian(bytes@) as u64), bytes@.skip(8))
                    == mixed(h.hash, little_endian(bytes@) as u64));
            }
        }
    }
    assert forall|h: &mut FxHasher, first: &mut FxHasher, rest: &mut FxHasher, a: &[u8], b: &[u8]|
        #[trigger] call_ensures(FxHasher::write, (h, bytes), ())
            && #[trigger] call_ensures(FxHasher::write, (first, a), ())
            && #[trigger] call_ensures(FxHasher::write, (rest, b), ()) && first.hash == h.hash
            && final(first).hash == rest.hash && a@.len() == 8 && bytes@ == a@ + b@ implies
        final(h).hash == final(rest).hash by {
        assert(bytes@.take(8) =~= a@);
        assert(bytes@.skip(8) =~= b@);
        assert(a@.take(8) =~= a@);
        assert(a@.skip(8) =~= Seq::empty());
        assert(absorbed_bytes(mixed(h.hash, little_endian(a@) as u64), a@.skip(8)) == mixed(
            h.hash,
            little_endian(a@) as u64,
        ));
    }
}

/// A key is hashed from nothing: a number as it is; a text by its bytes, and 255 after
/// them; and an encoded key by its length, and its bytes after that.
pub proof fn law_keys_are_hashed_from_nothing(n: u64, text: &str, key: IndexKey)
    ensures
        forall|h: u64, x: &mut FxHasher|
            #[trigger] call_ensures(hash_one::<u64>, (&n,), h) && x.hash == 0
                && #[trigger] call_ensures(FxHasher::write_u64, (x, n), ()) ==> h == final(x).hash,
        forall|h: u64, x: &mut FxHasher, y: &mut FxHasher, bytes: &[u8]|
            #[trigger] call_ensures(hash_one::<str>, (text,), h) && x.hash == 0 && bytes@
                == text.spec_bytes() && #[trigger] call_ensures(FxHasher::write, (x, bytes), ())
                && y.hash == final(x).hash && #[trigger] call_ensures(
                FxHasher::write_u8,
                (y, 255),
                (),
            ) ==> h == final(y).hash,
        forall|h: u64, x: &mut FxHasher, y: &mut FxHasher, bytes: &[u8], len: usize|
            #[trigger] call_ensures(hash_one::<IndexKey>, (&key,), h) && x.hash == 0 && bytes@
                == key@ && len == key@.len() && #[trigger] call_ensures(
                FxHasher::write_usize,
                (x, len),
                (),
            ) && y.hash == final(x).hash && #[trigger] call_ensures(
                FxHasher::write,
                (y, bytes),
                (),
            ) ==> h == final(y).hash,
{
}

} // verus!
