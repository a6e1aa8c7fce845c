//! A fast, non-cryptographic hasher for the small keys PDF machinery hashes
//! in bulk: dictionary names (`/Type`, `/Font`, …), object ids `(num, gen)`,
//! and glyph indices. The standard library's default `HashMap` uses
//! SipHash-1-3, which is DoS-resistant but far slower than necessary for
//! this data — the keys are short, the maps are in-process, and the input
//! has already been parsed, so hash-flooding is not a concern here.
//!
//! The construction is the well-known "FxHash": fold each machine word of
//! the key into an accumulator with a rotate, an xor, and a multiply by a
//! fixed odd constant. It is not seeded (hashing is deterministic across
//! runs), which is exactly what we want for a trusted in-process map.

use std::hash::{BuildHasherDefault, Hasher};
use vstd::arithmetic::power2::*;
use vstd::prelude::*;
use vstd::slice::slice_subrange;

verus! {

/// A [`std::collections::HashMap`] using [`FxHasher`] instead of SipHash.
pub type FastMap<K, V> = std::collections::HashMap<K, V, BuildHasherDefault<FxHasher>>;

/// A [`std::collections::HashSet`] using [`FxHasher`] instead of SipHash.
pub type FastSet<K> = std::collections::HashSet<K, BuildHasherDefault<FxHasher>>;

/// Odd multiplier giving good avalanche across the folded word.
pub const SEED: u64 = 0x517c_c1b7_2722_0a95;

/// The FxHash state: a single accumulator, folded one machine word at a
/// time. `Default` starts it at zero.
pub struct FxHasher {
    hash: u64,
}

impl View for FxHasher {
    type V = u64;

    closed spec fn view(&self) -> u64 {
        self.hash
    }
}

impl Default for FxHasher {
    fn default() -> (out: FxHasher)
        ensures
            out@ == 0,
    {
        FxHasher { hash: 0 }
    }
}

/// The accumulator after one word: rotated left by five, joined with the word,
/// multiplied by the seed.
pub open spec fn folded(hash: u64, word: u64) -> u64 {
    (((((hash << 5u64) | (hash >> 59u64)) ^ word) as int * SEED as int) % 0x1_0000_0000_0000_0000)
        as u64
}

/// The number that bytes make, the least significant first.
pub open spec fn little_endian(bytes: Seq<u8>) -> nat
    decreases bytes.len(),
{
    if bytes.len() == 0 {
        0
    } else {
        bytes[0] as nat + 256 * little_endian(bytes.skip(1))
    }
}

/// The accumulator after bytes: eight at a time, then four, then each.
pub open spec fn folded_bytes(hash: u64, bytes: Seq<u8>) -> u64
    decreases bytes.len(),
{
    if bytes.len() >= 8 {
        folded_bytes(folded(hash, little_endian(bytes.take(8)) as u64), bytes.skip(8))
    } else if bytes.len() >= 4 {
        folded_bytes(folded(hash, little_endian(bytes.take(4)) as u64), bytes.skip(4))
    } else if bytes.len() > 0 {
        folded_bytes(folded(hash, bytes[0] as u64), bytes.skip(1))
    } else {
        hash
    }
}

impl FxHasher {
    /// Folds one 64-bit chunk of key material into the accumulator.
    fn add_word(&mut self, word: u64)
        ensures
            final(self)@ == folded(old(self)@, word),
    {
        let hash: u64 = self.hash;
        let mixed: u64 = ((hash << 5u64) | (hash >> 59u64)) ^ word;
        self.hash = mixed.wrapping_mul(SEED);
    }
}

proof fn lemma_little_endian_bound(bytes: Seq<u8>)
    ensures
        little_endian(bytes) < pow2(8 * bytes.len()),
    decreases bytes.len(),
{
    if bytes.len() == 0 {
        lemma2_to64();
    } else {
        lemma_little_endian_bound(bytes.skip(1));
        lemma2_to64();
        lemma_pow2_adds(8, 8 * (bytes.len() - 1) as nat);
        assert(8 + 8 * (bytes.len() - 1) == 8 * bytes.len());
    }
}

/// The number that at most eight bytes make, the least significant first.
fn word(bytes: &[u8]) -> (out: u64)
    requires
        bytes@.len() <= 8,
    ensures
        out == little_endian(bytes@),
{
    let mut out: u64 = 0;
    let mut i: usize = bytes.len();
    assert(bytes@.skip(i as int) =~= Seq::<u8>::empty());
    while i > 0
        invariant
            i <= bytes@.len() <= 8,
            out == little_endian(bytes@.skip(i as int)),
        decreases i,
    {
        i -= 1;
        proof {
            let rest = bytes@.skip(i as int);
            assert(rest.skip(1) =~= bytes@.skip(i + 1));
            assert(rest[0] == bytes@[i as int]);
            lemma_little_endian_bound(rest);
            lemma_pow2_grows(8 * rest.len(), 64);
            lemma2_to64_rest();
        }
        out = bytes[i] as u64 + 256 * out;
    }
    assert(bytes@.skip(0) =~= bytes@);
    out
}

proof fn lemma_pow2_grows(a: nat, b: nat)
    requires
        a <= b,
    ensures
        pow2(a) <= pow2(b),
{
    if a < b {
        lemma_pow2_strictly_increases(a, b);
    }
}

impl Hasher for FxHasher {
    fn write(&mut self, bytes: &[u8])
        ensures
            final(self)@ == folded_bytes(old(self)@, bytes@),
    {
        // Fold 8 bytes at a time, then a 4-byte block, then the final tail —
        // covering short name keys without a byte-at-a-time loop.
        let ghost before = self@;
        let mut at: usize = 0;
        assert(bytes@.skip(0) =~= bytes@);
        while at < bytes.len()
            invariant
                at <= bytes@.len(),
                folded_bytes(before, bytes@) == folded_bytes(self@, bytes@.skip(at as int)),
            decreases bytes@.len() - at,
        {
            let ghost rest = bytes@.skip(at as int);
            let left: usize = bytes.len() - at;
            if left >= 8 {
                assert(bytes@.subrange(at as int, at + 8) =~= rest.take(8));
                assert(rest.skip(8) =~= bytes@.skip(at + 8));
                self.add_word(word(slice_subrange(bytes, at, at + 8)));
                at += 8;
            } else if left >= 4 {
                assert(bytes@.subrange(at as int, at + 4) =~= rest.take(4));
                assert(rest.skip(4) =~= bytes@.skip(at + 4));
                self.add_word(word(slice_subrange(bytes, at, at + 4)));
                at += 4;
            } else {
                assert(rest.skip(1) =~= bytes@.skip(at + 1));
                self.add_word(bytes[at] as u64);
                at += 1;
            }
        }
    }

    fn write_u8(&mut self, i: u8)
        ensures
            final(self)@ == folded(old(self)@, i as u64),
    {
        self.add_word(i as u64);
    }

    fn write_u16(&mut self, i: u16)
        ensures
            final(self)@ == folded(old(self)@, i as u64),
    {
        self.add_word(i as u64);
    }

    fn write_u32(&mut self, i: u32)
        ensures
            final(self)@ == folded(old(self)@, i as u64),
    {
        self.add_word(i as u64);
    }

    fn write_u64(&mut self, i: u64)
        ensures
            final(self)@ == folded(old(self)@, i),
    {
        self.add_word(i);
    }

    fn write_usize(&mut self, i: usize)
        ensures
            final(self)@ == folded(old(self)@, i as u64),
    {
        self.add_word(i as u64);
    }

    fn finish(&self) -> (out: u64)
        ensures
            out == self@,
    {
        self.hash
    }
}

proof fn lemma_seed_cancels(x: int, y: int)
    requires
        0 <= x < 0x1_0000_0000_0000_0000,
        0 <= y < 0x1_0000_0000_0000_0000,
        (x * SEED) % 0x1_0000_0000_0000_0000 == (y * SEED) % 0x1_0000_0000_0000_0000,
    ensures
        x == y,
{
    // The inverse of the seed modulo two to the 64, and what the product of the
    // two exceeds 1 by.
    let inverse = 0x2040003d780970bdint;
    let excess = 0xa43f77ae39dae8dint;
    let modulus = 0x1_0000_0000_0000_0000int;
    let q = (x * SEED) / modulus - (y * SEED) / modulus;
    let d = x - y;
    assert(d * SEED == modulus * q);
    assert(SEED * inverse == 1 + excess * modulus);
    let z = q * inverse - excess * d;
    assert(d == modulus * z) by (nonlinear_arith)
        requires
            d * SEED == modulus * q,
            SEED * inverse == 1 + excess * modulus,
            z == q * inverse - excess * d,
    {
        assert((d * SEED) * inverse == d * (SEED * inverse));
        assert((modulus * q) * inverse == modulus * (q * inverse));
        assert(d * (1 + excess * modulus) == d + modulus * (excess * d));
    }
}

/// Hashing tells words apart: from one state, two different words never lead
/// to the same state.
pub proof fn words_are_told_apart(hash: u64, a: u64, b: u64)
    requires
        folded(hash, a) == folded(hash, b),
    ensures
        a == b,
{
    let rotated = (hash << 5u64) | (hash >> 59u64);
    lemma_seed_cancels((rotated ^ a) as int, (rotated ^ b) as int);
    assert(rotated ^ a == rotated ^ b ==> a == b) by (bit_vector);
}

/// Law: folding a word into a hash: the hash turned by five bits to the left,
/// what leaves at the top coming in at the bottom, and the word, combined bit by
/// bit and multiplied, what exceeds 64 bits being dropped.
pub proof fn folding_turns_and_multiplies(hash: u64, word: u64)
    ensures
        ({
            let turned = ((hash % 0x0800_0000_0000_0000) * 32 + hash / 0x0800_0000_0000_0000) as u64;
            folded(hash, word) as int == ((turned ^ word) as int * 0x517c_c1b7_2722_0a95) % (
            0x1_0000_0000_0000_0000)
        }),
        folded(0, word) as int == (word as int * 0x517c_c1b7_2722_0a95) % 0x1_0000_0000_0000_0000,
{
    assert(((hash << 5u64) | (hash >> 59u64)) == ((hash % 0x0800_0000_0000_0000) * 32 + hash
        / 0x0800_0000_0000_0000) as u64) by (bit_vector);
    assert(((0u64 << 5u64) | (0u64 >> 59u64)) ^ word == word) by (bit_vector);
}

/// Law: bytes are folded in words of eight, then of four, the lowest byte first,
/// then one by one.
pub proof fn bytes_are_folded_in_words(hash: u64, a: u8, b: u8, c: u8, d: u8, rest: Seq<u8>)
    requires
        rest.len() < 4,
    ensures
        folded_bytes(hash, seq![a, b, c, d] + rest) == folded_bytes(
            folded(hash, (a + 0x100 * b + 0x1_0000 * c + 0x100_0000 * d) as u64),
            rest,
        ),
        folded_bytes(hash, seq![a]) == folded(hash, a as u64),
        folded_bytes(hash, Seq::empty()) == hash,
{
    let all = seq![a, b, c, d] + rest;
    assert(all.take(4) =~= seq![a, b, c, d]);
    assert(all.skip(4) =~= rest);
    let four = seq![a, b, c, d];
    assert(four.skip(1) =~= seq![b, c, d]);
    assert(seq![b, c, d].skip(1) =~= seq![c, d]);
    assert(seq![c, d].skip(1) =~= seq![d]);
    assert(seq![d].skip(1) =~= Seq::<u8>::empty());
    reveal_with_fuel(little_endian, 5);
    assert(seq![a].skip(1) =~= Seq::<u8>::empty());
    reveal_with_fuel(folded_bytes, 2);
}

/// Law: eight bytes and more are folded eight at a time.
pub proof fn long_bytes_are_folded_by_eight(hash: u64, low: Seq<u8>, high: Seq<u8>, rest: Seq<u8>)
    requires
        low.len() == 4,
        high.len() == 4,
    ensures
        folded_bytes(hash, low + high + rest) == folded_bytes(
            folded(
                hash,
                (little_endian(low) + 0x1_0000_0000 * little_endian(high)) as u64,
            ),
            rest,
        ),
{
    let all = low + high + rest;
    assert(all.take(8) =~= low + high);
    assert(all.skip(8) =~= rest);
    let w = low + high;
    assert(w.skip(1) =~= low.skip(1) + high);
    assert((low.skip(1) + high).skip(1) =~= low.skip(2) + high);
    assert((low.skip(2) + high).skip(1) =~= low.skip(3) + high);
    assert((low.skip(3) + high).skip(1) =~= high);
    assert(low.skip(1).skip(1) =~= low.skip(2));
    assert(low.skip(2).skip(1) =~= low.skip(3));
    assert(low.skip(3).skip(1) =~= Seq::<u8>::empty());
    reveal_with_fuel(little_endian, 5);
}

} // verus!
