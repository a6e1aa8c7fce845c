//! A cursor over the bits of a segment, most significant bit of a byte first.

use crate::filters::jbig2::{FaultV, Jbig2Error, Step};
use crate::filters::lzw;
use vstd::arithmetic::power2::*;
use vstd::prelude::*;
use vstd::slice::slice_subrange;

verus! {

/// A cursor over the bits of a segment.
pub struct BitReader<'a> {
    data: &'a [u8],
    /// The byte that holds the next bit.
    byte: usize,
    /// How many bits of that byte have been read.
    bit: u8,
}

/// What a bit cursor is: the bytes it reads and the position of the next bit.
#[verifier::ext_equal]
pub struct BitsV {
    pub data: Seq<u8>,
    pub pos: int,
}

/// The next `count` bits as a number.
pub open spec fn bits_of(s: BitsV, count: nat) -> Step<nat, BitsV> {
    if s.pos + count <= 8 * s.data.len() {
        Ok(
            (
                lzw::bits_value(s.data, s.pos, s.pos + count),
                BitsV { data: s.data, pos: s.pos + count },
            ),
        )
    } else {
        Err((FaultV::Truncated, BitsV { data: s.data, pos: 8 * s.data.len() as int }))
    }
}

/// The cursor moved to the next byte boundary.
pub open spec fn aligned(s: BitsV) -> BitsV {
    BitsV { data: s.data, pos: (s.pos + 7) / 8 * 8 }
}

/// The next `count` bytes from a byte boundary on.
pub open spec fn bytes_of(s: BitsV, count: nat) -> Step<Seq<u8>, BitsV> {
    if s.pos / 8 + count <= s.data.len() {
        Ok(
            (
                s.data.subrange(s.pos / 8, s.pos / 8 + count),
                BitsV { data: s.data, pos: s.pos + 8 * count },
            ),
        )
    } else {
        Err((FaultV::Truncated, s))
    }
}

impl<'a> View for BitReader<'a> {
    type V = BitsV;

    closed spec fn view(&self) -> BitsV {
        BitsV { data: self.data@, pos: 8 * self.byte + self.bit }
    }
}

impl<'a> BitReader<'a> {
    #[verifier::type_invariant]
    spec fn inside(self) -> bool {
        &&& self.byte <= self.data@.len()
        &&& self.bit < 8
        &&& self.byte == self.data@.len() ==> self.bit == 0
    }

    /// A cursor at the start of `data`.
    pub fn new(data: &'a [u8]) -> (out: BitReader<'a>)
        ensures
            out@ == (BitsV { data: data@, pos: 0 }),
    {
        BitReader { data, byte: 0, bit: 0 }
    }

    /// The next bit, if there is one.
    pub fn read_bit(&mut self) -> (out: Option<u8>)
        ensures
            match out {
                Some(bit) => bits_of(old(self)@, 1) == Step::<nat, BitsV>::Ok(
                    (bit as nat, final(self)@),
                ) && bit <= 1,
                None => bits_of(old(self)@, 1) == Step::<nat, BitsV>::Err(
                    (FaultV::Truncated, final(self)@),
                ),
            },
            final(self)@.data == old(self)@.data,
    {
        proof {
            use_type_invariant(&*self);
        }
        if self.byte >= self.data.len() {
            return None;
        }
        let byte: usize = self.byte;
        let bit: u8 = self.bit;
        let value: u8 = (self.data[byte] >> (7 - bit)) & 1;
        proof {
            let b = self.data@[byte as int];
            let shift = (7 - bit) as u8;
            assert((b >> shift) & 1 <= 1) by (bit_vector);
            let pos = 8 * byte + bit;
            assert(pos / 8 == byte && pos % 8 == bit);
            assert(lzw::bits_value(self.data@, pos, pos + 1) == lzw::bits_value(
                self.data@,
                pos,
                pos,
            ) * 2 + lzw::bit_at(self.data@, pos));
        }
        if bit == 7 {
            self.bit = 0;
            self.byte = byte + 1;
        } else {
            self.bit = bit + 1;
        }
        Some(value)
    }

    /// Moves to the next byte boundary.
    pub fn align_to_byte(&mut self)
        ensures
            final(self)@ == aligned(old(self)@),
    {
        proof {
            use_type_invariant(&*self);
        }
        let len: usize = self.data.len();
        if self.bit > 0 {
            assert(self.byte < len);
            let next: usize = self.byte + 1;
            self.bit = 0;
            self.byte = next;
        }
    }

    /// The next `count` bytes; `None` if there are not so many. The cursor
    /// must stand on a byte boundary.
    pub fn take_aligned_bytes(&mut self, count: usize) -> (out: Option<&'a [u8]>)
        requires
            old(self)@.pos % 8 == 0,
        ensures
            match out {
                Some(bytes) => bytes_of(old(self)@, count as nat) == Step::<Seq<u8>, BitsV>::Ok(
                    (bytes@, final(self)@),
                ),
                None => bytes_of(old(self)@, count as nat) == Step::<Seq<u8>, BitsV>::Err(
                    (FaultV::Truncated, final(self)@),
                ),
            },
    {
        proof {
            use_type_invariant(&*self);
        }
        let start: usize = self.byte;
        if count > self.data.len() - start {
            return None;
        }
        let out = slice_subrange(self.data, start, start + count);
        self.byte = start + count;
        Some(out)
    }

    /// How many bits are left, as far as they can be counted.
    pub fn remaining(&self) -> (out: usize)
        ensures
            8 * self@.data.len() - self@.pos <= usize::MAX ==> out == 8 * self@.data.len()
                - self@.pos,
            8 * self@.data.len() - self@.pos > usize::MAX ==> out == usize::MAX,
    {
        proof {
            use_type_invariant(self);
        }
        let bytes: usize = self.data.len() - self.byte;
        let total: u128 = 8 * bytes as u128 - self.bit as u128;
        if total <= usize::MAX as u128 {
            total as usize
        } else {
            usize::MAX
        }
    }

    /// Whether every bit has been read.
    pub fn is_exhausted(&self) -> (out: bool)
        ensures
            out == (self@.pos == 8 * self@.data.len()),
    {
        proof {
            use_type_invariant(self);
        }
        self.byte >= self.data.len()
    }
}

proof fn lemma_bits_bound(data: Seq<u8>, start: int, count: nat)
    requires
        0 <= start,
        start + count <= 8 * data.len(),
    ensures
        lzw::bits_value(data, start, start + count) < pow2(count),
    decreases count,
{
    lemma2_to64();
    if count > 0 {
        lemma_bits_bound(data, start, (count - 1) as nat);
        lemma_pow2_unfold(count);
        let i = start + count - 1;
        let b = data[i / 8];
        let shift = (7 - i % 8) as u8;
        assert((b >> shift) & 1 <= 1) by (bit_vector);
    }
}

/// The next `count` bits as a number.
pub fn read_bits(bits: &mut BitReader, count: u8) -> (out: Result<u32, Jbig2Error>)
    requires
        count <= 32,
    ensures
        match out {
            Ok(v) => bits_of(old(bits)@, count as nat) == Step::<nat, BitsV>::Ok(
                (v as nat, final(bits)@),
            ) && v < pow2(count as nat),
            Err(e) => bits_of(old(bits)@, count as nat) == Step::<nat, BitsV>::Err(
                (e@, final(bits)@),
            ),
        },
        final(bits)@.data == old(bits)@.data,
{
    let ghost start = bits@;
    let mut value: u64 = 0;
    let mut i: u8 = 0;
    proof {
        use_type_invariant(&*bits);
    }
    while i < count
        invariant
            i <= count <= 32,
            start == old(bits)@,
            0 <= start.pos,
            start.pos + i <= 8 * start.data.len(),
            bits@ == (BitsV { data: start.data, pos: start.pos + i }),
            value == lzw::bits_value(start.data, start.pos, start.pos + i),
        decreases count - i,
    {
        proof {
            lemma_bits_bound(start.data, start.pos, i as nat);
            lemma2_to64();
            if i < 32 {
                lemma_pow2_strictly_increases(i as nat, 32);
            }
        }
        match bits.read_bit() {
            Some(bit) => {
                proof {
                    let at = start.pos + i;
                    assert(lzw::bits_value(start.data, at, at + 1) == lzw::bits_value(
                        start.data,
                        at,
                        at,
                    ) * 2 + lzw::bit_at(start.data, at));
                }
                value = value * 2 + bit as u64;
            },
            None => {
                return Err(Jbig2Error::Truncated);
            },
        }
        i += 1;
    }
    proof {
        lemma_bits_bound(start.data, start.pos, count as nat);
        lemma2_to64();
        if count < 32 {
            lemma_pow2_strictly_increases(count as nat, 32);
        }
    }
    Ok(value as u32)
}

/// Law: aligning goes to the nearest start of a byte that is not passed.
pub proof fn aligning_goes_to_the_next_byte(s: BitsV)
    ensures
        aligned(s).data == s.data,
        aligned(s).pos % 8 == 0,
        s.pos <= aligned(s).pos < s.pos + 8,
{
}

/// Law: bytes taken at the start of a byte are those that stand there, and eight
/// bits read there are the byte.
pub proof fn whole_bytes_are_read(s: BitsV, count: nat)
    requires
        s.pos >= 0,
        s.pos % 8 == 0,
        s.pos + 8 * count <= 8 * s.data.len(),
    ensures
        bytes_of(s, count) matches Ok((bytes, t)) && bytes.len() == count && (forall|i: int|
            0 <= i < count ==> #[trigger] bytes[i] == s.data[s.pos / 8 + i]) && t.data == s.data
            && t.pos == s.pos + 8 * count,
        count == 1 ==> bits_of(s, 8) == Step::<nat, BitsV>::Ok(
            (s.data[s.pos / 8] as nat, BitsV { data: s.data, pos: s.pos + 8 }),
        ),
{
    if count == 1 {
        lzw::bits_are_read_from_the_top(s.data, s.pos, s.pos + 8, s.pos + 8);
    }
}

/// Law: bits read in two goes are the bits read in one, the first the higher.
pub proof fn bits_are_read_on(s: BitsV, first: nat, second: nat)
    requires
        s.pos >= 0,
        s.pos + first + second <= 8 * s.data.len(),
    ensures
        bits_of(s, first) matches Ok((a, t)) && bits_of(t, second) matches Ok((b, u)) && bits_of(
            s,
            first + second,
        ) == Step::<nat, BitsV>::Ok((a * pow2(second) + b, u)),
        bits_of(s, 8 * s.data.len() + 1) is Err,
{
    lzw::bits_are_read_from_the_top(s.data, s.pos, s.pos + first, s.pos + first + second);
}

} // verus!
