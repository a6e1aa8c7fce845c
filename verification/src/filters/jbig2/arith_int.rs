//! Integers and symbol ids read through the arithmetic decoder.

use crate::filters::jbig2::mq;
use crate::filters::jbig2::mq::{ContextV, MqContexts, MqDecoder, MqV};
use vstd::arithmetic::power2::*;
use vstd::prelude::*;

verus! {

/// How many contexts the reading of one kind of integer adapts.
pub const INT_CONTEXTS: usize = 512;

/// What reading with adaptive contexts works on: the decoder, the contexts and
/// the bits of the value read so far, which choose the next context.
#[verifier::ext_equal]
pub struct IntV {
    pub dec: MqV,
    pub cxs: Seq<ContextV>,
    pub prev: int,
}

/// The bits read so far with one more: the last eight, below a leading 1 that
/// says whether there are so many.
pub open spec fn remembered(prev: int, bit: int) -> int {
    if prev < 256 {
        prev * 2 + bit
    } else {
        (prev * 2 + bit) % 512 % 256 + 256
    }
}

/// One bit of an integer.
pub open spec fn int_bit(s: IntV) -> (u8, IntV) {
    let (bit, dec, cxs) = mq::decision_at(s.dec, s.cxs, s.prev);
    (bit, IntV { dec, cxs, prev: remembered(s.prev, bit as int) })
}

/// `count` bits of an integer, appended to `value`.
pub open spec fn int_bits(s: IntV, count: nat, value: int) -> (int, IntV)
    decreases count,
{
    if count == 0 {
        (value, s)
    } else {
        let (bit, t) = int_bit(s);
        int_bits(t, (count - 1) as nat, value * 2 + bit)
    }
}

/// The magnitude of an integer: behind a prefix that says how many bits it
/// takes and where their range begins.
pub open spec fn magnitude_of(s: IntV) -> (int, IntV) {
    let (b1, s1) = int_bit(s);
    if b1 == 0 {
        int_bits(s1, 2, 0)
    } else {
        let (b2, s2) = int_bit(s1);
        if b2 == 0 {
            shifted(int_bits(s2, 4, 0), 4)
        } else {
            let (b3, s3) = int_bit(s2);
            if b3 == 0 {
                shifted(int_bits(s3, 6, 0), 20)
            } else {
                let (b4, s4) = int_bit(s3);
                if b4 == 0 {
                    shifted(int_bits(s4, 8, 0), 84)
                } else {
                    let (b5, s5) = int_bit(s4);
                    if b5 == 0 {
                        shifted(int_bits(s5, 12, 0), 340)
                    } else {
                        shifted(int_bits(s5, 32, 0), 4436)
                    }
                }
            }
        }
    }
}

/// A value moved to where its range begins.
pub open spec fn shifted(read: (int, IntV), base: int) -> (int, IntV) {
    (read.0 + base, read.1)
}

/// A number drawn into the range of 32-bit integers.
pub open spec fn clamped(v: int) -> i32 {
    if v > i32::MAX {
        i32::MAX
    } else if v < i32::MIN {
        i32::MIN
    } else {
        v as i32
    }
}

/// One integer: a sign, then a magnitude. A negative zero is no number but the
/// mark that a list ends.
pub open spec fn int_of(dec: MqV, cxs: Seq<ContextV>) -> (Option<i32>, MqV, Seq<ContextV>) {
    let (sign, s) = int_bit(IntV { dec, cxs, prev: 1 });
    let (magnitude, t) = magnitude_of(s);
    let value = if sign == 0 {
        Some(clamped(magnitude))
    } else if magnitude > 0 {
        Some(clamped(-magnitude))
    } else {
        None
    };
    (value, t.dec, t.cxs)
}

/// Reads one bit of an integer.
fn read_int_bit(dec: &mut MqDecoder, cxs: &mut MqContexts, prev: &mut usize) -> (out: u8)
    requires
        1 <= *old(prev) < 512,
        old(cxs)@.len() == 512,
    ensures
        ({
            let (bit, t) = int_bit(
                IntV { dec: old(dec)@, cxs: old(cxs)@, prev: *old(prev) as int },
            );
            &&& out == bit
            &&& t == (IntV { dec: final(dec)@, cxs: final(cxs)@, prev: *final(prev) as int })
        }),
        out <= 1,
        1 <= *final(prev) < 512,
        final(cxs)@.len() == 512,
{
    let at: usize = *prev;
    let bit: u8 = dec.decode(cxs, at);
    *prev = if at < 256 {
        at * 2 + bit as usize
    } else {
        (at * 2 + bit as usize) % 512 % 256 + 256
    };
    bit
}

/// Reads `count` bits of an integer, appended to nothing.
fn read_int_bits(dec: &mut MqDecoder, cxs: &mut MqContexts, prev: &mut usize, count: u32) -> (out:
    u64)
    requires
        1 <= *old(prev) < 512,
        old(cxs)@.len() == 512,
        count <= 32,
    ensures
        int_bits(
            (IntV { dec: old(dec)@, cxs: old(cxs)@, prev: *old(prev) as int }),
            count as nat,
            0,
        ) == (
            out as int,
            (IntV { dec: final(dec)@, cxs: final(cxs)@, prev: *final(prev) as int }),
        ),
        out < 0x1_0000_0000,
        final(cxs)@.len() == 512,
{
    let ghost start = IntV { dec: dec@, cxs: cxs@, prev: *prev as int };
    let mut value: u64 = 0;
    let mut left: u32 = count;
    proof {
        lemma2_to64();
    }
    while left > 0
        invariant
            left <= count <= 32,
            1 <= *prev < 512,
            cxs@.len() == 512,
            value < pow2((count - left) as nat),
            int_bits(start, count as nat, 0) == int_bits(
                (IntV { dec: dec@, cxs: cxs@, prev: *prev as int }),
                left as nat,
                value as int,
            ),
        decreases left,
    {
        proof {
            lemma2_to64();
            lemma_pow2_unfold((count - left + 1) as nat);
            if count - left < 32 {
                lemma_pow2_strictly_increases((count - left) as nat, 32);
            }
        }
        let bit: u8 = read_int_bit(dec, cxs, prev);
        value = value * 2 + bit as u64;
        left -= 1;
    }
    proof {
        lemma2_to64();
        if count < 32 {
            lemma_pow2_strictly_increases(count as nat, 32);
        }
    }
    value
}

/// Reads the magnitude of an integer.
fn read_magnitude(dec: &mut MqDecoder, cxs: &mut MqContexts, prev: &mut usize) -> (out: u64)
    requires
        1 <= *old(prev) < 512,
        old(cxs)@.len() == 512,
    ensures
        magnitude_of((IntV { dec: old(dec)@, cxs: old(cxs)@, prev: *old(prev) as int })) == (
            out as int,
            (IntV { dec: final(dec)@, cxs: final(cxs)@, prev: *final(prev) as int }),
        ),
        out <= 0x1_0000_0000 + 4436,
        final(cxs)@.len() == 512,
{
    if read_int_bit(dec, cxs, prev) == 0 {
        return read_int_bits(dec, cxs, prev, 2);
    }
    if read_int_bit(dec, cxs, prev) == 0 {
        return read_int_bits(dec, cxs, prev, 4) + 4;
    }
    if read_int_bit(dec, cxs, prev) == 0 {
        return read_int_bits(dec, cxs, prev, 6) + 20;
    }
    if read_int_bit(dec, cxs, prev) == 0 {
        return read_int_bits(dec, cxs, prev, 8) + 84;
    }
    if read_int_bit(dec, cxs, prev) == 0 {
        return read_int_bits(dec, cxs, prev, 12) + 340;
    }
    read_int_bits(dec, cxs, prev, 32) + 4436
}

/// Reads one integer; `None` is the mark that a list ends. A number that 32
/// bits cannot hold reads as the nearest they can.
pub fn decode_int(dec: &mut MqDecoder, cxs: &mut MqContexts) -> (out: Option<i32>)
    requires
        old(cxs)@.len() == 512,
    ensures
        (out, final(dec)@, final(cxs)@) == int_of(old(dec)@, old(cxs)@),
        final(cxs)@.len() == 512,
{
    let mut prev: usize = 1;
    let sign: u8 = read_int_bit(dec, cxs, &mut prev);
    let magnitude: u64 = read_magnitude(dec, cxs, &mut prev);
    if sign == 0 {
        if magnitude > i32::MAX as u64 {
            Some(i32::MAX)
        } else {
            Some(magnitude as i32)
        }
    } else if magnitude > 0 {
        if magnitude > 0x8000_0000 {
            Some(i32::MIN)
        } else {
            Some((-(magnitude as i64)) as i32)
        }
    } else {
        None
    }
}

/// A symbol id of `count` bits: the bits read so far choose the next context.
pub open spec fn id_bits(dec: MqV, cxs: Seq<ContextV>, count: nat, prev: int) -> (
    int,
    MqV,
    Seq<ContextV>,
)
    decreases count,
{
    if count == 0 {
        (prev, dec, cxs)
    } else {
        let (bit, dec, cxs) = mq::decision_at(dec, cxs, prev);
        id_bits(dec, cxs, (count - 1) as nat, prev * 2 + bit)
    }
}

/// One symbol id.
pub open spec fn id_of(dec: MqV, cxs: Seq<ContextV>, code_len: nat) -> (u32, MqV, Seq<ContextV>) {
    let (value, dec, cxs) = id_bits(dec, cxs, code_len, 1);
    ((value - pow2(code_len)) as u32, dec, cxs)
}

/// How many contexts of symbol ids stand in the first of two rows: so many as
/// can be counted on every machine.
pub const FIRST_ROW: u64 = 0x8000_0000;

/// The contexts symbol ids are read with, and how many bits an id takes.
pub struct IaidCtx {
    code_len: u32,
    low: MqContexts,
    high: MqContexts,
}

/// Two to the power `n`.
fn power_of_two(n: u32) -> (out: u64)
    requires
        n <= 32,
    ensures
        out == pow2(n as nat),
        out <= 0x1_0000_0000,
{
    let mut count: u64 = 1;
    let mut i: u32 = 0;
    proof {
        lemma2_to64();
    }
    while i < n
        invariant
            i <= n <= 32,
            count == pow2(i as nat),
        decreases n - i,
    {
        proof {
            lemma_pow2_unfold((i + 1) as nat);
            if i + 1 < 32 {
                lemma_pow2_strictly_increases((i + 1) as nat, 32);
            }
            lemma2_to64();
        }
        count = count * 2;
        i += 1;
    }
    proof {
        lemma2_to64();
        if n < 32 {
            lemma_pow2_strictly_increases(n as nat, 32);
        }
    }
    count
}

impl IaidCtx {
    /// Whether there is a context for every run of bits that can be met.
    pub closed spec fn valid(&self) -> bool {
        &&& self.code_len <= 32
        &&& self.low@.len() + self.high@.len() == pow2(self.code_len as nat)
        &&& self.low@.len() <= FIRST_ROW
        &&& self.high@.len() > 0 ==> self.low@.len() == FIRST_ROW
    }

    /// How many bits an id takes.
    pub closed spec fn id_len(&self) -> nat {
        self.code_len as nat
    }

    /// The contexts, one for each run of bits.
    pub closed spec fn contexts(&self) -> Seq<ContextV> {
        self.low@ + self.high@
    }

    /// Fresh contexts for ids of `code_len` bits.
    pub fn new(code_len: u32) -> (out: IaidCtx)
        requires
            code_len <= 32,
        ensures
            out.valid(),
            out.id_len() == code_len,
            out.contexts() == mq::all_fresh(pow2(code_len as nat)),
    {
        let count: u64 = power_of_two(code_len);
        let first: u64 = if count < FIRST_ROW {
            count
        } else {
            FIRST_ROW
        };
        let low = MqContexts::new(first as usize);
        let high = MqContexts::new((count - first) as usize);
        let out = IaidCtx { code_len, low, high };
        assert(out.contexts() =~= mq::all_fresh(pow2(code_len as nat)));
        out
    }

    /// Reads one decision in the context at `i`.
    fn decide(&mut self, dec: &mut MqDecoder, i: u64) -> (out: u8)
        requires
            old(self).valid(),
            i < pow2(old(self).id_len()),
        ensures
            (out, final(dec)@, final(self).contexts()) == mq::decision_at(
                old(dec)@,
                old(self).contexts(),
                i as int,
            ),
            out <= 1,
            final(self).valid(),
            final(self).id_len() == old(self).id_len(),
    {
        let ghost before = self.contexts();
        let ghost low = self.low@;
        let ghost high = self.high@;
        let first: u64 = self.low.len() as u64;
        proof {
            lemma2_to64();
            if self.code_len < 32 {
                lemma_pow2_strictly_increases(self.code_len as nat, 32);
            }
        }
        if i < first {
            assert(before[i as int] == low[i as int]);
            let out = dec.decode(&mut self.low, i as usize);
            assert(self.contexts() =~= before.update(i as int, self.low@[i as int]));
            out
        } else {
            let at: usize = (i - first) as usize;
            assert(at == i - first);
            assert(before[i as int] == high[at as int]);
            let out = dec.decode(&mut self.high, at);
            assert(self.contexts() =~= before.update(i as int, self.high@[at as int]));
            out
        }
    }
}

/// Reads one symbol id.
pub fn decode_iaid(dec: &mut MqDecoder, iaid: &mut IaidCtx) -> (out: u32)
    requires
        old(iaid).valid(),
    ensures
        (out, final(dec)@, final(iaid).contexts()) == id_of(
            old(dec)@,
            old(iaid).contexts(),
            old(iaid).id_len(),
        ),
        final(iaid).id_len() == old(iaid).id_len(),
        final(iaid).valid(),
{
    let code_len: u32 = iaid.code_len;
    let ghost start = dec@;
    let ghost contexts = iaid.contexts();
    let mut prev: u64 = 1;
    let mut base: u64 = 1;
    let mut left: u32 = code_len;
    proof {
        lemma2_to64();
    }
    while left > 0
        invariant
            left <= code_len <= 32,
            iaid.valid(),
            iaid.id_len() == code_len,
            base == pow2((code_len - left) as nat),
            base <= prev < 2 * base,
            id_bits(start, contexts, code_len as nat, 1) == id_bits(
                dec@,
                iaid.contexts(),
                left as nat,
                prev as int,
            ),
        decreases left,
    {
        proof {
            lemma_pow2_unfold((code_len - left + 1) as nat);
            if left > 1 {
                lemma_pow2_strictly_increases((code_len - left + 1) as nat, code_len as nat);
            }
            if code_len < 32 {
                lemma_pow2_strictly_increases(code_len as nat, 32);
            }
            lemma2_to64();
        }
        let bit: u8 = iaid.decide(dec, prev);
        prev = prev * 2 + bit as u64;
        base = base * 2;
        left -= 1;
    }
    proof {
        lemma2_to64();
        if code_len < 32 {
            lemma_pow2_strictly_increases(code_len as nat, 32);
        }
    }
    (prev - base) as u32
}

/// The `count` binary digits of a number, the highest first.
pub open spec fn digits(v: nat, count: nat) -> Seq<u8>
    decreases count,
{
    if count == 0 {
        Seq::empty()
    } else {
        let weight = pow2((count - 1) as nat);
        if v >= weight {
            seq![1u8] + digits((v - weight) as nat, (count - 1) as nat)
        } else {
            seq![0u8] + digits(v, (count - 1) as nat)
        }
    }
}

/// The bits an encoder writes for a magnitude: a prefix that tells its class,
/// and how far it lies into the class.
pub open spec fn magnitude_code(m: nat) -> Seq<u8> {
    if m <= 3 {
        seq![0u8] + digits(m, 2)
    } else if m <= 19 {
        seq![1u8, 0u8] + digits((m - 4) as nat, 4)
    } else if m <= 83 {
        seq![1u8, 1u8, 0u8] + digits((m - 20) as nat, 6)
    } else if m <= 339 {
        seq![1u8, 1u8, 1u8, 0u8] + digits((m - 84) as nat, 8)
    } else if m <= 4435 {
        seq![1u8, 1u8, 1u8, 1u8, 0u8] + digits((m - 340) as nat, 12)
    } else {
        seq![1u8, 1u8, 1u8, 1u8, 1u8] + digits((m - 4436) as nat, 32)
    }
}

/// Whether the decisions from a state on come out as `bits`.
pub open spec fn delivers(s: IntV, bits: Seq<u8>) -> bool
    decreases bits.len(),
{
    bits.len() == 0 || (int_bit(s).0 == bits[0] && delivers(int_bit(s).1, bits.skip(1)))
}

proof fn lemma_digits_read(s: IntV, v: nat, count: nat, value: int)
    requires
        v < pow2(count),
        delivers(s, digits(v, count)),
    ensures
        int_bits(s, count, value).0 == value * pow2(count) + v,
    decreases count,
{
    lemma2_to64();
    if count == 0 {
        assert(value * 1 == value);
    } else {
        let weight = pow2((count - 1) as nat);
        lemma_pow2_unfold(count);
        let rest = if v >= weight {
            (v - weight) as nat
        } else {
            v
        };
        let (bit, t) = int_bit(s);
        let more = digits(rest, (count - 1) as nat);
        assert(digits(v, count).skip(1) =~= more);
        assert(digits(v, count)[0] == if v >= weight {
            1u8
        } else {
            0u8
        });
        lemma_digits_read(t, rest, (count - 1) as nat, value * 2 + bit);
        assert((value * 2 + bit) * weight == value * (2 * weight) + bit * weight)
            by (nonlinear_arith);
        assert(bit * weight == if v >= weight {
            weight as int
        } else {
            0
        }) by (nonlinear_arith)
            requires
                bit == (if v >= weight {
                    1int
                } else {
                    0
                }),
        ;
    }
}

/// Law: an integer is read back from the bits that an encoder writes for it:
/// its sign, the class of its magnitude and the place in the class. A minus
/// without a magnitude is no integer but the out-of-band mark.
pub proof fn coded_integers_are_read_back(dec: MqV, cxs: Seq<ContextV>, sign: u8, m: nat)
    requires
        sign <= 1,
        m <= i32::MAX,
        delivers(IntV { dec, cxs, prev: 1 }, seq![sign] + magnitude_code(m)),
    ensures
        int_of(dec, cxs).0 == (if sign == 0 {
            Some(m as i32)
        } else if m > 0 {
            Some((-m) as i32)
        } else {
            None
        }),
{
    lemma2_to64();
    lemma2_to64_rest();
    let s = IntV { dec, cxs, prev: 1 };
    let code = magnitude_code(m);
    let all = seq![sign] + code;
    assert(all[0] == sign);
    assert(all.skip(1) =~= code);
    lemma_magnitude_read(int_bit(s).1, m);
}

proof fn lemma_class_sizes()
    ensures
        pow2(2) == 4,
        pow2(4) == 16,
        pow2(6) == 64,
        pow2(8) == 256,
        pow2(12) == 4096,
        pow2(32) == 0x1_0000_0000,
{
    lemma2_to64();
}

proof fn lemma_first_bit(s: IntV, bits: Seq<u8>)
    requires
        bits.len() > 0,
        delivers(s, bits),
    ensures
        int_bit(s).0 == bits[0],
        delivers(int_bit(s).1, bits.skip(1)),
{
}

/// What the bits behind a class prefix come to.
proof fn lemma_class_read(s: IntV, bits: Seq<u8>, v: nat, count: nat)
    requires
        v < pow2(count),
        bits =~= digits(v, count),
        delivers(s, bits),
    ensures
        int_bits(s, count, 0).0 == v,
{
    lemma_digits_read(s, v, count, 0);
    assert(0 * pow2(count) == 0);
}

proof fn lemma_magnitude_read(s: IntV, m: nat)
    requires
        m <= i32::MAX,
        delivers(s, magnitude_code(m)),
    ensures
        magnitude_of(s).0 == m,
{
    lemma_class_sizes();
    let code = magnitude_code(m);
    let s1 = int_bit(s).1;
    let c1 = code.skip(1);
    lemma_first_bit(s, code);
    if m <= 3 {
        lemma_class_read(s1, c1, m, 2);
    } else {
        let s2 = int_bit(s1).1;
        let c2 = c1.skip(1);
        lemma_first_bit(s1, c1);
        if m <= 19 {
            assert(c2 =~= digits((m - 4) as nat, 4));
            lemma_class_read(s2, c2, (m - 4) as nat, 4);
        } else {
            let s3 = int_bit(s2).1;
            let c3 = c2.skip(1);
            lemma_first_bit(s2, c2);
            if m <= 83 {
                assert(c3 =~= digits((m - 20) as nat, 6));
                lemma_class_read(s3, c3, (m - 20) as nat, 6);
            } else {
                let s4 = int_bit(s3).1;
                let c4 = c3.skip(1);
                lemma_first_bit(s3, c3);
                if m <= 339 {
                    assert(c4 =~= digits((m - 84) as nat, 8));
                    lemma_class_read(s4, c4, (m - 84) as nat, 8);
                } else {
                    let s5 = int_bit(s4).1;
                    let c5 = c4.skip(1);
                    lemma_first_bit(s4, c4);
                    if m <= 4435 {
                        assert(c5 =~= digits((m - 340) as nat, 12));
                        lemma_class_read(s5, c5, (m - 340) as nat, 12);
                    } else {
                        assert(c5 =~= digits((m - 4436) as nat, 32));
                        lemma_class_read(s5, c5, (m - 4436) as nat, 32);
                    }
                }
            }
        }
    }
}

/// Law: the context of an integer's next bit holds all its bits so far behind a
/// leading one, and once there are more than eight the last eight of them.
pub proof fn contexts_remember_the_last_bits(prev: int, bit: int)
    requires
        1 <= prev < 512,
        0 <= bit <= 1,
    ensures
        remembered(prev, bit) % 2 == bit,
        prev < 256 ==> remembered(prev, bit) / 2 == prev,
        prev >= 256 ==> 256 <= remembered(prev, bit) < 512 && remembered(prev, bit) / 2 % 128
            == prev % 128,
{
    if prev >= 256 {
        let w = prev * 2 + bit;
        assert(w % 512 == w - 512);
        if prev < 384 {
            assert((w - 512) % 256 == w - 512);
            assert(remembered(prev, bit) == w - 256);
            assert((w - 256) / 2 == prev - 128);
            assert((prev - 128) % 128 == prev % 128);
        } else {
            assert((w - 512) % 256 == w - 768);
            assert(remembered(prev, bit) == w - 512);
            assert((w - 512) / 2 == prev - 256);
            assert((prev - 256) % 128 == prev % 128);
        }
    }
}

/// Whether the decisions of a symbol id come out as `bits`, `prev` the bits
/// before behind a leading one.
pub open spec fn id_delivers(dec: MqV, cxs: Seq<ContextV>, prev: int, bits: Seq<u8>) -> bool
    decreases bits.len(),
{
    bits.len() == 0 || ({
        let (bit, d, c) = mq::decision_at(dec, cxs, prev);
        bit == bits[0] && id_delivers(d, c, 2 * prev + bits[0], bits.skip(1))
    })
}

proof fn lemma_id_read(dec: MqV, cxs: Seq<ContextV>, v: nat, count: nat, prev: int)
    requires
        v < pow2(count),
        id_delivers(dec, cxs, prev, digits(v, count)),
    ensures
        id_bits(dec, cxs, count, prev).0 == prev * pow2(count) + v,
    decreases count,
{
    lemma2_to64();
    if count == 0 {
        assert(prev * 1 == prev);
    } else {
        let weight = pow2((count - 1) as nat);
        lemma_pow2_unfold(count);
        let rest = if v >= weight {
            (v - weight) as nat
        } else {
            v
        };
        let (bit, d, c) = mq::decision_at(dec, cxs, prev);
        let more = digits(rest, (count - 1) as nat);
        assert(digits(v, count).skip(1) =~= more);
        assert(digits(v, count)[0] == if v >= weight {
            1u8
        } else {
            0u8
        });
        lemma_id_read(d, c, rest, (count - 1) as nat, 2 * prev + bit);
        assert((2 * prev + bit) * weight == prev * (2 * weight) + bit * weight)
            by (nonlinear_arith);
        assert(bit * weight == if v >= weight {
            weight as int
        } else {
            0
        }) by (nonlinear_arith)
            requires
                bit == (if v >= weight {
                    1int
                } else {
                    0
                }),
        ;
    }
}

/// Law: a symbol id is read back from its binary digits, the highest first.
pub proof fn coded_ids_are_read_back(dec: MqV, cxs: Seq<ContextV>, id: u32, code_len: nat)
    requires
        id < pow2(code_len),
        id_delivers(dec, cxs, 1, digits(id as nat, code_len)),
    ensures
        id_of(dec, cxs, code_len).0 == id,
{
    lemma_id_read(dec, cxs, id as nat, code_len, 1);
    assert(1 * pow2(code_len) == pow2(code_len));
}

} // verus!
