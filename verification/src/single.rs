//! Single-precision numbers as IEEE 754 binary32 bit patterns: the exact
//! rounding of a binary64 pattern to one, and the order of two of them.

use crate::number;
use crate::number::Real;
use vstd::arithmetic::power2::*;
use vstd::prelude::*;

verus! {

broadcast use lemma_pow2_pos;

/// A number by its binary32 bit pattern.
#[derive(Debug, Clone, Copy)]
pub struct Single {
    /// Sign, biased exponent and fraction, most significant bit first.
    pub bits: u32,
}

/// The bit pattern of the number 1.
pub const ONE_BITS: u32 = 0x3f80_0000;

/// The bit pattern of positive infinity.
pub const INFINITY_BITS: u32 = 0x7f80_0000;

/// The bit pattern of no number at all, quiet and without a payload.
pub const UNDEFINED_BITS: u32 = 0x7fc0_0000;

/// The weight of the sign bit.
pub const SIGN_BIT: u32 = 0x8000_0000;

/// The weight of the lowest exponent bit, two to the 23.
pub const EXPONENT_UNIT: u32 = 0x0080_0000;

/// The exponent of the unit in the last place of the binary32 number nearest
/// to a binary64 pattern: 29 above that of the pattern, which has 53 bits where
/// a binary32 number has 24, but no smaller than that of the subnormal range.
pub open spec fn unit_exponent(bits: u64) -> int {
    let e = number::unit_exponent(bits) + 29;
    if e < -149 {
        -149
    } else {
        e
    }
}

/// The magnitude of a binary64 pattern counted in the units of the binary32
/// number nearest to it: the nearest integer, the even one of two.
pub open spec fn unit_count(bits: u64) -> nat {
    number::half_even(
        number::significand(bits),
        pow2((unit_exponent(bits) - number::unit_exponent(bits)) as nat),
    )
}

/// The binary32 pattern nearest to the magnitude of a binary64 pattern, ties to
/// even, infinity past the largest finite one.
pub open spec fn nearest_magnitude(bits: u64) -> nat {
    let raw = (unit_exponent(bits) + 149) * EXPONENT_UNIT + unit_count(bits);
    if raw >= INFINITY_BITS {
        INFINITY_BITS as nat
    } else {
        raw as nat
    }
}

/// The binary32 pattern nearest to a binary64 pattern, with its sign.
pub open spec fn narrowed(bits: u64) -> nat {
    let magnitude = if number::is_nan(bits) {
        UNDEFINED_BITS as nat
    } else {
        nearest_magnitude(bits)
    };
    if bits >= number::SIGN_BIT {
        SIGN_BIT as nat + magnitude
    } else {
        magnitude
    }
}

/// Whether a pattern is no number at all.
pub open spec fn is_nan(bits: u32) -> bool {
    bits % SIGN_BIT > INFINITY_BITS
}

/// A position on the number line that orders patterns: negative numbers by
/// falling magnitude, both zeros in one place, positive ones by magnitude.
pub open spec fn line_position(bits: u32) -> int {
    if bits >= SIGN_BIT {
        -((bits - SIGN_BIT) as int)
    } else {
        bits as int
    }
}

impl PartialEq for Single {
    fn eq(&self, other: &Single) -> (out: bool) {
        let low: u32 = self.bits % SIGN_BIT;
        let other_low: u32 = other.bits % SIGN_BIT;
        low <= INFINITY_BITS && other_low <= INFINITY_BITS && (self.bits == other.bits || (low == 0
            && other_low == 0))
    }
}

impl vstd::std_specs::cmp::PartialEqSpecImpl for Single {
    open spec fn obeys_eq_spec() -> bool {
        true
    }

    open spec fn eq_spec(&self, other: &Single) -> bool {
        !is_nan(self.bits) && !is_nan(other.bits) && line_position(self.bits) == line_position(
            other.bits,
        )
    }
}

/// Two to the power `count`.
fn power_of_two(count: u32) -> (out: u64)
    requires
        count <= 63,
    ensures
        out == pow2(count as nat),
{
    let mut out: u64 = 1;
    let mut k: u32 = 0;
    proof {
        lemma2_to64();
    }
    while k < count
        invariant
            k <= count <= 63,
            out == pow2(k as nat),
        decreases count - k,
    {
        proof {
            lemma_pow2_unfold((k + 1) as nat);
            lemma2_to64_rest();
            if k + 1 < 63 {
                lemma_pow2_strictly_increases((k + 1) as nat, 63);
            }
        }
        out *= 2;
        k += 1;
    }
    out
}

/// Less than half a unit rounds to none.
proof fn lemma_rounds_away(m: nat, d: nat)
    requires
        2 * m < d,
    ensures
        number::half_even(m, d) == 0,
{
    assert(m / d == 0 && m % d == m) by {
        vstd::arithmetic::div_mod::lemma_basic_div(m as int, d as int);
        vstd::arithmetic::div_mod::lemma_small_mod(m, d);
    }
}

/// A significand and the power of two it is divided by.
proof fn lemma_significand_bound(bits: u64)
    ensures
        number::significand(bits) < 2 * number::EXPONENT_UNIT,
        29 <= unit_exponent(bits) - number::unit_exponent(bits) <= 925,
        -149 <= unit_exponent(bits) <= 1001,
{
}

/// Rounding does not pass the next power of two.
proof fn lemma_unit_count_bound(bits: u64)
    ensures
        unit_count(bits) <= 2 * EXPONENT_UNIT,
{
    lemma_significand_bound(bits);
    let m = number::significand(bits);
    let s = (unit_exponent(bits) - number::unit_exponent(bits)) as nat;
    let d = pow2(s);
    lemma2_to64();
    if s > 29 {
        lemma_pow2_strictly_increases(29, s);
    }
    let u = 2 * EXPONENT_UNIT as nat;
    assert(m < u * d) by (nonlinear_arith)
        requires
            m < 0x20_0000_0000_0000,
            u == 0x100_0000,
            d >= 0x2000_0000,
    ;
    assert(m / d < u) by (nonlinear_arith)
        requires
            m < u * d,
            d > 0,
    ;
}

impl Single {
    /// Whether the number lies below `other` on the number line.
    pub fn is_below(self, other: Single) -> (out: bool)
        ensures
            out == (line_position(self.bits) < line_position(other.bits)),
    {
        let negative = self.bits >= SIGN_BIT;
        let other_negative = other.bits >= SIGN_BIT;
        if negative && other_negative {
            self.bits > other.bits
        } else if negative {
            self.bits > SIGN_BIT || other.bits > 0
        } else if other_negative {
            false
        } else {
            self.bits < other.bits
        }
    }

    /// The number nearest to `value`, ties to even; infinite past the largest
    /// finite number.
    pub fn from_real(value: Real) -> (out: Single)
        ensures
            out.bits == narrowed(value.bits),
    {
        let bits: u64 = value.bits;
        let sign: u32 = if bits >= number::SIGN_BIT {
            SIGN_BIT
        } else {
            0
        };
        if bits % number::SIGN_BIT > number::INFINITY_BITS {
            return Single { bits: sign + UNDEFINED_BITS };
        }
        let biased: u64 = (bits / number::EXPONENT_UNIT) % 2048;
        let fraction: u64 = bits % number::EXPONENT_UNIT;
        let m: u64 = if biased == 0 {
            fraction
        } else {
            number::EXPONENT_UNIT + fraction
        };
        // The exponent of the significand's last bit, and that of a unit.
        let from: i64 = if biased == 0 {
            -1074
        } else {
            biased as i64 - 1075
        };
        let to: i64 = if from + 29 < -149 {
            -149
        } else {
            from + 29
        };
        let dropped: i64 = to - from;
        let count: u64 = if dropped > 63 {
            proof {
                lemma2_to64_rest();
                lemma_pow2_strictly_increases(63, dropped as nat);
                lemma_rounds_away(m as nat, pow2(dropped as nat));
            }
            0
        } else {
            let d: u64 = power_of_two(dropped as u32);
            let q: u64 = m / d;
            let r: u64 = m % d;
            let half: u64 = d / 2;
            proof {
                lemma_pow2_unfold(dropped as nat);
            }
            if r > half || (r == half && q % 2 == 1) {
                q + 1
            } else {
                q
            }
        };
        assert(count == unit_count(bits));
        proof {
            lemma_unit_count_bound(bits);
        }
        let raw: u64 = (to + 149) as u64 * EXPONENT_UNIT as u64 + count;
        let magnitude: u32 = if raw >= INFINITY_BITS as u64 {
            INFINITY_BITS
        } else {
            raw as u32
        };
        Single { bits: sign + magnitude }
    }
}

/// Rounding a larger quotient gives no smaller integer.
proof fn lemma_half_even_grows(n: nat, m: nat, d: nat)
    requires
        n <= m,
        d > 0,
    ensures
        number::half_even(n, d) <= number::half_even(m, d),
{
    vstd::arithmetic::div_mod::lemma_div_is_ordered(n as int, m as int, d as int);
    if n / d == m / d {
        let q = n / d;
        vstd::arithmetic::div_mod::lemma_fundamental_div_mod(n as int, d as int);
        vstd::arithmetic::div_mod::lemma_fundamental_div_mod(m as int, d as int);
        assert(n % d <= m % d);
    }
}

/// Rounding depends on the quotient alone.
proof fn lemma_half_even_scales(n: nat, d: nat, c: nat)
    requires
        d > 0,
        c > 0,
    ensures
        number::half_even(n * c, d * c) == number::half_even(n, d),
{
    let q = n / d;
    let r = n % d;
    vstd::arithmetic::div_mod::lemma_fundamental_div_mod(n as int, d as int);
    assert(n * c == q * (d * c) + r * c) by (nonlinear_arith)
        requires
            n == d * q + r,
    ;
    assert(0 <= r * c < d * c) by (nonlinear_arith)
        requires
            0 <= r < d,
            c > 0,
    ;
    vstd::arithmetic::div_mod::lemma_fundamental_div_mod_converse(
        (n * c) as int,
        (d * c) as int,
        q as int,
        (r * c) as int,
    );
    assert((2 * (r * c) > d * c) == (2 * r > d) && (2 * (r * c) == d * c) == (2 * r == d))
        by (nonlinear_arith)
        requires
            c > 0,
    ;
}

/// A larger binary64 magnitude has no smaller count of the same units.
proof fn lemma_counts_grow(a: u64, b: u64)
    requires
        a <= b < number::SIGN_BIT,
        unit_exponent(a) == unit_exponent(b),
    ensures
        unit_count(a) <= unit_count(b),
{
    lemma_significand_bound(a);
    lemma_significand_bound(b);
    let e = unit_exponent(a);
    let m = number::significand(a);
    let n = number::significand(b);
    let s = (e - number::unit_exponent(a)) as nat;
    let t = (e - number::unit_exponent(b)) as nat;
    let u = number::EXPONENT_UNIT;
    assert(a / u <= b / u < 2048);
    if s == t {
        assert(m <= n);
        lemma_half_even_grows(m, n, pow2(s));
    } else {
        assert(a / u < b / u);
        let j = (s - t) as nat;
        lemma_pow2_adds(t, j);
        lemma_pow2_unfold(j);
        let h = pow2((j - 1) as nat);
        let c = pow2(j);
        assert(m <= n * c) by (nonlinear_arith)
            requires
                m < 2 * u,
                u <= n,
                c == 2 * h,
                h >= 1,
        ;
        lemma_half_even_grows(m, n * c, pow2(s));
        lemma_half_even_scales(n, pow2(t), c);
    }
}

/// A larger binary64 magnitude has no smaller nearest binary32 magnitude.
proof fn lemma_magnitudes_grow(a: u64, b: u64)
    requires
        a <= b < number::SIGN_BIT,
    ensures
        nearest_magnitude(a) <= nearest_magnitude(b),
{
    let u = number::EXPONENT_UNIT;
    assert(a / u <= b / u < 2048);
    let e = unit_exponent(a);
    let f = unit_exponent(b);
    if e == f {
        lemma_counts_grow(a, b);
    } else {
        assert(e + 1 <= f);
        assert(f == number::unit_exponent(b) + 29);
        lemma_unit_count_bound(a);
        let n = number::significand(b);
        let d = pow2(29);
        lemma2_to64();
        assert(n >= u);
        assert(unit_count(b) == number::half_even(n, d));
        assert(n / d >= EXPONENT_UNIT);
    }
}

/// The sign takes no part in the nearest magnitude.
proof fn lemma_sign_aside(bits: u64)
    requires
        bits >= number::SIGN_BIT,
    ensures
        nearest_magnitude(bits) == nearest_magnitude((bits - number::SIGN_BIT) as u64),
{
    let u = number::EXPONENT_UNIT;
    let rest = (bits - number::SIGN_BIT) as u64;
    assert(bits / u == rest / u + 2048);
    assert((rest / u + 2048) % 2048 == (rest / u) % 2048);
    assert(bits % u == rest % u);
}

/// Law: narrowing keeps the order of numbers; two that differ may become one,
/// but never change places.
pub proof fn narrowing_keeps_order(a: u64, b: u64)
    requires
        !number::is_nan(a),
        !number::is_nan(b),
        number::line_position(a) <= number::line_position(b),
    ensures
        line_position(narrowed(a) as u32) <= line_position(narrowed(b) as u32),
{
    let s = number::SIGN_BIT;
    if a >= s {
        lemma_sign_aside(a);
    }
    if b >= s {
        lemma_sign_aside(b);
    }
    if a >= s && b >= s {
        lemma_magnitudes_grow((b - s) as u64, (a - s) as u64);
    } else if a < s && b < s {
        lemma_magnitudes_grow(a, b);
    } else if a < s {
        // A number above a negative one is zero, like the other.
        assert(a == 0 && b == s);
        lemma_magnitudes_grow(a, (b - s) as u64);
    }
}

/// Law: the numbers 0 and 1 narrow to themselves.
pub proof fn zero_and_one_stay()
    ensures
        narrowed(0) == 0,
        narrowed(number::ONE_BITS) == ONE_BITS,
{
    lemma2_to64();
    lemma2_to64_rest();
    lemma_pow2_strictly_increases(29, 925);
    lemma_rounds_away(0, pow2(925));
    assert(number::unit_exponent(0) == -1074);
    assert(number::ONE_BITS / number::EXPONENT_UNIT == 1023);
    assert(number::unit_exponent(number::ONE_BITS) == -52);
    assert(number::significand(number::ONE_BITS) == 0x10_0000_0000_0000);
    assert(0x10_0000_0000_0000nat / 0x2000_0000nat == 0x80_0000);
    assert(0x10_0000_0000_0000nat % 0x2000_0000nat == 0);
}

/// Law: narrowing a finite number gives the nearest count of the units that the
/// narrow form has there, the even one of two equally near.
pub proof fn narrowing_is_to_the_nearest_even(bits: u64)
    ensures
        ({
            let d = pow2((unit_exponent(bits) - number::unit_exponent(bits)) as nat);
            let off = number::significand(bits) - unit_count(bits) * d;
            &&& -(d as int) <= 2 * off <= d
            &&& 2 * off == d || 2 * off == -(d as int) ==> unit_count(bits) % 2 == 0
        }),
{
    let e = (unit_exponent(bits) - number::unit_exponent(bits)) as nat;
    lemma_pow2_pos(e);
    number::rounding_is_to_the_nearest_even(number::significand(bits), pow2(e));
}

/// The binary64 pattern of a narrow number that is neither tiny nor infinite.
pub open spec fn widened(bits: u32) -> u64 {
    let magnitude = bits % 0x8000_0000;
    let sign: int = if bits >= 0x8000_0000 {
        0x8000_0000_0000_0000
    } else {
        0
    };
    (sign + (magnitude / 0x80_0000 + 896) * 0x10_0000_0000_0000 + (magnitude % 0x80_0000)
        * 0x2000_0000) as u64
}

/// Law: a narrow number that is neither tiny nor infinite comes back when it is
/// widened and narrowed; numbers too large are infinite; the sign stays.
pub proof fn wide_numbers_come_back(bits: u32, huge: u64)
    requires
        0x80_0000 <= bits % 0x8000_0000 < 0x7f80_0000,
        0x47f0_0000_0000_0000 <= huge <= 0x7ff0_0000_0000_0000,
    ensures
        narrowed(widened(bits)) == bits,
        narrowed(huge) == 0x7f80_0000,
        narrowed((huge + 0x8000_0000_0000_0000) as u64) == 0xff80_0000,
{
    lemma2_to64();
    let w = widened(bits);
    let magnitude = bits % 0x8000_0000;
    let biased = magnitude / 0x80_0000;
    let fraction = magnitude % 0x80_0000;
    assert(w % number::EXPONENT_UNIT == fraction * 0x2000_0000);
    assert((w / number::EXPONENT_UNIT) % 2048 == biased + 896);
    assert(number::significand(w) == 0x10_0000_0000_0000 + fraction * 0x2000_0000);
    assert(unit_exponent(w) == biased - 150);
    assert(unit_exponent(w) - number::unit_exponent(w) == 29);
    assert(unit_count(w) == 0x80_0000 + fraction);
    assert(!number::is_nan(w));
    let negative = (huge + 0x8000_0000_0000_0000) as u64;
    assert((negative / number::EXPONENT_UNIT) % 2048 == (huge / number::EXPONENT_UNIT) % 2048);
    assert(unit_exponent(huge) >= 105);
    assert(unit_exponent(negative) >= 105);
    assert((unit_exponent(huge) + 149) * EXPONENT_UNIT >= 254 * EXPONENT_UNIT);
    lemma_full_count(huge);
    lemma_full_count(negative);
}

/// A number that is not tiny has at least as many units as a narrow significand.
proof fn lemma_full_count(bits: u64)
    requires
        (bits / number::EXPONENT_UNIT) % 2048 >= 897,
    ensures
        unit_count(bits) >= 0x80_0000,
{
    lemma2_to64();
    assert(unit_exponent(bits) - number::unit_exponent(bits) == 29);
    assert(number::significand(bits) >= 0x10_0000_0000_0000);
}

} // verus!
