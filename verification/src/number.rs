//! Real numbers as IEEE 754 binary64 bit patterns. Arithmetic on them is left
//! to callers; what lives here is the exact rounding of a decimal to its bit
//! pattern and the few questions the object layer asks of a pattern.

use crate::bignat;
use vstd::arithmetic::power2::*;
use vstd::prelude::*;

verus! {

broadcast use lemma_pow2_pos;

/// A real number by its binary64 bit pattern.
#[derive(Debug, Clone, Copy)]
pub struct Real {
    /// Sign, biased exponent and fraction, most significant bit first.
    pub bits: u64,
}

/// The bit pattern of the number 1.
pub const ONE_BITS: u64 = 0x3ff0_0000_0000_0000;

/// The bit pattern of positive infinity.
pub const INFINITY_BITS: u64 = 0x7ff0_0000_0000_0000;

/// The weight of the sign bit.
pub const SIGN_BIT: u64 = 0x8000_0000_0000_0000;

/// The weight of the lowest exponent bit, two to the 52.
pub const EXPONENT_UNIT: u64 = 0x0010_0000_0000_0000;

/// The integer nearest to `n / d`, the even one of two equally near.
pub open spec fn half_even(n: nat, d: nat) -> nat {
    let q = n / d;
    let r = n % d;
    if 2 * r > d || (2 * r == d && q % 2 == 1) {
        q + 1
    } else {
        q
    }
}

/// The numerator of `num / den` counted in units of two to the `e`.
pub open spec fn unit_num(num: nat, e: int) -> nat {
    if e < 0 {
        num * pow2((-e) as nat)
    } else {
        num
    }
}

/// The denominator of `num / den` counted in units of two to the `e`.
pub open spec fn unit_den(den: nat, e: int) -> nat {
    if e > 0 {
        den * pow2(e as nat)
    } else {
        den
    }
}

/// Whether `num / den` is below two to the 53 units of two to the `e`.
pub open spec fn fits(num: nat, den: nat, e: int) -> bool {
    unit_num(num, e) < unit_den(den, e) * pow2(53)
}

/// Whether two to the `e` is the unit in the last place at `num / den`: the
/// smallest in which the quotient has at most 53 bits, but no smaller than
/// the unit of the subnormal range.
pub open spec fn is_exponent(num: nat, den: nat, e: int) -> bool {
    &&& -1074 <= e
    &&& fits(num, den, e)
    &&& e == -1074 || !fits(num, den, e - 1)
}

/// The bit pattern of the binary64 number nearest to `num / den`, ties to
/// even, infinity past the largest finite one.
pub open spec fn nearest_bits(num: nat, den: nat) -> nat {
    let e = choose|e: int| is_exponent(num, den, e);
    let raw = (e + 1074) * EXPONENT_UNIT + half_even(unit_num(num, e), unit_den(den, e));
    if raw >= INFINITY_BITS {
        INFINITY_BITS as nat
    } else {
        raw as nat
    }
}

/// The number a run of ASCII digits writes.
pub open spec fn decimal_value(digits: Seq<u8>) -> nat
    decreases digits.len(),
{
    if digits.len() == 0 {
        0
    } else {
        decimal_value(digits.drop_last()) * 10 + (digits.last() - 48) as nat
    }
}

/// Ten to the power `n`.
pub open spec fn pow10(n: nat) -> nat
    decreases n,
{
    if n == 0 {
        1
    } else {
        10 * pow10((n - 1) as nat)
    }
}

/// Whether every byte is an ASCII digit.
pub open spec fn all_digits(digits: Seq<u8>) -> bool {
    forall|i: int| 0 <= i < digits.len() ==> 48 <= #[trigger] digits[i] <= 57
}

/// The bit pattern of `num / den` with a sign.
pub open spec fn signed_bits(negative: bool, num: nat, den: nat) -> nat {
    if negative {
        SIGN_BIT as nat + nearest_bits(num, den)
    } else {
        nearest_bits(num, den)
    }
}

/// The bit pattern of the number nearest to an integer.
pub open spec fn int_bits(value: i64) -> nat {
    if value < 0 {
        signed_bits(true, (-value) as nat, 1)
    } else {
        signed_bits(false, value as nat, 1)
    }
}

/// Doubling the unit keeps a number that fits fitting.
proof fn lemma_fits_next(num: nat, den: nat, e: int)
    requires
        fits(num, den, e),
    ensures
        fits(num, den, e + 1),
{
    if e < 0 {
        lemma_pow2_unfold((-e) as nat);
        let p = pow2((-e - 1) as nat);
        assert(num * (2 * p) == 2 * (num * p)) by (nonlinear_arith);
        if e + 1 == 0 {
            lemma2_to64();
            assert(num * 1 == num);
        }
    } else {
        lemma_pow2_unfold((e + 1) as nat);
        let p = pow2(e as nat);
        let h = pow2(53);
        if e == 0 {
            lemma2_to64();
        }
        let d = unit_den(den, e);
        assert(unit_den(den, e + 1) == 2 * d) by {
            if e > 0 {
                assert(den * (2 * p) == 2 * (den * p)) by (nonlinear_arith);
            }
        }
        assert((2 * d) * h >= d * h) by (nonlinear_arith);
    }
}

proof fn lemma_fits_up(num: nat, den: nat, e: int, f: int)
    requires
        fits(num, den, e),
        e <= f,
    ensures
        fits(num, den, f),
    decreases f - e,
{
    if e < f {
        lemma_fits_next(num, den, e);
        lemma_fits_up(num, den, e + 1, f);
    }
}

proof fn lemma_exponent_unique(num: nat, den: nat, e: int, f: int)
    requires
        is_exponent(num, den, e),
        is_exponent(num, den, f),
    ensures
        e == f,
{
    if e < f {
        lemma_fits_up(num, den, e, f - 1);
    } else if f < e {
        lemma_fits_up(num, den, f, e - 1);
    }
}

proof fn lemma_below_pow2(n: nat)
    ensures
        n < pow2(n),
    decreases n,
{
    if n == 0 {
        lemma2_to64();
    } else {
        lemma_below_pow2((n - 1) as nat);
        lemma_pow2_unfold(n);
    }
}

proof fn lemma_find_exponent(num: nat, den: nat, e: int) -> (found: int)
    requires
        -1074 <= e,
        fits(num, den, e),
    ensures
        is_exponent(num, den, found),
    decreases e + 1074,
{
    if e == -1074 || !fits(num, den, e - 1) {
        e
    } else {
        lemma_find_exponent(num, den, e - 1)
    }
}

proof fn lemma_exponent_exists(num: nat, den: nat)
    requires
        den > 0,
    ensures
        exists|e: int| is_exponent(num, den, e),
{
    lemma_below_pow2(num);
    let e = num as int;
    assert(fits(num, den, e)) by {
        lemma2_to64_rest();
        let d = unit_den(den, e);
        assert(d >= pow2(num)) by {
            if e > 0 {
                assert(den * pow2(e as nat) >= pow2(e as nat)) by (nonlinear_arith)
                    requires
                        den >= 1,
                ;
            } else {
                lemma2_to64();
            }
        }
        let h = pow2(53);
        assert(d * h >= d) by (nonlinear_arith)
            requires
                h >= 1,
        ;
    }
    let found = lemma_find_exponent(num, den, e);
}

/// Past the largest exponent the nearest pattern is infinity.
proof fn lemma_overflow(num: nat, den: nat)
    requires
        den > 0,
        !fits(num, den, 971),
    ensures
        nearest_bits(num, den) == INFINITY_BITS,
{
    lemma_exponent_exists(num, den);
    let e = choose|e: int| is_exponent(num, den, e);
    if e <= 971 {
        lemma_fits_up(num, den, e, 971);
    }
    assert(!fits(num, den, e - 1));
    lemma_pow2_unfold(e as nat);
    lemma2_to64_rest();
    let p = pow2((e - 1) as nat);
    let d = unit_den(den, e);
    assert(d == 2 * unit_den(den, e - 1)) by {
        assert(den * (2 * p) == 2 * (den * p)) by (nonlinear_arith);
    }
    let d1 = unit_den(den, e - 1);
    let h = pow2(53);
    assert(num >= d1 * h);
    assert(h == 2 * EXPONENT_UNIT);
    assert(d1 > 0) by (nonlinear_arith)
        requires
            d1 == den * p,
            den > 0,
            p > 0,
    ;
    let u = EXPONENT_UNIT as nat;
    assert(num >= u * d) by (nonlinear_arith)
        requires
            num >= d1 * h,
            h == 2 * u,
            d == 2 * d1,
    ;
    assert(num / d >= u) by {
        vstd::arithmetic::div_mod::lemma_div_is_ordered((u * d) as int, num as int, d as int);
        vstd::arithmetic::div_mod::lemma_div_by_multiple(u as int, d as int);
    }
    assert((e + 1074) * EXPONENT_UNIT >= 2046 * EXPONENT_UNIT) by (nonlinear_arith)
        requires
            e >= 972,
            EXPONENT_UNIT > 0,
    ;
}

/// The division step: 53 quotient bits of `n / b` and what is left.
fn divide_bits(n: Vec<u32>, b: &Vec<u32>) -> (out: (u64, Vec<u32>))
    requires
        bignat::nat_of(n@) < 2 * bignat::nat_of(b@),
    ensures
        out.0 < pow2(53),
        bignat::nat_of(n@) * pow2(53) == 2 * bignat::nat_of(b@) * out.0 + bignat::nat_of(out.1@),
        bignat::nat_of(out.1@) < 2 * bignat::nat_of(b@),
{
    let ghost whole = bignat::nat_of(n@);
    let ghost bv = bignat::nat_of(b@);
    let mut rest = n;
    let mut quotient: u64 = 0;
    let mut k: u32 = 0;
    proof {
        lemma2_to64();
        lemma2_to64_rest();
        assert(2 * bv * 0 == 0) by (nonlinear_arith);
        assert(whole * 1 == whole);
    }
    while k < 53
        invariant
            k <= 53,
            bv == bignat::nat_of(b@),
            quotient < pow2(k as nat),
            whole * pow2(k as nat) == 2 * bv * quotient + bignat::nat_of(rest@),
            bignat::nat_of(rest@) < 2 * bv,
        decreases 53 - k,
    {
        proof {
            lemma2_to64();
            lemma2_to64_rest();
            if k < 52 {
                lemma_pow2_strictly_increases(k as nat, 52);
            }
            lemma_pow2_unfold((k + 1) as nat);
        }
        let ghost before = bignat::nat_of(rest@);
        let one = bignat::at_least(&rest, b);
        let bit: u64 = if one {
            1
        } else {
            0
        };
        if one {
            bignat::subtract(&mut rest, b);
        }
        bignat::mul_add(&mut rest, 2, 0);
        proof {
            let p = pow2(k as nat);
            let q = quotient as nat;
            let t = bit as nat;
            let after = bignat::nat_of(rest@);
            assert(after == 2 * (before - t * bv)) by (nonlinear_arith)
                requires
                    (t == 1 && after == (before - bv) * 2) || (t == 0 && after == before * 2),
            ;
            assert(whole * (2 * p) == 2 * bv * (2 * q + t) + after) by (nonlinear_arith)
                requires
                    whole * p == 2 * bv * q + before,
                    after == 2 * (before - t * bv),
            ;
        }
        quotient = quotient * 2 + bit;
        k += 1;
    }
    (quotient, rest)
}

/// Doubles `b` `count` times.
fn shift_up(b: &mut Vec<u32>, count: u32)
    ensures
        bignat::nat_of(final(b)@) == bignat::nat_of(old(b)@) * pow2(count as nat),
{
    let ghost start = bignat::nat_of(b@);
    let mut k: u32 = 0;
    proof {
        lemma2_to64();
        assert(start * 1 == start);
    }
    while k < count
        invariant
            k <= count,
            bignat::nat_of(b@) == start * pow2(k as nat),
        decreases count - k,
    {
        bignat::mul_add(b, 2, 0);
        proof {
            lemma_pow2_unfold((k + 1) as nat);
            let p = pow2(k as nat);
            assert((start * p) * 2 == start * (2 * p)) by (nonlinear_arith);
        }
        k += 1;
    }
}

/// The quotient in units of two to the `e`, rounded: `b` is the denominator
/// in those units with 52 zero bits appended.
fn round_units(n: Vec<u32>, b: &Vec<u32>, Ghost(d): Ghost<nat>) -> (q: u64)
    requires
        d > 0,
        bignat::nat_of(b@) == d * pow2(52),
        bignat::nat_of(n@) < d * pow2(53),
    ensures
        q == half_even(bignat::nat_of(n@), d),
        q <= pow2(53),
{
    let ghost whole = bignat::nat_of(n@);
    proof {
        lemma_pow2_unfold(53);
        let p = pow2(52);
        assert(2 * (d * p) == d * (2 * p)) by (nonlinear_arith);
    }
    let (q, rest) = divide_bits(n, b);
    let ghost rem = bignat::nat_of(rest@);
    proof {
        lemma2_to64_rest();
        let p = pow2(53);
        let bv = bignat::nat_of(b@);
        let qn = q as nat;
        assert(whole * p == (d * qn) * p + rem) by (nonlinear_arith)
            requires
                whole * p == 2 * bv * qn + rem,
                2 * bv == d * p,
        ;
        let r = whole - d * qn;
        assert(rem == r * p) by (nonlinear_arith)
            requires
                whole * p == (d * qn) * p + rem,
                r == whole - d * qn,
        ;
        assert(0 <= r < d) by (nonlinear_arith)
            requires
                rem == r * p,
                0 <= rem < d * p,
                p > 0,
        ;
        assert(whole == qn * d + r) by (nonlinear_arith)
            requires
                r == whole - d * qn,
        ;
        vstd::arithmetic::div_mod::lemma_fundamental_div_mod_converse(
            whole as int,
            d as int,
            qn as int,
            r,
        );
        let h = pow2(52);
        assert(p == 2 * h);
        assert((rem >= bv) == (2 * r >= d) && (bv >= rem) == (d >= 2 * r)) by (nonlinear_arith)
            requires
                rem == r * p,
                bv == d * h,
                p == 2 * h,
                h > 0,
        ;
    }
    let not_below = bignat::at_least(&rest, b);
    let not_above = bignat::at_least(b, &rest);
    if not_below && (!not_above || q % 2 == 1) {
        q + 1
    } else {
        q
    }
}

/// The pattern of the binary64 number nearest to `num / den`.
fn nearest(num: Vec<u32>, den: Vec<u32>) -> (bits: u64)
    requires
        bignat::nat_of(den@) > 0,
    ensures
        bits == nearest_bits(bignat::nat_of(num@), bignat::nat_of(den@)),
        bits <= INFINITY_BITS,
{
    let ghost nv = bignat::nat_of(num@);
    let ghost dv = bignat::nat_of(den@);
    let mut n = num;
    let mut b = den;
    shift_up(&mut b, 52);
    let mut e: i64 = 0;
    proof {
        lemma2_to64();
        lemma2_to64_rest();
    }
    while e > -1074 && !bignat::at_least(&n, &b)
        invariant
            -1074 <= e <= 0,
            dv > 0,
            bignat::nat_of(b@) == dv * pow2(52),
            bignat::nat_of(n@) == unit_num(nv, e as int),
            e < 0 ==> fits(nv, dv, e as int),
        decreases e + 1074,
    {
        proof {
            lemma_pow2_unfold((1 - e) as nat);
            lemma_pow2_unfold(53);
            lemma2_to64();
            let p = pow2((-e) as nat);
            if e == 0 {
                assert(nv * 1 == nv);
            }
            assert((nv * p) * 2 == nv * (2 * p)) by (nonlinear_arith);
            let h = pow2(52);
            assert(dv * (2 * h) == 2 * (dv * h)) by (nonlinear_arith);
        }
        bignat::mul_add(&mut n, 2, 0);
        e -= 1;
    }
    proof {
        lemma_pow2_unfold(53);
    }
    if e < 0 {
        proof {
            let h = pow2(52);
            assert(dv * (2 * h) == 2 * (dv * h)) by (nonlinear_arith);
            lemma_pow2_unfold((1 - e) as nat);
            let p = pow2((-e) as nat);
            assert(nv * (2 * p) == 2 * (nv * p)) by (nonlinear_arith);
            assert(is_exponent(nv, dv, e as int));
        }
        let q: u64 = round_units(n, &b, Ghost(dv));
        proof {
            lemma_exponent_exists(nv, dv);
            let f = choose|f: int| is_exponent(nv, dv, f);
            lemma_exponent_unique(nv, dv, e as int, f);
            lemma2_to64_rest();
        }
        return (e + 1074) as u64 * EXPONENT_UNIT + q;
    }
    let mut top = b.clone();
    assert(top@ =~= b@);
    bignat::mul_add(&mut top, 2, 0);
    proof {
        lemma2_to64();
        assert(dv * 1 == dv);
    }
    while e < 972 && bignat::at_least(&n, &top)
        invariant
            0 <= e <= 972,
            dv > 0,
            bignat::nat_of(n@) == nv,
            bignat::nat_of(b@) == unit_den(dv, e as int) * pow2(52),
            bignat::nat_of(top@) == 2 * bignat::nat_of(b@),
            nv >= bignat::nat_of(b@),
            e > 0 ==> !fits(nv, dv, e - 1),
        decreases 972 - e,
    {
        proof {
            lemma_pow2_unfold((e + 1) as nat);
            lemma_pow2_unfold(53);
            lemma2_to64();
            let p = pow2(e as nat);
            let h = pow2(52);
            let d = unit_den(dv, e as int);
            if e == 0 {
                assert(dv * 1 == dv);
            }
            assert(dv * (2 * p) == 2 * (dv * p)) by (nonlinear_arith);
            assert(unit_den(dv, e + 1) == 2 * d);
            assert((2 * d) * h == 2 * (d * h)) by (nonlinear_arith);
            assert(d * (2 * h) == 2 * (d * h)) by (nonlinear_arith);
        }
        bignat::mul_add(&mut b, 2, 0);
        bignat::mul_add(&mut top, 2, 0);
        e += 1;
    }
    if e >= 972 {
        proof {
            lemma_overflow(nv, dv);
        }
        return INFINITY_BITS;
    }
    let ghost d = unit_den(dv, e as int);
    proof {
        lemma_pow2_unfold(53);
        let h = pow2(52);
        assert(d * (2 * h) == 2 * (d * h)) by (nonlinear_arith);
        assert(d > 0) by {
            if e > 0 {
                let p = pow2(e as nat);
                assert(dv * p > 0) by (nonlinear_arith)
                    requires
                        dv > 0,
                        p > 0,
                ;
            }
        }
        if e == 0 {
            lemma2_to64();
            assert(!fits(nv, dv, -1)) by {
                assert(pow2(1) == 2);
                assert(nv * 2 == 2 * nv);
            }
        }
        assert(is_exponent(nv, dv, e as int));
    }
    let q: u64 = round_units(n, &b, Ghost(d));
    proof {
        lemma_exponent_exists(nv, dv);
        let f = choose|f: int| is_exponent(nv, dv, f);
        lemma_exponent_unique(nv, dv, e as int, f);
        lemma2_to64_rest();
    }
    (e + 1074) as u64 * EXPONENT_UNIT + q
}

/// Appends decimal digits to a number.
fn push_digits(n: &mut Vec<u32>, digits: &[u8])
    requires
        all_digits(digits@),
        bignat::nat_of(old(n)@) == 0,
    ensures
        bignat::nat_of(final(n)@) == decimal_value(digits@),
{
    let mut i: usize = 0;
    assert(digits@.take(0) =~= Seq::<u8>::empty());
    while i < digits.len()
        invariant
            i <= digits.len(),
            all_digits(digits@),
            bignat::nat_of(n@) == decimal_value(digits@.take(i as int)),
        decreases digits.len() - i,
    {
        bignat::mul_add(n, 10, (digits[i] - 48) as u32);
        assert(digits@.take(i + 1).drop_last() =~= digits@.take(i as int));
        i += 1;
    }
    assert(digits@.take(i as int) =~= digits@);
}

/// A 64-bit number as limbs.
fn from_u64(value: u64) -> (out: Vec<u32>)
    ensures
        bignat::nat_of(out@) == value,
{
    let mut out: Vec<u32> = Vec::new();
    bignat::mul_add(&mut out, 1, (value / 0x1_0000_0000) as u32);
    bignat::mul_add(&mut out, 0x1_0000, 0);
    bignat::mul_add(&mut out, 0x1_0000, (value % 0x1_0000_0000) as u32);
    out
}

/// Ten to the power `count`.
fn power_of_ten(count: usize) -> (out: Vec<u32>)
    ensures
        bignat::nat_of(out@) == pow10(count as nat),
        bignat::nat_of(out@) > 0,
{
    let mut out: Vec<u32> = Vec::new();
    bignat::mul_add(&mut out, 1, 1);
    let mut i: usize = 0;
    while i < count
        invariant
            i <= count,
            bignat::nat_of(out@) == pow10(i as nat),
            bignat::nat_of(out@) > 0,
        decreases count - i,
    {
        bignat::mul_add(&mut out, 10, 0);
        i += 1;
    }
    out
}

/// The significand of a pattern, an integer below two to the 53.
pub open spec fn significand(bits: u64) -> nat {
    let fraction = (bits % EXPONENT_UNIT) as nat;
    if (bits / EXPONENT_UNIT) % 2048 == 0 {
        fraction
    } else {
        EXPONENT_UNIT as nat + fraction
    }
}

/// The exponent of the unit in the last place of a pattern.
pub open spec fn unit_exponent(bits: u64) -> int {
    let biased = (bits / EXPONENT_UNIT) % 2048;
    if biased == 0 {
        -1074
    } else {
        biased - 1075
    }
}

/// The magnitude of a pattern without its fractional part.
pub open spec fn whole_part(bits: u64) -> nat {
    let e = unit_exponent(bits);
    if e >= 0 {
        significand(bits) * pow2(e as nat)
    } else {
        significand(bits) / pow2((-e) as nat)
    }
}

/// Whether a pattern is no number at all.
pub open spec fn is_nan(bits: u64) -> bool {
    bits % SIGN_BIT > INFINITY_BITS
}

/// The integer between `low` and `high` nearest to the truncated number.
pub open spec fn saturated(bits: u64, low: int, high: int) -> int {
    if is_nan(bits) {
        0
    } else {
        let magnitude = whole_part(bits) as int;
        let value = if bits >= SIGN_BIT {
            -magnitude
        } else {
            magnitude
        };
        if value < low {
            low
        } else if value > high {
            high
        } else {
            value
        }
    }
}

/// A position on the number line that orders patterns: negative numbers by
/// falling magnitude, both zeros in one place, positive ones by magnitude.
pub open spec fn line_position(bits: u64) -> int {
    if bits >= SIGN_BIT {
        -((bits - SIGN_BIT) as int)
    } else {
        bits as int
    }
}

impl PartialEq for Real {
    fn eq(&self, other: &Real) -> (out: bool) {
        let low: u64 = self.bits % SIGN_BIT;
        let other_low: u64 = other.bits % SIGN_BIT;
        low <= INFINITY_BITS && other_low <= INFINITY_BITS && (self.bits == other.bits || (low == 0
            && other_low == 0))
    }
}

impl vstd::std_specs::cmp::PartialEqSpecImpl for Real {
    open spec fn obeys_eq_spec() -> bool {
        true
    }

    open spec fn eq_spec(&self, other: &Real) -> bool {
        !is_nan(self.bits) && !is_nan(other.bits) && line_position(self.bits) == line_position(
            other.bits,
        )
    }
}

impl Real {
    /// The number whose decimal digits are `digits`, the last `places` of
    /// them after the point: the nearest binary64 number, ties to even.
    pub fn from_decimal(negative: bool, digits: &[u8], places: usize) -> (out: Real)
        requires
            all_digits(digits@),
        ensures
            out.bits == signed_bits(negative, decimal_value(digits@), pow10(places as nat)),
    {
        let mut num: Vec<u32> = Vec::new();
        push_digits(&mut num, digits);
        let den = power_of_ten(places);
        let bits: u64 = nearest(num, den);
        Real {
            bits: if negative {
                SIGN_BIT + bits
            } else {
                bits
            },
        }
    }

    /// The number `mantissa` with its last `places` digits after the point.
    pub fn from_scaled(negative: bool, mantissa: u64, places: usize) -> (out: Real)
        ensures
            out.bits == signed_bits(negative, mantissa as nat, pow10(places as nat)),
    {
        let num = from_u64(mantissa);
        let den = power_of_ten(places);
        let bits: u64 = nearest(num, den);
        Real {
            bits: if negative {
                SIGN_BIT + bits
            } else {
                bits
            },
        }
    }

    /// The number nearest to an integer.
    pub fn from_int(value: i64) -> (out: Real)
        ensures
            out.bits == int_bits(value),
    {
        let magnitude: u64 = if value == i64::MIN {
            SIGN_BIT
        } else if value < 0 {
            (-value) as u64
        } else {
            value as u64
        };
        let num = from_u64(magnitude);
        let den = power_of_ten(0);
        let bits: u64 = nearest(num, den);
        Real {
            bits: if value < 0 {
                SIGN_BIT + bits
            } else {
                bits
            },
        }
    }

    /// Whether the number is neither infinite nor undefined.
    pub fn is_finite(self) -> (out: bool)
        ensures
            out == (self.bits % SIGN_BIT < INFINITY_BITS),
    {
        self.bits % SIGN_BIT < INFINITY_BITS
    }

    /// The whole part of the magnitude, capped at two to the 63.
    fn magnitude(self) -> (out: u64)
        ensures
            whole_part(self.bits) < SIGN_BIT ==> out == whole_part(self.bits),
            whole_part(self.bits) >= SIGN_BIT ==> out == SIGN_BIT,
    {
        let biased: u64 = (self.bits / EXPONENT_UNIT) % 2048;
        let fraction: u64 = self.bits % EXPONENT_UNIT;
        let mut out: u64 = if biased == 0 {
            fraction
        } else {
            EXPONENT_UNIT + fraction
        };
        let ghost m = out as nat;
        proof {
            lemma2_to64();
            assert(m * 1 == m && m / 1 == m);
        }
        if biased >= 1075 {
            let mut k: u64 = biased - 1075;
            let ghost total = k;
            while k > 0
                invariant
                    k <= total,
                    total <= 972,
                    out < SIGN_BIT,
                    out == m * pow2((total - k) as nat),
                    whole_part(self.bits) == m * pow2(total as nat),
                decreases k,
            {
                proof {
                    lemma_pow2_unfold((total - k + 1) as nat);
                    let p = pow2((total - k) as nat);
                    assert(m * (2 * p) == 2 * (m * p)) by (nonlinear_arith);
                }
                if out >= SIGN_BIT / 2 {
                    proof {
                        let p = pow2((total - k + 1) as nat);
                        let r = pow2((k - 1) as nat);
                        lemma_pow2_adds((total - k + 1) as nat, (k - 1) as nat);
                        assert(m * (p * r) >= m * p) by (nonlinear_arith)
                            requires
                                r >= 1,
                        ;
                    }
                    return SIGN_BIT;
                }
                out *= 2;
                k -= 1;
            }
            out
        } else {
            let mut k: u64 = if biased == 0 {
                1074
            } else {
                1075 - biased
            };
            let ghost total = k;
            while k > 0
                invariant
                    k <= total,
                    total <= 1074,
                    out < SIGN_BIT,
                    out == m / pow2((total - k) as nat),
                    whole_part(self.bits) == m / pow2(total as nat),
                decreases k,
            {
                proof {
                    lemma_pow2_unfold((total - k + 1) as nat);
                    let p = pow2((total - k) as nat);
                    vstd::arithmetic::div_mod::lemma_div_denominator(m as int, p as int, 2);
                    assert(p * 2 == 2 * p);
                }
                out /= 2;
                k -= 1;
            }
            out
        }
    }

    /// The number truncated to an integer, saturating at the ends of the
    /// range; zero for an undefined number.
    pub fn to_i64(self) -> (out: i64)
        ensures
            out == saturated(self.bits, i64::MIN as int, i64::MAX as int),
    {
        if self.bits % SIGN_BIT > INFINITY_BITS {
            return 0;
        }
        let magnitude: u64 = self.magnitude();
        if self.bits >= SIGN_BIT {
            if magnitude >= SIGN_BIT {
                i64::MIN
            } else {
                -(magnitude as i64)
            }
        } else if magnitude >= SIGN_BIT {
            i64::MAX
        } else {
            magnitude as i64
        }
    }

    /// The number truncated to an unsigned 32-bit integer, saturating.
    pub fn to_u32(self) -> (out: u32)
        ensures
            out == saturated(self.bits, 0, u32::MAX as int),
    {
        if self.bits % SIGN_BIT > INFINITY_BITS {
            return 0;
        }
        let magnitude: u64 = self.magnitude();
        if self.bits >= SIGN_BIT {
            0
        } else if magnitude > u32::MAX as u64 {
            u32::MAX
        } else {
            magnitude as u32
        }
    }

    /// Whether the number lies below `other` on the number line.
    pub fn is_below(self, other: Real) -> (out: bool)
        ensures
            out == (line_position(self.bits) < line_position(other.bits)),
    {
        let negative = self.bits >= SIGN_BIT;
        let other_negative = other.bits >= SIGN_BIT;
        if negative && other_negative {
            self.bits > other.bits
        } else if negative {
            self.bits > SIGN_BIT || other.bits > 0
        } else if other_negative {
            false
        } else {
            self.bits < other.bits
        }
    }
}

/// An integer of no more than 53 bits survives as a number: truncating the
/// number nearest to it gives it back.
pub proof fn small_integers_survive(value: i64)
    requires
        -0x20_0000_0000_0000 < value < 0x20_0000_0000_0000,
    ensures
        saturated(int_bits(value) as u64, i64::MIN as int, i64::MAX as int) == value,
{
    let n: nat = if value < 0 {
        (-value) as nat
    } else {
        value as nat
    };
    let bits = nearest_bits(n, 1);
    lemma_small_pattern(n);
    let signed = int_bits(value);
    let u = EXPONENT_UNIT as nat;
    assert(SIGN_BIT == 2048 * u);
    assert(signed / u % 2048 == bits / u && signed % u == bits % u) by {
        if value < 0 {
            vstd::arithmetic::div_mod::lemma_hoist_over_denominator(
                bits as int,
                2048,
                u,
            );
            vstd::arithmetic::div_mod::lemma_mod_multiples_vanish(2048, bits as int, u as int);
        }
    }
    assert(whole_part(signed as u64) == n);
}

/// The pattern of an integer of no more than 53 bits, taken apart.
proof fn lemma_small_pattern(n: nat)
    requires
        n < 0x20_0000_0000_0000,
    ensures
        nearest_bits(n, 1) < INFINITY_BITS,
        nearest_bits(n, 1) / (EXPONENT_UNIT as nat) < 2047,
        whole_part(nearest_bits(n, 1) as u64) == n,
{
    lemma2_to64();
    lemma2_to64_rest();
    lemma_exponent_exists(n, 1);
    let e = choose|e: int| is_exponent(n, 1, e);
    let u = EXPONENT_UNIT as nat;
    assert(pow2(53) == 2 * u);
    if n == 0 {
        assert(is_exponent(0, 1, -1074)) by {
            assert(0 * pow2(1074) == 0) by (nonlinear_arith);
        }
        lemma_exponent_unique(n, 1, e, -1074);
        assert(0 * pow2(1074) == 0) by (nonlinear_arith);
        assert(nearest_bits(n, 1) == 0);
        assert(0nat / pow2(1074) == 0) by {
            vstd::arithmetic::div_mod::lemma_basic_div(0, pow2(1074) as int);
        }
    } else {
        assert(fits(n, 1, 0));
        if e > 0 {
            lemma_fits_up(n, 1, 0, e - 1);
        }
        if e == -1074 {
            lemma_pow2_strictly_increases(53, 1074);
            assert(n * pow2(1074) >= pow2(1074)) by (nonlinear_arith)
                requires
                    n >= 1,
            ;
        }
        let p = pow2((-e) as nat);
        let m = n * p;
        lemma_pow2_unfold((1 - e) as nat);
        assert(n * (2 * p) == 2 * m) by (nonlinear_arith)
            requires
                m == n * p,
        ;
        assert(unit_num(n, e) == m) by {
            if e == 0 {
                assert(n * 1 == n);
            }
        }
        assert(u <= m < 2 * u);
        assert(m / 1 == m && m % 1 == 0);
        let raw = (e + 1074) * u + m;
        let f = (m - u) as int;
        assert(raw == (e + 1075) * u + f) by (nonlinear_arith)
            requires
                raw == (e + 1074) * u + m,
                f == m - u,
        ;
        vstd::arithmetic::div_mod::lemma_fundamental_div_mod_converse(
            raw,
            u as int,
            e + 1075,
            f,
        );
        assert(raw < 1076 * u) by (nonlinear_arith)
            requires
                raw == (e + 1075) * u + f,
                f < u,
                e <= 0,
        ;
        assert(m / p == n) by {
            vstd::arithmetic::div_mod::lemma_div_by_multiple(n as int, p as int);
        }
    }
}

/// Law: rounding a quotient gives an integer no more than half away from it, an
/// even one where it lies halfway.
pub proof fn rounding_is_to_the_nearest_even(n: nat, d: nat)
    requires
        d > 0,
    ensures
        ({
            let q = half_even(n, d);
            &&& -(d as int) <= 2 * (n - q * d) <= d
            &&& 2 * (n - q * d) == d || 2 * (n - q * d) == -(d as int) ==> q % 2 == 0
        }),
{
    let q = n / d;
    let r = n % d;
    vstd::arithmetic::div_mod::lemma_fundamental_div_mod(n as int, d as int);
    assert((q + 1) * d == q * d + d) by (nonlinear_arith);
    assert(d * q == q * d) by (nonlinear_arith);
}

/// Law: every finite binary64 number survives: the pattern nearest to the
/// number that a pattern stands for is the pattern itself.
pub proof fn exact_numbers_keep_their_pattern(bits: u64)
    requires
        bits < INFINITY_BITS,
    ensures
        ({
            let e = unit_exponent(bits);
            let m = significand(bits);
            &&& e >= 0 ==> nearest_bits(m * pow2(e as nat), 1) == bits
            &&& e < 0 ==> nearest_bits(m, pow2((-e) as nat)) == bits
        }),
{
    lemma2_to64();
    lemma2_to64_rest();
    let e = unit_exponent(bits);
    let m = significand(bits);
    let u = EXPONENT_UNIT as nat;
    let biased = (bits / EXPONENT_UNIT) as int;
    let fraction = (bits % EXPONENT_UNIT) as int;
    assert(biased < 2047);
    assert(bits == biased * u + fraction);
    let p = pow2((if e < 0 {
        -e
    } else {
        e
    }) as nat);
    let num = if e >= 0 {
        m * p
    } else {
        m
    };
    let den: nat = if e >= 0 {
        1
    } else {
        p
    };
    assert(pow2(53) == 2 * u);
    assert(m < 2 * u);
    assert(m * 1 == m);
    assert(unit_num(num, e) == m * p) by {
        if e == 0 {
            assert(p == 1);
        }
    }
    assert(unit_den(den, e) == p) by {
        if e > 0 {
            assert(1 * p == p);
        }
    }
    assert(fits(num, den, e)) by {
        assert(m * p < p * (2 * u)) by (nonlinear_arith)
            requires
                m < 2 * u,
                p > 0,
        ;
    }
    if e > -1074 {
        assert(m >= u);
        assert(!fits(num, den, e - 1)) by {
            if e <= 0 {
                lemma_pow2_unfold((1 - e) as nat);
                assert(unit_num(num, e - 1) == m * (2 * p)) by {
                    if e == 0 {
                        assert(p == 1);
                        assert(num == m);
                    }
                }
                assert(unit_den(den, e - 1) == p) by {
                    if e == 0 {
                        assert(p == 1);
                    }
                }
                assert(m * (2 * p) >= p * (2 * u)) by (nonlinear_arith)
                    requires
                        m >= u,
                        p > 0,
                ;
            } else {
                lemma_pow2_unfold(e as nat);
                let h = pow2((e - 1) as nat);
                assert(unit_num(num, e - 1) == m * (2 * h));
                assert(unit_den(den, e - 1) == h) by {
                    assert(1 * h == h);
                    if e == 1 {
                        assert(h == 1);
                    }
                }
                assert(m * (2 * h) >= h * (2 * u)) by (nonlinear_arith)
                    requires
                        m >= u,
                        h > 0,
                ;
            }
        }
    }
    assert(is_exponent(num, den, e));
    lemma_exponent_exists(num, den);
    let f = choose|f: int| is_exponent(num, den, f);
    lemma_exponent_unique(num, den, e, f);
    assert(half_even(m * p, p) == m) by {
        vstd::arithmetic::div_mod::lemma_div_by_multiple(m as int, p as int);
        vstd::arithmetic::div_mod::lemma_mod_multiples_basic(m as int, p as int);
    }
    if biased == 0 {
        assert((e + 1074) * u == 0);
    } else {
        assert((e + 1074) * u + m == bits) by (nonlinear_arith)
            requires
                e == biased - 1075,
                m == u + fraction,
                bits == biased * u + fraction,
        ;
    }
}

/// Law: numbers are told apart by their sign: a minus adds the sign bit to the
/// pattern of the magnitude.
pub proof fn signs_are_kept(num: nat, den: nat)
    requires
        den > 0,
    ensures
        signed_bits(true, num, den) == signed_bits(false, num, den) + 0x8000_0000_0000_0000,
{
}

/// Law: digits write a number in tens.
pub proof fn digits_write_in_tens(digits: Seq<u8>, d: u8)
    requires
        48 <= d <= 57,
    ensures
        decimal_value(digits.push(d)) == 10 * decimal_value(digits) + (d - 48),
        decimal_value(Seq::empty()) == 0,
{
    assert(digits.push(d).drop_last() =~= digits);
}

/// Law: the whole part of a number is the largest integer that is not above its
/// magnitude: the significand counted in units of two to the exponent.
pub proof fn whole_parts_are_cut_toward_zero(bits: u64)
    ensures
        ({
            let e = unit_exponent(bits);
            let m = significand(bits);
            let w = whole_part(bits);
            let p = pow2((if e >= 0 {
                e
            } else {
                -e
            }) as nat);
            &&& e >= 0 ==> w == m * p
            &&& e < 0 ==> w * p <= m < (w + 1) * p
        }),
{
    let e = unit_exponent(bits);
    let m = significand(bits);
    if e < 0 {
        let p = pow2((-e) as nat);
        lemma_pow2_pos((-e) as nat);
        let w = m / p;
        vstd::arithmetic::div_mod::lemma_fundamental_div_mod(m as int, p as int);
        assert(w * p == p * w) by (nonlinear_arith);
        assert((w + 1) * p == w * p + p) by (nonlinear_arith);
    }
}

/// Law: making an integer of a number keeps within the bounds, gives the bound
/// that is passed, keeps the sign, and gives zero for what is no number.
pub proof fn numbers_are_held_within_bounds(bits: u64, low: int, high: int)
    requires
        low <= 0 <= high,
    ensures
        ({
            let v = saturated(bits, low, high);
            let w = whole_part(bits) as int;
            &&& low <= v <= high
            &&& is_nan(bits) ==> v == 0
            &&& !is_nan(bits) && bits < 0x8000_0000_0000_0000 && w <= high ==> v == w
            &&& !is_nan(bits) && bits < 0x8000_0000_0000_0000 && w > high ==> v == high
            &&& !is_nan(bits) && bits >= 0x8000_0000_0000_0000 && -w >= low ==> v == -w
            &&& !is_nan(bits) && bits >= 0x8000_0000_0000_0000 && -w < low ==> v == low
        }),
        is_nan(bits) <==> bits % 0x8000_0000_0000_0000 > 0x7ff0_0000_0000_0000,
{
}

} // verus!
