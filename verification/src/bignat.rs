//! Natural numbers of any size, as little-endian limbs of 32 bits: just what
//! an exact comparison of a decimal with a binary fraction needs.

use vstd::prelude::*;

verus! {

/// One more than the largest limb.
pub open spec fn limb_base() -> nat {
    0x1_0000_0000
}

/// The weight of the limb at position `i`.
pub open spec fn weight(i: nat) -> nat
    decreases i,
{
    if i == 0 {
        1
    } else {
        limb_base() * weight((i - 1) as nat)
    }
}

/// The number that `limbs` stand for, least significant limb first.
pub open spec fn nat_of(limbs: Seq<u32>) -> nat
    decreases limbs.len(),
{
    if limbs.len() == 0 {
        0
    } else {
        nat_of(limbs.drop_last()) + limbs.last() as nat * weight((limbs.len() - 1) as nat)
    }
}

proof fn lemma_take_step(s: Seq<u32>, i: int)
    requires
        0 <= i < s.len(),
    ensures
        nat_of(s.take(i + 1)) == nat_of(s.take(i)) + s[i] as nat * weight(i as nat),
{
    assert(s.take(i + 1).drop_last() =~= s.take(i));
    assert(s.take(i + 1).last() == s[i]);
}

proof fn lemma_weight_positive(i: nat)
    ensures
        weight(i) > 0,
    decreases i,
{
    if i > 0 {
        lemma_weight_positive((i - 1) as nat);
        assert(limb_base() * weight((i - 1) as nat) > 0) by (nonlinear_arith)
            requires
                weight((i - 1) as nat) > 0,
                limb_base() > 0,
        ;
    }
}

proof fn lemma_below_weight(s: Seq<u32>)
    ensures
        nat_of(s) < weight(s.len()),
    decreases s.len(),
{
    if s.len() > 0 {
        let n = (s.len() - 1) as nat;
        lemma_below_weight(s.drop_last());
        lemma_weight_positive(n);
        let low = nat_of(s.drop_last());
        let top = s.last() as nat;
        let w = weight(n);
        assert(low + top * w < limb_base() * w) by (nonlinear_arith)
            requires
                low < w,
                top < limb_base(),
                w > 0,
        ;
    }
}

/// Replaces the number by `value * factor + addend`.
pub fn mul_add(limbs: &mut Vec<u32>, factor: u32, addend: u32)
    ensures
        nat_of(final(limbs)@) == nat_of(old(limbs)@) * factor as nat + addend as nat,
{
    let ghost start = limbs@;
    let mut carry: u64 = addend as u64;
    let mut i: usize = 0;
    let n: usize = limbs.len();
    assert(start.take(0) =~= Seq::<u32>::empty());
    assert(nat_of(start.take(0)) == 0);
    assert(weight(0) == 1);
    assert(carry as nat * 1 == carry as nat && 0 * factor as nat == 0) by (nonlinear_arith);
    while i < n
        invariant
            i <= n,
            n == limbs.len(),
            n == start.len(),
            carry < limb_base(),
            forall|j: int| i <= j < n ==> limbs@[j] == start[j],
            nat_of(limbs@.take(i as int)) + carry as nat * weight(i as nat) == nat_of(
                start.take(i as int),
            ) * factor as nat + addend as nat,
        decreases n - i,
    {
        let limb: u32 = limbs[i];
        assert(limb as u64 * factor as u64 + carry <= 0xffff_ffff_ffff_ffff) by (nonlinear_arith)
            requires
                limb <= 0xffff_ffff,
                factor <= 0xffff_ffff,
                carry <= 0xffff_ffff,
        ;
        assert(limb as u64 * factor as u64 <= 0xffff_ffff_ffff_ffff) by (nonlinear_arith)
            requires
                limb <= 0xffff_ffff,
                factor <= 0xffff_ffff,
        ;
        let total: u64 = limb as u64 * factor as u64 + carry;
        let low: u32 = (total % 0x1_0000_0000) as u32;
        let ghost before = limbs@;
        limbs.set(i, low);
        let next: u64 = total / 0x1_0000_0000;
        proof {
            lemma_take_step(limbs@, i as int);
            lemma_take_step(start, i as int);
            assert(limbs@.take(i as int) =~= before.take(i as int));
            let w = weight(i as nat);
            let c = carry as nat;
            let nx = next as nat;
            let lo = low as nat;
            let f = factor as nat;
            let l = limb as nat;
            let done = nat_of(before.take(i as int));
            let src = nat_of(start.take(i as int));
            assert(weight((i + 1) as nat) == limb_base() * w);
            assert(total as nat == l * f + c);
            assert(total as nat == lo + nx * limb_base());
            assert(done + lo * w + nx * (limb_base() * w) == (src + l * w) * f + addend as nat)
                by (nonlinear_arith)
                requires
                    l * f + c == lo + nx * limb_base(),
                    done + c * w == src * f + addend as nat,
            ;
            assert(next < 0x1_0000_0000) by (nonlinear_arith)
                requires
                    next == total / 0x1_0000_0000,
                    total <= 0xffff_ffff_ffff_ffff,
            ;
        }
        carry = next;
        i += 1;
    }
    assert(limbs@.take(n as int) =~= limbs@);
    assert(start.take(n as int) =~= start);
    if carry > 0 {
        let ghost before = limbs@;
        limbs.push(carry as u32);
        assert(limbs@.drop_last() =~= before);
    }
}

/// The limb at `i`, zero past the end.
fn limb_at(limbs: &Vec<u32>, i: usize) -> (limb: u32)
    ensures
        limb == padded(limbs@, i as int),
{
    if i < limbs.len() {
        limbs[i]
    } else {
        0
    }
}

spec fn padded(s: Seq<u32>, i: int) -> u32 {
    if 0 <= i < s.len() {
        s[i]
    } else {
        0
    }
}

spec fn low_part(s: Seq<u32>, i: int) -> nat {
    if i <= s.len() {
        nat_of(s.take(i))
    } else {
        nat_of(s)
    }
}

proof fn lemma_low_step(s: Seq<u32>, i: int)
    requires
        0 <= i,
    ensures
        low_part(s, i + 1) == low_part(s, i) + padded(s, i) as nat * weight(i as nat),
        low_part(s, i) < weight(i as nat),
{
    if i < s.len() {
        lemma_take_step(s, i);
        lemma_below_weight(s.take(i));
    } else {
        assert(s.take(s.len() as int) =~= s);
        lemma_below_weight(s);
        lemma_weight_monotonic(s.len(), i as nat);
        assert(0 * weight(i as nat) == 0);
    }
}

proof fn lemma_weight_monotonic(i: nat, j: nat)
    requires
        i <= j,
    ensures
        weight(i) <= weight(j),
    decreases j - i,
{
    if i < j {
        lemma_weight_monotonic(i, (j - 1) as nat);
        lemma_weight_positive((j - 1) as nat);
        assert(weight((j - 1) as nat) <= limb_base() * weight((j - 1) as nat))
            by (nonlinear_arith)
            requires
                limb_base() >= 1,
        ;
    }
}

/// Whether `a >= b`.
pub fn at_least(a: &Vec<u32>, b: &Vec<u32>) -> (out: bool)
    ensures
        out == (nat_of(a@) >= nat_of(b@)),
{
    let n: usize = if a.len() >= b.len() {
        a.len()
    } else {
        b.len()
    };
    let mut i: usize = n;
    assert(a@.take(a@.len() as int) =~= a@);
    assert(b@.take(b@.len() as int) =~= b@);
    while i > 0
        invariant
            i <= n,
            nat_of(a@) - low_part(a@, i as int) == nat_of(b@) - low_part(b@, i as int),
        decreases i,
    {
        let x: u32 = limb_at(a, i - 1);
        let y: u32 = limb_at(b, i - 1);
        proof {
            lemma_low_step(a@, i - 1);
            lemma_low_step(b@, i - 1);
        }
        if x != y {
            proof {
                let w = weight((i - 1) as nat);
                let la = low_part(a@, i - 1);
                let lb = low_part(b@, i - 1);
                if x > y {
                    assert(la + x as nat * w >= lb + y as nat * w) by (nonlinear_arith)
                        requires
                            x >= y + 1,
                            lb < w,
                    ;
                } else {
                    assert(la + x as nat * w < lb + y as nat * w) by (nonlinear_arith)
                        requires
                            y >= x + 1,
                            la < w,
                    ;
                }
            }
            return x > y;
        }
        i -= 1;
    }
    assert(a@.take(0) =~= Seq::<u32>::empty());
    assert(b@.take(0) =~= Seq::<u32>::empty());
    true
}

/// Replaces `a` by `a - b`.
pub fn subtract(a: &mut Vec<u32>, b: &Vec<u32>)
    requires
        nat_of(old(a)@) >= nat_of(b@),
    ensures
        nat_of(final(a)@) == nat_of(old(a)@) - nat_of(b@),
{
    let ghost start = a@;
    while a.len() < b.len()
        invariant
            nat_of(a@) == nat_of(start),
        decreases b.len() - a.len(),
    {
        let ghost before = a@;
        a.push(0);
        assert(a@.drop_last() =~= before);
        assert(0 * weight(before.len()) == 0);
    }
    let ghost wide = a@;
    let n: usize = a.len();
    let mut i: usize = 0;
    let mut borrow: u64 = 0;
    assert(wide.take(0) =~= Seq::<u32>::empty());
    assert(b@.take(0) =~= Seq::<u32>::empty());
    while i < n
        invariant
            i <= n,
            n == a.len(),
            n == wide.len(),
            b@.len() <= n,
            borrow <= 1,
            forall|j: int| i <= j < n ==> a@[j] == wide[j],
            nat_of(a@.take(i as int)) + low_part(b@, i as int) == nat_of(wide.take(i as int))
                + borrow as nat * weight(i as nat),
        decreases n - i,
    {
        let x: u64 = a[i] as u64;
        let y: u64 = limb_at(b, i) as u64 + borrow;
        let (digit, next): (u64, u64) = if x >= y {
            (x - y, 0)
        } else {
            (x + 0x1_0000_0000 - y, 1)
        };
        let ghost before = a@;
        a.set(i, digit as u32);
        proof {
            lemma_take_step(a@, i as int);
            lemma_take_step(wide, i as int);
            lemma_low_step(b@, i as int);
            assert(a@.take(i as int) =~= before.take(i as int));
            let w = weight(i as nat);
            let d = digit as nat;
            let nx = next as nat;
            let xn = x as nat;
            let yb = padded(b@, i as int) as nat;
            let bo = borrow as nat;
            let p = nat_of(before.take(i as int));
            let lb = low_part(b@, i as int);
            let pw = nat_of(wide.take(i as int));
            assert(d + yb + bo == xn + nx * limb_base());
            assert(p + d * w + (lb + yb * w) == pw + xn * w + nx * (limb_base() * w))
                by (nonlinear_arith)
                requires
                    d + yb + bo == xn + nx * limb_base(),
                    p + lb == pw + bo * w,
            ;
        }
        borrow = next;
        i += 1;
    }
    proof {
        assert(a@.take(n as int) =~= a@);
        assert(wide.take(n as int) =~= wide);
        assert(b@.take(b@.len() as int) =~= b@);
        lemma_below_weight(a@);
        let w = weight(n as nat);
        assert(borrow == 0) by {
            if borrow == 1 {
                assert(1 * w == w);
            }
        }
        assert(0 * w == 0);
    }
}

} // verus!
