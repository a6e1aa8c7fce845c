//! The allowance of decoding work an embedded stream has.

use crate::filters::jbig2::{FaultV, Jbig2Error, Outcome};
use vstd::prelude::*;

verus! {

/// What a row of pixels costs beyond the pixels themselves, so that a bitmap
/// of many empty rows is not free.
pub const ROW_COST: u64 = 64;

/// The allowance a real embedded stream gets.
pub const STREAM_LIMIT: u64 = 0x2000_0000;

/// The work an embedded stream may still cause, counted in pixel decisions.
#[derive(Debug, PartialEq, Eq)]
pub struct Budget {
    left: u64,
}

impl View for Budget {
    type V = nat;

    closed spec fn view(&self) -> nat {
        self.left as nat
    }
}

/// What is left of an allowance after a charge.
pub open spec fn charged(left: nat, cost: nat) -> Outcome<nat> {
    if cost <= left {
        Ok((left - cost) as nat)
    } else {
        Err(FaultV::WorkLimit)
    }
}

/// What a bitmap of this size costs.
pub open spec fn region_cost(width: nat, height: nat) -> nat {
    height * (width + ROW_COST as nat)
}

impl Budget {
    /// The allowance of a real embedded stream.
    pub fn new() -> (out: Budget)
        ensures
            out@ == STREAM_LIMIT,
    {
        Budget { left: STREAM_LIMIT }
    }

    /// An allowance of `limit`.
    pub fn with_limit(limit: u64) -> (out: Budget)
        ensures
            out@ == limit,
    {
        Budget { left: limit }
    }

    /// Takes `cost` from the allowance, or refuses and takes nothing.
    pub fn charge(&mut self, cost: u64) -> (out: Result<(), Jbig2Error>)
        ensures
            match out {
                Ok(_) => charged(old(self)@, cost as nat) == Outcome::<nat>::Ok(final(self)@),
                Err(e) => charged(old(self)@, cost as nat) == Outcome::<nat>::Err(e@)
                    && final(self)@ == old(self)@,
            },
    {
        if cost <= self.left {
            self.left = self.left - cost;
            Ok(())
        } else {
            Err(Jbig2Error::WorkLimit)
        }
    }

    /// Takes what a bitmap of this size costs, or refuses and takes nothing.
    pub fn charge_region(&mut self, width: u32, height: u32) -> (out: Result<(), Jbig2Error>)
        ensures
            ({
                let after = charged(old(self)@, region_cost(width as nat, height as nat));
                match out {
                    Ok(_) => after == Outcome::<nat>::Ok(final(self)@),
                    Err(e) => after == Outcome::<nat>::Err(e@) && final(self)@ == old(self)@,
                }
            }),
    {
        let row: u128 = width as u128 + ROW_COST as u128;
        proof {
            assert(height as u128 * row <= 0xffff_ffff * 0x1_0000_0100) by (nonlinear_arith)
                requires
                    height <= 0xffff_ffff,
                    row <= 0x1_0000_0100,
            ;
        }
        let cost: u128 = height as u128 * row;
        if cost <= self.left as u128 {
            self.left = self.left - cost as u64;
            Ok(())
        } else {
            Err(Jbig2Error::WorkLimit)
        }
    }
}

impl Default for Budget {
    fn default() -> (out: Budget)
        ensures
            out@ == STREAM_LIMIT,
    {
        Budget::new()
    }
}

/// Work is paid for once: two charges in a row take what one charge of their
/// sum takes, or are refused where it is.
pub proof fn charges_add_up(left: nat, a: nat, b: nat)
    ensures
        charged(left, a + b) == (match charged(left, a) {
            Ok(rest) => charged(rest, b),
            Err(e) => Err(e),
        }),
{
}

/// Law: a bitmap costs its pixels and 64 for every row, and what an allowance
/// cannot pay for is refused.
pub proof fn regions_cost_pixels_and_rows(width: nat, height: nat, left: nat, cost: nat)
    ensures
        region_cost(width, height) == width * height + 64 * height,
        charged(left + cost, cost) == Outcome::<nat>::Ok(left),
        cost > 0 ==> charged((cost - 1) as nat, cost) == Outcome::<nat>::Err(FaultV::WorkLimit),
{
    assert(height * (width + 64) == width * height + 64 * height) by (nonlinear_arith);
}

} // verus!
