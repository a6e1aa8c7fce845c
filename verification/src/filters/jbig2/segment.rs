//! The region segment information field that every region segment begins
//! with.

use crate::filters::jbig2::bitmap;
use crate::filters::jbig2::bitmap::CombOp;
use crate::filters::jbig2::reader;
use crate::filters::jbig2::reader::Reader;
use crate::filters::jbig2::{Jbig2Error, Step};
use vstd::prelude::*;

verus! {

/// Where a region goes on its page and how it is combined with it.
#[derive(Debug, Clone, Copy, PartialEq, Eq, Structural)]
pub struct RegionInfo {
    pub width: u32,
    pub height: u32,
    pub x: u32,
    pub y: u32,
    pub op: CombOp,
}

/// The region information at the front of a segment's data.
pub open spec fn region_info_of(data: Seq<u8>) -> Step<RegionInfo, Seq<u8>> {
    match reader::long_of(data) {
        Err(e) => Err(e),
        Ok((width, left)) => match reader::long_of(left) {
            Err(e) => Err(e),
            Ok((height, left)) => match reader::long_of(left) {
                Err(e) => Err(e),
                Ok((x, left)) => match reader::long_of(left) {
                    Err(e) => Err(e),
                    Ok((y, left)) => match reader::byte_of(left) {
                        Err(e) => Err(e),
                        Ok((flags, left)) => match bitmap::comb_op_of(flags % 8) {
                            Err(e) => Err((e, left)),
                            Ok(op) => Ok((RegionInfo { width, height, x, y, op }, left)),
                        },
                    },
                },
            },
        },
    }
}

/// Reads the region segment information field: width, height, position and the
/// external combination operator.
pub fn parse_region_info(r: &mut Reader<'_>) -> (out: Result<RegionInfo, Jbig2Error>)
    ensures
        match out {
            Ok(info) => region_info_of(old(r).left()) == Step::<RegionInfo, Seq<u8>>::Ok(
                (info, final(r).left()),
            ),
            Err(e) => region_info_of(old(r).left()) == Step::<RegionInfo, Seq<u8>>::Err(
                (e@, final(r).left()),
            ),
        },
{
    let width = r.u32()?;
    let height = r.u32()?;
    let x = r.u32()?;
    let y = r.u32()?;
    let flags = r.u8()?;
    let op = CombOp::from_bits(flags % 8)?;
    Ok(RegionInfo { width, height, x, y, op })
}

/// Law: region information is read back: width, height and place as four
/// numbers, then the operator in the low three bits of a byte.
pub proof fn region_information_reads_back(
    width: u32,
    height: u32,
    x: u32,
    y: u32,
    op: CombOp,
    high: u8,
    rest: Seq<u8>,
)
    requires
        high < 32,
    ensures
        ({
            let number: u8 = match op {
                CombOp::Or => 0,
                CombOp::And => 1,
                CombOp::Xor => 2,
                CombOp::Xnor => 3,
                CombOp::Replace => 4,
            };
            let data = reader::long_bytes(width) + (reader::long_bytes(height) + (
            reader::long_bytes(x) + (reader::long_bytes(y) + (seq![(8 * high + number) as u8]
                + rest))));
            region_info_of(data) == Step::<RegionInfo, Seq<u8>>::Ok(
                (RegionInfo { width, height, x, y, op }, rest),
            )
        }),
{
    let number: u8 = match op {
        CombOp::Or => 0,
        CombOp::And => 1,
        CombOp::Xor => 2,
        CombOp::Xnor => 3,
        CombOp::Replace => 4,
    };
    let flags = seq![(8 * high + number) as u8] + rest;
    let d = reader::long_bytes(y) + flags;
    let c = reader::long_bytes(x) + d;
    let b = reader::long_bytes(height) + c;
    reader::numbers_read_back(width, 0, b);
    reader::numbers_read_back(height, 0, c);
    reader::numbers_read_back(x, 0, d);
    reader::numbers_read_back(y, 0, flags);
    assert(flags[0] == 8 * high + number);
    assert(flags.skip(1) =~= rest);
    assert((8 * high + number) % 8 == number);
}

} // verus!
