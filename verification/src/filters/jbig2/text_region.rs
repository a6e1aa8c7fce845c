//! Text region segments.
//!
//! A text region is the placement list a symbol dictionary exists to serve: a
//! sequence of (symbol, position) pairs, coded as small integers because every
//! position is expressed as a delta from the last one. The header says how the
//! values are coded, with adaptive arithmetic integers or with prefix codes,
//! and the walk over the strips is the same for both.
//!
//! The walk serves one caller besides the text region segment: a symbol
//! dictionary decodes a symbol of many instances as a text region nested in its
//! own stream, through [`decode_aggregate_region`].

use crate::filters::jbig2::arith_int::IaidCtx;
use crate::filters::jbig2::bitmap;
use crate::filters::jbig2::bitmap::{Bitmap, BitmapV, CombOp};
use crate::filters::jbig2::bits;
use crate::filters::jbig2::bits::{read_bits, BitReader, BitsV};
use crate::filters::jbig2::budget;
use crate::filters::jbig2::budget::Budget;
use crate::filters::jbig2::huffman;
use crate::filters::jbig2::huffman::{from_code_lengths, standard, take_custom, Line, Table, Unused};
use crate::filters::jbig2::mq;
use crate::filters::jbig2::mq::{ContextV, MqContexts, MqDecoder};
use crate::filters::jbig2::reader;
use crate::filters::jbig2::reader::Reader;
use crate::filters::jbig2::refinement;
use crate::filters::jbig2::refinement::{parse_refinement_at, RefinementParams, GR_CONTEXT_LEN};
use crate::filters::jbig2::segment;
use crate::filters::jbig2::segment::{parse_region_info, RegionInfo};
use crate::filters::jbig2::values::{
    Arithmetic, ArithmeticV, Huffman, HuffmanV, IntCtxSet, RefineTables, RefineTablesV, SymbolCodes,
    SymbolCodesV, TextTables, TextTablesV, Values,
};
use crate::filters::jbig2::walk;
use crate::filters::jbig2::walk::{RefCorner, Symbols, WalkParams, WalkV, Walked};
use crate::filters::jbig2::{FaultV, Jbig2Error, Outcome, Step};
use crate::filters::lzw;
use vstd::arithmetic::power2::*;
use vstd::prelude::*;

verus! {

/// The most symbol instances one text region may place. Four million
/// placements is far past any page a scanner produces, and the count is checked
/// before it drives a loop; the work each placement costs is charged
/// separately.
pub const MAX_INSTANCES: u32 = 0x40_0000;

/// What one line of a region's symbol id table costs. The table is built again
/// by every segment that refers to the same dictionary, so the charge the
/// dictionary made for its symbols does not pay for it.
pub const SYMBOL_CODE_COST: u64 = 32;

/// How many run codes the symbol id table is coded with. The first 32 name a
/// code length outright; the last three repeat a length or a run of zeros.
pub const RUN_CODES: usize = 35;

/// What a text region is told when its table selectors and its referred-to
/// table segments do not account for one another.
pub const TABLE_COUNT_DISAGREES: &'static str =
    "Huffman table count disagrees with the text region flags";

/// The number of bits that tell `num_syms` symbols apart.
pub open spec fn code_len_of(num_syms: nat) -> nat
    decreases num_syms,
{
    if num_syms <= 1 {
        0
    } else {
        code_len_of((num_syms + 1) / 2) + 1
    }
}

/// The number of bits an arithmetic text region spends on a symbol id: the
/// width of the largest id, which is 0 when there is one symbol or none.
pub fn sym_code_len(num_syms: u32) -> (out: u32)
    ensures
        out == code_len_of(num_syms as nat),
        out <= 32,
{
    let mut left: u32 = num_syms;
    let mut len: u32 = 0;
    proof {
        lemma2_to64();
        ids_fit_their_code(num_syms as nat);
        lemma_code_len_bound(num_syms as nat, 32);
    }
    while left > 1
        invariant
            code_len_of(num_syms as nat) == len + code_len_of(left as nat),
            code_len_of(num_syms as nat) <= 32,
        decreases left,
    {
        let half: u32 = left / 2 + left % 2;
        assert(half == (left + 1) / 2);
        left = half;
        len += 1;
    }
    len
}

/// A symbol id code is exactly wide enough: every id fits it, and one bit less
/// would not hold them all.
pub proof fn ids_fit_their_code(num_syms: nat)
    ensures
        num_syms <= pow2(code_len_of(num_syms)),
        num_syms > 1 ==> pow2((code_len_of(num_syms) - 1) as nat) < num_syms,
    decreases num_syms,
{
    lemma2_to64();
    if num_syms > 1 {
        let half = (num_syms + 1) / 2;
        ids_fit_their_code(half);
        lemma_pow2_unfold(code_len_of(num_syms));
        if half > 1 {
            lemma_pow2_unfold(code_len_of(half));
        }
    }
}

/// So many symbols as a code of `len` bits tells apart need no longer one.
proof fn lemma_code_len_bound(num_syms: nat, len: nat)
    requires
        num_syms <= pow2(len),
    ensures
        code_len_of(num_syms) <= len,
    decreases len,
{
    lemma2_to64();
    if num_syms > 1 && len > 0 {
        lemma_pow2_unfold(len);
        lemma_code_len_bound((num_syms + 1) / 2, (len - 1) as nat);
    }
}

/// What the selectors have taken so far: how many of the tables that segments
/// supply, and what is left of the allowance.
pub struct BindV {
    pub used: nat,
    pub left: nat,
}

/// The table that a selector names: a standard one by its number, or, for 0,
/// the next that a segment supplies.
pub open spec fn selected(number: int, tables: Seq<Seq<Line>>, b: BindV) -> Step<
    Seq<Line>,
    BindV,
> {
    if number == 0 {
        match huffman::custom_of(tables, b.used, TABLE_COUNT_DISAGREES@, b.left) {
            Ok((table, left)) => Ok((table, BindV { used: b.used + 1, left })),
            Err(e) => Err((e, b)),
        }
    } else {
        match huffman::standard_table(number) {
            Ok(table) => Ok((table, b)),
            Err(e) => Err((e, b)),
        }
    }
}

/// Resolves one selector.
fn select(number: u8, tables: &[&Table], used: &mut usize, budget: &mut Budget) -> (out: Result<
    Table,
    Jbig2Error,
>)
    ensures
        final(budget)@ <= old(budget)@,
        ({
            let next = selected(
                number as int,
                huffman::tables_view(tables@),
                BindV { used: *old(used) as nat, left: old(budget)@ },
            );
            match out {
                Ok(table) => next == Step::<Seq<Line>, BindV>::Ok(
                    (table@, BindV { used: *final(used) as nat, left: final(budget)@ }),
                ),
                Err(e) => next == Step::<Seq<Line>, BindV>::Err(
                    (e@, BindV { used: *final(used) as nat, left: final(budget)@ }),
                ),
            }
        }),
{
    if number == 0 {
        take_custom(tables, used, TABLE_COUNT_DISAGREES, budget)
    } else {
        standard(number)
    }
}

/// The table that the selector of a refinement delta names.
pub open spec fn delta_selected(selector: int, tables: Seq<Seq<Line>>, b: BindV) -> Step<
    Seq<Line>,
    BindV,
> {
    if selector == 0 {
        selected(14, tables, b)
    } else if selector == 1 {
        selected(15, tables, b)
    } else if selector == 3 {
        selected(0, tables, b)
    } else {
        Err((FaultV::Malformed("reserved refinement Huffman table selection"@), b))
    }
}

/// Resolves the selector of a refinement delta.
fn select_delta(selector: u16, tables: &[&Table], used: &mut usize, budget: &mut Budget) -> (out:
    Result<Table, Jbig2Error>)
    ensures
        final(budget)@ <= old(budget)@,
        ({
            let next = delta_selected(
                selector as int,
                huffman::tables_view(tables@),
                BindV { used: *old(used) as nat, left: old(budget)@ },
            );
            match out {
                Ok(table) => next == Step::<Seq<Line>, BindV>::Ok(
                    (table@, BindV { used: *final(used) as nat, left: final(budget)@ }),
                ),
                Err(e) => next == Step::<Seq<Line>, BindV>::Err(
                    (e@, BindV { used: *final(used) as nat, left: final(budget)@ }),
                ),
            }
        }),
{
    match selector {
        0 => select(14, tables, used, budget),
        1 => select(15, tables, used, budget),
        3 => select(0, tables, used, budget),
        _ => Err(Jbig2Error::Malformed("reserved refinement Huffman table selection")),
    }
}

/// Whether a table of refined instances codes an end mark, which none may.
pub open spec fn refinement_codes_oob(t: RefineTablesV) -> bool {
    huffman::codes_oob(t.rdw) || huffman::codes_oob(t.rdh) || huffman::codes_oob(t.rdx)
        || huffman::codes_oob(t.rdy) || huffman::codes_oob(t.rsize)
}

/// The tables that the five refinement selectors name: two bits each for the
/// four deltas, from bit 6 on, and one for the byte count.
pub open spec fn refine_tables_of(flags: u16, tables: Seq<Seq<Line>>, b: BindV) -> Step<
    RefineTablesV,
    BindV,
> {
    match delta_selected(flags as int / 0x40 % 4, tables, b) {
        Err(e) => Err(e),
        Ok((rdw, b)) => match delta_selected(flags as int / 0x100 % 4, tables, b) {
            Err(e) => Err(e),
            Ok((rdh, b)) => match delta_selected(flags as int / 0x400 % 4, tables, b) {
                Err(e) => Err(e),
                Ok((rdx, b)) => match delta_selected(flags as int / 0x1000 % 4, tables, b) {
                    Err(e) => Err(e),
                    Ok((rdy, b)) => match selected(
                        if flags as int / 0x4000 % 2 == 0 {
                            1
                        } else {
                            0
                        },
                        tables,
                        b,
                    ) {
                        Err(e) => Err(e),
                        Ok((rsize, b)) => {
                            let t = RefineTablesV { rdw, rdh, rdx, rdy, rsize };
                            if refinement_codes_oob(t) {
                                Err((FaultV::Malformed("a refinement Huffman table codes OOB"@), b))
                            } else {
                                Ok((t, b))
                            }
                        },
                    },
                },
            },
        },
    }
}

/// Resolves the five refinement selectors. None of the tables they name may
/// code an end mark, which nothing could read.
fn bind_refine_tables(
    flags: u16,
    tables: &[&Table],
    used: &mut usize,
    budget: &mut Budget,
) -> (out: Result<RefineTables, Jbig2Error>)
    ensures
        final(budget)@ <= old(budget)@,
        ({
            let next = refine_tables_of(
                flags,
                huffman::tables_view(tables@),
                BindV { used: *old(used) as nat, left: old(budget)@ },
            );
            match out {
                Ok(t) => next == Step::<RefineTablesV, BindV>::Ok(
                    (t@, BindV { used: *final(used) as nat, left: final(budget)@ }),
                ),
                Err(e) => next == Step::<RefineTablesV, BindV>::Err(
                    (e@, BindV { used: *final(used) as nat, left: final(budget)@ }),
                ),
            }
        }),
{
    let rdw = select_delta(flags / 0x40 % 4, tables, used, budget)?;
    let rdh = select_delta(flags / 0x100 % 4, tables, used, budget)?;
    let rdx = select_delta(flags / 0x400 % 4, tables, used, budget)?;
    let rdy = select_delta(flags / 0x1000 % 4, tables, used, budget)?;
    let size_table: u8 = if flags / 0x4000 % 2 == 0 {
        1
    } else {
        0
    };
    let rsize = select(size_table, tables, used, budget)?;
    if rdw.has_oob() || rdh.has_oob() || rdx.has_oob() || rdy.has_oob() || rsize.has_oob() {
        return Err(Jbig2Error::Malformed("a refinement Huffman table codes OOB"));
    }
    Ok(RefineTables { rdw, rdh, rdx, rdy, rsize })
}

/// The tables of refined instances, for a region that may hold one.
pub open spec fn maybe_refine_tables(
    flags: u16,
    refine: bool,
    tables: Seq<Seq<Line>>,
    b: BindV,
) -> Step<Option<RefineTablesV>, BindV> {
    if refine {
        match refine_tables_of(flags, tables, b) {
            Ok((t, b)) => Ok((Some(t), b)),
            Err(e) => Err(e),
        }
    } else {
        Ok((None, b))
    }
}

/// The tables that the selectors name: two bits each for the first S
/// coordinate, the gap and the strip offset, then those of refined instances.
/// Every table that a segment supplies is taken, in the order of the selectors.
/// The gap's end mark is what closes a strip, so its table must code one, and
/// the others must not.
pub open spec fn text_tables_of(
    flags: u16,
    refine: bool,
    tables: Seq<Seq<Line>>,
    left: nat,
) -> Step<TextTablesV, nat> {
    let fs_selector = flags as int % 4;
    let ds_selector = flags as int / 4 % 4;
    let dt_selector = flags as int / 0x10 % 4;
    if flags >= 0x8000 {
        Err((FaultV::Malformed("reserved bit set in the text region Huffman flags"@), left))
    } else if !refine && flags >= 0x40 {
        Err((FaultV::Malformed("refinement Huffman table selected without refinement"@), left))
    } else if fs_selector == 2 {
        Err((FaultV::Malformed("reserved SBHUFFFS selection"@), left))
    } else {
        match selected(
            if fs_selector == 3 {
                0
            } else {
                6 + fs_selector
            },
            tables,
            BindV { used: 0, left },
        ) {
            Err((e, b)) => Err((e, b.left)),
            Ok((fs, b)) => match selected(
                if ds_selector == 3 {
                    0
                } else {
                    8 + ds_selector
                },
                tables,
                b,
            ) {
                Err((e, b)) => Err((e, b.left)),
                Ok((ds, b)) => match selected(
                    if dt_selector == 3 {
                        0
                    } else {
                        11 + dt_selector
                    },
                    tables,
                    b,
                ) {
                    Err((e, b)) => Err((e, b.left)),
                    Ok((dt, b)) => match maybe_refine_tables(flags, refine, tables, b) {
                        Err((e, b)) => Err((e, b.left)),
                        Ok((refine, b)) => if b.used != tables.len() {
                            Err((FaultV::Malformed(TABLE_COUNT_DISAGREES@), b.left))
                        } else if !huffman::codes_oob(ds) {
                            Err((FaultV::Malformed("SBHUFFDS cannot code OOB"@), b.left))
                        } else if huffman::codes_oob(fs) || huffman::codes_oob(dt) {
                            Err((FaultV::Malformed("SBHUFFFS or SBHUFFDT codes OOB"@), b.left))
                        } else {
                            Ok((TextTablesV { fs, ds, dt, refine }, b.left))
                        },
                    },
                },
            },
        }
    }
}

/// Resolves the table selectors of a region against the standard tables and the
/// tables of the referred-to segments.
///
/// The end mark is checked for every table, which is what catches two supplied
/// tables bound the wrong way round: a gap table without one would run a strip
/// until the segment ran out.
pub fn bind_tables(flags: u16, refine: bool, tables: &[&Table], budget: &mut Budget) -> (out:
    Result<TextTables, Jbig2Error>)
    ensures
        final(budget)@ <= old(budget)@,
        ({
            let next = text_tables_of(flags, refine, huffman::tables_view(tables@), old(budget)@);
            match out {
                Ok(t) => next == Step::<TextTablesV, nat>::Ok((t@, final(budget)@)),
                Err(e) => next == Step::<TextTablesV, nat>::Err((e@, final(budget)@)),
            }
        }),
{
    if flags >= 0x8000 {
        return Err(Jbig2Error::Malformed("reserved bit set in the text region Huffman flags"));
    }
    if !refine && flags >= 0x40 {
        return Err(Jbig2Error::Malformed("refinement Huffman table selected without refinement"));
    }
    let mut used: usize = 0;
    let fs_table: u8 = match flags % 4 {
        0 => 6,
        1 => 7,
        3 => 0,
        _ => {
            return Err(Jbig2Error::Malformed("reserved SBHUFFFS selection"));
        },
    };
    let fs = select(fs_table, tables, &mut used, budget)?;
    let ds_table: u8 = match flags / 4 % 4 {
        0 => 8,
        1 => 9,
        2 => 10,
        _ => 0,
    };
    let ds = select(ds_table, tables, &mut used, budget)?;
    let dt_table: u8 = match flags / 0x10 % 4 {
        0 => 11,
        1 => 12,
        2 => 13,
        _ => 0,
    };
    let dt = select(dt_table, tables, &mut used, budget)?;
    let refine_tables = if refine {
        Some(bind_refine_tables(flags, tables, &mut used, budget)?)
    } else {
        None
    };
    if used != tables.len() {
        return Err(Jbig2Error::Malformed(TABLE_COUNT_DISAGREES));
    }
    if !ds.has_oob() {
        return Err(Jbig2Error::Malformed("SBHUFFDS cannot code OOB"));
    }
    if fs.has_oob() || dt.has_oob() {
        return Err(Jbig2Error::Malformed("SBHUFFFS or SBHUFFDT codes OOB"));
    }
    Ok(TextTables { fs, ds, dt, refine: refine_tables })
}

/// How a text region's values are coded.
pub enum Coding {
    /// Adaptive arithmetic integers.
    Arithmetic,
    /// Prefix codes, with the tables bound to the selectors.
    Huffman(TextTables),
}

/// What the coding of a region is.
pub enum CodingV {
    Arithmetic,
    Huffman(TextTablesV),
}

impl View for Coding {
    type V = CodingV;

    open spec fn view(&self) -> CodingV {
        match self {
            Coding::Arithmetic => CodingV::Arithmetic,
            Coding::Huffman(tables) => CodingV::Huffman(tables@),
        }
    }
}

/// The fields of a text region segment that precede its coded data.
pub struct TextParams {
    /// How the values that follow are coded.
    pub coding: Coding,
    /// How many bits a T coordinate within a strip has where it is read
    /// straight from the stream.
    pub log_strips: u8,
    /// The parameters of the walk.
    pub walk: WalkParams,
}

/// What the fields of a text region segment are.
pub struct TextParamsV {
    pub coding: CodingV,
    pub log_strips: nat,
    pub walk: WalkParams,
}

impl View for TextParams {
    type V = TextParamsV;

    open spec fn view(&self) -> TextParamsV {
        TextParamsV {
            coding: self.coding@,
            log_strips: self.log_strips as nat,
            walk: self.walk,
        }
    }
}

/// The height of a strip whose logarithm is two bits.
pub open spec fn strips_of(log_strips: int) -> i32 {
    if log_strips == 0 {
        1
    } else if log_strips == 1 {
        2
    } else if log_strips == 2 {
        4
    } else {
        8
    }
}

/// A number of five bits with its sign.
pub open spec fn signed_five(raw: int) -> i32 {
    if raw > 15 {
        (raw - 32) as i32
    } else {
        raw as i32
    }
}

/// The coding that the flags choose, what follows it in the header and what is
/// left of the allowance.
pub open spec fn coding_of(
    flags: u16,
    rest: Seq<u8>,
    tables: Seq<Seq<Line>>,
    left: nat,
) -> Step<CodingV, (Seq<u8>, nat)> {
    if flags % 2 == 0 {
        if tables.len() > 0 {
            Err((FaultV::Malformed(TABLE_COUNT_DISAGREES@), (rest, left)))
        } else {
            Ok((CodingV::Arithmetic, (rest, left)))
        }
    } else {
        match reader::word_of(rest) {
            Err((e, rest)) => Err((e, (rest, left))),
            Ok((selectors, rest)) => match text_tables_of(
                selectors,
                flags / 2 % 2 == 1,
                tables,
                left,
            ) {
                Err((e, left)) => Err((e, (rest, left))),
                Ok((t, left)) => Ok((CodingV::Huffman(t), (rest, left))),
            },
        }
    }
}

/// The refinement template that the flags choose, and what follows it.
pub open spec fn template_of(flags: u16, rest: Seq<u8>) -> Step<
    Option<RefinementParams>,
    Seq<u8>,
> {
    if flags / 2 % 2 == 1 {
        match refinement::refinement_at_of(rest, flags >= 0x8000) {
            Ok((params, rest)) => Ok((Some(params), rest)),
            Err(e) => Err(e),
        }
    } else {
        Ok((None, rest))
    }
}

/// The fields of a text region segment from its flags on, what follows them and
/// what is left of the allowance. The table selectors stand between the flags
/// and the instance count, and only where prefix codes are used; the adaptive
/// pixels of the refinement template stand between those two, and only where
/// the template has any.
pub open spec fn params_of(data: Seq<u8>, tables: Seq<Seq<Line>>, left: nat) -> Step<
    TextParamsV,
    (Seq<u8>, nat),
> {
    match reader::word_of(data) {
        Err((e, rest)) => Err((e, (rest, left))),
        Ok((flags, rest)) => match coding_of(flags, rest, tables, left) {
            Err(e) => Err(e),
            Ok((coding, (rest, left))) => match bitmap::comb_op_of((flags / 0x80 % 4) as u8) {
                Err(e) => Err((e, (rest, left))),
                Ok(comb_op) => match template_of(flags, rest) {
                    Err((e, rest)) => Err((e, (rest, left))),
                    Ok((refinement, rest)) => match reader::long_of(rest) {
                        Err((e, rest)) => Err((e, (rest, left))),
                        Ok((instances, rest)) => if instances > MAX_INSTANCES {
                            Err(
                                (
                                    FaultV::Malformed("instance count exceeds the limit"@),
                                    (rest, left),
                                ),
                            )
                        } else {
                            Ok(
                                (
                                    TextParamsV {
                                        coding,
                                        log_strips: (flags / 4 % 4) as nat,
                                        walk: WalkParams {
                                            strips: strips_of(flags as int / 4 % 4),
                                            corner: walk::corner_of((flags / 0x10 % 4) as u8),
                                            transposed: flags / 0x40 % 2 == 1,
                                            comb_op,
                                            def_pixel: (flags / 0x200 % 2) as u8,
                                            ds_offset: signed_five(flags as int / 0x400 % 32),
                                            instances,
                                            refinement,
                                        },
                                    },
                                    (rest, left),
                                ),
                            )
                        },
                    },
                },
            },
        },
    }
}

/// Reads the fields of a text region segment from its flags down to the
/// instance count.
pub fn parse_params(r: &mut Reader<'_>, tables: &[&Table], budget: &mut Budget) -> (out: Result<
    TextParams,
    Jbig2Error,
>)
    ensures
        final(budget)@ <= old(budget)@,
        ({
            let next = params_of(old(r).left(), huffman::tables_view(tables@), old(budget)@);
            match out {
                Ok(params) => next == Step::<TextParamsV, (Seq<u8>, nat)>::Ok(
                    (params@, (final(r).left(), final(budget)@)),
                ),
                Err(e) => next == Step::<TextParamsV, (Seq<u8>, nat)>::Err(
                    (e@, (final(r).left(), final(budget)@)),
                ),
            }
        }),
        out matches Ok(params) ==> params.log_strips <= 3 && 1 <= params.walk.strips <= 8,
{
    let flags: u16 = r.u16()?;
    let refine = flags / 2 % 2 == 1;
    let coding = if flags % 2 == 0 {
        // No selector of an arithmetic region could bind a table.
        if tables.len() > 0 {
            return Err(Jbig2Error::Malformed(TABLE_COUNT_DISAGREES));
        }
        Coding::Arithmetic
    } else {
        let selectors: u16 = r.u16()?;
        Coding::Huffman(bind_tables(selectors, refine, tables, budget)?)
    };
    let log_strips: u8 = (flags / 4 % 4) as u8;
    let strips: i32 = match log_strips {
        0 => 1,
        1 => 2,
        2 => 4,
        _ => 8,
    };
    let corner = RefCorner::from_bits((flags / 0x10 % 4) as u8);
    let transposed = flags / 0x40 % 2 == 1;
    let comb_op = CombOp::from_bits((flags / 0x80 % 4) as u8)?;
    let def_pixel: u8 = (flags / 0x200 % 2) as u8;
    // The offset sign-extends from bit 14 of the flags word, not from bit 15,
    // which belongs to the refinement template.
    let raw: i32 = (flags / 0x400 % 32) as i32;
    let ds_offset: i32 = if raw > 15 {
        raw - 32
    } else {
        raw
    };
    let refinement = if refine {
        Some(parse_refinement_at(r, flags >= 0x8000)?)
    } else {
        None
    };
    let instances: u32 = r.u32()?;
    if instances > MAX_INSTANCES {
        return Err(Jbig2Error::Malformed("instance count exceeds the limit"));
    }
    Ok(
        TextParams {
            coding,
            log_strips,
            walk: WalkParams {
                strips,
                corner,
                transposed,
                comb_op,
                def_pixel,
                ds_offset,
                instances,
                refinement,
            },
        },
    )
}

/// The next `count` run code lengths, of four bits each.
pub open spec fn run_lengths_of(s: BitsV, count: nat) -> Step<Seq<u8>, BitsV>
    decreases count,
{
    if count == 0 {
        Ok((Seq::empty(), s))
    } else {
        match run_lengths_of(s, (count - 1) as nat) {
            Err(e) => Err(e),
            Ok((lengths, s)) => match bits::bits_of(s, 4) {
                Err(e) => Err(e),
                Ok((v, s)) => Ok((lengths.push(v as u8), s)),
            },
        }
    }
}

/// A list of lengths that cannot be read cannot be read any further.
proof fn lemma_run_lengths_stop(s: BitsV, count: nat, more: nat)
    requires
        run_lengths_of(s, count) is Err,
        count <= more,
    ensures
        run_lengths_of(s, more) == run_lengths_of(s, count),
    decreases more,
{
    if count < more {
        lemma_run_lengths_stop(s, count, (more - 1) as nat);
    }
}

/// Reads the thirty-five run code lengths.
pub fn read_run_code_lengths(bits: &mut BitReader) -> (out: Result<Vec<u8>, Jbig2Error>)
    ensures
        ({
            let next = run_lengths_of(old(bits)@, RUN_CODES as nat);
            match out {
                Ok(lengths) => next == Step::<Seq<u8>, BitsV>::Ok((lengths@, final(bits)@))
                    && lengths@.len() == RUN_CODES,
                Err(e) => next == Step::<Seq<u8>, BitsV>::Err((e@, final(bits)@)),
            }
        }),
{
    let ghost start = bits@;
    let mut lengths: Vec<u8> = Vec::new();
    let mut i: usize = 0;
    while i < RUN_CODES
        invariant
            i <= RUN_CODES,
            start == old(bits)@,
            lengths@.len() == i,
            run_lengths_of(start, i as nat) == Step::<Seq<u8>, BitsV>::Ok((lengths@, bits@)),
        decreases RUN_CODES - i,
    {
        match read_bits(bits, 4) {
            Ok(v) => lengths.push(v as u8),
            Err(e) => {
                proof {
                    assert(run_lengths_of(start, (i + 1) as nat) == Step::<Seq<u8>, BitsV>::Err(
                        (e@, bits@),
                    ));
                    lemma_run_lengths_stop(start, (i + 1) as nat, RUN_CODES as nat);
                }
                return Err(e);
            },
        }
        i += 1;
    }
    Ok(lengths)
}

/// The table of the run codes.
pub open spec fn run_table_of(s: BitsV) -> Step<Seq<Line>, BitsV> {
    match run_lengths_of(s, RUN_CODES as nat) {
        Err(e) => Err(e),
        Ok((lengths, s)) => match huffman::length_table(lengths, Unused::Refused) {
            Err(e) => Err((e, s)),
            Ok(table) => Ok((table, s)),
        },
    }
}

/// Reads the run code lengths and assigns their codes. A run code is always
/// read, so lengths that assign no code at all are refused.
pub fn read_run_code_table(bits: &mut BitReader) -> (out: Result<Table, Jbig2Error>)
    ensures
        match out {
            Ok(table) => run_table_of(old(bits)@) == Step::<Seq<Line>, BitsV>::Ok(
                (table@, final(bits)@),
            ),
            Err(e) => run_table_of(old(bits)@) == Step::<Seq<Line>, BitsV>::Err(
                (e@, final(bits)@),
            ),
        },
{
    let lengths = read_run_code_lengths(bits)?;
    from_code_lengths(lengths.as_slice(), Unused::Refused)
}

/// The run that a run code stands for: a length, how often it occurs, and the
/// bits after those the code takes.
pub open spec fn run_of(code: i32, lengths: Seq<u8>, s: BitsV) -> Step<(u8, nat), BitsV> {
    if 0 <= code <= 31 {
        Ok(((code as u8, 1), s))
    } else if code == 32 {
        if lengths.len() == 0 {
            Err((FaultV::Malformed("RUNCODE32 with no previous symbol ID code length"@), s))
        } else {
            match bits::bits_of(s, 2) {
                Ok((v, s)) => Ok(((lengths.last(), v + 3), s)),
                Err(e) => Err(e),
            }
        }
    } else if code == 33 {
        match bits::bits_of(s, 3) {
            Ok((v, s)) => Ok(((0, v + 3), s)),
            Err(e) => Err(e),
        }
    } else if code == 34 {
        match bits::bits_of(s, 7) {
            Ok((v, s)) => Ok(((0, v + 11), s)),
            Err(e) => Err(e),
        }
    } else {
        Err((FaultV::Malformed("no such symbol ID run code"@), s))
    }
}

/// Reads what a run code stands for.
fn read_run(code: i32, lengths: &Vec<u8>, bits: &mut BitReader) -> (out: Result<
    (u8, u32),
    Jbig2Error,
>)
    ensures
        ({
            let next = run_of(code, lengths@, old(bits)@);
            match out {
                Ok((length, count)) => next == Step::<(u8, nat), BitsV>::Ok(
                    ((length, count as nat), final(bits)@),
                ) && count > 0,
                Err(e) => next == Step::<(u8, nat), BitsV>::Err((e@, final(bits)@)),
            }
        }),
{
    if 0 <= code && code <= 31 {
        return Ok((code as u8, 1));
    }
    if code == 32 {
        if lengths.len() == 0 {
            return Err(Jbig2Error::Malformed("RUNCODE32 with no previous symbol ID code length"));
        }
        let previous: u8 = lengths[lengths.len() - 1];
        let more: u32 = read_bits(bits, 2)?;
        proof {
            lemma2_to64();
        }
        return Ok((previous, more + 3));
    }
    if code == 33 {
        let more: u32 = read_bits(bits, 3)?;
        proof {
            lemma2_to64();
        }
        return Ok((0, more + 3));
    }
    if code == 34 {
        let more: u32 = read_bits(bits, 7)?;
        proof {
            lemma2_to64();
        }
        return Ok((0, more + 11));
    }
    Err(Jbig2Error::Malformed("no such symbol ID run code"))
}

/// The symbol id code lengths that run codes spell out, `lengths` being those
/// read so far.
pub open spec fn lengths_from(
    s: BitsV,
    runs: Seq<Line>,
    lengths: Seq<u8>,
    wanted: nat,
) -> Step<Seq<u8>, BitsV>
    decreases wanted - lengths.len(),
{
    if lengths.len() >= wanted {
        Ok((lengths, s))
    } else {
        match huffman::decoded(runs, s) {
            Err(e) => Err(e),
            Ok((None, s)) => Err(
                (FaultV::Malformed("unexpected OOB decoding a symbol ID run code"@), s),
            ),
            Ok((Some(code), s)) => match run_of(code, lengths, s) {
                Err(e) => Err(e),
                Ok(((length, count), s)) => if count > wanted - lengths.len() {
                    Err((FaultV::Malformed("symbol ID run past the last symbol"@), s))
                } else {
                    lengths_from(s, runs, lengths + Seq::new(count, |i: int| length), wanted)
                },
            },
        }
    }
}

/// Appends a run of one length.
fn push_run(lengths: &mut Vec<u8>, length: u8, count: u32)
    ensures
        final(lengths)@ == old(lengths)@ + Seq::new(count as nat, |i: int| length),
{
    let mut i: u32 = 0;
    assert(lengths@ =~= lengths@ + Seq::new(0, |i: int| length));
    while i < count
        invariant
            i <= count,
            lengths@ == old(lengths)@ + Seq::new(i as nat, |i: int| length),
        decreases count - i,
    {
        let ghost before = lengths@;
        lengths.push(length);
        assert(lengths@ =~= old(lengths)@ + Seq::new((i + 1) as nat, |i: int| length));
        i += 1;
    }
}

/// Run-length decodes the code lengths of `num_syms` symbol ids. Every run
/// writes at least one length. A run that would write past the last symbol is
/// refused rather than cut short: the encoder and the header disagree about how
/// many symbols there are.
pub fn read_symbol_code_lengths(bits: &mut BitReader, runs: &Table, num_syms: u32) -> (out: Result<
    Vec<u8>,
    Jbig2Error,
>)
    ensures
        ({
            let next = lengths_from(old(bits)@, runs@, Seq::empty(), num_syms as nat);
            match out {
                Ok(lengths) => next == Step::<Seq<u8>, BitsV>::Ok((lengths@, final(bits)@))
                    && lengths@.len() == num_syms,
                Err(e) => next == Step::<Seq<u8>, BitsV>::Err((e@, final(bits)@)),
            }
        }),
{
    let ghost whole = lengths_from(bits@, runs@, Seq::empty(), num_syms as nat);
    let wanted: usize = num_syms as usize;
    let mut lengths: Vec<u8> = Vec::new();
    while lengths.len() < wanted
        invariant
            wanted == num_syms,
            lengths@.len() <= wanted,
            whole == lengths_from(old(bits)@, runs@, Seq::empty(), num_syms as nat),
            whole == lengths_from(bits@, runs@, lengths@, num_syms as nat),
        decreases wanted - lengths@.len(),
    {
        let code: i32 = match runs.decode(bits)? {
            Some(code) => code,
            None => {
                return Err(Jbig2Error::Malformed("unexpected OOB decoding a symbol ID run code"));
            },
        };
        let (length, count) = read_run(code, &lengths, bits)?;
        if count as usize > wanted - lengths.len() {
            return Err(Jbig2Error::Malformed("symbol ID run past the last symbol"));
        }
        push_run(&mut lengths, length, count);
    }
    Ok(lengths)
}

/// The symbol id table of a region with `num_syms` symbols, the bits after it
/// and what is left of the allowance. It ends on a byte boundary, and may assign
/// no code at all: a region that places nothing never reads it. Its lines name
/// symbols by signed numbers of 32 bits, so there can be no more.
pub open spec fn symbol_codes_of(s: BitsV, num_syms: nat, left: nat) -> Step<
    Seq<Line>,
    (BitsV, nat),
> {
    match budget::charged(left, SYMBOL_CODE_COST as nat * num_syms) {
        Err(e) => Err((e, (s, left))),
        Ok(left) => if num_syms > i32::MAX {
            Err((FaultV::Malformed("symbol count exceeds the limit"@), (s, left)))
        } else {
            match run_table_of(s) {
                Err((e, s)) => Err((e, (s, left))),
                Ok((runs, s)) => match lengths_from(s, runs, Seq::empty(), num_syms) {
                    Err((e, s)) => Err((e, (s, left))),
                    Ok((lengths, s)) => match huffman::length_table(lengths, Unused::Permitted) {
                        Err(e) => Err((e, (bits::aligned(s), left))),
                        Ok(table) => Ok((table, (bits::aligned(s), left))),
                    },
                },
            }
        },
    }
}

/// Decodes the symbol id table: a table that describes a table. Thirty-five
/// lengths give the run codes their own codes, those run codes spell out one
/// length per symbol, and those lengths are the table. The table is charged for
/// by the line before any of it is read.
pub fn decode_symbol_id_codes(bits: &mut BitReader, num_syms: u32, budget: &mut Budget) -> (out:
    Result<Table, Jbig2Error>)
    ensures
        final(budget)@ <= old(budget)@,
        ({
            let next = symbol_codes_of(old(bits)@, num_syms as nat, old(budget)@);
            match out {
                Ok(table) => next == Step::<Seq<Line>, (BitsV, nat)>::Ok(
                    (table@, (final(bits)@, final(budget)@)),
                ),
                Err(e) => next == Step::<Seq<Line>, (BitsV, nat)>::Err(
                    (e@, (final(bits)@, final(budget)@)),
                ),
            }
        }),
{
    budget.charge(SYMBOL_CODE_COST * num_syms as u64)?;
    if num_syms > 0x7fff_ffff {
        return Err(Jbig2Error::Malformed("symbol count exceeds the limit"));
    }
    let runs = read_run_code_table(bits)?;
    let lengths = read_symbol_code_lengths(bits, &runs, num_syms)?;
    bits.align_to_byte();
    from_code_lengths(lengths.as_slice(), Unused::Permitted)
}

/// The contexts that refinements adapt: none where the region holds no
/// refinement.
pub open spec fn refinement_contexts(params: WalkParams) -> Seq<ContextV> {
    mq::all_fresh(
        if params.refinement is Some {
            GR_CONTEXT_LEN as nat
        } else {
            0
        },
    )
}

/// The region that a walk leaves, with what is left of the allowance.
pub open spec fn painted<S>(info: RegionInfo, after: Walked<S>) -> Step<
    (RegionInfo, BitmapV),
    nat,
> {
    match after {
        Ok(w) => Ok(((info, w.region), w.left)),
        Err((e, w)) => Err((e, w.left)),
    }
}

/// The region that coded data paints.
pub open spec fn painted_from(
    info: RegionInfo,
    params: TextParamsV,
    data: Seq<u8>,
    symbols: Seq<BitmapV>,
    left: nat,
) -> Step<(RegionInfo, BitmapV), nat> {
    let region = bitmap::filled_with(
        info.width as nat,
        info.height as nat,
        params.walk.def_pixel,
    );
    let gr = refinement_contexts(params.walk);
    match params.coding {
        CodingV::Arithmetic => {
            let id_len = code_len_of(symbols.len());
            let values = ArithmeticV {
                dec: mq::started(data),
                ints: Seq::new(9, |i: int| mq::all_fresh(512)),
                id_len,
                ids: mq::all_fresh(pow2(id_len)),
                gr,
            };
            painted(
                info,
                walk::walked::<Arithmetic<'_>>(
                    WalkV { values, region, left },
                    params.walk,
                    symbols,
                ),
            )
        },
        CodingV::Huffman(tables) => match symbol_codes_of(
            BitsV { data, pos: 0 },
            symbols.len(),
            left,
        ) {
            Err((e, (_, left))) => Err((e, left)),
            Ok((codes, (bits, left))) => {
                let values = HuffmanV {
                    bits,
                    tables,
                    codes: SymbolCodesV::Assigned(codes),
                    log_strips: params.log_strips,
                    gr,
                };
                painted(
                    info,
                    walk::walked::<Huffman<'_>>(
                        WalkV { values, region, left },
                        params.walk,
                        symbols,
                    ),
                )
            },
        },
    }
}

/// The region that a text region segment's data describes, with what is left of
/// the allowance.
pub open spec fn text_region_of(
    data: Seq<u8>,
    symbols: Seq<BitmapV>,
    tables: Seq<Seq<Line>>,
    left: nat,
) -> Step<(RegionInfo, BitmapV), nat> {
    match segment::region_info_of(data) {
        Err((e, _)) => Err((e, left)),
        Ok((info, rest)) => match params_of(rest, tables, left) {
            Err((e, (_, left))) => Err((e, left)),
            Ok((params, (rest, left))) => if symbols.len() == 0 {
                Err((FaultV::Malformed("text region with no symbols"@), left))
            } else if symbols.len() > u32::MAX {
                Err((FaultV::Malformed("symbol count exceeds the limit"@), left))
            } else {
                match budget::charged(
                    left,
                    budget::region_cost(info.width as nat, info.height as nat),
                ) {
                    Err(e) => Err((e, left)),
                    Ok(left) => painted_from(info, params, rest, symbols, left),
                }
            },
        },
    }
}

/// Paints a region from the arithmetic values in `data`.
fn paint_arithmetic(
    data: &[u8],
    params: &WalkParams,
    symbols: &Symbols,
    num_syms: u32,
    region: &mut Bitmap,
    budget: &mut Budget,
) -> (out: Result<(), Jbig2Error>)
    requires
        symbols@.len() == num_syms,
        1 <= params.strips <= 8,
    ensures
        final(budget)@ <= old(budget)@,
        ({
            let id_len = code_len_of(symbols@.len());
            let next = walk::walked::<Arithmetic<'_>>(
                WalkV {
                    values: ArithmeticV {
                        dec: mq::started(data@),
                        ints: Seq::new(9, |i: int| mq::all_fresh(512)),
                        id_len,
                        ids: mq::all_fresh(pow2(id_len)),
                        gr: refinement_contexts(*params),
                    },
                    region: old(region)@,
                    left: old(budget)@,
                },
                *params,
                symbols@,
            );
            match out {
                Ok(_) => next matches Ok(w) && w.region == final(region)@
                    && w.left == final(budget)@,
                Err(e) => next matches Err((fault, w)) && fault == e@ && w.left == final(budget)@,
            }
        }),
{
    let gr_len: usize = if params.refinement.is_some() {
        GR_CONTEXT_LEN
    } else {
        0
    };
    proof {
        lemma2_to64();
        lemma_code_len_bound(num_syms as nat, 32);
    }
    let mut values = Arithmetic {
        dec: MqDecoder::new(data),
        ints: IntCtxSet::new(),
        iaid: IaidCtx::new(sym_code_len(num_syms)),
        gr: MqContexts::new(gr_len),
    };
    walk::run(&mut values, region, symbols, params, budget)
}

/// Paints a region from the prefix-coded values in `data`, which the symbol id
/// table begins.
fn paint_huffman(
    data: &[u8],
    tables: TextTables,
    log_strips: u8,
    params: &WalkParams,
    symbols: &Symbols,
    num_syms: u32,
    region: &mut Bitmap,
    budget: &mut Budget,
) -> (out: Result<(), Jbig2Error>)
    requires
        symbols@.len() == num_syms,
        1 <= params.strips <= 8,
        log_strips <= 3,
    ensures
        final(budget)@ <= old(budget)@,
        match symbol_codes_of(BitsV { data: data@, pos: 0 }, num_syms as nat, old(budget)@) {
            Err((e, (_, left))) => out matches Err(fault) && fault@ == e && final(budget)@ == left,
            Ok((codes, (bits, left))) => {
                let next = walk::walked::<Huffman<'_>>(
                    WalkV {
                        values: HuffmanV {
                            bits,
                            tables: tables@,
                            codes: SymbolCodesV::Assigned(codes),
                            log_strips: log_strips as nat,
                            gr: refinement_contexts(*params),
                        },
                        region: old(region)@,
                        left,
                    },
                    *params,
                    symbols@,
                );
                match out {
                    Ok(_) => next matches Ok(w) && w.region == final(region)@
                        && w.left == final(budget)@,
                    Err(e) => next matches Err((fault, w)) && fault == e@ && w.left == final(budget)@,
                }
            },
        },
{
    let gr_len: usize = if params.refinement.is_some() {
        GR_CONTEXT_LEN
    } else {
        0
    };
    let mut bits = BitReader::new(data);
    let codes = decode_symbol_id_codes(&mut bits, num_syms, budget)?;
    let mut values = Huffman {
        bits,
        tables,
        codes: SymbolCodes::Assigned(codes),
        log_strips,
        gr: MqContexts::new(gr_len),
    };
    walk::run(&mut values, region, symbols, params, budget)
}

/// Decodes a text region segment's data, returning where the region goes and
/// the pixels that go there.
///
/// `symbols` are the symbols of the referred-to dictionaries, in the order the
/// referred-to list gives them; an empty list would leave every id in the
/// stream unanswerable, and is refused. `tables` are the tables of the
/// referred-to table segments, in the order the selectors bind them in.
/// `budget` is the stream's remaining allowance: the region is charged from the
/// dimensions its header declares before its bitmap is allocated, and each
/// placement before it composites.
pub fn decode_text_region(
    data: &[u8],
    symbols: &[&Bitmap],
    tables: &[&Table],
    budget: &mut Budget,
) -> (out: Result<(RegionInfo, Bitmap), Jbig2Error>)
    ensures
        final(budget)@ <= old(budget)@,
        ({
            let next = text_region_of(
                data@,
                walk::inputs_view(symbols@),
                huffman::tables_view(tables@),
                old(budget)@,
            );
            match out {
                Ok((info, region)) => next == Step::<(RegionInfo, BitmapV), nat>::Ok(
                    ((info, region@), final(budget)@),
                ),
                Err(e) => next == Step::<(RegionInfo, BitmapV), nat>::Err((e@, final(budget)@)),
            }
        }),
{
    let mut r = Reader::new(data);
    let info = parse_region_info(&mut r)?;
    let params = parse_params(&mut r, tables, budget)?;
    let none: Vec<Bitmap> = Vec::new();
    let list = Symbols::concat(symbols, none.as_slice());
    assert(list@ =~= walk::inputs_view(symbols@));
    if list.is_empty() {
        return Err(Jbig2Error::Malformed("text region with no symbols"));
    }
    if symbols.len() as u64 > 0xffff_ffff {
        return Err(Jbig2Error::Malformed("symbol count exceeds the limit"));
    }
    let num_syms: u32 = symbols.len() as u32;
    budget.charge_region(info.width, info.height)?;
    let mut region = Bitmap::filled(info.width, info.height, params.walk.def_pixel);
    let walk_params = params.walk;
    match params.coding {
        Coding::Arithmetic => {
            paint_arithmetic(r.rest(), &walk_params, &list, num_syms, &mut region, budget)?;
        },
        Coding::Huffman(bound) => {
            paint_huffman(
                r.rest(),
                bound,
                params.log_strips,
                &walk_params,
                &list,
                num_syms,
                &mut region,
                budget,
            )?;
        },
    }
    Ok((info, region))
}

/// The symbol that a nested text region paints, the source behind it and what
/// is left of the allowance.
pub open spec fn aggregate_of<V: Values>(
    s: V::State,
    symbols: Seq<BitmapV>,
    width: nat,
    height: nat,
    instances: u32,
    refinement: RefinementParams,
    left: nat,
) -> Step<BitmapV, (V::State, nat)> {
    if symbols.len() == 0 {
        Err((FaultV::Malformed("text region with no symbols"@), (s, left)))
    } else if instances > MAX_INSTANCES {
        Err((FaultV::Malformed("instance count exceeds the limit"@), (s, left)))
    } else {
        match budget::charged(left, budget::region_cost(width, height)) {
            Err(e) => Err((e, (s, left))),
            Ok(left) => match walk::walked::<V>(
                WalkV { values: s, region: bitmap::filled_with(width, height, 0), left },
                walk::aggregate_params(instances, refinement),
                symbols,
            ) {
                Err((e, w)) => Err((e, (w.values, w.left))),
                Ok(w) => Ok((w.region, (w.values, w.left))),
            },
        }
    }
}

/// Decodes one symbol of many instances as the text region nested in a symbol
/// dictionary, with the parameters fixed for it.
///
/// The nested region has no coded data of its own: its values continue in the
/// dictionary's stream, read with the statistics already adapted there, so the
/// source is the dictionary's. `symbols` are the dictionary's input symbols
/// followed by the new ones decoded so far. The bitmap is charged from its
/// declared dimensions before it is allocated, exactly as a stand-alone region
/// is.
pub fn decode_aggregate_region<V: Values>(
    source: &mut V,
    symbols: &Symbols,
    width: u32,
    height: u32,
    instances: u32,
    refinement: RefinementParams,
    budget: &mut Budget,
) -> (out: Result<Bitmap, Jbig2Error>)
    requires
        old(source).valid(),
        old(source).can_refine(),
    ensures
        final(budget)@ <= old(budget)@,
        ({
            let next = aggregate_of::<V>(
                old(source).state(),
                symbols@,
                width as nat,
                height as nat,
                instances,
                refinement,
                old(budget)@,
            );
            match out {
                Ok(image) => next == Step::<BitmapV, (V::State, nat)>::Ok(
                    (image@, (final(source).state(), final(budget)@)),
                ),
                Err(e) => next == Step::<BitmapV, (V::State, nat)>::Err(
                    (e@, (final(source).state(), final(budget)@)),
                ),
            }
        }),
        final(source).valid(),
        final(source).can_refine(),
{
    if symbols.is_empty() {
        return Err(Jbig2Error::Malformed("text region with no symbols"));
    }
    if instances > MAX_INSTANCES {
        return Err(Jbig2Error::Malformed("instance count exceeds the limit"));
    }
    let params = WalkParams::aggregate(instances, refinement);
    budget.charge_region(width, height)?;
    let mut region = Bitmap::filled(width, height, params.def_pixel);
    walk::run(source, &mut region, symbols, &params, budget)?;
    Ok(region)
}

/// What tables a nested text region reads its values with.
pub open spec fn aggregate_tables_of() -> Outcome<TextTablesV> {
    match (
        huffman::standard_table(6),
        huffman::standard_table(8),
        huffman::standard_table(11),
        huffman::standard_table(15),
        huffman::standard_table(1),
    ) {
        (Ok(fs), Ok(ds), Ok(dt), Ok(delta), Ok(rsize)) => Ok(
            TextTablesV {
                fs,
                ds,
                dt,
                refine: Some(
                    RefineTablesV { rdw: delta, rdh: delta, rdx: delta, rdy: delta, rsize },
                ),
            },
        ),
        (Err(e), _, _, _, _) => Err(e),
        (_, Err(e), _, _, _) => Err(e),
        (_, _, Err(e), _, _) => Err(e),
        (_, _, _, Err(e), _) => Err(e),
        (_, _, _, _, Err(e)) => Err(e),
    }
}

/// The tables fixed for a nested text region. Nothing selects here: a nested
/// region has no header to select with.
pub fn aggregate_tables() -> (out: Result<TextTables, Jbig2Error>)
    ensures
        match out {
            Ok(t) => aggregate_tables_of() == Outcome::<TextTablesV>::Ok(t@),
            Err(e) => aggregate_tables_of() == Outcome::<TextTablesV>::Err(e@),
        },
{
    let fs = standard(6)?;
    let ds = standard(8)?;
    let dt = standard(11)?;
    let rdw = standard(15)?;
    let rdh = standard(15)?;
    let rdx = standard(15)?;
    let rdy = standard(15)?;
    let rsize = standard(1)?;
    Ok(TextTables { fs, ds, dt, refine: Some(RefineTables { rdw, rdh, rdx, rdy, rsize }) })
}

/// The source of a nested text region whose dictionary is prefix-coded: the
/// dictionary's bit cursor and refinement statistics, the fixed tables, and
/// every symbol's id in `code_len` bits.
pub fn aggregate_source<'d>(bits: BitReader<'d>, gr: MqContexts, code_len: u8) -> (out: Result<
    Huffman<'d>,
    Jbig2Error,
>)
    requires
        code_len <= 32,
        gr@.len() == GR_CONTEXT_LEN,
    ensures
        match out {
            Ok(source) => aggregate_tables_of() == Outcome::<TextTablesV>::Ok(source.tables@)
                && source.bits@ == bits@ && source.gr@ == gr@ && source.codes@
                == SymbolCodesV::EqualLength(code_len as nat) && source.log_strips == 0
                && source.valid() && source.can_refine(),
            Err(e) => aggregate_tables_of() == Outcome::<TextTablesV>::Err(e@),
        },
{
    let tables = aggregate_tables()?;
    Ok(Huffman { bits, tables, codes: SymbolCodes::EqualLength(code_len), log_strips: 0, gr })
}

/// Neither the declared size nor the declared instance count of a region buys
/// work that the allowance does not see: a region that decodes has cost at
/// least its own pixels and the fixed price of every instance.
pub proof fn regions_are_paid_for(
    data: Seq<u8>,
    symbols: Seq<BitmapV>,
    tables: Seq<Seq<Line>>,
    left: nat,
)
    ensures
        match (segment::region_info_of(data), text_region_of(data, symbols, tables, left)) {
            (Ok((info, rest)), Ok((_, after))) => params_of(rest, tables, left) matches Ok(
                (params, (_, paid)),
            ) && after + budget::region_cost(info.width as nat, info.height as nat)
                + walk::INSTANCE_COST * params.walk.instances <= paid,
            _ => true,
        },
{
    if let Ok((info, rest)) = segment::region_info_of(data) {
        if let Ok((params, (coded, paid))) = params_of(rest, tables, left) {
            if let Ok(left) = budget::charged(
                paid,
                budget::region_cost(info.width as nat, info.height as nat),
            ) {
                lemma_painting_pays(info, params, coded, symbols, left);
            }
        }
    }
}

/// Painting costs at least the fixed price of every instance.
proof fn lemma_painting_pays(
    info: RegionInfo,
    params: TextParamsV,
    data: Seq<u8>,
    symbols: Seq<BitmapV>,
    left: nat,
)
    ensures
        painted_from(info, params, data, symbols, left) matches Ok((_, after)) ==> after
            + walk::INSTANCE_COST * params.walk.instances <= left,
{
    let region = bitmap::filled_with(
        info.width as nat,
        info.height as nat,
        params.walk.def_pixel,
    );
    let gr = refinement_contexts(params.walk);
    match params.coding {
        CodingV::Arithmetic => {
            let id_len = code_len_of(symbols.len());
            let values = ArithmeticV {
                dec: mq::started(data),
                ints: Seq::new(9, |i: int| mq::all_fresh(512)),
                id_len,
                ids: mq::all_fresh(pow2(id_len)),
                gr,
            };
            walk::every_instance_is_paid_for::<Arithmetic<'_>>(
                WalkV { values, region, left },
                params.walk,
                symbols,
            );
        },
        CodingV::Huffman(tables) => {
            if let Ok((codes, (bits, left))) = symbol_codes_of(
                BitsV { data, pos: 0 },
                symbols.len(),
                left,
            ) {
                let values = HuffmanV {
                    bits,
                    tables,
                    codes: SymbolCodesV::Assigned(codes),
                    log_strips: params.log_strips,
                    gr,
                };
                walk::every_instance_is_paid_for::<Huffman<'_>>(
                    WalkV { values, region, left },
                    params.walk,
                    symbols,
                );
            }
        },
    }
}

/// Law: where the flags of an arithmetic-coded region without refinement stand,
/// behind the two bits for its coding: two bits for the height of its strips,
/// two for its reference corner, one for its direction, two for its operator,
/// one for its default pixel and five for its offset. The number of instances
/// follows.
pub proof fn region_flags_stand_in_order(f: u16, instances: u32, rest: Seq<u8>, left: nat)
    requires
        f % 4 == 0,
        f < 0x8000,
        instances <= MAX_INSTANCES,
    ensures
        params_of(
            seq![(f / 256) as u8, (f % 256) as u8] + (reader::long_bytes(instances) + rest),
            Seq::empty(),
            left,
        ) == Step::<TextParamsV, (Seq<u8>, nat)>::Ok(
            (
                TextParamsV {
                    coding: CodingV::Arithmetic,
                    log_strips: (f / 4 % 4) as nat,
                    walk: WalkParams {
                        strips: strips_of(f as int / 4 % 4),
                        corner: walk::corner_of((f / 0x10 % 4) as u8),
                        transposed: f / 0x40 % 2 == 1,
                        comb_op: bitmap::comb_op_of((f / 0x80 % 4) as u8)->Ok_0,
                        def_pixel: (f / 0x200 % 2) as u8,
                        ds_offset: signed_five(f as int / 0x400 % 32),
                        instances,
                        refinement: None,
                    },
                },
                (rest, left),
            ),
        ),
{
    let tail = reader::long_bytes(instances) + rest;
    let data = seq![(f / 256) as u8, (f % 256) as u8] + tail;
    lemma_plain_coding(f, tail, left);
    reader::numbers_read_back(0, f, tail);
    reader::numbers_read_back(instances, 0, rest);
    assert(reader::word_of(data) == Step::<u16, Seq<u8>>::Ok((f, tail)));
    assert(bitmap::comb_op_of((f / 0x80 % 4) as u8) is Ok);
}

proof fn lemma_plain_coding(f: u16, tail: Seq<u8>, left: nat)
    requires
        f % 4 == 0,
    ensures
        coding_of(f, tail, Seq::empty(), left) == Step::<CodingV, (Seq<u8>, nat)>::Ok(
            (CodingV::Arithmetic, (tail, left)),
        ),
        template_of(f, tail) == Step::<Option<RefinementParams>, Seq<u8>>::Ok((None, tail)),
{
    assert(f % 2 == 0);
    assert(f / 2 % 2 == 0);
}

/// Law: strips are as high as two to the power that is written, and five bits
/// write the offsets from -16 to 15 in two's complement.
pub proof fn strips_and_offsets_are_read_back(log_strips: nat, offset: int)
    requires
        log_strips < 4,
        -16 <= offset < 16,
    ensures
        strips_of(log_strips as int) == pow2(log_strips),
        signed_five(offset % 32) == offset,
{
    lemma2_to64();
}

/// Law: which standard tables the selectors of a region without refinement and
/// without tables of its own name: the sixth and seventh for first coordinates,
/// the eighth to tenth for gaps, the eleventh to thirteenth for strip offsets.
pub proof fn selectors_name_standard_tables(flags: u16, left: nat)
    ensures
        text_tables_of(flags, false, Seq::empty(), left) matches Ok((t, after)) ==> ({
            &&& flags < 64
            &&& huffman::standard_table(6 + flags as int % 4) == Outcome::<Seq<Line>>::Ok(t.fs)
            &&& huffman::standard_table(8 + flags as int / 4 % 4) == Outcome::<Seq<Line>>::Ok(t.ds)
            &&& huffman::standard_table(11 + flags as int / 16 % 4) == Outcome::<Seq<Line>>::Ok(
                t.dt,
            )
            &&& flags as int % 4 <= 1 && flags as int / 4 % 4 <= 2 && flags as int / 16 % 4 <= 2
            &&& t.refine is None
            &&& after == left
        }),
{
}

/// Law: which standard tables the selectors of a refinement name: the fourteenth
/// for 0 and the fifteenth for 1; 3 asks for a table of the region's own, and 2
/// for none.
pub proof fn refinement_selectors_name_standard_tables(
    selector: int,
    tables: Seq<Seq<Line>>,
    b: BindV,
)
    ensures
        selector == 0 ==> (delta_selected(selector, tables, b) matches Ok((t, after)) ==> (
        huffman::standard_table(14) == Outcome::<Seq<Line>>::Ok(t) && after == b)),
        selector == 1 ==> (delta_selected(selector, tables, b) matches Ok((t, after)) ==> (
        huffman::standard_table(15) == Outcome::<Seq<Line>>::Ok(t) && after == b)),
        selector == 3 ==> (delta_selected(selector, tables, b) matches Ok((t, after)) ==> (b.used
            < tables.len() && t == tables[b.used as int] && after.used == b.used + 1)),
        selector == 2 ==> delta_selected(selector, tables, b) is Err,
{
}

/// Law: the tables of a region's own are bound in the order of the selectors
/// that ask for them: width, height, x, y and size of a refinement, from the bits
/// of weight 64, 256, 1024, 4096 and 16384 on.
pub proof fn refinement_tables_are_bound_in_order(
    flags: u16,
    tables: Seq<Seq<Line>>,
    b: BindV,
)
    ensures
        refine_tables_of(flags, tables, b) matches Ok((t, after)) ==> ({
            let rdw = delta_selected(flags as int / 64 % 4, tables, b);
            &&& rdw matches Ok((w, b1)) && w == t.rdw && ({
                let rdh = delta_selected(flags as int / 256 % 4, tables, b1);
                &&& rdh matches Ok((h, b2)) && h == t.rdh && ({
                    let rdx = delta_selected(flags as int / 1024 % 4, tables, b2);
                    &&& rdx matches Ok((x, b3)) && x == t.rdx && ({
                        let rdy = delta_selected(flags as int / 4096 % 4, tables, b3);
                        &&& rdy matches Ok((y, b4)) && y == t.rdy && ({
                            &&& flags as int / 16384 % 2 == 0 ==> huffman::standard_table(1)
                                == Outcome::<Seq<Line>>::Ok(t.rsize) && after == b4
                            &&& flags as int / 16384 % 2 == 1 ==> b4.used < tables.len() && t.rsize
                                == tables[b4.used as int]
                        })
                    })
                })
            })
        }),
{
}

/// Law: what the run codes of a symbol id table stand for: up to 31 a length
/// itself, 32 the length before three to six times, 33 no code three to ten
/// times, 34 no code eleven to 138 times.
pub proof fn run_codes_stand_for_runs(
    code: i32,
    lengths: Seq<u8>,
    s: BitsV,
    v: nat,
    t: BitsV,
)
    requires
        code == 32 ==> bits::bits_of(s, 2) == Step::<nat, BitsV>::Ok((v, t)),
        code == 33 ==> bits::bits_of(s, 3) == Step::<nat, BitsV>::Ok((v, t)),
        code == 34 ==> bits::bits_of(s, 7) == Step::<nat, BitsV>::Ok((v, t)),
    ensures
        0 <= code < 32 ==> run_of(code, lengths, s) == Step::<(u8, nat), BitsV>::Ok(
            ((code as u8, 1), s),
        ),
        code == 32 && lengths.len() > 0 ==> run_of(code, lengths, s) == Step::<
            (u8, nat),
            BitsV,
        >::Ok(((lengths[lengths.len() - 1], v + 3), t)),
        code == 32 && lengths.len() == 0 ==> run_of(code, lengths, s) is Err,
        code == 33 ==> run_of(code, lengths, s) == Step::<(u8, nat), BitsV>::Ok(((0, v + 3), t)),
        code == 34 ==> run_of(code, lengths, s) == Step::<(u8, nat), BitsV>::Ok(((0, v + 11), t)),
        code < 0 || code > 34 ==> run_of(code, lengths, s) is Err,
{
}

/// Law: an arithmetic-coded region starts with the default pixel throughout, a
/// decoder at the first byte and contexts that know nothing: nine sets of 512 for
/// integers, and as many for ids as their code has values.
pub proof fn arithmetic_regions_start_afresh(
    info: RegionInfo,
    params: TextParamsV,
    data: Seq<u8>,
    symbols: Seq<BitmapV>,
    left: nat,
)
    requires
        params.coding is Arithmetic,
        params.walk.refinement is None,
    ensures
        ({
            let id_len = code_len_of(symbols.len());
            let start = WalkV {
                values: ArithmeticV {
                    dec: mq::started(data),
                    ints: Seq::new(9, |i: int| mq::all_fresh(512)),
                    id_len,
                    ids: mq::all_fresh(pow2(id_len)),
                    gr: mq::all_fresh(0),
                },
                region: bitmap::filled_with(
                    info.width as nat,
                    info.height as nat,
                    params.walk.def_pixel,
                ),
                left,
            };
            painted_from(info, params, data, symbols, left) == (match walk::walked::<
                Arithmetic<'_>,
            >(start, params.walk, symbols) {
                Ok(w) => Ok(((info, w.region), w.left)),
                Err((e, w)) => Err((e, w.left)),
            })
        }),
{
}

/// Law: the lengths of the run codes are 35 numbers of four bits each.
pub proof fn run_lengths_take_four_bits(s: BitsV, count: nat, i: int)
    requires
        s.pos >= 0,
        s.pos + 4 * count <= 8 * s.data.len(),
        0 <= i < count,
    ensures
        run_lengths_of(s, count) matches Ok((lengths, t)) && lengths.len() == count && lengths[i]
            == lzw::bits_value(s.data, s.pos + 4 * i, s.pos + 4 * i + 4) && t == (BitsV {
            data: s.data,
            pos: s.pos + 4 * count,
        }),
        run_table_of(s) == (match run_lengths_of(s, 35) {
            Ok((lengths, t)) => match huffman::length_table(lengths, Unused::Refused) {
                Ok(table) => Step::<Seq<Line>, BitsV>::Ok((table, t)),
                Err(e) => Step::<Seq<Line>, BitsV>::Err((e, t)),
            },
            Err(e) => Step::<Seq<Line>, BitsV>::Err(e),
        }),
    decreases count,
{
    let before = (count - 1) as nat;
    let at = s.pos + 4 * before;
    lemma_four_bits(s.data, at);
    if count == 1 {
        assert(run_lengths_of(s, 0) == Step::<Seq<u8>, BitsV>::Ok((Seq::empty(), s)));
    } else if i < before {
        run_lengths_take_four_bits(s, before, i);
    } else {
        run_lengths_take_four_bits(s, before, 0);
    }
}

proof fn lemma_four_bits(data: Seq<u8>, at: int)
    ensures
        0 <= lzw::bits_value(data, at, at + 4) < 16,
{
    reveal_with_fuel(lzw::bits_value, 5);
    lemma_a_bit(data, at);
    lemma_a_bit(data, at + 1);
    lemma_a_bit(data, at + 2);
    lemma_a_bit(data, at + 3);
}

proof fn lemma_a_bit(data: Seq<u8>, i: int)
    ensures
        lzw::bit_at(data, i) <= 1,
{
    let byte = data[i / 8];
    let shift = (7 - i % 8) as u8;
    assert((byte >> shift) & 1 <= 1) by (bit_vector);
}

/// Law: tables that segments supply are taken in the order of their uses: the
/// first coordinate, the gaps, the strips.
pub proof fn supplied_tables_are_taken_in_order(
    fs: Seq<Line>,
    ds: Seq<Line>,
    dt: Seq<Line>,
    left: nat,
)
    requires
        fs.len() + ds.len() + dt.len() <= left,
        huffman::codes_oob(ds),
        !huffman::codes_oob(fs),
        !huffman::codes_oob(dt),
    ensures
        text_tables_of(0x3f, false, seq![fs, ds, dt], left) == Step::<TextTablesV, nat>::Ok(
            (
                TextTablesV { fs, ds, dt, refine: None },
                (left - fs.len() - ds.len() - dt.len()) as nat,
            ),
        ),
        text_tables_of(0x3f, false, seq![fs, ds], left) is Err,
        text_tables_of(0x3f, false, seq![fs, ds, dt, dt], left) is Err,
{
    let tables = seq![fs, ds, dt];
    assert(tables[0] == fs && tables[1] == ds && tables[2] == dt);
    let short = seq![fs, ds];
    assert(short[0] == fs && short[1] == ds && short.len() == 2);
    let long = seq![fs, ds, dt, dt];
    assert(long[0] == fs && long[1] == ds && long[2] == dt && long.len() == 4);
}

/// Law: an aggregate is a text region of its own: one row a strip, corners at the
/// top left, drawn with OR on white, every instance refined as said.
pub proof fn aggregates_are_small_regions<V: Values>(
    s: V::State,
    symbols: Seq<BitmapV>,
    width: nat,
    height: nat,
    instances: u32,
    refinement: RefinementParams,
    left: nat,
)
    ensures
        ({
            let params = walk::aggregate_params(instances, refinement);
            let cost = width * height + 64 * height;
            let out = aggregate_of::<V>(s, symbols, width, height, instances, refinement, left);
            &&& params.strips == 1
            &&& params.corner == RefCorner::TopLeft
            &&& !params.transposed
            &&& params.comb_op == CombOp::Or
            &&& params.def_pixel == 0
            &&& params.ds_offset == 0
            &&& params.instances == instances
            &&& params.refinement == Some(refinement)
            &&& symbols.len() == 0 || instances > 0x40_0000 || cost > left ==> out is Err
            &&& symbols.len() > 0 && instances <= 0x40_0000 && cost <= left ==> out == (
            match walk::walked::<V>(
                WalkV {
                    values: s,
                    region: bitmap::filled_with(width, height, 0),
                    left: (left - cost) as nat,
                },
                params,
                symbols,
            ) {
                Ok(w) => Step::<BitmapV, (V::State, nat)>::Ok((w.region, (w.values, w.left))),
                Err((e, w)) => Step::<BitmapV, (V::State, nat)>::Err((e, (w.values, w.left))),
            })
        }),
{
    budget::regions_cost_pixels_and_rows(width, height, left, 0);
}

/// Law: the tables of an aggregate are standard ones.
pub proof fn aggregates_use_standard_tables()
    ensures
        aggregate_tables_of() matches Ok(t) ==> {
            &&& huffman::standard_table(6) == Outcome::<Seq<Line>>::Ok(t.fs)
            &&& huffman::standard_table(8) == Outcome::<Seq<Line>>::Ok(t.ds)
            &&& huffman::standard_table(11) == Outcome::<Seq<Line>>::Ok(t.dt)
            &&& t.refine matches Some(r) && huffman::standard_table(15) == Outcome::<
                Seq<Line>,
            >::Ok(r.rdw) && r.rdw == r.rdh && r.rdw == r.rdx && r.rdw == r.rdy
                && huffman::standard_table(1) == Outcome::<Seq<Line>>::Ok(r.rsize)
        },
{
}

/// The codes of the symbols end with a whole byte.
proof fn lemma_codes_end_a_byte(s: BitsV, num_syms: nat, left: nat)
    ensures
        symbol_codes_of(s, num_syms, left) matches Ok((_, (bits, _))) ==> bits.pos % 8 == 0,
{
}

/// Law: a region with prefix codes reads the codes of its symbols first, then goes
/// on at the next byte, with as many bits for the place in a strip as its flags
/// say and refinement contexts that start afresh.
#[verifier::spinoff_prover]
#[verifier::rlimit(40)]
pub proof fn prefix_coded_regions_start_behind_their_codes(
    info: RegionInfo,
    params: TextParamsV,
    tables: TextTablesV,
    data: Seq<u8>,
    symbols: Seq<BitmapV>,
    left: nat,
    codes: Seq<Line>,
    bits: BitsV,
    rest: nat,
)
    requires
        params.coding == CodingV::Huffman(tables),
        symbol_codes_of(BitsV { data, pos: 0 }, symbols.len(), left) == Step::<
            Seq<Line>,
            (BitsV, nat),
        >::Ok((codes, (bits, rest))),
    ensures
        bits.pos % 8 == 0,
        ({
            let gr = if params.walk.refinement is Some {
                mq::all_fresh(0x2000)
            } else {
                mq::all_fresh(0)
            };
            let after = walk::walked::<Huffman<'_>>(
                WalkV {
                    values: HuffmanV {
                        bits,
                        tables,
                        codes: SymbolCodesV::Assigned(codes),
                        log_strips: params.log_strips,
                        gr,
                    },
                    region: bitmap::filled_with(
                        info.width as nat,
                        info.height as nat,
                        params.walk.def_pixel,
                    ),
                    left: rest,
                },
                params.walk,
                symbols,
            );
            match after {
                Ok(w) => painted_from(info, params, data, symbols, left) == Step::<
                    (RegionInfo, BitmapV),
                    nat,
                >::Ok(((info, w.region), w.left)),
                Err((e, w)) => painted_from(info, params, data, symbols, left) == Step::<
                    (RegionInfo, BitmapV),
                    nat,
                >::Err((e, w.left)),
            }
        }),
{
    lemma_codes_end_a_byte(BitsV { data, pos: 0 }, symbols.len(), left);
}

} // verus!
