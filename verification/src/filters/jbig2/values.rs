//! Where a text region's coded values come from: the arithmetic decoder with
//! its adaptive integers, or prefix codes in a stream of bits.

use crate::filters::jbig2::arith_int;
use crate::filters::jbig2::arith_int::{decode_iaid, decode_int, IaidCtx};
use crate::filters::jbig2::bitmap::{Bitmap, BitmapV};
use crate::filters::jbig2::bits;
use crate::filters::jbig2::bits::{read_bits, BitReader, BitsV};
use crate::filters::jbig2::budget;
use crate::filters::jbig2::budget::Budget;
use crate::filters::jbig2::huffman;
use crate::filters::jbig2::huffman::{Line, Table};
use crate::filters::jbig2::mq;
use crate::filters::jbig2::mq::{ContextV, MqContexts, MqDecoder, MqV};
use crate::filters::jbig2::refinement;
use crate::filters::jbig2::refinement::{
    decode_refinement_region, Reference, ReferenceV, RefinementParams,
};
use crate::filters::jbig2::{FaultV, Jbig2Error, Step};
use crate::filters::lzw;
use vstd::prelude::*;

verus! {

/// The integers a text region codes.
#[derive(Debug, Clone, Copy, PartialEq, Eq, Structural)]
pub enum Field {
    /// The offset of a strip from the one before it, counted in strips.
    DeltaT,
    /// The S coordinate of a strip's first instance, as a delta on that of the
    /// strip before it.
    FirstS,
    /// The gap to a later instance of the strip; its end mark closes the
    /// strip.
    DeltaS,
    /// An instance's T coordinate within its strip.
    CurT,
    /// Whether an instance refines its symbol.
    RefineFlag,
    /// How much wider a refined instance is than its symbol.
    RefineWidth,
    /// How much taller a refined instance is than its symbol.
    RefineHeight,
    /// How far a refined instance is moved sideways.
    RefineX,
    /// How far a refined instance is moved up or down.
    RefineY,
}

/// The place of a field's contexts.
pub open spec fn field_index(field: Field) -> int {
    match field {
        Field::DeltaT => 0,
        Field::FirstS => 1,
        Field::DeltaS => 2,
        Field::CurT => 3,
        Field::RefineFlag => 4,
        Field::RefineWidth => 5,
        Field::RefineHeight => 6,
        Field::RefineX => 7,
        Field::RefineY => 8,
    }
}

/// The place of a field's contexts.
fn index_of(field: Field) -> (out: usize)
    ensures
        out == field_index(field),
        out < 9,
{
    match field {
        Field::DeltaT => 0,
        Field::FirstS => 1,
        Field::DeltaS => 2,
        Field::CurT => 3,
        Field::RefineFlag => 4,
        Field::RefineWidth => 5,
        Field::RefineHeight => 6,
        Field::RefineX => 7,
        Field::RefineY => 8,
    }
}

/// A source of a text region's coded values. The end mark of a list reads as
/// `None`; only that of [`Field::DeltaS`] has a meaning, but every read is given
/// the same shape so that the walk, rather than each source, decides what an
/// unexpected one means.
pub trait Values {
    /// What a source is.
    type State;

    /// What the source is.
    spec fn state(&self) -> Self::State;

    /// Whether the source can be read.
    spec fn valid(&self) -> bool;

    /// Whether the source can decode refined bitmaps.
    spec fn can_refine(&self) -> bool;

    /// The next value of a field.
    spec fn next_value(s: Self::State, field: Field) -> Step<Option<i32>, Self::State>;

    /// The next symbol id.
    spec fn next_id(s: Self::State) -> Step<u32, Self::State>;

    /// The next refined bitmap, with what is left of the allowance.
    spec fn next_refined(
        s: Self::State,
        params: RefinementParams,
        r: ReferenceV,
        width: nat,
        height: nat,
        left: nat,
    ) -> Step<BitmapV, (Self::State, nat)>;

    /// Decoding a refined bitmap never adds to the allowance.
    proof fn refining_never_refunds(
        s: Self::State,
        params: RefinementParams,
        r: ReferenceV,
        width: nat,
        height: nat,
        left: nat,
    )
        ensures
            Self::next_refined(s, params, r, width, height, left) matches Ok((_, (_, after)))
                ==> after <= left,
    ;

    /// Reads the next value of a field.
    fn value(&mut self, field: Field) -> (out: Result<Option<i32>, Jbig2Error>)
        requires
            old(self).valid(),
        ensures
            match out {
                Ok(v) => Self::next_value(old(self).state(), field) == Step::<
                    Option<i32>,
                    Self::State,
                >::Ok((v, final(self).state())),
                Err(e) => Self::next_value(old(self).state(), field) == Step::<
                    Option<i32>,
                    Self::State,
                >::Err((e@, final(self).state())),
            },
            final(self).valid(),
            final(self).can_refine() == old(self).can_refine(),
    ;

    /// Reads the next symbol id.
    fn symbol_id(&mut self) -> (out: Result<u32, Jbig2Error>)
        requires
            old(self).valid(),
        ensures
            match out {
                Ok(v) => Self::next_id(old(self).state()) == Step::<u32, Self::State>::Ok(
                    (v, final(self).state()),
                ),
                Err(e) => Self::next_id(old(self).state()) == Step::<u32, Self::State>::Err(
                    (e@, final(self).state()),
                ),
            },
            final(self).valid(),
            final(self).can_refine() == old(self).can_refine(),
    ;

    /// Decodes a refined bitmap.
    fn refine(
        &mut self,
        width: u32,
        height: u32,
        reference: &Reference,
        params: &RefinementParams,
        budget: &mut Budget,
    ) -> (out: Result<Bitmap, Jbig2Error>)
        requires
            old(self).valid(),
            old(self).can_refine(),
        ensures
            final(budget)@ <= old(budget)@,
            ({
                let next = Self::next_refined(
                    old(self).state(),
                    *params,
                    reference@,
                    width as nat,
                    height as nat,
                    old(budget)@,
                );
                match out {
                    Ok(image) => next == Step::<BitmapV, (Self::State, nat)>::Ok(
                        (image@, (final(self).state(), final(budget)@)),
                    ),
                    Err(e) => next == Step::<BitmapV, (Self::State, nat)>::Err(
                        (e@, (final(self).state(), final(budget)@)),
                    ),
                }
            }),
            final(self).valid(),
            final(self).can_refine(),
    ;
}

/// The contexts of the integers, each kind adapting its own.
pub struct IntCtxSet {
    cxs: Vec<MqContexts>,
}

impl View for IntCtxSet {
    type V = Seq<Seq<ContextV>>;

    closed spec fn view(&self) -> Seq<Seq<ContextV>> {
        Seq::new(self.cxs@.len(), |i: int| self.cxs@[i]@)
    }
}

impl IntCtxSet {
    /// Whether there are contexts for every kind.
    pub closed spec fn complete(&self) -> bool {
        &&& self.cxs@.len() == 9
        &&& forall|i: int| 0 <= i < 9 ==> (#[trigger] self.cxs@[i])@.len() == 512
    }

    /// Fresh contexts.
    pub fn new() -> (out: IntCtxSet)
        ensures
            out.complete(),
            out@ == Seq::new(9, |i: int| mq::all_fresh(512)),
    {
        let mut cxs: Vec<MqContexts> = Vec::new();
        let mut i: usize = 0;
        while i < 9
            invariant
                i <= 9,
                cxs@.len() == i,
                forall|j: int| 0 <= j < i ==> (#[trigger] cxs@[j])@ == mq::all_fresh(512),
            decreases 9 - i,
        {
            cxs.push(MqContexts::new(512));
            i += 1;
        }
        let out = IntCtxSet { cxs };
        assert(out@ =~= Seq::new(9, |i: int| mq::all_fresh(512)));
        out
    }

    /// Reads one integer of the kind at `i`.
    fn decode(&mut self, dec: &mut MqDecoder, i: usize) -> (out: Option<i32>)
        requires
            old(self).complete(),
            i < 9,
        ensures
            final(self).complete(),
            ({
                let (value, after, cxs) = arith_int::int_of(old(dec)@, old(self)@[i as int]);
                &&& out == value
                &&& final(dec)@ == after
                &&& final(self)@ == old(self)@.update(i as int, cxs)
            }),
    {
        let ghost before = self@;
        assert(before[i as int] == self.cxs@[i as int]@);
        let out = decode_int(dec, &mut self.cxs[i]);
        assert(self@ =~= before.update(i as int, self.cxs@[i as int]@));
        out
    }
}

/// The arithmetic source: adaptive integers, all drawing on one decoder and
/// each kind adapting its own contexts across the whole region.
pub struct Arithmetic<'d> {
    /// The one arithmetic decoder every coded value of the region comes from.
    pub dec: MqDecoder<'d>,
    /// The contexts of the integers.
    pub ints: IntCtxSet,
    /// The contexts of the symbol ids.
    pub iaid: IaidCtx,
    /// The contexts every refinement of the segment adapts.
    pub gr: MqContexts,
}

/// What an arithmetic source is.
#[verifier::ext_equal]
pub struct ArithmeticV {
    pub dec: MqV,
    pub ints: Seq<Seq<ContextV>>,
    pub id_len: nat,
    pub ids: Seq<ContextV>,
    pub gr: Seq<ContextV>,
}

impl<'d> Values for Arithmetic<'d> {
    type State = ArithmeticV;

    open spec fn state(&self) -> ArithmeticV {
        ArithmeticV {
            dec: self.dec@,
            ints: self.ints@,
            id_len: self.iaid.id_len(),
            ids: self.iaid.contexts(),
            gr: self.gr@,
        }
    }

    open spec fn valid(&self) -> bool {
        self.ints.complete() && self.iaid.valid()
    }

    open spec fn can_refine(&self) -> bool {
        self.gr@.len() == refinement::GR_CONTEXT_LEN
    }

    open spec fn next_value(s: ArithmeticV, field: Field) -> Step<Option<i32>, ArithmeticV> {
        let i = field_index(field);
        let (value, dec, cxs) = arith_int::int_of(s.dec, s.ints[i]);
        Ok((value, ArithmeticV { dec, ints: s.ints.update(i, cxs), ..s }))
    }

    open spec fn next_id(s: ArithmeticV) -> Step<u32, ArithmeticV> {
        let (id, dec, ids) = arith_int::id_of(s.dec, s.ids, s.id_len);
        Ok((id, ArithmeticV { dec, ids, ..s }))
    }

    open spec fn next_refined(
        s: ArithmeticV,
        params: RefinementParams,
        r: ReferenceV,
        width: nat,
        height: nat,
        left: nat,
    ) -> Step<BitmapV, (ArithmeticV, nat)> {
        match budget::charged(left, budget::region_cost(width, height)) {
            Err(e) => Err((e, (s, left))),
            Ok(rest) => {
                let done = refinement::refinement_of(s.dec, s.gr, params, r, width, height);
                Ok((done.image, (ArithmeticV { dec: done.dec, gr: done.cxs, ..s }, rest)))
            },
        }
    }

    proof fn refining_never_refunds(
        s: ArithmeticV,
        params: RefinementParams,
        r: ReferenceV,
        width: nat,
        height: nat,
        left: nat,
    ) {
    }

    fn value(&mut self, field: Field) -> (out: Result<Option<i32>, Jbig2Error>) {
        let i: usize = index_of(field);
        Ok(self.ints.decode(&mut self.dec, i))
    }

    fn symbol_id(&mut self) -> (out: Result<u32, Jbig2Error>) {
        Ok(decode_iaid(&mut self.dec, &mut self.iaid))
    }

    fn refine(
        &mut self,
        width: u32,
        height: u32,
        reference: &Reference,
        params: &RefinementParams,
        budget: &mut Budget,
    ) -> (out: Result<Bitmap, Jbig2Error>) {
        decode_refinement_region(
            &mut self.dec,
            &mut self.gr,
            budget,
            width,
            height,
            reference,
            params,
        )
    }
}

/// The tables a text region decodes its coordinates with.
pub struct TextTables {
    /// The S coordinate of a strip's first instance.
    pub fs: Table,
    /// The gap to a later instance, whose end mark closes the strip.
    pub ds: Table,
    /// The strip offset, in strips rather than rows.
    pub dt: Table,
    /// The tables of refined instances, present exactly when the region may
    /// hold one.
    pub refine: Option<RefineTables>,
}

/// The tables a refined instance is decoded with.
pub struct RefineTables {
    /// The refinement delta width.
    pub rdw: Table,
    /// The refinement delta height.
    pub rdh: Table,
    /// The refinement X offset.
    pub rdx: Table,
    /// The refinement Y offset.
    pub rdy: Table,
    /// The byte count of a refinement's coded data.
    pub rsize: Table,
}

/// What the tables of refined instances are.
#[verifier::ext_equal]
pub struct RefineTablesV {
    pub rdw: Seq<Line>,
    pub rdh: Seq<Line>,
    pub rdx: Seq<Line>,
    pub rdy: Seq<Line>,
    pub rsize: Seq<Line>,
}

impl View for RefineTables {
    type V = RefineTablesV;

    open spec fn view(&self) -> RefineTablesV {
        RefineTablesV {
            rdw: self.rdw@,
            rdh: self.rdh@,
            rdx: self.rdx@,
            rdy: self.rdy@,
            rsize: self.rsize@,
        }
    }
}

/// What the tables of a region are.
#[verifier::ext_equal]
pub struct TextTablesV {
    pub fs: Seq<Line>,
    pub ds: Seq<Line>,
    pub dt: Seq<Line>,
    pub refine: Option<RefineTablesV>,
}

impl View for TextTables {
    type V = TextTablesV;

    open spec fn view(&self) -> TextTablesV {
        TextTablesV {
            fs: self.fs@,
            ds: self.ds@,
            dt: self.dt@,
            refine: match self.refine {
                Some(refine) => Some(refine@),
                None => None,
            },
        }
    }
}

/// How a prefix-coded text region's symbol ids are coded.
pub enum SymbolCodes {
    /// A table whose lines decode to the index of the symbol they name.
    Assigned(Table),
    /// Every symbol's code is its own index in this many bits.
    EqualLength(u8),
}

/// What the coding of symbol ids is.
#[verifier::ext_equal]
pub enum SymbolCodesV {
    Assigned(Seq<Line>),
    EqualLength(nat),
}

impl View for SymbolCodes {
    type V = SymbolCodesV;

    open spec fn view(&self) -> SymbolCodesV {
        match self {
            SymbolCodes::Assigned(table) => SymbolCodesV::Assigned(table@),
            SymbolCodes::EqualLength(len) => SymbolCodesV::EqualLength(*len as nat),
        }
    }
}

/// The prefix-coded source: the selected tables, the symbol id coding, and one
/// bit cursor they all share. Running out of bits is an error here, where the
/// arithmetic source synthesises bits for ever.
pub struct Huffman<'d> {
    /// The cursor over the region's coded data.
    pub bits: BitReader<'d>,
    /// The tables of the coordinates.
    pub tables: TextTables,
    /// The coding of the symbol ids.
    pub codes: SymbolCodes,
    /// How many bits an instance's T coordinate occupies.
    pub log_strips: u8,
    /// The contexts every refinement of the segment adapts, shared across the
    /// refinements' separate codewords.
    pub gr: MqContexts,
}

/// What a prefix-coded source is.
#[verifier::ext_equal]
pub struct HuffmanV {
    pub bits: BitsV,
    pub tables: TextTablesV,
    pub codes: SymbolCodesV,
    pub log_strips: nat,
    pub gr: Seq<ContextV>,
}

/// The next value of a table, the cursor moved behind it.
pub open spec fn table_value(s: HuffmanV, lines: Seq<Line>) -> Step<Option<i32>, HuffmanV> {
    match huffman::decoded(lines, s.bits) {
        Ok((v, bits)) => Ok((v, HuffmanV { bits, ..s })),
        Err((e, bits)) => Err((e, HuffmanV { bits, ..s })),
    }
}

/// The next value of a table of refined instances.
pub open spec fn refine_value(s: HuffmanV, field: Field) -> Step<Option<i32>, HuffmanV> {
    match s.tables.refine {
        None => Err((FaultV::Malformed("refinement value without refinement tables"@), s)),
        Some(t) => table_value(
            s,
            match field {
                Field::RefineWidth => t.rdw,
                Field::RefineHeight => t.rdh,
                Field::RefineX => t.rdx,
                _ => t.rdy,
            },
        ),
    }
}

/// The next bits, read directly.
pub open spec fn raw_value(s: HuffmanV, count: nat) -> Step<nat, HuffmanV> {
    match bits::bits_of(s.bits, count) {
        Ok((v, bits)) => Ok((v, HuffmanV { bits, ..s })),
        Err((e, bits)) => Err((e, HuffmanV { bits, ..s })),
    }
}

/// The codeword of a refinement: its length in bytes, then, from a byte
/// boundary on, so many bytes.
pub open spec fn codeword_of(s: HuffmanV) -> Step<Seq<u8>, HuffmanV> {
    match s.tables.refine {
        None => Err((FaultV::Malformed("refinement value without refinement tables"@), s)),
        Some(tables) => match table_value(s, tables.rsize) {
            Err(e) => Err(e),
            Ok((None, t)) => Err(
                (FaultV::Malformed("unexpected OOB decoding a refinement data size"@), t),
            ),
            Ok((Some(size), t)) => if size < 0 {
                Err((FaultV::Malformed("negative refinement data size"@), t))
            } else {
                match bits::bytes_of(bits::aligned(t.bits), size as nat) {
                    Ok((data, bits)) => Ok((data, HuffmanV { bits, ..t })),
                    Err((e, bits)) => Err((e, HuffmanV { bits, ..t })),
                }
            },
        },
    }
}

impl<'d> Huffman<'d> {
    /// Reads the codeword of a refinement.
    fn codeword(&mut self) -> (out: Result<&'d [u8], Jbig2Error>)
        ensures
            match out {
                Ok(data) => codeword_of(old(self).state()) == Step::<Seq<u8>, HuffmanV>::Ok(
                    (data@, final(self).state()),
                ),
                Err(e) => codeword_of(old(self).state()) == Step::<Seq<u8>, HuffmanV>::Err(
                    (e@, final(self).state()),
                ),
            },
            final(self).codes == old(self).codes,
            final(self).log_strips == old(self).log_strips,
            final(self).gr@ == old(self).gr@,
    {
        let size = match &self.tables.refine {
            Some(tables) => tables.rsize.decode(&mut self.bits)?,
            None => {
                return Err(Jbig2Error::Malformed("refinement value without refinement tables"));
            },
        };
        let size: i32 = match size {
            Some(size) => size,
            None => {
                return Err(
                    Jbig2Error::Malformed("unexpected OOB decoding a refinement data size"),
                );
            },
        };
        if size < 0 {
            return Err(Jbig2Error::Malformed("negative refinement data size"));
        }
        self.bits.align_to_byte();
        match self.bits.take_aligned_bytes(size as usize) {
            Some(data) => Ok(data),
            None => Err(Jbig2Error::Truncated),
        }
    }
}

impl<'d> Values for Huffman<'d> {
    type State = HuffmanV;

    open spec fn state(&self) -> HuffmanV {
        HuffmanV {
            bits: self.bits@,
            tables: self.tables@,
            codes: self.codes@,
            log_strips: self.log_strips as nat,
            gr: self.gr@,
        }
    }

    open spec fn valid(&self) -> bool {
        &&& self.log_strips <= 3
        &&& self.codes matches SymbolCodes::EqualLength(len) ==> len <= 32
    }

    open spec fn can_refine(&self) -> bool {
        self.gr@.len() == refinement::GR_CONTEXT_LEN
    }

    open spec fn next_value(s: HuffmanV, field: Field) -> Step<Option<i32>, HuffmanV> {
        match field {
            Field::DeltaT => table_value(s, s.tables.dt),
            Field::FirstS => table_value(s, s.tables.fs),
            Field::DeltaS => table_value(s, s.tables.ds),
            Field::CurT => match raw_value(s, s.log_strips) {
                Ok((v, t)) => Ok((Some(v as i32), t)),
                Err(e) => Err(e),
            },
            Field::RefineFlag => match raw_value(s, 1) {
                Ok((v, t)) => Ok((Some(v as i32), t)),
                Err(e) => Err(e),
            },
            _ => refine_value(s, field),
        }
    }

    open spec fn next_id(s: HuffmanV) -> Step<u32, HuffmanV> {
        match s.codes {
            SymbolCodesV::Assigned(lines) => match table_value(s, lines) {
                Err(e) => Err(e),
                Ok((None, t)) => Err(
                    (FaultV::Malformed("unexpected OOB decoding a symbol id"@), t),
                ),
                Ok((Some(id), t)) => if id < 0 {
                    Err((FaultV::Malformed("symbol id out of range"@), t))
                } else {
                    Ok((id as u32, t))
                },
            },
            SymbolCodesV::EqualLength(len) => match raw_value(s, len) {
                Ok((v, t)) => Ok((v as u32, t)),
                Err(e) => Err(e),
            },
        }
    }

    open spec fn next_refined(
        s: HuffmanV,
        params: RefinementParams,
        r: ReferenceV,
        width: nat,
        height: nat,
        left: nat,
    ) -> Step<BitmapV, (HuffmanV, nat)> {
        match codeword_of(s) {
            Err((e, t)) => Err((e, (t, left))),
            Ok((data, t)) => match budget::charged(left, budget::region_cost(width, height)) {
                Err(e) => Err((e, (t, left))),
                Ok(rest) => {
                    let done = refinement::refinement_of(
                        mq::started(data),
                        t.gr,
                        params,
                        r,
                        width,
                        height,
                    );
                    Ok((done.image, (HuffmanV { gr: done.cxs, ..t }, rest)))
                },
            },
        }
    }

    proof fn refining_never_refunds(
        s: HuffmanV,
        params: RefinementParams,
        r: ReferenceV,
        width: nat,
        height: nat,
        left: nat,
    ) {
    }

    fn value(&mut self, field: Field) -> (out: Result<Option<i32>, Jbig2Error>) {
        match field {
            Field::DeltaT => self.tables.dt.decode(&mut self.bits),
            Field::FirstS => self.tables.fs.decode(&mut self.bits),
            Field::DeltaS => self.tables.ds.decode(&mut self.bits),
            Field::CurT => {
                let v: u32 = read_bits(&mut self.bits, self.log_strips)?;
                Ok(Some(v as i32))
            },
            Field::RefineFlag => {
                let v: u32 = read_bits(&mut self.bits, 1)?;
                Ok(Some(v as i32))
            },
            _ => match &self.tables.refine {
                None => Err(Jbig2Error::Malformed("refinement value without refinement tables")),
                Some(t) => match field {
                    Field::RefineWidth => t.rdw.decode(&mut self.bits),
                    Field::RefineHeight => t.rdh.decode(&mut self.bits),
                    Field::RefineX => t.rdx.decode(&mut self.bits),
                    _ => t.rdy.decode(&mut self.bits),
                },
            },
        }
    }

    fn symbol_id(&mut self) -> (out: Result<u32, Jbig2Error>) {
        match &self.codes {
            SymbolCodes::Assigned(codes) => match codes.decode(&mut self.bits)? {
                Some(id) => if id < 0 {
                    Err(Jbig2Error::Malformed("symbol id out of range"))
                } else {
                    Ok(id as u32)
                },
                None => Err(Jbig2Error::Malformed("unexpected OOB decoding a symbol id")),
            },
            SymbolCodes::EqualLength(len) => read_bits(&mut self.bits, *len),
        }
    }

    fn refine(
        &mut self,
        width: u32,
        height: u32,
        reference: &Reference,
        params: &RefinementParams,
        budget: &mut Budget,
    ) -> (out: Result<Bitmap, Jbig2Error>) {
        let data = self.codeword()?;
        let mut dec = MqDecoder::new(data);
        decode_refinement_region(&mut dec, &mut self.gr, budget, width, height, reference, params)
    }
}

/// Law: every field is read with a table of its own: the three of the strips with
/// theirs, the place in a strip and the refinement mark as plain bits, and the
/// four of a refinement with theirs.
pub proof fn fields_are_read_with_their_tables(s: HuffmanV, t: RefineTablesV, field: Field)
    requires
        s.tables.refine == Some(t),
        field != Field::CurT,
        field != Field::RefineFlag,
    ensures
        ({
            let lines = match field {
                Field::DeltaT => s.tables.dt,
                Field::FirstS => s.tables.fs,
                Field::DeltaS => s.tables.ds,
                Field::RefineWidth => t.rdw,
                Field::RefineHeight => t.rdh,
                Field::RefineX => t.rdx,
                _ => t.rdy,
            };
            match huffman::decoded(lines, s.bits) {
                Ok((value, bits)) => Huffman::next_value(s, field) == Step::<
                    Option<i32>,
                    HuffmanV,
                >::Ok((value, HuffmanV { bits, ..s })),
                Err((e, bits)) => Huffman::next_value(s, field) == Step::<
                    Option<i32>,
                    HuffmanV,
                >::Err((e, HuffmanV { bits, ..s })),
            }
        }),
{
}

/// Law: the place in a strip takes as many bits as the strips' height is a power
/// of two, and the refinement mark takes one.
pub proof fn plain_fields_are_bits(s: HuffmanV, field: Field, count: nat)
    requires
        field == Field::CurT && count == s.log_strips || field == Field::RefineFlag && count == 1,
        s.bits.pos + count <= 8 * s.bits.data.len(),
    ensures
        Huffman::next_value(s, field) == Step::<Option<i32>, HuffmanV>::Ok(
            (
                Some(
                    lzw::bits_value(s.bits.data, s.bits.pos, s.bits.pos + count) as i32,
                ),
                HuffmanV {
                    bits: BitsV { data: s.bits.data, pos: s.bits.pos + count },
                    ..s
                },
            ),
        ),
{
}

/// Law: every kind of integer adapts contexts of its own and leaves those of the
/// others, of the ids and of refinement alone.
pub proof fn integers_adapt_apart(s: ArithmeticV, field: Field, other: Field)
    requires
        s.ints.len() == 9,
    ensures
        0 <= field_index(field) < 9,
        field_index(field) == field_index(other) ==> field == other,
        Arithmetic::next_value(s, field) matches Ok((value, t)) && ({
            let (v, dec, cxs) = arith_int::int_of(s.dec, s.ints[field_index(field)]);
            &&& value == v
            &&& t.dec == dec
            &&& t.ints[field_index(field)] == cxs
            &&& field != other ==> t.ints[field_index(other)] == s.ints[field_index(other)]
            &&& t.ids == s.ids && t.id_len == s.id_len && t.gr == s.gr
        }),
{
}

/// Law: a refinement in prefix-coded text is its own stretch of whole bytes: it
/// begins at the next byte behind its length, and reading goes on right behind it.
pub proof fn refinements_stand_in_whole_bytes(s: HuffmanV, t: RefineTablesV, size: i32, at: BitsV)
    requires
        s.tables.refine == Some(t),
        huffman::decoded(t.rsize, s.bits) == Step::<Option<i32>, BitsV>::Ok((Some(size), at)),
        size >= 0,
        at.pos >= 0,
        (at.pos + 7) / 8 + size <= at.data.len(),
    ensures
        ({
            let start = (at.pos + 7) / 8;
            codeword_of(s) == Step::<Seq<u8>, HuffmanV>::Ok(
                (
                    at.data.subrange(start, start + size),
                    HuffmanV { bits: BitsV { data: at.data, pos: 8 * (start + size) }, ..s },
                ),
            )
        }),
{
}

} // verus!
