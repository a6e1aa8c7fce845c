//! The placement walk of a text region.
//!
//! The region is walked in strips. `T` is the coordinate across the strips and
//! `S` the coordinate along them; a transposed region swaps which axis each of
//! the two indexes. Within a strip the running coordinate is advanced past the
//! symbol before the draw for the two corners that name the far edge along the
//! strip, and after it for the two that name the near edge, so it always
//! finishes on the symbol's far edge, and the next gap is measured from there.

use crate::filters::jbig2::bitmap;
use crate::filters::jbig2::bitmap::{Bitmap, BitmapV, CombOp};
use crate::filters::jbig2::budget;
use crate::filters::jbig2::budget::Budget;
use crate::filters::jbig2::refinement::{Reference, ReferenceV, RefinementParams};
use crate::filters::jbig2::values::{Field, Values};
use crate::filters::jbig2::{FaultV, Jbig2Error, Step};
use vstd::prelude::*;

verus! {

/// What placing one symbol instance costs beyond the pixels it composites, in
/// the units the allowance counts: a placement is several decoded values
/// whatever the symbol's size, so it is never free.
pub const INSTANCE_COST: u64 = 64;

/// Which corner of a symbol its coded coordinate names.
#[derive(Debug, Clone, Copy, PartialEq, Eq, Structural)]
pub enum RefCorner {
    /// The symbol's bottom-left pixel lies at the coded coordinate.
    BottomLeft,
    /// The symbol's top-left pixel lies at the coded coordinate.
    TopLeft,
    /// The symbol's bottom-right pixel lies at the coded coordinate.
    BottomRight,
    /// The symbol's top-right pixel lies at the coded coordinate.
    TopRight,
}

/// The corner that a two-bit field names; higher bits belong to other fields.
pub open spec fn corner_of(bits: u8) -> RefCorner {
    if bits % 4 == 0 {
        RefCorner::BottomLeft
    } else if bits % 4 == 1 {
        RefCorner::TopLeft
    } else if bits % 4 == 2 {
        RefCorner::BottomRight
    } else {
        RefCorner::TopRight
    }
}

impl RefCorner {
    /// The corner that a two-bit field names. All four values are defined, so
    /// there is nothing to reject; bits above the low two belong to other
    /// fields and are left out.
    pub fn from_bits(bits: u8) -> (out: RefCorner)
        ensures
            out == corner_of(bits),
    {
        match bits % 4 {
            0 => RefCorner::BottomLeft,
            1 => RefCorner::TopLeft,
            2 => RefCorner::BottomRight,
            _ => RefCorner::TopRight,
        }
    }
}

/// The parameters of the placement walk.
#[derive(Debug, Clone, Copy, PartialEq, Eq)]
pub struct WalkParams {
    /// The number of rows one strip spans: 1, 2, 4 or 8.
    pub strips: i32,
    /// Which corner of a symbol its coordinate names.
    pub corner: RefCorner,
    /// Whether the axes S and T index are swapped.
    pub transposed: bool,
    /// How a symbol's pixels combine with what is already there.
    pub comb_op: CombOp,
    /// The value the region is filled with before any placement.
    pub def_pixel: u8,
    /// Added to every gap after the first instance of a strip.
    pub ds_offset: i32,
    /// The number of placements the region carries.
    pub instances: u32,
    /// How refined instances are decoded; `None` when the region codes no
    /// refinement flag at all.
    pub refinement: Option<RefinementParams>,
}

/// The parameters fixed for the region nested in a symbol dictionary.
pub open spec fn aggregate_params(instances: u32, refinement: RefinementParams) -> WalkParams {
    WalkParams {
        strips: 1,
        corner: RefCorner::TopLeft,
        transposed: false,
        comb_op: CombOp::Or,
        def_pixel: 0,
        ds_offset: 0,
        instances,
        refinement: Some(refinement),
    }
}

impl WalkParams {
    /// The values fixed for the region nested in a symbol dictionary: one-row
    /// strips, top-left corners, no transposition, OR compositing, a 0 default
    /// pixel and no gap offset — and every instance may be refined, with the
    /// dictionary's own template.
    pub fn aggregate(instances: u32, refinement: RefinementParams) -> (out: WalkParams)
        ensures
            out == aggregate_params(instances, refinement),
    {
        WalkParams {
            strips: 1,
            corner: RefCorner::TopLeft,
            transposed: false,
            comb_op: CombOp::Or,
            def_pixel: 0,
            ds_offset: 0,
            instances,
            refinement: Some(refinement),
        }
    }
}

/// The symbols a text region's coded ids index: the symbols of referred-to
/// dictionaries, then those that an enclosing dictionary has decoded so far.
/// Two slices behind one lookup keep that concatenation a view rather than a
/// copy.
pub struct Symbols<'a> {
    /// The symbols of referred-to dictionaries.
    inputs: &'a [&'a Bitmap],
    /// The symbols decoded so far; empty for a stand-alone region.
    new: &'a [Bitmap],
}

impl<'a> View for Symbols<'a> {
    type V = Seq<BitmapV>;

    closed spec fn view(&self) -> Seq<BitmapV> {
        inputs_view(self.inputs@) + new_view(self.new@)
    }
}

/// The bitmaps that references in a row point at.
pub open spec fn inputs_view(inputs: Seq<&Bitmap>) -> Seq<BitmapV> {
    Seq::new(inputs.len(), |i: int| inputs[i]@)
}

/// The bitmaps in a row.
pub open spec fn new_view(new: Seq<Bitmap>) -> Seq<BitmapV> {
    Seq::new(new.len(), |i: int| new[i]@)
}

impl<'a> Symbols<'a> {
    /// The two lists as one, ids running over `inputs` first.
    pub fn concat(inputs: &'a [&'a Bitmap], new: &'a [Bitmap]) -> (out: Symbols<'a>)
        ensures
            out@ == inputs_view(inputs@) + new_view(new@),
    {
        Symbols { inputs, new }
    }

    /// The symbol a coded id names, or `None` for an id past both lists.
    pub fn get(&self, id: usize) -> (out: Option<&'a Bitmap>)
        ensures
            match out {
                Some(symbol) => id < self@.len() && symbol@ == self@[id as int],
                None => id >= self@.len(),
            },
    {
        if id < self.inputs.len() {
            return Some(self.inputs[id]);
        }
        let at: usize = id - self.inputs.len();
        if at < self.new.len() {
            Some(&self.new[at])
        } else {
            None
        }
    }

    /// Whether there is no symbol.
    pub fn is_empty(&self) -> (out: bool)
        ensures
            out == (self@.len() == 0),
    {
        self.inputs.len() == 0 && self.new.len() == 0
    }
}

/// A coordinate drawn into the range of 64-bit integers.
pub open spec fn sat(v: int) -> int {
    if v > i64::MAX {
        i64::MAX as int
    } else if v < i64::MIN {
        i64::MIN as int
    } else {
        v
    }
}

/// A coordinate drawn into the range of 32-bit integers.
pub open spec fn offset_of(v: int) -> int {
    if v > i32::MAX {
        i32::MAX as int
    } else if v < i32::MIN {
        i32::MIN as int
    } else {
        v
    }
}

/// The sum of two coordinates, drawn into range.
fn sat_sum(a: i64, b: i64) -> (out: i64)
    ensures
        out == sat(a + b),
{
    let v: i128 = a as i128 + b as i128;
    if v > i64::MAX as i128 {
        i64::MAX
    } else if v < i64::MIN as i128 {
        i64::MIN
    } else {
        v as i64
    }
}

/// Narrows a placement coordinate to the offset a bitmap is drawn at. A
/// coordinate far outside the region clips entirely away, whereas a wrap would
/// paint it over the opposite corner.
fn clamp_offset(v: i64) -> (out: i32)
    ensures
        out == offset_of(v as int),
{
    if v > i32::MAX as i64 {
        i32::MAX
    } else if v < i32::MIN as i64 {
        i32::MIN
    } else {
        v as i32
    }
}

/// Where a symbol's left pixels are whose right ones are at `v`.
pub open spec fn from_far(v: int, extent: int) -> int {
    sat(sat(v - extent) + 1)
}

/// Where a symbol's top-left pixel lands, given that its corner lies at
/// `(s, t)`.
pub open spec fn corner_origin(
    s: int,
    t: int,
    w: int,
    h: int,
    transposed: bool,
    corner: RefCorner,
) -> (int, int) {
    let (x, y) = if transposed {
        (t, s)
    } else {
        (s, t)
    };
    (
        if corner == RefCorner::TopRight || corner == RefCorner::BottomRight {
            from_far(x, w)
        } else {
            x
        },
        if corner == RefCorner::BottomLeft || corner == RefCorner::BottomRight {
            from_far(y, h)
        } else {
            y
        },
    )
}

/// Where a symbol's top-left pixel lands, given that its corner lies at
/// `(s, t)`. Transposition does not rotate the symbol; it swaps which axis each
/// of the two coordinates indexes, while the corner adjustments stay attached
/// to the symbol's own width and height.
fn top_left(s: i64, t: i64, w: i64, h: i64, transposed: bool, corner: RefCorner) -> (out: (i64, i64))
    requires
        0 <= w <= u32::MAX,
        0 <= h <= u32::MAX,
    ensures
        (out.0 as int, out.1 as int) == corner_origin(
            s as int,
            t as int,
            w as int,
            h as int,
            transposed,
            corner,
        ),
{
    let x: i64 = if transposed {
        t
    } else {
        s
    };
    let y: i64 = if transposed {
        s
    } else {
        t
    };
    let left: i64 = match corner {
        RefCorner::TopRight | RefCorner::BottomRight => sat_sum(sat_sum(x, -w), 1),
        _ => x,
    };
    let top: i64 = match corner {
        RefCorner::BottomLeft | RefCorner::BottomRight => sat_sum(sat_sum(y, -h), 1),
        _ => y,
    };
    (left, top)
}

/// Whether the running coordinate is advanced before the draw.
pub open spec fn advances_first(params: WalkParams) -> bool {
    if params.transposed {
        params.corner == RefCorner::BottomLeft || params.corner == RefCorner::BottomRight
    } else {
        params.corner == RefCorner::TopRight || params.corner == RefCorner::BottomRight
    }
}

/// How far the far edge of an instance is from its near edge along the strip.
pub open spec fn extent_of(params: WalkParams, instance: BitmapV) -> int {
    if params.transposed {
        instance.height() - 1
    } else {
        instance.width - 1
    }
}

/// Where an instance's top-left pixel lands when the running coordinate stands
/// at `curs` before it.
pub open spec fn origin_of(params: WalkParams, instance: BitmapV, curs: int, t: int) -> (int, int) {
    corner_origin(
        if advances_first(params) {
            sat(curs + extent_of(params, instance))
        } else {
            curs
        },
        t,
        instance.width as int,
        instance.height() as int,
        params.transposed,
        params.corner,
    )
}

/// The region with an instance drawn into it.
pub open spec fn composed(
    region: BitmapV,
    instance: BitmapV,
    params: WalkParams,
    curs: int,
    t: int,
) -> BitmapV {
    let (x, y) = origin_of(params, instance, curs, t);
    bitmap::drawn(region, instance, offset_of(x), offset_of(y), params.comb_op)
}

/// A value that must be there: the end mark is an error.
pub open spec fn required<S>(read: Step<Option<i32>, S>, what: Seq<char>) -> Step<i32, S> {
    match read {
        Err(e) => Err(e),
        Ok((None, s)) => Err((FaultV::Malformed(what), s)),
        Ok((Some(v), s)) => Ok((v, s)),
    }
}

/// Reads a value that must be there.
fn require<V: Values>(values: &mut V, field: Field, what: &'static str) -> (out: Result<
    i32,
    Jbig2Error,
>)
    requires
        old(values).valid(),
    ensures
        ({
            let next = required(V::next_value(old(values).state(), field), what@);
            match out {
                Ok(v) => next == Step::<i32, V::State>::Ok((v, final(values).state())),
                Err(e) => next == Step::<i32, V::State>::Err((e@, final(values).state())),
            }
        }),
        final(values).valid(),
        final(values).can_refine() == old(values).can_refine(),
{
    match values.value(field)? {
        Some(v) => Ok(v),
        None => Err(Jbig2Error::Malformed(what)),
    }
}

/// The four deltas of a refined instance.
pub open spec fn deltas_of<V: Values>(s: V::State) -> Step<(i32, i32, i32, i32), V::State> {
    let what = "unexpected OOB decoding a refinement delta"@;
    match required(V::next_value(s, Field::RefineWidth), what) {
        Err(e) => Err(e),
        Ok((rdw, s)) => match required(V::next_value(s, Field::RefineHeight), what) {
            Err(e) => Err(e),
            Ok((rdh, s)) => match required(V::next_value(s, Field::RefineX), what) {
                Err(e) => Err(e),
                Ok((rdx, s)) => match required(V::next_value(s, Field::RefineY), what) {
                    Err(e) => Err(e),
                    Ok((rdy, s)) => Ok(((rdw, rdh, rdx, rdy), s)),
                },
            },
        },
    }
}

/// The refinement of one instance, or `None` when the instance is its symbol
/// as it stands.
pub open spec fn refinement_at<V: Values>(
    s: V::State,
    params: WalkParams,
    symbol: BitmapV,
    left: nat,
) -> Step<Option<BitmapV>, (V::State, nat)> {
    match params.refinement {
        None => Ok((None, (s, left))),
        Some(template) => match required(
            V::next_value(s, Field::RefineFlag),
            "unexpected OOB decoding a refinement flag"@,
        ) {
            Err((e, s)) => Err((e, (s, left))),
            Ok((flag, s)) => if flag == 0 {
                Ok((None, (s, left)))
            } else {
                match deltas_of::<V>(s) {
                    Err((e, s)) => Err((e, (s, left))),
                    Ok(((rdw, rdh, rdx, rdy), s)) => {
                        let width = symbol.width + rdw;
                        let height = symbol.height() + rdh;
                        if !(0 <= width <= u32::MAX) || !(0 <= height <= u32::MAX) {
                            Err(
                                (
                                    FaultV::Malformed("refined instance size out of range"@),
                                    (s, left),
                                ),
                            )
                        } else {
                            let r = ReferenceV {
                                bitmap: symbol,
                                dx: offset_of(rdw as int / 2 + rdx),
                                dy: offset_of(rdh as int / 2 + rdy),
                            };
                            match V::next_refined(
                                s,
                                template,
                                r,
                                width as nat,
                                height as nat,
                                left,
                            ) {
                                Err(e) => Err(e),
                                Ok((image, after)) => Ok((Some(image), after)),
                            }
                        }
                    },
                }
            },
        },
    }
}

/// The bitmap of one instance: its symbol, or that symbol refined. Every
/// instance costs a fixed price and the pixels that are composited.
pub open spec fn instance_at<V: Values>(
    s: V::State,
    params: WalkParams,
    symbol: BitmapV,
    left: nat,
) -> Step<BitmapV, (V::State, nat)> {
    match budget::charged(left, INSTANCE_COST as nat) {
        Err(e) => Err((e, (s, left))),
        Ok(left) => match refinement_at::<V>(s, params, symbol, left) {
            Err(e) => Err(e),
            Ok((refined, (s, left))) => {
                let instance = match refined {
                    Some(image) => image,
                    None => symbol,
                };
                match budget::charged(
                    left,
                    budget::region_cost(instance.width, instance.height()),
                ) {
                    Err(e) => Err((e, (s, left))),
                    Ok(left) => Ok((instance, (s, left))),
                }
            },
        },
    }
}

/// What the walk works on: the source of values, the region as far as it is
/// painted and what is left of the allowance.
pub struct WalkV<S> {
    pub values: S,
    pub region: BitmapV,
    pub left: nat,
}

/// What comes of a walk: the walk behind it, or the fault and the walk as far as
/// it went.
pub type Walked<S> = std::result::Result<WalkV<S>, (FaultV, WalkV<S>)>;

impl<S> WalkV<S> {
    /// The walk with its source and its allowance moved on.
    pub open spec fn moved(self, values: S, left: nat) -> WalkV<S> {
        WalkV { values, region: self.region, left }
    }
}

/// The T coordinate within a strip; a strip of one row codes none.
pub open spec fn curt_of<V: Values>(s: V::State, params: WalkParams) -> Step<i32, V::State> {
    if params.strips == 1 {
        Ok((0, s))
    } else {
        required(V::next_value(s, Field::CurT), "unexpected OOB decoding a T coordinate"@)
    }
}

/// One placement: the running coordinate and the walk after it.
pub open spec fn placed<V: Values>(
    w: WalkV<V::State>,
    params: WalkParams,
    symbols: Seq<BitmapV>,
    curs: int,
    strip_t: int,
) -> Step<int, WalkV<V::State>> {
    match curt_of::<V>(w.values, params) {
        Err((e, s)) => Err((e, w.moved(s, w.left))),
        Ok((curt, s)) => match V::next_id(s) {
            Err((e, s)) => Err((e, w.moved(s, w.left))),
            Ok((id, s)) => if id >= symbols.len() {
                Err((FaultV::Malformed("symbol id out of range"@), w.moved(s, w.left)))
            } else {
                match instance_at::<V>(s, params, symbols[id as int], w.left) {
                    Err((e, (s, left))) => Err((e, w.moved(s, left))),
                    Ok((instance, (s, left))) => Ok(
                        (
                            sat(curs + extent_of(params, instance)),
                            WalkV {
                                values: s,
                                region: composed(
                                    w.region,
                                    instance,
                                    params,
                                    curs,
                                    sat(strip_t + curt),
                                ),
                                left,
                            },
                        ),
                    ),
                }
            },
        },
    }
}

/// The rest of a strip, from an instance at `curs` on, and how many instances
/// have been placed after it. It ends at its end mark or at the declared count.
pub open spec fn strip_from<V: Values>(
    w: WalkV<V::State>,
    params: WalkParams,
    symbols: Seq<BitmapV>,
    curs: int,
    strip_t: int,
    count: int,
) -> Step<int, WalkV<V::State>>
    decreases params.instances - count,
{
    match placed::<V>(w, params, symbols, curs, strip_t) {
        Err(e) => Err(e),
        Ok((curs, w)) => match V::next_value(w.values, Field::DeltaS) {
            Err((e, values)) => Err((e, w.moved(values, w.left))),
            Ok((gap, values)) => {
                let w = w.moved(values, w.left);
                match gap {
                    None => Ok((count + 1, w)),
                    Some(gap) => if count + 1 >= params.instances {
                        Ok((count + 1, w))
                    } else {
                        strip_from::<V>(
                            w,
                            params,
                            symbols,
                            sat(sat(curs + gap) + params.ds_offset),
                            strip_t,
                            count + 1,
                        )
                    },
                }
            },
        },
    }
}

/// The strips that are left when `count` instances have been placed.
pub open spec fn strips_from<V: Values>(
    w: WalkV<V::State>,
    params: WalkParams,
    symbols: Seq<BitmapV>,
    strip_t: int,
    first_s: int,
    count: int,
) -> Walked<V::State>
    decreases
        if count < params.instances {
            params.instances - count
        } else {
            0
        },
{
    if count >= params.instances {
        Ok(w)
    } else {
        match required(
            V::next_value(w.values, Field::DeltaT),
            "unexpected OOB decoding a strip offset"@,
        ) {
            Err((e, s)) => Err((e, w.moved(s, w.left))),
            Ok((delta, s)) => match required(
                V::next_value(s, Field::FirstS),
                "unexpected OOB decoding a first S coordinate"@,
            ) {
                Err((e, s)) => Err((e, w.moved(s, w.left))),
                Ok((first, values)) => {
                    let strip_t = sat(strip_t + sat(delta * params.strips));
                    let first_s = sat(first_s + first);
                    let w = w.moved(values, w.left);
                    match strip_from::<V>(w, params, symbols, first_s, strip_t, count) {
                        Err(e) => Err(e),
                        Ok((more, w)) => if more > count {
                            strips_from::<V>(w, params, symbols, strip_t, first_s, more)
                        } else {
                            Ok(w)
                        },
                    }
                },
            },
        }
    }
}

/// The whole walk.
pub open spec fn walked<V: Values>(
    w: WalkV<V::State>,
    params: WalkParams,
    symbols: Seq<BitmapV>,
) -> Walked<V::State> {
    match required(
        V::next_value(w.values, Field::DeltaT),
        "unexpected OOB decoding the leading strip offset"@,
    ) {
        Err((e, values)) => Err((e, w.moved(values, w.left))),
        Ok((initial, values)) => strips_from::<V>(
            w.moved(values, w.left),
            params,
            symbols,
            sat(-sat(initial * params.strips)),
            0,
            0,
        ),
    }
}

/// Half of a number, rounded down.
fn half(v: i32) -> (out: i64)
    ensures
        out == v as int / 2,
{
    if v >= 0 {
        v as i64 / 2
    } else {
        -((-(v as i64) + 1) / 2)
    }
}

/// Decodes the refinement of one instance, or `None` when the instance is its
/// symbol as it stands — because the region codes no refinements at all, or
/// because this instance's flag says so.
fn refine_instance<V: Values>(
    values: &mut V,
    params: &WalkParams,
    symbol: &Bitmap,
    budget: &mut Budget,
) -> (out: Result<Option<Bitmap>, Jbig2Error>)
    requires
        old(values).valid(),
        params.refinement is Some ==> old(values).can_refine(),
    ensures
        final(budget)@ <= old(budget)@,
        ({
            let next = refinement_at::<V>(
                old(values).state(),
                *params,
                symbol@,
                old(budget)@,
            );
            match out {
                Ok(image) => next == Step::<Option<BitmapV>, (V::State, nat)>::Ok(
                    (
                        match image {
                            Some(image) => Some(image@),
                            None => None,
                        },
                        (final(values).state(), final(budget)@),
                    ),
                ),
                Err(e) => next == Step::<Option<BitmapV>, (V::State, nat)>::Err(
                    (e@, (final(values).state(), final(budget)@)),
                ),
            }
        }),
        final(values).valid(),
        final(values).can_refine() == old(values).can_refine(),
{
    let template = match &params.refinement {
        Some(template) => template,
        None => {
            return Ok(None);
        },
    };
    let flag: i32 = require(
        values,
        Field::RefineFlag,
        "unexpected OOB decoding a refinement flag",
    )?;
    if flag == 0 {
        return Ok(None);
    }
    let rdw: i32 = require(
        values,
        Field::RefineWidth,
        "unexpected OOB decoding a refinement delta",
    )?;
    let rdh: i32 = require(
        values,
        Field::RefineHeight,
        "unexpected OOB decoding a refinement delta",
    )?;
    let rdx: i32 = require(
        values,
        Field::RefineX,
        "unexpected OOB decoding a refinement delta",
    )?;
    let rdy: i32 = require(
        values,
        Field::RefineY,
        "unexpected OOB decoding a refinement delta",
    )?;
    let width: i64 = symbol.width() as i64 + rdw as i64;
    let height: i64 = symbol.height() as i64 + rdh as i64;
    if width < 0 || width > u32::MAX as i64 || height < 0 || height > u32::MAX as i64 {
        return Err(Jbig2Error::Malformed("refined instance size out of range"));
    }
    let reference = Reference {
        bitmap: symbol,
        dx: clamp_offset(half(rdw) + rdx as i64),
        dy: clamp_offset(half(rdh) + rdy as i64),
    };
    let image = values.refine(width as u32, height as u32, &reference, template, budget)?;
    Ok(Some(image))
}

/// Draws one instance into the region and returns the running coordinate after
/// it: the far edge of the instance along the strip. A refined instance
/// advances by its own extent, not its symbol's.
fn compose(
    region: &mut Bitmap,
    instance: &Bitmap,
    params: &WalkParams,
    curs: i64,
    t: i64,
) -> (out: i64)
    ensures
        final(region)@ == composed(old(region)@, instance@, *params, curs as int, t as int),
        out == sat(curs + extent_of(*params, instance@)),
{
    let w: i64 = instance.width() as i64;
    let h: i64 = instance.height() as i64;
    let extent: i64 = if params.transposed {
        h - 1
    } else {
        w - 1
    };
    let advance_first = if params.transposed {
        params.corner == RefCorner::BottomLeft || params.corner == RefCorner::BottomRight
    } else {
        params.corner == RefCorner::TopRight || params.corner == RefCorner::BottomRight
    };
    let far: i64 = sat_sum(curs, extent);
    let s: i64 = if advance_first {
        far
    } else {
        curs
    };
    let (x, y) = top_left(s, t, w, h, params.transposed, params.corner);
    region.combine(instance, clamp_offset(x), clamp_offset(y), params.comb_op);
    far
}

/// Decodes and composites one symbol instance, returning the value the running
/// coordinate takes after it.
fn place_one<V: Values>(
    values: &mut V,
    region: &mut Bitmap,
    symbols: &Symbols,
    params: &WalkParams,
    budget: &mut Budget,
    curs: i64,
    strip_t: i64,
) -> (out: Result<i64, Jbig2Error>)
    requires
        old(values).valid(),
        params.refinement is Some ==> old(values).can_refine(),
    ensures
        final(budget)@ <= old(budget)@,
        ({
            let next = placed::<V>(
                WalkV { values: old(values).state(), region: old(region)@, left: old(budget)@ },
                *params,
                symbols@,
                curs as int,
                strip_t as int,
            );
            match out {
                Ok(curs) => next == Step::<int, WalkV<V::State>>::Ok(
                    (
                        curs as int,
                        WalkV {
                            values: final(values).state(),
                            region: final(region)@,
                            left: final(budget)@,
                        },
                    ),
                ),
                Err(e) => next == Step::<int, WalkV<V::State>>::Err(
                    (
                        e@,
                        WalkV {
                            values: final(values).state(),
                            region: final(region)@,
                            left: final(budget)@,
                        },
                    ),
                ),
            }
        }),
        final(values).valid(),
        final(values).can_refine() == old(values).can_refine(),
{
    let curt: i32 = if params.strips == 1 {
        0
    } else {
        require(values, Field::CurT, "unexpected OOB decoding a T coordinate")?
    };
    let t: i64 = sat_sum(strip_t, curt as i64);
    let id: u32 = values.symbol_id()?;
    let symbol = match symbols.get(id as usize) {
        Some(symbol) => symbol,
        None => {
            return Err(Jbig2Error::Malformed("symbol id out of range"));
        },
    };
    budget.charge(INSTANCE_COST)?;
    let refined = refine_instance(values, params, symbol, budget)?;
    let instance: &Bitmap = match &refined {
        Some(image) => image,
        None => symbol,
    };
    budget.charge_region(instance.width(), instance.height())?;
    Ok(compose(region, instance, params, curs, t))
}

/// Walks one strip, from its first instance on, and returns how many instances
/// have been placed after it.
fn run_strip<V: Values>(
    values: &mut V,
    region: &mut Bitmap,
    symbols: &Symbols,
    params: &WalkParams,
    budget: &mut Budget,
    first_s: i64,
    strip_t: i64,
    count: u32,
) -> (out: Result<u32, Jbig2Error>)
    requires
        old(values).valid(),
        params.refinement is Some ==> old(values).can_refine(),
        count < params.instances,
    ensures
        final(budget)@ <= old(budget)@,
        ({
            let next = strip_from::<V>(
                WalkV { values: old(values).state(), region: old(region)@, left: old(budget)@ },
                *params,
                symbols@,
                first_s as int,
                strip_t as int,
                count as int,
            );
            match out {
                Ok(more) => next == Step::<int, WalkV<V::State>>::Ok(
                    (
                        more as int,
                        WalkV {
                            values: final(values).state(),
                            region: final(region)@,
                            left: final(budget)@,
                        },
                    ),
                ) && count < more <= params.instances,
                Err(e) => next == Step::<int, WalkV<V::State>>::Err(
                    (
                        e@,
                        WalkV {
                            values: final(values).state(),
                            region: final(region)@,
                            left: final(budget)@,
                        },
                    ),
                ),
            }
        }),
        final(values).valid(),
        final(values).can_refine() == old(values).can_refine(),
{
    let ghost whole = strip_from::<V>(
        WalkV { values: values.state(), region: region@, left: budget@ },
        *params,
        symbols@,
        first_s as int,
        strip_t as int,
        count as int,
    );
    let ghost before = count;
    let ghost refines = values.can_refine();
    let mut curs: i64 = first_s;
    let mut done: u32 = count;
    loop
        invariant
            before <= done < params.instances,
            before == count,
            budget@ <= old(budget)@,
            values.valid(),
            values.can_refine() == refines,
            refines == old(values).can_refine(),
            params.refinement is Some ==> refines,
            whole == strip_from::<V>(
                WalkV { values: old(values).state(), region: old(region)@, left: old(budget)@ },
                *params,
                symbols@,
                first_s as int,
                strip_t as int,
                count as int,
            ),
            whole == strip_from::<V>(
                (WalkV { values: values.state(), region: region@, left: budget@ }),
                *params,
                symbols@,
                curs as int,
                strip_t as int,
                done as int,
            ),
        decreases params.instances - done,
    {
        let far: i64 = place_one(values, region, symbols, params, budget, curs, strip_t)?;
        done += 1;
        match values.value(Field::DeltaS)? {
            None => {
                return Ok(done);
            },
            Some(gap) => {
                if done >= params.instances {
                    return Ok(done);
                }
                curs = sat_sum(sat_sum(far, gap as i64), params.ds_offset as i64);
            },
        }
    }
}

/// Walks the strips, compositing every symbol instance the region declares.
///
/// Every pass of the inner loop places an instance, and every strip has at
/// least one, so the total number of passes is bounded by the declared count,
/// which the segment header fixed before any of this was read.
pub fn run<V: Values>(
    values: &mut V,
    region: &mut Bitmap,
    symbols: &Symbols,
    params: &WalkParams,
    budget: &mut Budget,
) -> (out: Result<(), Jbig2Error>)
    requires
        old(values).valid(),
        params.refinement is Some ==> old(values).can_refine(),
        1 <= params.strips <= 8,
    ensures
        final(budget)@ <= old(budget)@,
        ({
            let next = walked::<V>(
                WalkV { values: old(values).state(), region: old(region)@, left: old(budget)@ },
                *params,
                symbols@,
            );
            match out {
                Ok(_) => next == Walked::<V::State>::Ok(
                    WalkV {
                        values: final(values).state(),
                        region: final(region)@,
                        left: final(budget)@,
                    },
                ),
                Err(e) => next == Walked::<V::State>::Err(
                    (
                        e@,
                        WalkV {
                            values: final(values).state(),
                            region: final(region)@,
                            left: final(budget)@,
                        },
                    ),
                ),
            }
        }),
        final(values).valid(),
        final(values).can_refine() == old(values).can_refine(),
{
    let ghost whole = walked::<V>(
        WalkV { values: values.state(), region: region@, left: budget@ },
        *params,
        symbols@,
    );
    let ghost refines = values.can_refine();
    let initial: i32 = require(
        values,
        Field::DeltaT,
        "unexpected OOB decoding the leading strip offset",
    )?;
    // The leading strip offset is negated, so a region whose first strip
    // starts above its own top edge says so with a positive value here.
    let mut strip_t: i64 = -scaled(initial, params.strips);
    // The first S coordinate runs across the whole region rather than
    // resetting per strip.
    let mut first_s: i64 = 0;
    let mut count: u32 = 0;
    while count < params.instances
        invariant
            1 <= params.strips <= 8,
            budget@ <= old(budget)@,
            values.valid(),
            values.can_refine() == refines,
            refines == old(values).can_refine(),
            params.refinement is Some ==> refines,
            whole == walked::<V>(
                WalkV { values: old(values).state(), region: old(region)@, left: old(budget)@ },
                *params,
                symbols@,
            ),
            whole == strips_from::<V>(
                (WalkV { values: values.state(), region: region@, left: budget@ }),
                *params,
                symbols@,
                strip_t as int,
                first_s as int,
                count as int,
            ),
        decreases params.instances - count,
    {
        let delta: i32 = require(
            values,
            Field::DeltaT,
            "unexpected OOB decoding a strip offset",
        )?;
        // The delta counts strips, not rows.
        strip_t = sat_sum(strip_t, scaled(delta, params.strips));
        let first: i32 = require(
            values,
            Field::FirstS,
            "unexpected OOB decoding a first S coordinate",
        )?;
        first_s = sat_sum(first_s, first as i64);
        count = run_strip(values, region, symbols, params, budget, first_s, strip_t, count)?;
    }
    Ok(())
}

/// A number of strips as a number of rows.
fn scaled(strips: i32, rows: i32) -> (out: i64)
    requires
        1 <= rows <= 8,
    ensures
        out == strips * rows,
        out == sat(strips * rows),
        -out == sat(-out),
{
    assert(-0x8000_0000 * 8 <= strips * rows <= 0x7fff_ffff * 8) by (nonlinear_arith)
        requires
            1 <= rows <= 8,
            -0x8000_0000 <= strips <= 0x7fff_ffff,
    ;
    strips as i64 * rows as i64
}

/// Whichever corner a symbol's coordinate names, its near edge along the strip
/// lies where the running coordinate stood before it, so the next gap is
/// measured from its far edge: the corner decides the other axis alone.
pub proof fn instances_begin_at_the_running_coordinate(
    params: WalkParams,
    instance: BitmapV,
    curs: int,
    t: int,
)
    requires
        instance.width <= u32::MAX,
        instance.height() <= u32::MAX,
        i64::MIN + u32::MAX <= curs <= i64::MAX - u32::MAX,
    ensures
        params.transposed ==> origin_of(params, instance, curs, t).1 == curs,
        !params.transposed ==> origin_of(params, instance, curs, t).0 == curs,
{
}

/// A strip places at least one instance and never more than the region
/// declares.
pub proof fn strips_are_bounded<V: Values>(
    w: WalkV<V::State>,
    params: WalkParams,
    symbols: Seq<BitmapV>,
    curs: int,
    strip_t: int,
    count: int,
)
    requires
        count < params.instances,
    ensures
        strip_from::<V>(w, params, symbols, curs, strip_t, count) matches Ok((more, _)) ==> count
            < more <= params.instances,
    decreases params.instances - count,
{
    if let Ok((far, w)) = placed::<V>(w, params, symbols, curs, strip_t) {
        if let Ok((Some(gap), values)) = V::next_value(w.values, Field::DeltaS) {
            if count + 1 < params.instances {
                strips_are_bounded::<V>(
                    WalkV { values, region: w.region, left: w.left },
                    params,
                    symbols,
                    sat(sat(far + gap) + params.ds_offset),
                    strip_t,
                    count + 1,
                );
            }
        }
    }
}

/// A placement costs at least its fixed price.
proof fn lemma_placed_pays<V: Values>(
    w: WalkV<V::State>,
    params: WalkParams,
    symbols: Seq<BitmapV>,
    curs: int,
    strip_t: int,
)
    ensures
        placed::<V>(w, params, symbols, curs, strip_t) matches Ok((_, after)) ==> after.left
            + INSTANCE_COST <= w.left,
{
    if let Ok((_, s)) = curt_of::<V>(w.values, params) {
        if let Ok((id, s)) = V::next_id(s) {
            if id < symbols.len() {
                lemma_instance_pays::<V>(s, params, symbols[id as int], w.left);
            }
        }
    }
}

/// An instance costs at least its fixed price.
proof fn lemma_instance_pays<V: Values>(
    s: V::State,
    params: WalkParams,
    symbol: BitmapV,
    left: nat,
)
    ensures
        instance_at::<V>(s, params, symbol, left) matches Ok((_, (_, after))) ==> after
            + INSTANCE_COST <= left,
{
    if let Ok(left) = budget::charged(left, INSTANCE_COST as nat) {
        if let Some(template) = params.refinement {
            if let Ok((flag, s)) = required(
                V::next_value(s, Field::RefineFlag),
                "unexpected OOB decoding a refinement flag"@,
            ) {
                if let Ok(((rdw, rdh, rdx, rdy), s)) = deltas_of::<V>(s) {
                    V::refining_never_refunds(
                        s,
                        template,
                        ReferenceV {
                            bitmap: symbol,
                            dx: offset_of(rdw as int / 2 + rdx),
                            dy: offset_of(rdh as int / 2 + rdy),
                        },
                        (symbol.width + rdw) as nat,
                        (symbol.height() + rdh) as nat,
                        left,
                    );
                }
            }
        }
    }
}

/// A strip costs at least the fixed price of its instances.
proof fn lemma_strip_pays<V: Values>(
    w: WalkV<V::State>,
    params: WalkParams,
    symbols: Seq<BitmapV>,
    curs: int,
    strip_t: int,
    count: int,
)
    ensures
        strip_from::<V>(w, params, symbols, curs, strip_t, count) matches Ok((more, after))
            ==> after.left + INSTANCE_COST * (more - count) <= w.left,
    decreases params.instances - count,
{
    lemma_placed_pays::<V>(w, params, symbols, curs, strip_t);
    if let Ok((far, w)) = placed::<V>(w, params, symbols, curs, strip_t) {
        if let Ok((Some(gap), values)) = V::next_value(w.values, Field::DeltaS) {
            if count + 1 < params.instances {
                lemma_strip_pays::<V>(
                    WalkV { values, region: w.region, left: w.left },
                    params,
                    symbols,
                    sat(sat(far + gap) + params.ds_offset),
                    strip_t,
                    count + 1,
                );
            }
        }
    }
}

/// The strips that are left cost at least the fixed price of the instances that
/// are left.
proof fn lemma_strips_pay<V: Values>(
    w: WalkV<V::State>,
    params: WalkParams,
    symbols: Seq<BitmapV>,
    strip_t: int,
    first_s: int,
    count: int,
)
    requires
        count <= params.instances,
    ensures
        strips_from::<V>(w, params, symbols, strip_t, first_s, count) matches Ok(after)
            ==> after.left + INSTANCE_COST * (params.instances - count) <= w.left,
    decreases params.instances - count,
{
    if count < params.instances {
        if let Ok((delta, s)) = required(
            V::next_value(w.values, Field::DeltaT),
            "unexpected OOB decoding a strip offset"@,
        ) {
            if let Ok((first, values)) = required(
                V::next_value(s, Field::FirstS),
                "unexpected OOB decoding a first S coordinate"@,
            ) {
                let strip_t = sat(strip_t + sat(delta * params.strips));
                let first_s = sat(first_s + first);
                let w = WalkV { values, region: w.region, left: w.left };
                strips_are_bounded::<V>(w, params, symbols, first_s, strip_t, count);
                lemma_strip_pays::<V>(w, params, symbols, first_s, strip_t, count);
                if let Ok((more, w)) = strip_from::<V>(
                    w,
                    params,
                    symbols,
                    first_s,
                    strip_t,
                    count,
                ) {
                    lemma_strips_pay::<V>(w, params, symbols, strip_t, first_s, more);
                }
            }
        }
    }
}

/// Every instance a region declares is paid for: a walk that ends well has
/// spent at least the fixed price of as many placements.
pub proof fn every_instance_is_paid_for<V: Values>(
    w: WalkV<V::State>,
    params: WalkParams,
    symbols: Seq<BitmapV>,
)
    ensures
        walked::<V>(w, params, symbols) matches Ok(after) ==> after.left + INSTANCE_COST
            * params.instances <= w.left,
{
    if let Ok((initial, values)) = required(
        V::next_value(w.values, Field::DeltaT),
        "unexpected OOB decoding the leading strip offset"@,
    ) {
        lemma_strips_pay::<V>(
            WalkV { values, region: w.region, left: w.left },
            params,
            symbols,
            sat(-sat(initial * params.strips)),
            0,
            0,
        );
    }
}

/// A region that declares no instance stays as it was filled, whatever follows
/// its leading strip offset.
pub proof fn no_instance_paints_nothing<V: Values>(
    w: WalkV<V::State>,
    params: WalkParams,
    symbols: Seq<BitmapV>,
)
    requires
        params.instances == 0,
    ensures
        walked::<V>(w, params, symbols) matches Ok(after) ==> after.region == w.region
            && after.left == w.left,
{
}

/// Law: the number of a reference corner says which edges of an instance stand
/// on its coordinates: the right edge for 2 and 3, the left one for 0 and 1; the
/// bottom edge for 0 and 2, the top one for 1 and 3. Across a region s counts
/// columns and t rows; down a transposed one it is the other way round.
pub proof fn corners_stand_on_their_coordinates(
    bits: u8,
    s: int,
    t: int,
    w: int,
    h: int,
    transposed: bool,
)
    requires
        bits < 4,
        0 <= w <= u32::MAX,
        0 <= h <= u32::MAX,
        i64::MIN + u32::MAX <= s <= i64::MAX - u32::MAX,
        i64::MIN + u32::MAX <= t <= i64::MAX - u32::MAX,
    ensures
        ({
            let (x, y) = corner_origin(s, t, w, h, transposed, corner_of(bits));
            let column = if transposed {
                t
            } else {
                s
            };
            let row = if transposed {
                s
            } else {
                t
            };
            &&& bits == 0 || bits == 1 ==> x == column
            &&& bits == 2 || bits == 3 ==> x + w - 1 == column
            &&& bits == 1 || bits == 3 ==> y == row
            &&& bits == 0 || bits == 2 ==> y + h - 1 == row
        }),
{
}

/// Law: across a strip an instance stands with its top edge on the t coordinate
/// under a top corner and with its bottom edge under a bottom one; down a
/// transposed strip with its left edge under a left corner and with its right
/// edge under a right one.
pub proof fn instances_stand_on_their_line(
    params: WalkParams,
    bits: u8,
    instance: BitmapV,
    curs: int,
    t: int,
)
    requires
        bits < 4,
        params.corner == corner_of(bits),
        instance.width <= u32::MAX,
        instance.height() <= u32::MAX,
        i64::MIN + 2 * u32::MAX <= curs <= i64::MAX - 2 * u32::MAX,
        i64::MIN + u32::MAX <= t <= i64::MAX - u32::MAX,
    ensures
        ({
            let (x, y) = origin_of(params, instance, curs, t);
            &&& !params.transposed && (bits == 1 || bits == 3) ==> y == t
            &&& !params.transposed && (bits == 0 || bits == 2) ==> y + instance.height() - 1 == t
            &&& params.transposed && (bits == 0 || bits == 1) ==> x == t
            &&& params.transposed && (bits == 2 || bits == 3) ==> x + instance.width - 1 == t
        }),
{
}

/// Law: placing a symbol that is not refined draws it where it begins and moves
/// on to its far edge.
pub proof fn placing_draws_the_symbol<V: Values>(
    w: WalkV<V::State>,
    params: WalkParams,
    symbols: Seq<BitmapV>,
    curs: int,
    strip_t: int,
    id: u32,
    after: V::State,
)
    requires
        params.refinement is None,
        params.strips == 1,
        V::next_id(w.values) == Step::<u32, V::State>::Ok((id, after)),
        id < symbols.len(),
        symbols[id as int].width <= u32::MAX,
        symbols[id as int].height() <= u32::MAX,
        i64::MIN + 2 * u32::MAX <= curs <= i64::MAX - 2 * u32::MAX,
        i64::MIN <= strip_t <= i64::MAX,
    ensures
        placed::<V>(w, params, symbols, curs, strip_t) matches Ok((end, next)) ==> ({
            let symbol = symbols[id as int];
            let (x, y) = origin_of(params, symbol, curs, strip_t);
            &&& !params.transposed ==> end == curs + symbol.width - 1
            &&& params.transposed ==> end == curs + symbol.height() - 1
            &&& next.values == after
            &&& i32::MIN <= x <= i32::MAX && i32::MIN <= y <= i32::MAX ==> next.region
                == bitmap::drawn(w.region, symbol, x, y, params.comb_op)
        }),
{
}

/// Law: the next instance of a strip begins as far behind the far edge of the
/// one before as its gap and the offset of the region say, and the strip ends
/// with the out-of-band mark or when all instances are placed.
pub proof fn instances_follow_their_gap<V: Values>(
    w: WalkV<V::State>,
    params: WalkParams,
    symbols: Seq<BitmapV>,
    curs: int,
    strip_t: int,
    count: int,
    end: int,
    next: WalkV<V::State>,
    gap: Option<i32>,
    after: V::State,
)
    requires
        0 <= count < params.instances,
        placed::<V>(w, params, symbols, curs, strip_t) == Step::<int, WalkV<V::State>>::Ok(
            (end, next),
        ),
        V::next_value(next.values, Field::DeltaS) == Step::<Option<i32>, V::State>::Ok(
            (gap, after),
        ),
        i64::MIN + 0x2_0000_0000 <= end <= i64::MAX - 0x2_0000_0000,
    ensures
        ({
            let rest = WalkV { values: after, region: next.region, left: next.left };
            let out = strip_from::<V>(w, params, symbols, curs, strip_t, count);
            match gap {
                Some(gap) => if count + 1 < params.instances {
                    out == strip_from::<V>(
                        rest,
                        params,
                        symbols,
                        end + gap + params.ds_offset,
                        strip_t,
                        count + 1,
                    )
                } else {
                    out == Step::<int, WalkV<V::State>>::Ok((count + 1, rest))
                },
                None => out == Step::<int, WalkV<V::State>>::Ok((count + 1, rest)),
            }
        }),
{
}

/// Law: a strip lies as many strip heights below the one before as its offset
/// says, and its first instance begins as far behind the first one of the strip
/// before as is written.
pub proof fn strips_follow_their_offsets<V: Values>(
    w: WalkV<V::State>,
    params: WalkParams,
    symbols: Seq<BitmapV>,
    strip_t: int,
    first_s: int,
    count: int,
    delta: i32,
    first: i32,
    a: V::State,
    b: V::State,
    more: int,
    next: WalkV<V::State>,
)
    requires
        0 <= count < params.instances,
        1 <= params.strips <= 8,
        i64::MIN + 0x8_0000_0000 <= strip_t <= i64::MAX - 0x8_0000_0000,
        i64::MIN + 0x1_0000_0000 <= first_s <= i64::MAX - 0x1_0000_0000,
        V::next_value(w.values, Field::DeltaT) == Step::<Option<i32>, V::State>::Ok(
            (Some(delta), a),
        ),
        V::next_value(a, Field::FirstS) == Step::<Option<i32>, V::State>::Ok((Some(first), b)),
        strip_from::<V>(
            WalkV { values: b, region: w.region, left: w.left },
            params,
            symbols,
            first_s + first,
            strip_t + delta * params.strips,
            count,
        ) == Step::<int, WalkV<V::State>>::Ok((more, next)),
    ensures
        strips_from::<V>(w, params, symbols, strip_t, first_s, count) == strips_from::<V>(
            next,
            params,
            symbols,
            strip_t + delta * params.strips,
            first_s + first,
            more,
        ),
{
    assert(-0x8000_0000 * 8 <= delta * params.strips <= 0x8000_0000 * 8) by (nonlinear_arith)
        requires
            -0x8000_0000 <= delta <= 0x7fff_ffff,
            1 <= params.strips <= 8,
    ;
    assert(sat(delta * params.strips) == delta * params.strips);
    assert(sat(strip_t + delta * params.strips) == strip_t + delta * params.strips);
    assert(sat(first_s + first) == first_s + first);
    strips_are_bounded::<V>(
        w.moved(b, w.left),
        params,
        symbols,
        first_s + first,
        strip_t + delta * params.strips,
        count,
    );
}

/// Law: the first offset of a region counts strips upwards, and the first
/// instance begins where its strip says.
pub proof fn regions_start_above<V: Values>(
    w: WalkV<V::State>,
    params: WalkParams,
    symbols: Seq<BitmapV>,
    initial: i32,
    a: V::State,
)
    requires
        1 <= params.strips <= 8,
        V::next_value(w.values, Field::DeltaT) == Step::<Option<i32>, V::State>::Ok(
            (Some(initial), a),
        ),
    ensures
        walked::<V>(w, params, symbols) == strips_from::<V>(
            WalkV { values: a, region: w.region, left: w.left },
            params,
            symbols,
            -(initial * params.strips),
            0,
            0,
        ),
{
    assert(-0x8000_0000 * 8 <= initial * params.strips <= 0x8000_0000 * 8) by (nonlinear_arith)
        requires
            -0x8000_0000 <= initial <= 0x7fff_ffff,
            1 <= params.strips <= 8,
    ;
}

/// Law: a refined instance is larger than its symbol by the two sizes that are
/// written, and its reference lies half of each further, rounded down, by the two
/// offsets that are written.
pub proof fn refined_instances_grow_as_written<V: Values>(
    s: V::State,
    params: WalkParams,
    template: RefinementParams,
    symbol: BitmapV,
    left: nat,
    flag: i32,
    a: V::State,
    rdw: i32,
    rdh: i32,
    rdx: i32,
    rdy: i32,
    b: V::State,
    half_w: int,
    half_h: int,
)
    requires
        params.refinement == Some(template),
        flag != 0,
        V::next_value(s, Field::RefineFlag) == Step::<Option<i32>, V::State>::Ok((Some(flag), a)),
        deltas_of::<V>(a) == Step::<(i32, i32, i32, i32), V::State>::Ok(((rdw, rdh, rdx, rdy), b)),
        2 * half_w <= rdw < 2 * half_w + 2,
        2 * half_h <= rdh < 2 * half_h + 2,
        0 <= symbol.width + rdw <= u32::MAX,
        0 <= symbol.height() + rdh <= u32::MAX,
        i32::MIN <= half_w + rdx <= i32::MAX,
        i32::MIN <= half_h + rdy <= i32::MAX,
    ensures
        refinement_at::<V>(s, params, symbol, left) == (match V::next_refined(
            b,
            template,
            ReferenceV { bitmap: symbol, dx: half_w + rdx, dy: half_h + rdy },
            (symbol.width + rdw) as nat,
            (symbol.height() + rdh) as nat,
            left,
        ) {
            Err(e) => Err(e),
            Ok((image, after)) => Ok((Some(image), after)),
        }),
{
}

/// Law: the four values of a refinement are read in the order width, height, x
/// and y, each in its own field.
pub proof fn refinement_values_come_in_order<V: Values>(
    s: V::State,
    rdw: i32,
    a: V::State,
    rdh: i32,
    b: V::State,
    rdx: i32,
    c: V::State,
    rdy: i32,
    d: V::State,
)
    requires
        V::next_value(s, Field::RefineWidth) == Step::<Option<i32>, V::State>::Ok((Some(rdw), a)),
        V::next_value(a, Field::RefineHeight) == Step::<Option<i32>, V::State>::Ok((Some(rdh), b)),
        V::next_value(b, Field::RefineX) == Step::<Option<i32>, V::State>::Ok((Some(rdx), c)),
        V::next_value(c, Field::RefineY) == Step::<Option<i32>, V::State>::Ok((Some(rdy), d)),
    ensures
        deltas_of::<V>(s) == Step::<(i32, i32, i32, i32), V::State>::Ok(((rdw, rdh, rdx, rdy), d)),
{
}

} // verus!
