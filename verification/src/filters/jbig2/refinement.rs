//! The refinement procedure: a bitmap decoded pixel by pixel against another
//! that it resembles.

use crate::filters::jbig2::bitmap;
use crate::filters::jbig2::bitmap::{Bitmap, BitmapV};
use crate::filters::jbig2::budget;
use crate::filters::jbig2::budget::Budget;
use crate::filters::jbig2::mq;
use crate::filters::jbig2::mq::{ContextV, MqContexts, MqDecoder, MqV};
use crate::filters::jbig2::reader::Reader;
use crate::filters::jbig2::{FaultV, Jbig2Error, Outcome, Step};
use vstd::prelude::*;

verus! {

/// How many contexts the refinement of bitmaps adapts.
pub const GR_CONTEXT_LEN: usize = 8192;

/// Which neighbours of a pixel choose its context: thirteen of them, two of
/// which the segment places, or ten fixed ones.
#[derive(Debug, Clone, Copy, PartialEq, Eq)]
pub struct RefinementParams {
    /// Whether the template of ten fixed pixels is used.
    pub fixed: bool,
    /// The first adaptive pixel, an offset within the bitmap being decoded.
    pub at: (i8, i8),
    /// The second adaptive pixel, an offset within the reference.
    pub reference_at: (i8, i8),
}

/// The bitmap a refinement refines, and where it lies under the one that is
/// decoded.
pub struct Reference<'a> {
    pub bitmap: &'a Bitmap,
    pub dx: i32,
    pub dy: i32,
}

/// A byte as a number with a sign.
pub open spec fn signed(byte: u8) -> i8 {
    if byte < 128 {
        byte as i8
    } else {
        (byte - 256) as i8
    }
}

/// The adaptive pixels at the front of what is left of a header; the fixed
/// template has none.
pub open spec fn refinement_at_of(left: Seq<u8>, fixed: bool) -> Step<RefinementParams, Seq<u8>> {
    if fixed {
        Ok(
            (
                RefinementParams {
                    fixed,
                    at: (-1 as i8, -1 as i8),
                    reference_at: (-1 as i8, -1 as i8),
                },
                left,
            ),
        )
    } else if left.len() >= 4 {
        Ok(
            (
                RefinementParams {
                    fixed,
                    at: (signed(left[0]), signed(left[1])),
                    reference_at: (signed(left[2]), signed(left[3])),
                },
                left.skip(4),
            ),
        )
    } else {
        Err((FaultV::Truncated, Seq::empty()))
    }
}

/// A byte as a number with a sign.
fn sign_extended(byte: u8) -> (out: i8)
    ensures
        out == signed(byte),
{
    if byte < 128 {
        byte as i8
    } else {
        (byte as i16 - 256) as i8
    }
}

/// Reads the adaptive pixels of the refinement template; the fixed template
/// has none.
pub fn parse_refinement_at(r: &mut Reader<'_>, fixed: bool) -> (out: Result<
    RefinementParams,
    Jbig2Error,
>)
    ensures
        match out {
            Ok(params) => refinement_at_of(old(r).left(), fixed) == Step::<
                RefinementParams,
                Seq<u8>,
            >::Ok((params, final(r).left())),
            Err(e) => refinement_at_of(old(r).left(), fixed) == Step::<
                RefinementParams,
                Seq<u8>,
            >::Err((e@, final(r).left())),
        },
{
    if fixed {
        return Ok(RefinementParams { fixed, at: (-1, -1), reference_at: (-1, -1) });
    }
    let ghost left = r.left();
    proof {
        assert(left.len() == 0 ==> left =~= Seq::<u8>::empty());
        assert(left.len() == 1 ==> left.skip(1) =~= Seq::<u8>::empty());
        assert(left.len() == 2 ==> left.skip(2) =~= Seq::<u8>::empty());
        assert(left.len() == 3 ==> left.skip(3) =~= Seq::<u8>::empty());
        assert(left.len() >= 2 ==> left.skip(1).skip(1) =~= left.skip(2));
        assert(left.len() >= 3 ==> left.skip(2).skip(1) =~= left.skip(3));
    }
    let x = r.u8()?;
    let y = r.u8()?;
    let reference_x = r.u8()?;
    let reference_y = r.u8()?;
    proof {
        assert(left.skip(1)[0] == left[1]);
        assert(left.skip(1).skip(1) =~= left.skip(2));
        assert(left.skip(2).skip(1) =~= left.skip(3));
        assert(left.skip(3).skip(1) =~= left.skip(4));
    }
    Ok(
        RefinementParams {
            fixed,
            at: (sign_extended(x), sign_extended(y)),
            reference_at: (sign_extended(reference_x), sign_extended(reference_y)),
        },
    )
}

/// What a refinement is decoded against.
#[verifier::ext_equal]
pub struct ReferenceV {
    pub bitmap: BitmapV,
    pub dx: int,
    pub dy: int,
}

impl<'a> View for Reference<'a> {
    type V = ReferenceV;

    open spec fn view(&self) -> ReferenceV {
        ReferenceV { bitmap: self.bitmap@, dx: self.dx as int, dy: self.dy as int }
    }
}

impl ReferenceV {
    /// The pixel of the reference under (x, y), moved by (i, j).
    pub open spec fn under(self, x: int, y: int, i: int, j: int) -> int {
        self.bitmap.pixel(x - self.dx + i, y - self.dy + j) as int
    }
}

/// The number of the context that the neighbours of (x, y) choose.
pub open spec fn context_of(
    params: RefinementParams,
    image: BitmapV,
    r: ReferenceV,
    x: int,
    y: int,
) -> int {
    let near = image.pixel(x - 1, y) + 2 * image.pixel(x + 1, y - 1) + 4 * image.pixel(x, y - 1);
    if params.fixed {
        near + 8 * image.pixel(x - 1, y - 1) + 16 * r.under(x, y, 1, 1) + 32 * r.under(x, y, 0, 1)
            + 64 * r.under(x, y, 1, 0) + 128 * r.under(x, y, 0, 0) + 256 * r.under(x, y, -1, 0)
            + 512 * r.under(x, y, 0, -1)
    } else {
        near + 8 * image.pixel(x + params.at.0, y + params.at.1) + 16 * r.under(x, y, 1, 1) + 32
            * r.under(x, y, 0, 1) + 64 * r.under(x, y, -1, 1) + 128 * r.under(x, y, 1, 0) + 256
            * r.under(x, y, 0, 0) + 512 * r.under(x, y, -1, 0) + 1024 * r.under(x, y, 1, -1)
            + 2048 * r.under(x, y, 0, -1) + 4096 * r.under(
            x,
            y,
            params.reference_at.0 as int,
            params.reference_at.1 as int,
        )
    }
}

/// What a refinement works on: the decoder, the contexts and the bitmap as far
/// as it is decoded.
#[verifier::ext_equal]
pub struct RefiningV {
    pub dec: MqV,
    pub cxs: Seq<ContextV>,
    pub image: BitmapV,
}

/// The refinement from the pixel (x, y) on, row by row.
pub open spec fn refined_from(
    s: RefiningV,
    params: RefinementParams,
    r: ReferenceV,
    width: int,
    height: int,
    x: int,
    y: int,
) -> RefiningV
    decreases height - y, width - x,
{
    if y >= height {
        s
    } else if x >= width {
        refined_from(s, params, r, width, height, 0, y + 1)
    } else {
        let (bit, dec, cxs) = mq::decision_at(
            s.dec,
            s.cxs,
            context_of(params, s.image, r, x, y),
        );
        let image = bitmap::with_pixel(s.image, x, y, bit);
        refined_from(RefiningV { dec, cxs, image }, params, r, width, height, x + 1, y)
    }
}

/// A refined bitmap of this size.
pub open spec fn refinement_of(
    dec: MqV,
    cxs: Seq<ContextV>,
    params: RefinementParams,
    r: ReferenceV,
    width: nat,
    height: nat,
) -> RefiningV {
    refined_from(
        RefiningV { dec, cxs, image: bitmap::filled_with(width, height, 0) },
        params,
        r,
        width as int,
        height as int,
        0,
        0,
    )
}

/// The number of the context that the neighbours of (x, y) choose.
fn context(params: &RefinementParams, image: &Bitmap, r: &Reference, x: u32, y: u32) -> (out: usize)
    ensures
        out == context_of(*params, image@, r@, x as int, y as int),
        out < GR_CONTEXT_LEN,
{
    let x: i64 = x as i64;
    let y: i64 = y as i64;
    let rx: i64 = x - r.dx as i64;
    let ry: i64 = y - r.dy as i64;
    let near: usize = image.get(x - 1, y) as usize + 2 * image.get(x + 1, y - 1) as usize + 4
        * image.get(x, y - 1) as usize;
    if params.fixed {
        near + 8 * image.get(x - 1, y - 1) as usize + 16 * r.bitmap.get(rx + 1, ry + 1) as usize
            + 32 * r.bitmap.get(rx, ry + 1) as usize + 64 * r.bitmap.get(rx + 1, ry) as usize + 128
            * r.bitmap.get(rx, ry) as usize + 256 * r.bitmap.get(rx - 1, ry) as usize + 512
            * r.bitmap.get(rx, ry - 1) as usize
    } else {
        near + 8 * image.get(x + params.at.0 as i64, y + params.at.1 as i64) as usize + 16
            * r.bitmap.get(rx + 1, ry + 1) as usize + 32 * r.bitmap.get(rx, ry + 1) as usize + 64
            * r.bitmap.get(rx - 1, ry + 1) as usize + 128 * r.bitmap.get(rx + 1, ry) as usize + 256
            * r.bitmap.get(rx, ry) as usize + 512 * r.bitmap.get(rx - 1, ry) as usize + 1024
            * r.bitmap.get(rx + 1, ry - 1) as usize + 2048 * r.bitmap.get(rx, ry - 1) as usize
            + 4096 * r.bitmap.get(
            rx + params.reference_at.0 as i64,
            ry + params.reference_at.1 as i64,
        ) as usize
    }
}

/// Decodes a bitmap of `width` by `height` pixels against its reference. The
/// bitmap is paid for from its size before any of it is decoded.
pub fn decode_refinement_region(
    dec: &mut MqDecoder,
    gr: &mut MqContexts,
    budget: &mut Budget,
    width: u32,
    height: u32,
    reference: &Reference,
    params: &RefinementParams,
) -> (out: Result<Bitmap, Jbig2Error>)
    requires
        old(gr)@.len() == GR_CONTEXT_LEN,
    ensures
        final(budget)@ <= old(budget)@,
        ({
            let paid = budget::charged(
                old(budget)@,
                budget::region_cost(width as nat, height as nat),
            );
            match out {
                Ok(image) => {
                    &&& paid == Outcome::<nat>::Ok(final(budget)@)
                    &&& (RefiningV { dec: final(dec)@, cxs: final(gr)@, image: image@ })
                        == refinement_of(
                        old(dec)@,
                        old(gr)@,
                        *params,
                        reference@,
                        width as nat,
                        height as nat,
                    )
                    &&& image@.well_formed()
                },
                Err(e) => {
                    &&& paid == Outcome::<nat>::Err(e@)
                    &&& final(budget)@ == old(budget)@
                    &&& final(dec)@ == old(dec)@
                    &&& final(gr)@ == old(gr)@
                },
            }
        }),
        final(gr)@.len() == GR_CONTEXT_LEN,
{
    budget.charge_region(width, height)?;
    let mut image = Bitmap::new(width, height);
    let ghost start = RefiningV { dec: dec@, cxs: gr@, image: image@ };
    let ghost whole = refined_from(
        start,
        *params,
        reference@,
        width as int,
        height as int,
        0,
        0,
    );
    let mut y: u32 = 0;
    while y < height
        invariant
            y <= height,
            gr@.len() == GR_CONTEXT_LEN,
            image@.width == width,
            image@.height() == height,
            image@.well_formed(),
            whole == refined_from(
                (RefiningV { dec: dec@, cxs: gr@, image: image@ }),
                *params,
                reference@,
                width as int,
                height as int,
                0,
                y as int,
            ),
        decreases height - y,
    {
        let mut x: u32 = 0;
        while x < width
            invariant
                x <= width,
                y < height,
                gr@.len() == GR_CONTEXT_LEN,
                image@.width == width,
                image@.height() == height,
                image@.well_formed(),
                whole == refined_from(
                    (RefiningV { dec: dec@, cxs: gr@, image: image@ }),
                    *params,
                    reference@,
                    width as int,
                    height as int,
                    x as int,
                    y as int,
                ),
            decreases width - x,
        {
            let at: usize = context(params, &image, reference, x, y);
            let bit: u8 = dec.decode(gr, at);
            image.set(x, y, bit);
            x += 1;
        }
        y += 1;
    }
    Ok(image)
}

/// The template pixels of the coded image and the reference around (x, y), of
/// the template with adjustable pixels or of the fixed one.
pub open spec fn template_pixels(
    params: RefinementParams,
    image: BitmapV,
    r: ReferenceV,
    x: int,
    y: int,
) -> Seq<u8> {
    let ref_x = x - r.dx;
    let ref_y = y - r.dy;
    let near = seq![image.pixel(x - 1, y), image.pixel(x + 1, y - 1), image.pixel(x, y - 1)];
    if params.fixed {
        near + seq![
            image.pixel(x - 1, y - 1),
            r.bitmap.pixel(ref_x + 1, ref_y + 1),
            r.bitmap.pixel(ref_x, ref_y + 1),
            r.bitmap.pixel(ref_x + 1, ref_y),
            r.bitmap.pixel(ref_x, ref_y),
            r.bitmap.pixel(ref_x - 1, ref_y),
            r.bitmap.pixel(ref_x, ref_y - 1),
        ]
    } else {
        near + seq![
            image.pixel(x + params.at.0, y + params.at.1),
            r.bitmap.pixel(ref_x + 1, ref_y + 1),
            r.bitmap.pixel(ref_x, ref_y + 1),
            r.bitmap.pixel(ref_x - 1, ref_y + 1),
            r.bitmap.pixel(ref_x + 1, ref_y),
            r.bitmap.pixel(ref_x, ref_y),
            r.bitmap.pixel(ref_x - 1, ref_y),
            r.bitmap.pixel(ref_x + 1, ref_y - 1),
            r.bitmap.pixel(ref_x, ref_y - 1),
            r.bitmap.pixel(ref_x + params.reference_at.0, ref_y + params.reference_at.1),
        ]
    }
}

/// The number whose binary digits are `pixels`, the lowest first.
spec fn packed(pixels: Seq<u8>) -> int
    decreases pixels.len(),
{
    if pixels.len() == 0 {
        0
    } else {
        pixels[0] + 2 * packed(pixels.skip(1))
    }
}

spec fn are_bits(pixels: Seq<u8>) -> bool {
    forall|i: int| 0 <= i < pixels.len() ==> #[trigger] pixels[i] <= 1
}

proof fn lemma_packed_apart(a: Seq<u8>, b: Seq<u8>)
    requires
        a.len() == b.len(),
        are_bits(a),
        are_bits(b),
        packed(a) == packed(b),
    ensures
        a == b,
    decreases a.len(),
{
    if a.len() > 0 {
        assert(a[0] <= 1 && b[0] <= 1);
        assert(forall|i: int| 0 <= i < a.skip(1).len() ==> #[trigger] a.skip(1)[i] == a[i + 1]);
        assert(forall|i: int| 0 <= i < b.skip(1).len() ==> #[trigger] b.skip(1)[i] == b[i + 1]);
        lemma_packed_apart(a.skip(1), b.skip(1));
        assert forall|i: int| 0 <= i < a.len() implies a[i] == b[i] by {
            if i > 0 {
                assert(a.skip(1)[i - 1] == b.skip(1)[i - 1]);
            }
        }
        assert(a =~= b);
    } else {
        assert(a =~= b);
    }
}

/// The first `n` digits of a number, and what is left of it.
proof fn lemma_unpacked(p: Seq<u8>, n: int)
    requires
        0 <= n < p.len(),
    ensures
        packed(p.skip(n)) == p[n] + 2 * packed(p.skip(n + 1)),
{
    assert(p.skip(n).skip(1) =~= p.skip(n + 1));
}

/// A context is the number its template pixels write.
proof fn lemma_context_packs(
    params: RefinementParams,
    image: BitmapV,
    r: ReferenceV,
    x: int,
    y: int,
)
    ensures
        context_of(params, image, r, x, y) == packed(template_pixels(params, image, r, x, y)),
{
    let p = template_pixels(params, image, r, x, y);
    assert(p.skip(0) =~= p);
    lemma_unpacked(p, 0);
    lemma_unpacked(p, 1);
    lemma_unpacked(p, 2);
    lemma_unpacked(p, 3);
    lemma_unpacked(p, 4);
    lemma_unpacked(p, 5);
    lemma_unpacked(p, 6);
    lemma_unpacked(p, 7);
    lemma_unpacked(p, 8);
    lemma_unpacked(p, 9);
    if !params.fixed {
        lemma_unpacked(p, 10);
        lemma_unpacked(p, 11);
        lemma_unpacked(p, 12);
        assert(packed(p.skip(13)) == 0);
    } else {
        assert(packed(p.skip(10)) == 0);
    }
}

proof fn lemma_template_bits(
    params: RefinementParams,
    image: BitmapV,
    r: ReferenceV,
    x: int,
    y: int,
)
    requires
        image.well_formed(),
        r.bitmap.well_formed(),
    ensures
        are_bits(template_pixels(params, image, r, x, y)),
{
    assert forall|i: int, j: int| #[trigger] image.pixel(i, j) <= 1 by {
        lemma_pixel_is_a_bit(image, i, j);
    }
    assert forall|i: int, j: int| #[trigger] r.bitmap.pixel(i, j) <= 1 by {
        lemma_pixel_is_a_bit(r.bitmap, i, j);
    }
}

proof fn lemma_pixel_is_a_bit(b: BitmapV, x: int, y: int)
    requires
        b.well_formed(),
    ensures
        b.pixel(x, y) <= 1,
{
    if b.covers(x, y) {
        assert(b.rows[y][x] <= 1);
    }
}

/// Law: two pixels are decoded in the same context exactly when their templates
/// look alike.
pub proof fn contexts_tell_templates_apart(
    params: RefinementParams,
    image: BitmapV,
    r: ReferenceV,
    x: int,
    y: int,
    other: BitmapV,
    u: int,
    v: int,
)
    requires
        image.well_formed(),
        other.well_formed(),
        r.bitmap.well_formed(),
    ensures
        context_of(params, image, r, x, y) == context_of(params, other, r, u, v)
            <==> template_pixels(params, image, r, x, y) == template_pixels(
            params,
            other,
            r,
            u,
            v,
        ),
{
    lemma_context_packs(params, image, r, x, y);
    lemma_context_packs(params, other, r, u, v);
    lemma_template_bits(params, image, r, x, y);
    lemma_template_bits(params, other, r, u, v);
    let a = template_pixels(params, image, r, x, y);
    let b = template_pixels(params, other, r, u, v);
    assert(a.len() == b.len());
    if packed(a) == packed(b) {
        lemma_packed_apart(a, b);
    }
}

/// Law: the adjustable pixels of a template are read as four signed bytes, the
/// coded image's first; the fixed template reads none.
pub proof fn adjustable_pixels_are_read_back(a: i8, b: i8, c: i8, d: i8, rest: Seq<u8>)
    ensures
        ({
            let bytes = seq![
                (a as int % 256) as u8,
                (b as int % 256) as u8,
                (c as int % 256) as u8,
                (d as int % 256) as u8,
            ];
            &&& refinement_at_of(bytes + rest, false) matches Ok((params, left)) && !params.fixed
                && params.at == (a, b) && params.reference_at == (c, d) && left == rest
        }),
        refinement_at_of(rest, true) matches Ok((params, left)) && params.fixed && left == rest,
{
    let bytes = seq![
        (a as int % 256) as u8,
        (b as int % 256) as u8,
        (c as int % 256) as u8,
        (d as int % 256) as u8,
    ];
    assert((bytes + rest).skip(4) =~= rest);
}

/// Law: every pixel of a refined bitmap is what the decision at its turn says, in
/// the context that the reference and the pixels before it give, and later
/// decisions leave it as it is; the turns go along the rows from the top.
pub proof fn every_pixel_is_decided_in_its_turn(
    s: RefiningV,
    params: RefinementParams,
    r: ReferenceV,
    width: int,
    height: int,
    x: int,
    y: int,
)
    requires
        0 <= x < width,
        0 <= y < height,
        sized(s.image, width, height),
    ensures
        ({
            let (bit, dec, cxs) = mq::decision_at(
                s.dec,
                s.cxs,
                context_of(params, s.image, r, x, y),
            );
            let image = bitmap::with_pixel(s.image, x, y, bit);
            let out = refined_from(s, params, r, width, height, x, y);
            &&& sized(out.image, width, height)
            &&& out.image.rows[y][x] == bit
            &&& forall|i: int, j: int|
                0 <= i < width && 0 <= j < height && (j < y || (j == y && i < x))
                    ==> #[trigger] out.image.rows[j][i] == s.image.rows[j][i]
            &&& x + 1 < width ==> out == refined_from(
                RefiningV { dec, cxs, image },
                params,
                r,
                width,
                height,
                x + 1,
                y,
            )
            &&& x + 1 == width && y + 1 < height ==> out == refined_from(
                RefiningV { dec, cxs, image },
                params,
                r,
                width,
                height,
                0,
                y + 1,
            )
            &&& x + 1 == width && y + 1 == height ==> out == (RefiningV { dec, cxs, image })
        }),
{
    let (bit, dec, cxs) = mq::decision_at(s.dec, s.cxs, context_of(params, s.image, r, x, y));
    let image = bitmap::with_pixel(s.image, x, y, bit);
    let next = RefiningV { dec, cxs, image };
    lemma_pixels_stay(next, params, r, width, height, x + 1, y);
    if x + 1 == width {
        assert(refined_from(next, params, r, width, height, x + 1, y) == refined_from(
            next,
            params,
            r,
            width,
            height,
            0,
            y + 1,
        ));
    }
    assert(image.rows[y][x] == bit);
}

/// Whether a bitmap has a size.
pub open spec fn sized(image: BitmapV, width: int, height: int) -> bool {
    &&& image.width == width
    &&& image.rows.len() == height
    &&& forall|j: int| 0 <= j < height ==> (#[trigger] image.rows[j]).len() == width
}

proof fn lemma_pixels_stay(
    s: RefiningV,
    params: RefinementParams,
    r: ReferenceV,
    width: int,
    height: int,
    x: int,
    y: int,
)
    requires
        0 <= x <= width,
        0 <= y <= height,
        sized(s.image, width, height),
    ensures
        ({
            let out = refined_from(s, params, r, width, height, x, y);
            &&& sized(out.image, width, height)
            &&& forall|i: int, j: int|
                0 <= i < width && 0 <= j < height && (j < y || (j == y && i < x))
                    ==> #[trigger] out.image.rows[j][i] == s.image.rows[j][i]
        }),
    decreases height - y, width - x,
{
    if y >= height {
    } else if x >= width {
        lemma_pixels_stay(s, params, r, width, height, 0, y + 1);
    } else {
        let (bit, dec, cxs) = mq::decision_at(s.dec, s.cxs, context_of(params, s.image, r, x, y));
        let image = bitmap::with_pixel(s.image, x, y, bit);
        lemma_pixels_stay(RefiningV { dec, cxs, image }, params, r, width, height, x + 1, y);
    }
}

} // verus!
