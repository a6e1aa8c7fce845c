//! Bi-level bitmaps and how one is combined with another.

use crate::filters::jbig2::{FaultV, Jbig2Error, Outcome};
use vstd::prelude::*;

verus! {

/// How the pixels of one bitmap combine with those already there.
#[derive(Debug, Clone, Copy, PartialEq, Eq, Structural)]
pub enum CombOp {
    Or,
    And,
    Xor,
    Xnor,
    Replace,
}

/// The operator that a field names.
pub open spec fn comb_op_of(bits: u8) -> Outcome<CombOp> {
    if bits == 0 {
        Ok(CombOp::Or)
    } else if bits == 1 {
        Ok(CombOp::And)
    } else if bits == 2 {
        Ok(CombOp::Xor)
    } else if bits == 3 {
        Ok(CombOp::Xnor)
    } else if bits == 4 {
        Ok(CombOp::Replace)
    } else {
        Err(FaultV::Malformed("reserved combination operator"@))
    }
}

/// What a pixel becomes that is combined with another.
pub open spec fn combined(op: CombOp, old_pixel: u8, new_pixel: u8) -> u8 {
    let value = match op {
        CombOp::Or => old_pixel == 1 || new_pixel == 1,
        CombOp::And => old_pixel == 1 && new_pixel == 1,
        CombOp::Xor => old_pixel != new_pixel,
        CombOp::Xnor => old_pixel == new_pixel,
        CombOp::Replace => new_pixel == 1,
    };
    if value {
        1
    } else {
        0
    }
}

impl CombOp {
    /// The operator that a field names.
    pub fn from_bits(bits: u8) -> (out: Result<CombOp, Jbig2Error>)
        ensures
            match out {
                Ok(op) => comb_op_of(bits) == Outcome::<CombOp>::Ok(op),
                Err(e) => comb_op_of(bits) == Outcome::<CombOp>::Err(e@),
            },
    {
        if bits == 0 {
            Ok(CombOp::Or)
        } else if bits == 1 {
            Ok(CombOp::And)
        } else if bits == 2 {
            Ok(CombOp::Xor)
        } else if bits == 3 {
            Ok(CombOp::Xnor)
        } else if bits == 4 {
            Ok(CombOp::Replace)
        } else {
            Err(Jbig2Error::Malformed("reserved combination operator"))
        }
    }

    /// What a pixel becomes that is combined with another.
    fn apply(self, old_pixel: u8, new_pixel: u8) -> (out: u8)
        ensures
            out == combined(self, old_pixel, new_pixel),
    {
        let value = match self {
            CombOp::Or => old_pixel == 1 || new_pixel == 1,
            CombOp::And => old_pixel == 1 && new_pixel == 1,
            CombOp::Xor => old_pixel != new_pixel,
            CombOp::Xnor => old_pixel == new_pixel,
            CombOp::Replace => new_pixel == 1,
        };
        if value {
            1
        } else {
            0
        }
    }
}

/// A bitmap of pixels that are 0 or 1.
#[derive(Debug, PartialEq, Eq)]
pub struct Bitmap {
    width: u32,
    rows: Vec<Vec<u8>>,
}

/// What a bitmap is: its width and its rows from the top.
#[verifier::ext_equal]
pub struct BitmapV {
    pub width: nat,
    pub rows: Seq<Seq<u8>>,
}

impl BitmapV {
    /// How many rows there are.
    pub open spec fn height(self) -> nat {
        self.rows.len()
    }

    /// Whether there is a pixel at (x, y).
    pub open spec fn covers(self, x: int, y: int) -> bool {
        0 <= x < self.width && 0 <= y < self.rows.len()
    }

    /// The pixel at (x, y), 0 outside the bitmap.
    pub open spec fn pixel(self, x: int, y: int) -> u8 {
        if self.covers(x, y) {
            self.rows[y][x]
        } else {
            0
        }
    }

    /// Whether the rows fit the width and hold only 0 and 1.
    pub open spec fn well_formed(self) -> bool {
        &&& self.width <= u32::MAX
        &&& self.rows.len() <= u32::MAX
        &&& forall|y: int|
            0 <= y < self.rows.len() ==> (#[trigger] self.rows[y]).len() == self.width
        &&& forall|x: int, y: int|
            0 <= y < self.rows.len() && 0 <= x < self.width ==> #[trigger] self.rows[y][x] <= 1
    }
}

/// The rows of a bitmap.
pub open spec fn rows_view(rows: Seq<Vec<u8>>) -> Seq<Seq<u8>> {
    Seq::new(rows.len(), |y: int| rows[y]@)
}

/// A bitmap of one pixel value throughout.
pub open spec fn filled_with(width: nat, height: nat, pixel: u8) -> BitmapV {
    BitmapV { width, rows: Seq::new(height, |y: int| Seq::new(width, |x: int| pixel)) }
}

/// A bitmap with one pixel changed.
pub open spec fn with_pixel(b: BitmapV, x: int, y: int, pixel: u8) -> BitmapV {
    BitmapV { width: b.width, rows: b.rows.update(y, b.rows[y].update(x, pixel)) }
}

/// A bitmap with another drawn into it, the other's top-left pixel at (dx, dy);
/// what falls outside is left out.
pub open spec fn drawn(b: BitmapV, other: BitmapV, dx: int, dy: int, op: CombOp) -> BitmapV {
    BitmapV {
        width: b.width,
        rows: Seq::new(
            b.rows.len(),
            |y: int|
                Seq::new(
                    b.width,
                    |x: int|
                        if other.covers(x - dx, y - dy) {
                            combined(op, b.rows[y][x], other.rows[y - dy][x - dx])
                        } else {
                            b.rows[y][x]
                        },
                ),
        ),
    }
}

impl View for Bitmap {
    type V = BitmapV;

    closed spec fn view(&self) -> BitmapV {
        BitmapV { width: self.width as nat, rows: rows_view(self.rows@) }
    }
}

/// A copy of a row of pixels.
fn clone_row(row: &Vec<u8>) -> (out: Vec<u8>)
    ensures
        out@ == row@,
{
    let out = row.clone();
    assert(out@ =~= row@);
    out
}

impl Bitmap {
    #[verifier::type_invariant]
    spec fn valid(self) -> bool {
        (BitmapV { width: self.width as nat, rows: rows_view(self.rows@) }).well_formed()
    }

    /// A bitmap of this size with every pixel 0.
    pub fn new(width: u32, height: u32) -> (out: Bitmap)
        ensures
            out@ == filled_with(width as nat, height as nat, 0),
            out@.well_formed(),
    {
        Bitmap::filled(width, height, 0)
    }

    /// A bitmap of this size with every pixel `pixel`.
    pub fn filled(width: u32, height: u32, pixel: u8) -> (out: Bitmap)
        requires
            pixel <= 1,
        ensures
            out@ == filled_with(width as nat, height as nat, pixel),
            out@.well_formed(),
    {
        let mut row: Vec<u8> = Vec::new();
        let mut x: u32 = 0;
        while x < width
            invariant
                x <= width,
                row@ == Seq::new(x as nat, |i: int| pixel),
            decreases width - x,
        {
            row.push(pixel);
            assert(row@ =~= Seq::new((x + 1) as nat, |i: int| pixel));
            x += 1;
        }
        let ghost one = row@;
        let mut rows: Vec<Vec<u8>> = Vec::new();
        let mut y: u32 = 0;
        while y < height
            invariant
                y <= height,
                one == Seq::new(width as nat, |i: int| pixel),
                row@ == one,
                rows@.len() == y,
                forall|j: int| 0 <= j < y ==> (#[trigger] rows@[j])@ == one,
            decreases height - y,
        {
            rows.push(clone_row(&row));
            y += 1;
        }
        proof {
            assert forall|j: int| 0 <= j < rows_view(rows@).len() implies #[trigger] rows_view(
                rows@,
            )[j] == one by {
                assert(rows@[j]@ == one);
            }
        }
        let out = Bitmap { width, rows };
        assert(out@ =~= filled_with(width as nat, height as nat, pixel));
        out
    }

    /// How many pixels a row has.
    pub fn width(&self) -> (out: u32)
        ensures
            out == self@.width,
            self@.well_formed(),
    {
        proof {
            use_type_invariant(self);
        }
        self.width
    }

    /// How many rows there are.
    pub fn height(&self) -> (out: u32)
        ensures
            out == self@.height(),
            self@.well_formed(),
    {
        proof {
            use_type_invariant(self);
        }
        self.rows.len() as u32
    }

    /// The pixel at (x, y), 0 outside the bitmap.
    pub fn get(&self, x: i64, y: i64) -> (out: u8)
        ensures
            out == self@.pixel(x as int, y as int),
            out <= 1,
    {
        proof {
            use_type_invariant(self);
        }
        let height: i64 = self.rows.len() as i64;
        if 0 <= x && x < self.width as i64 && 0 <= y && y < height {
            assert(self@.rows[y as int] == self.rows@[y as int]@);
            let row = &self.rows[y as usize];
            let out: u8 = row[x as usize];
            assert(out == self@.rows[y as int][x as int]);
            out
        } else {
            0
        }
    }

    /// Sets the pixel at (x, y).
    pub fn set(&mut self, x: u32, y: u32, pixel: u8)
        requires
            old(self)@.covers(x as int, y as int),
            pixel <= 1,
        ensures
            final(self)@ == with_pixel(old(self)@, x as int, y as int, pixel),
            final(self)@.well_formed(),
    {
        proof {
            use_type_invariant(&*self);
        }
        let ghost before = self@;
        let mut rows: Vec<Vec<u8>> = Vec::new();
        std::mem::swap(&mut rows, &mut self.rows);
        let ghost taken = rows@;
        let mut row: Vec<u8> = Vec::new();
        std::mem::swap(&mut row, &mut rows[y as usize]);
        assert(row@ == before.rows[y as int]);
        row.set(x as usize, pixel);
        std::mem::swap(&mut row, &mut rows[y as usize]);
        proof {
            let after = with_pixel(before, x as int, y as int, pixel);
            assert(rows_view(rows@) =~= after.rows);
            assert forall|j: int| 0 <= j < after.rows.len() implies (
            #[trigger] after.rows[j]).len() == after.width by {
                assert(before.rows[j].len() == before.width);
            }
            assert forall|i: int, j: int|
                0 <= j < after.rows.len() && 0 <= i < after.width implies #[trigger] after.rows[j][i]
                <= 1 by {
                assert(before.rows[j][i] <= 1);
            }
        }
        self.rows = rows;
    }

    /// Draws `other` into the bitmap, its top-left pixel at (dx, dy); what
    /// falls outside is clipped away.
    pub fn combine(&mut self, other: &Bitmap, dx: i32, dy: i32, op: CombOp)
        ensures
            final(self)@ == drawn(old(self)@, other@, dx as int, dy as int, op),
            final(self)@.well_formed(),
    {
        proof {
            use_type_invariant(&*self);
            use_type_invariant(other);
        }
        let ghost before = self@;
        let ghost src = other@;
        let ghost after = drawn(before, src, dx as int, dy as int, op);
        let width: u32 = self.width;
        let mut rows: Vec<Vec<u8>> = Vec::new();
        std::mem::swap(&mut rows, &mut self.rows);
        let height: usize = rows.len();
        let mut sy: usize = 0;
        assert(rows_view(rows@) == before.rows);
        while sy < other.rows.len()
            invariant
                sy <= other.rows@.len(),
                other@ == src,
                src.well_formed(),
                before.well_formed(),
                width == before.width,
                height == before.rows.len(),
                rows@.len() == height,
                after == drawn(before, src, dx as int, dy as int, op),
                forall|y: int|
                    0 <= y < height ==> #[trigger] rows@[y]@ == if dy <= y < dy + sy {
                        after.rows[y]
                    } else {
                        before.rows[y]
                    },
            decreases other.rows@.len() - sy,
        {
            let at: i64 = dy as i64 + sy as i64;
            if 0 <= at && at < height as i64 {
                let y: usize = at as usize;
                let mut row: Vec<u8> = Vec::new();
                std::mem::swap(&mut row, &mut rows[y]);
                let ghost blank = rows@;
                assert(row@ == before.rows[y as int]);
                assert(src.rows[sy as int] == other.rows@[sy as int]@);
                draw_row(&mut row, width, &other.rows[sy], dx, op);
                assert(row@ =~= after.rows[y as int]);
                std::mem::swap(&mut row, &mut rows[y]);
            }
            sy += 1;
        }
        proof {
            assert forall|y: int| 0 <= y < height implies #[trigger] rows@[y]@
                == after.rows[y] by {
                if !(dy <= y < dy + sy) {
                    assert(after.rows[y] =~= before.rows[y]);
                }
            }
            assert(rows_view(rows@) =~= after.rows);
            assert forall|i: int, j: int|
                0 <= j < after.rows.len() && 0 <= i < after.width implies #[trigger] after.rows[j][i]
                <= 1 by {
                assert(before.rows[j][i] <= 1);
            }
        }
        self.rows = rows;
    }
}

/// Draws a row into another of the given width, its first pixel at `dx`.
fn draw_row(row: &mut Vec<u8>, width: u32, other: &Vec<u8>, dx: i32, op: CombOp)
    requires
        old(row)@.len() == width,
        other@.len() <= u32::MAX,
    ensures
        final(row)@ == Seq::new(
            width as nat,
            |x: int|
                if 0 <= x - dx < other@.len() {
                    combined(op, old(row)@[x], other@[x - dx])
                } else {
                    old(row)@[x]
                },
        ),
{
    let ghost before = row@;
    let mut sx: usize = 0;
    while sx < other.len()
        invariant
            sx <= other@.len() <= u32::MAX,
            before.len() == width,
            row@.len() == width,
            forall|x: int|
                0 <= x < width ==> #[trigger] row@[x] == if 0 <= x - dx < sx {
                    combined(op, before[x], other@[x - dx])
                } else {
                    before[x]
                },
        decreases other@.len() - sx,
    {
        let at: i64 = dx as i64 + sx as i64;
        if 0 <= at && at < width as i64 {
            let x: usize = at as usize;
            let value: u8 = op.apply(row[x], other[sx]);
            row.set(x, value);
        }
        sx += 1;
    }
    assert(row@ =~= Seq::new(
        width as nat,
        |x: int|
            if 0 <= x - dx < other@.len() {
                combined(op, before[x], other@[x - dx])
            } else {
                before[x]
            },
    ));
}

impl Clone for Bitmap {
    fn clone(&self) -> (out: Bitmap)
        ensures
            out@ == self@,
    {
        proof {
            use_type_invariant(self);
        }
        let mut rows: Vec<Vec<u8>> = Vec::new();
        let mut y: usize = 0;
        while y < self.rows.len()
            invariant
                y <= self.rows@.len(),
                rows@.len() == y,
                forall|j: int| 0 <= j < y ==> (#[trigger] rows@[j])@ == self.rows@[j]@,
            decreases self.rows@.len() - y,
        {
            rows.push(clone_row(&self.rows[y]));
            y += 1;
        }
        assert(rows_view(rows@) =~= rows_view(self.rows@));
        Bitmap { width: self.width, rows }
    }
}

/// Drawing changes nothing outside the other bitmap's rectangle, and inside it
/// every pixel is combined with the one that lands on it.
pub proof fn drawing_is_local(
    b: BitmapV,
    other: BitmapV,
    dx: int,
    dy: int,
    op: CombOp,
    x: int,
    y: int,
)
    requires
        b.well_formed(),
        b.covers(x, y),
    ensures
        drawn(b, other, dx, dy, op).pixel(x, y) == (if other.covers(x - dx, y - dy) {
            combined(op, b.pixel(x, y), other.pixel(x - dx, y - dy))
        } else {
            b.pixel(x, y)
        }),
{
}

/// Drawing with OR twice at one place is drawing once.
pub proof fn drawing_or_is_idempotent(b: BitmapV, other: BitmapV, dx: int, dy: int)
    requires
        b.well_formed(),
    ensures
        drawn(drawn(b, other, dx, dy, CombOp::Or), other, dx, dy, CombOp::Or) == drawn(
            b,
            other,
            dx,
            dy,
            CombOp::Or,
        ),
{
    let once = drawn(b, other, dx, dy, CombOp::Or);
    let twice = drawn(once, other, dx, dy, CombOp::Or);
    assert forall|y: int| 0 <= y < once.rows.len() implies twice.rows[y] =~= once.rows[y] by {
        assert forall|x: int| 0 <= x < once.width implies twice.rows[y][x] == once.rows[y][x] by {
            assert(b.rows[y][x] <= 1);
        }
    }
    assert(twice.rows =~= once.rows);
}

/// Law: what drawing makes of a pixel, operator by operator. With OR it is
/// black where either bitmap is black, with XOR where exactly one of them is;
/// the pixels around the other bitmap count as white there. Under the other
/// bitmap it is, with AND, black where both are, with XNOR where both agree,
/// and with REPLACE what the other bitmap has; around it nothing changes.
pub proof fn drawn_pixels_follow_the_operator(
    b: BitmapV,
    other: BitmapV,
    dx: int,
    dy: int,
    x: int,
    y: int,
)
    requires
        b.well_formed(),
        other.well_formed(),
        b.covers(x, y),
    ensures
        ({
            let below = b.pixel(x, y) == 1;
            let above = other.pixel(x - dx, y - dy) == 1;
            let under = other.covers(x - dx, y - dy);
            &&& (drawn(b, other, dx, dy, CombOp::Or).pixel(x, y) == 1) == (below || above)
            &&& (drawn(b, other, dx, dy, CombOp::Xor).pixel(x, y) == 1) == (below != above)
            &&& under ==> (drawn(b, other, dx, dy, CombOp::And).pixel(x, y) == 1) == (below
                && above)
            &&& under ==> (drawn(b, other, dx, dy, CombOp::Xnor).pixel(x, y) == 1) == (below
                == above)
            &&& under ==> (drawn(b, other, dx, dy, CombOp::Replace).pixel(x, y) == 1) == above
            &&& forall|op: CombOp|
                #![trigger drawn(b, other, dx, dy, op)]
                {
                    &&& drawn(b, other, dx, dy, op).pixel(x, y) <= 1
                    &&& !under ==> drawn(b, other, dx, dy, op).pixel(x, y) == b.pixel(x, y)
                }
        }),
{
    assert(b.rows[y][x] <= 1);
    if other.covers(x - dx, y - dy) {
        assert(other.rows[y - dy][x - dx] <= 1);
    }
}

/// Law: drawing leaves the size of a bitmap as it is, and its pixels 0 or 1.
pub proof fn drawing_keeps_the_size(b: BitmapV, other: BitmapV, dx: int, dy: int, op: CombOp)
    requires
        b.well_formed(),
    ensures
        drawn(b, other, dx, dy, op).width == b.width,
        drawn(b, other, dx, dy, op).height() == b.height(),
        drawn(b, other, dx, dy, op).well_formed(),
{
    let out = drawn(b, other, dx, dy, op);
    assert forall|x: int, y: int|
        0 <= y < out.rows.len() && 0 <= x < out.width implies #[trigger] out.rows[y][x] <= 1 by {
        assert(b.rows[y][x] <= 1);
    }
}

/// Law: drawing with OR never clears a pixel, neither one that was there nor
/// one that is drawn.
pub proof fn drawing_or_never_clears(b: BitmapV, other: BitmapV, dx: int, dy: int, x: int, y: int)
    requires
        b.well_formed(),
        other.well_formed(),
        b.covers(x, y),
    ensures
        b.pixel(x, y) == 1 ==> drawn(b, other, dx, dy, CombOp::Or).pixel(x, y) == 1,
        other.pixel(x - dx, y - dy) == 1 ==> drawn(b, other, dx, dy, CombOp::Or).pixel(x, y) == 1,
{
    drawn_pixels_follow_the_operator(b, other, dx, dy, x, y);
}

/// Two bitmaps are one when they have the same size and the same pixels.
proof fn lemma_same_pixels(a: BitmapV, b: BitmapV)
    requires
        a.well_formed(),
        b.well_formed(),
        a.width == b.width,
        a.height() == b.height(),
        forall|x: int, y: int| a.covers(x, y) ==> #[trigger] a.pixel(x, y) == b.pixel(x, y),
    ensures
        a == b,
{
    assert forall|y: int| 0 <= y < a.rows.len() implies a.rows[y] =~= b.rows[y] by {
        assert forall|x: int| 0 <= x < a.width implies a.rows[y][x] == b.rows[y][x] by {
            assert(a.covers(x, y));
            assert(a.pixel(x, y) == b.pixel(x, y));
        }
    }
    assert(a.rows =~= b.rows);
}

/// Law: two bitmaps drawn with OR give the same in either order.
pub proof fn drawing_or_in_either_order(
    b: BitmapV,
    first: BitmapV,
    dx: int,
    dy: int,
    second: BitmapV,
    ex: int,
    ey: int,
)
    requires
        b.well_formed(),
        first.well_formed(),
        second.well_formed(),
    ensures
        drawn(drawn(b, first, dx, dy, CombOp::Or), second, ex, ey, CombOp::Or) == drawn(
            drawn(b, second, ex, ey, CombOp::Or),
            first,
            dx,
            dy,
            CombOp::Or,
        ),
{
    let one = drawn(b, first, dx, dy, CombOp::Or);
    let two = drawn(b, second, ex, ey, CombOp::Or);
    drawing_keeps_the_size(b, first, dx, dy, CombOp::Or);
    drawing_keeps_the_size(b, second, ex, ey, CombOp::Or);
    drawing_keeps_the_size(one, second, ex, ey, CombOp::Or);
    drawing_keeps_the_size(two, first, dx, dy, CombOp::Or);
    let a = drawn(one, second, ex, ey, CombOp::Or);
    let c = drawn(two, first, dx, dy, CombOp::Or);
    assert forall|x: int, y: int| a.covers(x, y) implies #[trigger] a.pixel(x, y) == c.pixel(
        x,
        y,
    ) by {
        drawn_pixels_follow_the_operator(b, first, dx, dy, x, y);
        drawn_pixels_follow_the_operator(b, second, ex, ey, x, y);
        drawn_pixels_follow_the_operator(one, second, ex, ey, x, y);
        drawn_pixels_follow_the_operator(two, first, dx, dy, x, y);
    }
    lemma_same_pixels(a, c);
}

/// Law: drawing with XOR a second time takes away what the first time drew.
pub proof fn drawing_xor_twice_changes_nothing(b: BitmapV, other: BitmapV, dx: int, dy: int)
    requires
        b.well_formed(),
        other.well_formed(),
    ensures
        drawn(drawn(b, other, dx, dy, CombOp::Xor), other, dx, dy, CombOp::Xor) == b,
{
    let once = drawn(b, other, dx, dy, CombOp::Xor);
    drawing_keeps_the_size(b, other, dx, dy, CombOp::Xor);
    drawing_keeps_the_size(once, other, dx, dy, CombOp::Xor);
    let twice = drawn(once, other, dx, dy, CombOp::Xor);
    assert forall|x: int, y: int| twice.covers(x, y) implies #[trigger] twice.pixel(x, y)
        == b.pixel(x, y) by {
        drawn_pixels_follow_the_operator(b, other, dx, dy, x, y);
        drawn_pixels_follow_the_operator(once, other, dx, dy, x, y);
        assert(b.rows[y][x] <= 1);
    }
    lemma_same_pixels(twice, b);
}

/// Law: the number in a combination field says what drawing makes of a black
/// or white pixel under a black or white one: OR for 0, AND for 1, XOR for 2,
/// XNOR for 3, REPLACE for 4. Larger numbers are reserved.
pub proof fn combination_fields_name_their_operator(
    bits: u8,
    b: BitmapV,
    other: BitmapV,
    dx: int,
    dy: int,
    x: int,
    y: int,
)
    requires
        b.well_formed(),
        other.well_formed(),
        b.covers(x, y),
        other.covers(x - dx, y - dy),
    ensures
        match comb_op_of(bits) {
            Ok(op) => {
                let below = b.pixel(x, y) == 1;
                let above = other.pixel(x - dx, y - dy) == 1;
                &&& bits <= 4
                &&& (drawn(b, other, dx, dy, op).pixel(x, y) == 1) == (if bits == 0 {
                    below || above
                } else if bits == 1 {
                    below && above
                } else if bits == 2 {
                    below != above
                } else if bits == 3 {
                    below == above
                } else {
                    above
                })
            },
            Err(_) => bits > 4,
        },
{
    drawn_pixels_follow_the_operator(b, other, dx, dy, x, y);
}

} // verus!
