//! Predictor post-pass shared by Flate and LZW: 2 = TIFF horizontal
//! differencing (8-bit components only, otherwise pass-through); >= 10 =
//! PNG filters applied per row (None/Sub/Up/Average/Paeth) with
//! `bpp = max(1, colors*bpc/8)` and row length `ceil(colors*bpc*columns/8)`.

use crate::error::Result;
use crate::filters;
use crate::filters::int_parm;
use crate::lexer::copy_bytes;
use crate::object::{Dict, ObjectV};
use vstd::prelude::*;
use vstd::slice::slice_subrange;

verus! {

/// The distance of two integers.
pub open spec fn distance(a: int, b: int) -> int {
    if a < b {
        b - a
    } else {
        a - b
    }
}

/// Whichever of left, up and up-left is closest to `left + up - up_left`,
/// ties broken in that order.
pub open spec fn nearest_of(left: u8, up: u8, up_left: u8) -> u8 {
    let p = left + up - up_left;
    let a = distance(p, left as int);
    let b = distance(p, up as int);
    let c = distance(p, up_left as int);
    if a <= b && a <= c {
        left
    } else if b <= c {
        up
    } else {
        up_left
    }
}

/// What a PNG filter type predicts from the neighbours of a byte.
pub open spec fn predicted(ftype: u8, left: u8, up: u8, up_left: u8) -> u8 {
    if ftype == 1 {
        left
    } else if ftype == 2 {
        up
    } else if ftype == 3 {
        ((left + up) / 2) as u8
    } else if ftype == 4 {
        nearest_of(left, up, up_left)
    } else {
        0
    }
}

/// The byte `back` positions before `i`, zero before the start.
pub open spec fn byte_back(row: Seq<u8>, i: int, back: int) -> u8 {
    if i >= back {
        row[i - back]
    } else {
        0
    }
}

/// The sum of two bytes modulo 256.
pub open spec fn byte_sum(a: u8, b: u8) -> u8 {
    ((a + b) % 256) as u8
}

/// A row with the PNG filter undone: to every byte is added what the filter
/// predicts from the bytes already restored and the row above. A pixel of no
/// width has the byte itself, still to be restored, on its left.
pub open spec fn unfiltered(ftype: u8, row: Seq<u8>, prev: Seq<u8>, bpp: int) -> Seq<u8>
    decreases row.len(),
{
    if row.len() == 0 {
        Seq::empty()
    } else {
        let i = row.len() - 1;
        let done = unfiltered(ftype, row.drop_last(), prev, bpp);
        done.push(
            byte_sum(
                row[i],
                predicted(
                    ftype,
                    byte_back(done.push(row[i]), i, bpp),
                    prev[i],
                    byte_back(prev, i, bpp),
                ),
            ),
        )
    }
}

/// The rows from `pos` on with their PNG filters undone; `prev` is the row
/// above.
pub open spec fn png_restored(
    data: Seq<u8>,
    pos: int,
    prev: Seq<u8>,
    row_len: int,
    bpp: int,
) -> Seq<u8>
    decreases data.len() - pos,
{
    if !(0 <= pos < data.len()) || row_len < 0 {
        Seq::empty()
    } else {
        let end = if pos + 1 + row_len <= data.len() {
            pos + 1 + row_len
        } else {
            data.len() as int
        };
        let row = unfiltered(data[pos], data.subrange(pos + 1, end), prev, bpp);
        row + png_restored(data, end, padded_row(row, row_len), row_len, bpp)
    }
}

/// A row filled up with zeros.
pub open spec fn padded_row(row: Seq<u8>, row_len: int) -> Seq<u8> {
    Seq::new(
        row_len as nat,
        |i: int|
            if i < row.len() {
                row[i]
            } else {
                0
            },
    )
}

/// Bytes with TIFF differencing undone: to every byte but the first pixel of
/// a row is added the restored byte one pixel to the left. Rows of no length
/// leave the bytes as they are.
pub open spec fn tiff_restored(data: Seq<u8>, colors: int, row_len: int) -> Seq<u8>
    decreases data.len(),
{
    if data.len() == 0 {
        Seq::empty()
    } else {
        let i = data.len() - 1;
        let done = tiff_restored(data.drop_last(), colors, row_len);
        if row_len > 0 && i % row_len >= colors {
            done.push(byte_sum(data[i], done[i - colors]))
        } else {
            done.push(data[i])
        }
    }
}

/// A bit depth the predictors know, 8 for any other.
pub open spec fn known_depth(bpc: int) -> int {
    if bpc == 1 || bpc == 2 || bpc == 4 || bpc == 8 || bpc == 16 {
        bpc
    } else {
        8
    }
}

/// One, or more.
pub open spec fn at_least_one(n: int) -> int {
    if n < 1 {
        1
    } else {
        n
    }
}

/// The bytes one pixel takes, at least one.
pub open spec fn pixel_bytes(colors: int, bpc: int) -> int {
    at_least_one(colors * bpc / 8)
}

/// The bytes one row takes, but no more than there are.
pub open spec fn row_bytes(colors: int, bpc: int, columns: int, len: int) -> int {
    let n = (colors * bpc * columns + 7) / 8;
    if n < len {
        n
    } else {
        len
    }
}

/// Data with its predictor transform undone.
pub open spec fn restored(
    data: Seq<u8>,
    predictor: int,
    colors: int,
    bpc: int,
    columns: int,
) -> Seq<u8> {
    if predictor == 2 {
        if bpc == 8 {
            tiff_restored(data, colors, colors * columns)
        } else {
            data
        }
    } else if predictor >= 10 {
        let row_len = row_bytes(colors, bpc, columns, data.len() as int);
        png_restored(
            data,
            0,
            Seq::new(row_len as nat, |i: int| 0u8),
            row_len,
            pixel_bytes(colors, bpc),
        )
    } else {
        data
    }
}

/// An integer brought into bounds.
pub open spec fn clamped(n: int, low: int, high: int) -> int {
    if n < low {
        low
    } else if n > high {
        high
    } else {
        n
    }
}

/// Data with the predictor that decode parameters describe undone.
pub open spec fn post_passed(data: Seq<u8>, parms: Option<Map<Seq<char>, ObjectV>>) -> Seq<u8> {
    restored(
        data,
        filters::parm_int(parms, "Predictor"@, 1),
        clamped(filters::parm_int(parms, "Colors"@, 1), 1, 128),
        known_depth(filters::parm_int(parms, "BitsPerComponent"@, 8)),
        clamped(filters::parm_int(parms, "Columns"@, 1), 1, 0x100_0000),
    )
}

/// The Paeth predictor: picks whichever of left/up/up-left is closest to
/// `left + up - up_left`, breaking ties in that order.
pub fn paeth(left: u8, up: u8, up_left: u8) -> (out: u8)
    ensures
        out == nearest_of(left, up, up_left),
{
    let p: i32 = left as i32 + up as i32 - up_left as i32;
    let pa: i32 = gap(p, left as i32);
    let pb: i32 = gap(p, up as i32);
    let pc: i32 = gap(p, up_left as i32);
    if pa <= pb && pa <= pc {
        left
    } else if pb <= pc {
        up
    } else {
        up_left
    }
}

/// The distance of two small integers.
fn gap(a: i32, b: i32) -> (out: i32)
    requires
        -1000 <= a <= 1000,
        -1000 <= b <= 1000,
    ensures
        out == distance(a as int, b as int),
{
    if a < b {
        b - a
    } else {
        a - b
    }
}

proof fn lemma_unfiltered_len(ftype: u8, row: Seq<u8>, prev: Seq<u8>, bpp: int)
    ensures
        unfiltered(ftype, row, prev, bpp).len() == row.len(),
    decreases row.len(),
{
    if row.len() > 0 {
        lemma_unfiltered_len(ftype, row.drop_last(), prev, bpp);
    }
}

/// Undoes a PNG filter in place. The filters that look at the row above need
/// it to be no shorter.
pub fn unfilter_row(ftype: u8, row: &mut Vec<u8>, prev: &[u8], bpp: usize)
    requires
        2 <= ftype <= 4 ==> old(row)@.len() <= prev@.len(),
    ensures
        final(row)@ == unfiltered(ftype, old(row)@, prev@, bpp as int),
{
    let ghost start = row@;
    let n: usize = row.len();
    let mut i: usize = 0;
    assert(start.take(0) =~= Seq::<u8>::empty());
    assert(row@.take(0) =~= Seq::<u8>::empty());
    while i < n
        invariant
            i <= n,
            n == start.len(),
            n == row@.len(),
            2 <= ftype <= 4 ==> n <= prev@.len(),
            row@.take(i as int) == unfiltered(ftype, start.take(i as int), prev@, bpp as int),
            forall|j: int| i <= j < n ==> row@[j] == start[j],
        decreases n - i,
    {
        let left: u8 = if i >= bpp {
            row[i - bpp]
        } else {
            0
        };
        let add: u8 = if ftype == 1 {
            left
        } else if ftype == 2 {
            prev[i]
        } else if ftype == 3 {
            ((left as u16 + prev[i] as u16) / 2) as u8
        } else if ftype == 4 {
            let up_left: u8 = if i >= bpp {
                prev[i - bpp]
            } else {
                0
            };
            paeth(left, prev[i], up_left)
        } else {
            0
        };
        let ghost before = row@;
        let sum: u8 = row[i].wrapping_add(add);
        assert(sum == byte_sum(start[i as int], add));
        row.set(i, sum);
        proof {
            let next = start.take(i + 1);
            let done = before.take(i as int);
            assert(next.drop_last() =~= start.take(i as int));
            assert(next[i as int] == start[i as int]);
            assert(left == byte_back(done.push(start[i as int]), i as int, bpp as int));
            assert(row@.take(i + 1) =~= done.push(sum));
        }
        i += 1;
    }
    assert(row@.take(n as int) =~= row@);
    assert(start.take(n as int) =~= start);
}

/// PNG predictors: every row is prefixed with a filter-type byte
/// (0 None, 1 Sub, 2 Up, 3 Average, 4 Paeth); unknown types are leniently
/// treated as None. Rows of no length are all filter-type bytes and restore to
/// nothing.
pub fn png_rows(data: &[u8], colors: usize, bpc: usize, columns: usize) -> (out: Vec<u8>)
    ensures
        out@ == restored(data@, 10, colors as int, bpc as int, columns as int),
        colors == 0 || bpc == 0 || columns == 0 ==> out@.len() == 0,
{
    let bpp: usize = bytes_per_pixel(colors, bpc);
    let row_len: usize = bytes_per_row(colors, bpc, columns, data.len());
    let ghost pixel = pixel_bytes(colors as int, bpc as int);
    let mut out: Vec<u8> = Vec::with_capacity(data.len());
    let mut prev: Vec<u8> = Vec::new();
    prev.resize(row_len, 0);
    assert(prev@ =~= Seq::new(row_len as nat, |i: int| 0u8));
    let mut pos: usize = 0;
    let ghost goal = png_restored(data@, 0, prev@, row_len as int, pixel);
    assert(out@ + goal =~= goal);
    while pos < data.len()
        invariant
            pos <= data@.len(),
            row_len <= data@.len(),
            prev@.len() == row_len,
            bpp >= 1,
            bpp == pixel || (bpp == usize::MAX && pixel > usize::MAX),
            goal == out@ + png_restored(data@, pos as int, prev@, row_len as int, pixel),
        decreases data@.len() - pos,
    {
        let ghost before = out@;
        let ghost at = pos as int;
        let ftype: u8 = data[pos];
        pos += 1;
        let end: usize = if row_len <= data.len() - pos {
            pos + row_len
        } else {
            data.len()
        };
        let mut row = copy_bytes(slice_subrange(data, pos, end));
        let ghost raw = row@;
        pos = end;
        unfilter_row(ftype, &mut row, &prev, bpp);
        proof {
            lemma_unfiltered_len(ftype, raw, prev@, bpp as int);
            lemma_wide_pixel(ftype, raw, prev@, bpp as int, pixel);
        }
        out.extend_from_slice(&row);
        assert(out@ =~= before + row@);
        let ghost done = row@;
        row.resize(row_len, 0);
        assert(row@ =~= padded_row(done, row_len as int)) by {
            if done.len() < row_len {
                assert forall|j: int| 0 <= j < done.len() implies row@[j] == done[j] by {
                    assert(row@.subrange(0, done.len() as int)[j] == done[j]);
                }
            }
        }
        prev = row;
        proof {
            let rest = png_restored(data@, pos as int, prev@, row_len as int, pixel);
            assert(before + (done + rest) =~= (before + done) + rest);
        }
    }
    assert(out@ + Seq::<u8>::empty() =~= out@);
    proof {
        if colors == 0 || bpc == 0 || columns == 0 {
            assert(colors * bpc * columns == 0) by (nonlinear_arith)
                requires
                    colors == 0 || bpc == 0 || columns == 0,
            ;
            lemma_empty_rows(data@, 0, Seq::new(0, |i: int| 0u8), pixel);
        }
    }
    out
}

/// Rows of no length restore to nothing.
proof fn lemma_empty_rows(data: Seq<u8>, pos: int, prev: Seq<u8>, bpp: int)
    ensures
        png_restored(data, pos, prev, 0, bpp).len() == 0,
    decreases data.len() - pos,
{
    if 0 <= pos < data.len() {
        let row = unfiltered(data[pos], data.subrange(pos + 1, pos + 1), prev, bpp);
        lemma_empty_rows(data, pos + 1, padded_row(row, 0), bpp);
    }
}

/// Pixels wider than a row predict nothing from the left, however wide.
proof fn lemma_wide_pixel(ftype: u8, row: Seq<u8>, prev: Seq<u8>, a: int, b: int)
    requires
        a == b || (row.len() <= a && row.len() <= b),
    ensures
        unfiltered(ftype, row, prev, a) == unfiltered(ftype, row, prev, b),
    decreases row.len(),
{
    if row.len() > 0 {
        lemma_wide_pixel(ftype, row.drop_last(), prev, a, b);
    }
}

/// The bytes one pixel takes, as far as they can be counted.
fn bytes_per_pixel(colors: usize, bpc: usize) -> (out: usize)
    ensures
        out >= 1,
        out == pixel_bytes(colors as int, bpc as int) || (out == usize::MAX && pixel_bytes(
            colors as int,
            bpc as int,
        ) > usize::MAX),
{
    assert(0 <= colors * bpc <= 0xffff_ffff_ffff_ffff * 0xffff_ffff_ffff_ffff) by (nonlinear_arith)
        requires
            0 <= colors <= 0xffff_ffff_ffff_ffff,
            0 <= bpc <= 0xffff_ffff_ffff_ffff,
    ;
    let bits: u128 = colors as u128 * bpc as u128;
    let n: u128 = bits / 8;
    if n < 1 {
        1
    } else if n > usize::MAX as u128 {
        usize::MAX
    } else {
        n as usize
    }
}

/// The bytes one row takes, but no more than `len`.
fn bytes_per_row(colors: usize, bpc: usize, columns: usize, len: usize) -> (out: usize)
    ensures
        out == row_bytes(colors as int, bpc as int, columns as int, len as int),
{
    assert(0 <= colors * bpc <= 0xffff_ffff_ffff_ffff * 0xffff_ffff_ffff_ffff) by (nonlinear_arith)
        requires
            0 <= colors <= 0xffff_ffff_ffff_ffff,
            0 <= bpc <= 0xffff_ffff_ffff_ffff,
    ;
    if columns == 0 {
        assert(colors * bpc * 0 == 0) by (nonlinear_arith);
        return 0;
    }
    let pixel: u128 = colors as u128 * bpc as u128;
    let limit: u128 = len as u128 * 8;
    let ghost bits = colors * bpc * columns;
    // Absurd column counts cannot need more than the data we have.
    if pixel > limit / columns as u128 {
        assert(bits > limit) by (nonlinear_arith)
            requires
                bits == pixel * columns,
                pixel >= limit / (columns as u128) + 1,
                columns >= 1,
        ;
        return len;
    }
    assert(0 <= pixel * columns <= limit) by (nonlinear_arith)
        requires
            pixel <= limit / (columns as u128),
            columns >= 1,
    ;
    let total: u128 = pixel * columns as u128;
    let n: u128 = (total + 7) / 8;
    if n < len as u128 {
        n as usize
    } else {
        len
    }
}

proof fn lemma_tiff_len(data: Seq<u8>, colors: int, row_len: int)
    ensures
        tiff_restored(data, colors, row_len).len() == data.len(),
    decreases data.len(),
{
    if data.len() > 0 {
        lemma_tiff_len(data.drop_last(), colors, row_len);
    }
}

/// Rows of no length leave the bytes as they are.
proof fn lemma_tiff_empty_rows(data: Seq<u8>, colors: int)
    ensures
        tiff_restored(data, colors, 0) == data,
    decreases data.len(),
{
    if data.len() > 0 {
        lemma_tiff_empty_rows(data.drop_last(), colors);
        assert(data.drop_last().push(data.last()) =~= data);
    }
}

/// Undoes TIFF horizontal differencing (8-bit components) in place. Without
/// colours or columns the buffer stays as it is.
pub fn tiff_horizontal_in_place(buf: &mut Vec<u8>, colors: usize, columns: usize)
    ensures
        final(buf)@ == tiff_restored(old(buf)@, colors as int, colors * columns),
        colors == 0 || columns == 0 ==> final(buf)@ == old(buf)@,
{
    let ghost start = buf@;
    if colors == 0 || columns == 0 {
        proof {
            assert(colors * columns == 0) by (nonlinear_arith)
                requires
                    colors == 0 || columns == 0,
            ;
            lemma_tiff_empty_rows(start, colors as int);
        }
        return;
    }
    let n: usize = buf.len();
    let ghost row_len = colors * columns;
    assert(row_len >= colors) by (nonlinear_arith)
        requires
            row_len == colors * columns,
            columns >= 1,
    ;
    let mut i: usize = 0;
    // The column of the pixel at `i` and the component within it.
    let mut column: usize = 0;
    let mut component: usize = 0;
    assert(start.take(0) =~= Seq::<u8>::empty());
    assert(buf@.take(0) =~= Seq::<u8>::empty());
    assert(0int % row_len == 0);
    assert(0 * colors == 0);
    while i < n
        invariant
            i <= n,
            n == start.len(),
            n == buf@.len(),
            colors >= 1,
            columns >= 1,
            row_len == colors * columns,
            row_len >= colors,
            column < columns,
            component < colors,
            i as int % row_len == column * colors + component,
            buf@.take(i as int) == tiff_restored(start.take(i as int), colors as int, row_len),
            forall|j: int| i <= j < n ==> buf@[j] == start[j],
        decreases n - i,
    {
        let ghost before = buf@;
        let ghost next = start.take(i + 1);
        proof {
            assert(next.drop_last() =~= start.take(i as int));
            assert(next[i as int] == start[i as int]);
            assert((i as int % row_len >= colors) == (column >= 1)) by (nonlinear_arith)
                requires
                    i as int % row_len == column * colors + component,
                    0 <= component < colors,
                    column >= 0,
            ;
            vstd::arithmetic::div_mod::lemma_mod_decreases(i as nat, row_len as nat);
        }
        if column >= 1 {
            let sum: u8 = buf[i].wrapping_add(buf[i - colors]);
            assert(sum == byte_sum(start[i as int], before[i - colors]));
            assert(before.take(i as int)[i - colors] == before[i - colors]);
            buf.set(i, sum);
            assert(buf@.take(i + 1) =~= before.take(i as int).push(sum));
        } else {
            assert(buf@.take(i + 1) =~= before.take(i as int).push(start[i as int]));
        }
        proof {
            lemma_next_place(
                i as int,
                row_len,
                colors as int,
                columns as int,
                column as int,
                component as int,
            );
        }
        if component + 1 < colors {
            component += 1;
        } else {
            component = 0;
            if column + 1 < columns {
                column += 1;
            } else {
                column = 0;
            }
        }
        i += 1;
    }
    assert(buf@.take(n as int) =~= buf@);
    assert(start.take(n as int) =~= start);
}

/// Where the byte behind byte `i` of a row lies.
proof fn lemma_next_place(
    i: int,
    row_len: int,
    colors: int,
    columns: int,
    column: int,
    component: int,
)
    requires
        0 <= i,
        colors >= 1,
        columns >= 1,
        row_len == colors * columns,
        row_len > 0,
        0 <= column < columns,
        0 <= component < colors,
        i as int % row_len == column * colors + component,
    ensures
        component + 1 < colors ==> (i + 1) % row_len == column * colors + component + 1,
        component + 1 == colors && column + 1 < columns ==> (i + 1) % row_len == (column + 1)
            * colors,
        component + 1 == colors && column + 1 == columns ==> (i + 1) % row_len == 0,
{
    let m = i % row_len;
    let q = i / row_len;
    vstd::arithmetic::div_mod::lemma_fundamental_div_mod(i, row_len);
    assert((column + 1) * colors == column * colors + colors) by (nonlinear_arith);
    if component + 1 == colors && column + 1 == columns {
        assert(m + 1 == row_len) by (nonlinear_arith)
            requires
                m == column * colors + component,
                component + 1 == colors,
                column + 1 == columns,
                row_len == colors * columns,
        ;
        assert(i + 1 == (q + 1) * row_len + 0) by (nonlinear_arith)
            requires
                i == row_len * q + m,
                m + 1 == row_len,
        ;
        vstd::arithmetic::div_mod::lemma_fundamental_div_mod_converse(i + 1, row_len, q + 1, 0);
    } else {
        assert(m + 1 < row_len) by (nonlinear_arith)
            requires
                m == column * colors + component,
                0 <= component < colors,
                0 <= column < columns,
                component + 1 < colors || column + 1 < columns,
                row_len == colors * columns,
        ;
        assert(i + 1 == q * row_len + (m + 1)) by (nonlinear_arith)
            requires
                i == row_len * q + m,
        ;
        vstd::arithmetic::div_mod::lemma_fundamental_div_mod_converse(
            i + 1,
            row_len,
            q,
            m + 1,
        );
    }
}

/// TIFF predictor 2: each sample is stored as the difference from the
/// sample one pixel to the left; undo by cumulative addition per row.
/// Only 8-bit components are handled; other depths pass through, and so does
/// everything without colours or columns.
pub fn tiff_horizontal(data: &[u8], colors: usize, bpc: usize, columns: usize) -> (out: Vec<u8>)
    ensures
        out@ == restored(data@, 2, colors as int, bpc as int, columns as int),
        colors == 0 || columns == 0 ==> out@ == data@,
{
    let mut out = copy_bytes(data);
    if bpc == 8 {
        tiff_horizontal_in_place(&mut out, colors, columns);
    }
    out
}

/// Reverses the predictor transform on decompressed data.
///
/// `predictor` 1 (or any unrecognised value) passes the data through
/// unchanged; 2 applies TIFF horizontal differencing (8-bit components
/// only, otherwise pass-through); values >= 10 treat the data as PNG
/// filtered rows, each prefixed with its filter-type byte. A truncated
/// final row is reconstructed as far as the data reaches.
pub fn apply(data: &[u8], predictor: i32, colors: usize, bpc: usize, columns: usize) -> (result:
    Result<Vec<u8>>)
    ensures
        result matches Ok(out) && out@ == restored(
            data@,
            predictor as int,
            at_least_one(colors as int),
            known_depth(bpc as int),
            at_least_one(columns as int),
        ),
{
    let colors: usize = if colors < 1 {
        1
    } else {
        colors
    };
    let columns: usize = if columns < 1 {
        1
    } else {
        columns
    };
    let bpc: usize = if bpc == 1 || bpc == 2 || bpc == 4 || bpc == 8 || bpc == 16 {
        bpc
    } else {
        8
    };
    if predictor == 2 {
        Ok(tiff_horizontal(data, colors, bpc, columns))
    } else if predictor >= 10 {
        Ok(png_rows(data, colors, bpc, columns))
    } else {
        Ok(copy_bytes(data))
    }
}

/// An integer brought into bounds.
fn clamp(n: i64, low: i64, high: i64) -> (out: i64)
    requires
        low <= high,
    ensures
        out == clamped(n as int, low as int, high as int),
{
    if n < low {
        low
    } else if n > high {
        high
    } else {
        n
    }
}

/// Runs the predictor described by a `/DecodeParms` dictionary over freshly
/// decompressed data. Reads `/Predictor` (default 1 = none), `/Colors`
/// (default 1), `/BitsPerComponent` (default 8) and `/Columns` (default 1).
pub fn post_pass(data: Vec<u8>, parms: Option<&Dict>) -> (result: Result<Vec<u8>>)
    ensures
        result matches Ok(out) && out@ == post_passed(data@, filters::parms_view(parms)),
{
    let predictor: i64 = int_parm(parms, "Predictor", 1);
    if predictor <= 1 {
        return Ok(data);
    }
    let colors: usize = clamp(int_parm(parms, "Colors", 1), 1, 128) as usize;
    let depth: i64 = int_parm(parms, "BitsPerComponent", 8);
    let bpc: usize = if depth == 1 || depth == 2 || depth == 4 || depth == 8 || depth == 16 {
        depth as usize
    } else {
        8
    };
    let columns: usize = clamp(int_parm(parms, "Columns", 1), 1, 0x100_0000) as usize;
    // TIFF horizontal differencing on 8-bit components can run in place on the
    // buffer we already own, avoiding a full copy of the decompressed data.
    if predictor == 2 && bpc == 8 {
        let mut data = data;
        tiff_horizontal_in_place(&mut data, colors, columns);
        return Ok(data);
    }
    let predictor: i32 = clamp(predictor, 1, i32::MAX as i64) as i32;
    apply(&data, predictor, colors, bpc, columns)
}

/// The difference of two bytes modulo 256.
pub open spec fn byte_difference(a: u8, b: u8) -> u8 {
    ((a + 256 - b) % 256) as u8
}

/// A row with a PNG filter applied: from every byte is taken what the filter
/// predicts from its neighbours.
pub open spec fn filtered(ftype: u8, row: Seq<u8>, prev: Seq<u8>, bpp: int) -> Seq<u8> {
    Seq::new(
        row.len(),
        |i: int|
            byte_difference(
                row[i],
                predicted(ftype, byte_back(row, i, bpp), prev[i], byte_back(prev, i, bpp)),
            ),
    )
}

/// Undoing a PNG filter gives back the row it was applied to, whatever the
/// filter and the row above.
pub proof fn unfiltering_undoes_filtering(ftype: u8, row: Seq<u8>, prev: Seq<u8>, bpp: int)
    requires
        bpp >= 1,
    ensures
        unfiltered(ftype, filtered(ftype, row, prev, bpp), prev, bpp) == row,
    decreases row.len(),
{
    let coded = filtered(ftype, row, prev, bpp);
    if row.len() > 0 {
        let i = row.len() - 1;
        let head = row.drop_last();
        unfiltering_undoes_filtering(ftype, head, prev, bpp);
        assert(coded.drop_last() =~= filtered(ftype, head, prev, bpp)) by {
            assert forall|j: int| 0 <= j < i implies coded[j] == filtered(
                ftype,
                head,
                prev,
                bpp,
            )[j] by {
                assert(byte_back(row, j, bpp) == byte_back(head, j, bpp));
            }
        }
        assert(byte_back(row, i, bpp) == byte_back(head, i, bpp));
        assert(unfiltered(ftype, coded, prev, bpp) =~= head.push(row[i]));
        assert(head.push(row[i]) =~= row);
    } else {
        assert(coded =~= Seq::empty());
        assert(row =~= Seq::empty());
    }
}

/// Rows with PNG filters applied, each behind its filter type; `prev` is the
/// row above the first.
pub open spec fn png_filtered(
    rows: Seq<Seq<u8>>,
    types: Seq<u8>,
    prev: Seq<u8>,
    bpp: int,
) -> Seq<u8>
    decreases rows.len(),
{
    if rows.len() == 0 {
        Seq::empty()
    } else {
        seq![types[0]] + filtered(types[0], rows[0], prev, bpp) + png_filtered(
            rows.skip(1),
            types.skip(1),
            rows[0],
            bpp,
        )
    }
}

/// Rows one behind the other.
pub open spec fn joined(rows: Seq<Seq<u8>>) -> Seq<u8>
    decreases rows.len(),
{
    if rows.len() == 0 {
        Seq::empty()
    } else {
        rows[0] + joined(rows.skip(1))
    }
}

/// An image whose rows have been through PNG filters is restored byte for byte,
/// whatever filter each row chose.
pub proof fn png_images_are_restored(
    rows: Seq<Seq<u8>>,
    types: Seq<u8>,
    predictor: int,
    colors: int,
    bpc: int,
    columns: int,
)
    requires
        predictor >= 10,
        colors >= 1,
        bpc >= 1,
        columns >= 1,
        rows.len() >= 1,
        rows.len() == types.len(),
        forall|i: int|
            0 <= i < rows.len() ==> (#[trigger] rows[i]).len() == (colors * bpc * columns + 7) / 8,
    ensures
        ({
            let above = Seq::new(rows[0].len(), |i: int| 0u8);
            let coded = png_filtered(rows, types, above, pixel_bytes(colors, bpc));
            restored(coded, predictor, colors, bpc, columns) == joined(rows)
        }),
{
    let row_len = rows[0].len() as int;
    let bpp = pixel_bytes(colors, bpc);
    let above = Seq::new(row_len as nat, |i: int| 0u8);
    let coded = png_filtered(rows, types, above, bpp);
    assert(row_bytes(colors, bpc, columns, coded.len() as int) == row_len);
    lemma_png_restored(Seq::empty(), rows, types, above, row_len, bpp);
    assert(Seq::<u8>::empty() + coded =~= coded);
}

/// The same behind some rows already read.
proof fn lemma_png_restored(
    head: Seq<u8>,
    rows: Seq<Seq<u8>>,
    types: Seq<u8>,
    prev: Seq<u8>,
    row_len: int,
    bpp: int,
)
    requires
        bpp >= 1,
        row_len >= 0,
        rows.len() == types.len(),
        forall|i: int| 0 <= i < rows.len() ==> (#[trigger] rows[i]).len() == row_len,
    ensures
        png_restored(
            head + png_filtered(rows, types, prev, bpp),
            head.len() as int,
            prev,
            row_len,
            bpp,
        ) == joined(rows),
    decreases rows.len(),
{
    let tail = png_filtered(rows, types, prev, bpp);
    let data = head + tail;
    if rows.len() > 0 {
        let pos = head.len() as int;
        let row = rows[0];
        let coded = filtered(types[0], row, prev, bpp);
        let rest = png_filtered(rows.skip(1), types.skip(1), row, bpp);
        let read = head + (seq![types[0]] + coded);
        let end = pos + 1 + row_len;
        assert(read.len() == end);
        assert(data =~= read + rest);
        assert(data[pos] == types[0]);
        assert(data.subrange(pos + 1, end) =~= coded);
        unfiltering_undoes_filtering(types[0], row, prev, bpp);
        assert(padded_row(row, row_len) =~= row);
        assert forall|i: int| 0 <= i < rows.skip(1).len() implies (#[trigger] rows.skip(
            1,
        )[i]).len() == row_len by {
            assert(rows.skip(1)[i] == rows[i + 1]);
        }
        lemma_png_restored(read, rows.skip(1), types.skip(1), row, row_len, bpp);
    } else {
        assert(data =~= head);
    }
}

/// Bytes with TIFF differencing applied: from every byte but the first pixel of
/// a row is taken the byte one pixel to the left.
pub open spec fn tiff_differenced(raw: Seq<u8>, colors: int, row_len: int) -> Seq<u8> {
    Seq::new(
        raw.len(),
        |i: int|
            if i % row_len >= colors {
                byte_difference(raw[i], raw[i - colors])
            } else {
                raw[i]
            },
    )
}

/// Undoing TIFF differencing gives back the bytes it was applied to.
pub proof fn tiff_rows_are_restored(raw: Seq<u8>, colors: int, row_len: int)
    requires
        1 <= colors <= row_len,
    ensures
        tiff_restored(tiff_differenced(raw, colors, row_len), colors, row_len) == raw,
    decreases raw.len(),
{
    let coded = tiff_differenced(raw, colors, row_len);
    if raw.len() > 0 {
        let i = raw.len() - 1;
        let head = raw.drop_last();
        tiff_rows_are_restored(head, colors, row_len);
        assert(coded.drop_last() =~= tiff_differenced(head, colors, row_len)) by {
            assert forall|j: int| 0 <= j < i implies coded[j] == tiff_differenced(
                head,
                colors,
                row_len,
            )[j] by {
                lemma_within(j, row_len, colors);
            }
        }
        lemma_within(i, row_len, colors);
        assert(tiff_restored(coded, colors, row_len) =~= head.push(raw[i]));
        assert(head.push(raw[i]) =~= raw);
    } else {
        assert(coded =~= Seq::empty());
        assert(raw =~= Seq::empty());
    }
}

/// A byte that is not in the first pixel of its row has one a pixel before it.
proof fn lemma_within(i: int, row_len: int, colors: int)
    requires
        0 <= i,
        1 <= colors <= row_len,
    ensures
        i % row_len >= colors ==> i >= colors,
{
    vstd::arithmetic::div_mod::lemma_mod_decreases(i as nat, row_len as nat);
}

/// Law: the Paeth predictor picks one of the three neighbours, none of the
/// three is nearer to `left + up - up_left`, and of equally near ones it is the
/// first of left, up and up-left.
pub proof fn paeth_picks_the_nearest(left: u8, up: u8, up_left: u8)
    ensures
        ({
            let r = nearest_of(left, up, up_left);
            let p = left + up - up_left;
            let far = |c: u8| vstd::math::abs(p - c);
            &&& r == left || r == up || r == up_left
            &&& far(r) <= far(left) && far(r) <= far(up) && far(r) <= far(up_left)
            &&& r != left ==> far(r) < far(left)
            &&& r != left && r != up ==> far(r) < far(up)
        }),
{
}

/// Law: where nothing stands on one side, the Paeth predictor follows the
/// other.
pub proof fn paeth_follows_the_only_neighbour(b: u8)
    ensures
        nearest_of(0, b, 0) == b,
        nearest_of(b, 0, 0) == b,
        nearest_of(b, b, b) == b,
{
}

/// Law: what undoing a PNG filter makes of each byte. It grows, modulo 256, by
/// the restored byte one pixel to the left under Sub, by the byte above under
/// Up, by the rounded-down mean of the two under Average and by the one of
/// left, above and above-left nearest to left plus above minus above-left
/// under Paeth; under any other type it stays. Before the start of a row
/// stand zeros.
pub proof fn restored_bytes_add_their_prediction(
    ftype: u8,
    row: Seq<u8>,
    prev: Seq<u8>,
    bpp: int,
    i: int,
)
    requires
        bpp >= 1,
        0 <= i < row.len() <= prev.len(),
    ensures
        unfiltered(ftype, row, prev, bpp).len() == row.len(),
        ({
            let out = unfiltered(ftype, row, prev, bpp);
            let left = if i < bpp {
                0u8
            } else {
                out[i - bpp]
            };
            let up = prev[i];
            let up_left = if i < bpp {
                0u8
            } else {
                prev[i - bpp]
            };
            let far = |c: u8| vstd::math::abs(left + up - up_left - c);
            &&& ftype == 1 ==> out[i] == (row[i] + left) % 256
            &&& ftype == 2 ==> out[i] == (row[i] + up) % 256
            &&& ftype == 3 ==> out[i] == (row[i] + (left + up) / 2) % 256
            &&& ftype == 4 && far(left) <= far(up) && far(left) <= far(up_left) ==> out[i] == (
            row[i] + left) % 256
            &&& ftype == 4 && far(up) < far(left) && far(up) <= far(up_left) ==> out[i] == (row[i]
                + up) % 256
            &&& ftype == 4 && far(up_left) < far(left) && far(up_left) < far(up) ==> out[i] == (
            row[i] + up_left) % 256
            &&& ftype == 0 || ftype > 4 ==> out[i] == row[i]
        }),
    decreases row.len(),
{
    let head = row.drop_last();
    let done = unfiltered(ftype, head, prev, bpp);
    lemma_unfiltered_len(ftype, row, prev, bpp);
    lemma_unfiltered_len(ftype, head, prev, bpp);
    if i < row.len() - 1 {
        restored_bytes_add_their_prediction(ftype, head, prev, bpp, i);
        assert(unfiltered(ftype, row, prev, bpp)[i] == done[i]);
    } else {
        assert(byte_back(done.push(row[i]), i, bpp) == byte_back(done, i, bpp));
    }
}

/// Law: the geometry of PNG rows. A pixel takes its bits in whole bytes, one at
/// least, and a row the fewest bytes that hold its bits. The data is cut into
/// rows of that many bytes behind a filter type each: the first row is restored
/// below a row of zeros, and the rest is restored below the first row.
pub proof fn png_rows_follow_each_other(
    data: Seq<u8>,
    predictor: int,
    colors: int,
    bpc: int,
    columns: int,
    row_len: int,
    bpp: int,
)
    requires
        predictor >= 10,
        colors >= 1,
        bpc >= 1,
        columns >= 1,
        8 * (row_len - 1) < colors * bpc * columns <= 8 * row_len,
        bpp >= 1,
        colors * bpc < 8 * (bpp + 1),
        bpp == 1 || 8 * bpp <= colors * bpc,
        data.len() >= 1 + row_len,
    ensures
        ({
            let zeros = Seq::new(row_len as nat, |i: int| 0u8);
            let first = unfiltered(data[0], data.subrange(1, 1 + row_len), zeros, bpp);
            restored(data, predictor, colors, bpc, columns) == first + png_restored(
                data,
                1 + row_len,
                first,
                row_len,
                bpp,
            )
        }),
        forall|pos: int, prev: Seq<u8>|
            0 <= pos && pos + 1 + row_len <= data.len() ==> #[trigger] png_restored(
                data,
                pos,
                prev,
                row_len,
                bpp,
            ) == ({
                let row = unfiltered(
                    data[pos],
                    data.subrange(pos + 1, pos + 1 + row_len),
                    prev,
                    bpp,
                );
                row + png_restored(data, pos + 1 + row_len, row, row_len, bpp)
            }),
        forall|prev: Seq<u8>|
            #[trigger] png_restored(data, data.len() as int, prev, row_len, bpp) == Seq::<
                u8,
            >::empty(),
{
    assert(row_len >= 1) by (nonlinear_arith)
        requires
            colors >= 1,
            bpc >= 1,
            columns >= 1,
            colors * bpc * columns <= 8 * row_len,
    ;
    assert((colors * bpc * columns + 7) / 8 == row_len);
    assert(pixel_bytes(colors, bpc) == bpp);
    assert forall|pos: int, prev: Seq<u8>|
        0 <= pos && pos + 1 + row_len <= data.len() implies #[trigger] png_restored(
        data,
        pos,
        prev,
        row_len,
        bpp,
    ) == ({
        let row = unfiltered(data[pos], data.subrange(pos + 1, pos + 1 + row_len), prev, bpp);
        row + png_restored(data, pos + 1 + row_len, row, row_len, bpp)
    }) by {
        let row = unfiltered(data[pos], data.subrange(pos + 1, pos + 1 + row_len), prev, bpp);
        lemma_unfiltered_len(data[pos], data.subrange(pos + 1, pos + 1 + row_len), prev, bpp);
        assert(padded_row(row, row_len) =~= row);
    }
    let zeros = Seq::new(row_len as nat, |i: int| 0u8);
    assert(restored(data, predictor, colors, bpc, columns) == png_restored(
        data,
        0,
        zeros,
        row_len,
        bpp,
    ));
}

/// Law: what undoing TIFF differencing makes of each byte. It grows, modulo
/// 256, by the restored byte one pixel to the left, but for the first pixel of
/// every row, which stays.
pub proof fn tiff_bytes_add_their_neighbour(
    data: Seq<u8>,
    colors: int,
    columns: int,
    row: int,
    at: int,
)
    requires
        colors >= 1,
        columns >= 1,
        row >= 0,
        0 <= at < colors * columns,
        row * (colors * columns) + at < data.len(),
    ensures
        restored(data, 2, colors, 8, columns).len() == data.len(),
        ({
            let i = row * (colors * columns) + at;
            let out = restored(data, 2, colors, 8, columns);
            out[i] == (if at < colors {
                data[i] as int
            } else {
                (data[i] + out[i - colors]) % 256
            })
        }),
{
    let row_len = colors * columns;
    let i = row * row_len + at;
    vstd::arithmetic::div_mod::lemma_fundamental_div_mod_converse(i, row_len, row, at);
    assert(i >= 0) by (nonlinear_arith)
        requires
            i == row * row_len + at,
            row >= 0,
            row_len > at,
            at >= 0,
    ;
    if at >= colors {
        assert(i >= colors) by (nonlinear_arith)
            requires
                i == row * row_len + at,
                row >= 0,
                row_len > at,
                at >= colors,
                colors >= 1,
        ;
    }
    lemma_tiff_byte(data, colors, row_len, i);
}

proof fn lemma_tiff_byte(data: Seq<u8>, colors: int, row_len: int, i: int)
    requires
        1 <= colors,
        row_len >= 1,
        0 <= i < data.len(),
        i % row_len >= colors ==> i >= colors,
    ensures
        tiff_restored(data, colors, row_len).len() == data.len(),
        ({
            let out = tiff_restored(data, colors, row_len);
            out[i] == (if i % row_len >= colors {
                (data[i] + out[i - colors]) % 256
            } else {
                data[i] as int
            })
        }),
    decreases data.len(),
{
    lemma_tiff_len(data, colors, row_len);
    let head = data.drop_last();
    lemma_tiff_len(head, colors, row_len);
    if i < data.len() - 1 {
        lemma_tiff_byte(head, colors, row_len, i);
    }
}

/// Law: which predictor is undone. Only 2 and 10 and above change anything, 2
/// only with 8 bits a component; the bits a component are 1, 2, 4, 8 or 16, and
/// 8 where the parameters say anything else. Colours below 1 count as 1, above
/// 128 as 128; columns below 1 as 1, above two to the 24 as that.
pub proof fn predictors_apply_as_named(
    data: Seq<u8>,
    parms: Map<Seq<char>, ObjectV>,
    predictor: i64,
    depth: i64,
    colors: i64,
    columns: i64,
)
    requires
        parms.contains_key("Predictor"@),
        parms["Predictor"@] == ObjectV::Int(predictor),
        parms.contains_key("BitsPerComponent"@),
        parms["BitsPerComponent"@] == ObjectV::Int(depth),
        parms.contains_key("Colors"@),
        parms["Colors"@] == ObjectV::Int(colors),
        parms.contains_key("Columns"@),
        parms["Columns"@] == ObjectV::Int(columns),
    ensures
        ({
            let out = post_passed(data, Some(parms));
            let odd = depth == 1 || depth == 2 || depth == 4 || depth == 16;
            let components = if colors < 1 {
                1int
            } else if colors > 128 {
                128
            } else {
                colors as int
            };
            let width = if columns < 1 {
                1int
            } else if columns > 16777216 {
                16777216
            } else {
                columns as int
            };
            &&& predictor != 2 && predictor < 10 ==> out == data
            &&& predictor == 2 && odd ==> out == data
            &&& predictor == 2 && !odd ==> out == restored(
                data,
                2,
                components,
                8,
                width,
            )
            &&& predictor >= 10 && odd ==> out == restored(
                data,
                10,
                components,
                depth as int,
                width,
            )
            &&& predictor >= 10 && !odd ==> out == restored(
                data,
                10,
                components,
                8,
                width,
            )
        }),
{
}

/// Law: without parameters nothing is predicted, and the parameters that are
/// not named count as one colour, 8 bits and one column.
pub proof fn absent_parameters_have_defaults(
    data: Seq<u8>,
    parms: Map<Seq<char>, ObjectV>,
    predictor: i64,
)
    requires
        parms.contains_key("Predictor"@),
        parms["Predictor"@] == ObjectV::Int(predictor),
        !parms.contains_key("BitsPerComponent"@),
        !parms.contains_key("Colors"@),
        !parms.contains_key("Columns"@),
        predictor >= 2,
    ensures
        post_passed(data, None) == data,
        post_passed(data, Some(parms)) == restored(data, predictor as int, 1, 8, 1),
        post_passed(data, Some(parms.remove("Predictor"@))) == data,
{
    assert(!parms.remove("Predictor"@).contains_key("Predictor"@));
}

/// Law: a last row that is cut short is restored as far as it goes.
pub proof fn cut_rows_are_restored(
    data: Seq<u8>,
    pos: int,
    prev: Seq<u8>,
    row_len: int,
    bpp: int,
)
    requires
        0 <= pos < data.len(),
        pos + 1 + row_len > data.len(),
    ensures
        png_restored(data, pos, prev, row_len, bpp) == unfiltered(
            data[pos],
            data.skip(pos + 1),
            prev,
            bpp,
        ),
        png_restored(data, data.len() as int, prev, row_len, bpp).len() == 0,
{
    let end = data.len() as int;
    assert(data.subrange(pos + 1, end) =~= data.skip(pos + 1));
    let row = unfiltered(data[pos], data.skip(pos + 1), prev, bpp);
    assert(png_restored(data, end, padded_row(row, row_len), row_len, bpp) =~= Seq::<u8>::empty());
}

} // verus!
