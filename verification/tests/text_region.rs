use pdfboss_core::filters::jbig2::bitmap::Bitmap;
use pdfboss_core::filters::jbig2::bits::BitReader;
use pdfboss_core::filters::jbig2::budget::{Budget, ROW_COST};
use pdfboss_core::filters::jbig2::huffman::{
    from_code_lengths, parse_table_segment, standard, Line, LineKind, Table, Unused,
};
use pdfboss_core::filters::jbig2::mq::{MqContexts, MqDecoder};
use pdfboss_core::filters::jbig2::refinement::{RefinementParams, GR_CONTEXT_LEN};
use pdfboss_core::filters::jbig2::segment::RegionInfo;
use pdfboss_core::filters::jbig2::text_region::{
    aggregate_source, decode_aggregate_region, decode_symbol_id_codes, decode_text_region,
    read_run_code_lengths, read_run_code_table, read_symbol_code_lengths, sym_code_len, RUN_CODES,
    SYMBOL_CODE_COST, TABLE_COUNT_DISAGREES,
};
use pdfboss_core::filters::jbig2::values::{Arithmetic, IntCtxSet};
use pdfboss_core::filters::jbig2::arith_int::IaidCtx;
use pdfboss_core::filters::jbig2::walk::{RefCorner, Symbols, INSTANCE_COST};
use pdfboss_core::filters::jbig2::Jbig2Error;

/// The states of the arithmetic coder: probability, the next state after the
/// more probable symbol and after the less probable one, and whether the sense
/// of the two switches.
const STATES: [(u32, u8, u8, bool); 47] = [
    (0x5601, 1, 1, true),
    (0x3401, 2, 6, false),
    (0x1801, 3, 9, false),
    (0x0ac1, 4, 12, false),
    (0x0521, 5, 29, false),
    (0x0221, 38, 33, false),
    (0x5601, 7, 6, true),
    (0x5401, 8, 14, false),
    (0x4801, 9, 14, false),
    (0x3801, 10, 14, false),
    (0x3001, 11, 17, false),
    (0x2401, 12, 18, false),
    (0x1c01, 13, 20, false),
    (0x1601, 29, 21, false),
    (0x5601, 15, 14, true),
    (0x5401, 16, 14, false),
    (0x5101, 17, 15, false),
    (0x4801, 18, 16, false),
    (0x3801, 19, 17, false),
    (0x3401, 20, 18, false),
    (0x3001, 21, 19, false),
    (0x2801, 22, 19, false),
    (0x2401, 23, 20, false),
    (0x2201, 24, 21, false),
    (0x1c01, 25, 22, false),
    (0x1801, 26, 23, false),
    (0x1601, 27, 24, false),
    (0x1401, 28, 25, false),
    (0x1201, 29, 26, false),
    (0x1101, 30, 27, false),
    (0x0ac1, 31, 28, false),
    (0x09c1, 32, 29, false),
    (0x08a1, 33, 30, false),
    (0x0521, 34, 31, false),
    (0x0441, 35, 32, false),
    (0x02a1, 36, 33, false),
    (0x0221, 37, 34, false),
    (0x0141, 38, 35, false),
    (0x0111, 39, 36, false),
    (0x0085, 40, 37, false),
    (0x0049, 41, 38, false),
    (0x0025, 42, 39, false),
    (0x0015, 43, 40, false),
    (0x0009, 44, 41, false),
    (0x0005, 45, 42, false),
    (0x0001, 45, 43, false),
    (0x5601, 46, 46, false),
];

#[derive(Clone, Copy, Default)]
struct Cx {
    index: u8,
    mps: u8,
}

/// An arithmetic encoder, the mirror of the library's decoder.
struct MqEncoder {
    a: u32,
    c: u32,
    ct: u32,
    out: Vec<u8>,
}

impl MqEncoder {
    fn new() -> MqEncoder {
        // The byte in front of the first is dropped by `finish`.
        MqEncoder { a: 0x8000, c: 0, ct: 12, out: vec![0] }
    }

    fn encode(&mut self, cx: &mut Cx, bit: u8) {
        let (qe, mps_next, lps_next, switches) = STATES[usize::from(cx.index)];
        self.a -= qe;
        if bit == cx.mps {
            if self.a & 0x8000 != 0 {
                self.c += qe;
                return;
            }
            if self.a < qe {
                self.a = qe;
            } else {
                self.c += qe;
            }
            cx.index = mps_next;
        } else {
            if self.a < qe {
                self.c += qe;
            } else {
                self.a = qe;
            }
            if switches {
                cx.mps = 1 - cx.mps;
            }
            cx.index = lps_next;
        }
        loop {
            self.a <<= 1;
            self.c <<= 1;
            self.ct -= 1;
            if self.ct == 0 {
                self.byte_out();
            }
            if self.a & 0x8000 != 0 {
                return;
            }
        }
    }

    fn byte_out(&mut self) {
        let last = self.out.len() - 1;
        if self.out[last] != 0xFF && self.c >= 0x800_0000 {
            self.out[last] += 1;
            self.c &= 0x7FF_FFFF;
        }
        if self.out[last] == 0xFF {
            self.out.push((self.c >> 20) as u8);
            self.c &= 0xF_FFFF;
            self.ct = 7;
        } else {
            self.out.push((self.c >> 19) as u8);
            self.c &= 0x7_FFFF;
            self.ct = 8;
        }
    }

    fn finish(mut self) -> Vec<u8> {
        let limit = self.c + self.a;
        self.c |= 0xFFFF;
        if self.c >= limit {
            self.c -= 0x8000;
        }
        self.c <<= self.ct;
        self.byte_out();
        self.c <<= self.ct;
        self.byte_out();
        if self.out[self.out.len() - 1] != 0xFF {
            self.out.push(0xFF);
        }
        self.out.push(0xAC);
        self.out.remove(0);
        self.out
    }
}

/// The contexts of every kind of integer, and of the symbol ids.
struct Ints {
    iadt: Vec<Cx>,
    iafs: Vec<Cx>,
    iads: Vec<Cx>,
    iait: Vec<Cx>,
    iari: Vec<Cx>,
    iardw: Vec<Cx>,
    iardh: Vec<Cx>,
    iardx: Vec<Cx>,
    iardy: Vec<Cx>,
}

impl Ints {
    fn new() -> Ints {
        let fresh = vec![Cx::default(); 512];
        Ints {
            iadt: fresh.clone(),
            iafs: fresh.clone(),
            iads: fresh.clone(),
            iait: fresh.clone(),
            iari: fresh.clone(),
            iardw: fresh.clone(),
            iardh: fresh.clone(),
            iardx: fresh.clone(),
            iardy: fresh,
        }
    }
}

/// Codes one integer, or the end mark.
fn encode_int(enc: &mut MqEncoder, cxs: &mut [Cx], value: Option<i32>) {
    let mut bits: Vec<u8> = Vec::new();
    let (negative, magnitude) = match value {
        Some(v) => (v < 0, i64::from(v).unsigned_abs()),
        None => (true, 0),
    };
    bits.push(u8::from(negative));
    let (prefix, width, base): (&[u8], u32, u64) = if magnitude < 4 {
        (&[0], 2, 0)
    } else if magnitude < 20 {
        (&[1, 0], 4, 4)
    } else if magnitude < 84 {
        (&[1, 1, 0], 6, 20)
    } else if magnitude < 340 {
        (&[1, 1, 1, 0], 8, 84)
    } else if magnitude < 4436 {
        (&[1, 1, 1, 1, 0], 12, 340)
    } else {
        (&[1, 1, 1, 1, 1], 32, 4436)
    };
    bits.extend_from_slice(prefix);
    for i in (0..width).rev() {
        bits.push(((magnitude - base) >> i & 1) as u8);
    }
    let mut prev = 1usize;
    for bit in bits {
        enc.encode(&mut cxs[prev], bit);
        let next = prev << 1 | usize::from(bit);
        prev = if prev < 256 { next } else { next & 511 | 256 };
    }
}

/// Codes one symbol id in as many bits as the contexts are for.
fn encode_iaid(enc: &mut MqEncoder, cxs: &mut [Cx], code_len: u32, id: u32) {
    let mut prev = 1usize;
    for i in (0..code_len).rev() {
        let bit = (id >> i & 1) as u8;
        enc.encode(&mut cxs[prev], bit);
        prev = prev << 1 | usize::from(bit);
    }
}

/// Codes the pixels of `target` against `reference` moved by `dx` and `dy`,
/// with the nominal adaptive pixels or, for template 1, without any.
fn encode_refinement_into(
    enc: &mut MqEncoder,
    gr: &mut [Cx],
    target: &Bitmap,
    reference: &Bitmap,
    template: u8,
    dx: i32,
    dy: i32,
) {
    let offsets: &[(i64, i64)] = if template == 1 {
        &[(1, 1), (0, 1), (1, 0), (0, 0), (-1, 0), (0, -1)]
    } else {
        &[(1, 1), (0, 1), (-1, 1), (1, 0), (0, 0), (-1, 0), (1, -1), (0, -1), (-1, -1)]
    };
    for y in 0..i64::from(target.height()) {
        for x in 0..i64::from(target.width()) {
            let mut context = 0usize;
            for (i, j) in [(-1, 0), (1, -1), (0, -1), (-1, -1)] {
                context = context << 1 | usize::from(target.get(x + i, y + j));
            }
            for (i, j) in offsets {
                let pixel = reference.get(x - i64::from(dx) + i, y - i64::from(dy) + j);
                context = context << 1 | usize::from(pixel);
            }
            enc.encode(&mut gr[context], target.get(x, y));
        }
    }
}

/// Writes bits, most significant first.
#[derive(Default)]
struct BitWriter {
    bytes: Vec<u8>,
    used: u8,
}

impl BitWriter {
    fn push(&mut self, value: u32, count: u8) {
        for i in (0..count).rev() {
            if self.used == 0 {
                self.bytes.push(0);
            }
            let last = self.bytes.len() - 1;
            self.bytes[last] |= ((value >> i & 1) as u8) << (7 - self.used);
            self.used = (self.used + 1) % 8;
        }
    }

    fn align(&mut self) {
        self.used = 0;
    }

    fn push_bytes(&mut self, bytes: &[u8]) {
        assert_eq!(self.used, 0, "bytes begin on a byte boundary");
        self.bytes.extend_from_slice(bytes);
    }

    fn finish(self) -> Vec<u8> {
        self.bytes
    }
}

/// The codes of a table's lines: ascending by length, then by place.
fn codes_of(lines: &[Line]) -> Vec<u32> {
    let mut codes = vec![0u32; lines.len()];
    let mut next = 0u64;
    for len in 1..=32u8 {
        next <<= 1;
        for (line, code) in lines.iter().zip(codes.iter_mut()) {
            if line.prefix_len == len {
                *code = next as u32;
                next += 1;
            }
        }
    }
    codes
}

/// Writes the code of a value, or of the end mark, with the bits that follow
/// it.
fn push_value(w: &mut BitWriter, table: &Table, value: Option<i32>) {
    let lines = table.lines();
    let codes = codes_of(lines);
    for (line, code) in lines.iter().zip(codes) {
        if line.prefix_len == 0 {
            continue;
        }
        let low = i64::from(line.low);
        let (extra, width) = match (line.kind, value) {
            (LineKind::OutOfBand, None) => (0, 0),
            (LineKind::Range(len), Some(v)) => {
                let over = i64::from(v) - low;
                if over < 0 || over >= 1i64 << len {
                    continue;
                }
                (over, len)
            }
            (LineKind::Lower, Some(v)) if i64::from(v) <= low => (low - i64::from(v), 32),
            (LineKind::Upper, Some(v)) if i64::from(v) >= low => (i64::from(v) - low, 32),
            _ => continue,
        };
        w.push(code, line.prefix_len);
        w.push(extra as u32, width);
        return;
    }
    panic!("the table does not code {value:?}");
}

fn glyph(rows: &[&str]) -> Bitmap {
    let height = rows.len() as u32;
    let width = rows[0].len() as u32;
    let mut bm = Bitmap::new(width, height);
    for (y, row) in rows.iter().enumerate() {
        for (x, ch) in row.bytes().enumerate() {
            bm.set(x as u32, y as u32, u8::from(ch == b'1'));
        }
    }
    bm
}

/// A table segment with one ordinary line over `low` and the fifteen values
/// above it behind a one-bit prefix, an unused lower line and an upper line.
fn code_table_segment(low: i32) -> Vec<u8> {
    let htps = 3u8;
    let htrs = 5u8;
    let mut out = vec![((htps - 1) << 1) | ((htrs - 1) << 4)];
    out.extend_from_slice(&(low as u32).to_be_bytes());
    out.extend_from_slice(&((low + 16) as u32).to_be_bytes());
    let mut w = BitWriter::default();
    w.push(1, htps);
    w.push(4, htrs);
    w.push(0, htps);
    w.push(1, htps);
    out.extend_from_slice(&w.finish());
    out
}

/// The same with an end mark, which takes the one-bit code.
fn oob_code_table_segment(low: i32) -> Vec<u8> {
    let htps = 3u8;
    let htrs = 5u8;
    let mut out = vec![1 | ((htps - 1) << 1) | ((htrs - 1) << 4)];
    out.extend_from_slice(&(low as u32).to_be_bytes());
    out.extend_from_slice(&((low + 16) as u32).to_be_bytes());
    let mut w = BitWriter::default();
    w.push(2, htps);
    w.push(4, htrs);
    w.push(0, htps);
    w.push(2, htps);
    w.push(1, htps);
    out.extend_from_slice(&w.finish());
    out
}

fn two_symbols() -> Vec<Bitmap> {
    vec![
        glyph(&["101", "010", "101", "010"]),
        glyph(&["11111", "10001", "10001", "11111"]),
    ]
}

/// The flags of a text region. The defaults are those of a plain line of text.
#[derive(Clone, Copy)]
struct Shape {
    log_strips: u8,
    corner: u8,
    transposed: bool,
    combop: u8,
    defpixel: bool,
    dsoffset: i32,
    rtemplate: u8,
}

impl Default for Shape {
    fn default() -> Self {
        Shape {
            log_strips: 0,
            corner: 1,
            transposed: false,
            combop: 0,
            defpixel: false,
            dsoffset: 0,
            rtemplate: 0,
        }
    }
}

fn flags_of(shape: Shape) -> u16 {
    u16::from(shape.log_strips) << 2
        | u16::from(shape.corner) << 4
        | u16::from(shape.transposed) << 6
        | u16::from(shape.combop) << 7
        | u16::from(shape.defpixel) << 9
        | ((shape.dsoffset as u16) & 0x1F) << 10
        | u16::from(shape.rtemplate & 1) << 15
}

/// One instruction of a text region: open a strip, place its first instance,
/// place a later one, close it.
enum Op {
    Strip(i32),
    First(i32, u32),
    Next(i32, u32),
    EndStrip,
}

fn region_info_bytes(width: u32, height: u32) -> Vec<u8> {
    let mut out = width.to_be_bytes().to_vec();
    out.extend_from_slice(&height.to_be_bytes());
    out.extend_from_slice(&0u32.to_be_bytes());
    out.extend_from_slice(&0u32.to_be_bytes());
    out.push(0);
    out
}

fn text_segment(
    region: (u32, u32),
    shape: Shape,
    instances: u32,
    num_syms: u32,
    initial_dt: i32,
    ops: &[Op],
) -> Vec<u8> {
    let mut enc = MqEncoder::new();
    let mut ints = Ints::new();
    let code_len = sym_code_len(num_syms);
    let mut iaid = vec![Cx::default(); 1 << code_len];
    encode_int(&mut enc, &mut ints.iadt, Some(initial_dt));
    for op in ops {
        match op {
            Op::Strip(dt) => encode_int(&mut enc, &mut ints.iadt, Some(*dt)),
            Op::First(dfs, id) => {
                encode_int(&mut enc, &mut ints.iafs, Some(*dfs));
                encode_iaid(&mut enc, &mut iaid, code_len, *id);
            }
            Op::Next(ids, id) => {
                encode_int(&mut enc, &mut ints.iads, Some(*ids));
                encode_iaid(&mut enc, &mut iaid, code_len, *id);
            }
            Op::EndStrip => encode_int(&mut enc, &mut ints.iads, None),
        }
    }
    let mut out = region_info_bytes(region.0, region.1);
    out.extend_from_slice(&flags_of(shape).to_be_bytes());
    out.extend_from_slice(&instances.to_be_bytes());
    out.extend_from_slice(&enc.finish());
    out
}

/// A placement: the delta on S, the T offset within the strip, the symbol id.
type Placement = (i32, i32, u32);

/// A strip: the delta on T, counted in strips, and its placements.
type StripOf<'a> = (i32, &'a [Placement]);

fn text_segment_with_curt(
    region: (u32, u32),
    shape: Shape,
    instances: u32,
    num_syms: u32,
    initial_dt: i32,
    strips: &[StripOf<'_>],
) -> Vec<u8> {
    let mut enc = MqEncoder::new();
    let mut ints = Ints::new();
    let code_len = sym_code_len(num_syms);
    let mut iaid = vec![Cx::default(); 1 << code_len];
    encode_int(&mut enc, &mut ints.iadt, Some(initial_dt));
    for (dt, placements) in strips {
        encode_int(&mut enc, &mut ints.iadt, Some(*dt));
        for (index, (ds, curt, id)) in placements.iter().enumerate() {
            if index == 0 {
                encode_int(&mut enc, &mut ints.iafs, Some(*ds));
            } else {
                encode_int(&mut enc, &mut ints.iads, Some(*ds));
            }
            encode_int(&mut enc, &mut ints.iait, Some(*curt));
            encode_iaid(&mut enc, &mut iaid, code_len, *id);
        }
        encode_int(&mut enc, &mut ints.iads, None);
    }
    let mut out = region_info_bytes(region.0, region.1);
    out.extend_from_slice(&flags_of(shape).to_be_bytes());
    out.extend_from_slice(&instances.to_be_bytes());
    out.extend_from_slice(&enc.finish());
    out
}

struct RefinedPlacement<'a> {
    ds: i32,
    curt: i32,
    id: u32,
    refine: Option<Refine<'a>>,
}

/// The refinement of one placement: the bitmap it decodes to, the four deltas,
/// and the reference offset that follows from them.
struct Refine<'a> {
    target: &'a Bitmap,
    rdw: i32,
    rdh: i32,
    rdx: i32,
    rdy: i32,
    dx: i32,
    dy: i32,
}

type RefinedStrip<'a> = (i32, &'a [RefinedPlacement<'a>]);

/// The nominal adaptive pixels of the refinement template.
fn refinement_at_bytes() -> Vec<u8> {
    vec![0xFF, 0xFF, 0xFF, 0xFF]
}

/// Codes the strips of a refined region into `enc`.
fn encode_refined_strips(
    enc: &mut MqEncoder,
    shape: Shape,
    symbols: &[Bitmap],
    initial_dt: i32,
    strips: &[RefinedStrip<'_>],
) {
    let mut ints = Ints::new();
    let code_len = sym_code_len(symbols.len() as u32);
    let mut iaid = vec![Cx::default(); 1 << code_len];
    let mut gr = vec![Cx::default(); GR_CONTEXT_LEN];
    encode_int(enc, &mut ints.iadt, Some(initial_dt));
    for (dt, placements) in strips {
        encode_int(enc, &mut ints.iadt, Some(*dt));
        for (index, p) in placements.iter().enumerate() {
            if index == 0 {
                encode_int(enc, &mut ints.iafs, Some(p.ds));
            } else {
                encode_int(enc, &mut ints.iads, Some(p.ds));
            }
            if shape.log_strips > 0 {
                encode_int(enc, &mut ints.iait, Some(p.curt));
            }
            encode_iaid(enc, &mut iaid, code_len, p.id);
            let ri = i32::from(p.refine.is_some());
            encode_int(enc, &mut ints.iari, Some(ri));
            let Some(r) = &p.refine else {
                continue;
            };
            encode_int(enc, &mut ints.iardw, Some(r.rdw));
            encode_int(enc, &mut ints.iardh, Some(r.rdh));
            encode_int(enc, &mut ints.iardx, Some(r.rdx));
            encode_int(enc, &mut ints.iardy, Some(r.rdy));
            encode_refinement_into(
                enc,
                &mut gr,
                r.target,
                &symbols[p.id as usize],
                shape.rtemplate,
                r.dx,
                r.dy,
            );
        }
        encode_int(enc, &mut ints.iads, None);
    }
}

fn refined_text_segment(
    region: (u32, u32),
    shape: Shape,
    instances: u32,
    symbols: &[Bitmap],
    initial_dt: i32,
    strips: &[RefinedStrip<'_>],
) -> Vec<u8> {
    let mut enc = MqEncoder::new();
    encode_refined_strips(&mut enc, shape, symbols, initial_dt, strips);
    let mut out = region_info_bytes(region.0, region.1);
    out.extend_from_slice(&(flags_of(shape) | 0x0002).to_be_bytes());
    if shape.rtemplate == 0 {
        out.extend_from_slice(&refinement_at_bytes());
    }
    out.extend_from_slice(&instances.to_be_bytes());
    out.extend_from_slice(&enc.finish());
    out
}

fn huffman_refined_text_segment(
    region: (u32, u32),
    shape: Shape,
    instances: u32,
    symbols: &[Bitmap],
    initial_dt: i32,
    strips: &[RefinedStrip<'_>],
    rdw: Option<&Table>,
) -> Vec<u8> {
    let standard_rdw = standard(14).expect("standard table");
    let rdw_table = rdw.unwrap_or(&standard_rdw);
    let rdh = standard(15).expect("standard table");
    let rd = standard(14).expect("standard table");
    let fs = standard(6).expect("standard table");
    let ds = standard(8).expect("standard table");
    let dt = standard(11).expect("standard table");
    let rsize = standard(1).expect("standard table");
    let lengths = symbol_code_lengths(symbols.len() as u32);
    let codes = from_code_lengths(&lengths, Unused::Refused).expect("symbol ID codes");
    let mut gr = vec![Cx::default(); GR_CONTEXT_LEN];

    let mut w = BitWriter::default();
    push_symbol_id_table(&mut w, &lengths);
    push_value(&mut w, &dt, Some(initial_dt));
    for (delta, placements) in strips {
        push_value(&mut w, &dt, Some(*delta));
        for (index, p) in placements.iter().enumerate() {
            if index == 0 {
                push_value(&mut w, &fs, Some(p.ds));
            } else {
                push_value(&mut w, &ds, Some(p.ds));
            }
            if shape.log_strips > 0 {
                w.push(p.curt as u32, shape.log_strips);
            }
            push_value(&mut w, &codes, Some(p.id as i32));
            w.push(u32::from(p.refine.is_some()), 1);
            let Some(r) = &p.refine else {
                continue;
            };
            push_value(&mut w, rdw_table, Some(r.rdw));
            push_value(&mut w, &rdh, Some(r.rdh));
            push_value(&mut w, &rd, Some(r.rdx));
            push_value(&mut w, &rd, Some(r.rdy));
            let mut chunk = MqEncoder::new();
            encode_refinement_into(
                &mut chunk,
                &mut gr,
                r.target,
                &symbols[p.id as usize],
                shape.rtemplate,
                r.dx,
                r.dy,
            );
            let coded = chunk.finish();
            push_value(&mut w, &rsize, Some(coded.len() as i32));
            w.align();
            w.push_bytes(&coded);
        }
        push_value(&mut w, &ds, None);
    }

    let mut out = region_info_bytes(region.0, region.1);
    out.extend_from_slice(&(flags_of(shape) | 0x0003).to_be_bytes());
    let huffman_flags: u16 = (1 << 8) | if rdw.is_some() { 3 << 6 } else { 0 };
    out.extend_from_slice(&huffman_flags.to_be_bytes());
    if shape.rtemplate == 0 {
        out.extend_from_slice(&refinement_at_bytes());
    }
    out.extend_from_slice(&instances.to_be_bytes());
    out.extend_from_slice(&w.finish());
    out
}

/// One length for every symbol, wide enough to tell them apart, and one bit at
/// the least.
fn symbol_code_lengths(num_syms: u32) -> Vec<u8> {
    let len = sym_code_len(num_syms).max(1) as u8;
    vec![len; num_syms as usize]
}

/// Writes the symbol id table. Every run code gets six bits, so the run code
/// with the number n is the six-bit number n.
fn push_symbol_id_table(w: &mut BitWriter, lengths: &[u8]) {
    for _ in 0..35 {
        w.push(6, 4);
    }
    for &len in lengths {
        assert!(len < 32, "a run code names lengths 0 to 31");
        w.push(u32::from(len), 6);
    }
    w.align();
}

fn huffman_text_segment(
    region: (u32, u32),
    shape: Shape,
    instances: u32,
    num_syms: u32,
    initial_dt: i32,
    strips: &[StripOf<'_>],
    fs: Option<&Table>,
) -> Vec<u8> {
    let standard_fs = standard(6).expect("standard table");
    let fs_table = fs.unwrap_or(&standard_fs);
    let ds = standard(8).expect("standard table");
    let dt = standard(11).expect("standard table");
    let lengths = symbol_code_lengths(num_syms);
    let codes = from_code_lengths(&lengths, Unused::Refused).expect("symbol ID codes");

    let mut w = BitWriter::default();
    push_symbol_id_table(&mut w, &lengths);
    push_value(&mut w, &dt, Some(initial_dt));
    for (delta, placements) in strips {
        push_value(&mut w, &dt, Some(*delta));
        for (index, (ds_value, curt, id)) in placements.iter().enumerate() {
            if index == 0 {
                push_value(&mut w, fs_table, Some(*ds_value));
            } else {
                push_value(&mut w, &ds, Some(*ds_value));
            }
            if shape.log_strips > 0 {
                w.push(*curt as u32, shape.log_strips);
            }
            push_value(&mut w, &codes, Some(*id as i32));
        }
        push_value(&mut w, &ds, None);
    }

    let mut out = region_info_bytes(region.0, region.1);
    out.extend_from_slice(&(flags_of(shape) | 0x0001).to_be_bytes());
    let huffman_flags: u16 = if fs.is_some() { 3 } else { 0 };
    out.extend_from_slice(&huffman_flags.to_be_bytes());
    out.extend_from_slice(&instances.to_be_bytes());
    out.extend_from_slice(&w.finish());
    out
}

/// Asserts that `symbol` was drawn into `region` with its top-left pixel at
/// (x, y).
fn expect_at(region: &Bitmap, symbol: &Bitmap, x: i64, y: i64) {
    for sy in 0..symbol.height() {
        for sx in 0..symbol.width() {
            let want = symbol.get(i64::from(sx), i64::from(sy));
            let got = region.get(x + i64::from(sx), y + i64::from(sy));
            assert_eq!(got, want, "symbol pixel ({sx}, {sy}) at region ({x}, {y})");
        }
    }
}

fn decode(data: &[u8], symbols: &[&Bitmap]) -> Result<(RegionInfo, Bitmap), Jbig2Error> {
    decode_with(data, symbols, &[])
}

fn decode_with(
    data: &[u8],
    symbols: &[&Bitmap],
    tables: &[&Table],
) -> Result<(RegionInfo, Bitmap), Jbig2Error> {
    decode_text_region(data, symbols, tables, &mut Budget::new())
}

#[test]
fn places_instances_across_strips() {
    let syms = two_symbols();
    let refs: Vec<&Bitmap> = syms.iter().collect();
    let data = text_segment(
        (20, 16),
        Shape::default(),
        3,
        2,
        0,
        &[
            Op::Strip(2),
            Op::First(1, 0),
            Op::Next(2, 1),
            Op::EndStrip,
            Op::Strip(5),
            Op::First(-1, 0),
            Op::EndStrip,
        ],
    );
    let (info, region) = decode(&data, &refs).expect("text region");
    assert_eq!((info.width, info.height), (20, 16));
    expect_at(&region, &syms[0], 1, 2);
    expect_at(&region, &syms[1], 5, 2);
    expect_at(&region, &syms[0], 0, 7);
    assert_eq!(region.get(19, 15), 0);
}

#[test]
fn honours_every_refcorner_and_transposition() {
    let symbol = glyph(&["101", "010"]);
    let syms = [&symbol];
    let cases: [(bool, u8, i64, i64); 8] = [
        (false, 1, 4, 5),
        (false, 3, 4, 5),
        (false, 0, 4, 4),
        (false, 2, 4, 4),
        (true, 1, 5, 4),
        (true, 3, 3, 4),
        (true, 0, 5, 4),
        (true, 2, 3, 4),
    ];
    for (transposed, corner, x, y) in cases {
        let shape = Shape {
            corner,
            transposed,
            ..Shape::default()
        };
        let data = text_segment(
            (16, 16),
            shape,
            1,
            1,
            0,
            &[Op::Strip(5), Op::First(4, 0), Op::EndStrip],
        );
        let (_, region) = decode(&data, &syms).expect("text region");
        expect_at(&region, &symbol, x, y);
    }
}

#[test]
fn curs_ends_on_the_symbol_far_edge_for_every_corner() {
    let symbol = glyph(&["101", "010"]);
    let syms = [&symbol];
    let cases: [(bool, u8, i64, i64, i64, i64); 8] = [
        (false, 1, 4, 3, 8, 3),
        (false, 3, 4, 3, 8, 3),
        (false, 0, 4, 2, 8, 2),
        (false, 2, 4, 2, 8, 2),
        (true, 1, 3, 4, 3, 7),
        (true, 3, 1, 4, 1, 7),
        (true, 0, 3, 4, 3, 7),
        (true, 2, 1, 4, 1, 7),
    ];
    for (transposed, corner, first_x, first_y, second_x, second_y) in cases {
        let shape = Shape {
            corner,
            transposed,
            ..Shape::default()
        };
        let data = text_segment(
            (24, 24),
            shape,
            2,
            1,
            0,
            &[Op::Strip(3), Op::First(4, 0), Op::Next(2, 0), Op::EndStrip],
        );
        let (_, region) = decode(&data, &syms).expect("text region");
        expect_at(&region, &symbol, first_x, first_y);
        expect_at(&region, &symbol, second_x, second_y);
    }
}

#[test]
fn applies_the_signed_ds_offset() {
    let symbol = glyph(&["11", "11"]);
    let syms = [&symbol];
    for offset in [-16i32, -1, 0, 1, 15] {
        let shape = Shape {
            dsoffset: offset,
            ..Shape::default()
        };
        let data = text_segment(
            (48, 8),
            shape,
            2,
            1,
            0,
            &[Op::Strip(0), Op::First(4, 0), Op::Next(20, 0), Op::EndStrip],
        );
        let (_, region) = decode(&data, &syms).expect("text region");
        expect_at(&region, &symbol, 4, 0);
        expect_at(&region, &symbol, i64::from(25 + offset), 0);
    }
}

#[test]
fn decodes_the_within_strip_t_offset() {
    let symbol = glyph(&["1"]);
    let syms = [&symbol];
    let shape = Shape {
        log_strips: 2,
        ..Shape::default()
    };
    let data =
        text_segment_with_curt((8, 16), shape, 2, 1, 0, &[(1, &[(2, 0, 0), (4, 3, 0)][..])]);
    let (_, region) = decode(&data, &syms).expect("text region");
    assert_eq!(region.get(2, 4), 1, "first at S = 2, T = 4 + 0");
    assert_eq!(region.get(6, 7), 1, "second at S = 6, T = 4 + 3");
}

#[test]
fn the_strip_delta_is_scaled_by_the_strip_height() {
    let symbol = glyph(&["1"]);
    let syms = [&symbol];
    let shape = Shape {
        log_strips: 2,
        ..Shape::default()
    };
    let data = text_segment_with_curt(
        (8, 32),
        shape,
        2,
        1,
        0,
        &[(1, &[(0, 0, 0)][..]), (3, &[(1, 0, 0)][..])],
    );
    let (_, region) = decode(&data, &syms).expect("text region");
    assert_eq!(region.get(0, 4), 1, "first strip at row 1 * 4");
    assert_eq!(region.get(1, 16), 1, "second strip at row (1 + 3) * 4");
}

#[test]
fn the_leading_strip_offset_is_negated() {
    let symbol = glyph(&["1"]);
    let syms = [&symbol];
    let data = text_segment(
        (8, 8),
        Shape::default(),
        1,
        1,
        3,
        &[Op::Strip(5), Op::First(0, 0), Op::EndStrip],
    );
    let (_, region) = decode(&data, &syms).expect("text region");
    assert_eq!(region.get(0, 2), 1, "STRIPT = -3 + 5");
}

#[test]
fn honours_the_default_pixel_value() {
    let symbol = glyph(&["0"]);
    let syms = [&symbol];
    let shape = Shape {
        defpixel: true,
        combop: 3,
        ..Shape::default()
    };
    let data = text_segment(
        (4, 4),
        shape,
        1,
        1,
        0,
        &[Op::Strip(0), Op::First(0, 0), Op::EndStrip],
    );
    let (_, region) = decode(&data, &syms).expect("text region");
    assert_eq!(region.get(3, 3), 1, "untouched cells keep SBDEFPIXEL");
    assert_eq!(region.get(0, 0), 0, "XNOR of 1 and 0 is 0");
}

#[test]
fn sym_code_len_is_the_bit_width_of_the_largest_id() {
    assert_eq!(sym_code_len(1), 0);
    assert_eq!(sym_code_len(2), 1);
    assert_eq!(sym_code_len(3), 2);
    assert_eq!(sym_code_len(4), 2);
    assert_eq!(sym_code_len(5), 3);
    assert_eq!(sym_code_len(256), 8);
    assert_eq!(sym_code_len(257), 9);
}

#[test]
fn sym_code_len_of_no_symbols_is_zero() {
    assert_eq!(sym_code_len(0), 0);
}

#[test]
fn a_refined_instance_decodes_and_advances_by_its_own_width() {
    let syms = two_symbols();
    let target = glyph(&["1111111", "1000001", "1111111"]);
    let strip = [
        RefinedPlacement {
            ds: 1,
            curt: 0,
            id: 0,
            refine: None,
        },
        RefinedPlacement {
            ds: 2,
            curt: 0,
            id: 1,
            refine: Some(Refine {
                target: &target,
                rdw: 2,
                rdh: -1,
                rdx: 0,
                rdy: 1,
                dx: 1,
                dy: 0,
            }),
        },
        RefinedPlacement {
            ds: 3,
            curt: 0,
            id: 0,
            refine: None,
        },
    ];
    let data = refined_text_segment((20, 10), Shape::default(), 3, &syms, 0, &[(2, &strip)]);
    let refs: Vec<&Bitmap> = syms.iter().collect();
    let (info, region) = decode(&data, &refs).expect("text region");
    assert_eq!((info.width, info.height), (20, 10));
    expect_at(&region, &syms[0], 1, 2);
    expect_at(&region, &target, 5, 2);
    expect_at(&region, &syms[0], 14, 2);
    assert_eq!(region.get(19, 9), 0);
}

#[test]
fn a_shrinking_refinement_floors_its_reference_offsets() {
    let reference = glyph(&[
        "1111111111",
        "1000110001",
        "1011001101",
        "1010110101",
        "1001100011",
        "1111111111",
    ]);
    let syms = [reference];
    let target = glyph(&[
        "111111111",
        "100101001",
        "101100110",
        "101011010",
        "111111111",
    ]);
    let strip = [RefinedPlacement {
        ds: 2,
        curt: 0,
        id: 0,
        refine: Some(Refine {
            target: &target,
            rdw: -1,
            rdh: -1,
            rdx: 1,
            rdy: 0,
            dx: 0,
            dy: -1,
        }),
    }];
    let data = refined_text_segment((16, 8), Shape::default(), 1, &syms, 0, &[(1, &strip)]);
    let refs: Vec<&Bitmap> = syms.iter().collect();
    let (_, region) = decode(&data, &refs).expect("text region");
    expect_at(&region, &target, 2, 1);
}

#[test]
fn a_template_1_refinement_carries_no_at_field() {
    let syms = two_symbols();
    let target = glyph(&["11111", "10011", "11001", "11111"]);
    let shape = Shape {
        rtemplate: 1,
        ..Shape::default()
    };
    let strip = [RefinedPlacement {
        ds: 1,
        curt: 0,
        id: 1,
        refine: Some(Refine {
            target: &target,
            rdw: 0,
            rdh: 0,
            rdx: 0,
            rdy: 0,
            dx: 0,
            dy: 0,
        }),
    }];
    let data = refined_text_segment((10, 8), shape, 1, &syms, 0, &[(1, &strip)]);
    let refs: Vec<&Bitmap> = syms.iter().collect();
    let (_, region) = decode(&data, &refs).expect("text region");
    expect_at(&region, &target, 1, 1);
}

#[test]
fn a_huffman_region_decodes_refined_instances() {
    let big = glyph(&[
        "1111111111",
        "1000110001",
        "1011001101",
        "1010110101",
        "1001100011",
        "1111111111",
    ]);
    let syms = [glyph(&["101", "010", "101", "010"]), big];
    let first = glyph(&["10110011011", "11001100110", "10101010101", "11110000111"]);
    let second = glyph(&[
        "1111111111",
        "1001100101",
        "1010011001",
        "1011010101",
        "1000101011",
        "1111111111",
    ]);
    let strip = [
        RefinedPlacement {
            ds: 2,
            curt: 0,
            id: 1,
            refine: Some(Refine {
                target: &first,
                rdw: 1,
                rdh: -2,
                rdx: -1,
                rdy: 0,
                dx: -1,
                dy: -1,
            }),
        },
        RefinedPlacement {
            ds: 2,
            curt: 0,
            id: 1,
            refine: Some(Refine {
                target: &second,
                rdw: 0,
                rdh: 0,
                rdx: 0,
                rdy: 0,
                dx: 0,
                dy: 0,
            }),
        },
        RefinedPlacement {
            ds: 3,
            curt: 0,
            id: 0,
            refine: None,
        },
    ];
    let data = huffman_refined_text_segment(
        (30, 8),
        Shape::default(),
        3,
        &syms,
        1,
        &[(2, &strip)],
        None,
    );
    let refs: Vec<&Bitmap> = syms.iter().collect();
    let (_, region) = decode(&data, &refs).expect("text region");
    expect_at(&region, &first, 2, 1);
    expect_at(&region, &second, 14, 1);
    expect_at(&region, &syms[0], 26, 1);
}

#[test]
fn a_custom_table_binds_to_a_refinement_selector() {
    let table = parse_table_segment(&code_table_segment(0), &mut Budget::new())
        .expect("code table segment");
    let syms = two_symbols();
    let target = glyph(&["1111111", "1000001", "1000001", "1111111"]);
    let strip = [RefinedPlacement {
        ds: 1,
        curt: 0,
        id: 1,
        refine: Some(Refine {
            target: &target,
            rdw: 2,
            rdh: 0,
            rdx: 0,
            rdy: 0,
            dx: 1,
            dy: 0,
        }),
    }];
    let data = huffman_refined_text_segment(
        (16, 8),
        Shape::default(),
        1,
        &syms,
        1,
        &[(2, &strip)],
        Some(&table),
    );
    let refs: Vec<&Bitmap> = syms.iter().collect();
    let (_, region) = decode_with(&data, &refs, &[&table]).expect("text region");
    expect_at(&region, &target, 1, 1);
}

#[test]
fn the_refinement_huffman_flags_are_validated() {
    let symbol = glyph(&["1"]);
    let syms = [&symbol];
    let header = |huffman_flags: u16| {
        let mut data = vec![0u8; 17];
        data[3] = 8;
        data[7] = 8;
        data.extend_from_slice(&0x0003u16.to_be_bytes());
        data.extend_from_slice(&huffman_flags.to_be_bytes());
        data
    };
    assert_eq!(
        decode(&header(2 << 6), &syms),
        Err(Jbig2Error::Malformed(
            "reserved refinement Huffman table selection"
        )),
    );
    assert_eq!(
        decode(&header(1 << 14), &syms),
        Err(Jbig2Error::Malformed(TABLE_COUNT_DISAGREES)),
    );
    let oob = parse_table_segment(&oob_code_table_segment(0), &mut Budget::new())
        .expect("code table segment");
    assert_eq!(
        decode_with(&header(3 << 6), &syms, &[&oob]),
        Err(Jbig2Error::Malformed(
            "a refinement Huffman table codes OOB"
        )),
    );
}

#[test]
fn a_refined_instance_draws_on_the_stream_budget() {
    let symbol = glyph(&["1"]);
    let syms = [symbol.clone()];
    let refs: Vec<&Bitmap> = syms.iter().collect();
    let target = glyph(&["11", "10"]);
    let strip = [RefinedPlacement {
        ds: 0,
        curt: 0,
        id: 0,
        refine: Some(Refine {
            target: &target,
            rdw: 1,
            rdh: 1,
            rdx: 0,
            rdy: 0,
            dx: 0,
            dy: 0,
        }),
    }];
    let data = refined_text_segment((8, 8), Shape::default(), 1, &syms, 0, &[(0, &strip)]);
    let total = 8 * (8 + ROW_COST) + INSTANCE_COST + 2 * (2 * (2 + ROW_COST));

    let mut budget = Budget::with_limit(total);
    assert!(decode_text_region(&data, &refs, &[], &mut budget).is_ok());

    let mut budget = Budget::with_limit(total - 1);
    assert_eq!(
        decode_text_region(&data, &refs, &[], &mut budget),
        Err(Jbig2Error::WorkLimit),
    );
}

#[test]
fn an_enormous_refinement_is_refused_by_the_budget() {
    let syms = two_symbols();
    let target = glyph(&["11"]);
    let strip = [RefinedPlacement {
        ds: 0,
        curt: 0,
        id: 1,
        refine: Some(Refine {
            target: &target,
            rdw: 1 << 20,
            rdh: 1 << 20,
            rdx: 0,
            rdy: 0,
            dx: 0,
            dy: 0,
        }),
    }];
    let data = refined_text_segment((8, 8), Shape::default(), 1, &syms, 0, &[(0, &strip)]);
    let refs: Vec<&Bitmap> = syms.iter().collect();
    assert_eq!(
        decode_text_region(&data, &refs, &[], &mut Budget::with_limit(1 << 16)),
        Err(Jbig2Error::WorkLimit),
    );
}

#[test]
fn a_refinement_below_zero_size_is_refused() {
    let syms = two_symbols();
    let target = glyph(&["1"]);
    let strip = [RefinedPlacement {
        ds: 0,
        curt: 0,
        id: 1,
        refine: Some(Refine {
            target: &target,
            rdw: -6,
            rdh: 0,
            rdx: 0,
            rdy: 0,
            dx: 0,
            dy: 0,
        }),
    }];
    let data = refined_text_segment((8, 8), Shape::default(), 1, &syms, 0, &[(0, &strip)]);
    let refs: Vec<&Bitmap> = syms.iter().collect();
    assert_eq!(
        decode(&data, &refs),
        Err(Jbig2Error::Malformed("refined instance size out of range")),
    );
}

#[test]
fn every_truncation_of_a_refined_segment_errors_cleanly() {
    let syms = two_symbols();
    let target = glyph(&["1111111", "1000001", "1111111"]);
    let strip = [RefinedPlacement {
        ds: 1,
        curt: 0,
        id: 1,
        refine: Some(Refine {
            target: &target,
            rdw: 2,
            rdh: -1,
            rdx: 0,
            rdy: 1,
            dx: 1,
            dy: 0,
        }),
    }];
    let segment = refined_text_segment((20, 10), Shape::default(), 1, &syms, 0, &[(2, &strip)]);
    let refs: Vec<&Bitmap> = syms.iter().collect();
    for cut in 0..segment.len() {
        let _ = decode_text_region(&segment[..cut], &refs, &[], &mut Budget::new());
    }
}

#[test]
fn the_symbol_id_table_reproduces_the_worked_example() {
    let example: [u8; 27] = [
        0x50, 0x03, 0x35, 0x32, 0x53, 0x00, 0x00, 0x00, 0x00,
        0x00, 0x00, 0x00, 0x00, 0x00, 0x00, 0x00, 0x35, 0x0F,
        0x8B, 0x30, 0x9E, 0xB8, 0x5F, 0x1D, 0xD2, 0x83, 0x00,
    ];
    let wanted_run_lengths: [u8; RUN_CODES] = [
        5, 0, 0, 3, 3, 5, 3, 2, 5, 3,
        0, 0, 0, 0, 0, 0, 0, 0, 0, 0,
        0, 0, 0, 0, 0, 0, 0, 0, 0, 0,
        0, 0, 3, 5, 0,
    ];
    let symbol_lengths: [u8; 32] = [
        0, 0, 0, 9, 6, 6, 6, 6, 3, 4, 4, 4, 4, 4, 4, 0,
        7, 9, 8, 7, 5, 5, 5, 5, 5, 5, 3, 6, 7, 4, 7, 7,
    ];

    let mut bits = BitReader::new(&example);
    let run_lengths = read_run_code_lengths(&mut bits).expect("run code lengths");
    assert_eq!(run_lengths, wanted_run_lengths);

    let runs = from_code_lengths(&run_lengths, Unused::Refused).expect("run code table");
    let lengths = read_symbol_code_lengths(&mut bits, &runs, 32).expect("symbol code lengths");
    assert_eq!(lengths, symbol_lengths);

    assert_eq!(bits.remaining(), 4);
    bits.align_to_byte();
    assert!(bits.is_exhausted());

    let mut whole = BitReader::new(&example);
    let codes =
        decode_symbol_id_codes(&mut whole, 32, &mut Budget::new()).expect("symbol ID codes");
    assert!(whole.is_exhausted());
    let mut ids = BitReader::new(&[0b0000_0101, 0b0000_0000]);
    assert_eq!(codes.decode(&mut ids), Ok(Some(8)));
    assert_eq!(codes.decode(&mut ids), Ok(Some(26)));
    assert_eq!(codes.decode(&mut ids), Ok(Some(9)));
}

#[test]
fn the_repeating_run_codes_expand_as_table_29_says() {
    let mut w = BitWriter::default();
    for _ in 0..RUN_CODES {
        w.push(6, 4);
    }
    w.push(5, 6);
    w.push(32, 6);
    w.push(1, 2);
    w.push(33, 6);
    w.push(7, 3);
    w.push(34, 6);
    w.push(0, 7);
    w.push(1, 6);
    let data = w.finish();

    let mut bits = BitReader::new(&data);
    let runs = read_run_code_table(&mut bits).expect("run code table");
    let lengths = read_symbol_code_lengths(&mut bits, &runs, 27).expect("symbol code lengths");

    let mut want = vec![5u8; 5];
    want.extend(std::iter::repeat_n(0, 21));
    want.push(1);
    assert_eq!(lengths, want);
}

#[test]
fn a_symbol_id_run_past_the_last_symbol_is_refused() {
    let mut w = BitWriter::default();
    for _ in 0..RUN_CODES {
        w.push(6, 4);
    }
    w.push(33, 6);
    w.push(7, 3);
    let data = w.finish();

    let mut bits = BitReader::new(&data);
    let runs = read_run_code_table(&mut bits).expect("run code table");
    assert_eq!(
        read_symbol_code_lengths(&mut bits, &runs, 5),
        Err(Jbig2Error::Malformed("symbol ID run past the last symbol")),
    );
}

#[test]
fn a_leading_runcode32_is_refused() {
    let mut w = BitWriter::default();
    for _ in 0..RUN_CODES {
        w.push(6, 4);
    }
    w.push(32, 6);
    w.push(0, 2);
    let data = w.finish();

    let mut bits = BitReader::new(&data);
    let runs = read_run_code_table(&mut bits).expect("run code table");
    assert_eq!(
        read_symbol_code_lengths(&mut bits, &runs, 8),
        Err(Jbig2Error::Malformed(
            "RUNCODE32 with no previous symbol ID code length"
        )),
    );
}

#[test]
fn a_huffman_region_places_instances_across_strips() {
    let syms = two_symbols();
    let refs: Vec<&Bitmap> = syms.iter().collect();
    let first: [Placement; 2] = [(1, 0, 0), (2, 0, 1)];
    let second: [Placement; 1] = [(-1, 0, 0)];
    let data = huffman_text_segment(
        (20, 16),
        Shape::default(),
        3,
        2,
        1,
        &[(3, &first[..]), (5, &second[..])],
        None,
    );
    let (info, region) = decode(&data, &refs).expect("text region");
    assert_eq!((info.width, info.height), (20, 16));
    expect_at(&region, &syms[0], 1, 2);
    expect_at(&region, &syms[1], 5, 2);
    expect_at(&region, &syms[0], 0, 7);
    assert_eq!(region.get(19, 15), 0);
}

#[test]
fn a_huffman_region_honours_every_refcorner_and_transposition() {
    let symbol = glyph(&["101", "010"]);
    let syms = [&symbol];
    let cases: [(bool, u8, i64, i64); 8] = [
        (false, 1, 4, 5),
        (false, 3, 4, 5),
        (false, 0, 4, 4),
        (false, 2, 4, 4),
        (true, 1, 5, 4),
        (true, 3, 3, 4),
        (true, 0, 5, 4),
        (true, 2, 3, 4),
    ];
    for (transposed, corner, x, y) in cases {
        let shape = Shape {
            corner,
            transposed,
            ..Shape::default()
        };
        let only: [Placement; 1] = [(4, 0, 0)];
        let data = huffman_text_segment((16, 16), shape, 1, 1, 1, &[(6, &only[..])], None);
        let (_, region) = decode(&data, &syms).expect("text region");
        expect_at(&region, &symbol, x, y);
    }
}

#[test]
fn a_huffman_region_reads_the_within_strip_t_offset_as_raw_bits() {
    let symbol = glyph(&["1"]);
    let syms = [&symbol];
    let shape = Shape {
        log_strips: 2,
        ..Shape::default()
    };
    let strip: [Placement; 2] = [(2, 0, 0), (4, 3, 0)];
    let data = huffman_text_segment((8, 16), shape, 2, 1, 1, &[(2, &strip[..])], None);
    let (_, region) = decode(&data, &syms).expect("text region");
    assert_eq!(region.get(2, 4), 1, "first at S = 2, T = 4 + 0");
    assert_eq!(region.get(6, 7), 1, "second at S = 6, T = 4 + 3");
}

#[test]
fn a_custom_table_binds_to_the_selector_that_named_it() {
    let table = parse_table_segment(&code_table_segment(0), &mut Budget::new())
        .expect("code table segment");
    let syms = two_symbols();
    let refs: Vec<&Bitmap> = syms.iter().collect();
    let strip: [Placement; 2] = [(1, 0, 0), (2, 0, 1)];
    let data = huffman_text_segment(
        (20, 16),
        Shape::default(),
        2,
        2,
        1,
        &[(3, &strip[..])],
        Some(&table),
    );
    let (_, region) = decode_with(&data, &refs, &[&table]).expect("text region");
    expect_at(&region, &syms[0], 1, 2);
    expect_at(&region, &syms[1], 5, 2);
}

fn huffman_header(huffman_flags: u16) -> Vec<u8> {
    let mut data = vec![0u8; 17];
    data[3] = 8;
    data[7] = 8;
    data.extend_from_slice(&0x0001u16.to_be_bytes());
    data.extend_from_slice(&huffman_flags.to_be_bytes());
    data.extend_from_slice(&1u32.to_be_bytes());
    data
}

#[test]
fn the_huffman_flags_are_validated() {
    let reserved: &str = "reserved bit set in the text region Huffman flags";
    let no_refinement: &str = "refinement Huffman table selected without refinement";
    let symbol = glyph(&["1"]);
    let syms = [&symbol];
    for (flags, want) in [
        (0x8000u16, reserved),
        (0x0040, no_refinement),
        (0x4000, no_refinement),
        (0x0002, "reserved SBHUFFFS selection"),
        (0x0003, TABLE_COUNT_DISAGREES),
    ] {
        assert_eq!(
            decode(&huffman_header(flags), &syms),
            Err(Jbig2Error::Malformed(want)),
            "flags {flags:#06x}",
        );
    }
}

#[test]
fn a_custom_table_is_checked_against_its_selector() {
    let table = parse_table_segment(&code_table_segment(0), &mut Budget::new())
        .expect("code table segment");
    let symbol = glyph(&["1"]);
    let syms = [&symbol];
    assert_eq!(
        decode_with(&huffman_header(0x000C), &syms, &[&table]),
        Err(Jbig2Error::Malformed("SBHUFFDS cannot code OOB")),
    );
    assert_eq!(
        decode_with(&huffman_header(0x0003), &syms, &[&table]),
        Err(Jbig2Error::Truncated),
    );
}

#[test]
fn an_arithmetic_region_may_not_refer_to_a_table_segment() {
    let table = parse_table_segment(&code_table_segment(0), &mut Budget::new())
        .expect("code table segment");
    let symbol = glyph(&["1"]);
    let syms = [&symbol];
    let data = text_segment(
        (8, 8),
        Shape::default(),
        1,
        1,
        0,
        &[Op::Strip(0), Op::First(0, 0), Op::EndStrip],
    );
    assert_eq!(
        decode_with(&data, &syms, &[&table]),
        Err(Jbig2Error::Malformed(TABLE_COUNT_DISAGREES)),
    );
}

#[test]
fn an_out_of_range_symbol_id_is_rejected() {
    let symbols = [glyph(&["1"]), glyph(&["1"]), glyph(&["1"])];
    let refs: Vec<&Bitmap> = symbols.iter().collect();
    let data = text_segment(
        (8, 8),
        Shape::default(),
        1,
        3,
        0,
        &[Op::Strip(0), Op::First(0, 3), Op::EndStrip],
    );
    assert_eq!(
        decode(&data, &refs),
        Err(Jbig2Error::Malformed("symbol id out of range")),
    );
}

#[test]
fn a_text_region_with_no_symbols_is_rejected() {
    let mut data = vec![0u8; 17];
    data.extend_from_slice(&0u16.to_be_bytes());
    data.extend_from_slice(&1u32.to_be_bytes());
    assert_eq!(
        decode(&data, &[]),
        Err(Jbig2Error::Malformed("text region with no symbols")),
    );
}

#[test]
fn an_absurd_instance_count_is_refused() {
    let symbol = glyph(&["1"]);
    let syms = [&symbol];
    let mut data = vec![0u8; 17];
    data[3] = 8;
    data[7] = 8;
    data.extend_from_slice(&0u16.to_be_bytes());
    data.extend_from_slice(&u32::MAX.to_be_bytes());
    assert_eq!(
        decode(&data, &syms),
        Err(Jbig2Error::Malformed("instance count exceeds the limit")),
    );
}

#[test]
fn a_strip_that_never_ends_stops_at_the_declared_count() {
    let symbol = glyph(&["11", "11"]);
    let syms = [&symbol];
    let data = text_segment(
        (32, 8),
        Shape::default(),
        1,
        1,
        0,
        &[
            Op::Strip(0),
            Op::First(0, 0),
            Op::Next(4, 0),
            Op::Next(4, 0),
            Op::EndStrip,
        ],
    );
    let (_, region) = decode(&data, &syms).expect("text region");
    expect_at(&region, &symbol, 0, 0);
    assert_eq!(region.get(5, 0), 0, "the second instance was not placed");
}

#[test]
fn an_enormous_region_is_refused_by_the_budget() {
    let symbol = glyph(&["1"]);
    let syms = [&symbol];
    let mut data = 8_000u32.to_be_bytes().to_vec();
    data.extend_from_slice(&8_000u32.to_be_bytes());
    data.extend_from_slice(&0u32.to_be_bytes());
    data.extend_from_slice(&0u32.to_be_bytes());
    data.push(0);
    data.extend_from_slice(&0u16.to_be_bytes());
    data.extend_from_slice(&1u32.to_be_bytes());
    assert_eq!(
        decode_text_region(&data, &syms, &[], &mut Budget::with_limit(1 << 20)),
        Err(Jbig2Error::WorkLimit),
    );
}

#[test]
fn a_region_that_places_nothing_may_assign_no_symbol_codes() {
    let symbols = two_symbols();
    let refs: Vec<&Bitmap> = symbols.iter().collect();

    let mut w = BitWriter::default();
    for code in 0..RUN_CODES {
        w.push(u32::from(code == 0), 4);
    }
    w.push(0, 1);
    w.push(0, 1);
    w.align();
    push_value(&mut w, &standard(11).expect("standard table"), Some(1));

    let mut data = vec![0u8; 17];
    data[3] = 8;
    data[7] = 8;
    data.extend_from_slice(&0x0201u16.to_be_bytes());
    data.extend_from_slice(&0u16.to_be_bytes());
    data.extend_from_slice(&0u32.to_be_bytes());
    data.extend_from_slice(&w.finish());

    let (info, region) = decode(&data, &refs).expect("text region");
    assert_eq!((info.width, info.height), (8, 8));
    for y in 0..8 {
        for x in 0..8 {
            assert_eq!(region.get(x, y), 1, "({x}, {y}) is not SBDEFPIXEL");
        }
    }
}

#[test]
fn binding_a_custom_table_is_charged_by_the_line() {
    let table = parse_table_segment(&code_table_segment(0), &mut Budget::new())
        .expect("code table segment");
    let symbol = glyph(&["1"]);
    let syms = [&symbol];
    let data = huffman_header(0x0003);

    let mut budget = Budget::with_limit(2);
    assert_eq!(
        decode_text_region(&data, &syms, &[&table], &mut budget),
        Err(Jbig2Error::WorkLimit),
    );

    let total = 3 + 8 * (8 + ROW_COST) + SYMBOL_CODE_COST;
    let mut budget = Budget::with_limit(total - 1);
    assert_eq!(
        decode_text_region(&data, &syms, &[&table], &mut budget),
        Err(Jbig2Error::WorkLimit),
    );
    let mut budget = Budget::with_limit(total);
    assert_eq!(
        decode_text_region(&data, &syms, &[&table], &mut budget),
        Err(Jbig2Error::Truncated),
    );
}

#[test]
fn the_symbol_id_table_draws_on_the_stream_budget() {
    let symbols = vec![glyph(&["1"]); 64];
    let refs: Vec<&Bitmap> = symbols.iter().collect();
    let data = huffman_text_segment((0, 0), Shape::default(), 0, 64, 1, &[], None);
    let table_cost = SYMBOL_CODE_COST * 64;

    let mut budget = Budget::with_limit(table_cost);
    assert!(decode_text_region(&data, &refs, &[], &mut budget).is_ok());
    let mut budget = Budget::with_limit(table_cost - 1);
    assert_eq!(
        decode_text_region(&data, &refs, &[], &mut budget),
        Err(Jbig2Error::WorkLimit),
    );

    let mut budget = Budget::with_limit(2 * table_cost);
    assert!(decode_text_region(&data, &refs, &[], &mut budget).is_ok());
    assert!(decode_text_region(&data, &refs, &[], &mut budget).is_ok());
    assert_eq!(
        decode_text_region(&data, &refs, &[], &mut budget),
        Err(Jbig2Error::WorkLimit),
    );
}

#[test]
fn instances_draw_on_the_stream_budget() {
    let symbol = glyph(&["1"]);
    let syms = [&symbol];
    let data = text_segment(
        (8, 8),
        Shape::default(),
        2,
        1,
        0,
        &[Op::Strip(0), Op::First(0, 0), Op::Next(2, 0), Op::EndStrip],
    );
    let region_cost = 8 * (8 + ROW_COST);
    let instance_cost = INSTANCE_COST + (1 + ROW_COST);
    let total = region_cost + 2 * instance_cost;

    let mut budget = Budget::with_limit(total);
    assert!(decode_text_region(&data, &syms, &[], &mut budget).is_ok());

    let mut budget = Budget::with_limit(total - 1);
    assert_eq!(
        decode_text_region(&data, &syms, &[], &mut budget),
        Err(Jbig2Error::WorkLimit),
    );
}

#[test]
fn arbitrary_bytes_error_rather_than_panicking() {
    let symbol = glyph(&["1", "1"]);
    let syms = [&symbol];
    let mut state: u32 = 0x7E57_10AD;
    for _ in 0..2_000 {
        let len = (state % 129) as usize;
        let data: Vec<u8> = (0..len)
            .map(|_| {
                state = state.wrapping_mul(1_664_525).wrapping_add(1_013_904_223);
                (state >> 24) as u8
            })
            .collect();
        let _ = decode_text_region(&data, &syms, &[], &mut Budget::with_limit(1 << 16));
    }
}

#[test]
fn every_truncation_of_a_valid_segment_errors_cleanly() {
    let syms = two_symbols();
    let refs: Vec<&Bitmap> = syms.iter().collect();
    let segment = text_segment(
        (20, 16),
        Shape::default(),
        3,
        2,
        0,
        &[
            Op::Strip(2),
            Op::First(1, 0),
            Op::Next(2, 1),
            Op::EndStrip,
            Op::Strip(5),
            Op::First(-1, 0),
            Op::EndStrip,
        ],
    );
    for cut in 0..segment.len() {
        let _ = decode_text_region(
            &segment[..cut],
            &refs,
            &[],
            &mut Budget::with_limit(1 << 16),
        );
    }
}

#[test]
fn corners_are_named_by_two_bits() {
    assert_eq!(RefCorner::from_bits(0), RefCorner::BottomLeft);
    assert_eq!(RefCorner::from_bits(1), RefCorner::TopLeft);
    assert_eq!(RefCorner::from_bits(2), RefCorner::BottomRight);
    assert_eq!(RefCorner::from_bits(3), RefCorner::TopRight);
    assert_eq!(RefCorner::from_bits(0xFD), RefCorner::TopLeft);
}

#[test]
fn a_symbol_id_code_is_exactly_wide_enough() {
    for n in 1..600u32 {
        let len = sym_code_len(n);
        assert!(n <= 1 << len);
        assert!(n == 1 || n > 1 << (len - 1));
    }
    assert_eq!(sym_code_len(u32::MAX), 32);
}

/// The template with adaptive pixels at their nominal places.
fn nominal_template() -> RefinementParams {
    RefinementParams { fixed: false, at: (-1, -1), reference_at: (-1, -1) }
}

fn aggregate_strip(target: &Bitmap) -> [RefinedPlacement<'_>; 2] {
    [
        RefinedPlacement { ds: 1, curt: 0, id: 0, refine: None },
        RefinedPlacement {
            ds: 2,
            curt: 0,
            id: 1,
            refine: Some(Refine { target, rdw: 2, rdh: -1, rdx: 0, rdy: 1, dx: 1, dy: 0 }),
        },
    ]
}

#[test]
fn an_aggregate_region_reads_the_arithmetic_source_of_its_dictionary() {
    let syms = two_symbols();
    let target = glyph(&["1111111", "1000001", "1111111"]);
    let strip = aggregate_strip(&target);
    let mut enc = MqEncoder::new();
    encode_refined_strips(&mut enc, Shape::default(), &syms, 0, &[(2, &strip)]);
    let data = enc.finish();
    let inputs = [&syms[0]];
    let new = [syms[1].clone()];
    let symbols = Symbols::concat(&inputs, &new);
    let mut source = Arithmetic {
        dec: MqDecoder::new(&data),
        ints: IntCtxSet::new(),
        iaid: IaidCtx::new(1),
        gr: MqContexts::new(GR_CONTEXT_LEN),
    };
    let region = decode_aggregate_region(
        &mut source,
        &symbols,
        20,
        8,
        2,
        nominal_template(),
        &mut Budget::new(),
    )
    .expect("aggregate region");
    expect_at(&region, &syms[0], 1, 2);
    expect_at(&region, &target, 5, 2);
    assert_eq!(region.get(19, 7), 0);
}

#[test]
fn an_aggregate_region_reads_the_prefix_codes_of_its_dictionary() {
    let syms = two_symbols();
    let target = glyph(&["1111111", "1000001", "1111111"]);
    let fs = standard(6).expect("standard table");
    let ds = standard(8).expect("standard table");
    let dt = standard(11).expect("standard table");
    let delta = standard(15).expect("standard table");
    let size = standard(1).expect("standard table");
    let mut gr = vec![Cx::default(); GR_CONTEXT_LEN];
    let mut chunk = MqEncoder::new();
    encode_refinement_into(&mut chunk, &mut gr, &target, &syms[1], 0, 1, 0);
    let coded = chunk.finish();

    let mut w = BitWriter::default();
    push_value(&mut w, &dt, Some(1));
    push_value(&mut w, &dt, Some(3));
    push_value(&mut w, &fs, Some(1));
    w.push(0, 3);
    w.push(0, 1);
    push_value(&mut w, &ds, Some(2));
    w.push(1, 3);
    w.push(1, 1);
    for value in [2, -1, 0, 1] {
        push_value(&mut w, &delta, Some(value));
    }
    push_value(&mut w, &size, Some(coded.len() as i32));
    w.align();
    w.push_bytes(&coded);
    push_value(&mut w, &ds, None);
    let data = w.finish();

    let inputs: Vec<&Bitmap> = syms.iter().collect();
    let symbols = Symbols::concat(&inputs, &[]);
    let mut source = aggregate_source(BitReader::new(&data), MqContexts::new(GR_CONTEXT_LEN), 3)
        .expect("fixed tables");
    let region = decode_aggregate_region(
        &mut source,
        &symbols,
        20,
        8,
        2,
        nominal_template(),
        &mut Budget::new(),
    )
    .expect("aggregate region");
    expect_at(&region, &syms[0], 1, 2);
    expect_at(&region, &target, 5, 2);
}

#[test]
fn an_aggregate_region_is_refused_before_it_is_painted() {
    let symbol = glyph(&["1"]);
    let inputs = [&symbol];
    let full = Symbols::concat(&inputs, &[]);
    let empty = Symbols::concat(&[], &[]);
    let data = [0u8; 4];
    let mut source = aggregate_source(BitReader::new(&data), MqContexts::new(GR_CONTEXT_LEN), 1)
        .expect("fixed tables");
    let template = nominal_template();
    assert_eq!(
        decode_aggregate_region(&mut source, &empty, 1, 1, 1, template, &mut Budget::new()),
        Err(Jbig2Error::Malformed("text region with no symbols")),
    );
    assert_eq!(
        decode_aggregate_region(&mut source, &full, 1, 1, u32::MAX, template, &mut Budget::new()),
        Err(Jbig2Error::Malformed("instance count exceeds the limit")),
    );
    assert_eq!(
        decode_aggregate_region(
            &mut source,
            &full,
            8,
            8,
            1,
            template,
            &mut Budget::with_limit(8 * (8 + ROW_COST) - 1),
        ),
        Err(Jbig2Error::WorkLimit),
    );
}

#[test]
fn what_a_fault_leaves_of_the_budget_is_what_was_not_charged() {
    let mut budget = Budget::with_limit(1000);
    let mut bits = BitReader::new(&[]);
    assert_eq!(
        decode_symbol_id_codes(&mut bits, 3, &mut budget).err(),
        Some(Jbig2Error::Truncated),
    );
    assert_eq!(budget, Budget::with_limit(1000 - 3 * SYMBOL_CODE_COST));

    let symbols = vec![glyph(&["1"]); 64];
    let refs: Vec<&Bitmap> = symbols.iter().collect();
    let data = huffman_text_segment((0, 0), Shape::default(), 0, 64, 1, &[], None);
    let mut budget = Budget::with_limit(SYMBOL_CODE_COST * 64 - 1);
    assert!(decode_text_region(&data, &refs, &[], &mut budget).is_err());
    assert_eq!(budget, Budget::with_limit(SYMBOL_CODE_COST * 64 - 1));
    assert!(decode_text_region(&data, &[], &[], &mut budget).is_err());
    assert_eq!(budget, Budget::with_limit(SYMBOL_CODE_COST * 64 - 1));
}
