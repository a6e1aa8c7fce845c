//! LZWDecode: 9- to 12-bit variable codes, clear code 256, EOD 257,
//! `/EarlyChange` defaulting to 1, followed by an optional predictor
//! post-pass.

use crate::error;
use crate::error::{Error, Result};
use crate::filters;
use crate::filters::predictor;
use crate::filters::{int_parm, MAX_DECODED_LEN};
use crate::object::Dict;
use vstd::arithmetic::power2::*;
use vstd::prelude::*;
use vstd::string::*;

verus! {

/// The code that empties the table.
pub const CLEAR: usize = 256;

/// The code that ends the data.
pub const EOD: usize = 257;

/// The first code a data byte can define.
pub const FIRST_FREE: usize = 258;

/// The most entries a table holds.
pub const MAX_TABLE: usize = 4096;

/// The width codes start with.
pub const MIN_WIDTH: u32 = 9;

/// The width codes end with.
pub const MAX_WIDTH: u32 = 12;

/// The bit at position `i`, most significant bit of a byte first.
pub open spec fn bit_at(data: Seq<u8>, i: int) -> u8 {
    (data[i / 8] >> (7 - i % 8) as u8) & 1
}

/// The number that the bits from `start` to `end` write.
pub open spec fn bits_value(data: Seq<u8>, start: int, end: int) -> nat
    decreases end - start,
{
    if end <= start {
        0
    } else {
        bits_value(data, start, end - 1) * 2 + bit_at(data, end - 1) as nat
    }
}

/// The sequence that `code` stands for: an entry of the table, or the entry
/// that the code before it is just about to define, which ends as it begins.
pub open spec fn code_entry(table: Seq<Seq<u8>>, prev: Option<int>, code: int) -> Option<Seq<u8>> {
    if code < table.len() {
        Some(table[code])
    } else if code == table.len() && prev is Some && table.len() < MAX_TABLE {
        Some(table[prev->0].push(table[prev->0][0]))
    } else {
        None
    }
}

/// The table after `entry` was decoded: what the code before it stands for,
/// with the first byte of `entry` behind it, is added while there is room.
pub open spec fn grown(table: Seq<Seq<u8>>, prev: Option<int>, entry: Seq<u8>) -> Seq<Seq<u8>> {
    if prev is Some && table.len() < MAX_TABLE {
        table.push(table[prev->0].push(entry[0]))
    } else {
        table
    }
}

/// The width of the next code.
pub open spec fn next_width(table_len: int, width: int, early: int) -> int {
    if width < MAX_WIDTH && table_len + early >= pow2(width as nat) {
        width + 1
    } else {
        width
    }
}

/// What the codes from bit `bit` on stand for, up to the end of the data or a
/// code that makes no sense.
pub open spec fn decoded(
    data: Seq<u8>,
    bit: int,
    table: Seq<Seq<u8>>,
    width: int,
    prev: Option<int>,
    early: int,
) -> Seq<u8>
    decreases 8 * data.len() - bit,
{
    let next = bit + width;
    if width < 1 || next > 8 * data.len() {
        Seq::empty()
    } else {
        let code = bits_value(data, bit, next) as int;
        if code == CLEAR {
            decoded(data, next, table.take(FIRST_FREE as int), MIN_WIDTH as int, None, early)
        } else if code == EOD {
            Seq::empty()
        } else {
            match code_entry(table, prev, code) {
                None => Seq::empty(),
                Some(entry) => {
                    let after = grown(table, prev, entry);
                    entry + decoded(
                        data,
                        next,
                        after,
                        next_width(after.len() as int, width, early),
                        Some(code),
                        early,
                    )
                },
            }
        }
    }
}

/// The table codes start with: every byte for itself, and two codes that
/// stand for no sequence.
pub open spec fn initial_table() -> Seq<Seq<u8>> {
    Seq::new(
        FIRST_FREE as nat,
        |i: int|
            if i < 256 {
                seq![i as u8]
            } else {
                Seq::empty()
            },
    )
}

/// The bytes of a whole code stream.
pub open spec fn lzw_bytes(data: Seq<u8>, early: int) -> Seq<u8> {
    decoded(data, 0, initial_table(), MIN_WIDTH as int, None, early)
}

/// Reads big-endian (MSB-first) bit fields out of a byte slice.
pub struct BitReader<'a> {
    data: &'a [u8],
    /// The byte the next bit lies in.
    byte: usize,
    /// The next bit within that byte, from the most significant one.
    bit: u32,
}

impl<'a> BitReader<'a> {
    /// The bytes read from.
    pub closed spec fn bytes(self) -> Seq<u8> {
        self.data@
    }

    /// The position in bits.
    pub closed spec fn cursor(self) -> int {
        8 * self.byte + self.bit
    }

    #[verifier::type_invariant]
    spec fn within(self) -> bool {
        &&& self.bit < 8
        &&& 8 * self.byte + self.bit <= 8 * self.data@.len()
    }

    /// A reader at the first bit of `data`.
    pub fn new(data: &'a [u8]) -> (out: Self)
        ensures
            out.bytes() == data@,
            out.cursor() == 0,
    {
        BitReader { data, byte: 0, bit: 0 }
    }

    /// Reads `width` bits, or `None` when fewer bits remain.
    pub fn read(&mut self, width: u32) -> (out: Option<u32>)
        requires
            width <= 32,
        ensures
            final(self).bytes() == old(self).bytes(),
            match out {
                Some(value) => old(self).cursor() + width <= 8 * old(self).bytes().len() && value
                    == bits_value(
                    old(self).bytes(),
                    old(self).cursor(),
                    old(self).cursor() + width,
                ) && final(self).cursor() == old(self).cursor() + width,
                None => old(self).cursor() + width > 8 * old(self).bytes().len() && final(
                    self).cursor() == old(self).cursor(),
            },
            out matches Some(value) ==> value < pow2(width as nat),
    {
        proof {
            use_type_invariant(&*self);
        }
        let needed: usize = ((self.bit + width + 7) / 8) as usize;
        if needed > self.data.len() - self.byte {
            return None;
        }
        let data = self.data;
        let mut byte: usize = self.byte;
        let mut bit: u32 = self.bit;
        let ghost start = self.cursor();
        let mut value: u32 = 0;
        let mut count: u32 = 0;
        proof {
            lemma2_to64();
        }
        while count < width
            invariant
                data@ == old(self).bytes(),
                count <= width <= 32,
                bit < 8,
                0 <= start,
                8 * byte + bit == start + count,
                start + width <= 8 * data@.len(),
                value == bits_value(data@, start, start + count),
                value < pow2(count as nat),
            decreases width - count,
        {
            let source: u8 = data[byte];
            let shift: u8 = (7 - bit) as u8;
            let next: u8 = (source >> shift) & 1;
            assert(next <= 1) by (bit_vector)
                requires
                    next == (source >> shift) & 1,
            ;
            proof {
                let i = start + count;
                assert(i / 8 == byte && i % 8 == bit);
                assert(next == bit_at(data@, i));
                lemma_pow2_unfold((count + 1) as nat);
                lemma2_to64();
                if count < 31 {
                    lemma_pow2_strictly_increases(count as nat, 31);
                }
            }
            value = value * 2 + next as u32;
            if bit == 7 {
                bit = 0;
                byte += 1;
            } else {
                bit += 1;
            }
            count += 1;
        }
        *self = BitReader { data, byte, bit };
        Some(value)
    }
}

/// The sequences of a table.
spec fn table_view(table: Seq<Vec<u8>>) -> Seq<Seq<u8>> {
    Seq::new(table.len(), |i: int| table[i]@)
}

/// Every code but the two without a sequence stands for at least one byte.
spec fn nonempty(table: Seq<Vec<u8>>) -> bool {
    &&& FIRST_FREE <= table.len() <= MAX_TABLE
    &&& forall|i: int|
        0 <= i < table.len() && i != CLEAR && i != EOD ==> (#[trigger] table[i])@.len() > 0
}

/// The initial code table: 256 single-byte entries plus placeholders for
/// the clear (256) and end-of-data (257) codes, which are never looked up.
fn base_table() -> (table: Vec<Vec<u8>>)
    ensures
        table_view(table@) == initial_table(),
        nonempty(table@),
{
    let mut table: Vec<Vec<u8>> = Vec::with_capacity(MAX_TABLE);
    let mut b: usize = 0;
    while b < 256
        invariant
            b <= 256,
            table@.len() == b,
            forall|i: int| 0 <= i < b ==> (#[trigger] table@[i])@ == seq![i as u8],
        decreases 256 - b,
    {
        let mut entry: Vec<u8> = Vec::new();
        entry.push(b as u8);
        assert(entry@ =~= seq![b as u8]);
        table.push(entry);
        b += 1;
    }
    table.push(Vec::new());  // 256: clear
    table.push(Vec::new());  // 257: end of data
    assert(table_view(table@) =~= initial_table()) by {
        assert forall|i: int| 0 <= i < FIRST_FREE implies table_view(table@)[i]
            == initial_table()[i] by {
            if i >= 256 {
                assert(table@[i]@ =~= Seq::<u8>::empty());
            }
        }
    }
    table
}

/// Whether the codes of `parms` widen one code early.
pub open spec fn early_change(
    parms: Option<Map<Seq<char>, crate::object::ObjectV>>,
) -> int {
    if filters::parm_int(parms, "EarlyChange"@, 1) == 0 {
        0
    } else {
        1
    }
}

/// Decodes LZWDecode data; `parms` is the resolved `/DecodeParms`
/// dictionary, if any (`/EarlyChange` and predictor parameters).
///
/// Codes start at 9 bits and grow to at most 12; with `/EarlyChange` 1
/// (the default) the width increases one code early, i.e. when the table
/// reaches 511/1023/2047 entries instead of 512/1024/2048. Truncated or
/// corrupt input leniently yields the prefix decoded so far. Codes that stand
/// for more than `MAX_DECODED_LEN` bytes are an error.
pub fn decode(data: &[u8], parms: Option<&Dict>) -> (result: Result<Vec<u8>>)
    ensures
        ({
            let bytes = lzw_bytes(data@, early_change(filters::parms_view(parms)));
            match result {
                Ok(out) => bytes.len() <= MAX_DECODED_LEN && out@ == predictor::post_passed(
                    bytes,
                    filters::parms_view(parms),
                ),
                Err(e) => bytes.len() > MAX_DECODED_LEN && error::is_decode(
                    e,
                    "lzw: decoded stream exceeds size limit"@,
                ),
            }
        }),
{
    let early: usize = if int_parm(parms, "EarlyChange", 1) == 0 {
        0
    } else {
        1
    };
    match decode_codes(data, early) {
        Ok(out) => predictor::post_pass(out, parms),
        Err(e) => Err(e),
    }
}

/// Decodes a code stream without any predictor.
fn decode_codes(data: &[u8], early: usize) -> (result: Result<Vec<u8>>)
    requires
        early <= 1,
    ensures
        match result {
            Ok(out) => out@ == lzw_bytes(data@, early as int) && out@.len() <= MAX_DECODED_LEN,
            Err(e) => lzw_bytes(data@, early as int).len() > MAX_DECODED_LEN && error::is_decode(
                e,
                "lzw: decoded stream exceeds size limit"@,
            ),
        },
{
    let mut out: Vec<u8> = Vec::new();
    let mut bits = BitReader::new(data);
    let mut table = base_table();
    let mut width: u32 = MIN_WIDTH;
    let mut prev: Option<usize> = None;
    let ghost goal = lzw_bytes(data@, early as int);
    assert(goal =~= out@ + goal);
    loop
        invariant
            early <= 1,
            goal == lzw_bytes(data@, early as int),
            bits.bytes() == data@,
            0 <= bits.cursor() <= 8 * data@.len(),
            MIN_WIDTH <= width <= MAX_WIDTH,
            nonempty(table@),
            prev matches Some(p) ==> p < table@.len() && p != CLEAR && p != EOD,
            out@.len() <= MAX_DECODED_LEN,
            goal == out@ + decoded(
                data@,
                bits.cursor(),
                table_view(table@),
                width as int,
                opt_int(prev),
                early as int,
            ),
        decreases 8 * data@.len() - bits.cursor(),
    {
        let ghost at = bits.cursor();
        proof {
            lemma_fits(width);
        }
        let code: usize = match bits.read(width) {
            Some(code) => code as usize,
            None => {
                assert(out@ =~= goal);
                return Ok(out);
            },
        };
        if code == CLEAR {
            let ghost before = table@;
            table.truncate(FIRST_FREE);
            assert(table_view(table@) =~= table_view(before).take(FIRST_FREE as int));
            width = MIN_WIDTH;
            prev = None;
            continue;
        }
        if code == EOD {
            assert(out@ =~= goal);
            return Ok(out);
        }
        let ghost before = table@;
        let ghost sent = out@;
        if code < table.len() {
            // Known code: emit its entry; the pending table slot becomes
            // previous entry + first byte of this one.
            let ghost entry = before[code as int]@;
            if let Some(p) = prev {
                if table.len() < MAX_TABLE {
                    let mut added = table[p].clone();
                    assert(added@ =~= before[p as int]@);
                    let first: u8 = table[code][0];
                    added.push(first);
                    table.push(added);
                    assert(table_view(table@) =~= grown(
                        table_view(before),
                        opt_int(prev),
                        entry,
                    ));
                }
            }
            assert(table_view(table@) =~= grown(table_view(before), opt_int(prev), entry));
            assert(table@[code as int] == before[code as int]);
            out.extend_from_slice(table[code].as_slice());
            assert(out@ =~= sent + entry);
        } else if let Some(p) = prev {
            if code == table.len() && table.len() < MAX_TABLE {
                // The code the encoder just defined: previous entry plus its
                // own first byte.
                let mut entry = table[p].clone();
                assert(entry@ =~= before[p as int]@);
                let first: u8 = entry[0];
                entry.push(first);
                out.extend_from_slice(entry.as_slice());
                assert(out@ =~= sent + entry@);
                table.push(entry);
                assert(table_view(table@) =~= grown(
                    table_view(before),
                    opt_int(prev),
                    entry@,
                ));
            } else {
                // Corrupt code: keep whatever decoded so far (lenient).
                assert(out@ =~= goal);
                return Ok(out);
            }
        } else {
            assert(out@ =~= goal);
            return Ok(out);
        }
        prev = Some(code);
        proof {
            lemma_widths();
        }
        if width < MAX_WIDTH && table.len() + early >= (if width == 9 {
            512
        } else if width == 10 {
            1024
        } else {
            2048
        }) {
            width += 1;
        }
        assert(goal =~= out@ + decoded(
            data@,
            bits.cursor(),
            table_view(table@),
            width as int,
            opt_int(prev),
            early as int,
        ));
        if out.len() > MAX_DECODED_LEN {
            return Err(Error::Decode("lzw: decoded stream exceeds size limit".to_owned()));
        }
    }
}

/// A table position that may be absent, as an integer.
spec fn opt_int(p: Option<usize>) -> Option<int> {
    match p {
        Some(p) => Some(p as int),
        None => None,
    }
}

proof fn lemma_widths()
    ensures
        pow2(9) == 512,
        pow2(10) == 1024,
        pow2(11) == 2048,
{
    lemma2_to64();
}

/// Codes of every width are below the number of codes a table can hold.
proof fn lemma_fits(width: u32)
    requires
        MIN_WIDTH <= width <= MAX_WIDTH,
    ensures
        pow2(width as nat) <= MAX_TABLE,
{
    lemma2_to64();
    if width < 12 {
        lemma_pow2_strictly_increases(width as nat, 12);
    }
}

/// Data that is cut short decodes to a beginning of what the whole decodes to.
pub proof fn truncated_codes_decode_to_a_prefix(data: Seq<u8>, len: int, early: int)
    requires
        0 <= len <= data.len(),
    ensures
        lzw_bytes(data.take(len), early).is_prefix_of(lzw_bytes(data, early)),
{
    lemma_prefix_from(data, len, 0, initial_table(), MIN_WIDTH as int, None, early);
}

/// The same for the codes from `bit` on.
proof fn lemma_prefix_from(
    data: Seq<u8>,
    len: int,
    bit: int,
    table: Seq<Seq<u8>>,
    width: int,
    prev: Option<int>,
    early: int,
)
    requires
        0 <= bit,
        0 <= len <= data.len(),
    ensures
        decoded(data.take(len), bit, table, width, prev, early).is_prefix_of(
            decoded(data, bit, table, width, prev, early),
        ),
    decreases 8 * data.len() - bit,
{
    let cut = data.take(len);
    let next = bit + width;
    let all = decoded(data, bit, table, width, prev, early);
    let part = decoded(cut, bit, table, width, prev, early);
    if width < 1 || next > 8 * len {
        assert(part =~= all.subrange(0, 0));
    } else {
        lemma_same_bits(data, len, bit, next);
        let code = bits_value(data, bit, next) as int;
        if code == CLEAR {
            lemma_prefix_from(
                data,
                len,
                next,
                table.take(FIRST_FREE as int),
                MIN_WIDTH as int,
                None,
                early,
            );
        } else if code == EOD {
            assert(part =~= all.subrange(0, 0));
        } else {
            match code_entry(table, prev, code) {
                None => {
                    assert(part =~= all.subrange(0, 0));
                },
                Some(entry) => {
                    let after = grown(table, prev, entry);
                    let wide = next_width(after.len() as int, width, early);
                    lemma_prefix_from(data, len, next, after, wide, Some(code), early);
                    let a = decoded(cut, next, after, wide, Some(code), early);
                    let b = decoded(data, next, after, wide, Some(code), early);
                    assert(part =~= all.subrange(0, part.len() as int)) by {
                        assert forall|j: int| 0 <= j < a.len() implies a[j] == b[j] by {
                            assert(a[j] == b.subrange(0, a.len() as int)[j]);
                        }
                    }
                },
            }
        }
    }
}

/// The bits of the first `len` bytes are those of the whole.
proof fn lemma_same_bits(data: Seq<u8>, len: int, start: int, end: int)
    requires
        0 <= start,
        end <= 8 * len,
        0 <= len <= data.len(),
    ensures
        bits_value(data.take(len), start, end) == bits_value(data, start, end),
    decreases end - start,
{
    if start < end {
        lemma_same_bits(data, len, start, end - 1);
        assert(data.take(len)[(end - 1) / 8] == data[(end - 1) / 8]);
    }
}

/// Whether the codes from `bit` on come to the one that ends the data.
pub open spec fn comes_to_the_end(
    data: Seq<u8>,
    bit: int,
    table: Seq<Seq<u8>>,
    width: int,
    prev: Option<int>,
    early: int,
) -> bool
    decreases 8 * data.len() - bit,
{
    let next = bit + width;
    if width < 1 || next > 8 * data.len() {
        false
    } else {
        let code = bits_value(data, bit, next) as int;
        if code == CLEAR {
            comes_to_the_end(
                data,
                next,
                table.take(FIRST_FREE as int),
                MIN_WIDTH as int,
                None,
                early,
            )
        } else if code == EOD {
            true
        } else {
            match code_entry(table, prev, code) {
                None => false,
                Some(entry) => {
                    let after = grown(table, prev, entry);
                    comes_to_the_end(
                        data,
                        next,
                        after,
                        next_width(after.len() as int, width, early),
                        Some(code),
                        early,
                    )
                },
            }
        }
    }
}

/// What stands behind the code that ends the data makes no difference.
pub proof fn data_behind_the_end_code_is_ignored(data: Seq<u8>, more: Seq<u8>, early: int)
    requires
        comes_to_the_end(data, 0, initial_table(), MIN_WIDTH as int, None, early),
    ensures
        lzw_bytes(data + more, early) == lzw_bytes(data, early),
{
    lemma_behind_the_end(data, more, 0, initial_table(), MIN_WIDTH as int, None, early);
}

/// The same for the codes from `bit` on.
proof fn lemma_behind_the_end(
    data: Seq<u8>,
    more: Seq<u8>,
    bit: int,
    table: Seq<Seq<u8>>,
    width: int,
    prev: Option<int>,
    early: int,
)
    requires
        0 <= bit,
        comes_to_the_end(data, bit, table, width, prev, early),
    ensures
        decoded(data + more, bit, table, width, prev, early) == decoded(
            data,
            bit,
            table,
            width,
            prev,
            early,
        ),
    decreases 8 * data.len() - bit,
{
    let all = data + more;
    let next = bit + width;
    assert(all.take(data.len() as int) =~= data);
    lemma_same_bits(all, data.len() as int, bit, next);
    let code = bits_value(data, bit, next) as int;
    if code == CLEAR {
        lemma_behind_the_end(
            data,
            more,
            next,
            table.take(FIRST_FREE as int),
            MIN_WIDTH as int,
            None,
            early,
        );
    } else if code != EOD {
        if let Some(entry) = code_entry(table, prev, code) {
            let after = grown(table, prev, entry);
            lemma_behind_the_end(
                data,
                more,
                next,
                after,
                next_width(after.len() as int, width, early),
                Some(code),
                early,
            );
        }
    }
}

/// Whether the codes from `bit` on write `bytes` one by one and then the end,
/// each code as wide as a table of its time asks for.
pub open spec fn writes_literals(
    data: Seq<u8>,
    bit: int,
    table_len: int,
    width: int,
    started: bool,
    bytes: Seq<u8>,
    early: int,
) -> bool
    decreases bytes.len(),
{
    let next = bit + width;
    &&& 1 <= width
    &&& next <= 8 * data.len()
    &&& if bytes.len() == 0 {
        bits_value(data, bit, next) == EOD
    } else {
        let after = if started && table_len < MAX_TABLE {
            table_len + 1
        } else {
            table_len
        };
        bits_value(data, bit, next) == bytes[0] as nat && writes_literals(
            data,
            next,
            after,
            next_width(after, width, early),
            true,
            bytes.skip(1),
            early,
        )
    }
}

/// Bytes that were coded one by one behind a clear code are restored, however
/// wide their codes grow.
pub proof fn literals_are_restored(data: Seq<u8>, bytes: Seq<u8>, early: int)
    requires
        MIN_WIDTH <= 8 * data.len(),
        bits_value(data, 0, MIN_WIDTH as int) == CLEAR,
        writes_literals(
            data,
            MIN_WIDTH as int,
            FIRST_FREE as int,
            MIN_WIDTH as int,
            false,
            bytes,
            early,
        ),
    ensures
        lzw_bytes(data, early) == bytes,
{
    let table = initial_table();
    assert(table.take(FIRST_FREE as int) =~= table);
    lemma_literals(data, MIN_WIDTH as int, table, MIN_WIDTH as int, None, bytes, early);
}

/// The same for the codes from `bit` on.
proof fn lemma_literals(
    data: Seq<u8>,
    bit: int,
    table: Seq<Seq<u8>>,
    width: int,
    prev: Option<int>,
    bytes: Seq<u8>,
    early: int,
)
    requires
        FIRST_FREE <= table.len(),
        forall|b: int| 0 <= b < 256 ==> #[trigger] table[b] == seq![b as u8],
        prev matches Some(p) ==> 0 <= p < 256,
        writes_literals(data, bit, table.len() as int, width, prev is Some, bytes, early),
    ensures
        decoded(data, bit, table, width, prev, early) == bytes,
    decreases bytes.len(),
{
    if bytes.len() == 0 {
        assert(decoded(data, bit, table, width, prev, early) =~= bytes);
    } else {
        let code = bytes[0] as int;
        assert(table[code] == seq![bytes[0]]);
        let after = grown(table, prev, table[code]);
        lemma_literals(
            data,
            bit + width,
            after,
            next_width(after.len() as int, width, early),
            Some(code),
            bytes.skip(1),
            early,
        );
        assert(seq![bytes[0]] + bytes.skip(1) =~= bytes);
    }
}

/// The bytes a code stands for: those below 256 for themselves, those from 258
/// on for the sequences that have been added, in their order.
pub open spec fn code_bytes(added: Seq<Seq<u8>>, code: nat) -> Seq<u8> {
    if code < 256 {
        seq![code as u8]
    } else {
        added[code - 258]
    }
}

/// The width of a code while `n` sequences have been added: that of the number
/// of codes in use, counting `early` more, but no more than 12 bits.
pub open spec fn code_width(n: nat, early: int) -> int {
    if 258 + n + early < 512 {
        9
    } else if 258 + n + early < 1024 {
        10
    } else if 258 + n + early < 2048 {
        11
    } else {
        12
    }
}

/// Whether the codes from `bit` on are those of an encoder for `bytes`. For the
/// bytes ahead it writes the code of any sequence they begin with, one that the
/// byte ahead has just completed included: every time a code is written, its
/// bytes and the byte behind them are added, up to 4096 codes. It may
/// start afresh with the code 256 at any time and ends with the code 257, or
/// where fewer bits are left than a code takes. `last` holds the bytes of the
/// code before.
pub open spec fn writes_codes(
    data: Seq<u8>,
    bit: int,
    added: Seq<Seq<u8>>,
    last: Option<Seq<u8>>,
    bytes: Seq<u8>,
    early: int,
) -> bool
    decreases 8 * data.len() - bit,
{
    let next = bit + code_width(added.len(), early);
    let code = bits_value(data, bit, next);
    if next > 8 * data.len() {
        bytes.len() == 0
    } else if code == 256 {
        writes_codes(data, next, Seq::empty(), None, bytes, early)
    } else if code == 257 {
        bytes.len() == 0
    } else {
        let known = match last {
            Some(w) => if bytes.len() > 0 && 258 + added.len() < 4096 {
                added.push(w.push(bytes[0]))
            } else {
                added
            },
            None => added,
        };
        let word = code_bytes(known, code);
        &&& code < 258 + known.len()
        &&& word.len() > 0
        &&& word.is_prefix_of(bytes)
        &&& writes_codes(data, next, known, Some(word), bytes.skip(word.len() as int), early)
    }
}

/// Law: whatever bytes an LZW encoder has written codes for are restored,
/// however it cuts them into the sequences it knows, the longest ones or others.
pub proof fn encoded_bytes_are_restored(data: Seq<u8>, bytes: Seq<u8>, early: int)
    requires
        0 <= early <= 1,
        writes_codes(data, 0, Seq::empty(), None, bytes, early),
    ensures
        lzw_bytes(data, early) == bytes,
{
    assert(initial_table() + Seq::<Seq<u8>>::empty() =~= initial_table());
    lemma_encoded(data, 0, Seq::empty(), None, None, bytes, early);
}

/// The width that a decoder has come to is that of the codes it knows.
proof fn lemma_width_in_step(n: nat, early: int)
    requires
        0 <= early <= 1,
    ensures
        next_width(258int + n, code_width(n, early), early) == code_width(n, early),
        next_width(258int + n + 1, code_width(n, early), early) == code_width(n + 1, early),
{
    lemma_widths();
}

/// The same for the codes from `bit` on, `prev` the code before.
proof fn lemma_encoded(
    data: Seq<u8>,
    bit: int,
    added: Seq<Seq<u8>>,
    last: Option<Seq<u8>>,
    prev: Option<int>,
    bytes: Seq<u8>,
    early: int,
)
    requires
        0 <= early <= 1,
        258 + added.len() <= 4096,
        writes_codes(data, bit, added, last, bytes, early),
        match (last, prev) {
            (None, None) => true,
            (Some(w), Some(p)) => {
                &&& w.len() > 0
                &&& 0 <= p < 258 + added.len()
                &&& (initial_table() + added)[p] == w
            },
            _ => false,
        },
    ensures
        decoded(
            data,
            bit,
            initial_table() + added,
            code_width(added.len(), early),
            prev,
            early,
        ) == bytes,
    decreases 8 * data.len() - bit,
{
    let table = initial_table() + added;
    let width = code_width(added.len(), early);
    let next = bit + width;
    let code = bits_value(data, bit, next);
    let whole = decoded(data, bit, table, width, prev, early);
    if next > 8 * data.len() {
        assert(whole =~= bytes);
    } else if code == 256 {
        assert(table.take(258) =~= initial_table() + Seq::<Seq<u8>>::empty());
        lemma_encoded(data, next, Seq::empty(), None, None, bytes, early);
    } else if code == 257 {
        assert(whole =~= bytes);
    } else {
        let grows = last is Some && 258 + added.len() < 4096;
        let known = if grows {
            added.push(last->0.push(bytes[0]))
        } else {
            added
        };
        let word = code_bytes(known, code);
        assert(bytes.len() > 0);
        assert(word[0] == bytes[0]) by {
            assert(word =~= bytes.subrange(0, word.len() as int));
        }
        let entry = code_entry(table, prev, code as int);
        if code < 258 + added.len() {
            assert(table[code as int] == word);
        } else {
            assert(word == last->0.push(bytes[0]));
            assert(last->0[0] == word[0]);
        }
        assert(entry == Some(word));
        let after = grown(table, prev, word);
        assert(after =~= initial_table() + known);
        lemma_width_in_step(added.len(), early);
        assert(next_width(after.len() as int, width, early) == code_width(known.len(), early));
        lemma_encoded(
            data,
            next,
            known,
            Some(word),
            Some(code as int),
            bytes.skip(word.len() as int),
            early,
        );
        assert(word + bytes.skip(word.len() as int) =~= bytes);
    }
}

/// Law: bits are read from the most significant one on: those of a whole byte
/// are its value, and bits in a row count two to the power of how many follow.
pub proof fn bits_are_read_from_the_top(data: Seq<u8>, start: int, middle: int, end: int)
    requires
        0 <= start <= middle <= end <= 8 * data.len(),
    ensures
        bits_value(data, start, end) == bits_value(data, start, middle) * pow2(
            (end - middle) as nat,
        ) + bits_value(data, middle, end),
        start % 8 == 0 && middle == start + 8 ==> bits_value(data, start, middle) == data[start
            / 8],
    decreases end - middle,
{
    lemma2_to64();
    if middle < end {
        bits_are_read_from_the_top(data, start, middle, end - 1);
        lemma_pow2_unfold((end - middle) as nat);
        let a = bits_value(data, start, middle);
        let p = pow2((end - 1 - middle) as nat);
        assert((a * p) * 2 == a * (2 * p)) by (nonlinear_arith);
    } else {
        let a = bits_value(data, start, middle);
        assert(a * 1 == a);
    }
    if start % 8 == 0 && middle == start + 8 {
        let byte = data[start / 8];
        reveal_with_fuel(bits_value, 9);
        assert forall|k: int| 0 <= k < 8 implies #[trigger] bit_at(data, start + k) == (byte >> (7
            - k) as u8) & 1 by {
            assert((start + k) / 8 == start / 8 && (start + k) % 8 == k);
        }
        assert(bit_at(data, start + 0) == (byte >> 7) & 1);
        assert(bit_at(data, start + 1) == (byte >> 6) & 1);
        assert(bit_at(data, start + 2) == (byte >> 5) & 1);
        assert(bit_at(data, start + 3) == (byte >> 4) & 1);
        assert(bit_at(data, start + 4) == (byte >> 3) & 1);
        assert(bit_at(data, start + 5) == (byte >> 2) & 1);
        assert(bit_at(data, start + 6) == (byte >> 1) & 1);
        assert(bit_at(data, start + 7) == (byte >> 0) & 1);
        assert(byte == ((byte >> 7) & 1) * 128 + ((byte >> 6) & 1) * 64 + ((byte >> 5) & 1) * 32 + ((
        byte >> 4) & 1) * 16 + ((byte >> 3) & 1) * 8 + ((byte >> 2) & 1) * 4 + ((byte >> 1) & 1) * 2
            + ((byte >> 0) & 1)) by (bit_vector);
    }
}

} // verus!
