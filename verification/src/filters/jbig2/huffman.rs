//! Prefix codes: the standard tables, tables that a segment carries, and the
//! values they decode to.

use crate::filters::jbig2::bits;
use crate::filters::jbig2::bits::{read_bits, BitReader, BitsV};
use crate::filters::jbig2::budget;
use crate::filters::jbig2::budget::Budget;
use crate::filters::jbig2::reader;
use crate::filters::jbig2::reader::Reader;
use crate::filters::jbig2::{FaultV, Jbig2Error, Outcome, Step};
use crate::filters::lzw;
use vstd::arithmetic::power2::*;
use vstd::prelude::*;

verus! {

/// The longest prefix a code may have.
pub const MAX_PREFIX: u8 = 32;

/// What the prefix of a table line stands for.
#[derive(Debug, Clone, Copy, PartialEq, Eq, Structural)]
pub enum LineKind {
    /// As many values from the line's first on as the bits behind the prefix
    /// tell apart.
    Range(u8),
    /// The values from the line's first down.
    Lower,
    /// The values from the line's first up.
    Upper,
    /// No value but the mark that a list ends.
    OutOfBand,
}

/// One line of a table. A prefix of no bits says that the line is never used.
#[derive(Debug, Clone, Copy, PartialEq, Eq, Structural)]
pub struct Line {
    pub prefix_len: u8,
    pub kind: LineKind,
    pub low: i32,
}

/// The lines whose prefix has `len` bits, in table order.
pub open spec fn members_of(lines: Seq<Line>, len: int) -> Seq<int>
    decreases lines.len(),
{
    if lines.len() == 0 {
        Seq::empty()
    } else {
        let before = members_of(lines.drop_last(), len);
        if lines.last().prefix_len == len {
            before.push(lines.len() - 1)
        } else {
            before
        }
    }
}

/// The first code of `len` bits: the codes of each length follow those of the
/// shorter ones.
pub open spec fn first_code(lines: Seq<Line>, len: int) -> int
    decreases len,
{
    if len <= 1 {
        0
    } else {
        2 * (first_code(lines, len - 1) + members_of(lines, len - 1).len())
    }
}

/// Whether the codes of `len` bits fit into so many bits.
pub open spec fn fits_at(lines: Seq<Line>, len: int) -> bool {
    first_code(lines, len) + members_of(lines, len).len() <= pow2(len as nat)
}

/// Whether no prefix and no range is longer than can be read.
pub open spec fn short_lines(lines: Seq<Line>) -> bool {
    forall|i: int| 0 <= i < lines.len() ==> is_short(#[trigger] lines[i])
}

/// Whether neither the prefix nor the range of a line is longer than can be
/// read.
pub open spec fn is_short(line: Line) -> bool {
    &&& line.prefix_len <= MAX_PREFIX
    &&& line.kind matches LineKind::Range(len) ==> len <= 32
}

/// Whether all codes of a table fit.
pub open spec fn fits(lines: Seq<Line>) -> bool {
    forall|len: int| 1 <= len <= MAX_PREFIX ==> #[trigger] fits_at(lines, len)
}

/// The table with these lines.
pub open spec fn table_of(lines: Seq<Line>) -> Outcome<Seq<Line>> {
    if !short_lines(lines) {
        Err(FaultV::Malformed("Huffman table line too long"@))
    } else if !fits(lines) {
        Err(FaultV::Malformed("Huffman codes overflow the code space"@))
    } else {
        Ok(lines)
    }
}

/// The line whose prefix comes next, and the bits behind it. `len` bits that
/// are no whole prefix have been read.
pub open spec fn matched(lines: Seq<Line>, s: BitsV, len: int, code: int) -> Step<int, BitsV>
    decreases MAX_PREFIX - len,
{
    match bits::bits_of(s, 1) {
        Err(e) => Err(e),
        Ok((bit, t)) => {
            let more = 2 * code + bit;
            let rank = more - first_code(lines, len + 1);
            let members = members_of(lines, len + 1);
            if 0 <= rank < members.len() {
                Ok((members[rank], t))
            } else if len + 1 >= MAX_PREFIX {
                Err((FaultV::Malformed("no such Huffman code"@), t))
            } else {
                matched(lines, t, len + 1, more)
            }
        },
    }
}

/// A value that 32 bits can hold.
pub open spec fn in_range(v: int, s: BitsV) -> Step<Option<i32>, BitsV> {
    if i32::MIN <= v <= i32::MAX {
        Ok((Some(v as i32), s))
    } else {
        Err((FaultV::Malformed("Huffman value out of range"@), s))
    }
}

/// The value that a line and the bits behind its prefix stand for.
pub open spec fn value_of(line: Line, s: BitsV) -> Step<Option<i32>, BitsV> {
    match line.kind {
        LineKind::Range(len) => match bits::bits_of(s, len as nat) {
            Ok((offset, t)) => in_range(line.low + offset, t),
            Err(e) => Err(e),
        },
        LineKind::Lower => match bits::bits_of(s, 32) {
            Ok((offset, t)) => in_range(line.low - offset, t),
            Err(e) => Err(e),
        },
        LineKind::Upper => match bits::bits_of(s, 32) {
            Ok((offset, t)) => in_range(line.low + offset, t),
            Err(e) => Err(e),
        },
        LineKind::OutOfBand => Ok((None, s)),
    }
}

/// The next value that a table decodes; `None` is the mark that a list ends.
pub open spec fn decoded(lines: Seq<Line>, s: BitsV) -> Step<Option<i32>, BitsV> {
    match matched(lines, s, 0, 0) {
        Ok((i, t)) => value_of(lines[i], t),
        Err(e) => Err(e),
    }
}

/// Whether a table can code the mark that a list ends.
pub open spec fn codes_oob(lines: Seq<Line>) -> bool {
    exists|i: int| 0 <= i < lines.len() && (#[trigger] lines[i]).kind == LineKind::OutOfBand
}

/// The lines of one prefix length.
struct Group {
    first: u64,
    members: Vec<usize>,
}

/// A table of prefix codes, assigned by the lengths of their prefixes.
pub struct Table {
    lines: Vec<Line>,
    groups: Vec<Group>,
}

/// Whether the group of one prefix length is that of the lines.
spec fn is_group(group: Group, lines: Seq<Line>, len: int) -> bool {
    &&& group.first == first_code(lines, len)
    &&& group.members@.len() == members_of(lines, len).len()
    &&& forall|k: int|
        0 <= k < group.members@.len() ==> #[trigger] group.members@[k] == members_of(lines, len)[k]
}

impl View for Table {
    type V = Seq<Line>;

    closed spec fn view(&self) -> Seq<Line> {
        self.lines@
    }
}

proof fn lemma_members(lines: Seq<Line>, len: int)
    ensures
        forall|k: int|
            0 <= k < members_of(lines, len).len() ==> 0 <= #[trigger] members_of(lines, len)[k]
                < lines.len(),
        members_of(lines, len).len() <= lines.len(),
    decreases lines.len(),
{
    if lines.len() > 0 {
        lemma_members(lines.drop_last(), len);
    }
}

/// The places of the lines whose prefix has `len` bits.
fn members(lines: &Vec<Line>, len: u8) -> (out: Vec<usize>)
    ensures
        out@.len() == members_of(lines@, len as int).len(),
        forall|k: int|
            0 <= k < out@.len() ==> #[trigger] out@[k] == members_of(lines@, len as int)[k],
{
    let mut out: Vec<usize> = Vec::new();
    let mut i: usize = 0;
    assert(lines@.take(0) =~= Seq::<Line>::empty());
    while i < lines.len()
        invariant
            i <= lines@.len(),
            out@.len() == members_of(lines@.take(i as int), len as int).len(),
            forall|k: int|
                0 <= k < out@.len() ==> #[trigger] out@[k] == members_of(
                    lines@.take(i as int),
                    len as int,
                )[k],
        decreases lines@.len() - i,
    {
        proof {
            assert(lines@.take(i + 1).drop_last() =~= lines@.take(i as int));
            assert(lines@.take(i + 1).last() == lines@[i as int]);
        }
        if lines[i].prefix_len == len {
            out.push(i);
        }
        i += 1;
    }
    assert(lines@.take(i as int) =~= lines@);
    out
}

impl Table {
    #[verifier::type_invariant]
    spec fn valid(self) -> bool {
        &&& short_lines(self.lines@)
        &&& fits(self.lines@)
        &&& self.groups@.len() == MAX_PREFIX + 1
        &&& forall|len: int|
            1 <= len <= MAX_PREFIX ==> is_group(#[trigger] self.groups@[len], self.lines@, len)
    }

    /// The table with these lines.
    pub fn new(lines: Vec<Line>) -> (out: Result<Table, Jbig2Error>)
        ensures
            match out {
                Ok(table) => table_of(lines@) == Outcome::<Seq<Line>>::Ok(table@),
                Err(e) => table_of(lines@) == Outcome::<Seq<Line>>::Err(e@),
            },
    {
        let mut i: usize = 0;
        while i < lines.len()
            invariant
                i <= lines@.len(),
                forall|j: int| 0 <= j < i ==> is_short(#[trigger] lines@[j]),
            decreases lines@.len() - i,
        {
            let long_range = match lines[i].kind {
                LineKind::Range(len) => len > 32,
                _ => false,
            };
            if lines[i].prefix_len > MAX_PREFIX || long_range {
                assert(!is_short(lines@[i as int]));
                return Err(Jbig2Error::Malformed("Huffman table line too long"));
            }
            i += 1;
        }
        let mut groups: Vec<Group> = Vec::new();
        groups.push(Group { first: 0, members: Vec::new() });
        let mut len: u8 = 1;
        let mut space: u64 = 2;
        let mut first: u64 = 0;
        proof {
            lemma2_to64();
        }
        while len <= MAX_PREFIX
            invariant
                1 <= len <= MAX_PREFIX + 1,
                short_lines(lines@),
                groups@.len() == len,
                space == pow2(len as nat),
                first == first_code(lines@, len as int),
                first <= space,
                forall|l: int| 1 <= l < len ==> is_group(#[trigger] groups@[l], lines@, l),
                forall|l: int| 1 <= l < len ==> #[trigger] fits_at(lines@, l),
            decreases MAX_PREFIX + 1 - len,
        {
            let members = members(&lines, len);
            proof {
                lemma_members(lines@, len as int);
                lemma2_to64();
                lemma_pow2_unfold((len + 1) as nat);
                if len < 33 {
                    lemma_pow2_strictly_increases(len as nat, 33);
                }
                lemma_pow2_unfold(33);
            }
            let count: u64 = members.len() as u64;
            if count > space - first {
                assert(!fits_at(lines@, len as int));
                return Err(Jbig2Error::Malformed("Huffman codes overflow the code space"));
            }
            assert(fits_at(lines@, len as int));
            let next: u64 = 2 * (first + count);
            groups.push(Group { first, members });
            first = next;
            space = space * 2;
            len += 1;
        }
        Ok(Table { lines, groups })
    }

    /// Whether the table can code the mark that a list ends.
    pub fn has_oob(&self) -> (out: bool)
        ensures
            out == codes_oob(self@),
    {
        let mut i: usize = 0;
        while i < self.lines.len()
            invariant
                i <= self.lines@.len(),
                forall|j: int|
                    0 <= j < i ==> (#[trigger] self.lines@[j]).kind != LineKind::OutOfBand,
            decreases self.lines@.len() - i,
        {
            if self.lines[i].kind == LineKind::OutOfBand {
                assert(self@[i as int].kind == LineKind::OutOfBand);
                return true;
            }
            i += 1;
        }
        false
    }

    /// The lines of the table.
    pub fn lines(&self) -> (out: &Vec<Line>)
        ensures
            out@ == self@,
    {
        &self.lines
    }

    /// Reads the line whose prefix comes next.
    fn read_line(&self, bits: &mut BitReader) -> (out: Result<Line, Jbig2Error>)
        ensures
            match out {
                Ok(line) => matched(self@, old(bits)@, 0, 0) matches Ok((i, t)) && self@[i] == line
                    && t == final(bits)@,
                Err(e) => matched(self@, old(bits)@, 0, 0) == Step::<int, BitsV>::Err(
                    (e@, final(bits)@),
                ),
            },
            match out {
                Ok(line) => is_short(line),
                Err(_) => true,
            },
    {
        proof {
            use_type_invariant(self);
            lemma2_to64();
        }
        let ghost start = bits@;
        let mut code: u64 = 0;
        let mut len: u8 = 0;
        loop
            invariant
                len < MAX_PREFIX,
                code < pow2(len as nat),
                start == old(bits)@,
                self.valid(),
                matched(self@, start, 0, 0) == matched(self@, bits@, len as int, code as int),
            decreases MAX_PREFIX - len,
        {
            let bit: u8 = match bits.read_bit() {
                Some(bit) => bit,
                None => {
                    return Err(Jbig2Error::Truncated);
                },
            };
            proof {
                lemma2_to64();
                lemma_pow2_unfold((len + 1) as nat);
                lemma_pow2_strictly_increases(len as nat, 32);
                lemma_members(self@, len + 1);
                assert(is_group(self.groups@[len + 1], self.lines@, len + 1));
            }
            code = 2 * code + bit as u64;
            len += 1;
            let group = &self.groups[len as usize];
            if code >= group.first && code - group.first < group.members.len() as u64 {
                let rank: usize = (code - group.first) as usize;
                let at: usize = group.members[rank];
                assert(at == members_of(self@, len as int)[rank as int]);
                assert(is_short(self.lines@[at as int]));
                return Ok(self.lines[at]);
            }
            if len >= MAX_PREFIX {
                return Err(Jbig2Error::Malformed("no such Huffman code"));
            }
        }
    }

    /// Decodes the next value; `None` is the mark that a list ends.
    pub fn decode(&self, bits: &mut BitReader) -> (out: Result<Option<i32>, Jbig2Error>)
        ensures
            match out {
                Ok(v) => decoded(self@, old(bits)@) == Step::<Option<i32>, BitsV>::Ok(
                    (v, final(bits)@),
                ),
                Err(e) => decoded(self@, old(bits)@) == Step::<Option<i32>, BitsV>::Err(
                    (e@, final(bits)@),
                ),
            },
    {
        let line = self.read_line(bits)?;
        let value: i64 = match line.kind {
            LineKind::Range(len) => line.low as i64 + read_bits(bits, len)? as i64,
            LineKind::Lower => line.low as i64 - read_bits(bits, 32)? as i64,
            LineKind::Upper => line.low as i64 + read_bits(bits, 32)? as i64,
            LineKind::OutOfBand => {
                return Ok(None);
            },
        };
        if value < i32::MIN as i64 || value > i32::MAX as i64 {
            return Err(Jbig2Error::Malformed("Huffman value out of range"));
        }
        Ok(Some(value as i32))
    }
}

impl Clone for Table {
    fn clone(&self) -> (out: Table)
        ensures
            out@ == self@,
    {
        proof {
            use_type_invariant(self);
        }
        let lines = self.lines.clone();
        assert(lines@ =~= self.lines@);
        let mut groups: Vec<Group> = Vec::new();
        let mut i: usize = 0;
        while i < self.groups.len()
            invariant
                i <= self.groups@.len(),
                groups@.len() == i,
                forall|j: int|
                    0 <= j < i ==> (#[trigger] groups@[j]).first == self.groups@[j].first
                        && groups@[j].members@ == self.groups@[j].members@,
            decreases self.groups@.len() - i,
        {
            let members = self.groups[i].members.clone();
            assert(members@ =~= self.groups@[i as int].members@);
            groups.push(Group { first: self.groups[i].first, members });
            i += 1;
        }
        proof {
            assert forall|len: int| 1 <= len <= MAX_PREFIX implies is_group(
                #[trigger] groups@[len],
                lines@,
                len,
            ) by {
                assert(is_group(self.groups@[len], self.lines@, len));
            }
        }
        Table { lines, groups }
    }
}

/// Whether a list of lengths that assigns no code at all is refused.
#[derive(Debug, Clone, Copy, PartialEq, Eq, Structural)]
pub enum Unused {
    Permitted,
    Refused,
}

/// The lines that prefix lengths make: the value of each is its place.
pub open spec fn length_lines(lengths: Seq<u8>) -> Seq<Line> {
    Seq::new(
        lengths.len(),
        |i: int| Line { prefix_len: lengths[i], kind: LineKind::Range(0), low: i as i32 },
    )
}

/// The table that prefix lengths make.
pub open spec fn length_table(lengths: Seq<u8>, unused: Unused) -> Outcome<Seq<Line>> {
    if unused == Unused::Refused && forall|i: int|
        0 <= i < lengths.len() ==> #[trigger] lengths[i] == 0 {
        Err(FaultV::Malformed("Huffman table assigns no code"@))
    } else {
        table_of(length_lines(lengths))
    }
}

/// The table that gives the place of each length a code of so many bits.
pub fn from_code_lengths(lengths: &[u8], unused: Unused) -> (out: Result<Table, Jbig2Error>)
    requires
        lengths@.len() <= i32::MAX,
    ensures
        match out {
            Ok(table) => length_table(lengths@, unused) == Outcome::<Seq<Line>>::Ok(table@),
            Err(e) => length_table(lengths@, unused) == Outcome::<Seq<Line>>::Err(e@),
        },
{
    let mut lines: Vec<Line> = Vec::new();
    let mut any = false;
    let mut i: usize = 0;
    while i < lengths.len()
        invariant
            i <= lengths@.len() <= i32::MAX,
            lines@.len() == i,
            forall|j: int|
                0 <= j < i ==> #[trigger] lines@[j] == (Line {
                    prefix_len: lengths@[j],
                    kind: LineKind::Range(0),
                    low: j as i32,
                }),
            any == exists|j: int| 0 <= j < i && #[trigger] lengths@[j] != 0,
        decreases lengths@.len() - i,
    {
        let ghost was = any;
        if lengths[i] != 0 {
            any = true;
        }
        lines.push(Line { prefix_len: lengths[i], kind: LineKind::Range(0), low: i as i32 });
        i += 1;
    }
    assert(lines@ =~= length_lines(lengths@));
    if unused == Unused::Refused && !any {
        return Err(Jbig2Error::Malformed("Huffman table assigns no code"));
    }
    Table::new(lines)
}

/// A line of `1 << range_len` values from `low` on.
pub open spec fn a_range(prefix_len: u8, range_len: u8, low: i32) -> Line {
    Line { prefix_len, kind: LineKind::Range(range_len), low }
}

/// A line of the values from `low` down.
pub open spec fn a_lower(prefix_len: u8, low: i32) -> Line {
    Line { prefix_len, kind: LineKind::Lower, low }
}

/// A line of the values from `low` up.
pub open spec fn a_upper(prefix_len: u8, low: i32) -> Line {
    Line { prefix_len, kind: LineKind::Upper, low }
}

/// The line of the mark that a list ends.
pub open spec fn a_out_of_band(prefix_len: u8) -> Line {
    Line { prefix_len, kind: LineKind::OutOfBand, low: 0 }
}

/// A line of `1 << range_len` values from `low` on.
fn range(prefix_len: u8, range_len: u8, low: i32) -> (out: Line)
    ensures
        out == a_range(prefix_len, range_len, low),
{
    Line { prefix_len, kind: LineKind::Range(range_len), low }
}

/// A line of the values from `low` down.
fn lower(prefix_len: u8, low: i32) -> (out: Line)
    ensures
        out == a_lower(prefix_len, low),
{
    Line { prefix_len, kind: LineKind::Lower, low }
}

/// A line of the values from `low` up.
fn upper(prefix_len: u8, low: i32) -> (out: Line)
    ensures
        out == a_upper(prefix_len, low),
{
    Line { prefix_len, kind: LineKind::Upper, low }
}

/// The line of the mark that a list ends.
fn out_of_band(prefix_len: u8) -> (out: Line)
    ensures
        out == a_out_of_band(prefix_len),
{
    Line { prefix_len, kind: LineKind::OutOfBand, low: 0 }
}

/// The lines of the standard tables, which are numbered from 1.
pub open spec fn standard_lines(n: int) -> Seq<Line> {
    if n == 1 {
        seq![
            a_range(1, 4, 0),
            a_range(2, 8, 16),
            a_range(3, 16, 272),
            a_upper(3, 65808),
        ]
    } else if n == 2 {
        seq![
            a_range(1, 0, 0),
            a_range(2, 0, 1),
            a_range(3, 0, 2),
            a_range(4, 3, 3),
            a_range(5, 6, 11),
            a_upper(6, 75),
            a_out_of_band(6),
        ]
    } else if n == 3 {
        seq![
            a_range(8, 8, (-256) as i32),
            a_range(1, 0, 0),
            a_range(2, 0, 1),
            a_range(3, 0, 2),
            a_range(4, 3, 3),
            a_range(5, 6, 11),
            a_lower(8, (-257) as i32),
            a_upper(7, 75),
            a_out_of_band(6),
        ]
    } else if n == 4 {
        seq![
            a_range(1, 0, 1),
            a_range(2, 0, 2),
            a_range(3, 0, 3),
            a_range(4, 3, 4),
            a_range(5, 6, 12),
            a_upper(5, 76),
        ]
    } else if n == 5 {
        seq![
            a_range(7, 8, (-255) as i32),
            a_range(1, 0, 1),
            a_range(2, 0, 2),
            a_range(3, 0, 3),
            a_range(4, 3, 4),
            a_range(5, 6, 12),
            a_lower(7, (-256) as i32),
            a_upper(6, 76),
        ]
    } else if n == 6 {
        seq![
            a_range(5, 10, (-2048) as i32),
            a_range(4, 9, (-1024) as i32),
            a_range(4, 8, (-512) as i32),
            a_range(4, 7, (-256) as i32),
            a_range(5, 6, (-128) as i32),
            a_range(5, 5, (-64) as i32),
            a_range(4, 5, (-32) as i32),
            a_range(2, 7, 0),
            a_range(3, 7, 128),
            a_range(3, 8, 256),
            a_range(4, 9, 512),
            a_range(4, 10, 1024),
            a_lower(6, (-2049) as i32),
            a_upper(6, 2048),
        ]
    } else if n == 7 {
        seq![
            a_range(4, 9, (-1024) as i32),
            a_range(3, 8, (-512) as i32),
            a_range(4, 7, (-256) as i32),
            a_range(5, 6, (-128) as i32),
            a_range(5, 5, (-64) as i32),
            a_range(4, 5, (-32) as i32),
            a_range(4, 5, 0),
            a_range(5, 5, 32),
            a_range(5, 6, 64),
            a_range(4, 7, 128),
            a_range(3, 8, 256),
            a_range(3, 9, 512),
            a_range(3, 10, 1024),
            a_lower(5, (-1025) as i32),
            a_upper(5, 2048),
        ]
    } else if n == 8 {
        seq![
            a_range(8, 3, (-15) as i32),
            a_range(9, 1, (-7) as i32),
            a_range(8, 1, (-5) as i32),
            a_range(9, 0, (-3) as i32),
            a_range(7, 0, (-2) as i32),
            a_range(4, 0, (-1) as i32),
            a_range(2, 1, 0),
            a_range(5, 0, 2),
            a_range(6, 0, 3),
            a_range(3, 4, 4),
            a_range(6, 1, 20),
            a_range(4, 4, 22),
            a_range(4, 5, 38),
            a_range(5, 6, 70),
            a_range(5, 7, 134),
            a_range(6, 7, 262),
            a_range(7, 8, 390),
            a_range(6, 10, 646),
            a_lower(9, (-16) as i32),
            a_upper(9, 1670),
            a_out_of_band(2),
        ]
    } else if n == 9 {
        seq![
            a_range(8, 4, (-31) as i32),
            a_range(9, 2, (-15) as i32),
            a_range(8, 2, (-11) as i32),
            a_range(9, 1, (-7) as i32),
            a_range(7, 1, (-5) as i32),
            a_range(4, 1, (-3) as i32),
            a_range(3, 1, (-1) as i32),
            a_range(3, 1, 1),
            a_range(5, 1, 3),
            a_range(6, 1, 5),
            a_range(3, 5, 7),
            a_range(6, 2, 39),
            a_range(4, 5, 43),
            a_range(4, 6, 75),
            a_range(5, 7, 139),
            a_range(5, 8, 267),
            a_range(6, 8, 523),
            a_range(7, 9, 779),
            a_range(6, 11, 1291),
            a_lower(9, (-32) as i32),
            a_upper(9, 3339),
            a_out_of_band(2),
        ]
    } else if n == 10 {
        seq![
            a_range(7, 4, (-21) as i32),
            a_range(8, 0, (-5) as i32),
            a_range(7, 0, (-4) as i32),
            a_range(5, 0, (-3) as i32),
            a_range(2, 2, (-2) as i32),
            a_range(5, 0, 2),
            a_range(6, 0, 3),
            a_range(7, 0, 4),
            a_range(8, 0, 5),
            a_range(2, 6, 6),
            a_range(5, 5, 70),
            a_range(6, 5, 102),
            a_range(6, 6, 134),
            a_range(6, 7, 198),
            a_range(6, 8, 326),
            a_range(6, 9, 582),
            a_range(6, 10, 1094),
            a_range(7, 11, 2118),
            a_lower(8, (-22) as i32),
            a_upper(8, 4166),
            a_out_of_band(2),
        ]
    } else if n == 11 {
        seq![
            a_range(1, 0, 1),
            a_range(2, 1, 2),
            a_range(4, 0, 4),
            a_range(4, 1, 5),
            a_range(5, 1, 7),
            a_range(5, 2, 9),
            a_range(6, 2, 13),
            a_range(7, 2, 17),
            a_range(7, 3, 21),
            a_range(7, 4, 29),
            a_range(7, 5, 45),
            a_range(7, 6, 77),
            a_upper(7, 141),
        ]
    } else if n == 12 {
        seq![
            a_range(1, 0, 1),
            a_range(2, 0, 2),
            a_range(3, 1, 3),
            a_range(5, 0, 5),
            a_range(5, 1, 6),
            a_range(6, 1, 8),
            a_range(7, 0, 10),
            a_range(7, 1, 11),
            a_range(7, 2, 13),
            a_range(7, 3, 17),
            a_range(7, 4, 25),
            a_range(8, 5, 41),
            a_upper(8, 73),
        ]
    } else if n == 13 {
        seq![
            a_range(1, 0, 1),
            a_range(3, 0, 2),
            a_range(4, 0, 3),
            a_range(5, 0, 4),
            a_range(4, 1, 5),
            a_range(3, 3, 7),
            a_range(6, 1, 15),
            a_range(6, 2, 17),
            a_range(6, 3, 21),
            a_range(6, 4, 29),
            a_range(6, 5, 45),
            a_range(7, 6, 77),
            a_upper(7, 141),
        ]
    } else if n == 14 {
        seq![
            a_range(3, 0, (-2) as i32),
            a_range(3, 0, (-1) as i32),
            a_range(1, 0, 0),
            a_range(3, 0, 1),
            a_range(3, 0, 2),
        ]
    } else if n == 15 {
        seq![
            a_range(7, 4, (-24) as i32),
            a_range(6, 2, (-8) as i32),
            a_range(5, 1, (-4) as i32),
            a_range(4, 0, (-2) as i32),
            a_range(3, 0, (-1) as i32),
            a_range(1, 0, 0),
            a_range(3, 0, 1),
            a_range(4, 0, 2),
            a_range(5, 1, 3),
            a_range(6, 2, 5),
            a_range(7, 4, 9),
            a_lower(7, (-25) as i32),
            a_upper(7, 25),
        ]
    } else {
        Seq::empty()
    }
}

/// A standard table.
pub open spec fn standard_table(n: int) -> Outcome<Seq<Line>> {
    if 1 <= n <= 15 {
        table_of(standard_lines(n))
    } else {
        Err(FaultV::Malformed("no such standard Huffman table"@))
    }
}

/// The lines of the standard tables.
#[verifier::rlimit(50)]
fn lines_of(n: u8) -> (out: Vec<Line>)
    ensures
        out@ == standard_lines(n as int),
{
    let out: Vec<Line> =
    if n == 1 {
        vec![
            range(1, 4, 0),
            range(2, 8, 16),
            range(3, 16, 272),
            upper(3, 65808),
        ]
    } else if n == 2 {
        vec![
            range(1, 0, 0),
            range(2, 0, 1),
            range(3, 0, 2),
            range(4, 3, 3),
            range(5, 6, 11),
            upper(6, 75),
            out_of_band(6),
        ]
    } else if n == 3 {
        vec![
            range(8, 8, -256),
            range(1, 0, 0),
            range(2, 0, 1),
            range(3, 0, 2),
            range(4, 3, 3),
            range(5, 6, 11),
            lower(8, -257),
            upper(7, 75),
            out_of_band(6),
        ]
    } else if n == 4 {
        vec![
            range(1, 0, 1),
            range(2, 0, 2),
            range(3, 0, 3),
            range(4, 3, 4),
            range(5, 6, 12),
            upper(5, 76),
        ]
    } else if n == 5 {
        vec![
            range(7, 8, -255),
            range(1, 0, 1),
            range(2, 0, 2),
            range(3, 0, 3),
            range(4, 3, 4),
            range(5, 6, 12),
            lower(7, -256),
            upper(6, 76),
        ]
    } else if n == 6 {
        vec![
            range(5, 10, -2048),
            range(4, 9, -1024),
            range(4, 8, -512),
            range(4, 7, -256),
            range(5, 6, -128),
            range(5, 5, -64),
            range(4, 5, -32),
            range(2, 7, 0),
            range(3, 7, 128),
            range(3, 8, 256),
            range(4, 9, 512),
            range(4, 10, 1024),
            lower(6, -2049),
            upper(6, 2048),
        ]
    } else if n == 7 {
        vec![
            range(4, 9, -1024),
            range(3, 8, -512),
            range(4, 7, -256),
            range(5, 6, -128),
            range(5, 5, -64),
            range(4, 5, -32),
            range(4, 5, 0),
            range(5, 5, 32),
            range(5, 6, 64),
            range(4, 7, 128),
            range(3, 8, 256),
            range(3, 9, 512),
            range(3, 10, 1024),
            lower(5, -1025),
            upper(5, 2048),
        ]
    } else if n == 8 {
        vec![
            range(8, 3, -15),
            range(9, 1, -7),
            range(8, 1, -5),
            range(9, 0, -3),
            range(7, 0, -2),
            range(4, 0, -1),
            range(2, 1, 0),
            range(5, 0, 2),
            range(6, 0, 3),
            range(3, 4, 4),
            range(6, 1, 20),
            range(4, 4, 22),
            range(4, 5, 38),
            range(5, 6, 70),
            range(5, 7, 134),
            range(6, 7, 262),
            range(7, 8, 390),
            range(6, 10, 646),
            lower(9, -16),
            upper(9, 1670),
            out_of_band(2),
        ]
    } else if n == 9 {
        vec![
            range(8, 4, -31),
            range(9, 2, -15),
            range(8, 2, -11),
            range(9, 1, -7),
            range(7, 1, -5),
            range(4, 1, -3),
            range(3, 1, -1),
            range(3, 1, 1),
            range(5, 1, 3),
            range(6, 1, 5),
            range(3, 5, 7),
            range(6, 2, 39),
            range(4, 5, 43),
            range(4, 6, 75),
            range(5, 7, 139),
            range(5, 8, 267),
            range(6, 8, 523),
            range(7, 9, 779),
            range(6, 11, 1291),
            lower(9, -32),
            upper(9, 3339),
            out_of_band(2),
        ]
    } else if n == 10 {
        vec![
            range(7, 4, -21),
            range(8, 0, -5),
            range(7, 0, -4),
            range(5, 0, -3),
            range(2, 2, -2),
            range(5, 0, 2),
            range(6, 0, 3),
            range(7, 0, 4),
            range(8, 0, 5),
            range(2, 6, 6),
            range(5, 5, 70),
            range(6, 5, 102),
            range(6, 6, 134),
            range(6, 7, 198),
            range(6, 8, 326),
            range(6, 9, 582),
            range(6, 10, 1094),
            range(7, 11, 2118),
            lower(8, -22),
            upper(8, 4166),
            out_of_band(2),
        ]
    } else if n == 11 {
        vec![
            range(1, 0, 1),
            range(2, 1, 2),
            range(4, 0, 4),
            range(4, 1, 5),
            range(5, 1, 7),
            range(5, 2, 9),
            range(6, 2, 13),
            range(7, 2, 17),
            range(7, 3, 21),
            range(7, 4, 29),
            range(7, 5, 45),
            range(7, 6, 77),
            upper(7, 141),
        ]
    } else if n == 12 {
        vec![
            range(1, 0, 1),
            range(2, 0, 2),
            range(3, 1, 3),
            range(5, 0, 5),
            range(5, 1, 6),
            range(6, 1, 8),
            range(7, 0, 10),
            range(7, 1, 11),
            range(7, 2, 13),
            range(7, 3, 17),
            range(7, 4, 25),
            range(8, 5, 41),
            upper(8, 73),
        ]
    } else if n == 13 {
        vec![
            range(1, 0, 1),
            range(3, 0, 2),
            range(4, 0, 3),
            range(5, 0, 4),
            range(4, 1, 5),
            range(3, 3, 7),
            range(6, 1, 15),
            range(6, 2, 17),
            range(6, 3, 21),
            range(6, 4, 29),
            range(6, 5, 45),
            range(7, 6, 77),
            upper(7, 141),
        ]
    } else if n == 14 {
        vec![
            range(3, 0, -2),
            range(3, 0, -1),
            range(1, 0, 0),
            range(3, 0, 1),
            range(3, 0, 2),
        ]
    } else if n == 15 {
        vec![
            range(7, 4, -24),
            range(6, 2, -8),
            range(5, 1, -4),
            range(4, 0, -2),
            range(3, 0, -1),
            range(1, 0, 0),
            range(3, 0, 1),
            range(4, 0, 2),
            range(5, 1, 3),
            range(6, 2, 5),
            range(7, 4, 9),
            lower(7, -25),
            upper(7, 25),
        ]
    } else {
        Vec::new()
    };
    assert(out@ =~= standard_lines(n as int));
    out
}

/// The standard table with this number.
pub fn standard(n: u8) -> (out: Result<Table, Jbig2Error>)
    ensures
        match out {
            Ok(table) => standard_table(n as int) == Outcome::<Seq<Line>>::Ok(table@),
            Err(e) => standard_table(n as int) == Outcome::<Seq<Line>>::Err(e@),
        },
{
    if n < 1 || n > 15 {
        return Err(Jbig2Error::Malformed("no such standard Huffman table"));
    }
    Table::new(lines_of(n))
}

/// The tables of referred-to segments.
pub open spec fn tables_view(tables: Seq<&Table>) -> Seq<Seq<Line>> {
    Seq::new(tables.len(), |i: int| tables[i]@)
}

/// The next of the tables that segments supply, paid for by the line, with what
/// is left of the allowance.
pub open spec fn custom_of(
    tables: Seq<Seq<Line>>,
    used: nat,
    missing: Seq<char>,
    left: nat,
) -> Outcome<(Seq<Line>, nat)> {
    if used >= tables.len() {
        Err(FaultV::Malformed(missing))
    } else {
        match budget::charged(left, tables[used as int].len()) {
            Ok(rest) => Ok((tables[used as int], rest)),
            Err(e) => Err(e),
        }
    }
}

/// Takes the next of the tables that segments supply; `missing` is the error
/// where there is none. The copy is charged by the line.
pub fn take_custom(
    tables: &[&Table],
    used: &mut usize,
    missing: &'static str,
    budget: &mut Budget,
) -> (out: Result<Table, Jbig2Error>)
    ensures
        final(budget)@ <= old(budget)@,
        ({
            let next = custom_of(
                tables_view(tables@),
                *old(used) as nat,
                missing@,
                old(budget)@,
            );
            match out {
                Ok(table) => next == Outcome::<(Seq<Line>, nat)>::Ok((table@, final(budget)@))
                    && *final(used) == *old(used) + 1,
                Err(e) => next == Outcome::<(Seq<Line>, nat)>::Err(e@)
                    && final(budget)@ == old(budget)@ && *final(used) == *old(used),
            }
        }),
{
    if *used >= tables.len() {
        return Err(Jbig2Error::Malformed(missing));
    }
    let table: &Table = tables[*used];
    assert(tables_view(tables@)[*used as int] == table@);
    budget.charge(table.lines.len() as u64)?;
    *used = *used + 1;
    Ok(table.clone())
}

/// The value of a 32-bit number with a sign.
pub open spec fn signed_long(v: u32) -> int {
    if v < 0x8000_0000 {
        v as int
    } else {
        v - 0x1_0000_0000
    }
}

/// What is read of a table segment so far.
#[verifier::ext_equal]
pub struct TableV {
    pub bits: BitsV,
    pub left: nat,
    pub lines: Seq<Line>,
}

/// What comes of reading lines: the table so far, or the fault and what is left
/// of the allowance.
pub type Lines = std::result::Result<TableV, (FaultV, nat)>;

/// A table with one more line.
pub open spec fn with_line(
    bits: BitsV,
    left: nat,
    lines: Seq<Line>,
    prefix_len: nat,
    kind: LineKind,
    low: int,
) -> Lines {
    match budget::charged(left, 1) {
        Ok(rest) => Ok(
            TableV {
                bits,
                left: rest,
                lines: lines.push(Line { prefix_len: prefix_len as u8, kind, low: low as i32 }),
            },
        ),
        Err(e) => Err((e, left)),
    }
}

/// The ordinary lines of a table segment: each says how long its prefix and its
/// range are, and begins where the one before it ends.
pub open spec fn ranges_from(
    s: TableV,
    prefix_size: nat,
    range_size: nat,
    low: int,
    high: int,
) -> Lines
    decreases
            if low < high {
                high - low
            } else {
                0
            },
{
    if low >= high {
        Ok(s)
    } else {
        match bits::bits_of(s.bits, prefix_size) {
            Err((e, _)) => Err((e, s.left)),
            Ok((prefix_len, t)) => match bits::bits_of(t, range_size) {
                Err((e, _)) => Err((e, s.left)),
                Ok((range_len, t)) => if range_len > 32 {
                    Err((FaultV::Malformed("Huffman table line too long"@), s.left))
                } else {
                    proof {
                        lemma_pow2_pos(range_len);
                    }
                    match with_line(
                        t,
                        s.left,
                        s.lines,
                        prefix_len,
                        LineKind::Range(range_len as u8),
                        low,
                    ) {
                        Err(e) => Err(e),
                        Ok(next) => ranges_from(
                            next,
                            prefix_size,
                            range_size,
                            low + pow2(range_len),
                            high,
                        ),
                    }
                },
            },
        }
    }
}

/// One line of a table segment whose range is not said.
pub open spec fn open_line(s: TableV, prefix_size: nat, kind: LineKind, low: int) -> Lines {
    match bits::bits_of(s.bits, prefix_size) {
        Err((e, _)) => Err((e, s.left)),
        Ok((prefix_len, t)) => with_line(t, s.left, s.lines, prefix_len, kind, low),
    }
}

/// The lines of a table segment: the ordinary ones, those below and above them,
/// and the mark that a list ends where the segment says so.
pub open spec fn segment_lines(
    bits: BitsV,
    left: nat,
    flags: u8,
    low: int,
    high: int,
) -> Lines {
    let prefix_size = (flags / 2 % 8 + 1) as nat;
    let range_size = (flags / 16 % 8 + 1) as nat;
    match ranges_from(
        TableV { bits, left, lines: Seq::empty() },
        prefix_size,
        range_size,
        low,
        high,
    ) {
        Err(e) => Err(e),
        Ok(s) => match open_line(s, prefix_size, LineKind::Lower, low - 1) {
            Err(e) => Err(e),
            Ok(s) => match open_line(s, prefix_size, LineKind::Upper, high) {
                Err(e) => Err(e),
                Ok(s) => if flags % 2 == 1 {
                    open_line(s, prefix_size, LineKind::OutOfBand, 0)
                } else {
                    Ok(s)
                },
            },
        },
    }
}

/// The table that a code table segment carries, with what is left of the
/// allowance.
pub open spec fn segment_table(data: Seq<u8>, left: nat) -> Step<Seq<Line>, nat> {
    match reader::byte_of(data) {
        Err((e, _)) => Err((e, left)),
        Ok((flags, rest)) => match reader::long_of(rest) {
            Err((e, _)) => Err((e, left)),
            Ok((low, rest)) => match reader::long_of(rest) {
                Err((e, _)) => Err((e, left)),
                Ok((high, rest)) => if signed_long(low) == i32::MIN {
                    Err((FaultV::Malformed("Huffman table range too low"@), left))
                } else {
                    match segment_lines(
                        BitsV { data: rest, pos: 0 },
                        left,
                        flags,
                        signed_long(low),
                        signed_long(high),
                    ) {
                        Err(e) => Err(e),
                        Ok(s) => match table_of(s.lines) {
                            Ok(lines) => Ok((lines, s.left)),
                            Err(e) => Err((e, s.left)),
                        },
                    }
                },
            },
        },
    }
}

/// Reads the prefix length of a line and appends the line.
fn read_open_line(
    bits: &mut BitReader,
    budget: &mut Budget,
    lines: &mut Vec<Line>,
    prefix_size: u8,
    kind: LineKind,
    low: i32,
) -> (out: Result<(), Jbig2Error>)
    requires
        prefix_size <= 8,
    ensures
        final(budget)@ <= old(budget)@,
        ({
            let next = open_line(
                TableV { bits: old(bits)@, left: old(budget)@, lines: old(lines)@ },
                prefix_size as nat,
                kind,
                low as int,
            );
            match out {
                Ok(_) => next == Lines::Ok(
                    TableV { bits: final(bits)@, left: final(budget)@, lines: final(lines)@ },
                ),
                Err(e) => next == Lines::Err((e@, final(budget)@)),
            }
        }),
{
    let prefix_len: u32 = read_bits(bits, prefix_size)?;
    budget.charge(1)?;
    lines.push(Line { prefix_len: prefix_len as u8, kind, low });
    Ok(())
}

/// Reads the ordinary lines of a table segment.
fn read_ranges(
    bits: &mut BitReader,
    budget: &mut Budget,
    prefix_size: u8,
    range_size: u8,
    low: i32,
    high: i32,
) -> (out: Result<Vec<Line>, Jbig2Error>)
    requires
        prefix_size <= 8,
        range_size <= 8,
    ensures
        final(budget)@ <= old(budget)@,
        ({
            let all = ranges_from(
                TableV { bits: old(bits)@, left: old(budget)@, lines: Seq::empty() },
                prefix_size as nat,
                range_size as nat,
                low as int,
                high as int,
            );
            match out {
                Ok(lines) => all == Lines::Ok(
                    TableV { bits: final(bits)@, left: final(budget)@, lines: lines@ },
                ),
                Err(e) => all == Lines::Err((e@, final(budget)@)),
            }
        }),
{
    let ghost all = ranges_from(
        TableV { bits: bits@, left: budget@, lines: Seq::empty() },
        prefix_size as nat,
        range_size as nat,
        low as int,
        high as int,
    );
    let mut lines: Vec<Line> = Vec::new();
    let mut cur: i64 = low as i64;
    while cur < high as i64
        invariant
            prefix_size <= 8,
            range_size <= 8,
            low <= cur,
            cur <= 0x8000_0000 + 0x1_0000_0000,
            budget@ <= old(budget)@,
            all == ranges_from(
                TableV { bits: old(bits)@, left: old(budget)@, lines: Seq::empty() },
                prefix_size as nat,
                range_size as nat,
                low as int,
                high as int,
            ),
            all == ranges_from(
                (TableV { bits: bits@, left: budget@, lines: lines@ }),
                prefix_size as nat,
                range_size as nat,
                cur as int,
                high as int,
            ),
        decreases
                if cur < high {
                    high - cur
                } else {
                    0
                },
    {
        let prefix_len: u32 = read_bits(bits, prefix_size)?;
        let range_len: u32 = read_bits(bits, range_size)?;
        if range_len > 32 {
            return Err(Jbig2Error::Malformed("Huffman table line too long"));
        }
        budget.charge(1)?;
        lines.push(
            Line {
                prefix_len: prefix_len as u8,
                kind: LineKind::Range(range_len as u8),
                low: cur as i32,
            },
        );
        let mut count: i64 = 1;
        let mut i: u32 = 0;
        proof {
            lemma2_to64();
        }
        while i < range_len
            invariant
                i <= range_len <= 32,
                count == pow2(i as nat),
            decreases range_len - i,
        {
            proof {
                lemma_pow2_unfold((i + 1) as nat);
                lemma2_to64();
                if i + 1 < 32 {
                    lemma_pow2_strictly_increases((i + 1) as nat, 32);
                }
            }
            count = count * 2;
            i += 1;
        }
        proof {
            lemma2_to64();
            if range_len < 32 {
                lemma_pow2_strictly_increases(range_len as nat, 32);
            }
            lemma_pow2_pos(range_len as nat);
        }
        cur += count;
    }
    Ok(lines)
}

/// A 32-bit number with a sign.
fn to_signed(v: u32) -> (out: i32)
    ensures
        out == signed_long(v),
{
    if v < 0x8000_0000 {
        v as i32
    } else {
        (v as i64 - 0x1_0000_0000) as i32
    }
}

/// Reads the table that a code table segment carries. Every line is charged
/// for.
pub fn parse_table_segment(data: &[u8], budget: &mut Budget) -> (out: Result<Table, Jbig2Error>)
    ensures
        final(budget)@ <= old(budget)@,
        match out {
            Ok(table) => segment_table(data@, old(budget)@) == Step::<Seq<Line>, nat>::Ok(
                (table@, final(budget)@),
            ),
            Err(e) => segment_table(data@, old(budget)@) == Step::<Seq<Line>, nat>::Err(
                (e@, final(budget)@),
            ),
        },
{
    let mut r = Reader::new(data);
    let flags: u8 = r.u8()?;
    let low: i32 = to_signed(r.u32()?);
    let high: i32 = to_signed(r.u32()?);
    if low == i32::MIN {
        return Err(Jbig2Error::Malformed("Huffman table range too low"));
    }
    let prefix_size: u8 = flags / 2 % 8 + 1;
    let range_size: u8 = flags / 16 % 8 + 1;
    let mut bits = BitReader::new(r.rest());
    let mut lines = read_ranges(&mut bits, budget, prefix_size, range_size, low, high)?;
    read_open_line(&mut bits, budget, &mut lines, prefix_size, LineKind::Lower, low - 1)?;
    read_open_line(&mut bits, budget, &mut lines, prefix_size, LineKind::Upper, high)?;
    if flags % 2 == 1 {
        read_open_line(&mut bits, budget, &mut lines, prefix_size, LineKind::OutOfBand, 0)?;
    }
    Table::new(lines)
}

/// The prefix lengths of a standard table, line by line.
pub open spec fn standard_prefixes(n: int) -> Seq<u8> {
    if n == 1 {
        seq![1u8, 2, 3, 3]
    } else if n == 2 {
        seq![1u8, 2, 3, 4, 5, 6, 6]
    } else if n == 3 {
        seq![8u8, 1, 2, 3, 4, 5, 8, 7, 6]
    } else if n == 4 {
        seq![1u8, 2, 3, 4, 5, 5]
    } else if n == 5 {
        seq![7u8, 1, 2, 3, 4, 5, 7, 6]
    } else if n == 6 {
        seq![5u8, 4, 4, 4, 5, 5, 4, 2, 3, 3, 4, 4, 6, 6]
    } else if n == 7 {
        seq![4u8, 3, 4, 5, 5, 4, 4, 5, 5, 4, 3, 3, 3, 5, 5]
    } else if n == 8 {
        seq![8u8, 9, 8, 9, 7, 4, 2, 5, 6, 3, 6, 4, 4, 5, 5, 6, 7, 6, 9, 9, 2]
    } else if n == 9 {
        seq![8u8, 9, 8, 9, 7, 4, 3, 3, 5, 6, 3, 6, 4, 4, 5, 5, 6, 7, 6, 9, 9, 2]
    } else if n == 10 {
        seq![7u8, 8, 7, 5, 2, 5, 6, 7, 8, 2, 5, 6, 6, 6, 6, 6, 6, 7, 8, 8, 2]
    } else if n == 11 {
        seq![1u8, 2, 4, 4, 5, 5, 6, 7, 7, 7, 7, 7, 7]
    } else if n == 12 {
        seq![1u8, 2, 3, 5, 5, 6, 7, 7, 7, 7, 7, 8, 8]
    } else if n == 13 {
        seq![1u8, 3, 4, 5, 4, 3, 6, 6, 6, 6, 6, 7, 7]
    } else if n == 14 {
        seq![3u8, 3, 1, 3, 3]
    } else if n == 15 {
        seq![7u8, 6, 5, 4, 3, 1, 3, 4, 5, 6, 7, 7, 7]
    } else {
        Seq::empty()
    }
}

/// Where the values of a line that has a range end.
pub open spec fn line_end(line: Line) -> int {
    match line.kind {
        LineKind::Range(len) => line.low + pow2(len as nat),
        _ => line.low as int,
    }
}

/// Whether the lines of a table are as long as they are said to be and cover
/// the integers without a gap: every range begins where the one before it
/// ends, the open range below ends before the first and the open range above
/// begins behind the last.
pub open spec fn tiles(lines: Seq<Line>, prefixes: Seq<u8>, ranges: int) -> bool {
    &&& lines.len() == prefixes.len()
    &&& forall|i: int| 0 <= i < lines.len() ==> (#[trigger] lines[i]).prefix_len == prefixes[i]
    &&& 1 <= ranges <= lines.len()
    &&& forall|i: int| 0 <= i < ranges ==> (#[trigger] lines[i]).kind is Range
    &&& forall|i: int|
        0 < i < ranges ==> (#[trigger] lines[i]).low == line_end(lines[i - 1])
    &&& forall|i: int|
        ranges <= i < lines.len() ==> match (#[trigger] lines[i]).kind {
            LineKind::Range(_) => false,
            LineKind::Lower => lines[i].low == lines[0].low - 1,
            LineKind::Upper => lines[i].low == line_end(lines[ranges - 1]),
            LineKind::OutOfBand => true,
        }
}

/// Whether standard table `n` covers the integers it is for.
pub open spec fn covers_its_integers(n: int) -> bool {
    let lines = standard_lines(n);
    let ends_lists = n == 2 || n == 3 || n == 8 || n == 9 || n == 10;
    let below = n == 3 || (5 <= n <= 10) || n == 15;
    let ranges = lines.len() - (if ends_lists {
        1int
    } else {
        0
    }) - (if below {
        1int
    } else {
        0
    }) - (if n != 14 {
        1int
    } else {
        0
    });
    &&& tiles(lines, standard_prefixes(n), ranges)
    &&& ends_lists ==> lines.last().kind == LineKind::OutOfBand
    &&& below ==> lines[ranges].kind == LineKind::Lower
    &&& n != 14 ==> lines[ranges + (if below {
        1int
    } else {
        0
    })].kind == LineKind::Upper
    &&& lines[0].low == (if n == 3 {
        -256
    } else if n == 5 {
        -255
    } else if n == 6 {
        -2048
    } else if n == 7 {
        -1024
    } else if n == 8 {
        -15
    } else if n == 9 {
        -31
    } else if n == 10 {
        -21
    } else if n == 14 {
        -2
    } else if n == 15 {
        -24
    } else if n <= 2 {
        0
    } else {
        1
    })
}

/// Law: the fifteen standard tables cover the integers they are for, each line
/// under a prefix of its length. Tables 2, 3, 8, 9 and 10 end a list, tables 3, 5 to 10 and 15
/// reach below their first range, and all but the fourteenth reach above the
/// last.
pub proof fn standard_tables_tile_the_integers(n: int)
    requires
        1 <= n <= 15,
    ensures
        covers_its_integers(n),
{
    if n == 1 {
        lemma_table_1();
    } else if n == 2 {
        lemma_table_2();
    } else if n == 3 {
        lemma_table_3();
    } else if n == 4 {
        lemma_table_4();
    } else if n == 5 {
        lemma_table_5();
    } else if n == 6 {
        lemma_table_6();
    } else if n == 7 {
        lemma_table_7();
    } else if n == 8 {
        lemma_table_8();
    } else if n == 9 {
        lemma_table_9();
    } else if n == 10 {
        lemma_table_10();
    } else if n == 11 {
        lemma_table_11();
    } else if n == 12 {
        lemma_table_12();
    } else if n == 13 {
        lemma_table_13();
    } else if n == 14 {
        lemma_table_14();
    } else {
        lemma_table_15();
    }
}

proof fn lemma_table_1()
    ensures
        covers_its_integers(1),
{
    lemma2_to64();
}

proof fn lemma_table_2()
    ensures
        covers_its_integers(2),
{
    lemma2_to64();
}

proof fn lemma_table_3()
    ensures
        covers_its_integers(3),
{
    lemma2_to64();
}

proof fn lemma_table_4()
    ensures
        covers_its_integers(4),
{
    lemma2_to64();
}

proof fn lemma_table_5()
    ensures
        covers_its_integers(5),
{
    lemma2_to64();
}

proof fn lemma_table_6()
    ensures
        covers_its_integers(6),
{
    lemma2_to64();
}

proof fn lemma_table_7()
    ensures
        covers_its_integers(7),
{
    lemma2_to64();
}

proof fn lemma_table_8()
    ensures
        covers_its_integers(8),
{
    lemma2_to64();
}

proof fn lemma_table_9()
    ensures
        covers_its_integers(9),
{
    lemma2_to64();
}

proof fn lemma_table_10()
    ensures
        covers_its_integers(10),
{
    lemma2_to64();
}

proof fn lemma_table_11()
    ensures
        covers_its_integers(11),
{
    lemma2_to64();
}

proof fn lemma_table_12()
    ensures
        covers_its_integers(12),
{
    lemma2_to64();
}

proof fn lemma_table_13()
    ensures
        covers_its_integers(13),
{
    lemma2_to64();
}

proof fn lemma_table_14()
    ensures
        covers_its_integers(14),
{
    lemma2_to64();
}

proof fn lemma_table_15()
    ensures
        covers_its_integers(15),
{
    lemma2_to64();
}

/// Law: what a line of a table stands for: its first value and as many more as
/// the bits of its range say, or under an open range as many less or more as 32
/// bits say.
pub proof fn lines_count_from_their_first_value(line: Line, s: BitsV, count: nat, more: nat)
    requires
        count == (match line.kind {
            LineKind::Range(len) => len as nat,
            LineKind::OutOfBand => 0,
            _ => 32,
        }),
        s.pos + count <= 8 * s.data.len(),
        more == lzw::bits_value(s.data, s.pos, s.pos + count),
    ensures
        ({
            let value = match line.kind {
                LineKind::Lower => line.low - more,
                _ => line.low + more,
            };
            let out = value_of(line, s);
            let after = BitsV { data: s.data, pos: s.pos + count };
            &&& line.kind != LineKind::OutOfBand && -0x8000_0000 <= value < 0x8000_0000 ==> out
                == Step::<Option<i32>, BitsV>::Ok((Some(value as i32), after))
            &&& line.kind != LineKind::OutOfBand && !(-0x8000_0000 <= value < 0x8000_0000)
                ==> out is Err
            &&& line.kind == LineKind::OutOfBand ==> out == Step::<Option<i32>, BitsV>::Ok(
                (None, s),
            )
        }),
{
}

/// The weight of the lines whose prefix is shorter than `len` bits: how many
/// words of `len` bits begin with one of their prefixes.
pub open spec fn shorter_weight(lines: Seq<Line>, len: nat) -> nat
    decreases lines.len(),
{
    if lines.len() == 0 {
        0
    } else {
        let l = lines.last().prefix_len as nat;
        shorter_weight(lines.drop_last(), len) + (if 0 < l < len {
            pow2((len - l) as nat)
        } else {
            0
        })
    }
}

/// How many of the lines have a prefix of `len` bits.
pub open spec fn how_many(lines: Seq<Line>, len: nat) -> nat
    decreases lines.len(),
{
    if lines.len() == 0 {
        0
    } else {
        how_many(lines.drop_last(), len) + (if lines.last().prefix_len == len {
            1nat
        } else {
            0
        })
    }
}

/// The prefix of a line as a number: prefixes are handed out from zero on, the
/// shorter ones first and those of one length in the order of their lines.
pub open spec fn prefix_code(lines: Seq<Line>, i: int) -> nat {
    let len = lines[i].prefix_len as nat;
    shorter_weight(lines, len) + how_many(lines.take(i), len)
}

proof fn lemma_members_count(lines: Seq<Line>, len: nat)
    ensures
        members_of(lines, len as int).len() == how_many(lines, len),
    decreases lines.len(),
{
    if lines.len() > 0 {
        lemma_members_count(lines.drop_last(), len);
    }
}

proof fn lemma_member_rank(lines: Seq<Line>, i: int)
    requires
        0 <= i < lines.len(),
    ensures
        ({
            let len = lines[i].prefix_len as nat;
            let rank = how_many(lines.take(i), len) as int;
            &&& rank < members_of(lines, len as int).len()
            &&& members_of(lines, len as int)[rank] == i
        }),
    decreases lines.len(),
{
    let len = lines[i].prefix_len as nat;
    let head = lines.drop_last();
    if i < head.len() {
        lemma_member_rank(head, i);
        assert(head.take(i) =~= lines.take(i));
        assert(head[i] == lines[i]);
    } else {
        assert(lines.take(i) =~= head);
        lemma_members_count(head, len);
    }
}

proof fn lemma_weight_step(lines: Seq<Line>, len: nat)
    requires
        len >= 1,
    ensures
        shorter_weight(lines, len + 1) == 2 * (shorter_weight(lines, len) + how_many(lines, len)),
    decreases lines.len(),
{
    if lines.len() > 0 {
        lemma_weight_step(lines.drop_last(), len);
        let l = lines.last().prefix_len as nat;
        lemma2_to64();
        if 0 < l <= len {
            lemma_pow2_unfold((len + 1 - l) as nat);
        }
    }
}

proof fn lemma_weight_none(lines: Seq<Line>)
    ensures
        shorter_weight(lines, 1) == 0,
    decreases lines.len(),
{
    if lines.len() > 0 {
        lemma_weight_none(lines.drop_last());
    }
}

proof fn lemma_first_code_weighs(lines: Seq<Line>, len: nat)
    requires
        len >= 1,
    ensures
        first_code(lines, len as int) == shorter_weight(lines, len),
    decreases len,
{
    if len == 1 {
        lemma_weight_none(lines);
    } else {
        lemma_first_code_weighs(lines, (len - 1) as nat);
        lemma_weight_step(lines, (len - 1) as nat);
        lemma_members_count(lines, (len - 1) as nat);
    }
}

/// Longer prefixes stand behind all that begin with a shorter one.
proof fn lemma_longer_stand_behind(lines: Seq<Line>, len: nat, longer: nat)
    requires
        1 <= len < longer,
    ensures
        shorter_weight(lines, longer) >= pow2((longer - len) as nat) * (shorter_weight(lines, len)
            + how_many(lines, len)),
    decreases longer - len,
{
    lemma2_to64();
    if longer == len + 1 {
        lemma_weight_step(lines, len);
    } else {
        let before = (longer - 1) as nat;
        lemma_longer_stand_behind(lines, len, before);
        lemma_weight_step(lines, before);
        lemma_pow2_unfold((longer - len) as nat);
        let p = pow2((before - len) as nat);
        let x = shorter_weight(lines, len) + how_many(lines, len);
        assert((2 * p) * x == 2 * (p * x)) by (nonlinear_arith);
    }
}

proof fn lemma_bits_below(data: Seq<u8>, start: int, end: int)
    requires
        start <= end,
    ensures
        lzw::bits_value(data, start, end) < pow2((end - start) as nat),
    decreases end - start,
{
    lemma2_to64();
    if start < end {
        lemma_bits_below(data, start, end - 1);
        lemma_pow2_unfold((end - start) as nat);
        let i = end - 1;
        let byte = data[i / 8];
        let shift = (7 - i % 8) as u8;
        assert((byte >> shift) & 1 <= 1) by (bit_vector);
    }
}

proof fn lemma_prefix_matched(lines: Seq<Line>, s: BitsV, i: int, len: int)
    requires
        0 <= i < lines.len(),
        1 <= lines[i].prefix_len <= MAX_PREFIX,
        0 <= s.pos,
        s.pos + lines[i].prefix_len <= 8 * s.data.len(),
        lzw::bits_value(s.data, s.pos, s.pos + lines[i].prefix_len) == prefix_code(
            lines,
            i,
        ),
        0 <= len < lines[i].prefix_len,
    ensures
        matched(
            lines,
            BitsV { data: s.data, pos: s.pos + len },
            len,
            lzw::bits_value(s.data, s.pos, s.pos + len) as int,
        ) == Step::<int, BitsV>::Ok(
            (i, BitsV { data: s.data, pos: s.pos + lines[i].prefix_len }),
        ),
    decreases lines[i].prefix_len - len,
{
    let total = lines[i].prefix_len as int;
    let at = s.pos + len;
    let t = BitsV { data: s.data, pos: at };
    let so_far = lzw::bits_value(s.data, s.pos, at);
    let more = lzw::bits_value(s.data, s.pos, at + 1);
    let bit = lzw::bits_value(s.data, at, at + 1);
    lemma2_to64();
    lzw::bits_are_read_from_the_top(s.data, s.pos, at, at + 1);
    assert(more == 2 * so_far + bit);
    assert(bits::bits_of(t, 1) == Step::<nat, BitsV>::Ok(
        (bit, BitsV { data: s.data, pos: at + 1 }),
    ));
    let next = (len + 1) as nat;
    lemma_first_code_weighs(lines, next);
    lemma_members_count(lines, next);
    let code = prefix_code(lines, i);
    if len + 1 == total {
        lemma_member_rank(lines, i);
    } else {
        let behind = lzw::bits_value(s.data, at + 1, s.pos + total);
        let p = pow2((total - next) as nat);
        lzw::bits_are_read_from_the_top(s.data, s.pos, at + 1, s.pos + total);
        lemma_bits_below(s.data, at + 1, s.pos + total);
        lemma_longer_stand_behind(lines, next, total as nat);
        let x = shorter_weight(lines, next) + how_many(lines, next);
        assert(more >= x) by (nonlinear_arith)
            requires
                more * p + behind >= p * x,
                behind < p,
                p > 0,
        ;
        lemma_prefix_matched(lines, s, i, len + 1);
    }
}

/// Law: the prefix of a line, handed out shorter ones first and in the order of
/// the lines, is matched as that line, and no bit behind it is taken.
pub proof fn written_prefixes_are_matched(lines: Seq<Line>, s: BitsV, i: int)
    requires
        0 <= i < lines.len(),
        1 <= lines[i].prefix_len <= 32,
        0 <= s.pos,
        s.pos + lines[i].prefix_len <= 8 * s.data.len(),
        lzw::bits_value(s.data, s.pos, s.pos + lines[i].prefix_len) == prefix_code(
            lines,
            i,
        ),
    ensures
        matched(lines, s, 0, 0) == Step::<int, BitsV>::Ok(
            (i, BitsV { data: s.data, pos: s.pos + lines[i].prefix_len }),
        ),
        decoded(lines, s) == value_of(
            lines[i],
            BitsV { data: s.data, pos: s.pos + lines[i].prefix_len },
        ),
{
    lemma_prefix_matched(lines, s, i, 0);
    assert(s == (BitsV { data: s.data, pos: s.pos + 0 }));
}

/// What the ordinary lines of a table segment are: as many as were added, each
/// written as the length of its prefix and of its range, the first beginning at
/// `low` and each later one where the one before it ends.
pub open spec fn ranges_written(
    s: TableV,
    out: TableV,
    prefix_size: nat,
    range_size: nat,
    low: int,
    high: int,
) -> bool {
    let before = s.lines.len() as int;
    let width = prefix_size + range_size;
    &&& out.bits.data == s.bits.data
    &&& out.lines.len() >= before
    &&& out.bits.pos == s.bits.pos + (out.lines.len() - before) * width
    &&& forall|i: int| 0 <= i < before ==> #[trigger] out.lines[i] == s.lines[i]
    &&& forall|i: int|
        before <= i < out.lines.len() ==> range_written(
            #[trigger] out.lines[i],
            s.bits.data,
            s.bits.pos + (i - before) * width,
            prefix_size,
            range_size,
        )
    &&& low < high ==> out.lines.len() > before && out.lines[before].low == low
    &&& forall|i: int, j: int|
        before <= i && j == i + 1 && j < out.lines.len() ==> (#[trigger] out.lines[j]).low
            == line_end(#[trigger] out.lines[i])
    &&& out.lines.len() > before ==> line_end(out.lines.last()) >= high
    &&& forall|i: int|
        before <= i < out.lines.len() ==> low <= (#[trigger] out.lines[i]).low < high
}

/// Whether a line is written at a place: the length of its prefix, then that of
/// its range.
pub open spec fn range_written(
    line: Line,
    data: Seq<u8>,
    pos: int,
    prefix_size: nat,
    range_size: nat,
) -> bool {
    &&& line.prefix_len == lzw::bits_value(data, pos, pos + prefix_size)
    &&& line.kind matches LineKind::Range(len) && len == lzw::bits_value(
        data,
        pos + prefix_size,
        pos + prefix_size + range_size,
    )
}

proof fn lemma_ranges_written(
    s: TableV,
    out: TableV,
    prefix_size: nat,
    range_size: nat,
    low: int,
    high: int,
)
    requires
        1 <= prefix_size <= 8,
        1 <= range_size <= 8,
        -0x8000_0000 <= low,
        high < 0x8000_0000,
        ranges_from(s, prefix_size, range_size, low, high) == Lines::Ok(out),
    ensures
        ranges_written(s, out, prefix_size, range_size, low, high),
    decreases
            if low < high {
                high - low
            } else {
                0
            },
{
    let before = s.lines.len() as int;
    let width = prefix_size + range_size;
    if low >= high {
        assert(0 * width == 0) by (nonlinear_arith);
    } else {
        let pos = s.bits.pos;
        let prefix_len = lzw::bits_value(s.bits.data, pos, pos + prefix_size);
        let range_len = lzw::bits_value(s.bits.data, pos + prefix_size, pos + width);
        lemma_bits_below(s.bits.data, pos, pos + prefix_size);
        lemma2_to64();
        if prefix_size < 8 {
            lemma_pow2_strictly_increases(prefix_size, 8);
        }
        lemma_pow2_pos(range_len);
        let line = Line {
            prefix_len: prefix_len as u8,
            kind: LineKind::Range(range_len as u8),
            low: low as i32,
        };
        let next = TableV {
            bits: BitsV { data: s.bits.data, pos: pos + width },
            left: (s.left - 1) as nat,
            lines: s.lines.push(line),
        };
        assert(pos + prefix_size + range_size == pos + width);
        assert(ranges_from(next, prefix_size, range_size, low + pow2(range_len), high)
            == Lines::Ok(out));
        lemma_ranges_written(next, out, prefix_size, range_size, low + pow2(range_len), high);
        let n = out.lines.len() - before;
        assert((n - 1) * width + width == n * width) by (nonlinear_arith);
        assert(out.lines[before] == next.lines[before]);
        assert(line_end(line) == low + pow2(range_len));
        assert forall|i: int| before <= i < out.lines.len() implies range_written(
            #[trigger] out.lines[i],
            s.bits.data,
            s.bits.pos + (i - before) * width,
            prefix_size,
            range_size,
        ) by {
            if i == before {
                assert((i - before) * width == 0) by (nonlinear_arith)
                    requires
                        i == before,
                ;
            } else {
                assert((i - before - 1) * width + width == (i - before) * width)
                    by (nonlinear_arith);
            }
        }
        assert forall|i: int, j: int|
            before <= i && j == i + 1 && j < out.lines.len() implies (#[trigger] out.lines[j]).low
            == line_end(#[trigger] out.lines[i]) by {
            if i == before {
                assert(low + pow2(range_len) < high) by {
                    if low + pow2(range_len) >= high {
                        assert(out == next);
                    }
                }
                assert(out.lines[before + 1].low == low + pow2(range_len));
            }
        }
        if out.lines.len() == before + 1 {
            assert(out.lines.last() == line);
            if low + pow2(range_len) < high {
                assert(false);
            }
        }
    }
}

/// The flags of a table segment, taken apart.
proof fn lemma_segment_flags(prefix_size: nat, range_size: nat, marked: bool, flags: u8)
    requires
        1 <= prefix_size <= 8,
        1 <= range_size <= 8,
        flags == (if marked {
            1int
        } else {
            0
        }) + 2 * (prefix_size - 1) + 16 * (range_size - 1),
    ensures
        flags / 2 % 8 + 1 == prefix_size,
        flags / 16 % 8 + 1 == range_size,
        (flags % 2 == 1) == marked,
{
}

/// What an open line adds.
proof fn lemma_open_line(s: TableV, prefix_size: nat, kind: LineKind, low: int)
    ensures
        open_line(s, prefix_size, kind, low) matches Ok(t) ==> {
            let pos = s.bits.pos;
            &&& t.bits.data == s.bits.data
            &&& t.bits.pos == pos + prefix_size
            &&& t.lines.len() == s.lines.len() + 1
            &&& forall|i: int| 0 <= i < s.lines.len() ==> #[trigger] t.lines[i] == s.lines[i]
            &&& t.lines[s.lines.len() as int] == (Line {
                prefix_len: lzw::bits_value(s.bits.data, pos, pos + prefix_size) as u8,
                kind,
                low: low as i32,
            })
        },
{
}

/// The steps in which the lines of a table segment are read.
proof fn lemma_segment_steps(
    bits: BitsV,
    left: nat,
    flags: u8,
    low: int,
    high: int,
    out: TableV,
)
    requires
        segment_lines(bits, left, flags, low, high) == Lines::Ok(out),
    ensures
        ({
            let prefix_size = (flags / 2 % 8 + 1) as nat;
            let range_size = (flags / 16 % 8 + 1) as nat;
            let start = TableV { bits, left, lines: Seq::empty() };
            let ranges = ranges_from(start, prefix_size, range_size, low, high);
            let below = open_line(ranges->Ok_0, prefix_size, LineKind::Lower, low - 1);
            let above = open_line(below->Ok_0, prefix_size, LineKind::Upper, high);
            &&& ranges is Ok
            &&& below is Ok
            &&& above is Ok
            &&& flags % 2 == 1 ==> open_line(above->Ok_0, prefix_size, LineKind::OutOfBand, 0)
                == Lines::Ok(out)
            &&& flags % 2 != 1 ==> above == Lines::Ok(out)
        }),
{
}

/// Lines stay where they are as others are added.
proof fn lemma_lines_kept(a: Seq<Line>, b: Seq<Line>, c: Seq<Line>, d: Seq<Line>)
    requires
        a.len() <= b.len() <= c.len() <= d.len(),
        forall|i: int| 0 <= i < a.len() ==> #[trigger] b[i] == a[i],
        forall|i: int| 0 <= i < b.len() ==> #[trigger] c[i] == b[i],
        forall|i: int| 0 <= i < c.len() ==> #[trigger] d[i] == c[i],
    ensures
        forall|i: int| 0 <= i < a.len() ==> #[trigger] d[i] == a[i],
        forall|i: int| 0 <= i < b.len() ==> #[trigger] d[i] == b[i],
{
}

/// Law: what the lines of a table segment are. Its flags say whether the mark is
/// coded, and with how many bits the lengths are written; the ordinary lines tile
/// the integers from the lowest one on, the line below stands right under them,
/// the line above begins at the highest one, and the mark, if any, comes last.
pub proof fn table_segments_say_their_lines(
    bits: BitsV,
    left: nat,
    prefix_size: nat,
    range_size: nat,
    marked: bool,
    low: int,
    high: int,
    out: TableV,
)
    requires
        1 <= prefix_size <= 8,
        1 <= range_size <= 8,
        -0x8000_0000 < low,
        low <= high < 0x8000_0000,
        segment_lines(
            bits,
            left,
            ((if marked {
                1int
            } else {
                0
            }) + 2 * (prefix_size - 1) + 16 * (range_size - 1)) as u8,
            low,
            high,
        ) == Lines::Ok(out),
    ensures
        ({
            let n = out.lines.len() - (if marked {
                3int
            } else {
                2
            });
            let end = bits.pos + n * (prefix_size + range_size);
            &&& n >= 0
            &&& n == 0 <==> low == high
            &&& n > 0 ==> out.lines[0].low == low
            &&& forall|i: int|
                0 <= i < n ==> range_written(
                    #[trigger] out.lines[i],
                    bits.data,
                    bits.pos + i * (prefix_size + range_size),
                    prefix_size,
                    range_size,
                )
            &&& forall|i: int, j: int|
                0 <= i && j == i + 1 && j < n ==> (#[trigger] out.lines[j]).low == line_end(
                    #[trigger] out.lines[i],
                )
            &&& n > 0 ==> out.lines[n - 1].low < high <= line_end(out.lines[n - 1])
            &&& out.lines[n] == (Line {
                prefix_len: lzw::bits_value(bits.data, end, end + prefix_size) as u8,
                kind: LineKind::Lower,
                low: (low - 1) as i32,
            })
            &&& out.lines[n + 1] == (Line {
                prefix_len: lzw::bits_value(
                    bits.data,
                    end + prefix_size,
                    end + 2 * prefix_size,
                ) as u8,
                kind: LineKind::Upper,
                low: high as i32,
            })
            &&& marked ==> out.lines[n + 2] == (Line {
                prefix_len: lzw::bits_value(
                    bits.data,
                    end + 2 * prefix_size,
                    end + 3 * prefix_size,
                ) as u8,
                kind: LineKind::OutOfBand,
                low: 0,
            })
        }),
{
    let flags = ((if marked {
        1int
    } else {
        0
    }) + 2 * (prefix_size - 1) + 16 * (range_size - 1)) as u8;
    lemma_segment_flags(prefix_size, range_size, marked, flags);
    let start = TableV { bits, left, lines: Seq::empty() };
    let s = ranges_from(start, prefix_size, range_size, low, high)->Ok_0;
    let below = open_line(s, prefix_size, LineKind::Lower, low - 1)->Ok_0;
    let above = open_line(below, prefix_size, LineKind::Upper, high)->Ok_0;
    lemma_segment_steps(bits, left, flags, low, high, out);
    lemma_ranges_written(start, s, prefix_size, range_size, low, high);
    lemma_open_line(s, prefix_size, LineKind::Lower, low - 1);
    lemma_open_line(below, prefix_size, LineKind::Upper, high);
    lemma_open_line(above, prefix_size, LineKind::OutOfBand, 0);
    if low == high {
        assert(s == start);
    }
    let n = s.lines.len() as int;
    assert(s.bits.pos == bits.pos + n * (prefix_size + range_size));
    lemma_lines_kept(s.lines, below.lines, above.lines, out.lines);
    assert(n > 0 ==> s.lines.last() == s.lines[n - 1]);
}

/// Law: a table segment begins with its flags and the lowest and highest integer,
/// as signed numbers; the lines follow.
pub proof fn table_segments_say_their_range(
    flags: u8,
    low: u32,
    high: u32,
    rest: Seq<u8>,
    left: nat,
)
    ensures
        signed_long(low) == (if low < 0x8000_0000 {
            low as int
        } else {
            low - 0x1_0000_0000
        }),
        ({
            let data = seq![flags] + (reader::long_bytes(low) + (reader::long_bytes(high) + rest));
            let lines = segment_lines(
                BitsV { data: rest, pos: 0 },
                left,
                flags,
                signed_long(low),
                signed_long(high),
            );
            let out = segment_table(data, left);
            &&& low == 0x8000_0000 ==> out is Err
            &&& low != 0x8000_0000 && lines is Err ==> out is Err
            &&& low != 0x8000_0000 ==> (lines matches Ok(s) ==> match table_of(s.lines) {
                Ok(table) => out == Step::<Seq<Line>, nat>::Ok((table, s.left)),
                Err(e) => out == Step::<Seq<Line>, nat>::Err((e, s.left)),
            })
        }),
{
    let tail = reader::long_bytes(high) + rest;
    let body = reader::long_bytes(low) + tail;
    let data = seq![flags] + body;
    assert(data[0] == flags);
    assert(data.skip(1) =~= body);
    reader::numbers_read_back(low, 0, tail);
    reader::numbers_read_back(high, 0, rest);
}

/// Law: symbol codes are one line a symbol, with the prefix as long as said and
/// the symbol's own number as its value.
pub proof fn lengths_are_given_in_order(lengths: Seq<u8>, i: int, s: BitsV)
    requires
        0 <= i < lengths.len() <= 0x7fff_ffff,
        0 <= s.pos <= 8 * s.data.len(),
    ensures
        length_lines(lengths).len() == lengths.len(),
        length_lines(lengths)[i].prefix_len == lengths[i],
        value_of(length_lines(lengths)[i], s) == Step::<Option<i32>, BitsV>::Ok((Some(i as i32), s)),
        length_table(lengths, Unused::Permitted) == table_of(length_lines(lengths)),
        lengths[i] != 0 ==> length_table(lengths, Unused::Refused) == table_of(
            length_lines(lengths),
        ),
        (forall|j: int| 0 <= j < lengths.len() ==> #[trigger] lengths[j] == 0) ==> length_table(
            lengths,
            Unused::Refused,
        ) is Err,
{
    lines_count_from_their_first_value(length_lines(lengths)[i], s, 0, 0);
}

} // verus!
