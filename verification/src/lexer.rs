//! Byte-level tokenizer for PDF syntax.
//!
//! Rules: whitespace is NUL/HT/LF/FF/CR/SP; delimiters are `( ) < > [ ] { }
//! / %`; comments run from `%` to end of line; numbers may lead with `+ - .`
//! (lenient); names decode `#xx` (bad hex kept literal); literal strings
//! balance nested unescaped parentheses and support the standard escapes,
//! 1-3 digit octal, backslash-EOL continuation, and raw EOL normalized to
//! `\n`; hex strings ignore whitespace and pad an odd digit count with `0`;
//! every other regular-character run is a [`Token::Keyword`].

use crate::error::Result;
use crate::number;
use crate::number::Real;
use crate::object::Name;
use crate::text;
use vstd::prelude::*;
use vstd::slice::slice_subrange;

verus! {

/// A single token produced by the [`Lexer`].
#[derive(Debug, Clone, PartialEq)]
pub enum Token {
    Int(i64),
    Real(Real),
    Name(Name),
    /// Literal string `(...)`, escapes already processed.
    LitString(Vec<u8>),
    /// Hex string `<...>`, decoded to bytes.
    HexString(Vec<u8>),
    ArrayOpen,
    ArrayClose,
    DictOpen,
    DictClose,
    /// Any bare regular-character run, e.g. `obj`, `endobj`, `stream`,
    /// `endstream`, `R`, `xref`, `trailer`, `startxref`, `true`, `false`,
    /// `null`, `n`, `f`.
    Keyword(Vec<u8>),
    Eof,
}

/// What a token is, apart from how it is stored.
#[verifier::ext_equal]
pub enum TokenV {
    Int(i64),
    Real(Real),
    Name(Seq<char>),
    LitString(Seq<u8>),
    HexString(Seq<u8>),
    ArrayOpen,
    ArrayClose,
    DictOpen,
    DictClose,
    Keyword(Seq<u8>),
    Eof,
}

impl View for Token {
    type V = TokenV;

    open spec fn view(&self) -> TokenV {
        match *self {
            Token::Int(i) => TokenV::Int(i),
            Token::Real(r) => TokenV::Real(r),
            Token::Name(n) => TokenV::Name(n@),
            Token::LitString(s) => TokenV::LitString(s@),
            Token::HexString(s) => TokenV::HexString(s@),
            Token::ArrayOpen => TokenV::ArrayOpen,
            Token::ArrayClose => TokenV::ArrayClose,
            Token::DictOpen => TokenV::DictOpen,
            Token::DictClose => TokenV::DictClose,
            Token::Keyword(k) => TokenV::Keyword(k@),
            Token::Eof => TokenV::Eof,
        }
    }
}

/// Null.
pub const NUL: u8 = 0;

/// Horizontal tab.
pub const TAB: u8 = 9;

/// Line feed.
pub const LF: u8 = 10;

/// Form feed.
pub const FF: u8 = 12;

/// Carriage return.
pub const CR: u8 = 13;

/// Space.
pub const SPACE: u8 = 32;

/// `#`.
pub const HASH: u8 = 35;

/// `%`.
pub const PERCENT: u8 = 37;

/// `(`.
pub const OPEN_PAREN: u8 = 40;

/// `)`.
pub const CLOSE_PAREN: u8 = 41;

/// `+`.
pub const PLUS: u8 = 43;

/// `-`.
pub const MINUS: u8 = 45;

/// `.`.
pub const POINT: u8 = 46;

/// `/`.
pub const SOLIDUS: u8 = 47;

/// `0`.
pub const ZERO: u8 = 48;

/// `7`.
pub const SEVEN: u8 = 55;

/// `9`.
pub const NINE: u8 = 57;

/// `<`.
pub const LESS: u8 = 60;

/// `>`.
pub const GREATER: u8 = 62;

/// `[`.
pub const OPEN_BRACKET: u8 = 91;

/// The backslash.
pub const BACKSLASH: u8 = 92;

/// `]`.
pub const CLOSE_BRACKET: u8 = 93;

/// `{`.
pub const OPEN_BRACE: u8 = 123;

/// `}`.
pub const CLOSE_BRACE: u8 = 125;

/// The six whitespace bytes.
pub open spec fn whitespace(b: u8) -> bool {
    b == NUL || b == TAB || b == LF || b == FF || b == CR || b == SPACE
}

/// The ten delimiter bytes.
pub open spec fn delimiter(b: u8) -> bool {
    b == OPEN_PAREN || b == CLOSE_PAREN || b == LESS || b == GREATER || b == OPEN_BRACKET || b
        == CLOSE_BRACKET || b == OPEN_BRACE || b == CLOSE_BRACE || b == SOLIDUS || b == PERCENT
}

/// Neither whitespace nor a delimiter.
pub open spec fn regular(b: u8) -> bool {
    !whitespace(b) && !delimiter(b)
}

/// The value of an ASCII hex digit.
pub open spec fn hex_digit(b: u8) -> Option<u8> {
    if ZERO <= b <= NINE {
        Some((b - ZERO) as u8)
    } else if 97 <= b <= 102 {
        Some((b - 87) as u8)
    } else if 65 <= b <= 70 {
        Some((b - 55) as u8)
    } else {
        None
    }
}

/// Whether `b` is PDF whitespace.
pub fn is_whitespace(b: u8) -> (out: bool)
    ensures
        out == whitespace(b),
{
    b == NUL || b == TAB || b == LF || b == FF || b == CR || b == SPACE
}

/// Whether `b` is a PDF delimiter character.
pub fn is_delimiter(b: u8) -> (out: bool)
    ensures
        out == delimiter(b),
{
    b == OPEN_PAREN || b == CLOSE_PAREN || b == LESS || b == GREATER || b == OPEN_BRACKET || b
        == CLOSE_BRACKET || b == OPEN_BRACE || b == CLOSE_BRACE || b == SOLIDUS || b == PERCENT
}

/// Whether `b` is a regular character (neither whitespace nor delimiter).
pub fn is_regular(b: u8) -> (out: bool)
    ensures
        out == regular(b),
{
    !is_whitespace(b) && !is_delimiter(b)
}

/// Every byte is of exactly one class.
pub proof fn classes_are_told_apart(b: u8)
    ensures
        whitespace(b) ==> !delimiter(b) && !regular(b),
        delimiter(b) ==> !whitespace(b) && !regular(b),
        whitespace(b) || delimiter(b) || regular(b),
{
}

/// Value of an ASCII hex digit, if `b` is one.
pub fn hex_val(b: u8) -> (out: Option<u8>)
    ensures
        out == hex_digit(b),
{
    match b {
        48..=57 => Some(b - 48),
        97..=102 => Some(b - 97 + 10),
        65..=70 => Some(b - 65 + 10),
        _ => None,
    }
}

/// The first position from `pos` on that holds no whitespace and no comment.
pub open spec fn after_blanks(data: Seq<u8>, pos: int) -> int
    decreases data.len() - pos,
{
    if !(0 <= pos < data.len()) {
        pos
    } else if whitespace(data[pos]) {
        after_blanks(data, pos + 1)
    } else if data[pos] == PERCENT {
        let eol = line_end(data, pos + 1);
        if pos < eol <= data.len() {
            after_blanks(data, eol)
        } else {
            pos
        }
    } else {
        pos
    }
}

/// The first position from `pos` on that holds an end-of-line byte.
pub open spec fn line_end(data: Seq<u8>, pos: int) -> int
    decreases data.len() - pos,
{
    if !(0 <= pos < data.len()) || data[pos] == CR || data[pos] == LF {
        pos
    } else {
        line_end(data, pos + 1)
    }
}

/// The first position from `pos` on that holds no regular character.
pub open spec fn run_end(data: Seq<u8>, pos: int) -> int
    decreases data.len() - pos,
{
    if 0 <= pos < data.len() && regular(data[pos]) {
        run_end(data, pos + 1)
    } else {
        pos
    }
}

/// The run of regular characters at `pos`.
pub open spec fn run_at(data: Seq<u8>, pos: int) -> Seq<u8> {
    data.subrange(pos, run_end(data, pos))
}

/// Bytes a number is written with.
pub open spec fn numeric(b: u8) -> bool {
    ZERO <= b <= NINE || b == PLUS || b == MINUS || b == POINT
}

/// Whether every byte of a run is numeric.
pub open spec fn all_numeric(run: Seq<u8>) -> bool {
    forall|i: int| 0 <= i < run.len() ==> numeric(#[trigger] run[i])
}

/// A run without its leading sign.
pub open spec fn unsigned_part(run: Seq<u8>) -> Seq<u8> {
    if run.len() > 0 && (run[0] == PLUS || run[0] == MINUS) {
        run.skip(1)
    } else {
        run
    }
}

/// The digits of a run, everything else left out.
pub open spec fn digits_of(run: Seq<u8>) -> Seq<u8>
    decreases run.len(),
{
    if run.len() == 0 {
        Seq::empty()
    } else if ZERO <= run.last() <= NINE {
        digits_of(run.drop_last()).push(run.last())
    } else {
        digits_of(run.drop_last())
    }
}

/// Whether a run holds a point.
pub open spec fn has_point(run: Seq<u8>) -> bool {
    run.contains(POINT)
}

/// How many digits of a run stand behind its first point.
pub open spec fn places_of(run: Seq<u8>) -> nat
    decreases run.len(),
{
    if run.len() == 0 {
        0
    } else if ZERO <= run.last() <= NINE && has_point(run.drop_last()) {
        places_of(run.drop_last()) + 1
    } else {
        places_of(run.drop_last())
    }
}

/// Whether a run holds a sign.
pub open spec fn has_sign(run: Seq<u8>) -> bool {
    run.contains(PLUS) || run.contains(MINUS)
}

/// The real number with these digits, sign and decimal places.
pub open spec fn real_number(negative: bool, digits: Seq<u8>, places: nat) -> TokenV {
    TokenV::Real(
        Real {
            bits: number::signed_bits(
                negative,
                number::decimal_value(digits),
                number::pow10(places),
            ) as u64,
        },
    )
}

/// The number that a numeric run writes. The first byte may be a sign; signs
/// further on and points after the first are passed over. With a point it is
/// a real number, without one an integer, zero if there is no digit; an
/// integer that needs more than 64 bits is a real number too, and so is the
/// least 64-bit integer if the run holds a sign too many.
pub open spec fn number_token(run: Seq<u8>) -> TokenV {
    let negative = run.len() > 0 && run[0] == MINUS;
    let body = unsigned_part(run);
    let digits = digits_of(body);
    let value = number::decimal_value(digits);
    if has_point(body) {
        real_number(negative, digits, places_of(body))
    } else if value <= i64::MAX {
        TokenV::Int(
            (if negative {
                -value
            } else {
                value as int
            }) as i64,
        )
    } else if negative && value == 0x8000_0000_0000_0000 && !has_sign(body) {
        TokenV::Int(i64::MIN)
    } else {
        real_number(negative, digits, 0)
    }
}

/// The token of a run that starts like a number.
pub open spec fn number_or_keyword(run: Seq<u8>) -> TokenV {
    if all_numeric(run) {
        number_token(run)
    } else {
        TokenV::Keyword(run)
    }
}

/// The bytes of a name: two hex digits behind `#` stand for one byte, any
/// other `#` for itself.
pub open spec fn name_bytes(run: Seq<u8>) -> Seq<u8>
    decreases run.len(),
{
    if run.len() == 0 {
        Seq::empty()
    } else if run[0] == HASH && run.len() >= 3 && hex_digit(run[1]) is Some && hex_digit(
        run[2],
    ) is Some {
        seq![(hex_digit(run[1])->0 * 16 + hex_digit(run[2])->0) as u8] + name_bytes(run.skip(3))
    } else {
        seq![run[0]] + name_bytes(run.skip(1))
    }
}

/// What the escape sequence whose second byte stands at `pos` puts into a
/// literal string.
pub open spec fn escape_bytes(data: Seq<u8>, pos: int) -> Seq<u8> {
    let esc = data[pos];
    if esc == 110 {
        seq![LF]
    } else if esc == 114 {
        seq![13u8]
    } else if esc == 116 {
        seq![9u8]
    } else if esc == 98 {
        seq![8u8]
    } else if esc == 102 {
        seq![12u8]
    } else if octal_at(data, pos) {
        seq![(octal_value(data, pos, escape_end(data, pos)) % 256) as u8]
    } else if esc == CR || esc == LF {
        Seq::empty()
    } else {
        seq![esc]
    }
}

/// Whether an octal digit stands at `pos`.
pub open spec fn octal_at(data: Seq<u8>, pos: int) -> bool {
    0 <= pos < data.len() && ZERO <= data[pos] <= SEVEN
}

/// The number that the octal digits from `start` to `end` write.
pub open spec fn octal_value(data: Seq<u8>, start: int, end: int) -> int
    decreases end - start,
{
    if end <= start {
        0
    } else {
        octal_value(data, start, end - 1) * 8 + (data[end - 1] - ZERO)
    }
}

/// Where the escape sequence whose second byte stands at `pos` ends: up to
/// three octal digits, CR with a following LF, or the one byte.
pub open spec fn escape_end(data: Seq<u8>, pos: int) -> int {
    if octal_at(data, pos) {
        if octal_at(data, pos + 1) {
            if octal_at(data, pos + 2) {
                pos + 3
            } else {
                pos + 2
            }
        } else {
            pos + 1
        }
    } else {
        after_cr(data, pos)
    }
}

/// The position behind the byte at `pos`, or behind a CR LF pair there.
pub open spec fn after_cr(data: Seq<u8>, pos: int) -> int {
    if data[pos] == CR && pos + 1 < data.len() && data[pos + 1] == LF {
        pos + 2
    } else {
        pos + 1
    }
}

/// The bytes of a literal string from `pos` on, with `depth` parentheses
/// open.
pub open spec fn literal_bytes(data: Seq<u8>, pos: int, depth: int) -> Seq<u8>
    decreases data.len() - pos,
{
    if !(0 <= pos < data.len()) {
        Seq::empty()
    } else if data[pos] == BACKSLASH {
        if pos + 1 < data.len() {
            escape_bytes(data, pos + 1) + literal_bytes(data, escape_end(data, pos + 1), depth)
        } else {
            Seq::empty()
        }
    } else if data[pos] == OPEN_PAREN {
        seq![OPEN_PAREN] + literal_bytes(data, pos + 1, depth + 1)
    } else if data[pos] == CLOSE_PAREN {
        if depth <= 1 {
            Seq::empty()
        } else {
            seq![CLOSE_PAREN] + literal_bytes(data, pos + 1, depth - 1)
        }
    } else if data[pos] == CR {
        seq![LF] + literal_bytes(data, after_cr(data, pos), depth)
    } else {
        seq![data[pos]] + literal_bytes(data, pos + 1, depth)
    }
}

/// Where a literal string ends: behind the parenthesis that closes it, or at
/// the end of the data.
pub open spec fn literal_end(data: Seq<u8>, pos: int, depth: int) -> int
    decreases data.len() - pos,
{
    if !(0 <= pos < data.len()) {
        pos
    } else if data[pos] == BACKSLASH {
        if pos + 1 < data.len() {
            literal_end(data, escape_end(data, pos + 1), depth)
        } else {
            pos + 1
        }
    } else if data[pos] == OPEN_PAREN {
        literal_end(data, pos + 1, depth + 1)
    } else if data[pos] == CLOSE_PAREN {
        if depth <= 1 {
            pos + 1
        } else {
            literal_end(data, pos + 1, depth - 1)
        }
    } else if data[pos] == CR {
        literal_end(data, after_cr(data, pos), depth)
    } else {
        literal_end(data, pos + 1, depth)
    }
}

/// The position of the first `>` from `pos` on, or the end of the data.
pub open spec fn hex_close(data: Seq<u8>, pos: int) -> int
    decreases data.len() - pos,
{
    if 0 <= pos < data.len() && data[pos] != GREATER {
        hex_close(data, pos + 1)
    } else {
        pos
    }
}

/// The values of the hex digits of bytes, everything else left out.
pub open spec fn hex_digits(bytes: Seq<u8>) -> Seq<u8>
    decreases bytes.len(),
{
    if bytes.len() == 0 {
        Seq::empty()
    } else {
        match hex_digit(bytes.last()) {
            Some(v) => hex_digits(bytes.drop_last()).push(v),
            None => hex_digits(bytes.drop_last()),
        }
    }
}

/// Hex digits taken two to a byte, a missing last one as zero.
pub open spec fn paired(digits: Seq<u8>) -> Seq<u8> {
    Seq::new(
        (digits.len() + 1) / 2,
        |i: int|
            (digits[2 * i] * 16 + (if 2 * i + 1 < digits.len() {
                digits[2 * i + 1]
            } else {
                0
            })) as u8,
    )
}

/// The token that starts at `pos`, where no blank stands.
pub open spec fn token_from(data: Seq<u8>, pos: int) -> TokenV {
    if !(0 <= pos < data.len()) {
        TokenV::Eof
    } else {
        let b = data[pos];
        if b == OPEN_BRACKET {
            TokenV::ArrayOpen
        } else if b == CLOSE_BRACKET {
            TokenV::ArrayClose
        } else if b == LESS {
            if pos + 1 < data.len() && data[pos + 1] == LESS {
                TokenV::DictOpen
            } else {
                TokenV::HexString(
                    paired(hex_digits(data.subrange(pos + 1, hex_close(data, pos + 1)))),
                )
            }
        } else if b == GREATER {
            if pos + 1 < data.len() && data[pos + 1] == GREATER {
                TokenV::DictClose
            } else {
                TokenV::Keyword(seq![b])
            }
        } else if b == OPEN_PAREN {
            TokenV::LitString(literal_bytes(data, pos + 1, 1))
        } else if b == SOLIDUS {
            TokenV::Name(text::utf8_lossy(name_bytes(run_at(data, pos + 1))))
        } else if b == CLOSE_PAREN || b == OPEN_BRACE || b == CLOSE_BRACE {
            TokenV::Keyword(seq![b])
        } else if numeric(b) {
            number_or_keyword(run_at(data, pos))
        } else {
            TokenV::Keyword(run_at(data, pos))
        }
    }
}

/// Where the token that starts at `pos` ends.
pub open spec fn token_stop(data: Seq<u8>, pos: int) -> int {
    if !(0 <= pos < data.len()) {
        pos
    } else {
        let b = data[pos];
        if b == LESS {
            if pos + 1 < data.len() && data[pos + 1] == LESS {
                pos + 2
            } else {
                let close = hex_close(data, pos + 1);
                if close < data.len() {
                    close + 1
                } else {
                    close
                }
            }
        } else if b == GREATER {
            if pos + 1 < data.len() && data[pos + 1] == GREATER {
                pos + 2
            } else {
                pos + 1
            }
        } else if b == OPEN_PAREN {
            literal_end(data, pos + 1, 1)
        } else if b == SOLIDUS {
            run_end(data, pos + 1)
        } else if delimiter(b) {
            pos + 1
        } else {
            run_end(data, pos)
        }
    }
}

/// The next token from `pos` on.
pub open spec fn token_at(data: Seq<u8>, pos: int) -> TokenV {
    token_from(data, after_blanks(data, pos))
}

/// The position behind the next token from `pos` on.
pub open spec fn token_end(data: Seq<u8>, pos: int) -> int {
    token_stop(data, after_blanks(data, pos))
}

/// Blanks end no earlier than they start, and inside the data if they start
/// there.
pub proof fn lemma_blanks(data: Seq<u8>, pos: int)
    requires
        0 <= pos,
    ensures
        pos <= after_blanks(data, pos),
        pos <= data.len() ==> after_blanks(data, pos) <= data.len(),
    decreases data.len() - pos,
{
    if pos < data.len() {
        if whitespace(data[pos]) {
            lemma_blanks(data, pos + 1);
        } else if data[pos] == PERCENT {
            lemma_line_end(data, pos + 1);
            lemma_blanks(data, line_end(data, pos + 1));
        }
    }
}

proof fn lemma_line_end(data: Seq<u8>, pos: int)
    requires
        0 <= pos <= data.len(),
    ensures
        pos <= line_end(data, pos) <= data.len(),
    decreases data.len() - pos,
{
    if pos < data.len() && data[pos] != CR && data[pos] != LF {
        lemma_line_end(data, pos + 1);
    }
}

proof fn lemma_run_end(data: Seq<u8>, pos: int)
    requires
        0 <= pos <= data.len(),
    ensures
        pos <= run_end(data, pos) <= data.len(),
    decreases data.len() - pos,
{
    if pos < data.len() && regular(data[pos]) {
        lemma_run_end(data, pos + 1);
    }
}

proof fn lemma_hex_close(data: Seq<u8>, pos: int)
    requires
        0 <= pos <= data.len(),
    ensures
        pos <= hex_close(data, pos) <= data.len(),
    decreases data.len() - pos,
{
    if pos < data.len() && data[pos] != GREATER {
        lemma_hex_close(data, pos + 1);
    }
}

proof fn lemma_literal_end(data: Seq<u8>, pos: int, depth: int)
    requires
        0 <= pos <= data.len(),
    ensures
        pos <= literal_end(data, pos, depth) <= data.len(),
    decreases data.len() - pos,
{
    if pos < data.len() {
        if data[pos] == BACKSLASH {
            if pos + 1 < data.len() {
                lemma_literal_end(data, escape_end(data, pos + 1), depth);
            }
        } else if data[pos] == OPEN_PAREN {
            lemma_literal_end(data, pos + 1, depth + 1);
        } else if data[pos] == CLOSE_PAREN {
            if depth > 1 {
                lemma_literal_end(data, pos + 1, depth - 1);
            }
        } else if data[pos] == CR {
            lemma_literal_end(data, after_cr(data, pos), depth);
        } else {
            lemma_literal_end(data, pos + 1, depth);
        }
    }
}

/// Reading tokens comes to an end: a token ends no earlier than it starts, and
/// inside the data, and unless it is the end of the input it takes at least
/// one byte.
pub proof fn tokens_make_progress(data: Seq<u8>, pos: int)
    requires
        0 <= pos <= data.len(),
    ensures
        pos <= token_end(data, pos) <= data.len(),
        token_at(data, pos) != TokenV::Eof ==> pos < token_end(data, pos),
        token_at(data, pos) == TokenV::Eof ==> token_end(data, pos) == data.len(),
{
    lemma_blanks(data, pos);
    let p = after_blanks(data, pos);
    if p < data.len() {
        lemma_hex_close(data, p + 1);
        lemma_literal_end(data, p + 1, 1);
        lemma_run_end(data, p + 1);
        lemma_run_end(data, p);
        lemma_not_blank(data, pos);
    }
}

/// Behind the blanks stands no blank.
proof fn lemma_not_blank(data: Seq<u8>, pos: int)
    requires
        0 <= pos <= data.len(),
    ensures
        after_blanks(data, pos) < data.len() ==> !whitespace(data[after_blanks(data, pos)])
            && data[after_blanks(data, pos)] != PERCENT,
    decreases data.len() - pos,
{
    if pos < data.len() {
        if whitespace(data[pos]) {
            lemma_not_blank(data, pos + 1);
        } else if data[pos] == PERCENT {
            lemma_line_end(data, pos + 1);
            lemma_not_blank(data, line_end(data, pos + 1));
        }
    }
}

/// Largest mantissa the short path for real numbers accepts: at most 15
/// significant digits.
pub const MAX_EXACT_MANTISSA: u64 = 1_000_000_000_000_000;

/// One more than the largest number of decimal places the short path for
/// real numbers accepts.
pub const MAX_EXACT_PLACES: usize = 23;

/// Whether a run is an optional sign followed by digits, at least one, and at
/// most one point.
pub open spec fn well_formed(run: Seq<u8>) -> bool {
    let body = unsigned_part(run);
    &&& digits_of(body).len() > 0
    &&& forall|i: int|
        0 <= i < body.len() ==> (ZERO <= #[trigger] body[i] <= NINE || (body[i] == POINT
            && !has_point(body.take(i))))
}

/// Whether the number of a well-formed run is small enough for the short
/// path: an integer of 64 bits, or a real number of few digits and places.
pub open spec fn is_short(run: Seq<u8>) -> bool {
    let body = unsigned_part(run);
    let value = number::decimal_value(digits_of(body));
    if has_point(body) {
        value < MAX_EXACT_MANTISSA && places_of(body) < MAX_EXACT_PLACES
    } else {
        value <= i64::MAX || (run[0] == MINUS && value == 0x8000_0000_0000_0000)
    }
}

proof fn lemma_digits_step(body: Seq<u8>, i: int)
    requires
        0 <= i < body.len(),
    ensures
        digits_of(body.take(i + 1)) == (if ZERO <= body[i] <= NINE {
            digits_of(body.take(i)).push(body[i])
        } else {
            digits_of(body.take(i))
        }),
        has_point(body.take(i + 1)) == (has_point(body.take(i)) || body[i] == POINT),
        places_of(body.take(i + 1)) == (if ZERO <= body[i] <= NINE && has_point(body.take(i)) {
            places_of(body.take(i)) + 1
        } else {
            places_of(body.take(i))
        }),
        places_of(body.take(i)) <= i,
        digits_of(body.take(i)).len() <= i,
        number::all_digits(digits_of(body.take(i))),
{
    let next = body.take(i + 1);
    assert(next.drop_last() =~= body.take(i));
    assert(next.last() == body[i]);
    assert(next[i] == body[i]);
    if body.take(i).contains(POINT) {
        let j = body.take(i).index_of(POINT);
        assert(next[j] == POINT);
    }
    if next.contains(POINT) && body[i] != POINT {
        let j = next.index_of(POINT);
        assert(body.take(i)[j] == POINT);
    }
    lemma_counts(body.take(i));
}

proof fn lemma_counts(run: Seq<u8>)
    ensures
        places_of(run) <= digits_of(run).len() <= run.len(),
        number::all_digits(digits_of(run)),
        !has_point(run) ==> places_of(run) == 0,
    decreases run.len(),
{
    if run.len() > 0 {
        lemma_counts(run.drop_last());
        if run.drop_last().contains(POINT) {
            let j = run.drop_last().index_of(POINT);
            assert(run[j] == POINT);
        }
    }
}

/// More digits write no smaller a number.
proof fn lemma_value_grows(body: Seq<u8>, i: int)
    requires
        0 <= i <= body.len(),
    ensures
        number::decimal_value(digits_of(body.take(i))) <= number::decimal_value(digits_of(body)),
    decreases body.len() - i,
{
    if i == body.len() {
        assert(body.take(i) =~= body);
    } else {
        lemma_digits_step(body, i);
        lemma_value_grows(body, i + 1);
        let d = digits_of(body.take(i));
        if ZERO <= body[i] <= NINE {
            assert(d.push(body[i]).drop_last() =~= d);
        }
    }
}

/// A byte that is neither a digit nor the first point makes a run ill-formed.
proof fn lemma_ill_formed(run: Seq<u8>, i: int)
    requires
        0 <= i < unsigned_part(run).len(),
        ({
            let b = unsigned_part(run)[i];
            !(ZERO <= b <= NINE) && (b != POINT || has_point(unsigned_part(run).take(i)))
        }),
    ensures
        !well_formed(run),
{
}

/// Manual parse of a well-formed numeric run (`sign? digits '.'? digits`
/// with at least one digit): integers accumulate in `u64`; reals divide a
/// mantissa under [`MAX_EXACT_MANTISSA`] by a power of ten. Any other shape,
/// a `u64` overflow, or a bound violation returns `None`.
pub fn parse_number_fast(run: &[u8]) -> (out: Option<Token>)
    ensures
        match out {
            Some(token) => well_formed(run@) && is_short(run@) && token@ == number_token(run@),
            None => !(well_formed(run@) && is_short(run@)),
        },
{
    let signed = run.len() > 0 && (run[0] == PLUS || run[0] == MINUS);
    let negative = run.len() > 0 && run[0] == MINUS;
    let first: usize = if signed {
        1
    } else {
        0
    };
    let ghost body = unsigned_part(run@);
    assert(body =~= run@.skip(first as int));
    let mut mantissa: u64 = 0;
    let mut digit_count: usize = 0;
    let mut point = false;
    let mut places: usize = 0;
    let mut i: usize = first;
    assert(body.take(0) =~= Seq::<u8>::empty());
    while i < run.len()
        invariant
            first <= i <= run@.len(),
            first <= 1,
            body == unsigned_part(run@),
            body == run@.skip(first as int),
            mantissa == number::decimal_value(digits_of(body.take(i - first))),
            digit_count == digits_of(body.take(i - first)).len(),
            digit_count <= i,
            point == has_point(body.take(i - first)),
            places == places_of(body.take(i - first)),
            places <= i,
            forall|j: int|
                0 <= j < i - first ==> (ZERO <= #[trigger] body[j] <= NINE || (body[j] == POINT
                    && !has_point(body.take(j)))),
        decreases run@.len() - i,
    {
        let b: u8 = run[i];
        let ghost k = i - first;
        assert(body[k] == b);
        proof {
            lemma_digits_step(body, k);
        }
        if ZERO <= b && b <= NINE {
            let digit: u64 = (b - ZERO) as u64;
            proof {
                lemma_value_grows(body, k + 1);
                let d = digits_of(body.take(k));
                assert(d.push(b).drop_last() =~= d);
            }
            if mantissa > (u64::MAX - digit) / 10 {
                proof {
                    assert(number::decimal_value(digits_of(body)) > u64::MAX);
                }
                return None;
            }
            mantissa = mantissa * 10 + digit;
            digit_count += 1;
            if point {
                places += 1;
            }
        } else if b == POINT && !point {
            point = true;
        } else {
            proof {
                lemma_ill_formed(run@, k);
            }
            return None;
        }
        i += 1;
    }
    assert(body.take(body.len() as int) =~= body);
    if digit_count == 0 {
        return None;
    }
    proof {
        lemma_counts(body);
        assert(well_formed(run@));
        if body.contains(PLUS) {
            let j = body.index_of(PLUS);
            assert(ZERO <= body[j]);
        }
        if body.contains(MINUS) {
            let j = body.index_of(MINUS);
            assert(ZERO <= body[j]);
        }
    }
    if !point {
        if mantissa <= i64::MAX as u64 {
            let value: i64 = mantissa as i64;
            return Some(
                Token::Int(
                    if negative {
                        -value
                    } else {
                        value
                    },
                ),
            );
        }
        if negative && mantissa == 0x8000_0000_0000_0000 {
            return Some(Token::Int(i64::MIN));
        }
        return None;
    }
    if mantissa >= MAX_EXACT_MANTISSA || places >= MAX_EXACT_PLACES {
        return None;
    }
    Some(Token::Real(Real::from_scaled(negative, mantissa, places)))
}

/// The digits of a numeric run behind its sign, whether it has a point, how
/// many of the digits stand behind it, and whether a further sign occurs.
fn split_number(run: &[u8], first: usize) -> (out: (Vec<u8>, bool, usize, bool))
    requires
        first <= run@.len(),
    ensures
        out.0@ == digits_of(run@.skip(first as int)),
        number::all_digits(out.0@),
        out.1 == has_point(run@.skip(first as int)),
        out.2 == places_of(run@.skip(first as int)),
        out.3 == has_sign(run@.skip(first as int)),
{
    let ghost body = run@.skip(first as int);
    let mut digits: Vec<u8> = Vec::new();
    let mut point = false;
    let mut sign = false;
    let mut places: usize = 0;
    let mut i: usize = first;
    assert(body.take(0) =~= Seq::<u8>::empty());
    while i < run.len()
        invariant
            first <= i <= run@.len(),
            body == run@.skip(first as int),
            digits@ == digits_of(body.take(i - first)),
            point == has_point(body.take(i - first)),
            places == places_of(body.take(i - first)),
            places <= i,
            sign == has_sign(body.take(i - first)),
        decreases run@.len() - i,
    {
        let b: u8 = run[i];
        let ghost k = i - first;
        proof {
            assert(body[k] == b);
            lemma_digits_step(body, k);
            lemma_contains_step(body, k, PLUS);
            lemma_contains_step(body, k, MINUS);
        }
        if ZERO <= b && b <= NINE {
            digits.push(b);
            if point {
                places += 1;
            }
        } else if b == POINT {
            point = true;
        } else if b == PLUS || b == MINUS {
            sign = true;
        }
        i += 1;
    }
    assert(body.take(body.len() as int) =~= body);
    proof {
        lemma_counts(body);
    }
    (digits, point, places, sign)
}

proof fn lemma_contains_step(s: Seq<u8>, i: int, b: u8)
    requires
        0 <= i < s.len(),
    ensures
        s.take(i + 1).contains(b) == (s.take(i).contains(b) || s[i] == b),
{
    assert(s.take(i + 1)[i] == s[i]);
    if s.take(i).contains(b) {
        let j = s.take(i).index_of(b);
        assert(s.take(i + 1)[j] == b);
    }
    if s.take(i + 1).contains(b) && s[i] != b {
        let j = s.take(i + 1).index_of(b);
        assert(s.take(i)[j] == b);
    }
}

/// The number that ASCII digits write, if it fits in 64 bits.
fn digits_value(digits: &[u8]) -> (out: Option<u64>)
    requires
        number::all_digits(digits@),
    ensures
        match out {
            Some(v) => v == number::decimal_value(digits@),
            None => number::decimal_value(digits@) > u64::MAX,
        },
{
    let mut value: u64 = 0;
    let mut i: usize = 0;
    assert(digits@.take(0) =~= Seq::<u8>::empty());
    while i < digits.len()
        invariant
            i <= digits@.len(),
            number::all_digits(digits@),
            value == number::decimal_value(digits@.take(i as int)),
        decreases digits@.len() - i,
    {
        let digit: u64 = (digits[i] - ZERO) as u64;
        assert(digits@.take(i + 1).drop_last() =~= digits@.take(i as int));
        if value > (u64::MAX - digit) / 10 {
            proof {
                lemma_prefix_value(digits@, i + 1);
            }
            return None;
        }
        value = value * 10 + digit;
        i += 1;
    }
    assert(digits@.take(i as int) =~= digits@);
    Some(value)
}

proof fn lemma_prefix_value(digits: Seq<u8>, i: int)
    requires
        0 <= i <= digits.len(),
        number::all_digits(digits),
    ensures
        number::decimal_value(digits.take(i)) <= number::decimal_value(digits),
    decreases digits.len() - i,
{
    if i == digits.len() {
        assert(digits.take(i) =~= digits);
    } else {
        lemma_prefix_value(digits, i + 1);
        assert(digits.take(i + 1).drop_last() =~= digits.take(i));
    }
}

/// The number of a numeric run: honor the first sign, then keep digits and
/// the first period; any further signs or periods are ignored.
fn parse_number(run: &[u8]) -> (out: Token)
    ensures
        out@ == number_token(run@),
{
    let signed = run.len() > 0 && (run[0] == PLUS || run[0] == MINUS);
    let negative = run.len() > 0 && run[0] == MINUS;
    let first: usize = if signed {
        1
    } else {
        0
    };
    assert(unsigned_part(run@) =~= run@.skip(first as int));
    let (digits, point, places, sign) = split_number(run, first);
    if point {
        return Token::Real(Real::from_decimal(negative, &digits, places));
    }
    match digits_value(&digits) {
        Some(value) => {
            if value <= i64::MAX as u64 {
                let value: i64 = value as i64;
                Token::Int(
                    if negative {
                        -value
                    } else {
                        value
                    },
                )
            } else if negative && value == 0x8000_0000_0000_0000 && !sign {
                Token::Int(i64::MIN)
            } else {
                Token::Real(Real::from_decimal(negative, &digits, 0))
            }
        },
        None => Token::Real(Real::from_decimal(negative, &digits, 0)),
    }
}

/// A copy of bytes.
pub(crate) fn copy_bytes(bytes: &[u8]) -> (out: Vec<u8>)
    ensures
        out@ == bytes@,
{
    let mut out: Vec<u8> = Vec::new();
    out.extend_from_slice(bytes);
    assert(out@ =~= bytes@);
    out
}

/// Whether a run contains only numeric characters.
fn is_numeric(run: &[u8]) -> (out: bool)
    ensures
        out == all_numeric(run@),
{
    let mut i: usize = 0;
    while i < run.len()
        invariant
            i <= run@.len(),
            forall|j: int| 0 <= j < i ==> numeric(#[trigger] run@[j]),
        decreases run@.len() - i,
    {
        let b: u8 = run[i];
        if !((ZERO <= b && b <= NINE) || b == PLUS || b == MINUS || b == POINT) {
            assert(!numeric(run@[i as int]));
            return false;
        }
        i += 1;
    }
    true
}

/// Tokenizer over a byte slice.
pub struct Lexer<'a> {
    data: &'a [u8],
    pos: usize,
}

/// A run without `#` is its own decoding.
proof fn lemma_plain_name(run: Seq<u8>)
    requires
        !run.contains(HASH),
    ensures
        name_bytes(run) == run,
    decreases run.len(),
{
    if run.len() > 0 {
        assert(run[0] != HASH);
        assert forall|i: int| 0 <= i < run.skip(1).len() implies run.skip(1)[i] != HASH by {
            assert(run.skip(1)[i] == run[i + 1]);
        }
        lemma_plain_name(run.skip(1));
        assert(seq![run[0]] + run.skip(1) =~= run);
    } else {
        assert(name_bytes(run) =~= run);
    }
}

/// Pairing one digit more: a first digit of a pair stands alone in its byte,
/// a second one completes it.
proof fn lemma_paired_push(digits: Seq<u8>, v: u8)
    requires
        v < 16,
        forall|i: int| 0 <= i < digits.len() ==> #[trigger] digits[i] < 16,
    ensures
        digits.len() % 2 == 0 ==> paired(digits.push(v)) == paired(digits).push((v * 16) as u8),
        digits.len() % 2 == 1 ==> paired(digits.push(v)) == paired(digits.drop_last()).push(
            (digits.last() * 16 + v) as u8,
        ),
{
    let after = digits.push(v);
    if digits.len() % 2 == 0 {
        assert(paired(after) =~= paired(digits).push((v * 16) as u8));
    } else {
        assert(paired(after) =~= paired(digits.drop_last()).push((digits.last() * 16 + v) as u8));
    }
}

proof fn lemma_hex_digits_small(bytes: Seq<u8>)
    ensures
        forall|i: int| 0 <= i < hex_digits(bytes).len() ==> #[trigger] hex_digits(bytes)[i] < 16,
    decreases bytes.len(),
{
    if bytes.len() > 0 {
        lemma_hex_digits_small(bytes.drop_last());
        let before = hex_digits(bytes.drop_last());
        if let Some(v) = hex_digit(bytes.last()) {
            assert(v < 16);
            assert forall|i: int| 0 <= i < before.push(v).len() implies #[trigger] before.push(
                v,
            )[i] < 16 by {}
        }
    }
}

impl<'a> Lexer<'a> {
    /// The bytes the lexer reads.
    pub closed spec fn bytes(self) -> Seq<u8> {
        self.data@
    }

    /// The position of the cursor.
    pub closed spec fn cursor(self) -> int {
        self.pos as int
    }

    /// The cursor stands at no negative position.
    pub proof fn lemma_cursor(self)
        ensures
            0 <= self.cursor(),
    {
    }

    /// Creates a lexer at the start of `data`.
    pub fn new(data: &'a [u8]) -> (out: Self)
        ensures
            out.bytes() == data@,
            out.cursor() == 0,
    {
        Lexer { data, pos: 0 }
    }

    /// Creates a lexer positioned at byte offset `pos`.
    pub fn at(data: &'a [u8], pos: usize) -> (out: Self)
        ensures
            out.bytes() == data@,
            out.cursor() == pos,
    {
        Lexer { data, pos }
    }

    /// Current byte offset.
    pub fn pos(&self) -> (out: usize)
        ensures
            out == self.cursor(),
    {
        self.pos
    }

    /// Moves the cursor to byte offset `pos`.
    pub fn seek(&mut self, pos: usize)
        ensures
            final(self).bytes() == old(self).bytes(),
            final(self).cursor() == pos,
    {
        self.pos = pos;
    }

    /// The underlying input.
    pub fn data(&self) -> (out: &'a [u8])
        ensures
            out@ == self.bytes(),
    {
        self.data
    }

    /// Advances past whitespace and `%` comments.
    pub fn skip_whitespace_and_comments(&mut self)
        ensures
            final(self).bytes() == old(self).bytes(),
            final(self).cursor() == after_blanks(old(self).bytes(), old(self).cursor()),
    {
        let ghost goal = after_blanks(self.data@, self.pos as int);
        while self.pos < self.data.len() && (is_whitespace(self.data[self.pos])
            || self.data[self.pos] == PERCENT)
            invariant
                self.data == old(self).data,
                goal == after_blanks(self.data@, self.pos as int),
            decreases self.data@.len() - self.pos,
        {
            if self.data[self.pos] == PERCENT {
                let ghost start = self.pos;
                let ghost eol = line_end(self.data@, self.pos + 1);
                proof {
                    lemma_line_end(self.data@, self.pos + 1);
                }
                self.pos += 1;
                while self.pos < self.data.len() && self.data[self.pos] != CR
                    && self.data[self.pos] != LF
                    invariant
                        self.data == old(self).data,
                        self.pos > start,
                        eol == line_end(self.data@, self.pos as int),
                    decreases self.data@.len() - self.pos,
                {
                    self.pos += 1;
                }
            } else {
                self.pos += 1;
            }
        }
    }

    /// Consumes the run of regular characters starting at the cursor.
    fn take_regular_run(&mut self) -> (out: &'a [u8])
        requires
            old(self).cursor() <= old(self).bytes().len(),
        ensures
            final(self).bytes() == old(self).bytes(),
            final(self).cursor() == run_end(old(self).bytes(), old(self).cursor()),
            out@ == run_at(old(self).bytes(), old(self).cursor()),
    {
        let start: usize = self.pos;
        while self.pos < self.data.len() && is_regular(self.data[self.pos])
            invariant
                self.data == old(self).data,
                start <= self.pos <= self.data@.len(),
                run_end(self.data@, start as int) == run_end(self.data@, self.pos as int),
            decreases self.data@.len() - self.pos,
        {
            self.pos += 1;
        }
        slice_subrange(self.data, start, self.pos)
    }

    /// Lexes a run starting with a digit, sign, or period: a number when the
    /// run contains only numeric characters, otherwise a keyword (lenient).
    fn lex_number_or_keyword(&mut self) -> (out: Token)
        requires
            old(self).cursor() <= old(self).bytes().len(),
        ensures
            final(self).bytes() == old(self).bytes(),
            final(self).cursor() == run_end(old(self).bytes(), old(self).cursor()),
            out@ == number_or_keyword(run_at(old(self).bytes(), old(self).cursor())),
    {
        let run = self.take_regular_run();
        if !is_numeric(run) {
            return Token::Keyword(copy_bytes(run));
        }
        match parse_number_fast(run) {
            Some(token) => token,
            None => parse_number(run),
        }
    }

    /// Lexes a keyword: any other run of regular characters.
    fn lex_keyword(&mut self) -> (out: Token)
        requires
            old(self).cursor() <= old(self).bytes().len(),
        ensures
            final(self).bytes() == old(self).bytes(),
            final(self).cursor() == run_end(old(self).bytes(), old(self).cursor()),
            out@ == TokenV::Keyword(run_at(old(self).bytes(), old(self).cursor())),
    {
        Token::Keyword(copy_bytes(self.take_regular_run()))
    }

    /// Lexes a name after the leading `/`, decoding `#xx` escapes. A `#`
    /// not followed by two hex digits is kept literally.
    fn lex_name(&mut self) -> (out: Token)
        requires
            old(self).cursor() <= old(self).bytes().len(),
        ensures
            final(self).bytes() == old(self).bytes(),
            final(self).cursor() == run_end(old(self).bytes(), old(self).cursor()),
            out@ == TokenV::Name(
                text::utf8_lossy(name_bytes(run_at(old(self).bytes(), old(self).cursor()))),
            ),
    {
        let run = self.take_regular_run();
        if !contains_byte(run, HASH) {
            proof {
                lemma_plain_name(run@);
            }
            return Token::Name(Name(text::from_utf8_lossy(run)));
        }
        // Hex digits are regular name characters, so any real `#xx` pair lies
        // wholly within the run.
        let mut decoded: Vec<u8> = Vec::new();
        let mut i: usize = 0;
        assert(run@.skip(0) =~= run@);
        assert(decoded@ + name_bytes(run@) =~= name_bytes(run@));
        while i < run.len()
            invariant
                i <= run@.len(),
                name_bytes(run@) == decoded@ + name_bytes(run@.skip(i as int)),
            decreases run@.len() - i,
        {
            let b: u8 = run[i];
            let ghost before = decoded@;
            let ghost left = run@.skip(i as int);
            let mut used: usize = 1;
            let mut byte: u8 = b;
            if b == HASH && run.len() - i > 2 {
                assert(left[1] == run@[i + 1] && left[2] == run@[i + 2]);
                if let Some(high) = hex_val(run[i + 1]) {
                    if let Some(low) = hex_val(run[i + 2]) {
                        byte = high * 16 + low;
                        used = 3;
                    }
                }
            }
            decoded.push(byte);
            assert(left.skip(used as int) =~= run@.skip(i + used));
            assert(name_bytes(left) =~= seq![byte] + name_bytes(left.skip(used as int)));
            assert(decoded@ + name_bytes(left.skip(used as int)) =~= before + name_bytes(left));
            i += used;
        }
        assert(run@.skip(i as int) =~= Seq::<u8>::empty());
        assert(name_bytes(run@) =~= decoded@);
        Token::Name(Name(text::from_utf8_lossy(&decoded)))
    }

    /// Reads the rest of an escape sequence, the cursor on the byte behind
    /// the backslash.
    fn lex_escape(&mut self, out: &mut Vec<u8>)
        requires
            old(self).cursor() < old(self).bytes().len(),
        ensures
            final(self).bytes() == old(self).bytes(),
            final(self).cursor() == escape_end(old(self).bytes(), old(self).cursor()),
            final(out)@ == old(out)@ + escape_bytes(old(self).bytes(), old(self).cursor()),
    {
        let ghost data = self.data@;
        let ghost start = self.pos as int;
        let esc: u8 = self.data[self.pos];
        self.pos += 1;
        if ZERO <= esc && esc <= SEVEN {
            let mut value: u32 = (esc - ZERO) as u32;
            let mut count: usize = 0;
            assert(octal_value(data, start, start + 1) == value) by {
                reveal_with_fuel(octal_value, 2);
            }
            while count < 2 && self.pos < self.data.len() && ZERO <= self.data[self.pos]
                && self.data[self.pos] <= SEVEN
                invariant
                    data == self.data@,
                    self.data == old(self).data,
                    count <= 2,
                    self.pos == start + 1 + count,
                    0 <= start < data.len(),
                    octal_at(data, start),
                    count >= 1 ==> octal_at(data, start + 1),
                    count >= 2 ==> octal_at(data, start + 2),
                    value == octal_value(data, start, self.pos as int),
                    count == 0 ==> value <= 7,
                    count == 1 ==> value <= 63,
                    count == 2 ==> value <= 511,
                decreases 2 - count,
            {
                value = value * 8 + (self.data[self.pos] - ZERO) as u32;
                self.pos += 1;
                count += 1;
            }
            assert(self.pos == escape_end(data, start));
            out.push((value % 256) as u8);
            return;
        }
        let byte: u8 = if esc == 110 {
            LF
        } else if esc == 114 {
            CR
        } else if esc == 116 {
            TAB
        } else if esc == 98 {
            8
        } else if esc == 102 {
            FF
        } else if esc == CR {
            // Line continuation; a following LF belongs to it.
            if self.pos < self.data.len() && self.data[self.pos] == LF {
                self.pos += 1;
            }
            assert(out@ =~= old(out)@ + Seq::<u8>::empty());
            return;
        } else if esc == LF {
            assert(out@ =~= old(out)@ + Seq::<u8>::empty());
            return;
        } else {
            // Any other escape: byte kept, backslash dropped.
            esc
        };
        out.push(byte);
    }

    /// Lexes a literal string after the opening `(`: balanced unescaped
    /// parentheses, all standard escapes, 1-3 digit octal, backslash-EOL
    /// line continuation, and raw EOL normalized to `\n`. An unterminated
    /// string yields whatever was accumulated (lenient).
    fn lex_literal_string(&mut self) -> (token: Token)
        requires
            1 <= old(self).cursor() <= old(self).bytes().len(),
        ensures
            final(self).bytes() == old(self).bytes(),
            final(self).cursor() == literal_end(old(self).bytes(), old(self).cursor(), 1),
            token@ == TokenV::LitString(
                literal_bytes(old(self).bytes(), old(self).cursor(), 1),
            ),
    {
        let ghost data = self.data@;
        let ghost whole = literal_bytes(data, self.pos as int, 1);
        let ghost end = literal_end(data, self.pos as int, 1);
        let mut out: Vec<u8> = Vec::new();
        let mut depth: usize = 1;
        assert(out@ + whole =~= whole);
        while self.pos < self.data.len()
            invariant
                data == self.data@,
                self.data == old(self).data,
                self.pos <= data.len(),
                1 <= depth <= self.pos,
                whole == literal_bytes(data, old(self).pos as int, 1),
                end == literal_end(data, old(self).pos as int, 1),
                whole == out@ + literal_bytes(data, self.pos as int, depth as int),
                end == literal_end(data, self.pos as int, depth as int),
            decreases data.len() - self.pos,
        {
            let ghost at = self.pos as int;
            let ghost left = literal_bytes(data, at, depth as int);
            let ghost before = out@;
            let b: u8 = self.data[self.pos];
            self.pos += 1;
            if b == BACKSLASH {
                if self.pos >= self.data.len() {
                    // Trailing backslash at end of input.
                    assert(whole =~= out@);
                    return Token::LitString(out);
                }
                self.lex_escape(&mut out);
                proof {
                    let e = escape_bytes(data, at + 1);
                    let rest = literal_bytes(data, self.pos as int, depth as int);
                    assert(before + (e + rest) =~= (before + e) + rest);
                }
                continue;
            }
            let mut byte: u8 = b;
            if b == OPEN_PAREN {
                depth += 1;
            } else if b == CLOSE_PAREN {
                if depth == 1 {
                    assert(whole =~= out@);
                    return Token::LitString(out);
                }
                depth -= 1;
            } else if b == CR {
                // Raw EOL (CR or CRLF) normalizes to a single LF.
                if self.pos < self.data.len() && self.data[self.pos] == LF {
                    self.pos += 1;
                }
                byte = LF;
            }
            out.push(byte);
            proof {
                let rest = literal_bytes(data, self.pos as int, depth as int);
                assert(left == seq![byte] + rest);
                assert(before + (seq![byte] + rest) =~= before.push(byte) + rest);
            }
        }
        assert(whole =~= out@);
        Token::LitString(out)
    }

    /// Lexes a hex string after the opening `<`: whitespace is ignored, a
    /// trailing odd digit is padded with `0`, non-hex bytes are skipped
    /// (lenient), and a missing `>` terminates at end of input.
    fn lex_hex_string(&mut self) -> (token: Token)
        requires
            old(self).cursor() <= old(self).bytes().len(),
        ensures
            final(self).bytes() == old(self).bytes(),
            ({
                let data = old(self).bytes();
                let start = old(self).cursor();
                let close = hex_close(data, start);
                &&& token@ == TokenV::HexString(paired(hex_digits(data.subrange(start, close))))
                &&& final(self).cursor() == (if close < data.len() {
                    close + 1
                } else {
                    close
                })
            }),
    {
        let ghost data = self.data@;
        let ghost start = self.pos as int;
        let ghost close = hex_close(data, start);
        let mut out: Vec<u8> = Vec::new();
        let mut pending: Option<u8> = None;
        proof {
            lemma_hex_close(data, start);
            assert(data.subrange(start, start) =~= Seq::<u8>::empty());
            assert(paired(Seq::<u8>::empty()) =~= Seq::<u8>::empty());
        }
        while self.pos < self.data.len() && self.data[self.pos] != GREATER
            invariant
                data == self.data@,
                self.data == old(self).data,
                0 <= start <= self.pos <= data.len(),
                close == hex_close(data, self.pos as int),
                ({
                    let digits = hex_digits(data.subrange(start, self.pos as int));
                    match pending {
                        Some(v) => digits.len() % 2 == 1 && digits.last() == v && v < 16 && out@
                            == paired(digits.drop_last()),
                        None => digits.len() % 2 == 0 && out@ == paired(digits),
                    }
                }),
            decreases data.len() - self.pos,
        {
            let b: u8 = self.data[self.pos];
            let ghost at = self.pos as int;
            let ghost digits = hex_digits(data.subrange(start, at));
            proof {
                let next = data.subrange(start, at + 1);
                assert(next.drop_last() =~= data.subrange(start, at));
                assert(next.last() == b);
                lemma_hex_digits_small(data.subrange(start, at));
            }
            self.pos += 1;
            if let Some(v) = hex_val(b) {
                proof {
                    lemma_paired_push(digits, v);
                    assert(digits.push(v).drop_last() =~= digits);
                }
                match pending {
                    Some(high) => {
                        out.push(high * 16 + v);
                        pending = None;
                    },
                    None => {
                        pending = Some(v);
                    },
                }
            }
        }
        proof {
            lemma_hex_close(data, self.pos as int);
            assert(self.pos == close);
        }
        let ghost digits = hex_digits(data.subrange(start, close));
        if let Some(high) = pending {
            proof {
                lemma_hex_digits_small(data.subrange(start, close));
                lemma_paired_push(digits.drop_last(), high);
                assert(digits.drop_last().push(high) =~= digits);
            }
            out.push(high * 16);
        }
        if self.pos < self.data.len() {
            self.pos += 1;
        }
        Token::HexString(out)
    }

    /// Consumes and returns the next token.
    pub fn next_token(&mut self) -> (out: Result<Token>)
        ensures
            final(self).bytes() == old(self).bytes(),
            final(self).cursor() == token_end(old(self).bytes(), old(self).cursor()),
            out matches Ok(token) && token@ == token_at(old(self).bytes(), old(self).cursor()),
    {
        self.skip_whitespace_and_comments();
        let ghost data = self.data@;
        let ghost at = self.pos as int;
        if self.pos >= self.data.len() {
            return Ok(Token::Eof);
        }
        let b: u8 = self.data[self.pos];
        if b == OPEN_BRACKET {
            self.pos += 1;
            Ok(Token::ArrayOpen)
        } else if b == CLOSE_BRACKET {
            self.pos += 1;
            Ok(Token::ArrayClose)
        } else if b == LESS {
            if self.data.len() - self.pos > 1 && self.data[self.pos + 1] == LESS {
                self.pos += 2;
                Ok(Token::DictOpen)
            } else {
                self.pos += 1;
                Ok(self.lex_hex_string())
            }
        } else if b == GREATER {
            if self.data.len() - self.pos > 1 && self.data[self.pos + 1] == GREATER {
                self.pos += 2;
                Ok(Token::DictClose)
            } else {
                // Stray `>`: surfaced leniently as a one-byte keyword.
                self.pos += 1;
                Ok(Token::Keyword(one_byte(b)))
            }
        } else if b == OPEN_PAREN {
            self.pos += 1;
            Ok(self.lex_literal_string())
        } else if b == SOLIDUS {
            self.pos += 1;
            Ok(self.lex_name())
        } else if b == CLOSE_PAREN || b == OPEN_BRACE || b == CLOSE_BRACE {
            // Stray delimiters with no token of their own: kept lenient.
            self.pos += 1;
            Ok(Token::Keyword(one_byte(b)))
        } else {
            proof {
                if at < data.len() && delimiter(data[at]) {
                    lemma_blank_free(data, old(self).cursor());
                }
            }
            if (ZERO <= b && b <= NINE) || b == PLUS || b == MINUS || b == POINT {
                Ok(self.lex_number_or_keyword())
            } else {
                Ok(self.lex_keyword())
            }
        }
    }

    /// Returns the next token without consuming it.
    pub fn peek_token(&mut self) -> (out: Result<Token>)
        ensures
            final(self).bytes() == old(self).bytes(),
            final(self).cursor() == old(self).cursor(),
            out matches Ok(token) && token@ == token_at(old(self).bytes(), old(self).cursor()),
    {
        let save: usize = self.pos;
        let token = self.next_token();
        self.pos = save;
        token
    }
}

/// Behind the blanks stands no `%`.
proof fn lemma_blank_free(data: Seq<u8>, pos: int)
    requires
        0 <= pos,
    ensures
        after_blanks(data, pos) < data.len() ==> data[after_blanks(data, pos)] != PERCENT,
{
    if pos <= data.len() {
        lemma_not_blank(data, pos);
    } else {
        lemma_blanks(data, pos);
    }
}

/// A single byte as a string.
fn one_byte(b: u8) -> (out: Vec<u8>)
    ensures
        out@ == seq![b],
{
    let mut out: Vec<u8> = Vec::new();
    out.push(b);
    assert(out@ =~= seq![b]);
    out
}

/// Whether `bytes` hold `b`.
fn contains_byte(bytes: &[u8], b: u8) -> (out: bool)
    ensures
        out == bytes@.contains(b),
{
    let mut i: usize = 0;
    while i < bytes.len()
        invariant
            i <= bytes@.len(),
            forall|j: int| 0 <= j < i ==> bytes@[j] != b,
        decreases bytes@.len() - i,
    {
        if bytes[i] == b {
            assert(bytes@[i as int] == b);
            return true;
        }
        i += 1;
    }
    false
}

/// Law: the white-space bytes are NUL, tab, line feed, form feed, carriage
/// return and space; the delimiters are the brackets of four kinds, the solidus
/// and the percent sign.
pub proof fn classes_hold_their_bytes(b: u8)
    ensures
        whitespace(b) <==> b == 0 || b == 9 || b == 10 || b == 12 || b == 13 || b == 32,
        delimiter(b) <==> b == 40 || b == 41 || b == 60 || b == 62 || b == 91 || b == 93 || b == 123
            || b == 125 || b == 47 || b == 37,
        regular(b) <==> !whitespace(b) && !delimiter(b),
        numeric(b) <==> 48 <= b <= 57 || b == 43 || b == 45 || b == 46,
{
}

/// Law: hexadecimal digits are read back from their byte, in either case, and
/// no other byte is one.
pub proof fn hex_digits_read_back(v: u8, b: u8)
    requires
        v < 16,
    ensures
        v < 10 ==> hex_digit((48 + v) as u8) == Some(v),
        v >= 10 ==> hex_digit((97 + (v - 10)) as u8) == Some(v),
        v >= 10 ==> hex_digit((65 + (v - 10)) as u8) == Some(v),
        hex_digit(b) == Some(v) ==> b == 48 + v || b == 97 + (v - 10) || b == 65 + (v - 10),
        hex_digit(b) is Some <==> 48 <= b <= 57 || 97 <= b <= 102 || 65 <= b <= 70,
{
}

/// Law: a hexadecimal string holds a byte for every two digits, the first one
/// the higher; a last digit alone counts as if a zero followed.
pub proof fn hex_digits_pair_up(digits: Seq<u8>, i: int)
    requires
        0 <= 2 * i < digits.len(),
        forall|k: int| 0 <= k < digits.len() ==> #[trigger] digits[k] < 16,
    ensures
        2 * paired(digits).len() == digits.len() || 2 * paired(digits).len() == digits.len() + 1,
        2 * i + 1 < digits.len() ==> paired(digits)[i] as int / 16 == digits[2 * i]
            && paired(digits)[i] as int % 16 == digits[2 * i + 1],
        2 * i + 1 == digits.len() ==> paired(digits)[i] == 16 * digits[2 * i],
{
    assert(digits[2 * i] < 16);
    if 2 * i + 1 < digits.len() {
        assert(digits[2 * i + 1] < 16);
    }
}

/// Law: what an escaped byte in a string stands for: n, r, t, b and f for line
/// feed, carriage return, tab, backspace and form feed, a line end for nothing,
/// and any other byte but an octal digit for itself. An escape leaves the
/// nesting as it is.
pub proof fn escapes_stand_for_their_bytes(data: Seq<u8>, pos: int, depth: int)
    requires
        0 <= pos,
        pos + 1 < data.len(),
        data[pos] == 92,
    ensures
        ({
            let c = data[pos + 1];
            let all = literal_bytes(data, pos, depth);
            let rest = literal_bytes(data, pos + 2, depth);
            let paired_end = c == 13 && pos + 2 < data.len() && data[pos + 2] == 10;
            &&& c == 110 ==> all == seq![10u8] + rest
            &&& c == 114 ==> all == seq![13u8] + rest
            &&& c == 116 ==> all == seq![9u8] + rest
            &&& c == 98 ==> all == seq![8u8] + rest
            &&& c == 102 ==> all == seq![12u8] + rest
            &&& c == 40 || c == 41 || c == 92 ==> all == seq![c] + rest
            &&& c == 10 ==> all == rest
            &&& c == 13 && !paired_end ==> all == rest
            &&& paired_end ==> all == literal_bytes(data, pos + 3, depth)
            &&& !(48 <= c <= 55) && c != 110 && c != 114 && c != 116 && c != 98 && c != 102 && c
                != 10 && c != 13 ==> all == seq![c] + rest
        }),
{
    let rest = literal_bytes(data, escape_end(data, pos + 1), depth);
    assert(Seq::<u8>::empty() + rest =~= rest);
}

/// Law: up to three octal digits behind a backslash write a byte, what exceeds
/// a byte being dropped.
pub proof fn octal_escapes_write_a_byte(data: Seq<u8>, pos: int, depth: int)
    requires
        0 <= pos,
        pos + 1 < data.len(),
        data[pos] == 92,
        48 <= data[pos + 1] <= 55,
    ensures
        ({
            let a = data[pos + 1] - 48;
            let second = pos + 2 < data.len() && 48 <= data[pos + 2] <= 55;
            let third = second && pos + 3 < data.len() && 48 <= data[pos + 3] <= 55;
            let all = literal_bytes(data, pos, depth);
            &&& !second ==> all == seq![a as u8] + literal_bytes(data, pos + 2, depth)
            &&& second && !third ==> all == seq![(8 * a + (data[pos + 2] - 48)) as u8]
                + literal_bytes(data, pos + 3, depth)
            &&& third ==> all == seq![
                ((64 * a + 8 * (data[pos + 2] - 48) + (data[pos + 3] - 48)) % 256) as u8,
            ] + literal_bytes(data, pos + 4, depth)
        }),
{
    reveal_with_fuel(octal_value, 4);
}

/// Law: bytes of a string that are not escaped: parentheses nest, the one that
/// closes the first ends the string, a line end of any kind counts as one line
/// feed, and any other byte stands for itself.
pub proof fn plain_string_bytes_stand_for_themselves(data: Seq<u8>, pos: int, depth: int)
    requires
        0 <= pos < data.len(),
        data[pos] != 92,
        depth >= 1,
    ensures
        ({
            let b = data[pos];
            let all = literal_bytes(data, pos, depth);
            let end = literal_end(data, pos, depth);
            let paired_end = b == 13 && pos + 1 < data.len() && data[pos + 1] == 10;
            &&& b == 40 ==> all == seq![b] + literal_bytes(data, pos + 1, depth + 1) && end
                == literal_end(data, pos + 1, depth + 1)
            &&& b == 41 && depth > 1 ==> all == seq![b] + literal_bytes(data, pos + 1, depth - 1)
                && end == literal_end(data, pos + 1, depth - 1)
            &&& b == 41 && depth == 1 ==> all.len() == 0 && end == pos + 1
            &&& paired_end ==> all == seq![10u8] + literal_bytes(data, pos + 2, depth)
            &&& b == 13 && !paired_end ==> all == seq![10u8] + literal_bytes(data, pos + 1, depth)
            &&& b != 40 && b != 41 && b != 13 ==> all == seq![b] + literal_bytes(
                data,
                pos + 1,
                depth,
            ) && end == literal_end(data, pos + 1, depth)
        }),
{
}

/// Law: white space and comments between tokens are passed over: every
/// white-space byte, and from a percent sign on everything up to the end of the
/// line. Nothing else is.
pub proof fn blanks_are_passed_over(data: Seq<u8>, pos: int)
    requires
        0 <= pos < data.len(),
    ensures
        whitespace(data[pos]) ==> after_blanks(data, pos) == after_blanks(data, pos + 1),
        data[pos] == 37 ==> ({
            let end = line_end(data, pos + 1);
            &&& pos < end <= data.len()
            &&& forall|i: int|
                pos < i < end ==> (#[trigger] data[i]) != 10 && data[i] != 13
            &&& end < data.len() ==> data[end] == 10 || data[end] == 13
            &&& after_blanks(data, pos) == after_blanks(data, end)
        }),
        !whitespace(data[pos]) && data[pos] != 37 ==> after_blanks(data, pos) == pos,
{
    if data[pos] == 37 {
        lemma_comment_end(data, pos + 1);
    }
}

proof fn lemma_comment_end(data: Seq<u8>, pos: int)
    requires
        0 <= pos <= data.len(),
    ensures
        pos <= line_end(data, pos) <= data.len(),
        forall|i: int| pos <= i < line_end(data, pos) ==> (#[trigger] data[i]) != 10 && data[i] != 13,
        line_end(data, pos) < data.len() ==> data[line_end(data, pos)] == 10
            || data[line_end(data, pos)] == 13,
    decreases data.len() - pos,
{
    if pos < data.len() && data[pos] != CR && data[pos] != LF {
        lemma_comment_end(data, pos + 1);
    }
}

/// Whether all bytes are decimal digits.
pub open spec fn only_digits(bytes: Seq<u8>) -> bool {
    forall|i: int| 0 <= i < bytes.len() ==> 48 <= #[trigger] bytes[i] <= 57
}

proof fn lemma_only_digits(bytes: Seq<u8>)
    requires
        only_digits(bytes),
    ensures
        digits_of(bytes) == bytes,
        !has_point(bytes),
        places_of(bytes) == 0,
    decreases bytes.len(),
{
    assert(!bytes.contains(POINT));
    if bytes.len() > 0 {
        let head = bytes.drop_last();
        assert(only_digits(head));
        lemma_only_digits(head);
        assert(48 <= bytes[bytes.len() - 1] <= 57);
        assert(head.push(bytes.last()) =~= bytes);
    } else {
        assert(digits_of(bytes) =~= bytes);
    }
}

proof fn lemma_digits_behind_point(whole: Seq<u8>, fraction: Seq<u8>)
    requires
        only_digits(whole),
        only_digits(fraction),
    ensures
        ({
            let body = whole + seq![46u8] + fraction;
            &&& digits_of(body) == whole + fraction
            &&& has_point(body)
            &&& places_of(body) == fraction.len()
        }),
    decreases fraction.len(),
{
    let body = whole + seq![46u8] + fraction;
    assert(body[whole.len() as int] == POINT);
    if fraction.len() == 0 {
        assert(body.drop_last() =~= whole);
        assert(body.last() == 46);
        lemma_only_digits(whole);
        assert(whole + fraction =~= whole);
    } else {
        let head = fraction.drop_last();
        assert(forall|i: int| 0 <= i < head.len() ==> head[i] == fraction[i]);
        lemma_digits_behind_point(whole, head);
        assert(48 <= fraction[fraction.len() - 1] <= 57);
        assert(body.drop_last() =~= whole + seq![46u8] + head);
        assert(body.last() == fraction.last());
        assert((whole + head).push(fraction.last()) =~= whole + fraction);
    }
}

/// Law: a number written with a point is the quotient of its digits by ten to
/// the power of how many stand behind the point, rounded to the nearest; with a
/// minus sign it is negative, a plus sign says nothing.
pub proof fn decimals_are_read(sign: Option<u8>, whole: Seq<u8>, fraction: Seq<u8>)
    requires
        only_digits(whole),
        only_digits(fraction),
        sign is None || sign == Some(43u8) || sign == Some(45u8),
    ensures
        ({
            let body = whole + seq![46u8] + fraction;
            let run = match sign {
                Some(b) => seq![b] + body,
                None => body,
            };
            number_token(run) == TokenV::Real(
                Real {
                    bits: number::signed_bits(
                        sign == Some(45u8),
                        number::decimal_value(whole + fraction),
                        number::pow10(fraction.len()),
                    ) as u64,
                },
            )
        }),
{
    let body = whole + seq![46u8] + fraction;
    lemma_digits_behind_point(whole, fraction);
    if whole.len() > 0 {
        assert(body[0] == whole[0]);
    } else {
        assert(body[0] == 46);
    }
    match sign {
        Some(b) => {
            let run = seq![b] + body;
            assert(run[0] == b);
            assert(run.skip(1) =~= body);
        },
        None => {},
    }
}

/// Law: what the delimiters stand for: brackets and doubled angles open and close
/// containers, a closing one that is out of place is a keyword of one byte.
pub proof fn delimiters_stand_for_themselves(data: Seq<u8>, pos: int)
    requires
        0 <= pos < data.len(),
    ensures
        ({
            let b = data[pos];
            let twice = pos + 1 < data.len() && data[pos + 1] == b;
            &&& b == 91 ==> token_from(data, pos) == TokenV::ArrayOpen && token_stop(data, pos)
                == pos + 1
            &&& b == 93 ==> token_from(data, pos) == TokenV::ArrayClose && token_stop(data, pos)
                == pos + 1
            &&& b == 60 && twice ==> token_from(data, pos) == TokenV::DictOpen && token_stop(
                data,
                pos,
            ) == pos + 2
            &&& b == 62 && twice ==> token_from(data, pos) == TokenV::DictClose && token_stop(
                data,
                pos,
            ) == pos + 2
            &&& b == 41 || b == 123 || b == 125 || (b == 62 && !twice) ==> token_from(data, pos)
                == TokenV::Keyword(seq![b]) && token_stop(data, pos) == pos + 1
        }),
        token_from(data, data.len() as int) == TokenV::Eof,
{
}

/// Law: in a name a number sign with two hexadecimal digits stands for a byte, and
/// every other byte for itself.
pub proof fn names_escape_with_a_number_sign(byte: u8, high: u8, low: u8, rest: Seq<u8>)
    ensures
        hex_digit(high) matches Some(h) ==> (hex_digit(low) matches Some(l) ==> name_bytes(
            seq![35u8, high, low] + rest,
        ) == seq![(16 * h + l) as u8] + name_bytes(rest)),
        hex_digit(high) is None || hex_digit(low) is None ==> name_bytes(
            seq![35u8, high, low] + rest,
        ) == seq![35u8] + name_bytes(seq![high, low] + rest),
        byte != 35 ==> name_bytes(seq![byte] + rest) == seq![byte] + name_bytes(rest),
        name_bytes(seq![35u8]) == seq![35u8],
        name_bytes(Seq::empty()).len() == 0,
{
    let run = seq![35u8, high, low] + rest;
    assert(run[0] == 35 && run[1] == high && run[2] == low);
    assert(run.skip(3) =~= rest);
    assert(run.skip(1) =~= seq![high, low] + rest);
    let plain = seq![byte] + rest;
    assert(plain[0] == byte);
    assert(plain.skip(1) =~= rest);
    let alone = seq![35u8];
    assert(alone[0] == 35);
    assert(alone.skip(1) =~= Seq::<u8>::empty());
    assert(name_bytes(Seq::<u8>::empty()) =~= Seq::<u8>::empty());
}

} // verus!
