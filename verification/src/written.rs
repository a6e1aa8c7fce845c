//! How tokens and objects are written, and that the lexer and the parser read
//! back what was written.

use crate::error::Result;
use crate::lexer;
use crate::lexer::TokenV;
use crate::number;
use crate::object::{ObjRef, Object, ObjectV, StreamV};
use crate::objstm;
use crate::parser;
use crate::parser::{NoResolve, ParseV, Resolve};
use crate::text;
use vstd::prelude::*;

verus! {

/// A byte inside a literal string: parentheses and the backslash are escaped,
/// and so is CR, which would read as LF.
pub open spec fn string_byte(b: u8) -> Seq<u8> {
    if b == lexer::OPEN_PAREN || b == lexer::CLOSE_PAREN || b == lexer::BACKSLASH {
        seq![lexer::BACKSLASH, b]
    } else if b == lexer::CR {
        seq![lexer::BACKSLASH, 114u8]
    } else {
        seq![b]
    }
}

/// Bytes inside a literal string.
pub open spec fn string_body(bytes: Seq<u8>) -> Seq<u8>
    decreases bytes.len(),
{
    if bytes.len() == 0 {
        Seq::empty()
    } else {
        string_byte(bytes[0]) + string_body(bytes.skip(1))
    }
}

/// A literal string.
pub open spec fn written_string(bytes: Seq<u8>) -> Seq<u8> {
    seq![lexer::OPEN_PAREN] + string_body(bytes).push(lexer::CLOSE_PAREN)
}

/// The hex digit of a value below sixteen.
pub open spec fn hex_char(v: u8) -> u8 {
    if v < 10 {
        (48 + v) as u8
    } else {
        (55 + v) as u8
    }
}

/// Two hex digits to a byte.
pub open spec fn hex_body(bytes: Seq<u8>) -> Seq<u8> {
    Seq::new(
        2 * bytes.len(),
        |i: int|
            if i % 2 == 0 {
                hex_char(bytes[i / 2] / 16)
            } else {
                hex_char(bytes[i / 2] % 16)
            },
    )
}

/// A hex string.
pub open spec fn written_hex(bytes: Seq<u8>) -> Seq<u8> {
    seq![lexer::LESS] + hex_body(bytes).push(lexer::GREATER)
}

/// A byte inside a name: what is no regular character is written in hex, and
/// so is `#`.
pub open spec fn name_byte(b: u8) -> Seq<u8> {
    if lexer::regular(b) && b != lexer::HASH {
        seq![b]
    } else {
        seq![lexer::HASH, hex_char(b / 16), hex_char(b % 16)]
    }
}

/// Bytes inside a name.
pub open spec fn name_body(bytes: Seq<u8>) -> Seq<u8>
    decreases bytes.len(),
{
    if bytes.len() == 0 {
        Seq::empty()
    } else {
        name_byte(bytes[0]) + name_body(bytes.skip(1))
    }
}

/// A name.
pub open spec fn written_name(bytes: Seq<u8>) -> Seq<u8> {
    seq![lexer::SOLIDUS] + name_body(bytes)
}

/// A natural number in decimal.
pub open spec fn decimal_digits(n: nat) -> Seq<u8>
    decreases n,
{
    let digit = (48 + n % 10) as u8;
    if n < 10 {
        seq![digit]
    } else {
        decimal_digits(n / 10).push(digit)
    }
}

/// An integer.
pub open spec fn written_int(v: i64) -> Seq<u8> {
    if v < 0 {
        seq![lexer::MINUS] + decimal_digits((-v) as nat)
    } else {
        decimal_digits(v as nat)
    }
}

/// Whether no regular character stands at `pos`.
pub open spec fn run_stops(data: Seq<u8>, pos: int) -> bool {
    pos >= data.len() || !lexer::regular(data[pos])
}

/// What occurs at a position stands there byte for byte.
proof fn lemma_byte_of(data: Seq<u8>, run: Seq<u8>, pos: int, k: int)
    requires
        parser::occurs_at(data, run, pos),
        0 <= k < run.len(),
    ensures
        data[pos + k] == run[k],
{
    assert(data.subrange(pos, pos + run.len())[k] == data[pos + k]);
}

/// What occurs at a position occurs there part by part.
proof fn lemma_parts(data: Seq<u8>, a: Seq<u8>, b: Seq<u8>, pos: int)
    requires
        parser::occurs_at(data, a + b, pos),
    ensures
        parser::occurs_at(data, a, pos),
        parser::occurs_at(data, b, pos + a.len()),
{
    let whole = data.subrange(pos, pos + a.len() + b.len());
    assert(whole == a + b);
    assert(data.subrange(pos, pos + a.len()) =~= whole.subrange(0, a.len() as int));
    assert(whole.subrange(0, a.len() as int) =~= a);
    assert(data.subrange(pos + a.len(), pos + a.len() + b.len()) =~= whole.skip(a.len() as int));
    assert(whole.skip(a.len() as int) =~= b);
}

proof fn lemma_string(data: Seq<u8>, pos: int, bytes: Seq<u8>)
    requires
        parser::occurs_at(data, string_body(bytes).push(lexer::CLOSE_PAREN), pos),
    ensures
        lexer::literal_bytes(data, pos, 1) == bytes,
        lexer::literal_end(data, pos, 1) == pos + string_body(bytes).len() + 1,
    decreases bytes.len(),
{
    let body = string_body(bytes).push(lexer::CLOSE_PAREN);
    if bytes.len() == 0 {
        lemma_byte_of(data, body, pos, 0);
        assert(lexer::literal_bytes(data, pos, 1) =~= bytes);
    } else {
        let b = bytes[0];
        let first = string_byte(b);
        let rest = string_body(bytes.skip(1)).push(lexer::CLOSE_PAREN);
        assert(body =~= first + rest);
        lemma_parts(data, first, rest, pos);
        lemma_byte_of(data, first, pos, 0);
        if first.len() == 2 {
            lemma_byte_of(data, first, pos, 1);
        }
        lemma_string(data, pos + first.len(), bytes.skip(1));
        assert(seq![b] + bytes.skip(1) =~= bytes);
    }
}

/// Law: a literal string reads back as the bytes that were written, whatever
/// they are, and ends where it was closed.
pub proof fn strings_read_back(data: Seq<u8>, pos: int, bytes: Seq<u8>)
    requires
        parser::occurs_at(data, written_string(bytes), pos),
    ensures
        lexer::token_at(data, pos) == TokenV::LitString(bytes),
        lexer::token_end(data, pos) == pos + written_string(bytes).len(),
{
    let body = string_body(bytes).push(lexer::CLOSE_PAREN);
    lemma_parts(data, seq![lexer::OPEN_PAREN], body, pos);
    lemma_byte_of(data, seq![lexer::OPEN_PAREN], pos, 0);
    lemma_string(data, pos + 1, bytes);
}

proof fn lemma_hex_char(v: u8)
    requires
        v < 16,
    ensures
        lexer::hex_digit(hex_char(v)) == Some(v),
        lexer::regular(hex_char(v)),
        hex_char(v) != lexer::LESS,
        hex_char(v) != lexer::GREATER,
{
}

proof fn lemma_hex_close(data: Seq<u8>, pos: int, close: int)
    requires
        0 <= pos <= close < data.len(),
        forall|i: int| pos <= i < close ==> #[trigger] data[i] != lexer::GREATER,
        data[close] == lexer::GREATER,
    ensures
        lexer::hex_close(data, pos) == close,
    decreases close - pos,
{
    if pos < close {
        lemma_hex_close(data, pos + 1, close);
    }
}

proof fn lemma_hex_digits(run: Seq<u8>)
    requires
        forall|i: int| 0 <= i < run.len() ==> lexer::hex_digit(#[trigger] run[i]) is Some,
    ensures
        lexer::hex_digits(run) == Seq::new(run.len(), |i: int| lexer::hex_digit(run[i])->0),
    decreases run.len(),
{
    if run.len() > 0 {
        lemma_hex_digits(run.drop_last());
    }
    assert(lexer::hex_digits(run) =~= Seq::new(
        run.len(),
        |i: int| lexer::hex_digit(run[i])->0,
    ));
}

/// Law: a hex string reads back as the bytes that were written, and ends
/// where it was closed.
pub proof fn hex_strings_read_back(data: Seq<u8>, pos: int, bytes: Seq<u8>)
    requires
        parser::occurs_at(data, written_hex(bytes), pos),
    ensures
        lexer::token_at(data, pos) == TokenV::HexString(bytes),
        lexer::token_end(data, pos) == pos + written_hex(bytes).len(),
{
    let run = hex_body(bytes);
    let close = pos + 1 + run.len();
    assert forall|i: int| 0 <= i < run.len() implies lexer::hex_digit(#[trigger] run[i])
        == Some(
        if i % 2 == 0 {
            bytes[i / 2] / 16
        } else {
            bytes[i / 2] % 16
        },
    ) && run[i] != lexer::LESS && run[i] != lexer::GREATER by {
        lemma_hex_char(bytes[i / 2] / 16);
        lemma_hex_char(bytes[i / 2] % 16);
    }
    lemma_parts(data, seq![lexer::LESS], run.push(lexer::GREATER), pos);
    lemma_byte_of(data, seq![lexer::LESS], pos, 0);
    lemma_byte_of(data, run.push(lexer::GREATER), pos + 1, 0);
    lemma_byte_of(data, run.push(lexer::GREATER), pos + 1, run.len() as int);
    assert(run.push(lexer::GREATER) =~= run + seq![lexer::GREATER]);
    lemma_parts(data, run, seq![lexer::GREATER], pos + 1);
    assert forall|i: int| pos + 1 <= i < close implies #[trigger] data[i] != lexer::GREATER by {
        lemma_byte_of(data, run, pos + 1, i - pos - 1);
    }
    lemma_hex_close(data, pos + 1, close);
    assert(data.subrange(pos + 1, close) == run);
    lemma_hex_digits(run);
    let digits = lexer::hex_digits(run);
    assert forall|i: int| 0 <= i < bytes.len() implies #[trigger] lexer::paired(digits)[i]
        == bytes[i] by {
        assert(digits[2 * i] == bytes[i] / 16);
        assert(digits[2 * i + 1] == bytes[i] % 16);
    }
    assert(lexer::paired(digits) =~= bytes);
}

proof fn lemma_run_end(data: Seq<u8>, pos: int, end: int)
    requires
        0 <= pos <= end <= data.len(),
        forall|i: int| pos <= i < end ==> lexer::regular(#[trigger] data[i]),
        run_stops(data, end),
    ensures
        lexer::run_end(data, pos) == end,
    decreases end - pos,
{
    if pos < end {
        lemma_run_end(data, pos + 1, end);
    }
}

/// A run of regular characters is read whole.
proof fn lemma_run(data: Seq<u8>, pos: int, run: Seq<u8>)
    requires
        parser::occurs_at(data, run, pos),
        forall|i: int| 0 <= i < run.len() ==> lexer::regular(#[trigger] run[i]),
        run_stops(data, pos + run.len()),
    ensures
        lexer::run_end(data, pos) == pos + run.len(),
        lexer::run_at(data, pos) == run,
{
    assert forall|i: int| pos <= i < pos + run.len() implies lexer::regular(#[trigger] data[i]) by {
        lemma_byte_of(data, run, pos, i - pos);
    }
    lemma_run_end(data, pos, pos + run.len());
}

proof fn lemma_name(bytes: Seq<u8>)
    ensures
        lexer::name_bytes(name_body(bytes)) == bytes,
        forall|i: int|
            0 <= i < name_body(bytes).len() ==> lexer::regular(#[trigger] name_body(bytes)[i]),
    decreases bytes.len(),
{
    let run = name_body(bytes);
    if bytes.len() > 0 {
        let b = bytes[0];
        let first = name_byte(b);
        let rest = name_body(bytes.skip(1));
        lemma_name(bytes.skip(1));
        lemma_hex_char(b / 16);
        lemma_hex_char(b % 16);
        assert(run == first + rest);
        assert(run.skip(first.len() as int) =~= rest);
        assert(run[0] == first[0]);
        if first.len() == 3 {
            assert(run[1] == first[1]);
            assert(run[2] == first[2]);
        }
        assert(seq![b] + bytes.skip(1) =~= bytes);
        assert forall|i: int| 0 <= i < run.len() implies lexer::regular(#[trigger] run[i]) by {
            if i >= first.len() {
                assert(run[i] == rest[i - first.len()]);
            } else {
                assert(run[i] == first[i]);
            }
        }
    } else {
        assert(lexer::name_bytes(run) =~= bytes);
    }
}

/// Law: a name reads back as the bytes that were written, whatever they are,
/// and ends with the last of them.
pub proof fn names_read_back(data: Seq<u8>, pos: int, bytes: Seq<u8>)
    requires
        parser::occurs_at(data, written_name(bytes), pos),
        run_stops(data, pos + written_name(bytes).len()),
    ensures
        lexer::token_at(data, pos) == TokenV::Name(text::utf8_lossy(bytes)),
        lexer::token_end(data, pos) == pos + written_name(bytes).len(),
{
    lemma_parts(data, seq![lexer::SOLIDUS], name_body(bytes), pos);
    lemma_byte_of(data, seq![lexer::SOLIDUS], pos, 0);
    lemma_name(bytes);
    lemma_run(data, pos + 1, name_body(bytes));
}

proof fn lemma_decimal(n: nat)
    ensures
        number::decimal_value(decimal_digits(n)) == n,
        number::all_digits(decimal_digits(n)),
        decimal_digits(n).len() > 0,
    decreases n,
{
    let digits = decimal_digits(n);
    let digit = (48 + n % 10) as u8;
    if n < 10 {
        assert(digits.drop_last() =~= Seq::empty());
    } else {
        lemma_decimal(n / 10);
        assert(digits.drop_last() =~= decimal_digits(n / 10));
    }
    assert(digits.last() == digit);
    assert(number::decimal_value(digits) == number::decimal_value(digits.drop_last()) * 10 + (digit
        - 48) as nat);
}

proof fn lemma_all_digits(run: Seq<u8>)
    requires
        number::all_digits(run),
    ensures
        lexer::digits_of(run) == run,
        !lexer::has_point(run),
        !lexer::has_sign(run),
    decreases run.len(),
{
    if run.len() > 0 {
        lemma_all_digits(run.drop_last());
    }
    assert(lexer::digits_of(run) =~= run);
}

/// Law: every 64-bit integer reads back as it was written, and ends with its
/// last digit.
pub proof fn integers_read_back(data: Seq<u8>, pos: int, v: i64)
    requires
        parser::occurs_at(data, written_int(v), pos),
        run_stops(data, pos + written_int(v).len()),
    ensures
        lexer::token_at(data, pos) == TokenV::Int(v),
        lexer::token_end(data, pos) == pos + written_int(v).len(),
{
    let run = written_int(v);
    let digits = decimal_digits(if v < 0 {
        (-v) as nat
    } else {
        v as nat
    });
    lemma_decimal(
        if v < 0 {
            (-v) as nat
        } else {
            v as nat
        },
    );
    lemma_all_digits(digits);
    if v < 0 {
        assert(run.skip(1) =~= digits);
    }
    assert(lexer::unsigned_part(run) == digits);
    lemma_byte_of(data, run, pos, 0);
    lemma_run(data, pos, run);
    assert(lexer::all_numeric(run));
}

/// An object in writing, real numbers and streams left out: names and strings
/// by their bytes, a dictionary by its keys and, in the same order, its
/// values.
pub enum Notation {
    Null,
    Bool(bool),
    Int(i64),
    Name(Seq<u8>),
    LitString(Seq<u8>),
    HexString(Seq<u8>),
    Ref(ObjRef),
    Array(Seq<Notation>),
    Dict(Seq<Seq<u8>>, Seq<Notation>),
}

/// The bytes that an object is written with.
pub open spec fn notation(w: Notation) -> Seq<u8>
    decreases w, 0int,
{
    match w {
        Notation::Null => parser::word("null"),
        Notation::Bool(true) => parser::word("true"),
        Notation::Bool(false) => parser::word("false"),
        Notation::Int(v) => written_int(v),
        Notation::Name(bytes) => written_name(bytes),
        Notation::LitString(bytes) => written_string(bytes),
        Notation::HexString(bytes) => written_hex(bytes),
        Notation::Ref(r) => written_ref(r),
        Notation::Array(items) => seq![lexer::OPEN_BRACKET] + items_from(items, 0),
        Notation::Dict(keys, values) => seq![lexer::LESS, lexer::LESS] + entries_from(
            keys,
            values,
            0,
        ),
    }
}

/// A reference: its two numbers and a letter.
pub open spec fn written_ref(r: ObjRef) -> Seq<u8> {
    written_int(r.num as i64) + (seq![lexer::SPACE] + (written_int(r.gen as i64) + (
    seq![lexer::SPACE] + parser::word("R"))))
}

/// The items of an array from `i` on, each behind a space, and the bracket.
pub open spec fn items_from(items: Seq<Notation>, i: int) -> Seq<u8>
    decreases items, items.len() - i,
{
    if 0 <= i < items.len() {
        seq![lexer::SPACE] + (notation(items[i]) + items_from(items, i + 1))
    } else {
        seq![lexer::SPACE, lexer::CLOSE_BRACKET]
    }
}

/// The entries of a dictionary from `i` on, each key and each value behind a
/// space, and the brackets.
pub open spec fn entries_from(keys: Seq<Seq<u8>>, values: Seq<Notation>, i: int) -> Seq<u8>
    decreases values, values.len() - i,
{
    if 0 <= i < values.len() {
        seq![lexer::SPACE] + (written_name(keys[i]) + (seq![lexer::SPACE] + (notation(values[i])
            + entries_from(keys, values, i + 1))))
    } else {
        seq![lexer::SPACE, lexer::GREATER, lexer::GREATER]
    }
}

/// The object that is written.
pub open spec fn meaning(w: Notation) -> ObjectV
    decreases w, 0int,
{
    match w {
        Notation::Null => ObjectV::Null,
        Notation::Bool(b) => ObjectV::Bool(b),
        Notation::Int(v) => ObjectV::Int(v),
        Notation::Name(bytes) => ObjectV::Name(text::utf8_lossy(bytes)),
        Notation::LitString(bytes) => ObjectV::String(bytes),
        Notation::HexString(bytes) => ObjectV::String(bytes),
        Notation::Ref(r) => ObjectV::Ref(r),
        Notation::Array(items) => ObjectV::Array(meanings(items, items.len() as int)),
        Notation::Dict(keys, values) => ObjectV::Dict(
            entry_meanings(keys, values, values.len() as int),
        ),
    }
}

/// The first `i` of written objects.
pub open spec fn meanings(items: Seq<Notation>, i: int) -> Seq<ObjectV>
    decreases items, i,
{
    if 0 < i <= items.len() {
        meanings(items, i - 1).push(meaning(items[i - 1]))
    } else {
        Seq::empty()
    }
}

/// The first `i` of written entries, the last one of each key.
pub open spec fn entry_meanings(keys: Seq<Seq<u8>>, values: Seq<Notation>, i: int) -> Map<
    Seq<char>,
    ObjectV,
>
    decreases values, i,
{
    if 0 < i <= values.len() {
        entry_meanings(keys, values, i - 1).insert(
            text::utf8_lossy(keys[i - 1]),
            meaning(values[i - 1]),
        )
    } else {
        Map::empty()
    }
}

/// Whether an object inside `depth` containers nests no deeper than the parser
/// goes, and its dictionaries hold as many keys as values.
pub open spec fn fits(w: Notation, depth: int) -> bool
    decreases w, 0int,
{
    match w {
        Notation::Array(items) => depth < parser::MAX_NESTING_DEPTH && all_fit(items, 0, depth + 1),
        Notation::Dict(keys, values) => depth < parser::MAX_NESTING_DEPTH && keys.len()
            == values.len() && all_fit(values, 0, depth + 1),
        _ => true,
    }
}

/// Whether every object from `i` on fits.
pub open spec fn all_fit(items: Seq<Notation>, i: int, depth: int) -> bool
    decreases items, items.len() - i,
{
    0 <= i < items.len() ==> fits(items[i], depth) && all_fit(items, i + 1, depth)
}

/// Whether what stands at `pos` cannot be taken for a part of what stands
/// before it: no regular character, no second or third part of a reference and
/// no stream data.
#[verifier::opaque]
pub open spec fn apart(data: Seq<u8>, pos: int) -> bool {
    let next = lexer::token_at(data, pos);
    &&& run_stops(data, pos)
    &&& next != TokenV::Keyword(parser::word("R"))
    &&& next != TokenV::Keyword(parser::word("stream"))
    &&& next is Int ==> lexer::token_at(data, lexer::token_end(data, pos)) != TokenV::Keyword(
        parser::word("R"),
    )
}

/// The bytes of ASCII characters are the characters' codes.
proof fn lemma_ascii(chars: Seq<char>)
    requires
        forall|i: int| 0 <= i < chars.len() ==> #[trigger] (chars[i] as u32) < 128,
    ensures
        vstd::utf8::encode_utf8(chars).len() == chars.len(),
        forall|i: int|
            0 <= i < chars.len() ==> #[trigger] vstd::utf8::encode_utf8(chars)[i] == (
            chars[i] as u32) as u8,
    decreases chars.len(),
{
    if chars.len() > 0 {
        let c = chars[0] as u32;
        let rest = chars.drop_first();
        assert forall|i: int| 0 <= i < rest.len() implies #[trigger] (rest[i] as u32) < 128 by {
            assert(rest[i] == chars[i + 1]);
        }
        lemma_ascii(rest);
        assert((c & 0x7f) as u8 == c as u8) by (bit_vector)
            requires
                c < 128,
        ;
        let bytes = vstd::utf8::encode_utf8(chars);
        assert(bytes == seq![c as u8] + vstd::utf8::encode_utf8(rest));
        assert forall|i: int| 0 <= i < chars.len() implies #[trigger] bytes[i] == (
        chars[i] as u32) as u8 by {
            if i > 0 {
                assert(bytes[i] == vstd::utf8::encode_utf8(rest)[i - 1]);
                assert(rest[i - 1] == chars[i]);
            }
        }
    }
}

/// The words of the syntax.
proof fn lemma_words()
    ensures
        parser::word("null") == seq![110u8, 117, 108, 108],
        parser::word("true") == seq![116u8, 114, 117, 101],
        parser::word("false") == seq![102u8, 97, 108, 115, 101],
        parser::word("R") == seq![82u8],
        parser::word("stream") == seq![115u8, 116, 114, 101, 97, 109],
{
    reveal_strlit("null");
    reveal_strlit("true");
    reveal_strlit("false");
    reveal_strlit("R");
    reveal_strlit("stream");
    lemma_ascii("null"@);
    lemma_ascii("true"@);
    lemma_ascii("false"@);
    lemma_ascii("R"@);
    lemma_ascii("stream"@);
    assert(parser::word("null") =~= seq![110u8, 117, 108, 108]);
    assert(parser::word("true") =~= seq![116u8, 114, 117, 101]);
    assert(parser::word("false") =~= seq![102u8, 97, 108, 115, 101]);
    assert(parser::word("R") =~= seq![82u8]);
    assert(parser::word("stream") =~= seq![115u8, 116, 114, 101, 97, 109]);
}

/// A word that begins like no number reads as a keyword.
proof fn lemma_keyword(data: Seq<u8>, pos: int, run: Seq<u8>)
    requires
        parser::occurs_at(data, run, pos),
        run.len() > 0,
        forall|i: int| 0 <= i < run.len() ==> lexer::regular(#[trigger] run[i]),
        !lexer::numeric(run[0]),
        run_stops(data, pos + run.len()),
    ensures
        lexer::token_at(data, pos) == TokenV::Keyword(run),
        lexer::token_end(data, pos) == pos + run.len(),
{
    lemma_byte_of(data, run, pos, 0);
    lemma_run(data, pos, run);
}

/// A blank is passed over.
proof fn lemma_blank(data: Seq<u8>, pos: int)
    requires
        0 <= pos < data.len(),
        data[pos] == lexer::SPACE || data[pos] == lexer::LF,
    ensures
        lexer::token_at(data, pos) == lexer::token_at(data, pos + 1),
        lexer::token_end(data, pos) == lexer::token_end(data, pos + 1),
        run_stops(data, pos),
{
}

/// How a reference reads: two integers and a keyword.
proof fn lemma_ref(data: Seq<u8>, pos: int, r: ObjRef)
    requires
        parser::occurs_at(data, written_ref(r), pos),
        run_stops(data, pos + written_ref(r).len()),
    ensures
        ({
            let second = lexer::token_end(data, pos);
            let third = lexer::token_end(data, second);
            &&& lexer::token_at(data, pos) == TokenV::Int(r.num as i64)
            &&& lexer::token_at(data, second) == TokenV::Int(r.gen as i64)
            &&& lexer::token_at(data, third) == TokenV::Keyword(parser::word("R"))
            &&& lexer::token_end(data, third) == pos + written_ref(r).len()
        }),
{
    lemma_words();
    let num = written_int(r.num as i64);
    let gen = written_int(r.gen as i64);
    let space = seq![lexer::SPACE];
    let last = space + parser::word("R");
    lemma_parts(data, num, space + (gen + last), pos);
    let p1 = pos + num.len();
    lemma_parts(data, space, gen + last, p1);
    lemma_byte_of(data, space, p1, 0);
    lemma_parts(data, gen, last, p1 + 1);
    let p2 = p1 + 1 + gen.len();
    lemma_parts(data, space, parser::word("R"), p2);
    lemma_byte_of(data, space, p2, 0);
    lemma_blank(data, p1);
    lemma_blank(data, p2);
    integers_read_back(data, pos, r.num as i64);
    integers_read_back(data, p1 + 1, r.gen as i64);
    lemma_keyword(data, p2 + 1, parser::word("R"));
}

/// The first token of a written object ends no container and continues
/// nothing; if it is an integer, it is all of the object or another integer
/// follows.
proof fn lemma_head(data: Seq<u8>, pos: int, w: Notation)
    requires
        parser::occurs_at(data, notation(w), pos),
        run_stops(data, pos + notation(w).len()),
    ensures
        ({
            let head = lexer::token_at(data, pos);
            &&& head != TokenV::Keyword(parser::word("R"))
            &&& head != TokenV::Keyword(parser::word("stream"))
            &&& head != TokenV::Keyword(parser::word("endobj"))
            &&& head != TokenV::ArrayClose
            &&& head != TokenV::DictClose
            &&& head != TokenV::Eof
            &&& lexer::token_end(data, pos) <= pos + notation(w).len()
            &&& head is Int ==> (lexer::token_end(data, pos) == pos + notation(w).len()
                || lexer::token_at(data, lexer::token_end(data, pos)) is Int)
        }),
{
    lemma_words();
    lemma_object_words();
    match w {
        Notation::Null => {
            lemma_keyword(data, pos, notation(w));
            assert(notation(w)[0] != parser::word("endobj")[0]);
        },
        Notation::Bool(_) => {
            lemma_keyword(data, pos, notation(w));
            assert(notation(w)[0] != parser::word("endobj")[0]);
        },
        Notation::Int(v) => {
            integers_read_back(data, pos, v);
        },
        Notation::Name(bytes) => {
            names_read_back(data, pos, bytes);
        },
        Notation::LitString(bytes) => {
            strings_read_back(data, pos, bytes);
        },
        Notation::HexString(bytes) => {
            hex_strings_read_back(data, pos, bytes);
        },
        Notation::Ref(r) => {
            lemma_ref(data, pos, r);
            let second = lexer::token_end(data, pos);
            lexer::tokens_make_progress(data, pos);
            lexer::tokens_make_progress(data, second);
            lexer::tokens_make_progress(data, lexer::token_end(data, second));
        },
        Notation::Array(items) => {
            lemma_parts(data, seq![lexer::OPEN_BRACKET], items_from(items, 0), pos);
            lemma_byte_of(data, seq![lexer::OPEN_BRACKET], pos, 0);
        },
        Notation::Dict(keys, values) => {
            let open = seq![lexer::LESS, lexer::LESS];
            lemma_parts(data, open, entries_from(keys, values, 0), pos);
            lemma_byte_of(data, open, pos, 0);
            lemma_byte_of(data, open, pos, 1);
        },
    }
}

/// Where the items of an array from `i` on stand.
proof fn lemma_items_place(data: Seq<u8>, pos: int, items: Seq<Notation>, i: int)
    requires
        parser::occurs_at(data, items_from(items, i), pos),
        0 <= i <= items.len(),
    ensures
        pos < data.len(),
        data[pos] == lexer::SPACE,
        i < items.len() ==> {
            let end = pos + 1 + notation(items[i]).len();
            &&& parser::occurs_at(data, notation(items[i]), pos + 1)
            &&& parser::occurs_at(data, items_from(items, i + 1), end)
            &&& items_from(items, i).len() == 1 + notation(items[i]).len() + items_from(
                items,
                i + 1,
            ).len()
        },
        i == items.len() ==> pos + 1 < data.len() && data[pos + 1] == lexer::CLOSE_BRACKET
            && items_from(items, i).len() == 2,
{
    if i < items.len() {
        let rest = items_from(items, i + 1);
        lemma_parts(data, seq![lexer::SPACE], notation(items[i]) + rest, pos);
        lemma_byte_of(data, seq![lexer::SPACE], pos, 0);
        lemma_parts(data, notation(items[i]), rest, pos + 1);
    } else {
        lemma_byte_of(data, items_from(items, i), pos, 0);
        lemma_byte_of(data, items_from(items, i), pos, 1);
    }
}

/// The next token of an array is the first of its next item or ends it.
proof fn lemma_items_head(data: Seq<u8>, pos: int, items: Seq<Notation>, i: int)
    requires
        parser::occurs_at(data, items_from(items, i), pos),
        0 <= i <= items.len(),
    ensures
        lexer::token_at(data, pos) != TokenV::Keyword(parser::word("R")),
        lexer::token_at(data, pos) != TokenV::Keyword(parser::word("stream")),
        run_stops(data, pos),
{
    lemma_items_place(data, pos, items, i);
    lemma_blank(data, pos);
    if i < items.len() {
        let end = pos + 1 + notation(items[i]).len();
        lemma_items_place(data, end, items, i + 1);
        lemma_head(data, pos + 1, items[i]);
    }
}

/// The items of an array stand apart from what is before them.
proof fn lemma_items_apart(data: Seq<u8>, pos: int, items: Seq<Notation>, i: int)
    requires
        parser::occurs_at(data, items_from(items, i), pos),
        0 <= i <= items.len(),
    ensures
        apart(data, pos),
{
    reveal(apart);
    lemma_items_head(data, pos, items, i);
    lemma_items_place(data, pos, items, i);
    lemma_blank(data, pos);
    if i < items.len() {
        let end = pos + 1 + notation(items[i]).len();
        lemma_items_head(data, end, items, i + 1);
        lemma_head(data, pos + 1, items[i]);
    }
}

/// Where the entries of a dictionary from `i` on stand.
proof fn lemma_entries_place(
    data: Seq<u8>,
    pos: int,
    keys: Seq<Seq<u8>>,
    values: Seq<Notation>,
    i: int,
)
    requires
        parser::occurs_at(data, entries_from(keys, values, i), pos),
        0 <= i <= values.len(),
    ensures
        pos < data.len(),
        data[pos] == lexer::SPACE,
        i < values.len() ==> {
            let middle = pos + 1 + written_name(keys[i]).len();
            let end = middle + 1 + notation(values[i]).len();
            &&& parser::occurs_at(data, written_name(keys[i]), pos + 1)
            &&& middle < data.len()
            &&& data[middle] == lexer::SPACE
            &&& parser::occurs_at(data, notation(values[i]), middle + 1)
            &&& parser::occurs_at(data, entries_from(keys, values, i + 1), end)
            &&& entries_from(keys, values, i).len() == end - pos + entries_from(
                keys,
                values,
                i + 1,
            ).len()
        },
        i == values.len() ==> pos + 2 < data.len() && data[pos + 1] == lexer::GREATER && data[pos
            + 2] == lexer::GREATER && entries_from(keys, values, i).len() == 3,
{
    if i < values.len() {
        let space = seq![lexer::SPACE];
        let key = written_name(keys[i]);
        let value = notation(values[i]);
        let rest = entries_from(keys, values, i + 1);
        lemma_parts(data, space, key + (space + (value + rest)), pos);
        lemma_byte_of(data, space, pos, 0);
        lemma_parts(data, key, space + (value + rest), pos + 1);
        lemma_parts(data, space, value + rest, pos + 1 + key.len());
        lemma_byte_of(data, space, pos + 1 + key.len(), 0);
        lemma_parts(data, value, rest, pos + 2 + key.len());
    } else {
        lemma_byte_of(data, entries_from(keys, values, i), pos, 0);
        lemma_byte_of(data, entries_from(keys, values, i), pos, 1);
        lemma_byte_of(data, entries_from(keys, values, i), pos, 2);
    }
}

/// The entries of a dictionary stand apart from what is before them.
proof fn lemma_entries_apart(
    data: Seq<u8>,
    pos: int,
    keys: Seq<Seq<u8>>,
    values: Seq<Notation>,
    i: int,
)
    requires
        parser::occurs_at(data, entries_from(keys, values, i), pos),
        0 <= i <= values.len(),
    ensures
        apart(data, pos),
{
    reveal(apart);
    lemma_entries_place(data, pos, keys, values, i);
    lemma_blank(data, pos);
    if i < values.len() {
        names_read_back(data, pos + 1, keys[i]);
    }
}

/// What the parser makes of what stands at `pos`.
#[verifier::opaque]
spec fn object_read<R: Resolve>(data: Seq<u8>, resolver: &R, pos: int, depth: int) -> ParseV {
    parser::object_from(
        data,
        resolver,
        lexer::token_at(data, pos),
        lexer::token_end(data, pos),
        depth,
    )
}

/// What it makes of the rest of an array.
#[verifier::opaque]
spec fn array_read<R: Resolve>(
    data: Seq<u8>,
    resolver: &R,
    done: Seq<ObjectV>,
    pos: int,
    depth: int,
) -> ParseV {
    parser::array_from(data, resolver, done, pos, depth)
}

/// What it makes of the rest of a dictionary.
#[verifier::opaque]
spec fn dict_read<R: Resolve>(
    data: Seq<u8>,
    resolver: &R,
    done: Map<Seq<char>, ObjectV>,
    pos: int,
    depth: int,
) -> ParseV {
    parser::dict_from(data, resolver, done, pos, depth)
}

/// What it makes of what follows a dictionary.
#[verifier::opaque]
spec fn dict_read_to_end<R: Resolve>(
    data: Seq<u8>,
    resolver: &R,
    done: Map<Seq<char>, ObjectV>,
    pos: int,
) -> (ObjectV, int) {
    parser::dict_or_stream(data, resolver, done, pos)
}

/// What is known of the next item of an array before it is parsed.
proof fn lemma_next_item(data: Seq<u8>, pos: int, items: Seq<Notation>, i: int)
    requires
        parser::occurs_at(data, items_from(items, i), pos),
        0 <= i < items.len(),
    ensures
        ({
            let token = lexer::token_at(data, pos);
            let next = lexer::token_end(data, pos);
            let end = pos + 1 + notation(items[i]).len();
            &&& token == lexer::token_at(data, pos + 1)
            &&& next == lexer::token_end(data, pos + 1)
            &&& token != TokenV::ArrayClose
            &&& token != TokenV::Eof
            &&& pos < next <= end <= data.len()
            &&& apart(data, end)
        }),
{
    reveal(apart);
    lemma_items_place(data, pos, items, i);
    let end = pos + 1 + notation(items[i]).len();
    lemma_blank(data, pos);
    lexer::tokens_make_progress(data, pos);
    lemma_items_apart(data, end, items, i + 1);
    lemma_head(data, pos + 1, items[i]);
}

/// One item of an array.
proof fn lemma_array_step<R: Resolve>(
    data: Seq<u8>,
    resolver: &R,
    done: Seq<ObjectV>,
    pos: int,
    depth: int,
    item: ObjectV,
    end: int,
)
    requires
        lexer::token_at(data, pos) == lexer::token_at(data, pos + 1),
        lexer::token_end(data, pos) == lexer::token_end(data, pos + 1),
        lexer::token_at(data, pos) != TokenV::ArrayClose,
        lexer::token_at(data, pos) != TokenV::Eof,
        pos < lexer::token_end(data, pos) <= end <= data.len(),
        object_read(data, resolver, pos + 1, depth + 1) == Ok::<(ObjectV, int), (int, Seq<char>)>(
            (item, end),
        ),
    ensures
        array_read(data, resolver, done, pos, depth) == array_read(
            data,
            resolver,
            done.push(item),
            end,
            depth,
        ),
{
    reveal(object_read);
    reveal(array_read);
}

/// An array ends with its bracket.
proof fn lemma_array_closes<R: Resolve>(
    data: Seq<u8>,
    resolver: &R,
    done: Seq<ObjectV>,
    pos: int,
    depth: int,
)
    requires
        0 <= pos,
        pos + 1 < data.len(),
        data[pos] == lexer::SPACE,
        data[pos + 1] == lexer::CLOSE_BRACKET,
    ensures
        array_read(data, resolver, done, pos, depth) == Ok::<(ObjectV, int), (int, Seq<char>)>(
            (ObjectV::Array(done), pos + 2),
        ),
{
    reveal(array_read);
    lemma_blank(data, pos);
    assert(lexer::token_at(data, pos) == TokenV::ArrayClose);
    assert(lexer::token_end(data, pos) == pos + 2);
}

proof fn lemma_array<R: Resolve>(
    data: Seq<u8>,
    resolver: &R,
    pos: int,
    items: Seq<Notation>,
    i: int,
    depth: int,
)
    requires
        parser::occurs_at(data, items_from(items, i), pos),
        0 <= i <= items.len(),
        all_fit(items, i, depth + 1),
    ensures
        array_read(data, resolver, meanings(items, i), pos, depth) == Ok::<
            (ObjectV, int),
            (int, Seq<char>),
        >(
            (
                ObjectV::Array(meanings(items, items.len() as int)),
                pos + items_from(items, i).len(),
            ),
        ),
    decreases items, items.len() - i,
{
    lemma_items_place(data, pos, items, i);
    if i < items.len() {
        let end = pos + 1 + notation(items[i]).len();
        lemma_next_item(data, pos, items, i);
        lemma_object(data, resolver, pos + 1, items[i], depth + 1);
        lemma_array_step(data, resolver, meanings(items, i), pos, depth, meaning(items[i]), end);
        assert(meanings(items, i + 1) == meanings(items, i).push(meaning(items[i])));
        lemma_array(data, resolver, end, items, i + 1, depth);
    } else {
        lemma_array_closes(data, resolver, meanings(items, i), pos, depth);
    }
}

/// What is known of the next entry of a dictionary before it is parsed.
proof fn lemma_next_entry(
    data: Seq<u8>,
    pos: int,
    keys: Seq<Seq<u8>>,
    values: Seq<Notation>,
    i: int,
)
    requires
        parser::occurs_at(data, entries_from(keys, values, i), pos),
        0 <= i < values.len(),
    ensures
        ({
            let next = lexer::token_end(data, pos);
            let middle = pos + 1 + written_name(keys[i]).len();
            let end = middle + 1 + notation(values[i]).len();
            &&& lexer::token_at(data, pos) == TokenV::Name(text::utf8_lossy(keys[i]))
            &&& next == middle
            &&& lexer::token_at(data, next) == lexer::token_at(data, middle + 1)
            &&& lexer::token_end(data, next) == lexer::token_end(data, middle + 1)
            &&& lexer::token_at(data, next) != TokenV::DictClose
            &&& pos < next <= lexer::token_end(data, next) <= end <= data.len()
            &&& apart(data, end)
        }),
{
    reveal(apart);
    lemma_entries_place(data, pos, keys, values, i);
    let middle = pos + 1 + written_name(keys[i]).len();
    let end = middle + 1 + notation(values[i]).len();
    lemma_blank(data, pos);
    lemma_blank(data, middle);
    names_read_back(data, pos + 1, keys[i]);
    lexer::tokens_make_progress(data, middle);
    lemma_entries_apart(data, end, keys, values, i + 1);
    lemma_head(data, middle + 1, values[i]);
}

/// One entry of a dictionary.
proof fn lemma_dict_step<R: Resolve>(
    data: Seq<u8>,
    resolver: &R,
    done: Map<Seq<char>, ObjectV>,
    pos: int,
    depth: int,
    key: Seq<char>,
    value: ObjectV,
    end: int,
)
    requires
        lexer::token_at(data, pos) == TokenV::Name(key),
        ({
            let next = lexer::token_end(data, pos);
            let behind = lexer::token_end(data, next);
            &&& lexer::token_at(data, next) == lexer::token_at(data, next + 1)
            &&& behind == lexer::token_end(data, next + 1)
            &&& lexer::token_at(data, next) != TokenV::DictClose
            &&& pos < next <= behind <= end <= data.len()
            &&& object_read(data, resolver, next + 1, depth + 1) == Ok::<
                (ObjectV, int),
                (int, Seq<char>),
            >((value, end))
        }),
    ensures
        dict_read(data, resolver, done, pos, depth) == dict_read(
            data,
            resolver,
            done.insert(key, value),
            end,
            depth,
        ),
{
    reveal(object_read);
    reveal(dict_read);
}

/// A dictionary ends with its brackets, unless it begins a stream.
proof fn lemma_dict_closes<R: Resolve>(
    data: Seq<u8>,
    resolver: &R,
    done: Map<Seq<char>, ObjectV>,
    pos: int,
    depth: int,
)
    requires
        0 <= pos,
        pos + 2 < data.len(),
        data[pos] == lexer::SPACE,
        data[pos + 1] == lexer::GREATER,
        data[pos + 2] == lexer::GREATER,
    ensures
        dict_read(data, resolver, done, pos, depth) == Ok::<
            (ObjectV, int),
            (int, Seq<char>),
        >(dict_read_to_end(data, resolver, done, pos + 3)),
{
    reveal(dict_read);
    reveal(dict_read_to_end);
    lemma_blank(data, pos);
    assert(lexer::token_at(data, pos) == TokenV::DictClose);
    assert(lexer::token_end(data, pos) == pos + 3);
}

proof fn lemma_dict<R: Resolve>(
    data: Seq<u8>,
    resolver: &R,
    pos: int,
    keys: Seq<Seq<u8>>,
    values: Seq<Notation>,
    i: int,
    depth: int,
)
    requires
        parser::occurs_at(data, entries_from(keys, values, i), pos),
        0 <= i <= values.len(),
        all_fit(values, i, depth + 1),
    ensures
        dict_read(data, resolver, entry_meanings(keys, values, i), pos, depth) == Ok::<
            (ObjectV, int),
            (int, Seq<char>),
        >(
            dict_read_to_end(
                data,
                resolver,
                entry_meanings(keys, values, values.len() as int),
                pos + entries_from(keys, values, i).len(),
            ),
        ),
    decreases values, values.len() - i,
{
    lemma_entries_place(data, pos, keys, values, i);
    let done = entry_meanings(keys, values, i);
    if i < values.len() {
        let key = text::utf8_lossy(keys[i]);
        let value = meaning(values[i]);
        let middle = pos + 1 + written_name(keys[i]).len();
        let end = middle + 1 + notation(values[i]).len();
        lemma_next_entry(data, pos, keys, values, i);
        lemma_object(data, resolver, middle + 1, values[i], depth + 1);
        lemma_dict_step(data, resolver, done, pos, depth, key, value, end);
        assert(entry_meanings(keys, values, i + 1) == done.insert(key, value));
        lemma_dict(data, resolver, end, keys, values, i + 1, depth);
    } else {
        lemma_dict_closes(data, resolver, done, pos, depth);
    }
}

/// A dictionary that something apart follows begins no stream.
proof fn lemma_no_stream<R: Resolve>(
    data: Seq<u8>,
    resolver: &R,
    done: Map<Seq<char>, ObjectV>,
    pos: int,
)
    requires
        apart(data, pos),
    ensures
        dict_read_to_end(data, resolver, done, pos) == (ObjectV::Dict(done), pos),
{
    reveal(dict_read_to_end);
    reveal(apart);
}

/// An object that is no container.
proof fn lemma_leaf<R: Resolve>(data: Seq<u8>, resolver: &R, pos: int, w: Notation, depth: int)
    requires
        parser::occurs_at(data, notation(w), pos),
        apart(data, pos + notation(w).len()),
        !(w is Array),
        !(w is Dict),
    ensures
        object_read(data, resolver, pos, depth) == Ok::<(ObjectV, int), (int, Seq<char>)>(
            (meaning(w), pos + notation(w).len()),
        ),
{
    reveal(object_read);
    reveal(apart);
    lemma_words();
    match w {
        Notation::Null => {
            lemma_keyword(data, pos, notation(w));
        },
        Notation::Bool(_) => {
            lemma_keyword(data, pos, notation(w));
        },
        Notation::Int(v) => {
            integers_read_back(data, pos, v);
        },
        Notation::Name(bytes) => {
            names_read_back(data, pos, bytes);
        },
        Notation::LitString(bytes) => {
            strings_read_back(data, pos, bytes);
        },
        Notation::HexString(bytes) => {
            hex_strings_read_back(data, pos, bytes);
        },
        Notation::Ref(r) => {
            lemma_ref(data, pos, r);
        },
        _ => {},
    }
}

/// An array goes on behind its bracket.
proof fn lemma_array_opens<R: Resolve>(
    data: Seq<u8>,
    resolver: &R,
    pos: int,
    items: Seq<Notation>,
    depth: int,
)
    requires
        parser::occurs_at(data, notation(Notation::Array(items)), pos),
        depth < parser::MAX_NESTING_DEPTH,
    ensures
        parser::occurs_at(data, items_from(items, 0), pos + 1),
        object_read(data, resolver, pos, depth) == array_read(
            data,
            resolver,
            meanings(items, 0),
            pos + 1,
            depth,
        ),
{
    reveal(object_read);
    reveal(array_read);
    lemma_parts(data, seq![lexer::OPEN_BRACKET], items_from(items, 0), pos);
    lemma_byte_of(data, seq![lexer::OPEN_BRACKET], pos, 0);
    assert(lexer::token_at(data, pos) == TokenV::ArrayOpen);
    assert(lexer::token_end(data, pos) == pos + 1);
}

/// A dictionary goes on behind its brackets.
proof fn lemma_dict_opens<R: Resolve>(
    data: Seq<u8>,
    resolver: &R,
    pos: int,
    keys: Seq<Seq<u8>>,
    values: Seq<Notation>,
    depth: int,
)
    requires
        parser::occurs_at(data, notation(Notation::Dict(keys, values)), pos),
        depth < parser::MAX_NESTING_DEPTH,
    ensures
        parser::occurs_at(data, entries_from(keys, values, 0), pos + 2),
        object_read(data, resolver, pos, depth) == dict_read(
            data,
            resolver,
            entry_meanings(keys, values, 0),
            pos + 2,
            depth,
        ),
{
    reveal(object_read);
    reveal(dict_read);
    let open = seq![lexer::LESS, lexer::LESS];
    lemma_parts(data, open, entries_from(keys, values, 0), pos);
    lemma_byte_of(data, open, pos, 0);
    lemma_byte_of(data, open, pos, 1);
    assert(lexer::token_at(data, pos) == TokenV::DictOpen);
    assert(lexer::token_end(data, pos) == pos + 2);
}

proof fn lemma_object<R: Resolve>(data: Seq<u8>, resolver: &R, pos: int, w: Notation, depth: int)
    requires
        parser::occurs_at(data, notation(w), pos),
        apart(data, pos + notation(w).len()),
        fits(w, depth),
    ensures
        object_read(data, resolver, pos, depth) == Ok::<(ObjectV, int), (int, Seq<char>)>(
            (meaning(w), pos + notation(w).len()),
        ),
    decreases w, 0int,
{
    match w {
        Notation::Array(items) => {
            lemma_array_opens(data, resolver, pos, items, depth);
            lemma_array(data, resolver, pos + 1, items, 0, depth);
        },
        Notation::Dict(keys, values) => {
            lemma_dict_opens(data, resolver, pos, keys, values, depth);
            lemma_dict(data, resolver, pos + 2, keys, values, 0, depth);
            lemma_no_stream(
                data,
                resolver,
                entry_meanings(keys, values, values.len() as int),
                pos + notation(w).len(),
            );
        },
        _ => {
            lemma_leaf(data, resolver, pos, w, depth);
        },
    }
}

/// Law: an object reads back as it was written, with nothing resolved, and
/// ends where its writing ends, as long as it nests no deeper than the parser
/// goes and what follows stands apart from it.
pub proof fn objects_read_back<R: Resolve>(data: Seq<u8>, resolver: &R, pos: int, w: Notation)
    requires
        parser::occurs_at(data, notation(w), pos),
        apart(data, pos + notation(w).len()),
        fits(w, 0),
    ensures
        parser::object_at(data, resolver, pos) == Ok::<(ObjectV, int), (int, Seq<char>)>(
            (meaning(w), pos + notation(w).len()),
        ),
{
    reveal(object_read);
    lemma_object(data, resolver, pos, w, 0);
}

/// A stream: its dictionary, and its data between two words.
pub open spec fn written_stream(keys: Seq<Seq<u8>>, values: Seq<Notation>, bytes: Seq<u8>) -> Seq<
    u8,
> {
    notation(Notation::Dict(keys, values)) + (seq![lexer::SPACE] + (parser::word("stream") + (
    seq![lexer::LF] + (bytes + (seq![lexer::LF] + parser::word("endstream"))))))
}

/// The word behind a stream's data.
proof fn lemma_endstream()
    ensures
        parser::word("endstream") == seq![101u8, 110, 100, 115, 116, 114, 101, 97, 109],
{
    reveal_strlit("endstream");
    lemma_ascii("endstream"@);
    assert(parser::word("endstream") =~= seq![101u8, 110, 100, 115, 116, 114, 101, 97, 109]);
}

/// Where the parts of a stream stand.
proof fn lemma_stream_place(
    data: Seq<u8>,
    pos: int,
    keys: Seq<Seq<u8>>,
    values: Seq<Notation>,
    bytes: Seq<u8>,
)
    requires
        parser::occurs_at(data, written_stream(keys, values, bytes), pos),
        run_stops(data, pos + written_stream(keys, values, bytes).len()),
    ensures
        ({
            let dict = notation(Notation::Dict(keys, values));
            let after = pos + dict.len();
            let start = after + 8;
            let end = start + bytes.len();
            &&& parser::occurs_at(data, dict, pos)
            &&& lexer::token_at(data, after) == TokenV::Keyword(parser::word("stream"))
            &&& lexer::token_end(data, after) == after + 7
            &&& parser::stream_start(data, after + 7) == start
            &&& end <= data.len()
            &&& data.subrange(start, end) == bytes
            &&& lexer::token_at(data, end) == TokenV::Keyword(parser::word("endstream"))
            &&& lexer::token_end(data, end) == pos + written_stream(keys, values, bytes).len()
        }),
{
    lemma_words();
    lemma_endstream();
    let dict = notation(Notation::Dict(keys, values));
    let stream = parser::word("stream");
    let endstream = parser::word("endstream");
    let (space, newline) = (seq![lexer::SPACE], seq![lexer::LF]);
    let after = pos + dict.len();
    lemma_parts(data, dict, space + (stream + (newline + (bytes + (newline + endstream)))), pos);
    lemma_parts(data, space, stream + (newline + (bytes + (newline + endstream))), after);
    lemma_byte_of(data, space, after, 0);
    lemma_parts(data, stream, newline + (bytes + (newline + endstream)), after + 1);
    lemma_parts(data, newline, bytes + (newline + endstream), after + 7);
    lemma_byte_of(data, newline, after + 7, 0);
    let end = after + 8 + bytes.len();
    lemma_parts(data, bytes, newline + endstream, after + 8);
    lemma_parts(data, newline, endstream, end);
    lemma_byte_of(data, newline, end, 0);
    lemma_blank(data, after);
    lemma_blank(data, end);
    lemma_keyword(data, after + 1, stream);
    lemma_keyword(data, end + 1, endstream);
}

/// A declared length that leads to the end of a stream gives its data.
proof fn lemma_declared<R: Resolve>(
    data: Seq<u8>,
    resolver: &R,
    dict: Map<Seq<char>, ObjectV>,
    after: int,
    n: i64,
)
    requires
        lexer::token_at(data, after) == TokenV::Keyword(parser::word("stream")),
        parser::declared_length(dict, resolver) == Some(n),
        ({
            let start = parser::stream_start(data, lexer::token_end(data, after));
            &&& 0 <= n
            &&& start + n <= data.len()
            &&& lexer::token_at(data, start + n) == TokenV::Keyword(parser::word("endstream"))
        }),
    ensures
        ({
            let start = parser::stream_start(data, lexer::token_end(data, after));
            dict_read_to_end(data, resolver, dict, after) == (
                ObjectV::Stream(StreamV { dict, data: data.subrange(start, start + n) }),
                lexer::token_end(data, start + n),
            )
        }),
{
    reveal(dict_read_to_end);
}

/// Law: a stream whose dictionary declares the length of its data, directly or
/// by reference, reads back as it was written, whatever its data holds.
pub proof fn streams_read_back<R: Resolve>(
    data: Seq<u8>,
    resolver: &R,
    pos: int,
    keys: Seq<Seq<u8>>,
    values: Seq<Notation>,
    bytes: Seq<u8>,
)
    requires
        parser::occurs_at(data, written_stream(keys, values, bytes), pos),
        run_stops(data, pos + written_stream(keys, values, bytes).len()),
        fits(Notation::Dict(keys, values), 0),
        parser::declared_length(
            entry_meanings(keys, values, values.len() as int),
            resolver,
        ) matches Some(n) && n == bytes.len(),
    ensures
        parser::object_at(data, resolver, pos) == Ok::<(ObjectV, int), (int, Seq<char>)>(
            (
                ObjectV::Stream(
                    StreamV {
                        dict: entry_meanings(keys, values, values.len() as int),
                        data: bytes,
                    },
                ),
                pos + written_stream(keys, values, bytes).len(),
            ),
        ),
{
    reveal(object_read);
    lemma_stream_place(data, pos, keys, values, bytes);
    lemma_dict_opens(data, resolver, pos, keys, values, 0);
    lemma_dict(data, resolver, pos + 2, keys, values, 0, 0);
    lemma_declared(
        data,
        resolver,
        entry_meanings(keys, values, values.len() as int),
        pos + notation(Notation::Dict(keys, values)).len(),
        bytes.len() as i64,
    );
}

/// Law: the end of the input stands apart from anything.
pub proof fn the_end_stands_apart(data: Seq<u8>)
    ensures
        apart(data, data.len() as int),
{
    reveal(apart);
}

/// An indirect object: its two numbers, and the object between two words.
pub open spec fn written_indirect(r: ObjRef, w: Notation) -> Seq<u8> {
    written_int(r.num as i64) + (seq![lexer::SPACE] + (written_int(r.gen as i64) + (
    seq![lexer::SPACE] + (parser::word("obj") + (seq![lexer::SPACE] + (notation(w) + (
    seq![lexer::SPACE] + parser::word("endobj"))))))))
}

/// The words around an indirect object.
proof fn lemma_object_words()
    ensures
        parser::word("obj") == seq![111u8, 98, 106],
        parser::word("endobj") == seq![101u8, 110, 100, 111, 98, 106],
{
    reveal_strlit("obj");
    reveal_strlit("endobj");
    lemma_ascii("obj"@);
    lemma_ascii("endobj"@);
    assert(parser::word("obj") =~= seq![111u8, 98, 106]);
    assert(parser::word("endobj") =~= seq![101u8, 110, 100, 111, 98, 106]);
}

/// Where the parts of an indirect object stand.
proof fn lemma_indirect_place(data: Seq<u8>, pos: int, r: ObjRef, w: Notation)
    requires
        parser::occurs_at(data, written_indirect(r, w), pos),
        run_stops(data, pos + written_indirect(r, w).len()),
    ensures
        ({
            let second = lexer::token_end(data, pos);
            let third = lexer::token_end(data, second);
            let body = lexer::token_end(data, third);
            let end = body + 1 + notation(w).len();
            &&& lexer::token_at(data, pos) == TokenV::Int(r.num as i64)
            &&& lexer::token_at(data, second) == TokenV::Int(r.gen as i64)
            &&& lexer::token_at(data, third) == TokenV::Keyword(parser::word("obj"))
            &&& 0 <= body < data.len()
            &&& data[body] == lexer::SPACE
            &&& parser::occurs_at(data, notation(w), body + 1)
            &&& run_stops(data, end)
            &&& lexer::token_at(data, end) == TokenV::Keyword(parser::word("endobj"))
            &&& lexer::token_end(data, end) == pos + written_indirect(r, w).len()
        }),
{
    lemma_object_words();
    let num = written_int(r.num as i64);
    let gen = written_int(r.gen as i64);
    let space = seq![lexer::SPACE];
    let obj = parser::word("obj");
    let endobj = parser::word("endobj");
    let tail = notation(w) + (space + endobj);
    let p1 = pos + num.len();
    let p2 = p1 + 1 + gen.len();
    let p3 = p2 + 1 + obj.len();
    let end = p3 + 1 + notation(w).len();
    lemma_parts(data, num, space + (gen + (space + (obj + (space + tail)))), pos);
    lemma_parts(data, space, gen + (space + (obj + (space + tail))), p1);
    lemma_byte_of(data, space, p1, 0);
    lemma_parts(data, gen, space + (obj + (space + tail)), p1 + 1);
    lemma_parts(data, space, obj + (space + tail), p2);
    lemma_byte_of(data, space, p2, 0);
    lemma_parts(data, obj, space + tail, p2 + 1);
    lemma_parts(data, space, tail, p3);
    lemma_byte_of(data, space, p3, 0);
    lemma_parts(data, notation(w), space + endobj, p3 + 1);
    lemma_parts(data, space, endobj, end);
    lemma_byte_of(data, space, end, 0);
    lemma_blank(data, p1);
    lemma_blank(data, p2);
    lemma_blank(data, p3);
    lemma_blank(data, end);
    integers_read_back(data, pos, r.num as i64);
    integers_read_back(data, p1 + 1, r.gen as i64);
    lemma_keyword(data, p2 + 1, obj);
    lemma_keyword(data, end + 1, endobj);
}

/// Law: an indirect object reads back with its reference as it was written.
pub proof fn indirect_objects_read_back<R: Resolve>(
    data: Seq<u8>,
    resolver: &R,
    pos: int,
    r: ObjRef,
    w: Notation,
)
    requires
        parser::occurs_at(data, written_indirect(r, w), pos),
        run_stops(data, pos + written_indirect(r, w).len()),
        fits(w, 0),
    ensures
        parser::indirect_at(data, resolver, pos) == Ok::<
            (ObjRef, ObjectV, int),
            (int, Seq<char>),
        >((r, meaning(w), pos + written_indirect(r, w).len())),
{
    lemma_indirect_place(data, pos, r, w);
    let body = lexer::token_end(data, lexer::token_end(data, lexer::token_end(data, pos)));
    let end = body + 1 + notation(w).len();
    lemma_blank(data, body);
    lemma_head(data, body + 1, w);
    lemma_end_apart(data, end);
    objects_read_back(data, resolver, body + 1, w);
    assert(parser::object_at(data, resolver, body) == parser::object_at(data, resolver, body + 1));
}

/// The end of an indirect object stands apart from the object.
proof fn lemma_end_apart(data: Seq<u8>, pos: int)
    requires
        run_stops(data, pos),
        lexer::token_at(data, pos) == TokenV::Keyword(parser::word("endobj")),
    ensures
        apart(data, pos),
{
    reveal(apart);
    lemma_words();
    lemma_object_words();
    assert(parser::word("endobj")[0] != parser::word("R")[0]);
    assert(parser::word("endobj")[0] != parser::word("stream")[0]);
}

/// The integers of an object stream's header from `i` on, each behind a space,
/// and a space.
pub open spec fn header_from(header: Seq<i64>, i: int) -> Seq<u8>
    decreases header.len() - i,
{
    if 0 <= i < header.len() {
        seq![lexer::SPACE] + (written_int(header[i]) + header_from(header, i + 1))
    } else {
        seq![lexer::SPACE]
    }
}

/// The next integer of a header.
proof fn lemma_header_int(data: Seq<u8>, pos: int, header: Seq<i64>, i: int)
    requires
        parser::occurs_at(data, header_from(header, i), pos),
        0 <= i < header.len(),
        header[i] >= 0,
    ensures
        objstm::header_int(data, pos) == Some(header[i] as int),
        parser::occurs_at(data, header_from(header, i + 1), lexer::token_end(data, pos)),
{
    let word = written_int(header[i]);
    let rest = header_from(header, i + 1);
    lemma_parts(data, seq![lexer::SPACE], word + rest, pos);
    lemma_byte_of(data, seq![lexer::SPACE], pos, 0);
    lemma_blank(data, pos);
    lemma_parts(data, word, rest, pos + 1);
    lemma_byte_of(data, rest, pos + 1 + word.len(), 0);
    lemma_blank(data, pos + 1 + word.len());
    integers_read_back(data, pos + 1, header[i]);
}

/// The position behind the next `count` integers of a header.
proof fn lemma_header(data: Seq<u8>, pos: int, header: Seq<i64>, i: int, count: nat) -> (end: int)
    requires
        parser::occurs_at(data, header_from(header, i), pos),
        0 <= i,
        i + count <= header.len(),
        forall|k: int| 0 <= k < header.len() ==> #[trigger] header[k] >= 0,
    ensures
        objstm::after_header(data, pos, count) == Ok::<int, int>(end),
        parser::occurs_at(data, header_from(header, i + count), end),
    decreases count,
{
    if count == 0 {
        pos
    } else {
        lemma_header_int(data, pos, header, i);
        lemma_header(data, lexer::token_end(data, pos), header, i + 1, (count - 1) as nat)
    }
}

/// Law: an object stream gives back the object that was written where the pair
/// at `index` in its header says.
pub proof fn object_streams_read_back(
    out: Result<Object>,
    data: Seq<u8>,
    header: Seq<i64>,
    first: nat,
    index: nat,
    w: Notation,
)
    requires
        2 * index + 1 < header.len(),
        forall|k: int| 0 <= k < header.len() ==> #[trigger] header[k] >= 0,
        parser::occurs_at(data, header_from(header, 0), 0),
        parser::occurs_at(data, notation(w), first + header[(2 * index + 1) as int]),
        apart(data, first + header[(2 * index + 1) as int] + notation(w).len()),
        fits(w, 0),
        objstm::extracts(out, data, header.len() / 2, first, index),
    ensures
        out matches Ok(o) && o@ == meaning(w),
{
    let pos = lemma_header(data, 0, header, 0, 2 * index + 1);
    lemma_header_int(data, pos, header, (2 * index + 1) as int);
    objects_read_back(data, &NoResolve, first + header[(2 * index + 1) as int], w);
}

} // verus!
