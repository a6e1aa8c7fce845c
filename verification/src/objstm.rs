//! Object streams: compressed objects stored inside a `/Type/ObjStm` stream.

use crate::error;
use crate::error::{Error, Result};
use crate::lexer;
use crate::lexer::{Lexer, Token, TokenV};
use crate::object::Object;
use crate::parser;
use crate::parser::{NoResolve, Parser};
use crate::text;
use vstd::prelude::*;
use vstd::string::*;

verus! {

/// The non-negative integer at `pos`.
pub open spec fn header_int(data: Seq<u8>, pos: int) -> Option<int> {
    match lexer::token_at(data, pos) {
        TokenV::Int(v) => if v >= 0 {
            Some(v as int)
        } else {
            None
        },
        _ => None,
    }
}

/// The position behind `count` non-negative integers that start at `pos`, or
/// the position behind the first token that is none.
pub open spec fn after_header(data: Seq<u8>, pos: int, count: nat) -> std::result::Result<int, int>
    decreases count,
{
    if count == 0 {
        Ok(pos)
    } else if header_int(data, pos) is None {
        Err(lexer::token_end(data, pos))
    } else {
        after_header(data, lexer::token_end(data, pos), (count - 1) as nat)
    }
}

/// What is wrong with a header that does not consist of integers.
pub open spec fn header_message() -> Seq<char> {
    "malformed object stream header"@
}

/// What is wrong with an index that is not below the number of objects.
pub open spec fn index_message(index: nat, n: nat) -> Seq<char> {
    "object stream index "@ + text::decimal_numeral(index) + " out of range (N = "@
        + text::decimal_numeral(n) + ")"@
}

/// What is wrong with an offset behind the end of the stream.
pub open spec fn offset_message(offset: nat) -> Seq<char> {
    "object stream offset "@ + text::decimal_numeral(offset) + " lies outside the stream"@
}

/// Whether `out` is what an object stream holds at `index`: the object at
/// `first` plus the second integer of the pair at `index` in the header.
pub open spec fn extracts(
    out: Result<Object>,
    data: Seq<u8>,
    n: nat,
    first: nat,
    index: nat,
) -> bool {
    if index >= n {
        out matches Err(Error::Other(m)) && m@ == index_message(index, n)
    } else {
        match after_header(data, 0, 2 * index + 1) {
            Err(offset) => out matches Err(e) && error::is_syntax(e, offset, header_message()),
            Ok(pos) => match header_int(data, pos) {
                None => out matches Err(e) && error::is_syntax(
                    e,
                    lexer::token_end(data, pos),
                    header_message(),
                ),
                Some(offset) => if first + offset > data.len() {
                    out matches Err(Error::Other(m)) && m@ == offset_message(offset as nat)
                } else {
                    match parser::object_at(data, &NoResolve, first + offset) {
                        Ok((o, end)) => out matches Ok(found) && found@ == o,
                        Err((offset, msg)) => out matches Err(e) && error::is_syntax(
                            e,
                            offset,
                            msg,
                        ),
                    }
                },
            },
        }
    }
}

proof fn lemma_header_step(data: Seq<u8>, pos: int, count: nat)
    ensures
        match after_header(data, pos, count) {
            Ok(p) => after_header(data, pos, count + 1) == (if header_int(data, p) is None {
                Err::<int, int>(lexer::token_end(data, p))
            } else {
                Ok::<int, int>(lexer::token_end(data, p))
            }),
            Err(p) => after_header(data, pos, count + 1) == Err::<int, int>(p),
        },
    decreases count,
{
    if count == 0 {
        reveal_with_fuel(after_header, 2);
    } else if header_int(data, pos) is Some {
        lemma_header_step(data, lexer::token_end(data, pos), (count - 1) as nat);
    }
}

/// More of the header fails where less of it does.
proof fn lemma_header_fails(data: Seq<u8>, count: nat, more: nat)
    requires
        count <= more,
        after_header(data, 0, count) is Err,
    ensures
        after_header(data, 0, more) == after_header(data, 0, count),
    decreases more - count,
{
    if count < more {
        lemma_header_step(data, 0, (more - 1) as nat);
        lemma_header_fails(data, count, (more - 1) as nat);
    }
}

/// Extracts the object at `index` from decoded object-stream data.
///
/// The header consists of `2*n` integers — pairs of object number and byte
/// offset — followed by the object bodies; offsets are relative to `first`,
/// the position where the first body begins.
pub fn extract(stream_data: &[u8], n: usize, first: usize, index: u32) -> (out: Result<Object>)
    ensures
        extracts(out, stream_data@, n as nat, first as nat, index as nat),
{
    if index as u64 >= n as u64 {
        let mut msg = "object stream index ".to_owned();
        msg.append(text::decimal(index as u64).as_str());
        msg.append(" out of range (N = ");
        msg.append(text::decimal(n as u64).as_str());
        msg.append(")");
        return Err(Error::Other(msg));
    }
    let ghost data = stream_data@;
    let total: u64 = 2 * (index as u64) + 1;
    let mut lexer = Lexer::new(stream_data);
    let mut i: u64 = 0;
    while i < total
        invariant
            i <= total,
            total == 2 * index + 1,
            index < n,
            data == stream_data@,
            lexer.bytes() == data,
            after_header(data, 0, i as nat) == Ok::<int, int>(lexer.cursor()),
        decreases total - i,
    {
        proof {
            lemma_header_step(data, 0, i as nat);
        }
        match expect_int(&mut lexer) {
            Ok(_) => {},
            Err(e) => {
                proof {
                    lemma_header_fails(data, (i + 1) as nat, total as nat);
                }
                return Err(e);
            },
        }
        i += 1;
    }
    let offset: u64 = match expect_int(&mut lexer) {
        Ok(offset) => offset,
        Err(e) => {
            return Err(e);
        },
    };
    if first > stream_data.len() || offset > (stream_data.len() - first) as u64 {
        let mut msg = "object stream offset ".to_owned();
        msg.append(text::decimal(offset).as_str());
        msg.append(" lies outside the stream");
        return Err(Error::Other(msg));
    }
    Parser::at(stream_data, first + offset as usize).parse_object(&NoResolve)
}

/// Reads one non-negative integer from the object-stream header.
fn expect_int(lexer: &mut Lexer) -> (out: Result<u64>)
    ensures
        final(lexer).bytes() == old(lexer).bytes(),
        final(lexer).cursor() == lexer::token_end(old(lexer).bytes(), old(lexer).cursor()),
        match out {
            Ok(v) => header_int(old(lexer).bytes(), old(lexer).cursor()) == Some(v as int),
            Err(e) => header_int(old(lexer).bytes(), old(lexer).cursor()) is None
                && error::is_syntax(e, final(lexer).cursor(), header_message()),
        },
{
    let token = lexer.next_token();
    if let Ok(Token::Int(v)) = token {
        if v >= 0 {
            return Ok(v as u64);
        }
    }
    Err(
        Error::Syntax {
            offset: lexer.pos(),
            msg: "malformed object stream header".to_owned(),
        },
    )
}

} // verus!
