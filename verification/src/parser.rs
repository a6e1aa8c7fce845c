//! Object parser built on the [`Lexer`], including indirect objects and
//! streams.

use crate::error;
use crate::error::{Error, Result};
use crate::lexer;
use crate::lexer::{copy_bytes, Lexer, Token, TokenV};
use crate::object;
use crate::object::{Dict, Name, ObjRef, Object, ObjectV, Stream, StreamV};
use crate::text;
use vstd::prelude::*;
use vstd::slice::slice_subrange;
use vstd::string::*;
use vstd::utf8::*;

verus! {

/// Maximum container (array/dictionary) nesting depth. Deeper input is
/// rejected with a syntax error: the parser recurses per nesting level, so
/// without a bound a tiny crafted file (e.g. 100k `[`s) overflows the
/// stack and aborts the whole process. Real documents nest a handful of
/// levels; 128 is far beyond anything legitimate.
pub const MAX_NESTING_DEPTH: usize = 128;

/// Resolves indirect references while parsing (e.g. an indirect `/Length`).
pub trait Resolve {
    /// What `resolve_ref` returns for `r`.
    spec fn resolved(&self, r: ObjRef) -> Option<ObjectV>;

    /// Returns the referenced object, or `None` if it cannot be resolved.
    fn resolve_ref(&self, r: ObjRef) -> (out: Option<Object>)
        ensures
            object::owned_view(out) == self.resolved(r),
    ;
}

/// A [`Resolve`] implementation that never resolves anything.
pub struct NoResolve;

impl Resolve for NoResolve {
    open spec fn resolved(&self, r: ObjRef) -> Option<ObjectV> {
        None
    }

    fn resolve_ref(&self, r: ObjRef) -> (out: Option<Object>) {
        None
    }
}

/// The bytes of a word.
pub open spec fn word(w: &str) -> Seq<u8> {
    encode_utf8(w@)
}

/// Whether `needle` occurs in `haystack` at `i`.
pub open spec fn occurs_at(haystack: Seq<u8>, needle: Seq<u8>, i: int) -> bool {
    0 <= i && i + needle.len() <= haystack.len() && haystack.subrange(i, i + needle.len())
        == needle
}

/// `memchr::memmem::find`: the index of the first occurrence of `needle` in
/// `haystack`, `None` if there is none.
#[verifier::external_body]
fn find(haystack: &[u8], needle: &[u8]) -> (out: Option<usize>)
    ensures
        match out {
            Some(i) => occurs_at(haystack@, needle@, i as int) && forall|j: int|
                0 <= j < i ==> !occurs_at(haystack@, needle@, j),
            None => forall|j: int| !occurs_at(haystack@, needle@, j),
        },
{
    memchr::memmem::find(haystack, needle)
}

/// An object and the position behind it, or the offset of an error and what
/// it says.
pub type ParseV = std::result::Result<(ObjectV, int), (int, Seq<char>)>;

/// The object that an integer begins: with a generation number and `R` behind
/// it a reference, else the integer itself.
pub open spec fn reference_or_int(data: Seq<u8>, num: i64, pos: int) -> (ObjectV, int) {
    let second = lexer::token_end(data, pos);
    match lexer::token_at(data, pos) {
        TokenV::Int(gen) => if 0 <= num <= u32::MAX && 0 <= gen <= u16::MAX && lexer::token_at(
            data,
            second,
        ) == TokenV::Keyword(word("R")) {
            (
                ObjectV::Ref(ObjRef { num: num as u32, gen: gen as u16 }),
                lexer::token_end(data, second),
            )
        } else {
            (ObjectV::Int(num), pos)
        },
        _ => (ObjectV::Int(num), pos),
    }
}

/// Where stream data starts behind the keyword that ends at `pos`: after CR,
/// LF or both.
pub open spec fn stream_start(data: Seq<u8>, pos: int) -> int {
    let p = if pos < data.len() && data[pos] == lexer::CR {
        pos + 1
    } else {
        pos
    };
    if p < data.len() && data[p] == lexer::LF {
        p + 1
    } else {
        p
    }
}

/// The length a stream dictionary declares, directly or by reference.
pub open spec fn declared_length<R: Resolve>(
    dict: Map<Seq<char>, ObjectV>,
    resolver: &R,
) -> Option<i64> {
    match object::lookup(dict, "Length"@) {
        Some(ObjectV::Int(n)) => Some(n),
        Some(ObjectV::Ref(r)) => match resolver.resolved(r) {
            Some(o) => o.integer(),
            None => None,
        },
        _ => None,
    }
}

/// Whether the declared length leads to the keyword `endstream`.
pub open spec fn length_holds(data: Seq<u8>, start: int, length: Option<i64>) -> bool {
    match length {
        Some(n) => 0 <= n && start + n <= data.len() && lexer::token_at(data, start + n)
            == TokenV::Keyword(word("endstream")),
        None => false,
    }
}

/// `end` without one end-of-line marker before it, but no earlier than
/// `start`.
pub open spec fn trim_eol(data: Seq<u8>, start: int, end: int) -> int {
    let e = if end > start && data[end - 1] == lexer::LF {
        end - 1
    } else {
        end
    };
    if e > start && data[e - 1] == lexer::CR {
        e - 1
    } else {
        e
    }
}

/// The stream whose data follows the keyword `stream` that ends at `pos`. Its
/// data has the declared length if that leads to `endstream`; else it reaches
/// to the first `endstream`, one end-of-line marker left out, or to the end
/// of the input.
pub open spec fn stream_body<R: Resolve>(
    data: Seq<u8>,
    resolver: &R,
    dict: Map<Seq<char>, ObjectV>,
    pos: int,
) -> (ObjectV, int) {
    let start = stream_start(data, pos);
    let length = declared_length(dict, resolver);
    let mark = word("endstream");
    if length_holds(data, start, length) {
        let end = start + length->0;
        (
            ObjectV::Stream(StreamV { dict, data: data.subrange(start, end) }),
            lexer::token_end(data, end),
        )
    } else if exists|i: int| occurs_at(data.skip(start), mark, i) {
        let i = first_occurrence(data.skip(start), mark);
        (
            ObjectV::Stream(
                StreamV { dict, data: data.subrange(start, trim_eol(data, start, start + i)) },
            ),
            start + i + mark.len(),
        )
    } else {
        (ObjectV::Stream(StreamV { dict, data: data.skip(start) }), data.len() as int)
    }
}

/// The index of the first occurrence.
pub open spec fn first_occurrence(haystack: Seq<u8>, needle: Seq<u8>) -> int {
    choose|i: int|
        #[trigger] occurs_at(haystack, needle, i) && forall|j: int|
            0 <= j < i ==> !occurs_at(haystack, needle, j)
}

/// The object that `token`, which ends at `pos`, begins inside `depth`
/// containers.
pub open spec fn object_from<R: Resolve>(
    data: Seq<u8>,
    resolver: &R,
    token: TokenV,
    pos: int,
    depth: int,
) -> ParseV
    decreases data.len() - pos, 2int,
{
    match token {
        TokenV::Int(i) => Ok(reference_or_int(data, i, pos)),
        TokenV::Real(r) => Ok((ObjectV::Real(r), pos)),
        TokenV::Name(n) => Ok((ObjectV::Name(n), pos)),
        TokenV::LitString(s) => Ok((ObjectV::String(s), pos)),
        TokenV::HexString(s) => Ok((ObjectV::String(s), pos)),
        TokenV::ArrayOpen => if depth >= MAX_NESTING_DEPTH {
            Err((pos, "container nesting too deep"@))
        } else {
            array_from(data, resolver, Seq::empty(), pos, depth)
        },
        TokenV::DictOpen => if depth >= MAX_NESTING_DEPTH {
            Err((pos, "container nesting too deep"@))
        } else {
            dict_from(data, resolver, Map::empty(), pos, depth)
        },
        TokenV::Keyword(k) => if k == word("true") {
            Ok((ObjectV::Bool(true), pos))
        } else if k == word("false") {
            Ok((ObjectV::Bool(false), pos))
        } else if k == word("null") {
            Ok((ObjectV::Null, pos))
        } else {
            Err((pos, "unexpected keyword `"@ + text::utf8_lossy(k) + "`"@))
        },
        TokenV::ArrayClose => Err((pos, "unexpected `]`"@)),
        TokenV::DictClose => Err((pos, "unexpected `>>`"@)),
        TokenV::Eof => Err((pos, "unexpected end of input"@)),
    }
}

/// The array that continues at `pos` behind `items`, up to `]` or the end of
/// the input.
pub open spec fn array_from<R: Resolve>(
    data: Seq<u8>,
    resolver: &R,
    items: Seq<ObjectV>,
    pos: int,
    depth: int,
) -> ParseV
    decreases data.len() - pos, 1int,
{
    let token = lexer::token_at(data, pos);
    let next = lexer::token_end(data, pos);
    if token == TokenV::ArrayClose || token == TokenV::Eof {
        Ok((ObjectV::Array(items), next))
    } else if !(pos < next <= data.len()) {
        Err((pos, Seq::empty()))
    } else {
        match object_from(data, resolver, token, next, depth + 1) {
            Ok((item, end)) => if next <= end <= data.len() {
                array_from(data, resolver, items.push(item), end, depth)
            } else {
                Err((end, Seq::empty()))
            },
            Err(e) => Err(e),
        }
    }
}

/// The dictionary or stream that continues at `pos` behind `entries`, up to
/// `>>` or the end of the input. A key without a value maps to null, a later
/// value replaces an earlier one, and an object that is no name in the place
/// of a key is passed over.
pub open spec fn dict_from<R: Resolve>(
    data: Seq<u8>,
    resolver: &R,
    entries: Map<Seq<char>, ObjectV>,
    pos: int,
    depth: int,
) -> ParseV
    decreases data.len() - pos, 1int,
{
    let token = lexer::token_at(data, pos);
    let next = lexer::token_end(data, pos);
    if token == TokenV::DictClose || token == TokenV::Eof {
        Ok(dict_or_stream(data, resolver, entries, next))
    } else if !(pos < next <= data.len()) {
        Err((pos, Seq::empty()))
    } else if let TokenV::Name(key) = token {
        let value = lexer::token_at(data, next);
        let behind = lexer::token_end(data, next);
        if value == TokenV::DictClose {
            Ok(dict_or_stream(data, resolver, entries.insert(key, ObjectV::Null), behind))
        } else if !(next <= behind <= data.len()) {
            Err((next, Seq::empty()))
        } else {
            match object_from(data, resolver, value, behind, depth + 1) {
                Ok((item, end)) => if behind <= end <= data.len() {
                    dict_from(data, resolver, entries.insert(key, item), end, depth)
                } else {
                    Err((end, Seq::empty()))
                },
                Err(e) => Err(e),
            }
        }
    } else {
        match object_from(data, resolver, token, next, depth + 1) {
            Ok((item, end)) => if next <= end <= data.len() {
                dict_from(data, resolver, entries, end, depth)
            } else {
                Err((end, Seq::empty()))
            },
            Err(e) => Err(e),
        }
    }
}

/// A dictionary closed at `pos`, or the stream it is the dictionary of.
pub open spec fn dict_or_stream<R: Resolve>(
    data: Seq<u8>,
    resolver: &R,
    entries: Map<Seq<char>, ObjectV>,
    pos: int,
) -> (ObjectV, int) {
    if lexer::token_at(data, pos) == TokenV::Keyword(word("stream")) {
        stream_body(data, resolver, entries, lexer::token_end(data, pos))
    } else {
        (ObjectV::Dict(entries), pos)
    }
}

/// The object that starts at `pos`.
pub open spec fn object_at<R: Resolve>(data: Seq<u8>, resolver: &R, pos: int) -> ParseV {
    object_from(data, resolver, lexer::token_at(data, pos), lexer::token_end(data, pos), 0)
}

/// An integer token within bounds.
pub open spec fn bounded_int(token: TokenV, max: int) -> Option<int> {
    match token {
        TokenV::Int(n) => if 0 <= n <= max {
            Some(n as int)
        } else {
            None
        },
        _ => None,
    }
}

/// The position behind `endobj` if that follows, else `pos`.
pub open spec fn after_endobj(data: Seq<u8>, pos: int) -> int {
    if lexer::token_at(data, pos) == TokenV::Keyword(word("endobj")) {
        lexer::token_end(data, pos)
    } else {
        pos
    }
}

/// The indirect object that starts at `pos`: its reference, the object, and
/// the position behind it.
pub open spec fn indirect_at<R: Resolve>(
    data: Seq<u8>,
    resolver: &R,
    pos: int,
) -> std::result::Result<(ObjRef, ObjectV, int), (int, Seq<char>)> {
    let first = lexer::token_end(data, pos);
    let second = lexer::token_end(data, first);
    let third = lexer::token_end(data, second);
    match bounded_int(lexer::token_at(data, pos), u32::MAX as int) {
        None => Err((first, "expected object number"@)),
        Some(num) => match bounded_int(lexer::token_at(data, first), u16::MAX as int) {
            None => Err((second, "expected generation number"@)),
            Some(gen) => {
                let r = ObjRef { num: num as u32, gen: gen as u16 };
                if lexer::token_at(data, second) != TokenV::Keyword(word("obj")) {
                    Err((third, "expected `obj`"@))
                } else if lexer::token_at(data, third) == TokenV::Keyword(word("endobj")) {
                    Ok((r, ObjectV::Null, after_endobj(data, third)))
                } else {
                    match object_at(data, resolver, third) {
                        Ok((o, end)) => Ok((r, o, after_endobj(data, end))),
                        Err(e) => Err(e),
                    }
                }
            },
        },
    }
}

/// Recursive-descent parser over a byte slice.
pub struct Parser<'a> {
    lexer: Lexer<'a>,
}

/// Whether a keyword token is the word `w`.
fn is_word(token: &Token, w: &str) -> (out: bool)
    ensures
        out == (token@ == TokenV::Keyword(word(w))),
{
    match token {
        Token::Keyword(k) => text::same_bytes(k, w.as_bytes()),
        _ => false,
    }
}

/// The value of an integer token from zero to `max`.
fn int_within(token: &Token, max: i64) -> (out: Option<i64>)
    ensures
        match out {
            Some(n) => bounded_int(token@, max as int) == Some(n as int),
            None => bounded_int(token@, max as int) is None,
        },
{
    match token {
        Token::Int(n) => if 0 <= *n && *n <= max {
            Some(*n)
        } else {
            None
        },
        _ => None,
    }
}

/// Whether a result is what the syntax at hand prescribes.
pub open spec fn agrees(out: Result<Object>, end: int, expected: ParseV) -> bool {
    match out {
        Ok(o) => expected == ParseV::Ok((o@, end)),
        Err(e) => expected is Err && error::is_syntax(e, expected->Err_0.0, expected->Err_0.1)
            && end == expected->Err_0.0,
    }
}

proof fn lemma_first_occurrence(haystack: Seq<u8>, needle: Seq<u8>, i: int)
    requires
        occurs_at(haystack, needle, i),
        forall|j: int| 0 <= j < i ==> !occurs_at(haystack, needle, j),
    ensures
        first_occurrence(haystack, needle) == i,
{
    let k = first_occurrence(haystack, needle);
    assert(occurs_at(haystack, needle, k) && forall|j: int|
        0 <= j < k ==> !occurs_at(haystack, needle, j));
}

impl<'a> Parser<'a> {
    /// The bytes the parser reads.
    pub closed spec fn bytes(self) -> Seq<u8> {
        self.lexer.bytes()
    }

    /// The position of the cursor.
    pub closed spec fn cursor(self) -> int {
        self.lexer.cursor()
    }

    /// Creates a parser at the start of `data`.
    pub fn new(data: &'a [u8]) -> (out: Self)
        ensures
            out.bytes() == data@,
            out.cursor() == 0,
    {
        Parser { lexer: Lexer::new(data) }
    }

    /// Creates a parser positioned at byte offset `pos`.
    pub fn at(data: &'a [u8], pos: usize) -> (out: Self)
        ensures
            out.bytes() == data@,
            out.cursor() == pos,
    {
        Parser { lexer: Lexer::at(data, pos) }
    }

    /// Current byte offset.
    pub fn pos(&self) -> (out: usize)
        ensures
            out == self.cursor(),
    {
        self.lexer.pos()
    }

    /// Moves the cursor to byte offset `pos`.
    pub fn seek(&mut self, pos: usize)
        ensures
            final(self).bytes() == old(self).bytes(),
            final(self).cursor() == pos,
    {
        self.lexer.seek(pos);
    }

    /// The next token, consumed.
    pub fn next_token(&mut self) -> (out: Token)
        ensures
            final(self).bytes() == old(self).bytes(),
            final(self).cursor() == lexer::token_end(old(self).bytes(), old(self).cursor()),
            out@ == lexer::token_at(old(self).bytes(), old(self).cursor()),
    {
        match self.lexer.next_token() {
            Ok(token) => token,
            Err(_) => Token::Eof,
        }
    }

    /// Parses one object at the current position. `int int R` becomes
    /// [`Object::Ref`] via lookahead with backtracking; dictionaries
    /// followed by `stream` become [`Object::Stream`] (using `resolver`
    /// for an indirect `/Length`, with `endstream` scan recovery).
    pub fn parse_object<R: Resolve>(&mut self, resolver: &R) -> (out: Result<Object>)
        ensures
            final(self).bytes() == old(self).bytes(),
            agrees(
                out,
                final(self).cursor(),
                object_at(old(self).bytes(), resolver, old(self).cursor()),
            ),
            old(self).cursor() <= old(self).bytes().len() ==> {
                &&& old(self).cursor() <= final(self).cursor()
                &&& final(self).cursor() <= old(self).bytes().len()
            },
    {
        proof {
            self.lexer.lemma_cursor();
            if self.cursor() <= self.bytes().len() {
                lexer::tokens_make_progress(self.bytes(), self.cursor());
            }
        }
        let token = self.next_token();
        self.parse_from_token(token, resolver, 0)
    }

    /// Builds a [`Error::Syntax`] at the current position.
    fn syntax(&self, msg: &str) -> (out: Error)
        ensures
            error::is_syntax(out, self.cursor(), msg@),
    {
        Error::Syntax { offset: self.lexer.pos(), msg: msg.to_owned() }
    }

    /// Parses the object that `token` begins. `depth` counts enclosing
    /// containers (bounded by `MAX_NESTING_DEPTH`).
    fn parse_from_token<R: Resolve>(
        &mut self,
        token: Token,
        resolver: &R,
        depth: usize,
    ) -> (out: Result<Object>)
        requires
            token@ == TokenV::Eof || old(self).cursor() <= old(self).bytes().len(),
        ensures
            final(self).bytes() == old(self).bytes(),
            agrees(
                out,
                final(self).cursor(),
                object_from(
                    old(self).bytes(),
                    resolver,
                    token@,
                    old(self).cursor(),
                    depth as int,
                ),
            ),
            old(self).cursor() <= old(self).bytes().len() ==> {
                &&& old(self).cursor() <= final(self).cursor()
                &&& final(self).cursor() <= old(self).bytes().len()
            },
        decreases old(self).bytes().len() - old(self).cursor(), 2int,
    {
        match token {
            Token::Int(i) => Ok(self.try_reference(i)),
            Token::Real(r) => Ok(Object::Real(r)),
            Token::Name(n) => Ok(Object::Name(n)),
            Token::LitString(s) => Ok(Object::String(s)),
            Token::HexString(s) => Ok(Object::String(s)),
            Token::ArrayOpen => self.parse_array(resolver, depth),
            Token::DictOpen => self.parse_dict_or_stream(resolver, depth),
            Token::Keyword(k) => if text::same_bytes(&k, "true".as_bytes()) {
                Ok(Object::Bool(true))
            } else if text::same_bytes(&k, "false".as_bytes()) {
                Ok(Object::Bool(false))
            } else if text::same_bytes(&k, "null".as_bytes()) {
                Ok(Object::Null)
            } else {
                let mut msg = "unexpected keyword `".to_owned();
                let found = text::from_utf8_lossy(&k);
                msg.append(found.as_str());
                msg.append("`");
                Err(self.syntax(msg.as_str()))
            },
            Token::ArrayClose => Err(self.syntax("unexpected `]`")),
            Token::DictClose => Err(self.syntax("unexpected `>>`")),
            Token::Eof => Err(self.syntax("unexpected end of input")),
        }
    }

    /// After an integer has been read: if `int R` follows, the three tokens
    /// form an indirect reference; otherwise the lexer is rewound so the
    /// integer stands alone.
    fn try_reference(&mut self, num: i64) -> (out: Object)
        requires
            old(self).cursor() <= old(self).bytes().len(),
        ensures
            final(self).bytes() == old(self).bytes(),
            (out@, final(self).cursor()) == reference_or_int(
                old(self).bytes(),
                num,
                old(self).cursor(),
            ),
            old(self).cursor() <= final(self).cursor() <= old(self).bytes().len(),
    {
        let save: usize = self.lexer.pos();
        let ghost data = self.bytes();
        proof {
            lexer::tokens_make_progress(data, save as int);
            lexer::tokens_make_progress(data, lexer::token_end(data, save as int));
        }
        if 0 <= num && num <= u32::MAX as i64 {
            if let Token::Int(gen) = self.next_token() {
                if 0 <= gen && gen <= u16::MAX as i64 {
                    let third = self.next_token();
                    if is_word(&third, "R") {
                        return Object::Ref(ObjRef { num: num as u32, gen: gen as u16 });
                    }
                }
            }
        }
        self.lexer.seek(save);
        Object::Int(num)
    }

    /// Parses array elements up to `]` (leniently also up to end of input).
    fn parse_array<R: Resolve>(&mut self, resolver: &R, depth: usize) -> (out: Result<Object>)
        requires
            old(self).cursor() <= old(self).bytes().len(),
        ensures
            final(self).bytes() == old(self).bytes(),
            agrees(
                out,
                final(self).cursor(),
                object_from(
                    old(self).bytes(),
                    resolver,
                    TokenV::ArrayOpen,
                    old(self).cursor(),
                    depth as int,
                ),
            ),
            old(self).cursor() <= final(self).cursor() <= old(self).bytes().len(),
        decreases old(self).bytes().len() - old(self).cursor(), 1int,
    {
        if depth >= MAX_NESTING_DEPTH {
            return Err(self.syntax("container nesting too deep"));
        }
        let ghost data = self.bytes();
        let ghost start = self.cursor();
        let ghost goal = array_from(data, resolver, Seq::empty(), start, depth as int);
        proof {
            self.lexer.lemma_cursor();
        }
        let mut items: Vec<Object> = Vec::new();
        assert(object::objects_view(items@) =~= Seq::<ObjectV>::empty());
        loop
            invariant
                data == self.bytes(),
                data == old(self).bytes(),
                start == old(self).cursor(),
                0 <= start <= self.cursor() <= data.len(),
                depth < MAX_NESTING_DEPTH,
                goal == array_from(
                    data,
                    resolver,
                    object::objects_view(items@),
                    self.cursor(),
                    depth as int,
                ),
                goal == object_from(data, resolver, TokenV::ArrayOpen, start, depth as int),
            decreases data.len() - self.cursor(),
        {
            proof {
                lexer::tokens_make_progress(data, self.cursor());
            }
            let token = self.next_token();
            match token {
                Token::ArrayClose => {
                    return Ok(Object::Array(items));
                },
                Token::Eof => {
                    return Ok(Object::Array(items));
                },
                other => {
                    match self.parse_from_token(other, resolver, depth + 1) {
                        Ok(item) => {
                            let ghost before = items@;
                            items.push(item);
                            assert(object::objects_view(items@) =~= object::objects_view(
                                before,
                            ).push(item@));
                        },
                        Err(e) => {
                            return Err(e);
                        },
                    }
                },
            }
        }
    }

    /// Parses dictionary entries up to `>>`; if the `stream` keyword follows,
    /// the dictionary becomes a stream's dictionary and the stream data is
    /// read as well.
    fn parse_dict_or_stream<R: Resolve>(&mut self, resolver: &R, depth: usize) -> (out: Result<
        Object,
    >)
        requires
            old(self).cursor() <= old(self).bytes().len(),
        ensures
            final(self).bytes() == old(self).bytes(),
            agrees(
                out,
                final(self).cursor(),
                object_from(
                    old(self).bytes(),
                    resolver,
                    TokenV::DictOpen,
                    old(self).cursor(),
                    depth as int,
                ),
            ),
            old(self).cursor() <= final(self).cursor() <= old(self).bytes().len(),
        decreases old(self).bytes().len() - old(self).cursor(), 1int,
    {
        if depth >= MAX_NESTING_DEPTH {
            return Err(self.syntax("container nesting too deep"));
        }
        let ghost data = self.bytes();
        let ghost start = self.cursor();
        let ghost goal = dict_from(data, resolver, Map::empty(), start, depth as int);
        proof {
            self.lexer.lemma_cursor();
        }
        let mut dict = Dict::new();
        loop
            invariant
                data == self.bytes(),
                data == old(self).bytes(),
                start == old(self).cursor(),
                0 <= start <= self.cursor() <= data.len(),
                depth < MAX_NESTING_DEPTH,
                goal == dict_from(data, resolver, dict@, self.cursor(), depth as int),
                goal == object_from(data, resolver, TokenV::DictOpen, start, depth as int),
            decreases data.len() - self.cursor(),
        {
            proof {
                lexer::tokens_make_progress(data, self.cursor());
                lexer::tokens_make_progress(data, lexer::token_end(data, self.cursor()));
            }
            let token = self.next_token();
            match token {
                Token::DictClose => {
                    return self.finish_dict(dict, resolver);
                },
                Token::Eof => {
                    return self.finish_dict(dict, resolver);
                },
                Token::Name(key) => {
                    let value = self.next_token();
                    if let Token::DictClose = value {
                        // Lenient: a key with no value maps to null.
                        let _ = dict.insert(key, Object::Null);
                        return self.finish_dict(dict, resolver);
                    }
                    match self.parse_from_token(value, resolver, depth + 1) {
                        Ok(item) => {
                            let _ = dict.insert(key, item);
                        },
                        Err(e) => {
                            return Err(e);
                        },
                    }
                },
                // Lenient: a non-name key is consumed as an object and dropped.
                other => {
                    match self.parse_from_token(other, resolver, depth + 1) {
                        Ok(_) => {},
                        Err(e) => {
                            return Err(e);
                        },
                    }
                },
            }
        }
    }

    /// The closed dictionary, or the stream that follows it.
    fn finish_dict<R: Resolve>(&mut self, dict: Dict, resolver: &R) -> (out: Result<Object>)
        requires
            old(self).cursor() <= old(self).bytes().len(),
        ensures
            final(self).bytes() == old(self).bytes(),
            out matches Ok(o) && (o@, final(self).cursor()) == dict_or_stream(
                old(self).bytes(),
                resolver,
                dict@,
                old(self).cursor(),
            ),
            old(self).cursor() <= final(self).cursor() <= old(self).bytes().len(),
    {
        let save: usize = self.lexer.pos();
        proof {
            lexer::tokens_make_progress(self.bytes(), self.cursor());
        }
        let token = self.next_token();
        if is_word(&token, "stream") {
            return Ok(self.parse_stream_body(dict, resolver));
        }
        self.lexer.seek(save);
        Ok(Object::Dict(dict))
    }

    /// Reads stream data after the `stream` keyword: skip the EOL after the
    /// keyword, take `/Length` bytes (resolving an indirect length via
    /// `resolver`), and verify `endstream` follows. When `/Length` is missing
    /// or wrong, recover by scanning for the nearest `endstream` and trimming
    /// one trailing EOL from the data.
    fn parse_stream_body<R: Resolve>(&mut self, dict: Dict, resolver: &R) -> (out: Object)
        requires
            old(self).cursor() <= old(self).bytes().len(),
        ensures
            final(self).bytes() == old(self).bytes(),
            (out@, final(self).cursor()) == stream_body(
                old(self).bytes(),
                resolver,
                dict@,
                old(self).cursor(),
            ),
            old(self).cursor() <= final(self).cursor() <= old(self).bytes().len(),
    {
        let data = self.lexer.data();
        let mut start: usize = self.lexer.pos();
        // The keyword should be followed by CRLF or LF; tolerate a lone CR.
        if start < data.len() && data[start] == lexer::CR {
            start += 1;
        }
        if start < data.len() && data[start] == lexer::LF {
            start += 1;
        }
        let declared: Option<i64> = match dict.get("Length") {
            Some(Object::Int(n)) => Some(*n),
            Some(Object::Ref(r)) => match resolver.resolve_ref(*r) {
                Some(o) => o.as_int(),
                None => None,
            },
            _ => None,
        };
        assert(declared == declared_length(dict@, resolver));
        if let Some(len) = declared {
            if len >= 0 && len as u64 <= (data.len() - start) as u64 {
                let end: usize = start + len as usize;
                proof {
                    lexer::tokens_make_progress(data@, end as int);
                }
                let mut probe = Lexer::at(data, end);
                let mark = probe.next_token();
                if let Ok(token) = mark {
                    if is_word(&token, "endstream") {
                        self.lexer.seek(probe.pos());
                        let body = copy_bytes(slice_subrange(data, start, end));
                        return Object::Stream(Stream { dict, data: body });
                    }
                }
            }
        }
        assert(!length_holds(data@, start as int, declared));
        let rest = slice_subrange(data, start, data.len());
        assert(rest@ =~= data@.skip(start as int));
        let mark = "endstream".as_bytes();
        match find(rest, mark) {
            Some(idx) => {
                proof {
                    lemma_first_occurrence(rest@, mark@, idx as int);
                }
                let mut end: usize = start + idx;
                if end > start && data[end - 1] == lexer::LF {
                    end -= 1;
                }
                if end > start && data[end - 1] == lexer::CR {
                    end -= 1;
                }
                self.lexer.seek(start + idx + mark.len());
                let body = copy_bytes(slice_subrange(data, start, end));
                Object::Stream(Stream { dict, data: body })
            },
            None => {
                // Lenient: an unterminated stream takes the rest of the input.
                self.lexer.seek(data.len());
                Object::Stream(Stream { dict, data: copy_bytes(rest) })
            },
        }
    }

    /// Expects `N G obj ... endobj` at the current position and returns the
    /// reference plus the contained object. Lenient: a missing `endobj` is
    /// accepted at the next `obj` or end of input.
    pub fn parse_indirect<R: Resolve>(&mut self, resolver: &R) -> (out: Result<(ObjRef, Object)>)
        ensures
            final(self).bytes() == old(self).bytes(),
            ({
                let expected = indirect_at(old(self).bytes(), resolver, old(self).cursor());
                match out {
                    Ok((r, o)) => expected == Ok::<_, (int, Seq<char>)>(
                        (r, o@, final(self).cursor()),
                    ),
                    Err(e) => expected is Err && error::is_syntax(
                        e,
                        expected->Err_0.0,
                        expected->Err_0.1,
                    ) && final(self).cursor() == expected->Err_0.0,
                }
            }),
    {
        let number = self.next_token();
        let num: u32 = match int_within(&number, u32::MAX as i64) {
            Some(n) => n as u32,
            None => {
                return Err(self.syntax("expected object number"));
            },
        };
        let generation = self.next_token();
        let gen: u16 = match int_within(&generation, u16::MAX as i64) {
            Some(g) => g as u16,
            None => {
                return Err(self.syntax("expected generation number"));
            },
        };
        let keyword = self.next_token();
        if !is_word(&keyword, "obj") {
            return Err(self.syntax("expected `obj`"));
        }
        // Lenient: an empty body (`N G obj endobj`) yields null.
        let body: usize = self.lexer.pos();
        let first = self.next_token();
        self.lexer.seek(body);
        let object = if is_word(&first, "endobj") {
            Object::Null
        } else {
            match self.parse_object(resolver) {
                Ok(object) => object,
                Err(e) => {
                    return Err(e);
                },
            }
        };
        // Lenient: consume `endobj` when present; a missing `endobj` is
        // accepted as-is (at the next `N G obj` header or end of input).
        let save: usize = self.lexer.pos();
        let last = self.next_token();
        if !is_word(&last, "endobj") {
            self.lexer.seek(save);
        }
        Ok((ObjRef { num, gen }, object))
    }
}

/// Parsing goes forward: an object ends behind its start and inside the data,
/// and an error is found inside the data and says what is wrong.
pub proof fn parsing_goes_forward<R: Resolve>(data: Seq<u8>, resolver: &R, pos: int)
    requires
        0 <= pos <= data.len(),
    ensures
        match object_at(data, resolver, pos) {
            Ok((_, end)) => pos < end <= data.len(),
            Err((at, msg)) => pos <= at <= data.len() && msg.len() > 0,
        },
{
    lexer::tokens_make_progress(data, pos);
    lemma_object_from(
        data,
        resolver,
        lexer::token_at(data, pos),
        lexer::token_end(data, pos),
        0,
    );
}

/// Whether a parse from `pos` on ended where it may.
spec fn ends_well(parsed: ParseV, data: Seq<u8>, pos: int) -> bool {
    match parsed {
        Ok((_, end)) => pos <= end <= data.len(),
        Err((at, msg)) => pos <= at <= data.len() && msg.len() > 0,
    }
}

proof fn lemma_object_from<R: Resolve>(
    data: Seq<u8>,
    resolver: &R,
    token: TokenV,
    pos: int,
    depth: int,
)
    requires
        0 <= pos <= data.len(),
    ensures
        ends_well(object_from(data, resolver, token, pos, depth), data, pos),
    decreases data.len() - pos, 2int,
{
    reveal_strlit("container nesting too deep");
    reveal_strlit("unexpected keyword `");
    reveal_strlit("unexpected `]`");
    reveal_strlit("unexpected `>>`");
    reveal_strlit("unexpected end of input");
    match token {
        TokenV::Int(_) => {
            lexer::tokens_make_progress(data, pos);
            lexer::tokens_make_progress(data, lexer::token_end(data, pos));
        },
        TokenV::ArrayOpen => {
            if depth < MAX_NESTING_DEPTH {
                lemma_array_from(data, resolver, Seq::empty(), pos, depth);
            }
        },
        TokenV::DictOpen => {
            if depth < MAX_NESTING_DEPTH {
                lemma_dict_from(data, resolver, Map::empty(), pos, depth);
            }
        },
        _ => {},
    }
}

proof fn lemma_array_from<R: Resolve>(
    data: Seq<u8>,
    resolver: &R,
    items: Seq<ObjectV>,
    pos: int,
    depth: int,
)
    requires
        0 <= pos <= data.len(),
    ensures
        ends_well(array_from(data, resolver, items, pos, depth), data, pos),
    decreases data.len() - pos, 1int,
{
    lexer::tokens_make_progress(data, pos);
    let token = lexer::token_at(data, pos);
    let next = lexer::token_end(data, pos);
    if token != TokenV::ArrayClose && token != TokenV::Eof {
        lemma_object_from(data, resolver, token, next, depth + 1);
        if let Ok((item, end)) = object_from(data, resolver, token, next, depth + 1) {
            lemma_array_from(data, resolver, items.push(item), end, depth);
        }
    }
}

proof fn lemma_dict_from<R: Resolve>(
    data: Seq<u8>,
    resolver: &R,
    entries: Map<Seq<char>, ObjectV>,
    pos: int,
    depth: int,
)
    requires
        0 <= pos <= data.len(),
    ensures
        ends_well(dict_from(data, resolver, entries, pos, depth), data, pos),
    decreases data.len() - pos, 1int,
{
    lexer::tokens_make_progress(data, pos);
    let token = lexer::token_at(data, pos);
    let next = lexer::token_end(data, pos);
    if token == TokenV::DictClose || token == TokenV::Eof {
        lemma_dict_or_stream(data, resolver, entries, next);
    } else if let TokenV::Name(key) = token {
        lexer::tokens_make_progress(data, next);
        let value = lexer::token_at(data, next);
        let behind = lexer::token_end(data, next);
        if value == TokenV::DictClose {
            lemma_dict_or_stream(data, resolver, entries.insert(key, ObjectV::Null), behind);
        } else {
            lemma_object_from(data, resolver, value, behind, depth + 1);
            if let Ok((item, end)) = object_from(data, resolver, value, behind, depth + 1) {
                lemma_dict_from(data, resolver, entries.insert(key, item), end, depth);
            }
        }
    } else {
        lemma_object_from(data, resolver, token, next, depth + 1);
        if let Ok((item, end)) = object_from(data, resolver, token, next, depth + 1) {
            lemma_dict_from(data, resolver, entries, end, depth);
        }
    }
}

proof fn lemma_dict_or_stream<R: Resolve>(
    data: Seq<u8>,
    resolver: &R,
    entries: Map<Seq<char>, ObjectV>,
    pos: int,
)
    requires
        0 <= pos <= data.len(),
    ensures
        pos <= dict_or_stream(data, resolver, entries, pos).1 <= data.len(),
{
    lexer::tokens_make_progress(data, pos);
    lemma_stream_body(data, resolver, entries, lexer::token_end(data, pos));
}

proof fn lemma_stream_body<R: Resolve>(
    data: Seq<u8>,
    resolver: &R,
    entries: Map<Seq<char>, ObjectV>,
    pos: int,
)
    requires
        0 <= pos <= data.len(),
    ensures
        pos <= stream_body(data, resolver, entries, pos).1 <= data.len(),
{
    let start = stream_start(data, pos);
    let length = declared_length(entries, resolver);
    let mark = word("endstream");
    assert(pos <= start <= data.len());
    if length_holds(data, start, length) {
        lemma_token_inside(data, start + length->0);
    } else if exists|i: int| occurs_at(data.skip(start), mark, i) {
        lemma_mark_inside(data.skip(start), mark);
    }
}

/// A token that starts inside the data ends there.
proof fn lemma_token_inside(data: Seq<u8>, pos: int)
    requires
        0 <= pos <= data.len(),
    ensures
        pos <= lexer::token_end(data, pos) <= data.len(),
{
    lexer::tokens_make_progress(data, pos);
}

/// What occurs somewhere first occurs inside.
proof fn lemma_mark_inside(haystack: Seq<u8>, needle: Seq<u8>)
    requires
        exists|i: int| occurs_at(haystack, needle, i),
    ensures
        0 <= first_occurrence(haystack, needle) <= haystack.len() - needle.len(),
{
    let i = choose|i: int| occurs_at(haystack, needle, i);
    lemma_some_first(haystack, needle, i);
}

/// Where something occurs, it occurs a first time.
proof fn lemma_some_first(haystack: Seq<u8>, needle: Seq<u8>, i: int)
    requires
        occurs_at(haystack, needle, i),
    ensures
        occurs_at(haystack, needle, first_occurrence(haystack, needle)),
    decreases i,
{
    if exists|j: int| 0 <= j < i && #[trigger] occurs_at(haystack, needle, j) {
        let j = choose|j: int| 0 <= j < i && #[trigger] occurs_at(haystack, needle, j);
        lemma_some_first(haystack, needle, j);
    } else {
        lemma_first_occurrence(haystack, needle, i);
    }
}

/// Law: the one line end before the end mark of a stream is no part of its data:
/// a line feed, a carriage return, or both in that order.
pub proof fn one_line_end_is_trimmed(body: Seq<u8>, start: int)
    requires
        0 <= start <= body.len(),
    ensures
        ({
            let len = body.len() as int;
            &&& trim_eol(body + seq![13u8, 10u8], start, len + 2) == len
            &&& trim_eol(body + seq![13u8], start, len + 1) == len
            &&& (len == start || body.last() != 13) ==> trim_eol(
                body + seq![10u8],
                start,
                len + 1,
            ) == len
            &&& (len == start || (body.last() != 13 && body.last() != 10)) ==> trim_eol(
                body,
                start,
                len,
            ) == len
        }),
{
    let len = body.len() as int;
    let a = body + seq![13u8, 10u8];
    assert(a[len] == 13 && a[len + 1] == 10);
    let b = body + seq![13u8];
    assert(b[len] == 13);
    let c = body + seq![10u8];
    assert(c[len] == 10);
    if len > start {
        assert(c[len - 1] == body.last());
        assert(body[len - 1] == body.last());
    }
}

/// Law: the data of a stream begins behind the line end that follows its
/// keyword: a carriage return and a line feed, or one of the two, or nothing.
pub proof fn streams_begin_behind_their_line_end(data: Seq<u8>, pos: int)
    requires
        0 <= pos <= data.len(),
    ensures
        pos + 1 < data.len() && data[pos] == 13 && data[pos + 1] == 10 ==> stream_start(data, pos)
            == pos + 2,
        pos < data.len() && data[pos] == 10 ==> stream_start(data, pos) == pos + 1,
        pos < data.len() && data[pos] == 13 && !(pos + 1 < data.len() && data[pos + 1] == 10)
            ==> stream_start(data, pos) == pos + 1,
        pos == data.len() || (data[pos] != 13 && data[pos] != 10) ==> stream_start(data, pos) == pos,
{
}

/// Law: two integers and the keyword R are a reference, as long as they fit an
/// object number and a generation; otherwise the first integer stands alone and
/// nothing behind it is taken.
pub proof fn references_need_a_number_a_generation_and_r(data: Seq<u8>, num: i64, pos: int, gen: i64)
    ensures
        ({
            let second = lexer::token_end(data, pos);
            let named = lexer::token_at(data, pos) == TokenV::Int(gen) && lexer::token_at(
                data,
                second,
            ) == TokenV::Keyword(word("R"));
            let (o, end) = reference_or_int(data, num, pos);
            &&& named && 0 <= num < 0x1_0000_0000 && 0 <= gen < 0x1_0000 ==> o == ObjectV::Ref(
                ObjRef { num: num as u32, gen: gen as u16 },
            ) && end == lexer::token_end(data, second)
            &&& named && !(0 <= num < 0x1_0000_0000 && 0 <= gen < 0x1_0000) ==> o == ObjectV::Int(
                num,
            ) && end == pos
            &&& !(lexer::token_at(data, pos) is Int) ==> o == ObjectV::Int(num) && end == pos
            &&& lexer::token_at(data, second) != TokenV::Keyword(word("R")) ==> o == ObjectV::Int(
                num,
            ) && end == pos
        }),
{
}

/// Law: an array or a dictionary that the data ends in holds what was read of
/// it.
pub proof fn unclosed_containers_end_with_the_data<R: Resolve>(
    data: Seq<u8>,
    resolver: &R,
    items: Seq<ObjectV>,
    entries: Map<Seq<char>, ObjectV>,
    pos: int,
    depth: int,
)
    requires
        lexer::token_at(data, pos) == TokenV::Eof,
        lexer::token_at(data, lexer::token_end(data, pos)) == TokenV::Eof,
    ensures
        array_from(data, resolver, items, pos, depth) == ParseV::Ok(
            (ObjectV::Array(items), lexer::token_end(data, pos)),
        ),
        dict_from(data, resolver, entries, pos, depth) == ParseV::Ok(
            (ObjectV::Dict(entries), lexer::token_end(data, pos)),
        ),
{
}

/// Law: containers nest up to 128 deep.
pub proof fn nesting_is_limited<R: Resolve>(data: Seq<u8>, resolver: &R, pos: int, depth: int)
    ensures
        depth >= 128 ==> object_from(data, resolver, TokenV::ArrayOpen, pos, depth) is Err,
        depth >= 128 ==> object_from(data, resolver, TokenV::DictOpen, pos, depth) is Err,
        depth < 128 ==> object_from(data, resolver, TokenV::ArrayOpen, pos, depth) == array_from(
            data,
            resolver,
            Seq::empty(),
            pos,
            depth,
        ),
        depth < 128 ==> object_from(data, resolver, TokenV::DictOpen, pos, depth) == dict_from(
            data,
            resolver,
            Map::empty(),
            pos,
            depth,
        ),
{
}

/// Law: a declared length counts only where the end mark follows the data it
/// measures; it may stand in the dictionary or behind a reference.
pub proof fn lengths_must_end_at_the_mark<R: Resolve>(
    data: Seq<u8>,
    resolver: &R,
    dict: Map<Seq<char>, ObjectV>,
    start: int,
    n: i64,
    r: ObjRef,
)
    ensures
        dict.contains_key("Length"@) && dict["Length"@] == ObjectV::Int(n) ==> declared_length(
            dict,
            resolver,
        ) == Some(n),
        dict.contains_key("Length"@) && dict["Length"@] == ObjectV::Ref(r) && resolver.resolved(r)
            == Some(ObjectV::Int(n)) ==> declared_length(dict, resolver) == Some(n),
        length_holds(data, start, Some(n)) <==> (0 <= n && start + n <= data.len()
            && lexer::token_at(data, start + n) == TokenV::Keyword(word("endstream"))),
        !length_holds(data, start, None),
{
}

/// Law: what an indirect object is: a number and a generation that fit, `obj`, and
/// an object, which is null where the end mark follows at once; the end mark may
/// be missing.
pub proof fn indirect_objects_are_numbered<R: Resolve>(
    data: Seq<u8>,
    resolver: &R,
    pos: int,
    num: i64,
    gen: i64,
)
    requires
        lexer::token_at(data, pos) == TokenV::Int(num),
        lexer::token_at(data, lexer::token_end(data, pos)) == TokenV::Int(gen),
    ensures
        ({
            let second = lexer::token_end(data, lexer::token_end(data, pos));
            let third = lexer::token_end(data, second);
            let out = indirect_at(data, resolver, pos);
            let fits = 0 <= num <= 0xffff_ffff && 0 <= gen <= 0xffff;
            let marked = lexer::token_at(data, second) == TokenV::Keyword(word("obj"));
            let empty = lexer::token_at(data, third) == TokenV::Keyword(word("endobj"));
            let r = ObjRef { num: num as u32, gen: gen as u16 };
            &&& !fits || !marked ==> out is Err
            &&& fits && marked && empty ==> out == Ok::<
                (ObjRef, ObjectV, int),
                (int, Seq<char>),
            >((r, ObjectV::Null, lexer::token_end(data, third)))
            &&& fits && marked && !empty ==> match object_at(data, resolver, third) {
                Err(_) => out is Err,
                Ok((o, end)) => out matches Ok((s, p, after)) && s == r && p == o && after == (
                if lexer::token_at(data, end) == TokenV::Keyword(word("endobj")) {
                    lexer::token_end(data, end)
                } else {
                    end
                }),
            }
        }),
{
}

/// Law: without a length that holds, the data of a stream goes to the first end
/// mark, less one line end, and without one to the end of the file.
pub proof fn unmeasured_streams_end_at_the_mark<R: Resolve>(
    data: Seq<u8>,
    resolver: &R,
    dict: Map<Seq<char>, ObjectV>,
    pos: int,
    i: int,
)
    requires
        !length_holds(data, stream_start(data, pos), declared_length(dict, resolver)),
    ensures
        ({
            let start = stream_start(data, pos);
            let rest = data.skip(start);
            let mark = word("endstream");
            let out = stream_body(data, resolver, dict, pos);
            &&& occurs_at(rest, mark, i) && (forall|j: int|
                0 <= j < i ==> !occurs_at(rest, mark, j)) ==> out == (
                ObjectV::Stream(
                    StreamV { dict, data: data.subrange(start, trim_eol(data, start, start + i)) },
                ),
                start + i + mark.len(),
            )
            &&& (forall|j: int| !occurs_at(rest, mark, j)) ==> out == (
                ObjectV::Stream(StreamV { dict, data: rest }),
                data.len() as int,
            )
        }),
{
    let start = stream_start(data, pos);
    let rest = data.skip(start);
    let mark = word("endstream");
    if occurs_at(rest, mark, i) && (forall|j: int| 0 <= j < i ==> !occurs_at(rest, mark, j)) {
        let k = first_occurrence(rest, mark);
        assert(occurs_at(rest, mark, k) && forall|j: int|
            0 <= j < k ==> !occurs_at(rest, mark, j));
        assert(k == i);
    }
}

} // verus!
