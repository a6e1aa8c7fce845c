//! The errors of the library.

use vstd::prelude::*;

verus! {

/// Why an operation failed.
#[derive(Debug, PartialEq)]
pub enum Error {
    /// The bytes at `offset` do not follow the syntax.
    Syntax { offset: usize, msg: String },
    /// A stream's data could not be decoded.
    Decode(String),
    /// A stream names a filter the library does not decode.
    UnsupportedFilter(String),
    /// A dictionary lacks a required entry.
    MissingKey(&'static str),
    /// A reference chain, last seen at this object number, does not end.
    CircularReference(u32),
    /// Anything else.
    Other(String),
}

/// The result of an operation that can fail.
pub type Result<T> = std::result::Result<T, Error>;

/// Whether `e` is a syntax error at `offset` that says `msg`.
pub open spec fn is_syntax(e: Error, offset: int, msg: Seq<char>) -> bool {
    match e {
        Error::Syntax { offset: o, msg: m } => o == offset && m@ == msg,
        _ => false,
    }
}

/// Whether `e` is a decoding error that says `msg`.
pub open spec fn is_decode(e: Error, msg: Seq<char>) -> bool {
    match e {
        Error::Decode(m) => m@ == msg,
        _ => false,
    }
}

} // verus!
