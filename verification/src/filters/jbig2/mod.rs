//! The parts of a JBIG2 decoder that a text region needs: the bit and byte
//! cursors, the arithmetic and prefix coders, bitmaps and their refinement,
//! and the placement of symbols itself.

use vstd::prelude::*;

pub mod arith_int;
pub mod bitmap;
pub mod bits;
pub mod budget;
pub mod huffman;
pub mod mq;
pub mod reader;
pub mod refinement;
pub mod segment;
pub mod text_region;
pub mod values;
pub mod walk;

verus! {

/// Why a segment could not be decoded.
#[derive(Debug, Clone, Copy, PartialEq, Eq)]
pub enum Jbig2Error {
    /// The coded data contradicts itself or the format.
    Malformed(&'static str),
    /// The data ends before what it declares.
    Truncated,
    /// The stream's allowance of decoding work is spent.
    WorkLimit,
}

/// What an error says.
pub enum FaultV {
    Malformed(Seq<char>),
    Truncated,
    WorkLimit,
}

impl View for Jbig2Error {
    type V = FaultV;

    open spec fn view(&self) -> FaultV {
        match self {
            Jbig2Error::Malformed(what) => FaultV::Malformed(what@),
            Jbig2Error::Truncated => FaultV::Truncated,
            Jbig2Error::WorkLimit => FaultV::WorkLimit,
        }
    }
}

/// What comes of a step of decoding.
pub type Outcome<T> = std::result::Result<T, FaultV>;

/// What comes of a step of decoding that works on a state: the value and the
/// state behind it, or the fault and the state it stopped in.
pub type Step<T, S> = std::result::Result<(T, S), (FaultV, S)>;

} // verus!
