//! A cursor over the bytes of a segment.

use crate::filters::jbig2::{FaultV, Jbig2Error, Step};
use vstd::prelude::*;
use vstd::slice::slice_subrange;

verus! {

/// A cursor over the bytes of a segment; its fields are big-endian.
pub struct Reader<'a> {
    data: &'a [u8],
    pos: usize,
}

/// The first byte of what is left.
pub open spec fn byte_of(left: Seq<u8>) -> Step<u8, Seq<u8>> {
    if left.len() >= 1 {
        Ok((left[0], left.skip(1)))
    } else {
        Err((FaultV::Truncated, left))
    }
}

/// The 16-bit number at the front of what is left.
pub open spec fn word_of(left: Seq<u8>) -> Step<u16, Seq<u8>> {
    if left.len() >= 2 {
        Ok(((left[0] * 0x100 + left[1]) as u16, left.skip(2)))
    } else {
        Err((FaultV::Truncated, left))
    }
}

/// The 32-bit number at the front of what is left.
pub open spec fn long_of(left: Seq<u8>) -> Step<u32, Seq<u8>> {
    if left.len() >= 4 {
        Ok(
            (
                (left[0] * 0x100_0000 + left[1] * 0x1_0000 + left[2] * 0x100 + left[3]) as u32,
                left.skip(4),
            ),
        )
    } else {
        Err((FaultV::Truncated, left))
    }
}

impl<'a> Reader<'a> {
    #[verifier::type_invariant]
    spec fn inside(self) -> bool {
        self.pos <= self.data@.len()
    }

    /// The bytes still to be read.
    pub closed spec fn left(&self) -> Seq<u8> {
        self.data@.skip(self.pos as int)
    }

    /// A cursor at the start of `data`.
    pub fn new(data: &'a [u8]) -> (out: Reader<'a>)
        ensures
            out.left() == data@,
    {
        let out = Reader { data, pos: 0 };
        assert(out.left() =~= data@);
        out
    }

    /// The next byte.
    pub fn u8(&mut self) -> (out: Result<u8, Jbig2Error>)
        ensures
            match out {
                Ok(v) => byte_of(old(self).left()) == Step::<u8, Seq<u8>>::Ok(
                    (v, final(self).left()),
                ),
                Err(e) => byte_of(old(self).left()) == Step::<u8, Seq<u8>>::Err(
                    (e@, final(self).left()),
                ),
            },
    {
        proof {
            use_type_invariant(&*self);
        }
        let pos: usize = self.pos;
        if self.data.len() - pos < 1 {
            return Err(Jbig2Error::Truncated);
        }
        let v: u8 = self.data[pos];
        assert(self.data@.skip(pos as int).skip(1) =~= self.data@.skip(pos + 1));
        self.pos = pos + 1;
        Ok(v)
    }

    /// The next 16-bit number.
    pub fn u16(&mut self) -> (out: Result<u16, Jbig2Error>)
        ensures
            match out {
                Ok(v) => word_of(old(self).left()) == Step::<u16, Seq<u8>>::Ok(
                    (v, final(self).left()),
                ),
                Err(e) => word_of(old(self).left()) == Step::<u16, Seq<u8>>::Err(
                    (e@, final(self).left()),
                ),
            },
    {
        proof {
            use_type_invariant(&*self);
        }
        let pos: usize = self.pos;
        if self.data.len() - pos < 2 {
            return Err(Jbig2Error::Truncated);
        }
        let v: u16 = self.data[pos] as u16 * 0x100 + self.data[pos + 1] as u16;
        assert(self.data@.skip(pos as int).skip(2) =~= self.data@.skip(pos + 2));
        self.pos = pos + 2;
        Ok(v)
    }

    /// The next 32-bit number.
    pub fn u32(&mut self) -> (out: Result<u32, Jbig2Error>)
        ensures
            match out {
                Ok(v) => long_of(old(self).left()) == Step::<u32, Seq<u8>>::Ok(
                    (v, final(self).left()),
                ),
                Err(e) => long_of(old(self).left()) == Step::<u32, Seq<u8>>::Err(
                    (e@, final(self).left()),
                ),
            },
    {
        proof {
            use_type_invariant(&*self);
        }
        let pos: usize = self.pos;
        if self.data.len() - pos < 4 {
            return Err(Jbig2Error::Truncated);
        }
        let v: u32 = self.data[pos] as u32 * 0x100_0000 + self.data[pos + 1] as u32 * 0x1_0000
            + self.data[pos + 2] as u32 * 0x100 + self.data[pos + 3] as u32;
        assert(self.data@.skip(pos as int).skip(4) =~= self.data@.skip(pos + 4));
        self.pos = pos + 4;
        Ok(v)
    }

    /// Everything still to be read.
    pub fn rest(&self) -> (out: &'a [u8])
        ensures
            out@ == self.left(),
    {
        proof {
            use_type_invariant(self);
        }
        let out = slice_subrange(self.data, self.pos, self.data.len());
        assert(out@ =~= self.left());
        out
    }
}

/// A 32-bit number as four bytes, the highest first.
pub open spec fn long_bytes(v: u32) -> Seq<u8> {
    seq![
        (v / 0x100_0000) as u8,
        (v / 0x1_0000 % 0x100) as u8,
        (v / 0x100 % 0x100) as u8,
        (v % 0x100) as u8,
    ]
}

/// Law: numbers are read back from their bytes, the highest first.
pub proof fn numbers_read_back(v: u32, w: u16, rest: Seq<u8>)
    ensures
        long_of(long_bytes(v) + rest) == Step::<u32, Seq<u8>>::Ok((v, rest)),
        word_of(seq![(w / 0x100) as u8, (w % 0x100) as u8] + rest) == Step::<u16, Seq<u8>>::Ok(
            (w, rest),
        ),
{
    let long = long_bytes(v) + rest;
    assert(long.skip(4) =~= rest);
    assert(long[0] == (v / 0x100_0000) as u8 && long[1] == (v / 0x1_0000 % 0x100) as u8 && long[2]
        == (v / 0x100 % 0x100) as u8 && long[3] == (v % 0x100) as u8);
    let word = seq![(w / 0x100) as u8, (w % 0x100) as u8] + rest;
    assert(word.skip(2) =~= rest);
}

} // verus!
