//! The adaptive binary arithmetic decoder: it reads decisions from a codeword,
//! each with the estimate of a context that adapts as it is used.

use vstd::arithmetic::power2::*;
use vstd::prelude::*;

verus! {

/// How many states a context can be in.
pub const STATES: u8 = 47;

/// One state of the probability estimation: the size of the less probable
/// interval, the states that follow either decision, and whether the less
/// probable one changes which decision is the more probable.
#[derive(Debug, Clone, Copy, PartialEq, Eq, Structural)]
pub struct Row {
    pub qe: u32,
    pub mps_next: u8,
    pub lps_next: u8,
    pub switches: bool,
}

/// The states of the probability estimation.
pub open spec fn row_of(index: u8) -> Row {
    match index {
        0 => Row { qe: 0x5601, mps_next: 1, lps_next: 1, switches: true },
        1 => Row { qe: 0x3401, mps_next: 2, lps_next: 6, switches: false },
        2 => Row { qe: 0x1801, mps_next: 3, lps_next: 9, switches: false },
        3 => Row { qe: 0x0ac1, mps_next: 4, lps_next: 12, switches: false },
        4 => Row { qe: 0x0521, mps_next: 5, lps_next: 29, switches: false },
        5 => Row { qe: 0x0221, mps_next: 38, lps_next: 33, switches: false },
        6 => Row { qe: 0x5601, mps_next: 7, lps_next: 6, switches: true },
        7 => Row { qe: 0x5401, mps_next: 8, lps_next: 14, switches: false },
        8 => Row { qe: 0x4801, mps_next: 9, lps_next: 14, switches: false },
        9 => Row { qe: 0x3801, mps_next: 10, lps_next: 14, switches: false },
        10 => Row { qe: 0x3001, mps_next: 11, lps_next: 17, switches: false },
        11 => Row { qe: 0x2401, mps_next: 12, lps_next: 18, switches: false },
        12 => Row { qe: 0x1c01, mps_next: 13, lps_next: 20, switches: false },
        13 => Row { qe: 0x1601, mps_next: 29, lps_next: 21, switches: false },
        14 => Row { qe: 0x5601, mps_next: 15, lps_next: 14, switches: true },
        15 => Row { qe: 0x5401, mps_next: 16, lps_next: 14, switches: false },
        16 => Row { qe: 0x5101, mps_next: 17, lps_next: 15, switches: false },
        17 => Row { qe: 0x4801, mps_next: 18, lps_next: 16, switches: false },
        18 => Row { qe: 0x3801, mps_next: 19, lps_next: 17, switches: false },
        19 => Row { qe: 0x3401, mps_next: 20, lps_next: 18, switches: false },
        20 => Row { qe: 0x3001, mps_next: 21, lps_next: 19, switches: false },
        21 => Row { qe: 0x2801, mps_next: 22, lps_next: 19, switches: false },
        22 => Row { qe: 0x2401, mps_next: 23, lps_next: 20, switches: false },
        23 => Row { qe: 0x2201, mps_next: 24, lps_next: 21, switches: false },
        24 => Row { qe: 0x1c01, mps_next: 25, lps_next: 22, switches: false },
        25 => Row { qe: 0x1801, mps_next: 26, lps_next: 23, switches: false },
        26 => Row { qe: 0x1601, mps_next: 27, lps_next: 24, switches: false },
        27 => Row { qe: 0x1401, mps_next: 28, lps_next: 25, switches: false },
        28 => Row { qe: 0x1201, mps_next: 29, lps_next: 26, switches: false },
        29 => Row { qe: 0x1101, mps_next: 30, lps_next: 27, switches: false },
        30 => Row { qe: 0x0ac1, mps_next: 31, lps_next: 28, switches: false },
        31 => Row { qe: 0x09c1, mps_next: 32, lps_next: 29, switches: false },
        32 => Row { qe: 0x08a1, mps_next: 33, lps_next: 30, switches: false },
        33 => Row { qe: 0x0521, mps_next: 34, lps_next: 31, switches: false },
        34 => Row { qe: 0x0441, mps_next: 35, lps_next: 32, switches: false },
        35 => Row { qe: 0x02a1, mps_next: 36, lps_next: 33, switches: false },
        36 => Row { qe: 0x0221, mps_next: 37, lps_next: 34, switches: false },
        37 => Row { qe: 0x0141, mps_next: 38, lps_next: 35, switches: false },
        38 => Row { qe: 0x0111, mps_next: 39, lps_next: 36, switches: false },
        39 => Row { qe: 0x0085, mps_next: 40, lps_next: 37, switches: false },
        40 => Row { qe: 0x0049, mps_next: 41, lps_next: 38, switches: false },
        41 => Row { qe: 0x0025, mps_next: 42, lps_next: 39, switches: false },
        42 => Row { qe: 0x0015, mps_next: 43, lps_next: 40, switches: false },
        43 => Row { qe: 0x0009, mps_next: 44, lps_next: 41, switches: false },
        44 => Row { qe: 0x0005, mps_next: 45, lps_next: 42, switches: false },
        45 => Row { qe: 0x0001, mps_next: 45, lps_next: 43, switches: false },
        _ => Row { qe: 0x5601, mps_next: 46, lps_next: 46, switches: false },
    }
}

/// The states of the probability estimation.
fn row(index: u8) -> (out: Row)
    ensures
        out == row_of(index),
        0 < out.qe <= 0x5601,
        out.mps_next < STATES,
        out.lps_next < STATES,
{
    match index {
        0 => Row { qe: 0x5601, mps_next: 1, lps_next: 1, switches: true },
        1 => Row { qe: 0x3401, mps_next: 2, lps_next: 6, switches: false },
        2 => Row { qe: 0x1801, mps_next: 3, lps_next: 9, switches: false },
        3 => Row { qe: 0x0ac1, mps_next: 4, lps_next: 12, switches: false },
        4 => Row { qe: 0x0521, mps_next: 5, lps_next: 29, switches: false },
        5 => Row { qe: 0x0221, mps_next: 38, lps_next: 33, switches: false },
        6 => Row { qe: 0x5601, mps_next: 7, lps_next: 6, switches: true },
        7 => Row { qe: 0x5401, mps_next: 8, lps_next: 14, switches: false },
        8 => Row { qe: 0x4801, mps_next: 9, lps_next: 14, switches: false },
        9 => Row { qe: 0x3801, mps_next: 10, lps_next: 14, switches: false },
        10 => Row { qe: 0x3001, mps_next: 11, lps_next: 17, switches: false },
        11 => Row { qe: 0x2401, mps_next: 12, lps_next: 18, switches: false },
        12 => Row { qe: 0x1c01, mps_next: 13, lps_next: 20, switches: false },
        13 => Row { qe: 0x1601, mps_next: 29, lps_next: 21, switches: false },
        14 => Row { qe: 0x5601, mps_next: 15, lps_next: 14, switches: true },
        15 => Row { qe: 0x5401, mps_next: 16, lps_next: 14, switches: false },
        16 => Row { qe: 0x5101, mps_next: 17, lps_next: 15, switches: false },
        17 => Row { qe: 0x4801, mps_next: 18, lps_next: 16, switches: false },
        18 => Row { qe: 0x3801, mps_next: 19, lps_next: 17, switches: false },
        19 => Row { qe: 0x3401, mps_next: 20, lps_next: 18, switches: false },
        20 => Row { qe: 0x3001, mps_next: 21, lps_next: 19, switches: false },
        21 => Row { qe: 0x2801, mps_next: 22, lps_next: 19, switches: false },
        22 => Row { qe: 0x2401, mps_next: 23, lps_next: 20, switches: false },
        23 => Row { qe: 0x2201, mps_next: 24, lps_next: 21, switches: false },
        24 => Row { qe: 0x1c01, mps_next: 25, lps_next: 22, switches: false },
        25 => Row { qe: 0x1801, mps_next: 26, lps_next: 23, switches: false },
        26 => Row { qe: 0x1601, mps_next: 27, lps_next: 24, switches: false },
        27 => Row { qe: 0x1401, mps_next: 28, lps_next: 25, switches: false },
        28 => Row { qe: 0x1201, mps_next: 29, lps_next: 26, switches: false },
        29 => Row { qe: 0x1101, mps_next: 30, lps_next: 27, switches: false },
        30 => Row { qe: 0x0ac1, mps_next: 31, lps_next: 28, switches: false },
        31 => Row { qe: 0x09c1, mps_next: 32, lps_next: 29, switches: false },
        32 => Row { qe: 0x08a1, mps_next: 33, lps_next: 30, switches: false },
        33 => Row { qe: 0x0521, mps_next: 34, lps_next: 31, switches: false },
        34 => Row { qe: 0x0441, mps_next: 35, lps_next: 32, switches: false },
        35 => Row { qe: 0x02a1, mps_next: 36, lps_next: 33, switches: false },
        36 => Row { qe: 0x0221, mps_next: 37, lps_next: 34, switches: false },
        37 => Row { qe: 0x0141, mps_next: 38, lps_next: 35, switches: false },
        38 => Row { qe: 0x0111, mps_next: 39, lps_next: 36, switches: false },
        39 => Row { qe: 0x0085, mps_next: 40, lps_next: 37, switches: false },
        40 => Row { qe: 0x0049, mps_next: 41, lps_next: 38, switches: false },
        41 => Row { qe: 0x0025, mps_next: 42, lps_next: 39, switches: false },
        42 => Row { qe: 0x0015, mps_next: 43, lps_next: 40, switches: false },
        43 => Row { qe: 0x0009, mps_next: 44, lps_next: 41, switches: false },
        44 => Row { qe: 0x0005, mps_next: 45, lps_next: 42, switches: false },
        45 => Row { qe: 0x0001, mps_next: 45, lps_next: 43, switches: false },
        _ => Row { qe: 0x5601, mps_next: 46, lps_next: 46, switches: false },
    }
}

/// The adaptive estimate behind one kind of decision: its state and which
/// decision is the more probable.
#[derive(Debug, Clone, Copy, PartialEq, Eq, Structural)]
pub struct MqContext {
    index: u8,
    mps: u8,
}

/// What a context is.
#[verifier::ext_equal]
pub struct ContextV {
    pub index: u8,
    pub mps: u8,
}

impl View for MqContext {
    type V = ContextV;

    closed spec fn view(&self) -> ContextV {
        ContextV { index: self.index, mps: self.mps }
    }
}

/// The context that everything starts from.
pub open spec fn fresh() -> ContextV {
    ContextV { index: 0, mps: 0 }
}

/// Contexts that everything starts from.
pub open spec fn all_fresh(count: nat) -> Seq<ContextV> {
    Seq::new(count, |i: int| fresh())
}

/// Contexts in a row, one for each situation a decision is made in.
pub struct MqContexts {
    states: Vec<MqContext>,
}

impl View for MqContexts {
    type V = Seq<ContextV>;

    closed spec fn view(&self) -> Seq<ContextV> {
        Seq::new(self.states@.len(), |i: int| self.states@[i]@)
    }
}

impl MqContexts {
    #[verifier::type_invariant]
    spec fn valid(self) -> bool {
        forall|i: int|
            0 <= i < self.states@.len() ==> (#[trigger] self.states@[i]).index < STATES
                && self.states@[i].mps <= 1
    }

    /// `count` contexts, all fresh.
    pub fn new(count: usize) -> (out: MqContexts)
        ensures
            out@ == all_fresh(count as nat),
    {
        let mut states: Vec<MqContext> = Vec::new();
        let mut i: usize = 0;
        while i < count
            invariant
                i <= count,
                states@.len() == i,
                forall|j: int|
                    0 <= j < i ==> #[trigger] states@[j] == (MqContext { index: 0, mps: 0 }),
            decreases count - i,
        {
            states.push(MqContext { index: 0, mps: 0 });
            i += 1;
        }
        let out = MqContexts { states };
        assert(out@ =~= all_fresh(count as nat));
        out
    }

    /// How many contexts there are.
    pub fn len(&self) -> (out: usize)
        ensures
            out == self@.len(),
    {
        self.states.len()
    }
}

/// The arithmetic decoder over one codeword.
pub struct MqDecoder<'a> {
    data: &'a [u8],
    /// The byte that was taken in last.
    at: usize,
    /// The code register, of 32 bits.
    c: u64,
    /// The interval register.
    a: u32,
    /// How many bits can be shifted out before another byte is taken in.
    ct: u32,
}

/// What a decoder is.
#[verifier::ext_equal]
pub struct MqV {
    pub data: Seq<u8>,
    pub at: int,
    pub c: int,
    pub a: int,
    pub ct: int,
}

/// The byte at `i`; the codeword goes on with 0xFF for ever.
pub open spec fn byte_at(data: Seq<u8>, i: int) -> int {
    if 0 <= i < data.len() {
        data[i] as int
    } else {
        0xff
    }
}

/// A number cut to 32 bits.
pub open spec fn cut(v: int) -> int {
    v % 0x1_0000_0000
}

/// The decoder after taking in a byte. Behind a 0xFF byte a bit was stuffed,
/// unless a marker follows, which is never passed.
pub open spec fn byte_in(s: MqV) -> MqV {
    if byte_at(s.data, s.at) == 0xff {
        let next = byte_at(s.data, s.at + 1);
        if next > 0x8f {
            MqV { c: cut(s.c + 0xff00), ct: 8, ..s }
        } else {
            MqV { at: s.at + 1, c: cut(s.c + next * 0x200), ct: 7, ..s }
        }
    } else {
        let next = byte_at(s.data, s.at + 1);
        MqV { at: s.at + 1, c: cut(s.c + next * 0x100), ct: 8, ..s }
    }
}

/// The decoder at the start of a codeword.
pub open spec fn started(data: Seq<u8>) -> MqV {
    let s = byte_in(
        MqV { data, at: 0, c: byte_at(data, 0) * 0x1_0000, a: 0x8000, ct: 0 },
    );
    MqV { c: cut(s.c * 0x80), ct: s.ct - 7, ..s }
}

/// The decoder with its interval doubled until it is large enough again.
pub open spec fn renormalized(s: MqV) -> MqV
    decreases 0x1_0000 - s.a,
{
    let t = if s.ct == 0 {
        byte_in(s)
    } else {
        s
    };
    let u = MqV { c: cut(t.c * 2), a: t.a * 2, ct: t.ct - 1, ..t };
    if 0 < u.a < 0x8000 {
        renormalized(u)
    } else {
        u
    }
}

/// The context after the more probable decision.
pub open spec fn after_mps(cx: ContextV) -> ContextV {
    ContextV { index: row_of(cx.index).mps_next, mps: cx.mps }
}

/// The context after the less probable decision.
pub open spec fn after_lps(cx: ContextV) -> ContextV {
    ContextV {
        index: row_of(cx.index).lps_next,
        mps: if row_of(cx.index).switches {
            (1 - cx.mps) as u8
        } else {
            cx.mps
        },
    }
}

/// One decision: the bit, the decoder and the context after it.
pub open spec fn decision(s: MqV, cx: ContextV) -> (u8, MqV, ContextV) {
    let qe = row_of(cx.index).qe as int;
    let a = s.a - qe;
    let lps = (1 - cx.mps) as u8;
    if s.c / 0x1_0000 < qe {
        let t = renormalized(MqV { a: qe, ..s });
        if a < qe {
            (cx.mps, t, after_mps(cx))
        } else {
            (lps, t, after_lps(cx))
        }
    } else {
        let t = MqV { a, c: s.c - qe * 0x1_0000, ..s };
        if a >= 0x8000 {
            (cx.mps, t, cx)
        } else if a < qe {
            (lps, renormalized(t), after_lps(cx))
        } else {
            (cx.mps, renormalized(t), after_mps(cx))
        }
    }
}

/// One decision in the context at `i`: the bit, the decoder and the contexts
/// after it.
pub open spec fn decision_at(s: MqV, cxs: Seq<ContextV>, i: int) -> (u8, MqV, Seq<ContextV>) {
    let (bit, t, cx) = decision(s, cxs[i]);
    (bit, t, cxs.update(i, cx))
}

impl<'a> View for MqDecoder<'a> {
    type V = MqV;

    closed spec fn view(&self) -> MqV {
        MqV {
            data: self.data@,
            at: self.at as int,
            c: self.c as int,
            a: self.a as int,
            ct: self.ct as int,
        }
    }
}

impl<'a> MqDecoder<'a> {
    #[verifier::type_invariant]
    spec fn valid(self) -> bool {
        &&& self.at <= self.data@.len()
        &&& self.c < 0x1_0000_0000
        &&& 0x8000 <= self.a < 0x1_0000
        &&& self.ct <= 8
    }

    /// A decoder at the start of the codeword `data`.
    pub fn new(data: &'a [u8]) -> (out: MqDecoder<'a>)
        ensures
            out@ == started(data@),
    {
        let first: u64 = if data.len() > 0 {
            data[0] as u64
        } else {
            0xff
        };
        let (at, c, ct) = take_byte(data, 0, first * 0x1_0000);
        MqDecoder { data, at, c: (c * 0x80) % 0x1_0000_0000, a: 0x8000, ct: ct - 7 }
    }

    /// Reads one decision in the context at `i`.
    pub fn decode(&mut self, cxs: &mut MqContexts, i: usize) -> (out: u8)
        requires
            i < old(cxs)@.len(),
        ensures
            (out, final(self)@, final(cxs)@) == decision_at(old(self)@, old(cxs)@, i as int),
            out <= 1,
            final(cxs)@.len() == old(cxs)@.len(),
    {
        proof {
            use_type_invariant(&*self);
            use_type_invariant(&*cxs);
        }
        let ghost before = self@;
        let ghost contexts = cxs@;
        let cx: MqContext = cxs.states[i];
        assert(contexts[i as int] == cx@);
        let row = row(cx.index);
        let a: u32 = self.a - row.qe;
        let lps: u8 = 1 - cx.mps;
        let likely = MqContext { index: row.mps_next, mps: cx.mps };
        let unlikely = MqContext {
            index: row.lps_next,
            mps: if row.switches {
                lps
            } else {
                cx.mps
            },
        };
        let data: &'a [u8] = self.data;
        let high: u64 = self.c / 0x1_0000;
        if high < row.qe as u64 {
            let (at, c, interval, ct) = renormalize(data, self.at, self.c, row.qe, self.ct);
            *self = MqDecoder { data, at, c, a: interval, ct };
            if a < row.qe {
                set_context(cxs, i, likely);
                cx.mps
            } else {
                set_context(cxs, i, unlikely);
                lps
            }
        } else {
            let c: u64 = self.c - row.qe as u64 * 0x1_0000;
            if a >= 0x8000 {
                *self = MqDecoder { data, at: self.at, c, a, ct: self.ct };
                assert(contexts.update(i as int, contexts[i as int]) =~= contexts);
                cx.mps
            } else {
                let (at, c, interval, ct) = renormalize(data, self.at, c, a, self.ct);
                *self = MqDecoder { data, at, c, a: interval, ct };
                if a < row.qe {
                    set_context(cxs, i, unlikely);
                    lps
                } else {
                    set_context(cxs, i, likely);
                    cx.mps
                }
            }
        }
    }
}

/// Replaces the context at `i`.
fn set_context(cxs: &mut MqContexts, i: usize, cx: MqContext)
    requires
        i < old(cxs)@.len(),
        cx.index < STATES,
        cx.mps <= 1,
    ensures
        final(cxs)@ == old(cxs)@.update(i as int, cx@),
{
    proof {
        use_type_invariant(&*cxs);
    }
    let ghost before = cxs@;
    let mut states: Vec<MqContext> = Vec::new();
    std::mem::swap(&mut states, &mut cxs.states);
    states.set(i, cx);
    cxs.states = states;
    assert(cxs@ =~= before.update(i as int, cx@));
}

/// Takes in a byte: the place, the code register and the bits until the next.
fn take_byte(data: &[u8], at: usize, c: u64) -> (out: (usize, u64, u32))
    requires
        at <= data@.len(),
        c < 0x1_0000_0000,
    ensures
        forall|a: int, ct: int|
            #[trigger] byte_in(MqV { data: data@, at: at as int, c: c as int, a, ct }) == (MqV {
                data: data@,
                at: out.0 as int,
                c: out.1 as int,
                a,
                ct: out.2 as int,
            }),
        out.0 <= data@.len(),
        out.1 < 0x1_0000_0000,
        7 <= out.2 <= 8,
{
    let current: u64 = if at < data.len() {
        data[at] as u64
    } else {
        0xff
    };
    let next: u64 = if at < data.len() && at + 1 < data.len() {
        data[at + 1] as u64
    } else {
        0xff
    };
    if current == 0xff {
        if next > 0x8f {
            (at, (c + 0xff00) % 0x1_0000_0000, 8)
        } else {
            (at + 1, (c + next * 0x200) % 0x1_0000_0000, 7)
        }
    } else {
        (at + 1, (c + next * 0x100) % 0x1_0000_0000, 8)
    }
}

/// Doubles the interval until it is large enough again, taking in bytes as
/// they are needed.
fn renormalize(data: &[u8], at: usize, c: u64, a: u32, ct: u32) -> (out: (usize, u64, u32, u32))
    requires
        at <= data@.len(),
        c < 0x1_0000_0000,
        0 < a < 0x8000,
        ct <= 8,
    ensures
        renormalized(
            (MqV { data: data@, at: at as int, c: c as int, a: a as int, ct: ct as int }),
        ) == (MqV {
            data: data@,
            at: out.0 as int,
            c: out.1 as int,
            a: out.2 as int,
            ct: out.3 as int,
        }),
        out.0 <= data@.len(),
        out.1 < 0x1_0000_0000,
        0x8000 <= out.2 < 0x1_0000,
        out.3 <= 8,
{
    let ghost start = MqV { data: data@, at: at as int, c: c as int, a: a as int, ct: ct as int };
    let mut at: usize = at;
    let mut c: u64 = c;
    let mut a: u32 = a;
    let mut ct: u32 = ct;
    while a < 0x8000
        invariant
            at <= data@.len(),
            c < 0x1_0000_0000,
            0 < a < 0x1_0000,
            ct <= 8,
            a < 0x8000 ==> renormalized(start) == renormalized(
                (MqV { data: data@, at: at as int, c: c as int, a: a as int, ct: ct as int }),
            ),
            a >= 0x8000 ==> renormalized(start) == (MqV {
                data: data@,
                at: at as int,
                c: c as int,
                a: a as int,
                ct: ct as int,
            }),
        decreases 0x1_0000 - a,
    {
        if ct == 0 {
            let (next_at, next_c, next_ct) = take_byte(data, at, c);
            proof {
                let s = MqV { data: data@, at: at as int, c: c as int, a: a as int, ct: 0 };
                assert(byte_in(s) == (MqV {
                    data: data@,
                    at: next_at as int,
                    c: next_c as int,
                    a: a as int,
                    ct: next_ct as int,
                }));
            }
            at = next_at;
            c = next_c;
            ct = next_ct;
        }
        a = a * 2;
        c = (c * 2) % 0x1_0000_0000;
        ct -= 1;
    }
    (at, c, a, ct)
}

/// Law: the estimates. The probability of the less likely symbol in each state,
/// in units of which 0x8000 is three quarters, and the state that a less likely
/// symbol leads to. A more likely one leads to the next state, but for the ends
/// of the three learning runs and the two states that stay; the states 0, 6 and
/// 14 change which symbol is the likely one when they are wrong.
pub proof fn estimates_follow_the_table(index: u8)
    requires
        index <= 46,
    ensures
        row_of(index).qe == seq![
            0x5601u32, 0x3401, 0x1801, 0x0ac1, 0x0521, 0x0221, 0x5601, 0x5401, 0x4801, 0x3801,
            0x3001, 0x2401, 0x1c01, 0x1601, 0x5601, 0x5401, 0x5101, 0x4801, 0x3801, 0x3401,
            0x3001, 0x2801, 0x2401, 0x2201, 0x1c01, 0x1801, 0x1601, 0x1401, 0x1201, 0x1101,
            0x0ac1, 0x09c1, 0x08a1, 0x0521, 0x0441, 0x02a1, 0x0221, 0x0141, 0x0111, 0x0085,
            0x0049, 0x0025, 0x0015, 0x0009, 0x0005, 0x0001, 0x5601,
        ][index as int],
        row_of(index).lps_next == seq![
            1u8, 6, 9, 12, 29, 33, 6, 14, 14, 14, 17, 18, 20, 21, 14, 14, 15, 16, 17, 18, 19, 19,
            20, 21, 22, 23, 24, 25, 26, 27, 28, 29, 30, 31, 32, 33, 34, 35, 36, 37, 38, 39, 40,
            41, 42, 43, 46,
        ][index as int],
        row_of(index).mps_next == (if index == 5 {
            38
        } else if index == 13 {
            29
        } else if index >= 45 {
            index as int
        } else {
            index + 1
        }),
        row_of(index).switches <==> index == 0 || index == 6 || index == 14,
{
}

/// Law: of the two parts of the interval the larger stands for the more likely
/// symbol: the lower part is as large as the estimate, and the code falls in it
/// when its high half is below the estimate. The context then takes the state
/// that its symbol leads to, and a less likely symbol in a switching state
/// changes which one is likely.
pub proof fn the_larger_part_is_the_likely_one(s: MqV, cx: ContextV)
    requires
        cx.mps <= 1,
        cx.index <= 46,
        0x8000 <= s.a < 0x1_0000,
    ensures
        ({
            let qe = row_of(cx.index).qe as int;
            let (bit, t, after) = decision(s, cx);
            let lower = s.c / 0x1_0000 < qe;
            let lower_is_larger = qe > s.a - qe;
            &&& bit == cx.mps <==> lower == lower_is_larger
            &&& bit <= 1
            &&& bit != cx.mps ==> after.index == row_of(cx.index).lps_next
            &&& bit != cx.mps ==> (after.mps == cx.mps) == !row_of(cx.index).switches
            &&& bit == cx.mps ==> after.mps == cx.mps
            &&& bit == cx.mps && (lower || s.a - qe < 0x8000) ==> after.index == row_of(
                cx.index,
            ).mps_next
            &&& bit == cx.mps && !lower && s.a - qe >= 0x8000 ==> after == cx && t.a == s.a - qe
        }),
{
    estimates_follow_the_table(cx.index);
}

/// Law: how bytes come in. Behind any byte but 0xFF the next one brings eight
/// bits. Behind 0xFF it brings seven, one of its own being stuffed, unless it is
/// above 0x8F: then it is a marker, is never passed, and ones come in. Behind
/// the end of the data stand bytes 0xFF.
pub proof fn bytes_come_in_unstuffed(s: MqV)
    requires
        0 <= s.at,
        0 <= s.c < 0xff00_0000,
    ensures
        ({
            let here = if s.at < s.data.len() {
                s.data[s.at] as int
            } else {
                255
            };
            let next = if s.at + 1 < s.data.len() {
                s.data[s.at + 1] as int
            } else {
                255
            };
            let t = byte_in(s);
            &&& t.data == s.data && t.a == s.a
            &&& here != 255 ==> t.at == s.at + 1 && t.ct == 8 && t.c == s.c + 256 * next
            &&& here == 255 && next <= 143 ==> t.at == s.at + 1 && t.ct == 7 && t.c == s.c + 512
                * next
            &&& here == 255 && next > 143 ==> t.at == s.at && t.ct == 8 && t.c == s.c + 0xff00
        }),
{
}

/// Law: a decoder starts with its first two bytes in the code register, less
/// the seven bits that are shifted out, and the whole interval.
pub proof fn decoders_start_at_the_first_byte(data: Seq<u8>)
    requires
        data.len() >= 2,
        data[0] != 0xff,
    ensures
        started(data).a == 0x8000,
        started(data).at == 1,
        started(data).ct == 1,
        started(data).c == (data[0] * 0x1_0000 + data[1] * 0x100) * 0x80,
{
}

/// Law: every context starts undecided, taking 0 for the likely symbol.
pub proof fn contexts_start_undecided(count: nat, i: int)
    requires
        0 <= i < count,
    ensures
        all_fresh(count).len() == count,
        all_fresh(count)[i].index == 0,
        all_fresh(count)[i].mps == 0,
{
}

/// Law: a decision touches its own context and no other.
pub proof fn decisions_touch_their_context(s: MqV, cxs: Seq<ContextV>, i: int, j: int)
    requires
        0 <= i < cxs.len(),
        0 <= j < cxs.len(),
    ensures
        decision_at(s, cxs, i).0 == decision(s, cxs[i]).0,
        decision_at(s, cxs, i).1 == decision(s, cxs[i]).1,
        decision_at(s, cxs, i).2[i] == decision(s, cxs[i]).2,
        i != j ==> decision_at(s, cxs, i).2[j] == cxs[j],
{
}

/// Law: shifting ends with an interval of half the whole at least, and no
/// sooner: it doubles what it was by a power of two.
pub proof fn renormalizing_restores_the_interval(s: MqV)
    requires
        0 < s.a < 0x8000,
    ensures
        0x8000 <= renormalized(s).a < 0x1_0000,
        exists|k: nat| 1 <= k <= 16 && renormalized(s).a == s.a * #[trigger] pow2(k),
    decreases 0x1_0000 - s.a,
{
    lemma2_to64();
    let t = if s.ct == 0 {
        byte_in(s)
    } else {
        s
    };
    let u = MqV { c: cut(t.c * 2), a: t.a * 2, ct: t.ct - 1, ..t };
    if u.a < 0x8000 {
        renormalizing_restores_the_interval(u);
        let k = choose|k: nat| 1 <= k <= 16 && renormalized(u).a == u.a * #[trigger] pow2(k);
        lemma_pow2_unfold(k + 1);
        let p = pow2(k);
        let a = s.a;
        assert((2 * a) * p == a * (2 * p)) by (nonlinear_arith);
        if k == 16 {
            assert(u.a * 0x1_0000 >= 0x1_0000) by (nonlinear_arith)
                requires
                    u.a >= 1,
            ;
        }
        assert(renormalized(s).a == s.a * pow2(k + 1));
    } else {
        assert(renormalized(s).a == s.a * pow2(1));
    }
}

} // verus!
