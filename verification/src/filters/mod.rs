//! Stream filters: the chain a stream's `/Filter` describes, LZWDecode and
//! RunLengthDecode, plus the PNG/TIFF predictors. `DCTDecode` and `JPXDecode`
//! are passthrough (decoded at the image layer); `Crypt` and the rest are
//! unsupported.
//!
//! The codecs that are no part of this module — `FlateDecode`,
//! `ASCIIHexDecode`, `ASCII85Decode`, `CCITTFaxDecode` and `JBIG2Decode` —
//! suspend a chain: [`decode_stream`] hands out the bytes and parameters such
//! a stage is to decode, and [`Suspended::resume`] takes what came of it.
//!
//! Passthrough is reserved for codecs a consumer of the decoded bytes can
//! actually read. Every other codec is rejected rather than handed back,
//! because a caller cannot tell an undecoded codestream from decoded stream
//! data and would paint it as pixel samples.

use crate::error;
use crate::error::{Error, Result};
use crate::number;
use crate::object;
use crate::object::{Dict, Name, ObjRef, Object, ObjectV, Stream, StreamV};
use crate::parser::Resolve;
use crate::source;
use crate::source::{ObjectSource, SourceV};
use crate::text;
use crate::tree;
use vstd::prelude::*;
use vstd::string::*;

pub mod jbig2;
pub mod lzw;
pub mod predictor;
pub mod run_length;

verus! {

/// Upper bound on the decoded size of a stream, enforced inside every
/// expanding decoder and after each chain stage. Without it a crafted
/// "decompression bomb" (e.g. chained FlateDecode stages, each ~1000:1)
/// turns a few KiB of input into tens of GiB of allocations.
pub const MAX_DECODED_LEN: usize = 0x1000_0000;  // 256 MiB

/// The model of a parameter dictionary that may be absent.
pub open spec fn parms_view(parms: Option<&Dict>) -> Option<Map<Seq<char>, ObjectV>> {
    match parms {
        Some(d) => Some(d@),
        None => None,
    }
}

/// The integer under `key`: reals truncated, booleans as 0 or 1, `default`
/// for anything else.
pub open spec fn parm_int(
    parms: Option<Map<Seq<char>, ObjectV>>,
    key: Seq<char>,
    default: i64,
) -> int {
    match parms {
        Some(d) => match object::lookup(d, key) {
            Some(ObjectV::Int(v)) => v as int,
            Some(ObjectV::Real(v)) => number::saturated(v.bits, i64::MIN as int, i64::MAX as int),
            Some(ObjectV::Bool(v)) => if v {
                1
            } else {
                0
            },
            _ => default as int,
        },
        None => default as int,
    }
}

/// Reads an integer-valued entry from an optional parameter dictionary,
/// coercing reals (truncated) and booleans; anything else yields `default`.
pub fn int_parm(parms: Option<&Dict>, key: &str, default: i64) -> (out: i64)
    ensures
        out == parm_int(parms_view(parms), key@, default),
{
    match parms {
        Some(d) => match d.get(key) {
            Some(Object::Int(v)) => *v,
            Some(Object::Real(v)) => v.to_i64(),
            Some(Object::Bool(v)) => if *v {
                1
            } else {
                0
            },
            _ => default,
        },
        None => default,
    }
}

/// Reads a boolean-valued entry from an optional parameter dictionary,
/// coercing integers (nonzero is true, matching the coercion [`int_parm`]
/// makes in the other direction); anything else yields `default`.
pub fn bool_parm(parms: Option<&Dict>, key: &str, default: bool) -> (out: bool)
    ensures
        out == (match parms_view(parms) {
            Some(d) => match object::lookup(d, key@) {
                Some(ObjectV::Bool(v)) => v,
                Some(ObjectV::Int(v)) => v != 0,
                _ => default,
            },
            None => default,
        }),
{
    match parms {
        Some(d) => match d.get(key) {
            Some(Object::Bool(v)) => *v,
            Some(Object::Int(v)) => *v != 0,
            _ => default,
        },
        None => default,
    }
}

/// Upper bound on the number of entries honored in a `/Filter` array;
/// genuine chains are at most a handful of filters long.
pub const MAX_FILTER_CHAIN: usize = 32;

/// Returns true for the six PDF whitespace bytes: NUL, HT, LF, FF, CR and SP.
pub fn is_pdf_whitespace(b: u8) -> (out: bool)
    ensures
        out == crate::lexer::whitespace(b),
{
    b == 0 || b == 9 || b == 10 || b == 12 || b == 13 || b == 32
}

/// The codecs a chain is suspended for.
#[derive(Debug, Clone, Copy, PartialEq, Eq, Structural)]
pub enum Codec {
    Flate,
    AsciiHex,
    Ascii85,
    CcittFax,
    Jbig2,
}

/// What a filter does at its place in a chain.
#[derive(Debug, Clone, Copy, PartialEq, Eq, Structural)]
pub enum Action {
    /// LZWDecode.
    Lzw,
    /// RunLengthDecode.
    RunLength,
    /// A codec the chain is suspended for.
    Outside(Codec),
    /// An image codec whose data stays encoded.
    Keep,
    /// Nothing this module knows of.
    Unsupported,
}

/// The action of the filter `name`; `last` says whether no filter follows.
/// The image codecs and JBIG2 are accepted at the end of a chain only.
pub open spec fn action_of(name: Seq<char>, last: bool) -> Action {
    if name == "FlateDecode"@ || name == "Fl"@ {
        Action::Outside(Codec::Flate)
    } else if name == "LZWDecode"@ || name == "LZW"@ {
        Action::Lzw
    } else if name == "ASCIIHexDecode"@ || name == "AHx"@ {
        Action::Outside(Codec::AsciiHex)
    } else if name == "ASCII85Decode"@ || name == "A85"@ {
        Action::Outside(Codec::Ascii85)
    } else if name == "RunLengthDecode"@ || name == "RL"@ {
        Action::RunLength
    } else if name == "CCITTFaxDecode"@ || name == "CCF"@ {
        Action::Outside(Codec::CcittFax)
    } else if name == "JBIG2Decode"@ && last {
        Action::Outside(Codec::Jbig2)
    } else if image_codec(name) && last {
        Action::Keep
    } else {
        Action::Unsupported
    }
}

/// The names of the two image codecs.
pub open spec fn image_codec(name: Seq<char>) -> bool {
    name == "DCTDecode"@ || name == "DCT"@ || name == "JPXDecode"@
}

/// Whether `name` (abbreviations included) is one of the two image codecs
/// [`decode_stream`] passes through still encoded — `DCTDecode` and
/// `JPXDecode`. Their decoded form exists only at the image layer; every
/// other consumer of stream bytes must refuse them, because a raw JPEG or
/// JPEG 2000 codestream is indistinguishable from decoded data to anything
/// that is not an image decoder.
pub fn is_image_codec(name: &str) -> (out: bool)
    ensures
        out == image_codec(name@),
{
    text::same(name, "DCTDecode") || text::same(name, "DCT") || text::same(name, "JPXDecode")
}

/// The action of a filter at its place in a chain.
fn filter_action(name: &str, last: bool) -> (out: Action)
    ensures
        out == action_of(name@, last),
{
    if text::same(name, "FlateDecode") || text::same(name, "Fl") {
        Action::Outside(Codec::Flate)
    } else if text::same(name, "LZWDecode") || text::same(name, "LZW") {
        Action::Lzw
    } else if text::same(name, "ASCIIHexDecode") || text::same(name, "AHx") {
        Action::Outside(Codec::AsciiHex)
    } else if text::same(name, "ASCII85Decode") || text::same(name, "A85") {
        Action::Outside(Codec::Ascii85)
    } else if text::same(name, "RunLengthDecode") || text::same(name, "RL") {
        Action::RunLength
    } else if text::same(name, "CCITTFaxDecode") || text::same(name, "CCF") {
        Action::Outside(Codec::CcittFax)
    } else if last && text::same(name, "JBIG2Decode") {
        Action::Outside(Codec::Jbig2)
    } else if last && is_image_codec(name) {
        Action::Keep
    } else {
        Action::Unsupported
    }
}

/// The object that `o` leads to through `resolver` in at most `hops` steps.
pub open spec fn followed<R: Resolve>(resolver: &R, o: ObjectV, hops: nat) -> Option<ObjectV>
    decreases hops,
{
    if hops == 0 {
        None
    } else {
        match o {
            ObjectV::Ref(r) => match resolver.resolved(r) {
                Some(next) => followed(resolver, next, (hops - 1) as nat),
                None => None,
            },
            _ => Some(o),
        }
    }
}

/// What a value that may be absent leads to through `resolver`.
pub open spec fn value_of<R: Resolve>(resolver: &R, o: Option<ObjectV>) -> Option<ObjectV> {
    match o {
        Some(o) => followed(resolver, o, source::MAX_RESOLVE_DEPTH as nat),
        None => None,
    }
}

/// Chases indirect references through `resolver`, depth-capped at
/// [`source::MAX_RESOLVE_DEPTH`] to break reference cycles; direct objects
/// are cloned. Returns `None` when a reference cannot be resolved.
///
/// The cap is that of the source-level chase on purpose: the test for an image
/// codec reads `/Filter` through the source and the decoder reads it here, and
/// a chain one side followed further than the other would be a stream that the
/// one takes for an image and the other leaves encoded.
fn resolve_value<R: Resolve>(obj: Option<&Object>, resolver: &R) -> (out: Option<Object>)
    ensures
        object::owned_view(out) == value_of(resolver, object::opt_view(obj)),
{
    let mut current = match obj {
        Some(o) => o.clone(),
        None => {
            return None;
        },
    };
    let ghost goal = value_of(resolver, object::opt_view(obj));
    let mut hops: usize = source::MAX_RESOLVE_DEPTH;
    while hops > 0
        invariant
            hops <= source::MAX_RESOLVE_DEPTH,
            goal == value_of(resolver, object::opt_view(obj)),
            goal == followed(resolver, current@, hops as nat),
        decreases hops,
    {
        match current {
            Object::Ref(r) => match resolver.resolve_ref(r) {
                Some(next) => {
                    current = next;
                },
                None => {
                    return None;
                },
            },
            other => {
                return Some(other);
            },
        }
        hops -= 1;
    }
    None
}

/// A dictionary with every value followed, null where that fails.
pub open spec fn followed_values<R: Resolve>(
    resolver: &R,
    d: Map<Seq<char>, ObjectV>,
) -> Map<Seq<char>, ObjectV> {
    d.map_values(
        |v: ObjectV|
            match value_of(resolver, Some(v)) {
                Some(o) => o,
                None => ObjectV::Null,
            },
    )
}

/// Clones `dict` with every value resolved through `resolver`, so that the
/// individual decoders never see indirect references. Unresolvable values
/// become `null` (and thus fall back to their defaults).
fn resolve_dict_values<R: Resolve>(dict: &Dict, resolver: &R) -> (out: Dict)
    ensures
        out@ == followed_values(resolver, dict@),
{
    let mut out = Dict::new();
    let entries = dict.iter();
    let ghost goal = followed_values(resolver, dict@);
    let mut i: usize = 0;
    while i < entries.len()
        invariant
            i <= entries@.len(),
            goal == followed_values(resolver, dict@),
            forall|j: int|
                0 <= j < entries@.len() ==> object::lookup(dict@, #[trigger] entries@[j].0@)
                    == Some(entries@[j].1@),
            forall|j: int|
                0 <= j < i ==> object::lookup(out@, #[trigger] entries@[j].0@) == object::lookup(
                    goal,
                    entries@[j].0@,
                ),
            forall|key: Seq<char>|
                #[trigger] out@.contains_key(key) ==> goal.contains_key(key) && out@[key]
                    == goal[key],
        decreases entries@.len() - i,
    {
        let (key, value) = entries[i];
        let resolved = match resolve_value(Some(value), resolver) {
            Some(o) => o,
            None => Object::Null,
        };
        let ghost before = out@;
        assert(object::lookup(dict@, entries@[i as int].0@) == Some(value@));
        assert(goal.contains_key(key@) && goal[key@] == resolved@);
        let _ = out.insert(key.clone(), resolved);
        i += 1;
    }
    proof {
        assert forall|key: Seq<char>| goal.contains_key(key) implies out@.contains_key(key) by {
            assert(dict@.contains_key(key));
            let j = choose|j: int| 0 <= j < entries@.len() && #[trigger] entries@[j].0@ == key;
            assert(object::lookup(out@, entries@[j].0@) == object::lookup(goal, key));
        }
        assert(out@ =~= goal);
    }
    out
}

/// The parameters of the filter at `index`: a single dictionary belongs to
/// the first filter, an array aligns by position.
pub open spec fn parms_for<R: Resolve>(
    resolver: &R,
    parms: Option<ObjectV>,
    index: int,
) -> Option<Map<Seq<char>, ObjectV>> {
    match parms {
        Some(ObjectV::Dict(d)) => if index == 0 {
            Some(followed_values(resolver, d))
        } else {
            None
        },
        Some(ObjectV::Array(items)) => if index < items.len() {
            match value_of(resolver, Some(items[index])) {
                Some(ObjectV::Dict(d)) => Some(followed_values(resolver, d)),
                _ => None,
            }
        } else {
            None
        },
        _ => None,
    }
}

/// The model of a dictionary that may be absent.
pub open spec fn dict_opt(d: Option<Dict>) -> Option<Map<Seq<char>, ObjectV>> {
    match d {
        Some(d) => Some(d@),
        None => None,
    }
}

/// Extracts the parameter dictionary for the filter at `index` from the
/// resolved `/DecodeParms` value. A single dictionary applies to the first
/// filter; an array aligns by position; `null` or missing entries mean no
/// parameters.
fn parms_at<R: Resolve>(parms: Option<&Object>, index: usize, resolver: &R) -> (out: Option<Dict>)
    ensures
        dict_opt(out) == parms_for(resolver, object::opt_view(parms), index as int),
{
    match parms {
        Some(Object::Dict(d)) => if index == 0 {
            Some(resolve_dict_values(d, resolver))
        } else {
            None
        },
        Some(Object::Array(items)) => if index < items.len() {
            match resolve_value(Some(&items[index]), resolver) {
                Some(Object::Dict(d)) => Some(resolve_dict_values(&d, resolver)),
                _ => None,
            }
        } else {
            None
        },
        _ => None,
    }
}

/// A filter at its place in a chain.
pub struct Stage {
    pub name: Name,
    pub parms: Option<Dict>,
    /// Whether no filter follows.
    pub last: bool,
}

/// What a stage is.
#[verifier::ext_equal]
pub struct StageV {
    pub name: Seq<char>,
    pub parms: Option<Map<Seq<char>, ObjectV>>,
    pub last: bool,
}

impl View for Stage {
    type V = StageV;

    open spec fn view(&self) -> StageV {
        StageV { name: self.name@, parms: dict_opt(self.parms), last: self.last }
    }
}

/// The stages of a chain.
pub open spec fn stages_view(stages: Seq<Stage>) -> Seq<StageV> {
    Seq::new(stages.len(), |i: int| stages[i]@)
}

/// The positions and names of the filters in a `/Filter` array: what is no
/// name is skipped.
pub open spec fn named_filters<R: Resolve>(
    resolver: &R,
    items: Seq<ObjectV>,
) -> Seq<(int, Seq<char>)>
    decreases items.len(),
{
    if items.len() == 0 {
        Seq::empty()
    } else {
        let before = named_filters(resolver, items.drop_last());
        match value_of(resolver, Some(items.last())) {
            Some(ObjectV::Name(n)) => before.push((items.len() - 1, n)),
            _ => before,
        }
    }
}

/// The positions and names of the filters of a stream dictionary, none for an
/// unusable `/Filter` value.
pub open spec fn chain_names<R: Resolve>(
    resolver: &R,
    dict: Map<Seq<char>, ObjectV>,
) -> Seq<(int, Seq<char>)> {
    match value_of(resolver, object::lookup(dict, "Filter"@)) {
        Some(ObjectV::Name(n)) => seq![(0int, n)],
        Some(ObjectV::Array(items)) => named_filters(resolver, items),
        _ => Seq::empty(),
    }
}

/// The stages of a stream's chain.
pub open spec fn chain_stages<R: Resolve>(
    resolver: &R,
    dict: Map<Seq<char>, ObjectV>,
) -> Seq<StageV> {
    let names = chain_names(resolver, dict);
    let parms = value_of(resolver, object::lookup(dict, "DecodeParms"@));
    Seq::new(
        names.len(),
        |i: int|
            StageV {
                name: names[i].1,
                parms: parms_for(resolver, parms, names[i].0),
                last: i == names.len() - 1,
            },
    )
}

/// What came of running a chain as far as this module can.
pub enum ChainV {
    /// The decoded data.
    Done(Seq<u8>),
    /// A codec is to decode `data`, then the chain goes on with `rest`.
    Waiting {
        codec: Codec,
        parms: Option<Map<Seq<char>, ObjectV>>,
        data: Seq<u8>,
        rest: Seq<StageV>,
    },
    /// The filter of this name is unsupported.
    Unsupported(Seq<char>),
    /// Decoding failed with this message.
    Failed(Seq<char>),
}

/// What a chain goes on to with the data that a stage has decoded: no stage
/// may hand oversized data to the next one.
pub open spec fn stage_done(stages: Seq<StageV>, data: Seq<u8>) -> ChainV
    decreases stages.len(), 1int,
{
    if data.len() > MAX_DECODED_LEN {
        ChainV::Failed("decoded stream exceeds size limit"@)
    } else {
        run_chain(stages, data)
    }
}

/// What the stages make of `data`, one after the other.
pub open spec fn run_chain(stages: Seq<StageV>, data: Seq<u8>) -> ChainV
    decreases stages.len(), 0int,
{
    if stages.len() == 0 {
        ChainV::Done(data)
    } else {
        let stage = stages[0];
        let rest = stages.drop_first();
        match action_of(stage.name, stage.last) {
            Action::Unsupported => ChainV::Unsupported(stage.name),
            Action::Outside(codec) => ChainV::Waiting { codec, parms: stage.parms, data, rest },
            Action::Keep => stage_done(rest, data),
            Action::Lzw => {
                let bytes = lzw::lzw_bytes(data, lzw::early_change(stage.parms));
                if bytes.len() > MAX_DECODED_LEN {
                    ChainV::Failed("lzw: decoded stream exceeds size limit"@)
                } else {
                    stage_done(rest, predictor::post_passed(bytes, stage.parms))
                }
            },
            Action::RunLength => {
                let bytes = run_length::runs(data, 0);
                if bytes.len() > MAX_DECODED_LEN {
                    ChainV::Failed("run-length: decoded stream exceeds size limit"@)
                } else {
                    stage_done(rest, bytes)
                }
            },
        }
    }
}

/// What is wrong with a chain of `n` filters.
pub open spec fn chain_message(n: nat) -> Seq<char> {
    "filter chain of "@ + text::decimal_numeral(n) + " entries exceeds the limit of "@
        + text::decimal_numeral(MAX_FILTER_CHAIN as nat)
}

/// What a stream's chain makes of its data.
pub open spec fn stream_chain<R: Resolve>(resolver: &R, s: StreamV) -> ChainV {
    let stages = chain_stages(resolver, s.dict);
    if stages.len() > MAX_FILTER_CHAIN {
        ChainV::Failed(chain_message(stages.len()))
    } else {
        run_chain(stages, s.data)
    }
}

/// A chain run as far as this module can.
pub enum Decoding {
    /// The decoded data.
    Done(Vec<u8>),
    /// A codec is to decode some data first.
    Waiting(Suspended),
}

/// A chain that waits for a codec.
pub struct Suspended {
    /// The codec that is to decode `data`.
    pub codec: Codec,
    /// Its `/DecodeParms`, resolved.
    pub parms: Option<Dict>,
    /// What it is to decode.
    pub data: Vec<u8>,
    /// The stages that follow.
    pub rest: Vec<Stage>,
}

/// Whether a result is what a chain comes to.
pub open spec fn comes_to(out: Result<Decoding>, expected: ChainV) -> bool {
    match expected {
        ChainV::Done(data) => out matches Ok(Decoding::Done(d)) && d@ == data,
        ChainV::Waiting { codec, parms, data, rest } => out matches Ok(Decoding::Waiting(w))
            && w.codec == codec && dict_opt(w.parms) == parms && w.data@ == data && stages_view(
            w.rest@,
        ) == rest,
        ChainV::Unsupported(name) => out matches Err(Error::UnsupportedFilter(n)) && n@ == name,
        ChainV::Failed(msg) => out matches Err(e) && error::is_decode(e, msg),
    }
}

/// Runs the stages over `data` up to the end or to the first codec that is no
/// part of this module.
fn run(stages: Vec<Stage>, input: Vec<u8>) -> (out: Result<Decoding>)
    ensures
        comes_to(out, run_chain(stages_view(stages@), input@)),
{
    let ghost goal = run_chain(stages_view(stages@), input@);
    let mut left = stages;
    let mut data = input;
    loop
        invariant
            goal == run_chain(stages_view(stages@), input@),
            goal == run_chain(stages_view(left@), data@),
        decreases left@.len(),
    {
        if left.len() == 0 {
            return Ok(Decoding::Done(data));
        }
        let ghost all = stages_view(left@);
        let stage = left.remove(0);
        assert(stages_view(left@) =~= all.drop_first());
        let decoded = match filter_action(stage.name.0.as_str(), stage.last) {
            Action::Unsupported => {
                return Err(Error::UnsupportedFilter(stage.name.0));
            },
            Action::Outside(codec) => {
                return Ok(
                    Decoding::Waiting(Suspended { codec, parms: stage.parms, data, rest: left }),
                );
            },
            Action::Keep => Ok(data),
            Action::Lzw => lzw::decode(&data, stage.parms.as_ref()),
            Action::RunLength => run_length::decode(&data),
        };
        match decoded {
            Ok(bytes) => {
                if bytes.len() > MAX_DECODED_LEN {
                    return Err(Error::Decode("decoded stream exceeds size limit".to_owned()));
                }
                data = bytes;
            },
            Err(e) => {
                return Err(e);
            },
        }
    }
}

impl Suspended {
    /// Goes on with what the codec made of the data.
    pub fn resume(self, decoded: Vec<u8>) -> (out: Result<Decoding>)
        ensures
            comes_to(out, stage_done(stages_view(self.rest@), decoded@)),
    {
        if decoded.len() > MAX_DECODED_LEN {
            return Err(Error::Decode("decoded stream exceeds size limit".to_owned()));
        }
        run(self.rest, decoded)
    }
}

/// The model of positions and names.
spec fn names_view(names: Seq<(usize, Name)>) -> Seq<(int, Seq<char>)> {
    Seq::new(names.len(), |i: int| (names[i].0 as int, names[i].1@))
}

/// The names in a `/Filter` value with their positions. Filters keep their
/// original position so that `/DecodeParms` arrays stay aligned even when
/// unusable (e.g. null) entries are skipped.
fn filter_names<R: Resolve>(dict: &Dict, resolver: &R) -> (out: Vec<(usize, Name)>)
    ensures
        names_view(out@) == chain_names(resolver, dict@),
{
    let mut names: Vec<(usize, Name)> = Vec::new();
    match resolve_value(dict.get("Filter"), resolver) {
        Some(Object::Name(n)) => {
            names.push((0, n));
            assert(names_view(names@) =~= seq![(0int, n@)]);
        },
        Some(Object::Array(items)) => {
            let ghost all = object::objects_view(items@);
            let mut i: usize = 0;
            assert(all.take(0) =~= Seq::<ObjectV>::empty());
            assert(names_view(names@) =~= Seq::<(int, Seq<char>)>::empty());
            while i < items.len()
                invariant
                    i <= items@.len(),
                    all == object::objects_view(items@),
                    names_view(names@) == named_filters(resolver, all.take(i as int)),
                decreases items@.len() - i,
            {
                let ghost before = names@;
                proof {
                    assert(all.take(i + 1).drop_last() =~= all.take(i as int));
                    assert(all.take(i + 1).last() == items@[i as int]@);
                }
                if let Some(Object::Name(n)) = resolve_value(Some(&items[i]), resolver) {
                    names.push((i, n));
                    assert(names_view(names@) =~= names_view(before).push((i as int, n@)));
                }
                i += 1;
            }
            assert(all.take(i as int) =~= all);
        },
        _ => {
            // Lenient: an unusable /Filter value leaves the data as stored.
            assert(names_view(names@) =~= Seq::<(int, Seq<char>)>::empty());
        },
    }
    names
}

/// Applies the stream's `/Filter` chain (name or array) with the matching
/// `/DecodeParms` (dict, array, or null) in order and returns the decoded
/// bytes, or the chain suspended at a codec that is no part of this module.
/// Three filters are accepted only as the last element of the chain: the
/// passthroughs `DCTDecode` and `JPXDecode`, and `JBIG2Decode`, whose codec
/// reads the stream dictionary the chain belongs to. `CCITTFaxDecode` is not
/// among them — it consumes only the bytes it is handed, so it decodes at any
/// position. `Crypt` and unknown filters yield [`Error::UnsupportedFilter`].
pub fn decode_stream<R: Resolve>(stream: &Stream, resolver: &R) -> (out: Result<Decoding>)
    ensures
        comes_to(out, stream_chain(resolver, stream@)),
{
    let names = filter_names(&stream.dict, resolver);
    let ghost expected = chain_stages(resolver, stream.dict@);
    if names.len() > MAX_FILTER_CHAIN {
        let mut msg = "filter chain of ".to_owned();
        msg.append(text::decimal(names.len() as u64).as_str());
        msg.append(" entries exceeds the limit of ");
        msg.append(text::decimal(MAX_FILTER_CHAIN as u64).as_str());
        return Err(Error::Decode(msg));
    }
    let parms = resolve_value(stream.dict.get("DecodeParms"), resolver);
    let mut stages: Vec<Stage> = Vec::new();
    let mut i: usize = 0;
    while i < names.len()
        invariant
            i <= names@.len(),
            stages@.len() == i,
            names_view(names@) == chain_names(resolver, stream.dict@),
            object::owned_view(parms) == value_of(
                resolver,
                object::lookup(stream.dict@, "DecodeParms"@),
            ),
            expected == chain_stages(resolver, stream.dict@),
            forall|j: int| 0 <= j < i ==> (#[trigger] stages@[j])@ == expected[j],
        decreases names@.len() - i,
    {
        let ghost entry = names_view(names@)[i as int];
        let stage = Stage {
            name: names[i].1.clone(),
            parms: parms_at(parms.as_ref(), names[i].0, resolver),
            last: i == names.len() - 1,
        };
        assert(stage@ == expected[i as int]);
        stages.push(stage);
        i += 1;
    }
    assert(stages_view(stages@) =~= expected);
    run(stages, stream.data.clone())
}

/// The last name in a `/Filter` array.
pub open spec fn last_name(src: SourceV, items: Seq<ObjectV>) -> Option<Seq<char>>
    decreases items.len(),
{
    if items.len() == 0 {
        None
    } else {
        match source::resolved(src, items.last()) {
            Ok(ObjectV::Name(n)) => Some(n),
            _ => last_name(src, items.drop_last()),
        }
    }
}

/// The last filter of a stream dictionary.
pub open spec fn trailing_name(src: SourceV, dict: Map<Seq<char>, ObjectV>) -> Option<Seq<char>> {
    match object::lookup(dict, "Filter"@) {
        None => None,
        Some(o) => match source::resolved(src, o) {
            Ok(ObjectV::Name(n)) => Some(n),
            Ok(ObjectV::Array(items)) => last_name(src, items),
            _ => None,
        },
    }
}

/// The last name in a `/Filter` array, references followed.
fn last_named<S: ObjectSource>(src: &S, items: &[Object]) -> (out: Option<Name>)
    ensures
        match out {
            Some(n) => last_name(src.model(), object::objects_view(items@)) == Some(n@),
            None => last_name(src.model(), object::objects_view(items@)) is None,
        },
{
    let ghost all = object::objects_view(items@);
    let mut i: usize = items.len();
    assert(all.take(i as int) =~= all);
    while i > 0
        invariant
            i <= items@.len(),
            all == object::objects_view(items@),
            last_name(src.model(), all) == last_name(src.model(), all.take(i as int)),
        decreases i,
    {
        proof {
            assert(all.take(i as int).last() == items@[i - 1]@);
            assert(all.take(i as int).drop_last() =~= all.take(i - 1));
        }
        match &items[i - 1] {
            Object::Name(n) => {
                return Some(n.clone());
            },
            Object::Ref(_) => {
                if let Ok(Object::Name(n)) = src.resolve(&items[i - 1]) {
                    return Some(n);
                }
            },
            // Not a name and not a road to one.
            _ => {},
        }
        i -= 1;
    }
    None
}

/// The last `Name` of a stream's `/Filter` value — the codec the data is
/// still encoded in when [`decode_stream`] passes an image codec through
/// untouched, or `None` when the chain ends in a filter that decodes here.
///
/// Reads `/Filter` exactly as [`decode_stream`] does: the value and every
/// array element are resolved through the source, non-Name elements are
/// skipped (`/Filter [/JPXDecode null]` still trails `JPXDecode`), and an
/// unusable value has no trailing filter at all. The two must agree on
/// which filter is "last", or a passthrough goes unrecognized and its
/// codestream bytes get consumed as decoded data.
///
/// A value that holds no reference is read straight off the dictionary.
pub fn trailing_filter_with<S: ObjectSource>(src: &S, dict: &Dict) -> (out: Option<Name>)
    ensures
        match out {
            Some(n) => trailing_name(src.model(), dict@) == Some(n@),
            None => trailing_name(src.model(), dict@) is None,
        },
{
    match dict.get("Filter") {
        None => None,
        Some(Object::Name(n)) => Some(n.clone()),
        Some(Object::Array(items)) => last_named(src, items),
        Some(Object::Ref(r)) => match src.resolve(&Object::Ref(*r)) {
            Ok(Object::Name(n)) => Some(n),
            Ok(Object::Array(items)) => last_named(src, &items),
            _ => None,
        },
        Some(_) => None,
    }
}

/// Whether a resolver and a source lead every object to the same name or the
/// same array, or both to neither.
pub open spec fn read_alike<R: Resolve>(resolver: &R, src: SourceV) -> bool {
    forall|o: ObjectV|
        {
            let a = #[trigger] value_of(resolver, Some(o));
            let b = source::resolved(src, o);
            &&& forall|n: Seq<char>|
                (a == Some(ObjectV::Name(n))) == (b == Ok::<ObjectV, source::FaultV>(
                    ObjectV::Name(n),
                ))
            &&& forall|items: Seq<ObjectV>|
                (a == Some(ObjectV::Array(items))) == (b == Ok::<ObjectV, source::FaultV>(
                    ObjectV::Array(items),
                ))
        }
}

proof fn lemma_last_agrees<R: Resolve>(resolver: &R, src: SourceV, items: Seq<ObjectV>)
    requires
        read_alike(resolver, src),
    ensures
        ({
            let names = named_filters(resolver, items);
            last_name(src, items) == (if names.len() == 0 {
                None
            } else {
                Some(names.last().1)
            })
        }),
    decreases items.len(),
{
    if items.len() > 0 {
        lemma_last_agrees(resolver, src, items.drop_last());
        let a = value_of(resolver, Some(items.last()));
        let b = source::resolved(src, items.last());
        if let Some(ObjectV::Name(n)) = a {
            assert(b == Ok::<ObjectV, source::FaultV>(ObjectV::Name(n)));
        }
        if let Ok(ObjectV::Name(n)) = b {
            assert(a == Some(ObjectV::Name(n)));
        }
    }
}

/// Law: the trailing filter is the last stage of the chain that decoding a
/// stream runs, whenever the resolver and the source lead to the same names
/// and arrays.
pub proof fn trailing_filter_ends_the_chain<R: Resolve>(
    resolver: &R,
    src: SourceV,
    dict: Map<Seq<char>, ObjectV>,
)
    requires
        read_alike(resolver, src),
    ensures
        ({
            let stages = chain_stages(resolver, dict);
            trailing_name(src, dict) == (if stages.len() == 0 {
                None
            } else {
                Some(stages.last().name)
            })
        }),
{
    if let Some(o) = object::lookup(dict, "Filter"@) {
        let a = value_of(resolver, Some(o));
        let b = source::resolved(src, o);
        if let Some(ObjectV::Name(n)) = a {
            assert(b == Ok::<ObjectV, source::FaultV>(ObjectV::Name(n)));
        }
        if let Some(ObjectV::Array(items)) = a {
            assert(b == Ok::<ObjectV, source::FaultV>(ObjectV::Array(items)));
            lemma_last_agrees(resolver, src, items);
        }
        if let Ok(ObjectV::Name(n)) = b {
            assert(a == Some(ObjectV::Name(n)));
        }
        if let Ok(ObjectV::Array(items)) = b {
            assert(a == Some(ObjectV::Array(items)));
        }
    }
}

/// Whether a resolver delivers exactly the objects a source can fetch.
pub open spec fn resolves_from<R: Resolve>(resolver: &R, src: SourceV) -> bool {
    forall|r: crate::object::ObjRef|
        #[trigger] resolver.resolved(r) == (match (src.fetched)(r) {
            Ok(o) => Some(o),
            Err(_) => None,
        })
}

proof fn lemma_follow_as_chase<R: Resolve>(
    resolver: &R,
    src: SourceV,
    o: ObjectV,
    hops: nat,
    last: u32,
)
    requires
        resolves_from(resolver, src),
    ensures
        match followed(resolver, o, hops) {
            Some(end) => source::chase(src, o, hops, last) == Ok::<ObjectV, source::FaultV>(end),
            None => source::chase(src, o, hops, last) matches Ok(end) ==> end == ObjectV::Null,
        },
    decreases hops,
{
    if hops > 0 {
        if let ObjectV::Ref(r) = o {
            assert(resolver.resolved(r) == resolver.resolved(r));
            if let Ok(next) = (src.fetched)(r) {
                lemma_follow_as_chase(resolver, src, next, (hops - 1) as nat, r.num);
            }
        }
    }
}

/// Law: a resolver that delivers what a source fetches reads filter chains
/// like the source does, however deep their references.
pub proof fn deep_chains_read_alike<R: Resolve>(resolver: &R, src: SourceV)
    requires
        resolves_from(resolver, src),
    ensures
        read_alike(resolver, src),
{
    assert forall|o: ObjectV|
        {
            let a = #[trigger] value_of(resolver, Some(o));
            let b = source::resolved(src, o);
            &&& forall|n: Seq<char>|
                (a == Some(ObjectV::Name(n))) == (b == Ok::<ObjectV, source::FaultV>(
                    ObjectV::Name(n),
                ))
            &&& forall|items: Seq<ObjectV>|
                (a == Some(ObjectV::Array(items))) == (b == Ok::<ObjectV, source::FaultV>(
                    ObjectV::Array(items),
                ))
        } by {
        lemma_follow_as_chase(resolver, src, o, source::MAX_RESOLVE_DEPTH as nat, 0);
    }
}

/// A dictionary with one filter put into it.
pub open spec fn with_filter(
    d: Map<Seq<char>, ObjectV>,
    name: Seq<char>,
) -> Map<Seq<char>, ObjectV> {
    d.insert("Filter"@, ObjectV::Name(name))
}

/// A dictionary with an array of two filters put into it.
pub open spec fn with_filters(
    d: Map<Seq<char>, ObjectV>,
    first: Seq<char>,
    second: Seq<char>,
) -> Map<Seq<char>, ObjectV> {
    d.insert("Filter"@, ObjectV::Array(seq![ObjectV::Name(first), ObjectV::Name(second)]))
}

/// What a chain comes to when the bytes it is done with become the data of a
/// stream with the filter `name`.
pub open spec fn refiltered<R: Resolve>(
    resolver: &R,
    d: Map<Seq<char>, ObjectV>,
    name: Seq<char>,
    chain: ChainV,
) -> ChainV {
    match chain {
        ChainV::Done(data) => stream_chain(
            resolver,
            StreamV { dict: with_filter(d, name), data },
        ),
        _ => chain,
    }
}

/// The stages of one filter without parameters.
proof fn lemma_one_stage<R: Resolve>(resolver: &R, d: Map<Seq<char>, ObjectV>, name: Seq<char>)
    requires
        !d.contains_key("DecodeParms"@),
    ensures
        chain_stages(resolver, with_filter(d, name)) == seq![
            StageV { name, parms: None, last: true },
        ],
{
    lemma_keys_differ();
    let dict = with_filter(d, name);
    assert(value_of(resolver, object::lookup(dict, "Filter"@)) == Some(ObjectV::Name(name)));
    assert(value_of(resolver, object::lookup(dict, "DecodeParms"@)).is_none());
    assert(chain_stages(resolver, dict) =~= seq![StageV { name, parms: None, last: true }]);
}

/// The stages of two filters without parameters.
proof fn lemma_two_stages<R: Resolve>(
    resolver: &R,
    d: Map<Seq<char>, ObjectV>,
    first: Seq<char>,
    second: Seq<char>,
)
    requires
        !d.contains_key("DecodeParms"@),
    ensures
        chain_stages(resolver, with_filters(d, first, second)) == seq![
            StageV { name: first, parms: None, last: false },
            StageV { name: second, parms: None, last: true },
        ],
{
    lemma_keys_differ();
    let dict = with_filters(d, first, second);
    let items = seq![ObjectV::Name(first), ObjectV::Name(second)];
    assert(value_of(resolver, object::lookup(dict, "Filter"@)) == Some(ObjectV::Array(items)));
    assert(value_of(resolver, object::lookup(dict, "DecodeParms"@)).is_none());
    reveal_with_fuel(named_filters, 3);
    assert(items.drop_last() =~= seq![ObjectV::Name(first)]);
    assert(items.drop_last().drop_last() =~= Seq::<ObjectV>::empty());
    assert(value_of(resolver, Some(items[0])) == Some(ObjectV::Name(first)));
    assert(value_of(resolver, Some(items[1])) == Some(ObjectV::Name(second)));
    assert(named_filters(resolver, items) =~= seq![(0int, first), (1int, second)]);
    assert(chain_stages(resolver, dict) =~= seq![
        StageV { name: first, parms: None, last: false },
        StageV { name: second, parms: None, last: true },
    ]);
}

proof fn lemma_keys_differ()
    ensures
        "Filter"@ != "DecodeParms"@,
{
    reveal_strlit("Filter");
    reveal_strlit("DecodeParms");
    assert("Filter"@.len() != "DecodeParms"@.len());
}

/// Law: two filters decode one after the other. What a stream with the filters
/// `first` and `second` comes to is the error that `first` alone comes to, or
/// what `second` makes of the bytes that `first` alone is done with. Where
/// `first` waits for a codec, both chains wait for the same codec with the same
/// data, and the law holds of what they come to when they are resumed. The
/// filters whose place in a chain matters cannot come first.
pub proof fn two_filters_decode_in_turn<R: Resolve>(
    resolver: &R,
    d: Map<Seq<char>, ObjectV>,
    first: Seq<char>,
    second: Seq<char>,
    data: Seq<u8>,
)
    requires
        !d.contains_key("Filter"@),
        !d.contains_key("DecodeParms"@),
        !image_codec(first),
        first != "JBIG2Decode"@,
    ensures
        ({
            let one = stream_chain(resolver, StreamV { dict: with_filter(d, first), data });
            let both = stream_chain(
                resolver,
                StreamV { dict: with_filters(d, first, second), data },
            );
            match one {
                ChainV::Waiting { codec, parms, data: input, rest } => {
                    &&& both matches ChainV::Waiting {
                        codec: codec2,
                        parms: parms2,
                        data: input2,
                        rest: rest2,
                    }
                    &&& codec2 == codec
                    &&& parms2 == parms
                    &&& input2 == input
                    &&& rest.len() == 0
                    &&& forall|decoded: Seq<u8>|
                        #[trigger] stage_done(rest2, decoded) == refiltered(
                            resolver,
                            d,
                            second,
                            stage_done(rest, decoded),
                        )
                },
                _ => both == refiltered(resolver, d, second, one),
            }
        }),
{
    lemma_one_stage(resolver, d, first);
    lemma_two_stages(resolver, d, first, second);
    let ahead = StageV { name: first, parms: None, last: true };
    let before = StageV { name: first, parms: None, last: false };
    let behind = StageV { name: second, parms: None, last: true };
    assert(seq![ahead].drop_first() =~= Seq::<StageV>::empty());
    assert(seq![before, behind].drop_first() =~= seq![behind]);
    assert forall|decoded: Seq<u8>| #[trigger]
        stage_done(seq![behind], decoded) == refiltered(
            resolver,
            d,
            second,
            stage_done(Seq::<StageV>::empty(), decoded),
        ) by {
        lemma_one_stage(resolver, d, second);
    }
    assert(action_of(first, true) == action_of(first, false));
    let one = stream_chain(resolver, StreamV { dict: with_filter(d, first), data });
    let both = stream_chain(resolver, StreamV { dict: with_filters(d, first, second), data });
    assert(one == run_chain(seq![ahead], data));
    assert(both == run_chain(seq![before, behind], data));
    let nothing = Seq::<StageV>::empty();
    let bytes = match action_of(first, true) {
        Action::Lzw => lzw::lzw_bytes(data, lzw::early_change(None)),
        _ => run_length::runs(data, 0),
    };
    let passed = match action_of(first, true) {
        Action::Lzw => predictor::post_passed(bytes, None),
        _ => bytes,
    };
    assert(stage_done(seq![behind], passed) == refiltered(
        resolver,
        d,
        second,
        stage_done(nothing, passed),
    ));
    if let Action::Outside(codec) = action_of(first, true) {
        assert(one == ChainV::Waiting { codec, parms: None, data, rest: nothing });
        assert(both == ChainV::Waiting { codec, parms: None, data, rest: seq![behind] });
    } else {
        assert(both == refiltered(resolver, d, second, one));
    }
}

/// What came of running a chain to its end, with the codecs at hand.
pub enum EndV<E> {
    /// The decoded data.
    Done(Seq<u8>),
    /// The filter of this name is unsupported.
    Unsupported(Seq<char>),
    /// Decoding failed with this message.
    Failed(Seq<char>),
    /// A codec failed.
    Codec(E),
}

/// What codecs make of data: the decoded bytes or an error.
pub type CodecsV<E> = spec_fn(
    Codec,
    Option<Map<Seq<char>, ObjectV>>,
    Seq<u8>,
) -> core::result::Result<Seq<u8>, E>;

/// How many stages a chain still has to run.
pub open spec fn stages_left(chain: ChainV) -> nat {
    match chain {
        ChainV::Waiting { rest, .. } => rest.len() + 1,
        _ => 0,
    }
}

/// Law: every resumption leaves a chain with fewer stages to run, so that a
/// chain that is resumed again and again comes to an end.
pub proof fn resumed_chains_are_shorter(rest: Seq<StageV>, data: Seq<u8>)
    ensures
        stages_left(stage_done(rest, data)) <= rest.len(),
    decreases rest.len(),
{
    if rest.len() > 0 && data.len() <= MAX_DECODED_LEN {
        let stage = rest[0];
        match action_of(stage.name, stage.last) {
            Action::Keep => {
                resumed_chains_are_shorter(rest.drop_first(), data);
            },
            Action::Lzw => {
                let bytes = lzw::lzw_bytes(data, lzw::early_change(stage.parms));
                resumed_chains_are_shorter(
                    rest.drop_first(),
                    predictor::post_passed(bytes, stage.parms),
                );
            },
            Action::RunLength => {
                resumed_chains_are_shorter(rest.drop_first(), run_length::runs(data, 0));
            },
            _ => {},
        }
    }
}

/// Where a chain ends when `codecs` decode whatever it waits for.
pub open spec fn driven<E>(codecs: CodecsV<E>, chain: ChainV) -> EndV<E>
    decreases stages_left(chain),
{
    match chain {
        ChainV::Done(data) => EndV::Done(data),
        ChainV::Unsupported(name) => EndV::Unsupported(name),
        ChainV::Failed(msg) => EndV::Failed(msg),
        ChainV::Waiting { codec, parms, data, rest } => match codecs(codec, parms, data) {
            Ok(bytes) => {
                proof {
                    resumed_chains_are_shorter(rest, bytes);
                }
                driven(codecs, stage_done(rest, bytes))
            },
            Err(e) => EndV::Codec(e),
        },
    }
}

/// Law: run to their end, two filters decode one after the other, whatever the
/// codecs do: the stream ends in the error that `first` alone ends in, or where
/// `second` ends on the bytes that `first` alone decodes.
pub proof fn driven_filters_decode_in_turn<R: Resolve, E>(
    resolver: &R,
    codecs: CodecsV<E>,
    d: Map<Seq<char>, ObjectV>,
    first: Seq<char>,
    second: Seq<char>,
    data: Seq<u8>,
)
    requires
        !d.contains_key("Filter"@),
        !d.contains_key("DecodeParms"@),
        !image_codec(first),
        first != "JBIG2Decode"@,
    ensures
        ({
            let one = stream_chain(resolver, StreamV { dict: with_filter(d, first), data });
            let both = stream_chain(
                resolver,
                StreamV { dict: with_filters(d, first, second), data },
            );
            driven(codecs, both) == (match driven(codecs, one) {
                EndV::Done(bytes) => driven(
                    codecs,
                    stream_chain(
                        resolver,
                        StreamV { dict: with_filter(d, second), data: bytes },
                    ),
                ),
                end => end,
            })
        }),
{
    two_filters_decode_in_turn(resolver, d, first, second, data);
    let one = stream_chain(resolver, StreamV { dict: with_filter(d, first), data });
    let both = stream_chain(resolver, StreamV { dict: with_filters(d, first, second), data });
    reveal_with_fuel(driven, 2);
    if let ChainV::Waiting { codec, parms, data: input, rest } = one {
        if let Ok(bytes) = codecs(codec, parms, input) {
            if let ChainV::Waiting { rest: rest2, .. } = both {
                assert(stage_done(rest2, bytes) == refiltered(
                    resolver,
                    d,
                    second,
                    stage_done(rest, bytes),
                ));
                assert(driven(codecs, both) == driven(codecs, stage_done(rest2, bytes)));
                assert(driven(codecs, one) == driven(codecs, stage_done(rest, bytes)));
            }
        }
    }
}

/// Law: the filter names and their abbreviations name the same filter, the
/// codecs wherever they stand, JBIG2 and the image codecs at the end of a chain
/// only.
pub proof fn filter_names_name_their_filter(last: bool)
    ensures
        action_of("FlateDecode"@, last) == Action::Outside(Codec::Flate),
        action_of("Fl"@, last) == Action::Outside(Codec::Flate),
        action_of("LZWDecode"@, last) == Action::Lzw,
        action_of("LZW"@, last) == Action::Lzw,
        action_of("ASCIIHexDecode"@, last) == Action::Outside(Codec::AsciiHex),
        action_of("AHx"@, last) == Action::Outside(Codec::AsciiHex),
        action_of("ASCII85Decode"@, last) == Action::Outside(Codec::Ascii85),
        action_of("A85"@, last) == Action::Outside(Codec::Ascii85),
        action_of("RunLengthDecode"@, last) == Action::RunLength,
        action_of("RL"@, last) == Action::RunLength,
        action_of("CCITTFaxDecode"@, last) == Action::Outside(Codec::CcittFax),
        action_of("CCF"@, last) == Action::Outside(Codec::CcittFax),
        action_of("JBIG2Decode"@, true) == Action::Outside(Codec::Jbig2),
        action_of("DCTDecode"@, true) == Action::Keep,
        action_of("DCT"@, true) == Action::Keep,
        action_of("JPXDecode"@, true) == Action::Keep,
        action_of("JBIG2Decode"@, false) == Action::Unsupported,
        action_of("DCTDecode"@, false) == Action::Unsupported,
        action_of("DCT"@, false) == Action::Unsupported,
        action_of("JPXDecode"@, false) == Action::Unsupported,
        action_of("Crypt"@, last) == Action::Unsupported,
{
    reveal_strlit("FlateDecode");
    reveal_strlit("Fl");
    reveal_strlit("LZWDecode");
    reveal_strlit("LZW");
    reveal_strlit("ASCIIHexDecode");
    reveal_strlit("AHx");
    reveal_strlit("ASCII85Decode");
    reveal_strlit("A85");
    reveal_strlit("RunLengthDecode");
    reveal_strlit("RL");
    reveal_strlit("CCITTFaxDecode");
    reveal_strlit("CCF");
    reveal_strlit("JBIG2Decode");
    reveal_strlit("DCTDecode");
    reveal_strlit("DCT");
    reveal_strlit("JPXDecode");
    reveal_strlit("Crypt");
    // Names of one length differ in a letter.
    assert("Fl"@.len() == 2 && "RL"@.len() == 2 && "Fl"@[0] != "RL"@[0]);
    assert("LZW"@.len() == 3 && "AHx"@.len() == 3 && "A85"@.len() == 3 && "CCF"@.len() == 3
        && "DCT"@.len() == 3);
    assert("LZW"@[0] == 'L' && "AHx"@[1] == 'H' && "A85"@[1] == '8' && "CCF"@[0] == 'C'
        && "DCT"@[0] == 'D' && "AHx"@[0] == 'A' && "A85"@[0] == 'A');
    assert("LZWDecode"@.len() == 9 && "DCTDecode"@.len() == 9 && "JPXDecode"@.len() == 9);
    assert("LZWDecode"@[0] == 'L' && "DCTDecode"@[0] == 'D' && "JPXDecode"@[0] == 'J');
    assert("FlateDecode"@.len() == 11 && "JBIG2Decode"@.len() == 11);
    assert("FlateDecode"@[0] == 'F' && "JBIG2Decode"@[0] == 'J');
    assert("ASCIIHexDecode"@.len() == 14 && "CCITTFaxDecode"@.len() == 14);
    assert("ASCIIHexDecode"@[0] == 'A' && "CCITTFaxDecode"@[0] == 'C');
    assert("ASCII85Decode"@.len() == 13 && "RunLengthDecode"@.len() == 15 && "Crypt"@.len() == 5);
}

/// Law: what an integer parameter is worth: an integer itself, a real number its
/// whole part, a flag one or zero, and anything else or nothing the default.
pub proof fn parameters_are_coerced(
    parms: Map<Seq<char>, ObjectV>,
    key: Seq<char>,
    default: i64,
    v: i64,
    small: i64,
)
    requires
        -0x20_0000_0000_0000 < small < 0x20_0000_0000_0000,
    ensures
        parm_int(Some(parms.insert(key, ObjectV::Int(v))), key, default) == v,
        parm_int(
            Some(
                parms.insert(
                    key,
                    ObjectV::Real(number::Real { bits: number::int_bits(small) as u64 }),
                ),
            ),
            key,
            default,
        ) == small,
        parm_int(Some(parms.insert(key, ObjectV::Bool(true))), key, default) == 1,
        parm_int(Some(parms.insert(key, ObjectV::Bool(false))), key, default) == 0,
        parm_int(Some(parms.insert(key, ObjectV::Null)), key, default) == default,
        parm_int(Some(parms.remove(key)), key, default) == default,
        parm_int(None, key, default) == default,
{
    number::small_integers_survive(small);
}

/// Law: parameters go to their filter: one dictionary to the first filter alone,
/// an array to each filter what stands at its place.
pub proof fn parameters_go_to_their_filter<R: Resolve>(
    resolver: &R,
    d: Map<Seq<char>, ObjectV>,
    items: Seq<ObjectV>,
    index: int,
)
    requires
        index >= 0,
        forall|k: Seq<char>|
            #[trigger] d.contains_key(k) ==> !(d[k] is Ref),
    ensures
        parms_for(resolver, Some(ObjectV::Dict(d)), index) == (if index == 0 {
            Some(d)
        } else {
            None
        }),
        index < items.len() && items[index] == ObjectV::Dict(d) ==> parms_for(
            resolver,
            Some(ObjectV::Array(items)),
            index,
        ) == Some(d),
        index >= items.len() ==> parms_for(resolver, Some(ObjectV::Array(items)), index) is None,
        index < items.len() && items[index] == ObjectV::Null ==> parms_for(
            resolver,
            Some(ObjectV::Array(items)),
            index,
        ) is None,
        parms_for(resolver, None, index) is None,
{
    assert(followed_values(resolver, d) =~= d) by {
        assert forall|k: Seq<char>| d.contains_key(k) implies followed_values(resolver, d)[k]
            == d[k] by {
            assert(!(d[k] is Ref));
        }
    }
}

/// Law: codes widen early unless the parameters say otherwise with a zero.
pub proof fn codes_widen_early_unless_told(parms: Map<Seq<char>, ObjectV>, v: i64)
    ensures
        lzw::early_change(None) == 1,
        lzw::early_change(Some(parms.remove("EarlyChange"@))) == 1,
        lzw::early_change(Some(parms.insert("EarlyChange"@, ObjectV::Int(v)))) == (if v == 0 {
            0int
        } else {
            1
        }),
{
}

/// Law: a chain of up to 32 filters is run and a longer one refused, and no
/// filter may hand on more than 256 MiB.
pub proof fn chains_are_limited<R: Resolve>(
    resolver: &R,
    s: StreamV,
    rest: Seq<StageV>,
    data: Seq<u8>,
)
    ensures
        chain_stages(resolver, s.dict).len() <= 32 ==> stream_chain(resolver, s) == run_chain(
            chain_stages(resolver, s.dict),
            s.data,
        ),
        chain_stages(resolver, s.dict).len() > 32 ==> stream_chain(resolver, s) is Failed,
        data.len() <= 268435456 ==> stage_done(rest, data) == run_chain(rest, data),
        data.len() > 268435456 ==> stage_done(rest, data) is Failed,
{
}

/// Law: without filters the data stays as it is; a single name and an array of
/// one name are the same chain; entries that are no names are skipped, while
/// parameters stay with the places of their filters.
pub proof fn filters_are_read_in_order<R: Resolve>(
    resolver: &R,
    dict: Map<Seq<char>, ObjectV>,
    data: Seq<u8>,
    items: Seq<ObjectV>,
    name: Seq<char>,
)
    ensures
        !dict.contains_key("Filter"@) ==> stream_chain(resolver, StreamV { dict, data })
            == ChainV::Done(data),
        named_filters(resolver, items.push(ObjectV::Name(name))) == named_filters(
            resolver,
            items,
        ).push((items.len() as int, name)),
        named_filters(resolver, items.push(ObjectV::Null)) == named_filters(resolver, items),
        named_filters(resolver, Seq::empty()).len() == 0,
        chain_names(resolver, dict.insert("Filter"@, ObjectV::Name(name))) == chain_names(
            resolver,
            dict.insert("Filter"@, ObjectV::Array(seq![ObjectV::Name(name)])),
        ),
{
    assert(items.push(ObjectV::Name(name)).drop_last() =~= items);
    assert(items.push(ObjectV::Null).drop_last() =~= items);
    let one = seq![ObjectV::Name(name)];
    assert(one.drop_last() =~= Seq::<ObjectV>::empty());
    assert(one.last() == ObjectV::Name(name));
    assert(named_filters(resolver, one) =~= seq![(0int, name)]) by {
        assert(named_filters(resolver, Seq::<ObjectV>::empty()) =~= Seq::<
            (int, Seq<char>),
        >::empty());
    }
}

/// Law: what the filters decoded here do to data: run lengths and LZW codes are
/// expanded, LZW undoing its predictor; a kept codec hands its data on.
pub proof fn stages_decode_their_data(
    name: Seq<char>,
    parms: Option<Map<Seq<char>, ObjectV>>,
    last: bool,
    rest: Seq<StageV>,
    data: Seq<u8>,
)
    ensures
        ({
            let out = run_chain(seq![StageV { name, parms, last }] + rest, data);
            let runs = run_length::runs(data, 0);
            let codes = lzw::lzw_bytes(data, lzw::early_change(parms));
            &&& name == "RunLengthDecode"@ && runs.len() <= 268435456 ==> out == stage_done(
                rest,
                runs,
            )
            &&& name == "LZWDecode"@ && codes.len() <= 268435456 ==> out == stage_done(
                rest,
                predictor::post_passed(codes, parms),
            )
            &&& name == "DCTDecode"@ && last ==> out == stage_done(rest, data)
            &&& name == "Crypt"@ ==> out == ChainV::Unsupported(name)
        }),
{
    let stages = seq![StageV { name, parms, last }] + rest;
    assert(stages[0] == (StageV { name, parms, last }));
    assert(stages.drop_first() =~= rest);
    filter_names_name_their_filter(last);
}

/// Law: a value is found behind up to 31 references.
pub proof fn values_are_followed<R: Resolve>(resolver: &R, chain: Seq<ObjRef>, o: ObjectV)
    requires
        chain.len() > 0,
        forall|i: int|
            0 <= i < chain.len() - 1 ==> resolver.resolved(#[trigger] chain[i]) == Some(
                ObjectV::Ref(chain[i + 1]),
            ),
        resolver.resolved(chain.last()) == Some(o),
        !(o is Ref),
    ensures
        chain.len() <= 31 ==> value_of(resolver, Some(ObjectV::Ref(chain[0]))) == Some(o),
        chain.len() >= 32 ==> value_of(resolver, Some(ObjectV::Ref(chain[0]))) is None,
        value_of(resolver, Some(o)) == Some(o),
        value_of(resolver, None) is None,
{
    lemma_values_followed(resolver, chain, o, 32);
}

proof fn lemma_values_followed<R: Resolve>(
    resolver: &R,
    chain: Seq<ObjRef>,
    o: ObjectV,
    hops: nat,
)
    requires
        chain.len() > 0,
        forall|i: int|
            0 <= i < chain.len() - 1 ==> resolver.resolved(#[trigger] chain[i]) == Some(
                ObjectV::Ref(chain[i + 1]),
            ),
        resolver.resolved(chain.last()) == Some(o),
        !(o is Ref),
    ensures
        followed(resolver, ObjectV::Ref(chain[0]), hops) == (if chain.len() < hops {
            Some(o)
        } else {
            None
        }),
    decreases hops,
{
    if hops > 0 {
        if chain.len() == 1 {
            assert(chain[0] == chain.last());
            reveal_with_fuel(followed, 2);
        } else {
            let rest = chain.skip(1);
            assert(forall|i: int| 0 <= i < rest.len() ==> #[trigger] rest[i] == chain[i + 1]);
            assert(resolver.resolved(chain[0]) == Some(ObjectV::Ref(chain[0int + 1])));
            assert(rest[0] == chain[1]);
            lemma_values_followed(resolver, rest, o, (hops - 1) as nat);
        }
    }
}

/// Law: the trailing filter is the last name among the filters.
pub proof fn the_last_name_is_trailing(
    src: SourceV,
    dict: Map<Seq<char>, ObjectV>,
    items: Seq<ObjectV>,
    name: Seq<char>,
)
    ensures
        last_name(src, items.push(ObjectV::Name(name))) == Some(name),
        last_name(src, items.push(ObjectV::Null)) == last_name(src, items),
        tree::has(dict, "Filter"@, ObjectV::Array(items.push(ObjectV::Name(name))))
            ==> trailing_name(src, dict) == Some(name),
        tree::has(dict, "Filter"@, ObjectV::Name(name)) ==> trailing_name(src, dict) == Some(name),
        !dict.contains_key("Filter"@) ==> trailing_name(src, dict) is None,
        trailing_name(
            src,
            Map::<Seq<char>, ObjectV>::empty().insert("Filter"@, ObjectV::Array(Seq::empty())),
        ) is None,
{
    assert(items.push(ObjectV::Name(name)).drop_last() =~= items);
    assert(items.push(ObjectV::Null).drop_last() =~= items);
    assert(last_name(src, Seq::empty()) is None);
}

} // verus!
